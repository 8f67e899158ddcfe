//! Decimal text of integers and of fixed-point quotients, and padding.
use vstd::prelude::*;

verus! {

/// The character of the decimal digit `d`.
pub open spec fn digit_char(d: int) -> char {
    seq!['0', '1', '2', '3', '4', '5', '6', '7', '8', '9'][d]
}

/// The decimal text of `n`, without leading zeros.
pub open spec fn decimal(n: nat) -> Seq<char>
    decreases n,
{
    if n < 10 {
        seq![digit_char(n as int)]
    } else {
        decimal(n / 10).push(digit_char((n % 10) as int))
    }
}

/// The last `width` decimal digits of `n`, with leading zeros.
pub open spec fn zero_padded(n: nat, width: nat) -> Seq<char>
    decreases width,
{
    if width == 0 {
        seq![]
    } else {
        zero_padded(n / 10, (width - 1) as nat).push(digit_char((n % 10) as int))
    }
}

/// `k` spaces.
pub open spec fn spaces(k: int) -> Seq<char> {
    Seq::new(if k < 0 { 0 } else { k as nat }, |i: int| ' ')
}

/// `s` preceded by spaces up to `width` characters.
pub open spec fn pad_left(s: Seq<char>, width: int) -> Seq<char> {
    spaces(width - s.len()) + s
}

/// `s` followed by spaces up to `width` characters.
pub open spec fn pad_right(s: Seq<char>, width: int) -> Seq<char> {
    s + spaces(width - s.len())
}

/// Ten to the power `k`.
pub open spec fn pow10(k: nat) -> nat
    decreases k,
{
    if k == 0 {
        1
    } else {
        10 * pow10((k - 1) as nat)
    }
}

/// `num / den` rounded to the nearest integer, halves to the even one.
pub open spec fn round_half_even(num: nat, den: nat) -> nat {
    let q = num / den;
    let r = num % den;
    if 2 * r > den || (2 * r == den && q % 2 == 1) {
        q + 1
    } else {
        q
    }
}

/// The text of `scaled / 10^places` with `places` decimals.
pub open spec fn fixed_point(scaled: nat, places: nat) -> Seq<char> {
    if places == 0 {
        decimal(scaled)
    } else {
        decimal(scaled / pow10(places)) + seq!['.'] + zero_padded(scaled % pow10(places), places)
    }
}

/// The text of one digit.
fn digit_str(d: u128) -> (r: &'static str)
    requires
        d < 10,
    ensures
        r@ == seq![digit_char(d as int)],
{
    proof {
        reveal_strlit("0");
        reveal_strlit("1");
        reveal_strlit("2");
        reveal_strlit("3");
        reveal_strlit("4");
        reveal_strlit("5");
        reveal_strlit("6");
        reveal_strlit("7");
        reveal_strlit("8");
        reveal_strlit("9");
    }
    let r = if d == 0 {
        "0"
    } else if d == 1 {
        "1"
    } else if d == 2 {
        "2"
    } else if d == 3 {
        "3"
    } else if d == 4 {
        "4"
    } else if d == 5 {
        "5"
    } else if d == 6 {
        "6"
    } else if d == 7 {
        "7"
    } else if d == 8 {
        "8"
    } else {
        "9"
    };
    assert(r@ =~= seq![digit_char(d as int)]);
    r
}

/// Appends the decimal text of `n`.
pub fn push_decimal(out: &mut String, n: u128)
    ensures
        final(out)@ == old(out)@ + decimal(n as nat),
    decreases n,
{
    if n >= 10 {
        push_decimal(out, n / 10);
    }
    out.append(digit_str(n % 10));
    assert(final(out)@ =~= old(out)@ + decimal(n as nat));
}

/// Appends the last `width` decimal digits of `n`, with leading zeros.
pub fn push_zero_padded(out: &mut String, n: u128, width: usize)
    ensures
        final(out)@ == old(out)@ + zero_padded(n as nat, width as nat),
    decreases width,
{
    if width > 0 {
        push_zero_padded(out, n / 10, width - 1);
        out.append(digit_str(n % 10));
    }
    assert(final(out)@ =~= old(out)@ + zero_padded(n as nat, width as nat));
}

/// Appends `k` copies of `c`, a one-character text.
pub fn push_repeated(out: &mut String, c: &str, k: usize)
    requires
        c@.len() == 1,
    ensures
        final(out)@ == old(out)@ + Seq::new(k as nat, |i: int| c@[0]),
{
    let ghost start = out@;
    let mut i: usize = 0;
    while i < k
        invariant
            i <= k,
            c@.len() == 1,
            out@ == start + Seq::new(i as nat, |j: int| c@[0]),
        decreases k - i,
    {
        out.append(c);
        i += 1;
        assert(out@ =~= start + Seq::new(i as nat, |j: int| c@[0]));
    }
}

/// Appends the spaces that pad a text of `len` characters to `width`.
pub fn push_spaces(out: &mut String, len: usize, width: usize)
    ensures
        final(out)@ == old(out)@ + spaces(width - len),
{
    proof {
        reveal_strlit(" ");
    }
    let k: usize = if len < width {
        width - len
    } else {
        0
    };
    push_repeated(out, " ", k);
    assert(final(out)@ =~= old(out)@ + spaces(width - len));
}

/// `round_half_even(num, den)`, in machine integers.
pub fn round_half_even_exec(num: u128, den: u128) -> (r: u128)
    requires
        den > 0,
        num / den < u128::MAX,
    ensures
        r == round_half_even(num as nat, den as nat),
{
    let q = num / den;
    let rem = num % den;
    assert(rem < den);
    if rem > den - rem || (rem == den - rem && q % 2 == 1) {
        q + 1
    } else {
        q
    }
}

/// Ten to the power `k`, for small `k`.
pub fn pow10_exec(k: usize) -> (r: u128)
    requires
        k <= 6,
    ensures
        r == pow10(k as nat),
        r >= 1,
        r <= 1000000,
{
    let mut r: u128 = 1;
    let mut i: usize = 0;
    while i < k
        invariant
            i <= k <= 6,
            r == pow10(i as nat),
            1 <= r <= 1000000,
        decreases k - i,
    {
        proof {
            reveal_with_fuel(pow10, 7);
            assert(i < 6 ==> pow10(i as nat) <= 100000);
        }
        r = r * 10;
        i += 1;
    }
    proof {
        reveal_with_fuel(pow10, 7);
    }
    r
}

/// Appends `fixed_point(scaled, places)`.
pub fn push_fixed_point(out: &mut String, scaled: u128, places: usize)
    requires
        places <= 6,
    ensures
        final(out)@ == old(out)@ + fixed_point(scaled as nat, places as nat),
{
    if places == 0 {
        push_decimal(out, scaled);
    } else {
        let unit = pow10_exec(places);
        push_decimal(out, scaled / unit);
        proof {
            reveal_strlit(".");
        }
        out.append(".");
        push_zero_padded(out, scaled % unit, places);
        assert(final(out)@ =~= old(out)@ + fixed_point(scaled as nat, places as nat));
    }
}

/// Appends `text` preceded by the spaces that pad it to `width`.
pub fn push_padded_left(out: &mut String, text: &String, width: usize)
    ensures
        final(out)@ == old(out)@ + pad_left(text@, width as int),
{
    let len = text.as_str().unicode_len();
    push_spaces(out, len, width);
    out.append(text.as_str());
    assert(final(out)@ =~= old(out)@ + pad_left(text@, width as int));
}

/// Appends `text` followed by the spaces that pad it to `width`.
pub fn push_padded_right(out: &mut String, text: &str, width: usize)
    ensures
        final(out)@ == old(out)@ + pad_right(text@, width as int),
{
    let len = text.unicode_len();
    out.append(text);
    push_spaces(out, len, width);
    assert(final(out)@ =~= old(out)@ + pad_right(text@, width as int));
}

} // verus!
