//! The textual report of the measurement tree.
use vstd::prelude::*;

use crate::decimal::{
    decimal, fixed_point, pad_left, pad_right, pow10, pow10_exec, push_decimal, push_fixed_point,
    push_padded_left, push_padded_right, push_repeated, push_spaces, push_zero_padded,
    round_half_even, round_half_even_exec, spaces, zero_padded,
};
use crate::format::FormattingOptions;
use crate::measurement::{
    ancestor, clamp, duration_ns, lemma_preorder_in_arena, overhead_ns, preorder, sum, Profiler, ProfilerView,
};

verus! {

/// The width of a column of branches: the ending glyph's width less the
/// continuing glyph's, or 0.
pub open spec fn column_width(ops: FormattingOptions) -> int {
    let w = ops.ending_branch@.len() - ops.continuing_branch@.len();
    if w < 0 {
        0
    } else {
        w
    }
}

/// Node `i` bears the name of the child last added under its parent.
pub open spec fn is_last_child(v: ProfilerView, i: int) -> bool {
    match v.nodes[i].parent {
        Some(p) => v.nodes[p as int].children.len() > 0 && v.nodes[v.nodes[p as int].children.last() as int].name
            == v.nodes[i].name,
        None => false,
    }
}

/// The column that node `j` draws in the rows of its descendants: a line
/// down to a later sibling of `j`, or blank below a top-level or a last
/// child.
pub open spec fn column(v: ProfilerView, ops: FormattingOptions, j: int) -> Seq<char> {
    if v.nodes[j].depth == 1 || is_last_child(v, j) {
        spaces(column_width(ops))
    } else {
        pad_right(ops.continuing_branch@, column_width(ops))
    }
}

/// The columns that the nodes from the root down to `j` draw in the rows
/// below `j`.
pub open spec fn lead(v: ProfilerView, ops: FormattingOptions, j: int) -> Seq<char>
    decreases j,
{
    if 0 < j < v.nodes.len() {
        match v.nodes[j].parent {
            Some(p) => if p < j {
                lead(v, ops, p as int) + column(v, ops, j)
            } else {
                seq![]
            },
            None => seq![],
        }
    } else {
        seq![]
    }
}

/// The branch drawn for node `i`, followed by its name.
pub open spec fn branch(v: ProfilerView, ops: FormattingOptions, i: int) -> Seq<char> {
    let m = v.nodes[i];
    match m.parent {
        None => ops.ending_branch@ + seq![' '] + m.name,
        Some(p) => {
            let glyph = if m.depth == 1 {
                ops.starting_branch@
            } else if !is_last_child(v, i) {
                ops.branching_branch@
            } else {
                ops.turning_branch@
            };
            let end = if m.children.len() > 0 {
                ops.turning_ending_branch@
            } else {
                ops.ending_branch@
            };
            lead(v, ops, p as int) + glyph + end + seq![' '] + m.name
        },
    }
}

/// The number of runs that node `i`'s durations are spread over: the
/// sample count of the top-level scope above it (or of itself at the top
/// level), and 1 where that scope has no samples.
pub open spec fn group_count(v: ProfilerView, i: int) -> nat
    decreases i,
{
    let m = v.nodes[i];
    if m.depth <= 1 {
        if m.durations.len() == 0 {
            1
        } else {
            m.durations.len()
        }
    } else {
        match m.parent {
            Some(p) => if 0 <= p < i {
                group_count(v, p as int)
            } else {
                1
            },
            None => 1,
        }
    }
}

/// The duration that node `i`'s share is taken of, where it is not its
/// own: its parent's, where the node is below the top level and the
/// parent has samples. `None` where the node is its own basis.
pub open spec fn parent_basis(v: ProfilerView, i: int) -> Option<u64> {
    if v.nodes[i].depth > 1 {
        match v.nodes[i].parent {
            Some(p) => duration_ns(v, p as int),
            None => None,
        }
    } else {
        None
    }
}

/// The share of node `i`, whose duration is `d`: `100.0` where the node is
/// its own basis, whatever `d` is, else `d` as a percentage of the basis.
pub open spec fn share_text(v: ProfilerView, i: int, d: u64) -> Seq<char> {
    match parent_basis(v, i) {
        None => "100.0"@,
        Some(b) => percent_text(d as nat, b as nat),
    }
}

/// `100 * part / whole` with one decimal, five characters wide. A whole of
/// 0, a parent whose overhead took all its time, gives no percentage: the
/// text is then `NaN` for a part of 0 and `inf` for more.
pub open spec fn percent_text(part: nat, whole: nat) -> Seq<char> {
    if whole == 0 {
        if part == 0 {
            "  NaN"@
        } else {
            "  inf"@
        }
    } else {
        pad_left(fixed_point(round_half_even(1000 * part, whole), 1), 5)
    }
}

/// `ns` nanoseconds in milliseconds with `places` decimals.
pub open spec fn millis_text(ns: nat, places: nat) -> Seq<char> {
    if places >= 6 {
        decimal(ns / 1000000) + seq!['.'] + zero_padded(ns % 1000000, 6) + Seq::new(
            (places - 6) as nat,
            |k: int| '0',
        )
    } else {
        fixed_point(round_half_even(ns, pow10((6 - places) as nat)), places)
    }
}

/// The figures of node `i`: its share of the basis, its duration per run
/// of its top-level scope in milliseconds, and its sample count; or
/// `no data` where it has no samples.
pub open spec fn info_line(v: ProfilerView, i: int, decimals: nat) -> Seq<char> {
    match duration_ns(v, i) {
        None => "no data"@,
        Some(d) => share_text(v, i, d) + "%, "@ + pad_left(
            millis_text(d as nat / group_count(v, i), decimals),
            decimals as int + 3,
        ) + " ms/loop, "@ + decimal(v.nodes[i].durations.len()) + " samples"@,
    }
}

/// The widest branch of the nodes `s`, plus one.
pub open spec fn max_width(v: ProfilerView, ops: FormattingOptions, s: Seq<usize>) -> int
    decreases s.len(),
{
    if s.len() == 0 {
        0
    } else {
        let w = branch(v, ops, s.last() as int).len() as int + 1;
        let rest = max_width(v, ops, s.drop_last());
        if w > rest {
            w
        } else {
            rest
        }
    }
}

/// The row of node `i`, its branch padded to `width`.
pub open spec fn row(v: ProfilerView, ops: FormattingOptions, decimals: nat, i: int, width: int) -> Seq<
    char,
> {
    pad_right(branch(v, ops, i), width) + " - "@ + info_line(v, i, decimals) + "\n"@
}

/// The rows of the nodes `s`, one after the other.
pub open spec fn rows(
    v: ProfilerView,
    ops: FormattingOptions,
    decimals: nat,
    s: Seq<usize>,
    width: int,
) -> Seq<char>
    decreases s.len(),
{
    if s.len() == 0 {
        seq![]
    } else {
        rows(v, ops, decimals, s.drop_last(), width) + row(v, ops, decimals, s.last() as int, width)
    }
}

/// The report: one row per node but the root, depth first, with the
/// figures aligned past the widest branch.
pub open spec fn report(v: ProfilerView, ops: FormattingOptions, decimals: nat) -> Seq<char> {
    let order = preorder(v, 0);
    rows(v, ops, decimals, order.drop_first(), max_width(v, ops, order))
}

/// `column_width(ops)`.
fn column_width_exec(ops: FormattingOptions) -> (r: usize)
    ensures
        r == column_width(ops),
{
    let ending = ops.ending_branch.unicode_len();
    let continuing = ops.continuing_branch.unicode_len();
    if ending >= continuing {
        ending - continuing
    } else {
        0
    }
}

/// Whether node `i`, below the root, bears the name of the child last
/// added under its parent.
fn is_last_child_exec(profiler: &Profiler, i: usize) -> (r: bool)
    requires
        profiler@.wf(),
        0 < i < profiler@.nodes.len(),
    ensures
        r == is_last_child(profiler@, i as int),
{
    let m = profiler.measurement(i);
    proof {
        assert(profiler@.parent_ok(i as int));
    }
    match m.parent {
        Some(p) => profiler.is_last_child_name(p, &m.name),
        None => false,
    }
}

/// Appends the column that node `j` draws in the rows of its descendants.
fn push_column(out: &mut String, profiler: &Profiler, ops: FormattingOptions, j: usize)
    requires
        profiler@.wf(),
        0 < j < profiler@.nodes.len(),
    ensures
        final(out)@ == old(out)@ + column(profiler@, ops, j as int),
{
    let width = column_width_exec(ops);
    let m = profiler.measurement(j);
    if m.depth == 1 || is_last_child_exec(profiler, j) {
        push_spaces(out, 0, width);
        assert(spaces(width - 0) == spaces(column_width(ops)));
    } else {
        push_padded_right(out, ops.continuing_branch, width);
    }
}

/// Appends the columns that the nodes from the root down to `j` draw in
/// the rows below `j`.
fn push_lead(out: &mut String, profiler: &Profiler, ops: FormattingOptions, j: usize)
    requires
        profiler@.wf(),
        j < profiler@.nodes.len(),
    ensures
        final(out)@ == old(out)@ + lead(profiler@, ops, j as int),
    decreases j,
{
    if j > 0 {
        let m = profiler.measurement(j);
        proof {
            assert(profiler@.parent_ok(j as int));
        }
        match m.parent {
            Some(p) => {
                push_lead(out, profiler, ops, p);
                push_column(out, profiler, ops, j);
            },
            None => {},
        }
    }
    assert(final(out)@ =~= old(out)@ + lead(profiler@, ops, j as int));
}

/// The branch drawn for node `i`, followed by its name.
pub fn construct_tree_branch(profiler: &Profiler, ops: FormattingOptions, i: usize) -> (r: String)
    requires
        profiler@.wf(),
        i < profiler@.nodes.len(),
    ensures
        r@ == branch(profiler@, ops, i as int),
{
    let m = profiler.measurement(i);
    let mut b = String::new();
    proof {
        reveal_strlit(" ");
    }
    match m.parent {
        None => {
            b.append(ops.ending_branch);
        },
        Some(p) => {
            proof {
                assert(profiler@.parent_ok(i as int));
            }
            push_lead(&mut b, profiler, ops, p);
            if m.depth == 1 {
                b.append(ops.starting_branch);
            } else if !is_last_child_exec(profiler, i) {
                b.append(ops.branching_branch);
            } else {
                b.append(ops.turning_branch);
            }
            if profiler.has_children(i) {
                b.append(ops.turning_ending_branch);
            } else {
                b.append(ops.ending_branch);
            }
        },
    }
    b.append(" ");
    b.append(m.name.as_str());
    assert(b@ =~= branch(profiler@, ops, i as int));
    b
}

/// Below the top level, the number of runs is that of the top-level
/// ancestor, `depth - 2` generations above the parent.
proof fn lemma_group_count_top(v: ProfilerView, i: int)
    requires
        v.wf(),
        0 <= i < v.nodes.len(),
        v.nodes[i].depth >= 2,
    ensures
        ancestor(v, i, (v.nodes[i].depth - 2) as nat) matches Some(a) && a < v.nodes.len()
            && v.nodes[a as int].depth == 1 && group_count(v, i) == group_count(v, a as int),
    decreases i,
{
    assert(v.parent_ok(i));
    let p = v.nodes[i].parent.unwrap() as int;
    if v.nodes[i].depth > 2 {
        lemma_group_count_top(v, p);
    }
}

/// `group_count` of node `i`, read from its top-level ancestor.
fn group_count_exec(profiler: &Profiler, i: usize) -> (r: u64)
    requires
        profiler@.wf(),
        i < profiler@.nodes.len(),
    ensures
        r == group_count(profiler@, i as int),
        r >= 1,
{
    let m = profiler.measurement(i);
    let top = if m.depth <= 1 {
        i
    } else {
        proof {
            lemma_group_count_top(profiler@, i as int);
        }
        match profiler.get_ancestor(i, m.depth - 2) {
            Some(a) => a,
            None => i,
        }
    };
    let count = profiler.measurement(top).durations.len();
    if count == 0 {
        1
    } else {
        count as u64
    }
}

/// Appends `percent_text(part, whole)`.
fn push_percent(out: &mut String, part: u64, whole: u64)
    ensures
        final(out)@ == old(out)@ + percent_text(part as nat, whole as nat),
{
    if whole == 0 {
        if part == 0 {
            out.append("  NaN");
        } else {
            out.append("  inf");
        }
    } else {
        let num: u128 = 1000 * (part as u128);
        let den: u128 = whole as u128;
        assert(num / den <= num) by (nonlinear_arith)
            requires
                den >= 1,
        ;
        let tenths = round_half_even_exec(num, den);
        let mut text = String::new();
        push_fixed_point(&mut text, tenths, 1);
        assert(text@ =~= fixed_point(tenths as nat, 1));
        push_padded_left(out, &text, 5);
    }
}

/// Appends `millis_text(ns, places)`, padded to `places + 3` characters.
fn push_millis(out: &mut String, ns: u64, places: usize)
    requires
        places + 3 <= usize::MAX,
    ensures
        final(out)@ == old(out)@ + pad_left(millis_text(ns as nat, places as nat), places + 3),
{
    let mut text = String::new();
    if places >= 6 {
        push_decimal(&mut text, (ns / 1000000) as u128);
        proof {
            reveal_strlit(".");
            reveal_strlit("0");
        }
        text.append(".");
        push_zero_padded(&mut text, (ns % 1000000) as u128, 6);
        push_repeated(&mut text, "0", places - 6);
    } else {
        let unit = pow10_exec(6 - places);
        let rounded = round_half_even_exec(ns as u128, unit);
        push_fixed_point(&mut text, rounded, places);
    }
    assert(text@ =~= millis_text(ns as nat, places as nat));
    push_padded_left(out, &text, places + 3);
}

/// Appends the figures of node `i`.
fn push_info_line(out: &mut String, profiler: &Profiler, i: usize, decimals: usize)
    requires
        profiler@.wf(),
        i < profiler@.nodes.len(),
        decimals + 3 <= usize::MAX,
    ensures
        final(out)@ == old(out)@ + info_line(profiler@, i as int, decimals as nat),
{
    match profiler.get_duration_ns(i) {
        None => {
            out.append("no data");
        },
        Some(duration) => {
            let m = profiler.measurement(i);
            let parent_duration = if m.depth > 1 {
                match m.parent {
                    Some(p) => {
                        proof {
                            assert(profiler@.parent_ok(i as int));
                        }
                        profiler.get_duration_ns(p)
                    },
                    None => None,
                }
            } else {
                None
            };
            match parent_duration {
                Some(basis) => push_percent(out, duration, basis),
                None => out.append("100.0"),
            }
            out.append("%, ");
            push_millis(out, duration / group_count_exec(profiler, i), decimals);
            out.append(" ms/loop, ");
            push_decimal(out, m.durations.len() as u128);
            out.append(" samples");
        },
    }
    assert(final(out)@ =~= old(out)@ + info_line(profiler@, i as int, decimals as nat));
}

/// The nodes of the tree, depth first from the root, children in the
/// order first seen.
pub fn get_measures(profiler: &Profiler) -> (r: Vec<usize>)
    requires
        profiler@.wf(),
    ensures
        r@ == preorder(profiler@, 0),
{
    let mut order: Vec<usize> = Vec::new();
    profiler.collect_all_children(0, &mut order);
    assert(order@ =~= preorder(profiler@, 0));
    order
}

/// The report of the tree: one row per node but the root, depth first,
/// each with its branch, its share of its parent's duration in percent,
/// its duration per run of its top-level scope in milliseconds with
/// `decimals` decimals, and its sample count.
///
/// ```text
/// ╶──┬╼ main                 - 100.0%, 300 ms/loop, 2 samples
///    ├──┬╼ inner operations  -  66.7%, 200 ms/loop, 4 samples
///    │  └───╼ processing     - 100.0%, 200 ms/loop, 4 samples
///    └───╼ processing        -  33.3%, 100 ms/loop, 2 samples
/// ```
pub fn get_formatted_string(profiler: &Profiler, ops: FormattingOptions, decimals: usize) -> (r:
    String)
    requires
        profiler@.wf(),
        decimals + 3 <= usize::MAX,
    ensures
        r@ == report(profiler@, ops, decimals as nat),
{
    let ghost v = profiler@;
    let order = get_measures(profiler);
    proof {
        lemma_preorder_in_arena(v, 0);
    }
    let mut branches: Vec<String> = Vec::new();
    let mut widest: usize = 0;
    let mut k: usize = 0;
    while k < order.len()
        invariant
            v == profiler@,
            v.wf(),
            order@ == preorder(v, 0),
            k <= order@.len(),
            branches@.len() == k,
            forall|j: int| 0 <= j < k ==> (#[trigger] branches@[j])@ == branch(v, ops, order@[j] as int),
            forall|j: int| 0 <= j < order@.len() ==> #[trigger] order@[j] < v.nodes.len(),
            widest == if k == 0 {
                0
            } else {
                max_width(v, ops, order@.take(k as int)) - 1
            },
        decreases order.len() - k,
    {
        let b = construct_tree_branch(profiler, ops, order[k]);
        let width = b.as_str().unicode_len();
        if width > widest {
            widest = width;
        }
        assert(order@.take(k + 1).drop_last() =~= order@.take(k as int));
        if k == 0 {
            assert(max_width(v, ops, order@.take(0)) == 0);
        }
        branches.push(b);
        k += 1;
    }
    assert(order@.take(k as int) =~= order@);
    let mut result = String::new();
    let mut k: usize = 1;
    assert(order@.len() >= 1);
    assert(order@.drop_first().take(0) =~= seq![]);
    while k < order.len()
        invariant
            v == profiler@,
            v.wf(),
            order@ == preorder(v, 0),
            1 <= k <= order@.len(),
            branches@.len() == order@.len(),
            forall|j: int| 0 <= j < order@.len() ==> (#[trigger] branches@[j])@ == branch(v, ops, order@[j] as int),
            forall|j: int| 0 <= j < order@.len() ==> #[trigger] order@[j] < v.nodes.len(),
            widest + 1 == max_width(v, ops, order@),
            decimals + 3 <= usize::MAX,
            result@ == rows(v, ops, decimals as nat, order@.drop_first().take(k - 1), widest + 1),
        decreases order.len() - k,
    {
        let i = order[k];
        let b = &branches[k];
        assert(b@ == branch(v, ops, i as int));
        proof {
            lemma_max_width_bounds(v, ops, order@, k as int);
        }
        let len = b.as_str().unicode_len();
        result.append(b.as_str());
        push_spaces(&mut result, len, widest);
        proof {
            reveal_strlit(" ");
        }
        result.append(" ");
        result.append(" - ");
        push_info_line(&mut result, profiler, i, decimals);
        result.append("\n");
        assert(order@.drop_first().take(k as int).drop_last() =~= order@.drop_first().take(k - 1));
        assert(result@ =~= rows(v, ops, decimals as nat, order@.drop_first().take(k as int), widest + 1));
        k += 1;
    }
    assert(order@.drop_first().take(k - 1) =~= order@.drop_first());
    result
}

/// The branch of each node of `s` is narrower than `max_width(s)`.
proof fn lemma_max_width_bounds(v: ProfilerView, ops: FormattingOptions, s: Seq<usize>, k: int)
    requires
        0 <= k < s.len(),
    ensures
        branch(v, ops, s[k] as int).len() + 1 <= max_width(v, ops, s),
    decreases s.len(),
{
    if k < s.len() - 1 {
        lemma_max_width_bounds(v, ops, s.drop_last(), k);
    }
}

/// Two reports of one unchanged tree, with the same glyphs and decimals,
/// are the same text: the report is a function of the tree alone.
pub proof fn lemma_report_idempotent(
    v: ProfilerView,
    ops: FormattingOptions,
    decimals: nat,
    first: Seq<char>,
    second: Seq<char>,
)
    requires
        first == report(v, ops, decimals),
        second == report(v, ops, decimals),
    ensures
        first == second,
{
}

/// A node that is its own basis, at the top level or below a parent with
/// no samples, shows a share of `100.0` percent whatever its duration,
/// also where the overhead took all of it.
pub proof fn lemma_own_basis_full_share(v: ProfilerView, i: int, decimals: nat)
    requires
        v.nodes[i].depth <= 1 || (v.nodes[i].parent matches Some(p) && duration_ns(v, p as int) is None),
        duration_ns(v, i) is Some,
    ensures
        share_text(v, i, duration_ns(v, i).unwrap()) == "100.0"@,
        info_line(v, i, decimals).subrange(0, 5) == "100.0"@,
{
    reveal_strlit("100.0");
    let d = duration_ns(v, i).unwrap();
    let rest = "%, "@ + pad_left(millis_text(d as nat / group_count(v, i), decimals), decimals as int + 3)
        + " ms/loop, "@ + decimal(v.nodes[i].durations.len()) + " samples"@;
    assert(info_line(v, i, decimals) =~= "100.0"@ + rest);
    assert(("100.0"@ + rest).subrange(0, 5) =~= "100.0"@);
}

/// A sequence of `s.len()` samples of `c` nanoseconds each sums to
/// `s.len() * c`.
proof fn lemma_sum_constant(s: Seq<u64>, c: u64)
    requires
        forall|k: int| 0 <= k < s.len() ==> s[k] == c,
    ensures
        sum(s) == s.len() * c,
    decreases s.len(),
{
    if s.len() > 0 {
        lemma_sum_constant(s.drop_last(), c);
        assert(sum(s) == (s.len() - 1) * c + c);
        assert((s.len() - 1) * c + c == s.len() * c) by (nonlinear_arith);
    }
}

/// A scope below the top level that ran `loops` times per run of its
/// top-level scope, `per_call` nanoseconds each time with no overhead, and
/// whose top-level scope ran `runs` times, reports `loops * per_call`
/// nanoseconds per loop: the time of one call times the calls per outer
/// run, not the time of one call.
pub proof fn lemma_per_loop_amortised(
    v: ProfilerView,
    i: int,
    per_call: u64,
    loops: nat,
    runs: nat,
    decimals: nat,
)
    requires
        v.wf(),
        0 <= i < v.nodes.len(),
        v.nodes[i].depth >= 2,
        loops > 0,
        runs > 0,
        loops * runs * per_call <= u64::MAX,
        v.nodes[i].durations.len() == loops * runs,
        forall|k: int| 0 <= k < v.nodes[i].durations.len() ==> v.nodes[i].durations[k] == per_call,
        overhead_ns(v, i) == 0,
        ancestor(v, i, (v.nodes[i].depth - 2) as nat) matches Some(a) && v.nodes[a as int].durations.len()
            == runs,
    ensures
        duration_ns(v, i) == Some((loops * runs * per_call) as u64),
        group_count(v, i) == runs,
        info_line(v, i, decimals) == share_text(v, i, (loops * runs * per_call) as u64) + "%, "@ + pad_left(
            millis_text((loops * per_call) as nat, decimals),
            decimals as int + 3,
        ) + " ms/loop, "@ + decimal(loops * runs) + " samples"@,
{
    lemma_sum_constant(v.nodes[i].durations, per_call);
    assert(loops * runs * per_call == (loops * runs) * per_call) by (nonlinear_arith);
    lemma_group_count_top(v, i);
    let total: int = loops * runs * per_call;
    let per_run: int = loops * per_call;
    let r: int = runs as int;
    assert(total / r == per_run) by (nonlinear_arith)
        requires
            total == loops * r * per_call,
            per_run == loops * per_call,
            r > 0,
    ;
    assert(loops * runs > 0) by (nonlinear_arith)
        requires
            loops > 0,
            runs > 0,
    ;
    assert(v.nodes[i].durations.len() > 0);
    assert(sum(v.nodes[i].durations) == total);
    assert(clamp(sum(v.nodes[i].durations)) == total);
    assert(duration_ns(v, i) == Some(total as u64));
    assert(group_count(v, i) == runs);
    assert((total as u64) as nat / group_count(v, i) == per_run);
}

/// Where the profiler's overhead exceeds the sum of a node's samples, the
/// node's corrected duration is 0, never negative.
pub proof fn lemma_overhead_clamped(v: ProfilerView, i: int)
    requires
        v.nodes[i].durations.len() > 0,
        sum(v.nodes[i].durations) < overhead_ns(v, i),
    ensures
        duration_ns(v, i) == Some(0u64),
{
}

} // verus!
