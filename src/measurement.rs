//! The measurement tree: scopes entered and exited on one call stack,
//! merged per call path into the nodes of an arena.
use vstd::prelude::*;

use crate::measurement_tracker::MeasurementTracker;

verus! {

/// One scope as reached through one call path: the samples logged for it
/// and its place in the tree. Nodes refer to each other by their index in
/// the profiler's arena.
pub struct Measurement {
    /// The scope's name, unique among its siblings.
    pub name: String,
    /// 0 for the root, else one more than the parent's depth.
    pub depth: usize,
    /// Nanoseconds that the profiler itself spent while the scope was open.
    pub overhead: u64,
    /// The duration of each run of the scope, in nanoseconds, oldest first.
    pub durations: Vec<u64>,
    /// The enclosing node; `None` for the root.
    pub parent: Option<usize>,
    /// The nodes entered directly under this one, in the order first seen.
    pub children: Vec<usize>,
    /// Whether the node is on the stack of open scopes.
    pub measuring_currently: bool,
}

/// What a `Measurement` holds, as mathematical values.
pub struct MeasurementView {
    pub name: Seq<char>,
    pub depth: usize,
    pub overhead: u64,
    pub durations: Seq<u64>,
    pub parent: Option<usize>,
    pub children: Seq<usize>,
    pub measuring_currently: bool,
}

impl View for Measurement {
    type V = MeasurementView;

    open spec fn view(&self) -> MeasurementView {
        MeasurementView {
            name: self.name@,
            depth: self.depth,
            overhead: self.overhead,
            durations: self.durations@,
            parent: self.parent,
            children: self.children@,
            measuring_currently: self.measuring_currently,
        }
    }
}

/// The arena of nodes and the stack of open scopes, as mathematical values.
pub struct ProfilerView {
    pub nodes: Seq<MeasurementView>,
    pub stack: Seq<usize>,
}

/// The nodes of a fresh profiler: the root alone.
pub open spec fn root_view() -> MeasurementView {
    MeasurementView {
        name: "root"@,
        depth: 0,
        overhead: 0,
        durations: seq![],
        parent: None,
        children: seq![],
        measuring_currently: true,
    }
}

impl ProfilerView {
    /// The innermost open scope.
    pub open spec fn top(self) -> usize {
        self.stack.last()
    }

    /// Node `i` has a parent that comes before it, one level up, and that
    /// lists it among its children.
    pub open spec fn parent_ok(self, i: int) -> bool {
        match self.nodes[i].parent {
            Some(p) => {
                &&& p < i
                &&& self.nodes[i].depth == self.nodes[p as int].depth + 1
                &&& self.nodes[p as int].children.contains(i as usize)
            },
            None => false,
        }
    }

    /// The children of node `i` come after it, name it as their parent and
    /// have distinct names.
    pub open spec fn children_ok(self, i: int) -> bool {
        let ch = self.nodes[i].children;
        &&& forall|k: int|
            0 <= k < ch.len() ==> i < #[trigger] ch[k] < self.nodes.len() && self.nodes[ch[k] as int].parent
                == Some(i as usize)
        &&& forall|k1: int, k2: int|
            0 <= k1 < ch.len() && 0 <= k2 < ch.len() && k1 != k2 ==> self.nodes[#[trigger] ch[k1] as int].name
                != self.nodes[#[trigger] ch[k2] as int].name
    }

    /// The stack runs from the root down a path of the tree, and the open
    /// nodes are exactly the ones on it.
    pub open spec fn stack_ok(self) -> bool {
        &&& self.stack.len() >= 1
        &&& self.stack[0] == 0
        &&& forall|j: int|
            0 <= j < self.stack.len() ==> #[trigger] self.stack[j] < self.nodes.len() && self.nodes[self.stack[j] as int].depth
                == j
        &&& forall|j: int|
            1 <= j < self.stack.len() ==> self.nodes[#[trigger] self.stack[j] as int].parent == Some(
                self.stack[j - 1],
            )
        &&& forall|i: int|
            0 <= i < self.nodes.len() ==> (#[trigger] self.nodes[i].measuring_currently <==> self.stack.contains(
                i as usize,
            ))
    }

    /// The arena holds a tree rooted at index 0, and the stack is a path of it.
    pub open spec fn wf(self) -> bool {
        &&& 1 <= self.nodes.len() <= usize::MAX
        &&& self.nodes[0].parent is None
        &&& self.nodes[0].name == "root"@
        &&& self.nodes[0].depth == 0
        &&& self.nodes[0].durations.len() == 0
        &&& forall|i: int| 0 <= i < self.nodes.len() ==> #[trigger] self.nodes[i].depth <= i
        &&& forall|i: int| 1 <= i < self.nodes.len() ==> #[trigger] self.parent_ok(i)
        &&& forall|i: int| 0 <= i < self.nodes.len() ==> #[trigger] self.children_ok(i)
        &&& self.stack_ok()
    }

    /// Node `p` has a child named `name`.
    pub open spec fn has_child_named(self, p: int, name: Seq<char>) -> bool {
        exists|k: int|
            0 <= k < self.nodes[p].children.len() && self.nodes[#[trigger] self.nodes[p].children[k] as int].name
                == name
    }

    /// The child of node `p` named `name`, if it has one.
    pub open spec fn child_named(self, p: int, name: Seq<char>) -> Option<usize> {
        if self.has_child_named(p, name) {
            let k = choose|k: int|
                0 <= k < self.nodes[p].children.len() && self.nodes[#[trigger] self.nodes[p].children[k] as int].name
                    == name;
            Some(self.nodes[p].children[k])
        } else {
            None
        }
    }

    /// Entering the scope `name`: under the innermost open scope, the child
    /// of that name is opened again, or a new one is appended, and pushed.
    pub open spec fn enter(self, name: Seq<char>) -> ProfilerView {
        let t = self.top() as int;
        match self.child_named(t, name) {
            Some(c) => ProfilerView {
                nodes: self.nodes.update(
                    c as int,
                    MeasurementView { measuring_currently: true, ..self.nodes[c as int] },
                ),
                stack: self.stack.push(c),
            },
            None => {
                let c = self.nodes.len() as usize;
                let fresh = MeasurementView {
                    name,
                    depth: self.stack.len() as usize,
                    overhead: 0,
                    durations: seq![],
                    parent: Some(t as usize),
                    children: seq![],
                    measuring_currently: true,
                };
                ProfilerView {
                    nodes: self.nodes.update(
                        t,
                        MeasurementView { children: self.nodes[t].children.push(c), ..self.nodes[t] },
                    ).push(fresh),
                    stack: self.stack.push(c),
                }
            },
        }
    }

    /// Leaving the innermost open scope: it is popped and closed, `sample`
    /// is appended to its durations and `overhead` added to its overhead,
    /// both in nanoseconds (the overhead saturates at `u64::MAX`).
    pub open spec fn exit(self, sample: u64, overhead: u64) -> ProfilerView {
        let t = self.top() as int;
        let m = self.nodes[t];
        ProfilerView {
            nodes: self.nodes.update(
                t,
                MeasurementView {
                    measuring_currently: false,
                    overhead: m.overhead.saturating_add(overhead),
                    durations: m.durations.push(sample),
                    ..m
                },
            ),
            stack: self.stack.drop_last(),
        }
    }

    /// Clearing the data: every closed node goes, and the open ones, which
    /// form the stack, stay with no samples and no overhead. Each keeps its
    /// name and depth and moves to the index of its place on the stack,
    /// which is its depth; its only child is the next one on the stack.
    pub open spec fn reset(self) -> ProfilerView {
        let k = self.stack.len();
        ProfilerView {
            nodes: Seq::new(
                k,
                |j: int|
                    MeasurementView {
                        overhead: 0,
                        durations: seq![],
                        parent: if j == 0 {
                            None
                        } else {
                            Some((j - 1) as usize)
                        },
                        children: if j + 1 < k {
                            seq![(j + 1) as usize]
                        } else {
                            seq![]
                        },
                        ..self.nodes[self.stack[j] as int]
                    },
            ),
            stack: Seq::new(k, |j: int| j as usize),
        }
    }
}

/// The nodes of the subtree at `i`: `i`, then the subtrees of its
/// children in order.
pub open spec fn preorder(v: ProfilerView, i: int) -> Seq<usize>
    decreases v.nodes.len() - i, v.nodes[i].children.len() + 1,
{
    if 0 <= i < v.nodes.len() {
        seq![i as usize] + preorder_children(v, i, v.nodes[i].children.len() as int)
    } else {
        seq![]
    }
}

/// The subtrees of the first `k` children of `i`, one after the other.
pub open spec fn preorder_children(v: ProfilerView, i: int, k: int) -> Seq<usize>
    decreases v.nodes.len() - i, k,
{
    if 0 <= i < v.nodes.len() && 0 < k <= v.nodes[i].children.len() {
        let c = v.nodes[i].children[k - 1] as int;
        preorder_children(v, i, k - 1) + if i < c < v.nodes.len() {
            preorder(v, c)
        } else {
            seq![]
        }
    } else {
        seq![]
    }
}

/// The ancestor of node `i` that is `generation + 1` levels above it:
/// its parent for 0, its grandparent for 1, and so on.
pub open spec fn ancestor(v: ProfilerView, i: int, generation: nat) -> Option<usize>
    decreases generation,
{
    match v.nodes[i].parent {
        None => None,
        Some(p) => if generation == 0 {
            Some(p)
        } else {
            ancestor(v, p as int, (generation - 1) as nat)
        },
    }
}

/// The sum of a sequence of samples.
pub open spec fn sum(s: Seq<u64>) -> nat
    decreases s.len(),
{
    if s.len() == 0 {
        0
    } else {
        (sum(s.drop_last()) + s.last()) as nat
    }
}

/// The sum of the own overheads of the nodes `s`.
pub open spec fn overhead_sum(v: ProfilerView, s: Seq<usize>) -> nat
    decreases s.len(),
{
    if s.len() == 0 {
        0
    } else {
        (overhead_sum(v, s.drop_last()) + v.nodes[s.last() as int].overhead) as nat
    }
}

/// `x`, or `u64::MAX` where it is larger.
pub open spec fn clamp(x: nat) -> u64 {
    if x > u64::MAX {
        u64::MAX
    } else {
        x as u64
    }
}

/// The overhead of node `i` with that of all its descendants, in
/// nanoseconds, saturating at `u64::MAX`.
pub open spec fn overhead_ns(v: ProfilerView, i: int) -> u64 {
    clamp(overhead_sum(v, preorder(v, i)))
}

/// The time spent in node `i` less the profiler's overhead, in nanoseconds:
/// `None` where it has no samples, and 0 where the overhead exceeds the
/// samples' sum (which saturates at `u64::MAX`).
pub open spec fn duration_ns(v: ProfilerView, i: int) -> Option<u64> {
    let durations = v.nodes[i].durations;
    if durations.len() == 0 {
        None
    } else {
        let total = clamp(sum(durations));
        let overhead = overhead_ns(v, i);
        Some(
            if total < overhead {
                0
            } else {
                (total - overhead) as u64
            },
        )
    }
}

/// The subtree at `i` holds `i` and nodes after it in the arena.
pub proof fn lemma_preorder_in_arena(v: ProfilerView, i: int)
    requires
        v.nodes.len() <= usize::MAX,
    ensures
        forall|j: int| 0 <= j < preorder(v, i).len() ==> i <= #[trigger] preorder(v, i)[j] < v.nodes.len(),
    decreases v.nodes.len() - i, v.nodes[i].children.len() + 1,
{
    if 0 <= i < v.nodes.len() {
        let k = v.nodes[i].children.len() as int;
        lemma_preorder_children_in_arena(v, i, k);
        let a = seq![i as usize];
        let b = preorder_children(v, i, k);
        assert(preorder(v, i) == a + b);
        assert forall|j: int| 0 <= j < preorder(v, i).len() implies i <= #[trigger] preorder(v, i)[j]
            < v.nodes.len() by {
            if j >= 1 {
                assert(preorder(v, i)[j] == b[j - 1]);
            } else {
                assert(preorder(v, i)[j] == a[0]);
            }
        }
    }
}

/// The subtrees of the children of `i` hold nodes after `i` in the arena.
proof fn lemma_preorder_children_in_arena(v: ProfilerView, i: int, k: int)
    requires
        v.nodes.len() <= usize::MAX,
    ensures
        forall|j: int|
            0 <= j < preorder_children(v, i, k).len() ==> i < #[trigger] preorder_children(v, i, k)[j]
                < v.nodes.len(),
    decreases v.nodes.len() - i, k,
{
    if 0 <= i < v.nodes.len() && 0 < k <= v.nodes[i].children.len() {
        lemma_preorder_children_in_arena(v, i, k - 1);
        let c = v.nodes[i].children[k - 1] as int;
        let a = preorder_children(v, i, k - 1);
        if i < c < v.nodes.len() {
            lemma_preorder_in_arena(v, c);
            let b = preorder(v, c);
            assert forall|j: int| 0 <= j < preorder_children(v, i, k).len() implies i
                < #[trigger] preorder_children(v, i, k)[j] < v.nodes.len() by {
                if j >= a.len() {
                    assert(preorder_children(v, i, k)[j] == b[j - a.len()]);
                }
            }
        } else {
            assert(preorder_children(v, i, k) =~= a);
        }
    }
}

proof fn lemma_overhead_sum_concat(v: ProfilerView, a: Seq<usize>, b: Seq<usize>)
    ensures
        overhead_sum(v, a + b) == overhead_sum(v, a) + overhead_sum(v, b),
    decreases b.len(),
{
    if b.len() == 0 {
        assert(a + b =~= a);
    } else {
        lemma_overhead_sum_concat(v, a, b.drop_last());
        assert((a + b).drop_last() =~= a + b.drop_last());
    }
}

/// A profiler for one logical call stack: the arena of measurement nodes,
/// with the root at index 0, and the stack of open scopes.
pub struct Profiler {
    nodes: Vec<Measurement>,
    stack: Vec<usize>,
}

impl View for Profiler {
    type V = ProfilerView;

    closed spec fn view(&self) -> ProfilerView {
        ProfilerView { nodes: self.nodes@.map_values(|m: Measurement| m@), stack: self.stack@ }
    }
}

/// Pushing `c` onto the stack, with `c` opened and every other node as it
/// was, keeps the open nodes exactly those on the stack.
proof fn lemma_push_open(v: ProfilerView, w: ProfilerView, c: usize)
    requires
        forall|i: int|
            0 <= i < v.nodes.len() ==> (#[trigger] v.nodes[i].measuring_currently <==> v.stack.contains(
                i as usize,
            )),
        w.stack == v.stack.push(c),
        c < w.nodes.len(),
        w.nodes[c as int].measuring_currently,
        forall|i: int|
            0 <= i < w.nodes.len() && i != c ==> i < v.nodes.len() && #[trigger] w.nodes[i].measuring_currently
                == v.nodes[i].measuring_currently,
        forall|j: int| 0 <= j < v.stack.len() ==> #[trigger] v.stack[j] != c,
        w.nodes.len() <= usize::MAX,
    ensures
        forall|i: int|
            0 <= i < w.nodes.len() ==> (#[trigger] w.nodes[i].measuring_currently <==> w.stack.contains(
                i as usize,
            )),
{
    assert forall|i: int| 0 <= i < w.nodes.len() implies (#[trigger] w.nodes[i].measuring_currently
        <==> w.stack.contains(i as usize)) by {
        if i != c {
            assert(w.nodes[i].measuring_currently == v.nodes[i].measuring_currently);
            assert(v.nodes[i].measuring_currently <==> v.stack.contains(i as usize));
            if w.stack.contains(i as usize) {
                let j = choose|j: int| 0 <= j < w.stack.len() && w.stack[j] == i as usize;
                assert(w.stack[v.stack.len() as int] == c);
                assert(j < v.stack.len());
                assert(v.stack[j] == i as usize);
            }
            if v.stack.contains(i as usize) {
                let j = choose|j: int| 0 <= j < v.stack.len() && v.stack[j] == i as usize;
                assert(w.stack[j] == i as usize);
            }
        } else {
            assert(w.stack[w.stack.len() - 1] == i as usize);
        }
    }
}

/// Pushing a child `c` of the top, one level below it, keeps the stack's
/// depths and parent links.
proof fn lemma_push_path(v: ProfilerView, w: ProfilerView, c: usize)
    requires
        v.wf(),
        w.stack == v.stack.push(c),
        w.nodes.len() >= v.nodes.len(),
        c < w.nodes.len(),
        w.nodes[c as int].depth == v.stack.len(),
        w.nodes[c as int].parent == Some(v.top()),
        forall|i: int|
            0 <= i < v.nodes.len() ==> #[trigger] w.nodes[i].depth == v.nodes[i].depth && w.nodes[i].parent
                == v.nodes[i].parent,
    ensures
        forall|j: int|
            0 <= j < w.stack.len() ==> #[trigger] w.stack[j] < w.nodes.len() && w.nodes[w.stack[j] as int].depth
                == j,
        forall|j: int|
            1 <= j < w.stack.len() ==> w.nodes[#[trigger] w.stack[j] as int].parent == Some(w.stack[j - 1]),
        forall|j: int| 0 <= j < v.stack.len() ==> #[trigger] v.stack[j] != c,
{
    assert forall|j: int| 0 <= j < w.stack.len() implies #[trigger] w.stack[j] < w.nodes.len()
        && w.nodes[w.stack[j] as int].depth == j by {
        if j < v.stack.len() {
            assert(v.stack[j] < v.nodes.len() && v.nodes[v.stack[j] as int].depth == j);
        }
    }
    assert forall|j: int| 1 <= j < w.stack.len() implies w.nodes[#[trigger] w.stack[j] as int].parent
        == Some(w.stack[j - 1]) by {
        if j < v.stack.len() {
            assert(v.nodes[v.stack[j] as int].parent == Some(v.stack[j - 1]));
        }
    }
    assert forall|j: int| 0 <= j < v.stack.len() implies #[trigger] v.stack[j] != c by {
        assert(v.stack[j] < v.nodes.len() && v.nodes[v.stack[j] as int].depth == j);
        if v.stack[j] == c && c < v.nodes.len() {
            assert(w.nodes[c as int].depth == v.nodes[c as int].depth);
        }
    }
}

/// Entering a scope that its parent has seen before keeps the arena a tree
/// and the stack a path of it.
proof fn lemma_enter_existing_wf(v: ProfilerView, name: Seq<char>)
    requires
        v.wf(),
        v.child_named(v.top() as int, name) is Some,
    ensures
        v.enter(name).wf(),
        v.enter(name).nodes.len() == v.nodes.len(),
{
    let w = v.enter(name);
    let t = v.top() as int;
    let n = v.nodes.len() as int;
    assert(v.stack[v.stack.len() - 1] == t);
    let c = v.child_named(t, name).unwrap();
    let k = choose|k: int|
        0 <= k < v.nodes[t].children.len() && v.nodes[#[trigger] v.nodes[t].children[k] as int].name == name;
    assert(v.children_ok(t));
    assert(v.nodes[t].children[k] == c);
    assert(t < c < n);
    assert(v.parent_ok(c as int));
    assert(v.nodes[t].depth == v.stack.len() - 1);
    assert forall|i: int| 1 <= i < n implies #[trigger] w.parent_ok(i) by {
        assert(v.parent_ok(i));
    }
    assert forall|i: int| 0 <= i < n implies #[trigger] w.children_ok(i) by {
        assert(v.children_ok(i));
    }
    assert forall|i: int| 0 <= i < n implies #[trigger] w.nodes[i].depth <= i by {
        assert(v.nodes[i].depth <= i);
    }
    lemma_push_path(v, w, c);
    lemma_push_open(v, w, c);
}

/// Under a new child, the parent links and the children lists stay sound.
proof fn lemma_enter_new_links(v: ProfilerView, name: Seq<char>)
    requires
        v.wf(),
        v.nodes.len() < usize::MAX,
        v.child_named(v.top() as int, name) is None,
    ensures
        forall|i: int| 1 <= i < v.nodes.len() ==> #[trigger] v.enter(name).parent_ok(i),
        forall|i: int| 0 <= i < v.nodes.len() + 1 ==> #[trigger] v.enter(name).children_ok(i),
{
    let w = v.enter(name);
    let t = v.top() as int;
    let n = v.nodes.len() as int;
    assert(v.stack[v.stack.len() - 1] == t);
    assert(v.stack[v.stack.len() - 1] < n);
    assert forall|i: int| 1 <= i < n implies #[trigger] w.parent_ok(i) by {
        assert(v.parent_ok(i));
        let p = v.nodes[i].parent.unwrap() as int;
        let kk = choose|kk: int| 0 <= kk < v.nodes[p].children.len() && v.nodes[p].children[kk] == i as usize;
        assert(w.nodes[p].children[kk] == i as usize);
    }
    assert forall|i: int| 0 <= i < n + 1 implies #[trigger] w.children_ok(i) by {
        if i < n {
            assert(v.children_ok(i));
            if i == t {
                let ch = w.nodes[t].children;
                assert forall|k1: int, k2: int|
                    0 <= k1 < ch.len() && 0 <= k2 < ch.len() && k1 != k2 implies w.nodes[#[trigger] ch[k1] as int].name
                        != w.nodes[#[trigger] ch[k2] as int].name by {
                    if k1 == ch.len() - 1 {
                        assert(v.nodes[v.nodes[t].children[k2] as int].name != name);
                    } else if k2 == ch.len() - 1 {
                        assert(v.nodes[v.nodes[t].children[k1] as int].name != name);
                    }
                }
            }
        }
    }
}

/// Entering a scope that is new under its parent keeps the arena a tree
/// and the stack a path of it.
proof fn lemma_enter_new_wf(v: ProfilerView, name: Seq<char>)
    requires
        v.wf(),
        v.nodes.len() < usize::MAX,
        v.child_named(v.top() as int, name) is None,
    ensures
        v.enter(name).wf(),
{
    let w = v.enter(name);
    let t = v.top() as int;
    let n = v.nodes.len() as int;
    let c = n as usize;
    assert(v.stack[v.stack.len() - 1] == t);
    assert(v.stack[v.stack.len() - 1] < n);
    assert(v.nodes[t].depth == v.stack.len() - 1);
    assert(v.nodes[t].depth <= t);
    assert(v.children_ok(t));
    assert(w.nodes[n].parent == Some(t as usize));
    assert(w.nodes[t].children[w.nodes[t].children.len() - 1] == c);
    assert(w.parent_ok(n));
    lemma_enter_new_links(v, name);
    assert forall|i: int| 0 <= i < n + 1 implies #[trigger] w.nodes[i].depth <= i by {
        if i < n {
            assert(v.nodes[i].depth <= i);
        }
    }
    lemma_push_path(v, w, c);
    lemma_push_open(v, w, c);
}

/// Entering a scope keeps the arena a tree and the stack a path of it, and
/// pushes one node.
proof fn lemma_enter_wf(v: ProfilerView, name: Seq<char>)
    requires
        v.wf(),
        v.nodes.len() < usize::MAX,
    ensures
        v.enter(name).wf(),
        v.enter(name).stack == v.stack.push(v.enter(name).top()),
        v.enter(name).nodes.len() <= v.nodes.len() + 1,
{
    let t = v.top() as int;
    match v.child_named(t, name) {
        Some(c) => {
            lemma_enter_existing_wf(v, name);
        },
        None => {
            lemma_enter_new_wf(v, name);
        },
    }
}

/// Leaving the innermost scope keeps the arena a tree and the stack a path
/// of it, and pops one node.
proof fn lemma_exit_wf(v: ProfilerView, sample: u64, overhead: u64)
    requires
        v.wf(),
        v.stack.len() > 1,
    ensures
        v.exit(sample, overhead).wf(),
        v.exit(sample, overhead).stack == v.stack.drop_last(),
{
    let w = v.exit(sample, overhead);
    let t = v.top() as int;
    let n = v.nodes.len() as int;
    let last = v.stack.len() - 1;
    assert(v.stack[last] == t);
    assert(v.stack[last] < n && v.nodes[v.stack[last] as int].depth == last);
    assert(t != 0);
    assert forall|i: int| 1 <= i < n implies #[trigger] w.parent_ok(i) by {
        assert(v.parent_ok(i));
    }
    assert forall|i: int| 0 <= i < n implies #[trigger] w.children_ok(i) by {
        assert(v.children_ok(i));
    }
    assert forall|i: int| 0 <= i < n implies #[trigger] w.nodes[i].depth <= i by {
        assert(v.nodes[i].depth <= i);
    }
    assert forall|j: int| 0 <= j < w.stack.len() implies #[trigger] w.stack[j] < w.nodes.len()
        && w.nodes[w.stack[j] as int].depth == j by {
        assert(v.stack[j] < n && v.nodes[v.stack[j] as int].depth == j);
    }
    assert forall|j: int| 1 <= j < w.stack.len() implies w.nodes[#[trigger] w.stack[j] as int].parent
        == Some(w.stack[j - 1]) by {
        assert(v.nodes[v.stack[j] as int].parent == Some(v.stack[j - 1]));
    }
    assert forall|i: int| 0 <= i < n implies (#[trigger] w.nodes[i].measuring_currently
        <==> w.stack.contains(i as usize)) by {
        if w.stack.contains(i as usize) {
            let j = choose|j: int| 0 <= j < w.stack.len() && w.stack[j] == i as usize;
            assert(v.stack[j] == i as usize);
            assert(v.stack[j] < n && v.nodes[v.stack[j] as int].depth == j);
        }
        if i != t {
            assert(v.nodes[i].measuring_currently <==> v.stack.contains(i as usize));
            if v.stack.contains(i as usize) {
                let j = choose|j: int| 0 <= j < v.stack.len() && v.stack[j] == i as usize;
                assert(j != last);
                assert(w.stack[j] == i as usize);
            }
        }
    }
}

/// Clearing the data leaves a tree that is a single path, the stack.
#[verifier::spinoff_prover]
#[verifier::spinoff_prover]
proof fn lemma_reset_wf(v: ProfilerView)
    requires
        v.wf(),
    ensures
        v.reset().wf(),
        v.reset().stack.len() == v.stack.len(),
{
    let w = v.reset();
    let k = v.stack.len() as int;
    assert forall|j: int| 0 <= j < k implies #[trigger] v.stack[j] < v.nodes.len()
        && v.nodes[v.stack[j] as int].depth == j by {}
    assert(v.stack[0] == 0);
    assert(v.nodes[v.stack[k - 1] as int].depth <= v.stack[k - 1]);
    assert(k <= v.nodes.len());
    assert(w.nodes.len() == k);
    assert(w.nodes[0].parent is None && w.nodes[0].depth == 0);
    assert forall|i: int| 1 <= i < k implies #[trigger] w.parent_ok(i) by {
        assert(w.nodes[i - 1].children[0] == i as usize);
    }
    assert forall|i: int| 0 <= i < k implies #[trigger] w.children_ok(i) by {}
    assert forall|i: int| 0 <= i < k implies #[trigger] w.nodes[i].depth <= i by {
        assert(v.stack[i] < v.nodes.len() && v.nodes[v.stack[i] as int].depth == i);
    }
    assert forall|i: int| 0 <= i < k implies (#[trigger] w.nodes[i].measuring_currently
        <==> w.stack.contains(i as usize)) by {
        assert(v.stack.contains(v.stack[i]));
        assert(w.stack[i] == i as usize);
    }
    assert forall|j: int| 0 <= j < k implies #[trigger] w.stack[j] < w.nodes.len()
        && w.nodes[w.stack[j] as int].depth == j by {
        assert(w.stack[j] == j);
    }
    assert forall|j: int| 1 <= j < k implies w.nodes[#[trigger] w.stack[j] as int].parent
        == Some(w.stack[j - 1]) by {}
}

impl Measurement {
    /// A node with no samples and no children, open.
    pub fn new(name: String, depth: usize, parent: Option<usize>) -> (r: Measurement)
        ensures
            r@ == (MeasurementView {
                name: name@,
                depth,
                overhead: 0,
                durations: seq![],
                parent,
                children: seq![],
                measuring_currently: true,
            }),
    {
        Measurement {
            name,
            depth,
            overhead: 0,
            durations: Vec::new(),
            parent,
            children: Vec::new(),
            measuring_currently: true,
        }
    }
}

impl Profiler {
    /// A profiler that holds the root alone, open.
    pub fn new() -> (r: Profiler)
        ensures
            r@ == (ProfilerView { nodes: seq![root_view()], stack: seq![0] }),
            r@.wf(),
    {
        let root = Measurement::new(String::from_str("root"), 0, None);
        let mut nodes: Vec<Measurement> = Vec::new();
        nodes.push(root);
        let mut stack: Vec<usize> = Vec::new();
        stack.push(0);
        let r = Profiler { nodes, stack };
        assert(r@.nodes =~= seq![root_view()]);
        assert(r@.stack =~= seq![0usize]);
        assert(r@.stack[0] == 0);
        assert(r@.children_ok(0));
        r
    }
}

impl Profiler {
    /// The child of node `parent` named `name`, if it has one.
    pub fn get_child(&self, parent: usize, name: &String) -> (r: Option<usize>)
        requires
            self@.wf(),
            parent < self@.nodes.len(),
        ensures
            r == self@.child_named(parent as int, name@),
    {
        let ghost v = self@;
        let children = &self.nodes[parent].children;
        proof {
            assert(v.children_ok(parent as int));
        }
        let mut k: usize = 0;
        while k < children.len()
            invariant
                v == self@,
                v.wf(),
                parent < v.nodes.len(),
                children@ == v.nodes[parent as int].children,
                v.children_ok(parent as int),
                k <= children@.len(),
                forall|k2: int| 0 <= k2 < k ==> v.nodes[#[trigger] children@[k2] as int].name != name@,
            decreases children.len() - k,
        {
            let c = children[k];
            if self.nodes[c].name == *name {
                proof {
                    assert(v.has_child_named(parent as int, name@));
                    let kc = choose|kk: int|
                        0 <= kk < v.nodes[parent as int].children.len() && v.nodes[#[trigger] v.nodes[
                            parent as int].children[kk] as int].name == name@;
                    assert(kc == k);
                }
                return Some(c);
            }
            k += 1;
        }
        None
    }

    /// Opens the scope `name` under the innermost open scope: the child of
    /// that name is reused, or a new one appended, and pushed on the stack.
    #[verifier::spinoff_prover]
    pub fn enter(&mut self, name: String)
        requires
            old(self)@.wf(),
        ensures
            final(self)@ == old(self)@.enter(name@),
            final(self)@.wf(),
    {
        let ghost v = self@;
        let depth = self.stack.len();
        let t = self.stack[depth - 1];
        proof {
            assert(v.stack[depth - 1] < v.nodes.len());
        }
        match self.get_child(t, &name) {
            Some(c) => {
                proof {
                    assert(v.children_ok(t as int));
                    let k = choose|k: int|
                        0 <= k < v.nodes[t as int].children.len() && v.nodes[#[trigger] v.nodes[
                            t as int].children[k] as int].name == name@;
                    assert(v.nodes[t as int].children[k] == c);
                }
                self.nodes[c].measuring_currently = true;
                self.stack.push(c);
                assert(self@.nodes =~= v.enter(name@).nodes);
                proof {
                    lemma_enter_existing_wf(v, name@);
                }
            },
            None => {
                let c = self.nodes.len();
                let measurement = Measurement::new(name, depth, Some(t));
                self.nodes[t].children.push(c);
                self.nodes.push(measurement);
                self.stack.push(c);
                assert(self.nodes@.len() == self.nodes.len());
                assert(self@.nodes =~= v.enter(name@).nodes);
                proof {
                    lemma_enter_new_wf(v, name@);
                }
            },
        }
    }

    /// Closes the innermost open scope, started as `tracker` records:
    /// the scope ran from `tracker.start_time` to `end`, and logging it cost
    /// the profiler from `exit_start` to `exit_end`, besides what entering
    /// it cost. Differences of times that run backwards count as zero, and
    /// the overhead saturates at `u64::MAX`.
    pub fn exit(&mut self, tracker: MeasurementTracker, exit_start: u64, end: u64, exit_end: u64)
        requires
            old(self)@.wf(),
            old(self)@.stack.len() > 1,
        ensures
            final(self)@ == old(self)@.exit(
                end.saturating_sub(tracker.start_time),
                tracker.overhead.saturating_add(exit_end.saturating_sub(exit_start)),
            ),
            final(self)@.wf(),
    {
        let ghost v = self@;
        let sample = end.saturating_sub(tracker.start_time);
        let overhead = tracker.overhead.saturating_add(exit_end.saturating_sub(exit_start));
        let t = self.stack.pop().unwrap();
        proof {
            assert(v.stack[v.stack.len() - 1] < v.nodes.len());
        }
        self.nodes[t].measuring_currently = false;
        self.nodes[t].overhead = self.nodes[t].overhead.saturating_add(overhead);
        self.nodes[t].durations.push(sample);
        assert(self@.nodes =~= v.exit(sample, overhead).nodes);
        assert(self@.stack =~= v.exit(sample, overhead).stack);
        proof {
            lemma_exit_wf(v, sample, overhead);
        }
    }

    /// Drops every closed node. The open ones stay with no samples and no
    /// overhead, each moved to the index of its place on the stack, so that
    /// the arena shrinks to the stack.
    pub fn reset(&mut self)
        requires
            old(self)@.wf(),
        ensures
            final(self)@ == old(self)@.reset(),
            final(self)@.wf(),
    {
        let ghost v = self@;
        let k = self.stack.len();
        let mut nodes: Vec<Measurement> = Vec::new();
        let mut stack: Vec<usize> = Vec::new();
        let mut j: usize = 0;
        while j < k
            invariant
                v == self@,
                v.wf(),
                k == v.stack.len(),
                j <= k,
                nodes@.len() == j,
                stack@.len() == j,
                forall|i: int| 0 <= i < j ==> (#[trigger] nodes@[i])@ == v.reset().nodes[i],
                forall|i: int| 0 <= i < j ==> #[trigger] stack@[i] == i,
            decreases k - j,
        {
            let i = self.stack[j];
            proof {
                assert(v.stack[j as int] < v.nodes.len());
            }
            let old_node = &self.nodes[i];
            let parent = if j == 0 {
                None
            } else {
                Some(j - 1)
            };
            let mut children: Vec<usize> = Vec::new();
            if j + 1 < k {
                children.push(j + 1);
            }
            let node = Measurement {
                name: old_node.name.clone(),
                depth: old_node.depth,
                overhead: 0,
                durations: Vec::new(),
                parent,
                children,
                measuring_currently: old_node.measuring_currently,
            };
            assert(node@.children =~= v.reset().nodes[j as int].children);
            assert(node@.durations =~= v.reset().nodes[j as int].durations);
            nodes.push(node);
            stack.push(j);
            j += 1;
        }
        self.nodes = nodes;
        self.stack = stack;
        assert(self@.nodes =~= v.reset().nodes);
        assert(self@.stack =~= v.reset().stack);
        proof {
            lemma_reset_wf(v);
        }
    }
}

impl Profiler {
    /// Node `i` of the arena.
    pub fn measurement(&self, i: usize) -> (r: &Measurement)
        requires
            i < self@.nodes.len(),
        ensures
            r@ == self@.nodes[i as int],
    {
        &self.nodes[i]
    }

    /// The number of open scopes, the root included.
    pub fn stack_depth(&self) -> (r: usize)
        ensures
            r == self@.stack.len(),
    {
        self.stack.len()
    }

    /// The number of nodes, the root included.
    pub fn node_count(&self) -> (r: usize)
        ensures
            r == self@.nodes.len(),
    {
        self.nodes.len()
    }

    /// The innermost open scope.
    pub fn current(&self) -> (r: usize)
        requires
            self@.wf(),
        ensures
            r == self@.top(),
    {
        self.stack[self.stack.len() - 1]
    }

    /// Whether node `i` has children.
    pub fn has_children(&self, i: usize) -> (r: bool)
        requires
            i < self@.nodes.len(),
        ensures
            r == (self@.nodes[i as int].children.len() > 0),
    {
        self.nodes[i].children.len() > 0
    }

    /// The name of the child last added under node `p`, if it has any.
    pub fn last_child_name(&self, p: usize) -> (r: Option<&String>)
        requires
            self@.wf(),
            p < self@.nodes.len(),
        ensures
            r matches Some(name) ==> self@.nodes[p as int].children.len() > 0 && name@ == self@.nodes[
                self@.nodes[p as int].children.last() as int].name,
            r is None ==> self@.nodes[p as int].children.len() == 0,
    {
        let children = &self.nodes[p].children;
        if children.len() == 0 {
            None
        } else {
            let c = children[children.len() - 1];
            proof {
                assert(self@.children_ok(p as int));
                assert(children@[children@.len() - 1] < self@.nodes.len());
            }
            Some(&self.nodes[c].name)
        }
    }

    /// Whether `name` is the name of the child last added under node `p`.
    pub fn is_last_child_name(&self, p: usize, name: &String) -> (r: bool)
        requires
            self@.wf(),
            p < self@.nodes.len(),
        ensures
            r == (self@.nodes[p as int].children.len() > 0 && self@.nodes[
                self@.nodes[p as int].children.last() as int].name == name@),
    {
        match self.last_child_name(p) {
            Some(last) => *last == *name,
            None => false,
        }
    }

    /// Appends the nodes of the subtree at `i`, depth first.
    pub fn collect_all_children(&self, i: usize, out: &mut Vec<usize>)
        requires
            self@.wf(),
            i < self@.nodes.len(),
        ensures
            final(out)@ == old(out)@ + preorder(self@, i as int),
        decreases self@.nodes.len() - i,
    {
        let ghost v = self@;
        let ghost start = out@;
        out.push(i);
        let children = &self.nodes[i].children;
        proof {
            assert(v.children_ok(i as int));
        }
        let mut k: usize = 0;
        while k < children.len()
            invariant
                v == self@,
                v.wf(),
                i < v.nodes.len(),
                v.children_ok(i as int),
                children@ == v.nodes[i as int].children,
                k <= children@.len(),
                out@ == start + seq![i] + preorder_children(v, i as int, k as int),
            decreases children.len() - k,
        {
            let c = children[k];
            proof {
                assert(i < children@[k as int] < v.nodes.len());
            }
            self.collect_all_children(c, out);
            k += 1;
            assert(out@ =~= start + seq![i] + preorder_children(v, i as int, k as int));
        }
        assert(out@ =~= start + preorder(v, i as int));
    }

    /// The overhead of node `i` with that of all its descendants.
    pub fn get_overhead_ns(&self, i: usize) -> (r: u64)
        requires
            self@.wf(),
            i < self@.nodes.len(),
        ensures
            r == overhead_ns(self@, i as int),
        decreases self@.nodes.len() - i,
    {
        let ghost v = self@;
        let mut overhead = self.nodes[i].overhead;
        let children = &self.nodes[i].children;
        proof {
            assert(v.children_ok(i as int));
            assert(seq![i as usize].drop_last() =~= seq![]);
            assert(seq![i as usize] + preorder_children(v, i as int, 0) =~= seq![i as usize]);
            assert(overhead_sum(v, seq![]) == 0);
            assert(seq![i as usize].last() == i);
            assert(overhead_sum(v, seq![i as usize]) == v.nodes[i as int].overhead);
        }
        let mut k: usize = 0;
        while k < children.len()
            invariant
                v == self@,
                v.wf(),
                i < v.nodes.len(),
                v.children_ok(i as int),
                children@ == v.nodes[i as int].children,
                k <= children@.len(),
                overhead == clamp(overhead_sum(v, seq![i as usize] + preorder_children(v, i as int, k as int))),
            decreases children.len() - k,
        {
            let c = children[k];
            proof {
                assert(i < children@[k as int] < v.nodes.len());
                lemma_overhead_sum_concat(
                    v,
                    seq![i as usize] + preorder_children(v, i as int, k as int),
                    preorder(v, c as int),
                );
                assert(seq![i as usize] + preorder_children(v, i as int, k + 1) =~= seq![i as usize]
                    + preorder_children(v, i as int, k as int) + preorder(v, c as int));
            }
            overhead = overhead.saturating_add(self.get_overhead_ns(c));
            k += 1;
        }
        overhead
    }

    /// The time spent in node `i` less the profiler's overhead, or `None`
    /// where it has no samples.
    pub fn get_duration_ns(&self, i: usize) -> (r: Option<u64>)
        requires
            self@.wf(),
            i < self@.nodes.len(),
        ensures
            r == duration_ns(self@, i as int),
    {
        let durations = &self.nodes[i].durations;
        if durations.len() == 0 {
            return None;
        }
        let mut total: u64 = 0;
        let mut k: usize = 0;
        while k < durations.len()
            invariant
                k <= durations@.len(),
                total == clamp(sum(durations@.take(k as int))),
            decreases durations.len() - k,
        {
            assert(durations@.take(k + 1).drop_last() =~= durations@.take(k as int));
            total = total.saturating_add(durations[k]);
            k += 1;
        }
        assert(durations@.take(k as int) =~= durations@);
        let overhead = self.get_overhead_ns(i);
        if total < overhead {
            Some(0)
        } else {
            Some(total - overhead)
        }
    }
}

/// Starts measuring the scope `name`, entered at time `now`, under the
/// innermost open scope: a scope entered again under the same parent
/// accumulates into the same node. The tracker records `now`; what
/// entering cost is for the caller to add, as only the caller can read
/// the clock once more.
pub fn measure(profiler: &mut Profiler, now: u64, name: String) -> (t: MeasurementTracker)
    requires
        old(profiler)@.wf(),
    ensures
        final(profiler)@ == old(profiler)@.enter(name@),
        final(profiler)@.wf(),
        t.start_time == now,
        t.overhead == 0,
{
    profiler.enter(name);
    MeasurementTracker { start_time: now, overhead: 0 }
}

/// Resets the measurement data: every node whose scope is closed goes,
/// and the open ones stay, with their samples and overhead cleared, moved
/// to the front of the arena in the order of the stack. Indices handed
/// out before the reset name no node after it.
pub fn reset(profiler: &mut Profiler)
    requires
        old(profiler)@.wf(),
    ensures
        final(profiler)@ == old(profiler)@.reset(),
        final(profiler)@.wf(),
{
    profiler.reset();
}

/// One call on a profiler: entering a scope, or leaving the innermost one
/// with a sample and an overhead in nanoseconds.
pub enum Event {
    /// Entering the scope of this name.
    Enter(Seq<char>),
    /// Leaving the innermost scope with this sample and this overhead.
    Exit(u64, u64),
}

/// The profiler after the calls `events`, in order.
pub open spec fn run(v: ProfilerView, events: Seq<Event>) -> ProfilerView
    decreases events.len(),
{
    if events.len() == 0 {
        v
    } else {
        let w = run(v, events.drop_last());
        match events.last() {
            Event::Enter(name) => w.enter(name),
            Event::Exit(sample, overhead) => w.exit(sample, overhead),
        }
    }
}

/// The scopes that `events` enter less those that they leave.
pub open spec fn balance(events: Seq<Event>) -> int
    decreases events.len(),
{
    if events.len() == 0 {
        0
    } else {
        balance(events.drop_last()) + if events.last() is Enter {
            1int
        } else {
            -1int
        }
    }
}

/// No prefix of `events` leaves more scopes than it entered, and the whole
/// leaves as many as it entered.
pub open spec fn balanced(events: Seq<Event>) -> bool {
    &&& balance(events) == 0
    &&& forall|k: int| 0 <= k <= events.len() ==> balance(#[trigger] events.take(k)) >= 0
}

/// Calls whose prefixes never leave more scopes than they entered keep
/// the profiler well formed, never leave the root, and change the stack's
/// depth by their balance.
proof fn lemma_run(v: ProfilerView, events: Seq<Event>)
    requires
        v.wf(),
        forall|k: int| 0 <= k <= events.len() ==> balance(#[trigger] events.take(k)) >= 0,
        v.nodes.len() + events.len() < usize::MAX,
    ensures
        run(v, events).wf(),
        run(v, events).stack.len() == v.stack.len() + balance(events),
        run(v, events).nodes.len() <= v.nodes.len() + events.len(),
    decreases events.len(),
{
    if events.len() > 0 {
        let prefix = events.drop_last();
        assert forall|k: int| 0 <= k <= prefix.len() implies balance(#[trigger] prefix.take(k)) >= 0 by {
            assert(prefix.take(k) =~= events.take(k));
        }
        lemma_run(v, prefix);
        let w = run(v, prefix);
        assert(events.take(events.len() as int) =~= events);
        match events.last() {
            Event::Enter(name) => {
                lemma_enter_wf(w, name);
            },
            Event::Exit(sample, overhead) => {
                lemma_exit_wf(w, sample, overhead);
            },
        }
    }
}

/// Balanced enters and exits leave the stack of open scopes as deep as
/// they found it, and each exit among them has a scope of its own to close.
pub proof fn lemma_balanced_round_trip(v: ProfilerView, events: Seq<Event>)
    requires
        v.wf(),
        balanced(events),
        v.nodes.len() + events.len() < usize::MAX,
    ensures
        run(v, events).wf(),
        run(v, events).stack.len() == v.stack.len(),
{
    lemma_run(v, events);
}

/// Where the child at place `k` of node `p` is named `name`, it is the
/// child of that name.
proof fn lemma_child_named_at(v: ProfilerView, p: int, k: int, name: Seq<char>)
    requires
        v.children_ok(p),
        0 <= k < v.nodes[p].children.len(),
        v.nodes[v.nodes[p].children[k] as int].name == name,
    ensures
        v.child_named(p, name) == Some(v.nodes[p].children[k]),
{
    assert(v.has_child_named(p, name));
}

/// The profiler after entering the scope `name` and leaving it again, once
/// for each of `samples`, the exit of round `k` with the overhead
/// `overheads[k]`.
pub open spec fn repeat(v: ProfilerView, name: Seq<char>, samples: Seq<u64>, overheads: Seq<u64>) -> ProfilerView
    decreases samples.len(),
{
    if samples.len() == 0 {
        v
    } else {
        repeat(v, name, samples.drop_last(), overheads.drop_last()).enter(name).exit(
            samples.last(),
            overheads.last(),
        )
    }
}

/// Entering and leaving the same scope under the same parent `n` times
/// makes one child of that name, holding the `n` samples.
pub proof fn lemma_reentry_merges(
    v: ProfilerView,
    name: Seq<char>,
    samples: Seq<u64>,
    overheads: Seq<u64>,
)
    requires
        v.wf(),
        !v.has_child_named(v.top() as int, name),
        v.nodes.len() + 1 < usize::MAX,
        samples.len() >= 1,
        overheads.len() == samples.len(),
    ensures
        ({
            let w = repeat(v, name, samples, overheads);
            let t = v.top() as int;
            let c = v.nodes.len() as usize;
            &&& w.wf()
            &&& w.stack == v.stack
            &&& w.nodes.len() == v.nodes.len() + 1
            &&& w.nodes[t].children == v.nodes[t].children.push(c)
            &&& w.child_named(t, name) == Some(c)
            &&& w.nodes[c as int].durations == samples
        }),
    decreases samples.len(),
{
    let t = v.top() as int;
    let c = v.nodes.len() as usize;
    let prefix = samples.drop_last();
    let w = repeat(v, name, prefix, overheads.drop_last());
    assert(v.stack[v.stack.len() - 1] == t);
    assert(v.stack[v.stack.len() - 1] < v.nodes.len());
    if prefix.len() == 0 {
        assert(w == v);
        assert(v.child_named(t, name) is None);
        lemma_enter_wf(v, name);
        let u = v.enter(name);
        assert(u.top() == c);
        lemma_exit_wf(u, samples.last(), overheads.last());
        let x = u.exit(samples.last(), overheads.last());
        assert(x.stack =~= v.stack);
        assert(x.nodes[c as int].durations =~= samples);
        assert(x.nodes[t].children[v.nodes[t].children.len() as int] == c);
        lemma_child_named_at(x, t, v.nodes[t].children.len() as int, name);
    } else {
        lemma_reentry_merges(v, name, prefix, overheads.drop_last());
        let k = v.nodes[t].children.len() as int;
        assert(w.stack[w.stack.len() - 1] == t);
        lemma_enter_wf(w, name);
        let u = w.enter(name);
        assert(u.top() == c);
        assert(u.stack.len() > 1);
        lemma_exit_wf(u, samples.last(), overheads.last());
        let x = u.exit(samples.last(), overheads.last());
        assert(x.stack =~= v.stack);
        assert(x.nodes[c as int].durations =~= samples);
        assert(x.nodes[t].children == w.nodes[t].children);
        assert(x.nodes[t].children[k] == c);
        lemma_child_named_at(x, t, k, name);
    }
}

/// The same name under two different parents names two different nodes,
/// each a child of its own parent.
pub proof fn lemma_same_name_distinct_parents(v: ProfilerView, p: int, q: int, name: Seq<char>)
    requires
        v.wf(),
        0 <= p < v.nodes.len(),
        0 <= q < v.nodes.len(),
        p != q,
        v.has_child_named(p, name),
        v.has_child_named(q, name),
    ensures
        v.child_named(p, name) != v.child_named(q, name),
        v.nodes[v.child_named(p, name).unwrap() as int].parent == Some(p as usize),
        v.nodes[v.child_named(q, name).unwrap() as int].parent == Some(q as usize),
{
    assert(v.children_ok(p));
    assert(v.children_ok(q));
}

/// A reset keeps exactly the nodes with an open tracker: the node at
/// place `j` of the stack moves to index `j`, with its name and depth but
/// no samples and no overhead, and every closed node is gone. A tracker
/// open across the reset still closes its own node, and the sample it logs
/// there is the node's only one.
pub proof fn lemma_reset_keeps_open(v: ProfilerView, sample: u64, overhead: u64)
    requires
        v.wf(),
    ensures
        ({
            let w = v.reset();
            &&& w.wf()
            &&& w.nodes.len() == v.stack.len()
            &&& w.stack.len() == v.stack.len()
            &&& forall|j: int|
                0 <= j < w.nodes.len() ==> {
                    let kept = v.nodes[v.stack[j] as int];
                    &&& kept.measuring_currently
                    &&& #[trigger] w.nodes[j].name == kept.name
                    &&& w.nodes[j].depth == kept.depth
                    &&& w.nodes[j].durations.len() == 0
                    &&& w.nodes[j].overhead == 0
                }
            &&& forall|i: int|
                0 <= i < v.nodes.len() && #[trigger] v.nodes[i].measuring_currently ==> exists|j: int|
                    0 <= j < w.nodes.len() && v.stack[j] == i
            &&& w.stack.len() > 1 ==> {
                let x = w.exit(sample, overhead);
                &&& x.nodes[w.top() as int].name == v.nodes[v.top() as int].name
                &&& x.nodes[w.top() as int].durations == seq![sample]
            }
        }),
{
    lemma_reset_wf(v);
    let w = v.reset();
    assert forall|j: int| 0 <= j < w.nodes.len() implies #[trigger] v.nodes[v.stack[j] as int].measuring_currently by {
        assert(v.stack[j] < v.nodes.len());
        assert(v.stack.contains(v.stack[j]));
    }
    assert forall|i: int|
        0 <= i < v.nodes.len() && #[trigger] v.nodes[i].measuring_currently implies exists|j: int|
            0 <= j < w.nodes.len() && v.stack[j] == i by {
        assert(v.stack.contains(i as usize));
    }
    if w.stack.len() > 1 {
        let k = w.stack.len() - 1;
        assert(w.stack[k] == k);
        assert(w.exit(sample, overhead).nodes[k].durations =~= seq![sample]);
    }
}

impl Profiler {
    /// The ancestor of node `i` that is `generation + 1` levels above it,
    /// if there is one.
    pub fn get_ancestor(&self, i: usize, generation: usize) -> (r: Option<usize>)
        requires
            self@.wf(),
            i < self@.nodes.len(),
        ensures
            r == ancestor(self@, i as int, generation as nat),
            r matches Some(a) ==> a < self@.nodes.len(),
    {
        let ghost v = self@;
        let mut node = i;
        let mut g = generation;
        loop
            invariant
                v == self@,
                v.wf(),
                node < v.nodes.len(),
                ancestor(v, i as int, generation as nat) == ancestor(v, node as int, g as nat),
            decreases g,
        {
            proof {
                if node > 0 {
                    assert(v.parent_ok(node as int));
                }
            }
            match self.nodes[node].parent {
                None => {
                    return None;
                },
                Some(p) => {
                    if g == 0 {
                        return Some(p);
                    }
                    node = p;
                    g = g - 1;
                },
            }
        }
    }
}

} // verus!
