use stperf::{get_formatted_string, measure, reset, FormattingOptions, MeasurementTracker, Profiler};

const MS: u64 = 1_000_000;

fn streamlined() -> FormattingOptions {
    FormattingOptions {
        starting_branch: "╶",
        continuing_branch: "│",
        branching_branch: "├",
        turning_branch: "└",
        ending_branch: "───╼",
        turning_ending_branch: "──┬╼",
    }
}

fn compatible() -> FormattingOptions {
    FormattingOptions {
        starting_branch: "-",
        continuing_branch: "|",
        branching_branch: "|",
        turning_branch: "\\",
        ending_branch: "----",
        turning_ending_branch: "----",
    }
}

/// Leaves the innermost scope at `end`, with no overhead for the exit.
fn leave(p: &mut Profiler, t: MeasurementTracker, end: u64) {
    p.exit(t, end, end, end);
}

/// The scenario of the crate documentation: `main` twice, with two runs of
/// `inner operations` around `processing`, then `processing` once more;
/// each `processing` takes 100 ms.
fn documented_tree() -> Profiler {
    let mut p = Profiler::new();
    let mut now: u64 = 0;
    for _ in 0..2 {
        let main = measure(&mut p, now, "main".to_string());
        for _ in 0..2 {
            let inner = measure(&mut p, now, "inner operations".to_string());
            let work = measure(&mut p, now, "processing".to_string());
            now += 100 * MS;
            leave(&mut p, work, now);
            leave(&mut p, inner, now);
        }
        let work = measure(&mut p, now, "processing".to_string());
        now += 100 * MS;
        leave(&mut p, work, now);
        leave(&mut p, main, now);
    }
    p
}

#[test]
fn documented_report() {
    let p = documented_tree();
    let expected = "\
╶──┬╼ main                 - 100.0%, 300 ms/loop, 2 samples
   ├──┬╼ inner operations  -  66.7%, 200 ms/loop, 4 samples
   │  └───╼ processing     - 100.0%, 200 ms/loop, 4 samples
   └───╼ processing        -  33.3%, 100 ms/loop, 2 samples
";
    assert_eq!(get_formatted_string(&p, streamlined(), 0), expected);
}

#[test]
fn documented_report_compatible_three_decimals() {
    let p = documented_tree();
    let expected = "\
----- main                 - 100.0%, 300.000 ms/loop, 2 samples
   |---- inner operations  -  66.7%, 200.000 ms/loop, 4 samples
   |  \\---- processing     - 100.0%, 200.000 ms/loop, 4 samples
   \\---- processing        -  33.3%, 100.000 ms/loop, 2 samples
";
    assert_eq!(get_formatted_string(&p, compatible(), 3), expected);
}

#[test]
fn balanced_calls_restore_depth() {
    let mut p = Profiler::new();
    assert_eq!(p.stack_depth(), 1);
    let a = measure(&mut p, 0, "a".to_string());
    let b = measure(&mut p, 1, "b".to_string());
    assert_eq!(p.stack_depth(), 3);
    leave(&mut p, b, 2);
    let c = measure(&mut p, 3, "c".to_string());
    leave(&mut p, c, 4);
    leave(&mut p, a, 5);
    assert_eq!(p.stack_depth(), 1);
    assert_eq!(p.current(), 0);
}

#[test]
fn reentry_merges_into_one_node() {
    let mut p = Profiler::new();
    for k in 0..5u64 {
        let t = measure(&mut p, 10 * k, "work".to_string());
        leave(&mut p, t, 10 * k + 3);
    }
    assert_eq!(p.node_count(), 2);
    let work = p.get_child(0, &"work".to_string()).unwrap();
    assert_eq!(p.measurement(0).children, vec![work]);
    assert_eq!(p.measurement(work).durations, vec![3, 3, 3, 3, 3]);
}

#[test]
fn same_name_under_two_parents_is_two_nodes() {
    let mut p = Profiler::new();
    let a = measure(&mut p, 0, "a".to_string());
    let x = measure(&mut p, 0, "x".to_string());
    leave(&mut p, x, 5);
    leave(&mut p, a, 5);
    let b = measure(&mut p, 5, "b".to_string());
    let x = measure(&mut p, 5, "x".to_string());
    leave(&mut p, x, 12);
    leave(&mut p, b, 12);
    let a_node = p.get_child(0, &"a".to_string()).unwrap();
    let b_node = p.get_child(0, &"b".to_string()).unwrap();
    let xa = p.get_child(a_node, &"x".to_string()).unwrap();
    let xb = p.get_child(b_node, &"x".to_string()).unwrap();
    assert_ne!(xa, xb);
    assert_eq!(p.measurement(xa).parent, Some(a_node));
    assert_eq!(p.measurement(xb).parent, Some(b_node));
    assert_eq!(p.measurement(xa).durations, vec![5]);
    assert_eq!(p.measurement(xb).durations, vec![7]);
}

#[test]
fn top_level_share_is_full() {
    let mut p = Profiler::new();
    let t = measure(&mut p, 0, "solo".to_string());
    leave(&mut p, t, 7 * MS);
    let report = get_formatted_string(&p, streamlined(), 0);
    assert_eq!(report, "╶───╼ solo  - 100.0%,   7 ms/loop, 1 samples\n");
}

#[test]
fn nested_loop_amortised_over_outer_runs() {
    let mut p = Profiler::new();
    let mut now: u64 = 0;
    for _ in 0..2 {
        let main = measure(&mut p, now, "main".to_string());
        for _ in 0..4 {
            let work = measure(&mut p, now, "work".to_string());
            now += 10 * MS;
            leave(&mut p, work, now);
        }
        leave(&mut p, main, now);
    }
    let expected = "\
╶──┬╼ main     - 100.0%,  40 ms/loop, 2 samples
   └───╼ work  - 100.0%,  40 ms/loop, 8 samples
";
    assert_eq!(get_formatted_string(&p, streamlined(), 0), expected);
}

#[test]
fn reset_keeps_only_open_scopes() {
    let mut p = documented_tree();
    let outer = measure(&mut p, 0, "main".to_string());
    let inner = measure(&mut p, 0, "fresh".to_string());
    assert_eq!(p.node_count(), 6);
    reset(&mut p);
    assert_eq!(p.node_count(), 3);
    assert_eq!(p.stack_depth(), 3);
    assert_eq!(p.current(), 2);
    assert_eq!(p.measurement(0).children, vec![1]);
    assert_eq!(p.measurement(1).name, "main");
    assert!(p.measurement(1).durations.is_empty());
    assert_eq!(p.measurement(1).overhead, 0);
    assert_eq!(p.measurement(1).children, vec![2]);
    assert_eq!(p.measurement(2).name, "fresh");
    assert_eq!(p.measurement(2).parent, Some(1));
    assert_eq!(p.get_child(1, &"inner operations".to_string()), None);
    leave(&mut p, inner, 4);
    assert_eq!(p.measurement(2).durations, vec![4]);
    leave(&mut p, outer, 9);
    assert_eq!(p.measurement(1).durations, vec![9]);
    assert_eq!(p.stack_depth(), 1);
}

#[test]
fn reset_of_closed_tree_keeps_root_alone() {
    let mut p = documented_tree();
    reset(&mut p);
    assert_eq!(p.node_count(), 1);
    assert_eq!(p.measurement(0).name, "root");
    assert!(p.measurement(0).children.is_empty());
    assert_eq!(get_formatted_string(&p, streamlined(), 0), "");
}

#[test]
fn scope_entered_after_reset_starts_a_new_node() {
    let mut p = documented_tree();
    reset(&mut p);
    let main = measure(&mut p, 0, "main".to_string());
    leave(&mut p, main, 5 * MS);
    assert_eq!(p.node_count(), 2);
    assert_eq!(p.get_child(0, &"main".to_string()), Some(1));
    assert_eq!(p.measurement(1).durations, vec![5 * MS]);
    assert_eq!(
        get_formatted_string(&p, streamlined(), 0),
        "╶───╼ main  - 100.0%,   5 ms/loop, 1 samples\n"
    );
}

#[test]
fn report_and_reset_cycles_do_not_grow_the_arena() {
    let mut p = Profiler::new();
    let frame = measure(&mut p, 0, "frame".to_string());
    let mut now: u64 = 0;
    for _ in 0..100 {
        for name in ["update", "render", "audio"] {
            let t = measure(&mut p, now, name.to_string());
            now += MS;
            leave(&mut p, t, now);
        }
        let _ = get_formatted_string(&p, streamlined(), 0);
        reset(&mut p);
        assert_eq!(p.node_count(), 2);
    }
    leave(&mut p, frame, now);
    reset(&mut p);
    assert_eq!(p.node_count(), 1);
}

#[test]
fn nested_node_under_parent_without_data_is_full_share() {
    let mut p = Profiler::new();
    let _outer = measure(&mut p, 0, "outer".to_string());
    let mut inner = measure(&mut p, 0, "inner".to_string());
    inner.overhead = 10;
    p.exit(inner, 5, 5, 5);
    let expected = "\
╶──┬╼ outer     - no data
   └───╼ inner  - 100.0%,   0 ms/loop, 1 samples
";
    assert_eq!(get_formatted_string(&p, streamlined(), 0), expected);
}

#[test]
fn rendering_twice_is_identical() {
    let p = documented_tree();
    let first = get_formatted_string(&p, streamlined(), 2);
    let second = get_formatted_string(&p, streamlined(), 2);
    assert_eq!(first, second);
}

#[test]
fn overhead_above_samples_clamps_to_zero() {
    let mut p = Profiler::new();
    let mut t = measure(&mut p, 100, "noisy".to_string());
    t.overhead = 50;
    p.exit(t, 110, 110, 200);
    assert_eq!(p.measurement(1).overhead, 140);
    assert_eq!(p.get_duration_ns(1), Some(0));
    let report = get_formatted_string(&p, streamlined(), 0);
    assert_eq!(report, "╶───╼ noisy  - 100.0%,   0 ms/loop, 1 samples\n");
}

#[test]
fn child_overhead_counts_against_parent() {
    let mut p = Profiler::new();
    let mut outer = measure(&mut p, 0, "outer".to_string());
    outer.overhead = 10;
    let mut inner = measure(&mut p, 0, "inner".to_string());
    inner.overhead = 20;
    p.exit(inner, 500, 500, 505);
    p.exit(outer, 1000, 1000, 1000);
    assert_eq!(p.get_overhead_ns(2), 25);
    assert_eq!(p.get_overhead_ns(1), 35);
    assert_eq!(p.get_duration_ns(2), Some(475));
    assert_eq!(p.get_duration_ns(1), Some(965));
}

#[test]
fn open_scope_without_samples_reads_no_data() {
    let mut p = Profiler::new();
    let _main = measure(&mut p, 0, "main".to_string());
    let step = measure(&mut p, 0, "step".to_string());
    leave(&mut p, step, 3 * MS);
    let expected = "\
╶──┬╼ main     - no data
   └───╼ step  - 100.0%,   3 ms/loop, 1 samples
";
    assert_eq!(get_formatted_string(&p, streamlined(), 0), expected);
}

#[test]
fn continuing_line_below_a_non_last_sibling() {
    let mut p = Profiler::new();
    let a = measure(&mut p, 0, "a".to_string());
    let b = measure(&mut p, 0, "b".to_string());
    let c = measure(&mut p, 0, "c".to_string());
    leave(&mut p, c, 2 * MS);
    leave(&mut p, b, 2 * MS);
    let d = measure(&mut p, 2 * MS, "d".to_string());
    leave(&mut p, d, 4 * MS);
    leave(&mut p, a, 4 * MS);
    let expected = "\
>,,,, a        - 100.0%,   4 ms/loop, 1 samples
   +,,,, b     -  50.0%,   2 ms/loop, 1 samples
   |  -.... c  - 100.0%,   2 ms/loop, 1 samples
   -.... d     -  50.0%,   2 ms/loop, 1 samples
";
    let ops = FormattingOptions {
        starting_branch: ">",
        continuing_branch: "|",
        branching_branch: "+",
        turning_branch: "-",
        ending_branch: "....",
        turning_ending_branch: ",,,,",
    };
    assert_eq!(get_formatted_string(&p, ops, 0), expected);
}

#[test]
fn shares_and_milliseconds_round_half_to_even() {
    let mut p = Profiler::new();
    let top = measure(&mut p, 0, "top".to_string());
    let part = measure(&mut p, 0, "part".to_string());
    leave(&mut p, part, 1_500_000);
    leave(&mut p, top, 24_000_000);
    let expected = "\
╶──┬╼ top      - 100.0%,  24 ms/loop, 1 samples
   └───╼ part  -   6.2%,   2 ms/loop, 1 samples
";
    assert_eq!(get_formatted_string(&p, streamlined(), 0), expected);
}

#[test]
fn many_decimals_extend_with_zeros() {
    let mut p = Profiler::new();
    let t = measure(&mut p, 0, "s".to_string());
    leave(&mut p, t, 1_234_567);
    let report = get_formatted_string(&p, streamlined(), 8);
    assert_eq!(report, "╶───╼ s    - 100.0%,  1.23456700 ms/loop, 1 samples\n");
}

#[test]
fn time_running_backwards_counts_as_zero() {
    let mut p = Profiler::new();
    let t = measure(&mut p, 50, "s".to_string());
    p.exit(t, 40, 40, 30);
    assert_eq!(p.measurement(1).durations, vec![0]);
    assert_eq!(p.measurement(1).overhead, 0);
}

#[test]
fn later_top_level_group_uses_its_own_count() {
    let mut p = Profiler::new();
    let mut now: u64 = 0;
    for _ in 0..4 {
        let a = measure(&mut p, now, "a".to_string());
        now += MS;
        leave(&mut p, a, now);
    }
    let b = measure(&mut p, now, "b".to_string());
    let inner = measure(&mut p, now, "inner".to_string());
    now += 8 * MS;
    leave(&mut p, inner, now);
    leave(&mut p, b, now);
    let expected = "\
╶───╼ a         - 100.0%,   1 ms/loop, 4 samples
╶──┬╼ b         - 100.0%,   8 ms/loop, 1 samples
   └───╼ inner  - 100.0%,   8 ms/loop, 1 samples
";
    assert_eq!(get_formatted_string(&p, streamlined(), 0), expected);
}

#[test]
fn ancestors_walk_up_the_parents() {
    let p = documented_tree();
    let main = p.get_child(0, &"main".to_string()).unwrap();
    let inner = p.get_child(main, &"inner operations".to_string()).unwrap();
    let work = p.get_child(inner, &"processing".to_string()).unwrap();
    assert_eq!(p.get_ancestor(work, 0), Some(inner));
    assert_eq!(p.get_ancestor(work, 1), Some(main));
    assert_eq!(p.get_ancestor(work, 2), Some(0));
    assert_eq!(p.get_ancestor(work, 3), None);
    assert!(p.is_last_child_name(inner, &"processing".to_string()));
    assert!(!p.is_last_child_name(main, &"inner operations".to_string()));
    assert_eq!(p.last_child_name(work), None);
}
