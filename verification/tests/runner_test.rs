use std::any::Any;
use std::cell::Cell;
use std::rc::Rc;
use std::sync::atomic::{AtomicBool, AtomicU32, AtomicUsize, Ordering};

use rsspec::config::{detect_libtest_args, parse_parallel_spec};
use rsspec::fixtures::FixtureStore;
use rsspec::runner::{Line, Outcome, RunConfig, RunResult};
use rsspec::session::{
    flatten_units, reassemble, render_unit, run_suites, run_suites_in_units, suites_have_focus,
    summary_parts, Tally,
};
use rsspec::tree::{OrderedStep, Suite, TestNode};

/// The fixture under `k`, when one is in scope.
fn fixture<V>(s: &FixtureStore<V>, k: u64) -> Option<&V> {
    if s.has_setup_value(k) {
        Some(s.with_setup_value(k))
    } else {
        None
    }
}

type Store = FixtureStore<Box<dyn Any>>;
type Body = Box<dyn Fn(&mut Store) -> Outcome>;

/// The bodies of a tree, by index.
struct Table {
    bodies: Vec<Body>,
}

impl Table {
    fn new() -> Table {
        Table { bodies: Vec::new() }
    }

    fn add(&mut self, f: impl Fn(&mut Store) -> Outcome + 'static) -> usize {
        self.bodies.push(Box::new(f));
        self.bodies.len() - 1
    }
}

fn fail(msg: &str) -> Outcome {
    Outcome::Fail(msg.to_string())
}

fn cfg(parallelism: usize) -> RunConfig {
    RunConfig { filter: None, list: false, include_ignored: false, parallelism, label_filter: None, fail_on_focus: false }
}

fn run_tree(nodes: Vec<TestNode>, table: &Table, config: &RunConfig) -> RunResult {
    let suites = vec![Suite::new("", nodes)];
    run_suites(&suites, config, &table.bodies, FixtureStore::new(), &|| 0u64, &|_s: &mut Store| Outcome::Pass).result
}

/// The parallel pipeline, unit after unit: split into top-level units, run
/// each on a fresh store, put the reports back in tree order.
fn run_units(nodes: Vec<TestNode>, table: &Table, config: &RunConfig) -> (Vec<Line>, RunResult) {
    let suites = vec![Suite::new("", nodes)];
    let focus = suites_have_focus(&suites);
    let (layout, units) = flatten_units(suites);
    let mut rendered = Vec::new();
    for (_, node) in units.iter() {
        let (lines, result, _) = render_unit(node, focus, config, &table.bodies, &|| 0u64, &|_s: &mut Store| Outcome::Pass);
        rendered.push((lines, result));
    }
    reassemble(&layout, rendered)
}

fn it_at(name: &str, id: usize, focused: bool, pending: bool) -> TestNode {
    TestNode::It {
        name: name.to_string(),
        focused,
        pending,
        labels: Vec::new(),
        retries: None,
        timeout_ms: None,
        must_pass_repeatedly: None,
        test_fn: id,
    }
}

#[test]
fn ordered_is_skipped_when_focus_mode_is_active() {
    static ORDERED_RAN: AtomicBool = AtomicBool::new(false);
    ORDERED_RAN.store(false, Ordering::SeqCst);
    let mut t = Table::new();
    let focused = t.add(|_| Outcome::Pass);
    let step = t.add(|_| {
        ORDERED_RAN.store(true, Ordering::SeqCst);
        Outcome::Pass
    });
    let nodes = vec![TestNode::describe(
        "root",
        vec![
            TestNode::fit("focused", focused),
            TestNode::Ordered {
                name: "ordered".to_string(),
                labels: Vec::new(),
                continue_on_failure: false,
                steps: vec![OrderedStep { name: "step".to_string(), body: step }],
            },
        ],
    )];

    let result = run_tree(nodes, &t, &cfg(1));

    assert_eq!(result.failed, 0);
    assert_eq!(result.passed, 1);
    assert_eq!(result.skipped, 1);
    assert!(!ORDERED_RAN.load(Ordering::SeqCst));
}

#[test]
fn skip_reports_as_skipped_not_passed() {
    let mut t = Table::new();
    let id = t.add(|_| Outcome::Skip("not ready".to_string()));
    let nodes = vec![TestNode::it("skippable", id)];

    let result = run_tree(nodes, &t, &cfg(1));

    assert_eq!(result.skipped, 1, "should be reported as skipped");
    assert_eq!(result.passed, 0, "should not be reported as passed");
    assert_eq!(result.failed, 0);
}

#[test]
fn before_all_panic_reports_failure_and_runs_after_all() {
    static AFTER_ALL_RAN: AtomicBool = AtomicBool::new(false);
    AFTER_ALL_RAN.store(false, Ordering::SeqCst);
    let mut t = Table::new();
    let ba = t.add(|_| fail("setup exploded"));
    let aa = t.add(|_| {
        AFTER_ALL_RAN.store(true, Ordering::SeqCst);
        Outcome::Pass
    });
    let child = t.add(|_| fail("child should be skipped"));
    let nodes = vec![TestNode::describe_with_hooks("broken setup", vec![ba], vec![aa], vec![TestNode::it("should not run", child)])];

    let result = run_tree(nodes, &t, &cfg(1));

    assert_eq!(result.failed, 1, "before_all failure counted");
    assert_eq!(result.passed, 0, "child should not have run");
    assert!(AFTER_ALL_RAN.load(Ordering::SeqCst), "after_all must still run");
    assert_eq!(result.failures, vec!["broken setup (before_all): setup exploded".to_string()]);
}

#[test]
fn after_all_panic_reports_failure() {
    let mut t = Table::new();
    let aa = t.add(|_| fail("teardown exploded"));
    let ok = t.add(|_| Outcome::Pass);
    let nodes = vec![TestNode::describe_with_hooks("broken teardown", vec![], vec![aa], vec![TestNode::it("passes", ok)])];

    let result = run_tree(nodes, &t, &cfg(1));

    assert_eq!(result.passed, 1, "test itself passed");
    assert_eq!(result.failed, 1, "after_all failure counted");
    assert_eq!(result.failures, vec!["broken teardown (after_all): teardown exploded".to_string()]);
}

#[test]
fn before_each_panic_still_runs_after_each() {
    static AFTER_EACH_RAN: AtomicBool = AtomicBool::new(false);
    AFTER_EACH_RAN.store(false, Ordering::SeqCst);
    let mut t = Table::new();
    let be = t.add(|_| fail("before_each exploded"));
    let ae = t.add(|_| {
        AFTER_EACH_RAN.store(true, Ordering::SeqCst);
        Outcome::Pass
    });
    let ok = t.add(|_| Outcome::Pass);
    let nodes = vec![TestNode::describe_with_each_hooks("broken before_each", vec![be], vec![ae], vec![TestNode::it("test", ok)])];

    let result = run_tree(nodes, &t, &cfg(1));

    assert_eq!(result.failed, 1, "before_each failure reported");
    assert!(AFTER_EACH_RAN.load(Ordering::SeqCst), "after_each must still run");
}

#[test]
fn after_each_panic_preserves_test_failure() {
    let mut t = Table::new();
    let ae = t.add(|_| fail("after_each exploded"));
    let body = t.add(|_| fail("test body failed"));
    let nodes = vec![TestNode::describe_with_each_hooks("both fail", vec![], vec![ae], vec![TestNode::it("fails", body)])];

    let result = run_tree(nodes, &t, &cfg(1));

    assert_eq!(result.failed, 1);
    assert!(
        result.failures[0].contains("test body failed"),
        "original test failure must be reported, got: {}",
        result.failures[0]
    );
}

#[test]
fn after_each_panic_runs_remaining_hooks() {
    static SECOND_AFTER_EACH_RAN: AtomicBool = AtomicBool::new(false);
    SECOND_AFTER_EACH_RAN.store(false, Ordering::SeqCst);
    let mut t = Table::new();
    let inner_ae = t.add(|_| fail("inner after_each panicked"));
    let outer_ae = t.add(|_| {
        SECOND_AFTER_EACH_RAN.store(true, Ordering::SeqCst);
        Outcome::Pass
    });
    let ok = t.add(|_| Outcome::Pass);
    let inner = TestNode::describe_with_each_hooks("inner", vec![], vec![inner_ae], vec![TestNode::it("test", ok)]);
    let outer = TestNode::describe_with_each_hooks("outer", vec![], vec![outer_ae], vec![inner]);

    let result = run_tree(vec![outer], &t, &cfg(1));

    assert_eq!(result.failed, 1);
    assert!(
        SECOND_AFTER_EACH_RAN.load(Ordering::SeqCst),
        "outer after_each must still run despite inner after_each panicking"
    );
}

#[test]
fn retries_and_timeout_compose() {
    static ATTEMPTS: AtomicU32 = AtomicU32::new(0);
    ATTEMPTS.store(0, Ordering::SeqCst);
    let mut t = Table::new();
    let id = t.add(|_| {
        let n = ATTEMPTS.fetch_add(1, Ordering::SeqCst);
        if n >= 2 {
            Outcome::Pass
        } else {
            Outcome::Fail(format!("attempt {n}"))
        }
    });
    let nodes = vec![TestNode::It {
        name: "combined".to_string(),
        focused: false,
        pending: false,
        labels: Vec::new(),
        retries: Some(2),
        timeout_ms: Some(5),
        must_pass_repeatedly: None,
        test_fn: id,
    }];
    // A clock that moves 10ms on each reading: the spec takes longer than 5ms.
    let now = Cell::new(0u64);
    let clock = || {
        now.set(now.get() + 10);
        now.get()
    };
    let suites = vec![Suite::new("", nodes)];
    let run = run_suites(&suites, &cfg(1), &t.bodies, FixtureStore::new(), &clock, &|_s: &mut Store| Outcome::Pass);

    assert_eq!(ATTEMPTS.load(Ordering::SeqCst), 3);
    assert_eq!(run.result.failed, 1);
    assert_eq!(run.result.failures, vec!["combined: test timed out after 5ms".to_string()]);
}

#[test]
fn retries_and_must_pass_repeatedly_compose() {
    static ATTEMPTS: AtomicU32 = AtomicU32::new(0);
    ATTEMPTS.store(0, Ordering::SeqCst);
    let mut t = Table::new();
    let id = t.add(|_| {
        let n = ATTEMPTS.fetch_add(1, Ordering::SeqCst);
        if n > 0 {
            Outcome::Pass
        } else {
            fail("first call should fail and retry")
        }
    });
    let nodes = vec![TestNode::It {
        name: "combined".to_string(),
        focused: false,
        pending: false,
        labels: Vec::new(),
        retries: Some(1),
        timeout_ms: None,
        must_pass_repeatedly: Some(2),
        test_fn: id,
    }];

    let result = run_tree(nodes, &t, &cfg(1));

    assert_eq!(ATTEMPTS.load(Ordering::SeqCst), 3);
    assert_eq!(result.failed, 0);
    assert_eq!(result.passed, 1);
}

#[test]
fn must_pass_repeatedly_zero_fails_without_running() {
    static RUNS: AtomicU32 = AtomicU32::new(0);
    RUNS.store(0, Ordering::SeqCst);
    let mut t = Table::new();
    let id = t.add(|_| {
        RUNS.fetch_add(1, Ordering::SeqCst);
        Outcome::Pass
    });
    let nodes = vec![TestNode::It {
        name: "never".to_string(),
        focused: false,
        pending: false,
        labels: Vec::new(),
        retries: None,
        timeout_ms: None,
        must_pass_repeatedly: Some(0),
        test_fn: id,
    }];

    let result = run_tree(nodes, &t, &cfg(1));

    assert_eq!(RUNS.load(Ordering::SeqCst), 0);
    assert_eq!(result.failures, vec!["never: rsspec: must_pass_repeatedly requires n >= 1".to_string()]);
}

fn args(strs: &[&str]) -> Vec<String> {
    strs.iter().map(|s| s.to_string()).collect()
}

#[test]
fn detect_libtest_args_catches_format() {
    assert!(detect_libtest_args(&args(&["--format=json"])).is_some());
    assert!(detect_libtest_args(&args(&["--format=pretty"])).is_some());
    assert!(detect_libtest_args(&args(&["--format", "json"])).is_some());
}

#[test]
fn detect_libtest_args_catches_test_threads() {
    assert!(detect_libtest_args(&args(&["--test-threads=4"])).is_some());
    assert!(detect_libtest_args(&args(&["--test-threads", "2"])).is_some());
}

#[test]
fn detect_libtest_args_catches_other_libtest_flags() {
    assert!(detect_libtest_args(&args(&["--show-output"])).is_some());
    assert!(detect_libtest_args(&args(&["--logfile", "out.log"])).is_some());
    assert!(detect_libtest_args(&args(&["-Zunstable-options"])).is_some());
}

#[test]
fn detect_libtest_args_ignores_rsspec_args() {
    assert!(detect_libtest_args(&args(&["--list"])).is_none());
    assert!(detect_libtest_args(&args(&["--include-ignored"])).is_none());
    assert!(detect_libtest_args(&args(&["my_filter"])).is_none());
    assert!(detect_libtest_args(&args(&[])).is_none());
}

#[test]
fn detect_libtest_args_returns_the_first_offending_arg() {
    assert_eq!(detect_libtest_args(&args(&["x", "--logfile=a", "--format"])), Some("--logfile=a".to_string()));
}

#[test]
fn non_send_test_body_is_accepted_without_parallel_feature() {
    let shared = Rc::new(7);
    let mut t = Table::new();
    let id = t.add(move |_| if *shared == 7 { Outcome::Pass } else { fail("wrong value") });
    let nodes = vec![TestNode::it("uses Rc", id)];

    let result = run_tree(nodes, &t, &cfg(1));
    assert_eq!(result.passed, 1);
}

#[test]
fn parse_parallel_spec_accepts_integers_and_auto() {
    assert_eq!(parse_parallel_spec("4", 8), Some(4));
    assert_eq!(parse_parallel_spec("1", 8), Some(1));
    assert_eq!(parse_parallel_spec("0", 8), Some(1));
    assert!(parse_parallel_spec("auto", 8).is_some_and(|n| n >= 1));
    assert_eq!(parse_parallel_spec("nonsense", 8), None);
}

#[test]
fn parse_parallel_spec_auto_is_case_insensitive_and_plus_is_accepted() {
    assert_eq!(parse_parallel_spec("AuTo", 3), Some(3));
    assert_eq!(parse_parallel_spec("+2", 3), Some(2));
    assert_eq!(parse_parallel_spec("-2", 3), None);
    assert_eq!(parse_parallel_spec("", 3), None);
    assert_eq!(parse_parallel_spec("99999999999999999999999", 3), None);
}

fn sample_tree(t: &mut Table) -> Vec<TestNode> {
    let pass = t.add(|_| Outcome::Pass);
    let boom = t.add(|_| fail("alpha boom"));
    vec![
        TestNode::describe("Alpha", vec![TestNode::it("a1", pass), TestNode::it("a2", boom), it_at("a3", pass, false, true)]),
        TestNode::describe("Beta", vec![TestNode::it("b1", pass), TestNode::it("b2", pass)]),
    ]
}

#[test]
fn parallel_counts_match_sequential() {
    let mut t = Table::new();
    let seq = run_tree(sample_tree(&mut t), &t, &cfg(1));
    let (_, par) = run_units(sample_tree(&mut t), &t, &cfg(4));

    assert_eq!(par.passed, seq.passed);
    assert_eq!(par.failed, seq.failed);
    assert_eq!(par.pending, seq.pending);
    assert_eq!(par.skipped, seq.skipped);

    let mut seq_failures = seq.failures.clone();
    seq_failures.sort();
    let mut par_failures = par.failures.clone();
    par_failures.sort();
    assert_eq!(par_failures, seq_failures);

    assert_eq!(seq.passed, 3);
    assert_eq!(seq.failed, 1);
    assert_eq!(seq.pending, 1);
}

#[test]
fn parallel_output_is_ordered_and_deterministic() {
    let mut t = Table::new();
    let (out1, _) = run_units(sample_tree(&mut t), &t, &cfg(2));
    let (out2, _) = run_units(sample_tree(&mut t), &t, &cfg(2));
    let s1 = format!("{:?}", out1);
    let s2 = format!("{:?}", out2);

    assert_eq!(s1, s2, "parallel output must be deterministic");
    let alpha = s1.find("Alpha").expect("Alpha rendered");
    let beta = s1.find("Beta").expect("Beta rendered");
    assert!(alpha < beta, "Alpha must render before Beta regardless of completion order");
}

const KEY: u64 = 7;

#[test]
fn parallel_isolates_fixtures_per_subtree() {
    let mut t = Table::new();
    let put10 = t.add(|s| match s.store_scope_setup_value(KEY, Box::new(10i32)) {
        Ok(()) => Outcome::Pass,
        Err(e) => Outcome::Fail(format!("{:?}", e)),
    });
    let put20 = t.add(|s| match s.store_scope_setup_value(KEY, Box::new(20i32)) {
        Ok(()) => Outcome::Pass,
        Err(e) => Outcome::Fail(format!("{:?}", e)),
    });
    let sees = |want: i32| {
        move |s: &mut Store| match fixture(s, KEY).and_then(|b| b.downcast_ref::<i32>()) {
            Some(v) if *v == want => Outcome::Pass,
            other => Outcome::Fail(format!("saw {:?}", other)),
        }
    };
    let sees10 = t.add(sees(10));
    let sees20 = t.add(sees(20));
    let tree = vec![
        TestNode::describe_with_hooks("Scope10", vec![put10], vec![], vec![TestNode::it("sees 10", sees10)]),
        TestNode::describe_with_hooks("Scope20", vec![put20], vec![], vec![TestNode::it("sees 20", sees20)]),
    ];

    let (_, result) = run_units(tree, &t, &cfg(2));
    assert_eq!(result.failed, 0, "fixtures leaked across subtrees: {:?}", result.failures);
    assert_eq!(result.passed, 2);
}

#[test]
fn parallel_runs_before_all_once_per_subtree() {
    static CALLS: AtomicUsize = AtomicUsize::new(0);
    CALLS.store(0, Ordering::SeqCst);
    let mut t = Table::new();
    let ba = t.add(|_| {
        CALLS.fetch_add(1, Ordering::SeqCst);
        Outcome::Pass
    });
    let pass = t.add(|_| Outcome::Pass);
    let tree = vec![TestNode::describe_with_hooks(
        "OnceScope",
        vec![ba],
        vec![],
        vec![TestNode::it("t1", pass), TestNode::it("t2", pass), TestNode::it("t3", pass)],
    )];

    let (_, result) = run_units(tree, &t, &cfg(4));
    assert_eq!(result.passed, 3);
    assert_eq!(CALLS.load(Ordering::SeqCst), 1, "before_all must run exactly once for the subtree");
}

#[test]
fn parallelism_one_matches_sequential() {
    let mut t = Table::new();
    let seq = run_tree(sample_tree(&mut t), &t, &cfg(1));
    let one = run_tree(sample_tree(&mut t), &t, &cfg(1));
    assert_eq!(one.passed, seq.passed);
    assert_eq!(one.failed, seq.failed);
    assert_eq!(one.pending, seq.pending);
    assert_eq!(one.skipped, seq.skipped);
}

#[test]
fn focus_guard_aborts_the_run() {
    let mut t = Table::new();
    let pass = t.add(|_| Outcome::Pass);
    let nodes = vec![TestNode::fit("focused", pass), TestNode::it("other", pass)];
    let mut config = cfg(1);
    config.fail_on_focus = true;
    let suites = vec![Suite::new("", nodes)];
    let run = run_suites(&suites, &config, &t.bodies, FixtureStore::new(), &|| 0u64, &|_s: &mut Store| Outcome::Pass);
    assert_eq!(
        run.abort,
        Some("rsspec: focused tests detected but RSSPEC_FAIL_ON_FOCUS is set. Remove fit/fdescribe/fcontext before pushing.".to_string())
    );
    assert_eq!(run.result.passed, 0);
}

#[test]
fn path_filter_is_case_insensitive_and_matches_the_full_path() {
    let mut t = Table::new();
    let pass = t.add(|_| Outcome::Pass);
    let nodes = vec![
        TestNode::describe("Math", vec![TestNode::it("adds", pass), TestNode::it("subtracts", pass)]),
        TestNode::it("other", pass),
    ];
    let mut config = cfg(1);
    config.filter = Some("math > ADD".to_string());
    let result = run_tree(nodes, &t, &config);
    assert_eq!(result.passed, 1);
    assert_eq!(result.skipped + result.failed + result.pending, 0);
}

#[test]
fn continue_on_failure_reports_how_many_steps_failed() {
    static STEPS: AtomicU32 = AtomicU32::new(0);
    STEPS.store(0, Ordering::SeqCst);
    let mut t = Table::new();
    let bad = t.add(|_| {
        STEPS.fetch_add(1, Ordering::SeqCst);
        fail("step broke")
    });
    let good = t.add(|_| {
        STEPS.fetch_add(1, Ordering::SeqCst);
        Outcome::Pass
    });
    let step = |name: &str, body: usize| OrderedStep { name: name.to_string(), body };
    let nodes = vec![TestNode::Ordered {
        name: "flow".to_string(),
        labels: Vec::new(),
        continue_on_failure: true,
        steps: vec![step("one", bad), step("two", good), step("three", bad)],
    }];
    let result = run_tree(nodes, &t, &cfg(1));
    assert_eq!(STEPS.load(Ordering::SeqCst), 3);
    assert_eq!(result.failures, vec!["flow: 2 of 3 ordered steps failed".to_string()]);
}

type Cleanup = Box<dyn FnOnce() -> Outcome>;

#[test]
fn deferred_cleanup_panic_does_not_skip_remaining() {
    static SECOND_CLEANUP_RAN: AtomicBool = AtomicBool::new(false);
    SECOND_CLEANUP_RAN.store(false, Ordering::SeqCst);
    let stack: Rc<std::cell::RefCell<Vec<Cleanup>>> = Rc::new(std::cell::RefCell::new(Vec::new()));
    let registry = Rc::clone(&stack);
    let mut t = Table::new();
    let id = t.add(move |_| {
        registry.borrow_mut().push(Box::new(|| {
            SECOND_CLEANUP_RAN.store(true, Ordering::SeqCst);
            Outcome::Pass
        }));
        registry.borrow_mut().push(Box::new(|| fail("cleanup boom")));
        Outcome::Pass
    });
    let runner_stack = Rc::clone(&stack);
    let cleanup = move |_s: &mut Store| {
        let pending: Vec<Cleanup> = runner_stack.borrow_mut().drain(..).collect();
        rsspec::runner::run_cleanups(pending)
    };
    let suites = vec![Suite::new("", vec![TestNode::it("cleanup test", id)])];
    let run = run_suites(&suites, &cfg(1), &t.bodies, FixtureStore::new(), &|| 0u64, &cleanup);

    assert_eq!(run.result.failed, 1);
    assert_eq!(run.result.failures, vec!["cleanup test: cleanup boom".to_string()]);
    assert!(SECOND_CLEANUP_RAN.load(Ordering::SeqCst), "second cleanup must run despite first panicking");
}

#[test]
fn defer_cleanup_runs_in_lifo_order() {
    let order = Rc::new(std::cell::RefCell::new(Vec::<i32>::new()));
    let mut pending: Vec<Cleanup> = Vec::new();
    for n in 1..=3 {
        let o = Rc::clone(&order);
        pending.push(Box::new(move || {
            o.borrow_mut().push(n);
            Outcome::Pass
        }));
    }
    let result = rsspec::runner::run_cleanups(pending);
    assert!(matches!(result, Outcome::Pass));
    assert_eq!(*order.borrow(), vec![3, 2, 1], "deferred cleanups must run last-registered-first");
}

#[test]
fn summary_parts_name_the_nonzero_counts_in_order() {
    let mut r = RunResult::new();
    assert_eq!(summary_parts(&r), vec![(Tally::NoneMatched, "0 matched".to_string())]);
    r.passed = 3;
    r.skipped = 1;
    assert_eq!(summary_parts(&r), vec![(Tally::Passed, "3 passed".to_string()), (Tally::Skipped, "1 skipped".to_string())]);
}

#[test]
fn unit_by_unit_run_matches_the_sequential_report_counts() {
    let mut t = Table::new();
    let nodes = sample_tree(&mut t);
    let run = run_suites_in_units(vec![Suite::new("", nodes)], &cfg(4), &t.bodies, &|| 0u64, &|_s: &mut Store| Outcome::Pass);
    assert_eq!((run.result.passed, run.result.failed, run.result.pending), (3, 1, 1));
    assert_eq!(run.result.failures, vec!["Alpha > a2: alpha boom".to_string()]);
    assert!(matches!(run.lines[0], Line::Blank));
}

fn retried_spec(id: usize, retries: u32) -> Vec<TestNode> {
    vec![TestNode::It {
        name: "retried".to_string(),
        focused: false,
        pending: false,
        labels: Vec::new(),
        retries: Some(retries),
        timeout_ms: None,
        must_pass_repeatedly: None,
        test_fn: id,
    }]
}

#[test]
fn test_with_retries_success_first_try() {
    static RUNS: AtomicU32 = AtomicU32::new(0);
    RUNS.store(0, Ordering::SeqCst);
    let mut t = Table::new();
    let id = t.add(|_| {
        RUNS.fetch_add(1, Ordering::SeqCst);
        assert_eq!(1, 1);
        Outcome::Pass
    });
    let result = run_tree(retried_spec(id, 3), &t, &cfg(1));
    assert_eq!(result.passed, 1);
    assert_eq!(RUNS.load(Ordering::SeqCst), 1);
}

#[test]
fn test_with_retries_eventual_success() {
    static ATTEMPTS: AtomicU32 = AtomicU32::new(0);
    ATTEMPTS.store(0, Ordering::SeqCst);
    let mut t = Table::new();
    let id = t.add(|_| {
        let n = ATTEMPTS.fetch_add(1, Ordering::SeqCst);
        if n < 2 {
            fail("not yet")
        } else {
            Outcome::Pass
        }
    });
    let result = run_tree(retried_spec(id, 3), &t, &cfg(1));
    assert_eq!(ATTEMPTS.load(Ordering::SeqCst), 3);
    assert_eq!(result.passed, 1);
    assert_eq!(result.failed, 0);
}

#[test]
fn idle_group_calls_neither_before_all_nor_after_all() {
    static HOOK_CALLS: AtomicU32 = AtomicU32::new(0);
    HOOK_CALLS.store(0, Ordering::SeqCst);
    let mut t = Table::new();
    let ba = t.add(|_| {
        HOOK_CALLS.fetch_add(1, Ordering::SeqCst);
        Outcome::Pass
    });
    let aa = t.add(|_| {
        HOOK_CALLS.fetch_add(1, Ordering::SeqCst);
        Outcome::Pass
    });
    let body = t.add(|_| fail("filtered out, must not run"));
    let nodes = vec![
        TestNode::describe_with_hooks("idle", vec![ba], vec![aa], vec![TestNode::it("hidden", body)]),
        TestNode::it("visible", t.add(|_| Outcome::Pass)),
    ];
    let mut config = cfg(1);
    config.filter = Some("visible".to_string());

    let result = run_tree(nodes, &t, &config);

    assert_eq!(HOOK_CALLS.load(Ordering::SeqCst), 0);
    assert_eq!(result.passed, 1);
    assert_eq!(result.failed, 0);
}

#[test]
fn unfocused_spec_is_skipped_in_focus_mode() {
    static RAN: AtomicU32 = AtomicU32::new(0);
    RAN.store(0, Ordering::SeqCst);
    let mut t = Table::new();
    let plain = t.add(|_| {
        RAN.fetch_add(1, Ordering::SeqCst);
        Outcome::Pass
    });
    let focused = t.add(|_| Outcome::Pass);
    let nodes = vec![it_at("plain", plain, false, false), it_at("focused", focused, true, false)];

    let result = run_tree(nodes, &t, &cfg(1));

    assert_eq!(RAN.load(Ordering::SeqCst), 0);
    assert_eq!(result.skipped, 1);
    assert_eq!(result.passed, 1);
}

fn timed_spec(name: &str, id: usize, timeout_ms: u64) -> TestNode {
    TestNode::It {
        name: name.to_string(),
        focused: false,
        pending: false,
        labels: Vec::new(),
        retries: None,
        timeout_ms: Some(timeout_ms),
        must_pass_repeatedly: None,
        test_fn: id,
    }
}

#[test]
fn timeout_is_decided_by_the_clock_readings() {
    // Every reading of this clock is 10 ms after the previous one.
    let ticks = Cell::new(0u64);
    let clock = || {
        let t = ticks.get();
        ticks.set(t + 10);
        t
    };
    let mut t = Table::new();
    let ok = t.add(|_| Outcome::Pass);
    let suites = vec![Suite::new("", vec![timed_spec("slow", ok, 5), timed_spec("in time", ok, 20)])];

    let run = run_suites(&suites, &cfg(1), &t.bodies, FixtureStore::new(), &clock, &|_s: &mut Store| Outcome::Pass);

    assert_eq!(run.result.failed, 1);
    assert_eq!(run.result.passed, 1);
    assert_eq!(run.result.failures, vec!["slow: test timed out after 5ms".to_string()]);
    assert!(run.lines.iter().any(|l| matches!(l, Line::Passed { ms: 10, .. })));
    assert!(run.lines.iter().any(|l| matches!(l, Line::Failed { ms: 10, .. })));
}

#[test]
fn auto_parallelism_is_at_least_one() {
    assert_eq!(parse_parallel_spec("auto", 0), Some(1));
    assert_eq!(parse_parallel_spec("auto", 3), Some(3));
}
