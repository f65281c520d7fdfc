use rsspec::tree::TestNode;
use rsspec::trials::{enumerate_trials, format_list_terse, Trial};

/// A spec with a placeholder body.
fn it_(name: &str) -> TestNode {
    TestNode::it(name, 0)
}

/// A pending spec.
fn xit_(name: &str) -> TestNode {
    TestNode::It {
        name: name.to_string(),
        focused: false,
        pending: true,
        labels: Vec::new(),
        retries: None,
        timeout_ms: None,
        must_pass_repeatedly: None,
        test_fn: 0,
    }
}

fn describe(name: &str, pending: bool, before_all: bool, after_all: bool, before_each: bool, children: Vec<TestNode>) -> TestNode {
    let hook = || -> Vec<usize> { vec![0] };
    TestNode::Describe {
        name: name.to_string(),
        focused: false,
        pending,
        labels: Vec::new(),
        before_each: if before_each { hook() } else { Vec::new() },
        after_each: Vec::new(),
        before_all: if before_all { hook() } else { Vec::new() },
        after_all: if after_all { hook() } else { Vec::new() },
        just_before_each: Vec::new(),
        children,
    }
}

fn d(name: &str, children: Vec<TestNode>) -> TestNode {
    describe(name, false, false, false, false, children)
}

fn d_ba(name: &str, children: Vec<TestNode>) -> TestNode {
    describe(name, false, true, false, false, children)
}

fn d_aa(name: &str, children: Vec<TestNode>) -> TestNode {
    describe(name, false, false, true, false, children)
}

fn d_be(name: &str, children: Vec<TestNode>) -> TestNode {
    describe(name, false, false, false, true, children)
}

fn xd(name: &str, children: Vec<TestNode>) -> TestNode {
    describe(name, true, false, false, false, children)
}

fn names(trials: &[Trial]) -> Vec<String> {
    trials.iter().map(|t| t.name.clone()).collect()
}

#[test]
fn mode_a_shared_before_all_is_a_single_subtree_trial() {
    let tree = vec![d_ba("Seam", vec![it_("a"), it_("b"), it_("c")])];
    let trials = enumerate_trials(&tree);

    assert_eq!(trials.len(), 1, "the whole subtree collapses to one trial");
    assert_eq!(trials[0].name, "Seam");
    assert!(!trials[0].ignored);
    assert_eq!(trials[0].locator, vec![0]);
}

#[test]
fn after_all_alone_forces_a_subtree_trial() {
    let tree = vec![d_aa("teardown seam", vec![it_("x"), it_("y")])];
    let trials = enumerate_trials(&tree);

    assert_eq!(trials.len(), 1);
    assert_eq!(trials[0].name, "teardown seam");
}

#[test]
fn shallowest_scope_with_a_shared_hook_wins() {
    let tree = vec![d_ba("outer", vec![d_ba("inner", vec![it_("deep")]), it_("mid")])];
    let trials = enumerate_trials(&tree);

    assert_eq!(trials.len(), 1, "outer is the isolation root; inner does not split");
    assert_eq!(trials[0].name, "outer");
}

#[test]
fn mode_b_independent_specs_each_become_a_leaf_trial() {
    let tree = vec![d_be("Integration", vec![it_("scenario one"), it_("scenario two"), it_("scenario three")])];
    let trials = enumerate_trials(&tree);

    assert_eq!(
        names(&trials),
        vec!["Integration::scenario one", "Integration::scenario two", "Integration::scenario three"]
    );
}

#[test]
fn mode_c_plain_group_specs_each_become_a_leaf_trial() {
    let tree = vec![d("arithmetic", vec![it_("addition"), it_("subtraction")])];
    let trials = enumerate_trials(&tree);

    assert_eq!(names(&trials), vec!["arithmetic::addition", "arithmetic::subtraction"]);
}

#[test]
fn top_level_it_without_a_describe_is_its_own_trial() {
    let tree = vec![it_("standalone")];
    let trials = enumerate_trials(&tree);

    assert_eq!(trials.len(), 1);
    assert_eq!(trials[0].name, "standalone");
    assert_eq!(trials[0].locator, vec![0]);
}

#[test]
fn plain_group_recurses_isolating_at_the_inner_shared_hook() {
    let tree = vec![d("outer", vec![d_ba("inner", vec![it_("d1"), it_("d2")]), it_("sibling")])];
    let trials = enumerate_trials(&tree);

    assert_eq!(names(&trials), vec!["outer::inner", "outer::sibling"]);
    assert_eq!(trials[0].locator, vec![0, 0]);
    assert_eq!(trials[1].locator, vec![0, 1]);
}

#[test]
fn mixed_tree_yields_the_expected_trial_set() {
    let tree = vec![d_ba("Seam", vec![it_("a"), it_("b")]), d_be("Integration", vec![it_("s1"), it_("s2")])];
    let trials = enumerate_trials(&tree);

    assert_eq!(names(&trials), vec!["Seam", "Integration::s1", "Integration::s2"]);
}

#[test]
fn pending_specs_are_listed_as_ignored_trials() {
    let tree = vec![xit_("todo"), d("g", vec![xit_("later")]), xd("whole group", vec![it_("inside")])];
    let trials = enumerate_trials(&tree);

    assert_eq!(names(&trials), vec!["todo", "g::later", "whole group::inside"]);
    assert!(trials.iter().all(|t| t.ignored), "every pending spec must be flagged ignored");
}

#[test]
fn terse_list_output_matches_the_libtest_protocol() {
    let tree = vec![d_ba("Seam", vec![it_("a")]), d_be("Int", vec![it_("s1")])];
    let trials = enumerate_trials(&tree);
    let refs: Vec<&Trial> = trials.iter().collect();

    let out = format_list_terse(&refs);

    assert_eq!(out, "Seam: test\nInt::s1: test\n\n2 tests, 0 benchmarks\n");
}

#[test]
fn terse_listing_of_no_trials_counts_zero() {
    let refs: Vec<&Trial> = Vec::new();
    assert_eq!(format_list_terse(&refs), "\n0 tests, 0 benchmarks\n");
}
