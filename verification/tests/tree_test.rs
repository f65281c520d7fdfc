use rsspec::context::Context;
use rsspec::filter::labels_match;
use rsspec::session::{list_suites, suites_have_focus};
use rsspec::tree::{tree_has_focus, Suite, TestNode};
use rsspec::walk::list_tree;

fn it_pending(name: &str) -> TestNode {
    TestNode::It {
        name: name.to_string(),
        focused: false,
        pending: true,
        labels: Vec::new(),
        retries: None,
        timeout_ms: None,
        must_pass_repeatedly: None,
        test_fn: 0,
    }
}

#[test]
fn focus_is_found_at_any_depth() {
    let plain = vec![TestNode::describe("a", vec![TestNode::it("x", 0)])];
    assert!(!tree_has_focus(&plain));
    let deep = vec![TestNode::describe("a", vec![TestNode::describe("b", vec![TestNode::fit("x", 0)])])];
    assert!(tree_has_focus(&deep));
    assert!(suites_have_focus(&vec![Suite::new("one", plain), Suite::new("two", deep)]));
}

#[test]
fn listing_joins_paths_marks_pending_and_honors_the_filter() {
    let nodes = vec![
        TestNode::describe("Math", vec![TestNode::it("adds", 0), it_pending("divides")]),
        TestNode::it("top", 0),
    ];
    let mut path = Vec::new();
    let mut out = Vec::new();
    list_tree(&nodes, &mut path, &None, &mut out);
    assert_eq!(out, vec!["Math > adds", "Math > divides (pending)", "top"]);
    assert!(path.is_empty());

    let mut out2 = Vec::new();
    list_tree(&nodes, &mut path, &Some("MATH".to_string()), &mut out2);
    assert_eq!(out2, vec!["Math > adds", "Math > divides (pending)"]);
}

#[test]
fn listing_several_suites_goes_suite_after_suite() {
    let suites = vec![Suite::new("s1", vec![TestNode::it("a", 0)]), Suite::new("s2", vec![TestNode::it("b", 0)])];
    assert_eq!(list_suites(&suites, &None), vec!["a", "b"]);
}

#[test]
fn builder_keeps_declaration_order_and_nesting() {
    let mut ctx: Context<u32> = Context::new();
    ctx.describe("outer", |ctx| {
        ctx.it("first", 10);
        ctx.context("inner", |ctx| {
            ctx.xit("pending", 11).labels(&["slow"]);
        });
        ctx.fit("focused", 12).retries(2).timeout(50).must_pass_repeatedly(3);
    });
    ctx.it("top", 13);
    let (nodes, bodies) = ctx.into_parts();
    assert_eq!(bodies, vec![10, 11, 12, 13]);
    assert_eq!(nodes.len(), 2);
    match &nodes[0] {
        TestNode::Describe { name, children, .. } => {
            assert_eq!(name, "outer");
            assert_eq!(children.len(), 3);
            assert_eq!(children[0].name(), "first");
            match &children[1] {
                TestNode::Describe { name, children, .. } => {
                    assert_eq!(name, "inner");
                    match &children[0] {
                        TestNode::It { pending, labels, test_fn, .. } => {
                            assert!(*pending);
                            assert_eq!(labels, &vec!["slow".to_string()]);
                            assert_eq!(*test_fn, 1);
                        },
                        _ => panic!("expected a spec"),
                    }
                },
                _ => panic!("expected a group"),
            }
            match &children[2] {
                TestNode::It { focused, retries, timeout_ms, must_pass_repeatedly, test_fn, .. } => {
                    assert!(*focused);
                    assert_eq!(*retries, Some(2));
                    assert_eq!(*timeout_ms, Some(50));
                    assert_eq!(*must_pass_repeatedly, Some(3));
                    assert_eq!(*test_fn, 2);
                },
                _ => panic!("expected a spec"),
            }
        },
        _ => panic!("expected a group"),
    }
    assert_eq!(nodes[1].name(), "top");
}

#[test]
fn group_labels_and_hooks_are_recorded() {
    let mut ctx: Context<u32> = Context::new();
    ctx.describe("g", |ctx| {
        ctx.labels(&["integration"]);
        ctx.before_all(1);
        ctx.before_each(2);
        ctx.just_before_each(3);
        ctx.after_each(4);
        ctx.after_all(5);
        ctx.specify("s", 6);
    });
    let (nodes, _) = ctx.into_parts();
    match &nodes[0] {
        TestNode::Describe { labels, before_all, before_each, just_before_each, after_each, after_all, children, .. } => {
            assert_eq!(labels, &vec!["integration".to_string()]);
            assert_eq!((before_all.clone(), before_each.clone(), just_before_each.clone()), (vec![0], vec![1], vec![2]));
            assert_eq!((after_each.clone(), after_all.clone()), (vec![3], vec![4]));
            assert_eq!(children.len(), 1);
        },
        _ => panic!("expected a group"),
    }
    assert!(labels_match(&["integration"], Some("integration")));
}
