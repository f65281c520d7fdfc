//! Isolation-root enumeration for the libtest/nextest protocol.
//!
//! `cargo nextest` runs one process per test and enumerates tests over the
//! libtest protocol (`--list --format terse`, then `<name> --exact`). The rsspec
//! tree is mapped onto that protocol by computing one [`Trial`] per **isolation
//! root** — the shallowest scope on the path to a spec that owns shared
//! `before_all`/`after_all` state.
//!
//! - A scope with a shared `before_all`/`after_all` is one Trial for its whole
//!   subtree (the act runs once; its specs co-locate because they must).
//! - A scope with only per-spec hooks recurses, so each independent `it` /
//!   ordered block becomes its own Trial — full per-test isolation.
use vstd::prelude::*;
use crate::text::{join, views, join_strings, string_from, string_of};
use crate::tree::{TestNode, leaves_from, node_leaves};

verus! {

/// One libtest-protocol test: an isolation root in the tree.
pub struct Trial {
    /// `::`-joined path from the suite root to the isolation root.
    pub name: String,
    /// Pending (`xit`/`xdescribe`) anywhere on the path — reported as `ignored`.
    pub ignored: bool,
    /// Child indices from the suite root to this trial's node.
    pub locator: Vec<usize>,
}

/// The mathematical value of a trial.
pub struct TrialView {
    pub name: Seq<char>,
    pub ignored: bool,
    pub locator: Seq<usize>,
}

impl View for Trial {
    type V = TrialView;

    open spec fn view(&self) -> TrialView {
        TrialView { name: self.name@, ignored: self.ignored, locator: self.locator@ }
    }
}

/// The values of a vector of trials.
pub open spec fn trial_views(v: Seq<Trial>) -> Seq<TrialView> {
    v.map_values(|t: Trial| t@)
}

/// The trial for the node at `loc` whose path segments are `segs`.
pub open spec fn trial_at(segs: Seq<Seq<char>>, ignored: bool, loc: Seq<usize>) -> TrialView {
    TrialView { name: join(segs, "::"@), ignored, locator: loc }
}

/// The trials of `nodes` from index `i` on, under the locator `loc` and the
/// path `segs`; `ignored` carries a pending ancestor downward.
pub open spec fn walk_from(
    nodes: Seq<TestNode>,
    i: int,
    loc: Seq<usize>,
    segs: Seq<Seq<char>>,
    ignored: bool,
) -> Seq<TrialView>
    decreases nodes, nodes.len() - i,
{
    if 0 <= i < nodes.len() {
        walk_node(nodes[i], loc.push(i as usize), segs, ignored) + walk_from(
            nodes,
            i + 1,
            loc,
            segs,
            ignored,
        )
    } else {
        Seq::<TrialView>::empty()
    }
}

/// The trials of one node at locator `loc`: a scope with a shared
/// `before_all`/`after_all` is one trial for its whole subtree; a scope without
/// one recurses; a spec or ordered block is its own trial.
pub open spec fn walk_node(node: TestNode, loc: Seq<usize>, segs: Seq<Seq<char>>, ignored: bool) -> Seq<
    TrialView,
>
    decreases node,
{
    match node {
        TestNode::Describe { name, pending, before_all, after_all, children, .. } => {
            let s = segs.push(name@);
            let g = ignored || pending;
            if before_all@.len() == 0 && after_all@.len() == 0 {
                walk_from(children@, 0, loc, s, g)
            } else {
                seq![trial_at(s, g, loc)]
            }
        },
        TestNode::It { name, pending, .. } => seq![trial_at(segs.push(name@), ignored || pending, loc)],
        TestNode::Ordered { name, .. } => seq![trial_at(segs.push(name@), ignored, loc)],
    }
}

fn copy_locator(v: &Vec<usize>) -> (r: Vec<usize>)
    ensures
        r@ == v@,
{
    let mut r: Vec<usize> = Vec::new();
    let mut i: usize = 0;
    while i < v.len()
        invariant
            i <= v.len(),
            r@ == v@.take(i as int),
        decreases v.len() - i,
    {
        r.push(v[i]);
        assert(v@.take(i as int).push(v@[i as int]) =~= v@.take(i + 1));
        i = i + 1;
    }
    assert(v@.take(v.len() as int) =~= v@);
    r
}

/// Emit the trial for the current path.
fn emit(segments: &Vec<String>, ignored: bool, locator: &Vec<usize>, out: &mut Vec<Trial>)
    ensures
        trial_views(final(out)@) == trial_views(old(out)@).push(
            trial_at(views(segments@), ignored, locator@),
        ),
{
    let name = join_strings(segments, "::");
    let t = Trial { name, ignored, locator: copy_locator(locator) };
    let ghost before = old(out)@;
    out.push(t);
    assert(trial_views(out@) =~= trial_views(before).push(t@));
}

/// Recursive descent over `nodes`: pushes one trial per isolation root.
fn walk(
    nodes: &Vec<TestNode>,
    locator: &mut Vec<usize>,
    segments: &mut Vec<String>,
    ignored: bool,
    out: &mut Vec<Trial>,
)
    ensures
        final(locator)@ == old(locator)@,
        views(final(segments)@) == views(old(segments)@),
        trial_views(final(out)@) == trial_views(old(out)@) + walk_from(
            nodes@,
            0,
            old(locator)@,
            views(old(segments)@),
            ignored,
        ),
    decreases nodes@,
{
    let ghost loc0 = locator@;
    let ghost segs0 = views(segments@);
    let ghost out0 = trial_views(out@);
    let mut i: usize = 0;
    assert(out0 + Seq::<TrialView>::empty() =~= out0);
    while i < nodes.len()
        invariant
            i <= nodes.len(),
            locator@ == loc0,
            views(segments@) == segs0,
            out0 + walk_from(nodes@, 0, loc0, segs0, ignored) == trial_views(out@) + walk_from(
                nodes@,
                i as int,
                loc0,
                segs0,
                ignored,
            ),
        decreases nodes.len() - i,
    {
        let ghost mid = trial_views(out@);
        let ghost tail = walk_from(nodes@, i + 1, loc0, segs0, ignored);
        locator.push(i);
        let node = &nodes[i];
        assert(decreases_to!(nodes@ => nodes@[i as int]));
        match node {
            TestNode::Describe { name, pending, before_all, after_all, children, .. } => {
                segments.push(name.clone());
                assert(views(segments@) =~= segs0.push(name@));
                let group_ignored = ignored || *pending;
                if before_all.len() == 0 && after_all.len() == 0 {
                    walk(children, locator, segments, group_ignored, out);
                } else {
                    emit(segments, group_ignored, locator, out);
                }
                let ghost before_pop = segments@;
                segments.pop();
                assert(segments@ =~= before_pop.drop_last());
                assert(views(before_pop) == segs0.push(name@));
                assert(views(segments@) =~= views(before_pop).drop_last());
                assert(views(segments@) =~= segs0);
            },
            TestNode::It { name, pending, .. } => {
                segments.push(name.clone());
                assert(views(segments@) =~= segs0.push(name@));
                emit(segments, ignored || *pending, locator, out);
                let ghost before_pop = segments@;
                segments.pop();
                assert(segments@ =~= before_pop.drop_last());
                assert(views(before_pop) == segs0.push(name@));
                assert(views(segments@) =~= views(before_pop).drop_last());
                assert(views(segments@) =~= segs0);
            },
            TestNode::Ordered { name, .. } => {
                segments.push(name.clone());
                assert(views(segments@) =~= segs0.push(name@));
                emit(segments, ignored, locator, out);
                let ghost before_pop = segments@;
                segments.pop();
                assert(segments@ =~= before_pop.drop_last());
                assert(views(before_pop) == segs0.push(name@));
                assert(views(segments@) =~= views(before_pop).drop_last());
                assert(views(segments@) =~= segs0);
            },
        }
        locator.pop();
        assert(locator@ =~= loc0);
        assert(trial_views(out@) == mid + walk_node(nodes@[i as int], loc0.push(i), segs0, ignored));
        assert(mid + walk_from(nodes@, i as int, loc0, segs0, ignored) =~= trial_views(out@) + tail);
        i = i + 1;
    }
    assert(trial_views(out@) + walk_from(nodes@, i as int, loc0, segs0, ignored) =~= trial_views(out@));
}

/// Walk the tree and emit one [`Trial`] per isolation root.
pub fn enumerate_trials(nodes: &Vec<TestNode>) -> (r: Vec<Trial>)
    ensures
        trial_views(r@) == walk_from(nodes@, 0, Seq::<usize>::empty(), Seq::<Seq<char>>::empty(), false),
{
    let mut out: Vec<Trial> = Vec::new();
    let mut locator: Vec<usize> = Vec::new();
    let mut segments: Vec<String> = Vec::new();
    assert(views(segments@) =~= Seq::<Seq<char>>::empty());
    assert(trial_views(out@) =~= Seq::<TrialView>::empty());
    walk(nodes, &mut locator, &mut segments, false, &mut out);
    assert(trial_views(out@) =~= Seq::<TrialView>::empty() + walk_from(nodes@, 0, Seq::<usize>::empty(), Seq::<Seq<char>>::empty(), false));
    out
}

/// Under a pending ancestor every trial is ignored: each trial of the nodes
/// from `i` on, walked with `ignored` set, is flagged ignored.
pub proof fn law_ignored_nodes_stay_ignored(nodes: Seq<TestNode>, i: int, loc: Seq<usize>, segs: Seq<Seq<char>>)
    ensures
        forall|j: int| 0 <= j < walk_from(nodes, i, loc, segs, true).len() ==> (#[trigger] walk_from(nodes, i, loc, segs, true)[j]).ignored,
    decreases nodes, nodes.len() - i,
{
    if 0 <= i < nodes.len() {
        assert(decreases_to!(nodes => nodes[i]));
        law_ignored_node_stays_ignored(nodes[i], loc.push(i as usize), segs);
        law_ignored_nodes_stay_ignored(nodes, i + 1, loc, segs);
        let a = walk_node(nodes[i], loc.push(i as usize), segs, true);
        let b = walk_from(nodes, i + 1, loc, segs, true);
        assert(walk_from(nodes, i, loc, segs, true) == a + b);
        assert forall|j: int| 0 <= j < (a + b).len() implies (#[trigger] (a + b)[j]).ignored by {
            if j < a.len() {
                assert((a + b)[j] == a[j]);
            } else {
                assert((a + b)[j] == b[j - a.len()]);
            }
        }
    }
}

/// Under a pending ancestor every trial of a node is ignored.
pub proof fn law_ignored_node_stays_ignored(node: TestNode, loc: Seq<usize>, segs: Seq<Seq<char>>)
    ensures
        forall|j: int| 0 <= j < walk_node(node, loc, segs, true).len() ==> (#[trigger] walk_node(node, loc, segs, true)[j]).ignored,
    decreases node,
{
    match node {
        TestNode::Describe { name, before_all, after_all, children, .. } => {
            if before_all@.len() == 0 && after_all@.len() == 0 {
                assert(decreases_to!(node => children@));
                law_ignored_nodes_stay_ignored(children@, 0, loc, segs.push(name@));
                assert(walk_node(node, loc, segs, true) == walk_from(children@, 0, loc, segs.push(name@), true));
            } else {
                assert(walk_node(node, loc, segs, true)[0].ignored);
            }
        },
        _ => {},
    }
}

/// The node is a group or spec marked pending.
pub open spec fn marked_pending(node: TestNode) -> bool {
    match node {
        TestNode::Describe { pending, .. } => pending,
        TestNode::It { pending, .. } => pending,
        TestNode::Ordered { .. } => false,
    }
}

/// A pending group or spec (`xdescribe`, `xit`) is reported as ignored: every
/// trial emitted for it or under it is flagged ignored, whether the group is
/// an isolation root (one trial) or recurses into its children, and whatever
/// its ancestors are.
pub proof fn law_pending_is_ignored(node: TestNode, loc: Seq<usize>, segs: Seq<Seq<char>>, ignored: bool)
    requires
        marked_pending(node),
    ensures
        forall|j: int| 0 <= j < walk_node(node, loc, segs, ignored).len() ==> (#[trigger] walk_node(node, loc, segs, ignored)[j]).ignored,
{
    match node {
        TestNode::Describe { name, before_all, after_all, children, .. } => {
            if before_all@.len() == 0 && after_all@.len() == 0 {
                law_ignored_nodes_stay_ignored(children@, 0, loc, segs.push(name@));
                assert(walk_node(node, loc, segs, ignored) == walk_from(children@, 0, loc, segs.push(name@), true));
            } else {
                assert(walk_node(node, loc, segs, ignored)[0].ignored);
            }
        },
        _ => {
            assert(walk_node(node, loc, segs, ignored)[0].ignored);
        },
    }
}

/// No group or spec among `nodes` from index `i` on, nor under them, is marked
/// pending.
pub open spec fn free_from_pending(nodes: Seq<TestNode>, i: int) -> bool
    decreases nodes, nodes.len() - i,
{
    if 0 <= i < nodes.len() {
        node_free_of_pending(nodes[i]) && free_from_pending(nodes, i + 1)
    } else {
        true
    }
}

/// Neither the node nor anything under it is marked pending.
pub open spec fn node_free_of_pending(node: TestNode) -> bool
    decreases node,
{
    match node {
        TestNode::Describe { pending, children, .. } => !pending && free_from_pending(children@, 0),
        TestNode::It { pending, .. } => !pending,
        TestNode::Ordered { .. } => true,
    }
}

/// Without a pending mark on the path nothing is ignored: each trial of the
/// nodes from `i` on, none of them or under them pending and with no pending
/// ancestor, is not flagged ignored.
pub proof fn law_unmarked_nodes_not_ignored(nodes: Seq<TestNode>, i: int, loc: Seq<usize>, segs: Seq<Seq<char>>)
    requires
        free_from_pending(nodes, i),
    ensures
        forall|j: int| 0 <= j < walk_from(nodes, i, loc, segs, false).len() ==> !(#[trigger] walk_from(nodes, i, loc, segs, false)[j]).ignored,
    decreases nodes, nodes.len() - i,
{
    if 0 <= i < nodes.len() {
        assert(decreases_to!(nodes => nodes[i]));
        law_unmarked_node_not_ignored(nodes[i], loc.push(i as usize), segs);
        law_unmarked_nodes_not_ignored(nodes, i + 1, loc, segs);
        let a = walk_node(nodes[i], loc.push(i as usize), segs, false);
        let b = walk_from(nodes, i + 1, loc, segs, false);
        assert(walk_from(nodes, i, loc, segs, false) == a + b);
        assert forall|j: int| 0 <= j < (a + b).len() implies !(#[trigger] (a + b)[j]).ignored by {
            if j < a.len() {
                assert((a + b)[j] == a[j]);
            } else {
                assert((a + b)[j] == b[j - a.len()]);
            }
        }
    }
}

/// Without a pending mark on the path nothing is ignored: no trial of a node
/// free of pending marks, with no pending ancestor, is flagged ignored.
pub proof fn law_unmarked_node_not_ignored(node: TestNode, loc: Seq<usize>, segs: Seq<Seq<char>>)
    requires
        node_free_of_pending(node),
    ensures
        forall|j: int| 0 <= j < walk_node(node, loc, segs, false).len() ==> !(#[trigger] walk_node(node, loc, segs, false)[j]).ignored,
    decreases node,
{
    match node {
        TestNode::Describe { name, before_all, after_all, children, .. } => {
            if before_all@.len() == 0 && after_all@.len() == 0 {
                assert(decreases_to!(node => children@));
                law_unmarked_nodes_not_ignored(children@, 0, loc, segs.push(name@));
                assert(walk_node(node, loc, segs, false) == walk_from(children@, 0, loc, segs.push(name@), false));
            } else {
                assert(!walk_node(node, loc, segs, false)[0].ignored);
            }
        },
        _ => {},
    }
}

/// No group among `nodes` from index `i` on, nor under them, has a shared
/// `before_all`/`after_all` hook.
pub open spec fn unshared_from(nodes: Seq<TestNode>, i: int) -> bool
    decreases nodes, nodes.len() - i,
{
    if 0 <= i < nodes.len() {
        node_unshared(nodes[i]) && unshared_from(nodes, i + 1)
    } else {
        true
    }
}

/// Neither the node nor a group under it has a shared `before_all`/`after_all`.
pub open spec fn node_unshared(node: TestNode) -> bool
    decreases node,
{
    match node {
        TestNode::Describe { before_all, after_all, children, .. } => before_all@.len() == 0
            && after_all@.len() == 0 && unshared_from(children@, 0),
        _ => true,
    }
}

/// Full isolation without shared state: when no group has a shared hook, every
/// spec and ordered block among `nodes` from `i` on is a trial of its own.
pub proof fn law_unshared_nodes_one_trial_per_leaf(
    nodes: Seq<TestNode>,
    i: int,
    loc: Seq<usize>,
    segs: Seq<Seq<char>>,
    ignored: bool,
)
    requires
        unshared_from(nodes, i),
    ensures
        walk_from(nodes, i, loc, segs, ignored).len() == leaves_from(nodes, i),
    decreases nodes, nodes.len() - i,
{
    if 0 <= i < nodes.len() {
        assert(decreases_to!(nodes => nodes[i]));
        law_unshared_node_one_trial_per_leaf(nodes[i], loc.push(i as usize), segs, ignored);
        law_unshared_nodes_one_trial_per_leaf(nodes, i + 1, loc, segs, ignored);
    }
}

/// Full isolation without shared state: when neither the node nor a group
/// under it has a shared hook, each of its specs and ordered blocks is a trial
/// of its own.
pub proof fn law_unshared_node_one_trial_per_leaf(node: TestNode, loc: Seq<usize>, segs: Seq<Seq<char>>, ignored: bool)
    requires
        node_unshared(node),
    ensures
        walk_node(node, loc, segs, ignored).len() == node_leaves(node),
    decreases node,
{
    match node {
        TestNode::Describe { name, pending, children, .. } => {
            assert(decreases_to!(node => children@));
            law_unshared_nodes_one_trial_per_leaf(children@, 0, loc, segs.push(name@), ignored || pending);
        },
        _ => {},
    }
}

/// A group with a shared `before_all` or `after_all` is one trial for its whole
/// subtree, named by its path and located at the group itself.
pub proof fn law_shared_scope_is_one_trial(node: TestNode, loc: Seq<usize>, segs: Seq<Seq<char>>, ignored: bool)
    requires
        node matches TestNode::Describe { before_all, after_all, .. } && (before_all@.len() > 0
            || after_all@.len() > 0),
    ensures
        walk_node(node, loc, segs, ignored).len() == 1,
        walk_node(node, loc, segs, ignored)[0].name == join(segs.push(node.name_of()), "::"@),
        walk_node(node, loc, segs, ignored)[0].locator == loc,
{
}

/// The decimal digit for `d < 10`.
pub open spec fn digit(d: nat) -> char {
    if d == 0 { '0' }
    else if d == 1 { '1' }
    else if d == 2 { '2' }
    else if d == 3 { '3' }
    else if d == 4 { '4' }
    else if d == 5 { '5' }
    else if d == 6 { '6' }
    else if d == 7 { '7' }
    else if d == 8 { '8' }
    else { '9' }
}

/// The decimal representation of `n`, without leading zeros.
pub open spec fn decimal(n: nat) -> Seq<char>
    decreases n,
{
    if n < 10 {
        seq![digit(n)]
    } else {
        decimal(n / 10).push(digit(n % 10))
    }
}

/// The decimal representation of `n`.
pub fn decimal_chars(n: u64) -> (r: Vec<char>)
    ensures
        r@ == decimal(n as nat),
    decreases n,
{
    let d = n % 10;
    let c = if d == 0 { '0' }
        else if d == 1 { '1' }
        else if d == 2 { '2' }
        else if d == 3 { '3' }
        else if d == 4 { '4' }
        else if d == 5 { '5' }
        else if d == 6 { '6' }
        else if d == 7 { '7' }
        else if d == 8 { '8' }
        else { '9' };
    if n < 10 {
        let mut v: Vec<char> = Vec::new();
        v.push(c);
        assert(v@ =~= seq![digit(n as nat)]);
        v
    } else {
        let mut v = decimal_chars(n / 10);
        v.push(c);
        v
    }
}

/// The terse listing: one `<name>: test` line per trial, a blank line, and the
/// count summary.
pub open spec fn terse_listing(trials: Seq<TrialView>) -> Seq<char> {
    terse_lines(trials) + "\n"@ + decimal(trials.len()) + " tests, 0 benchmarks"@ + "\n"@
}

/// The `<name>: test` lines of the listing.
pub open spec fn terse_lines(trials: Seq<TrialView>) -> Seq<char>
    decreases trials.len(),
{
    if trials.len() == 0 {
        Seq::<char>::empty()
    } else {
        terse_lines(trials.drop_last()) + trials.last().name + ": test\n"@
    }
}

/// Render trials in libtest's `--list --format terse` wire format — the listing
/// interface `cargo nextest` requires of a custom harness.
pub fn format_list_terse(trials: &Vec<&Trial>) -> (r: String)
    ensures
        r@ == terse_listing(trials@.map_values(|t: &Trial| t@)),
{
    let ghost tv = trials@.map_values(|t: &Trial| t@);
    let mut s = String::new();
    let mut i: usize = 0;
    while i < trials.len()
        invariant
            i <= trials.len(),
            tv == trials@.map_values(|t: &Trial| t@),
            s@ == terse_lines(tv.take(i as int)),
        decreases trials.len() - i,
    {
        assert(tv.take(i + 1).drop_last() =~= tv.take(i as int));
        s.append(trials[i].name.as_str());
        s.append(": test\n");
        i = i + 1;
    }
    assert(tv.take(trials.len() as int) =~= tv);
    s.append("\n");
    let n = decimal_chars(trials.len() as u64);
    let ns = string_of(&n);
    s.append(ns.as_str());
    s.append(" tests, 0 benchmarks");
    s.append("\n");
    s
}

} // verus!
