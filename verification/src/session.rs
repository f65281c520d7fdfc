//! A whole run: suites one after another (or, top-level node by node, on
//! workers whose reports are put back in tree order), the listing mode, and
//! the command-line configuration.
use vstd::prelude::*;
use crate::config::{detect_libtest_args, fail_on_focus_value};
use crate::context::{close_all, empty_frame, old_settled, Context};
use crate::fixtures::FixtureStore;
use crate::runner::{HookChain, Line, LineView, Outcome, RunConfig, RunResult, Runner, lines_view};
use crate::text::{join, join_strings, string_from, string_of, views};
use crate::runner::concat;
use crate::trials::{decimal, decimal_chars};
use crate::tree::{has_focus_from, nodes_view, tree_has_focus, Suite, TestNode};
use crate::walk::{cost_from, focus_refusal, list_from, list_tree, node_cost, same_chain};

verus! {

/// What a run of suites produced.
pub struct SuiteRun {
    /// The counters and failure descriptions.
    pub result: RunResult,
    /// The tree report.
    pub lines: Vec<Line>,
    /// In listing mode, the listed paths.
    pub listing: Vec<String>,
    /// Why the run was aborted, if it was.
    pub abort: Option<String>,
}

/// Some suite of `suites` holds focus.
pub open spec fn suites_focus(suites: Seq<Suite>) -> bool {
    exists|i: int| 0 <= i < suites.len() && #[trigger] has_focus_from(suites[i].nodes@, 0)
}

/// The cost (see [`cost_from`]) of the suites from index `i` on.
pub open spec fn suites_cost(suites: Seq<Suite>, i: int) -> nat
    decreases suites.len() - i,
{
    if 0 <= i < suites.len() {
        cost_from(suites[i].nodes@, 0) + suites_cost(suites, i + 1)
    } else {
        0
    }
}

/// The listing of the suites from index `i` on, suite after suite.
pub open spec fn suites_listing(suites: Seq<Suite>, i: int, filter: Option<String>) -> Seq<Seq<char>>
    decreases suites.len() - i,
{
    if 0 <= i < suites.len() {
        list_from(suites[i].nodes@, 0, Seq::<Seq<char>>::empty(), filter) + suites_listing(suites, i + 1, filter)
    } else {
        Seq::<Seq<char>>::empty()
    }
}

/// Whether any suite holds focus.
pub fn suites_have_focus(suites: &Vec<Suite>) -> (r: bool)
    ensures
        r == suites_focus(suites@),
{
    let mut i: usize = 0;
    while i < suites.len()
        invariant
            i <= suites@.len(),
            forall|k: int| 0 <= k < i ==> !#[trigger] has_focus_from(suites@[k].nodes@, 0),
        decreases suites@.len() - i,
    {
        if tree_has_focus(&suites[i].nodes) {
            return true;
        }
        i = i + 1;
    }
    false
}

/// List the specs of every suite (see [`list_from`]).
pub fn list_suites(suites: &Vec<Suite>, filter: &Option<String>) -> (r: Vec<String>)
    ensures
        views(r@) == suites_listing(suites@, 0, *filter),
{
    let mut out: Vec<String> = Vec::new();
    let mut i: usize = 0;
    while i < suites.len()
        invariant
            i <= suites@.len(),
            views(out@) + suites_listing(suites@, i as int, *filter) == suites_listing(suites@, 0, *filter),
        decreases suites@.len() - i,
    {
        let ghost before = out@;
        let mut path: Vec<String> = Vec::new();
        assert(views(path@) =~= Seq::<Seq<char>>::empty());
        list_tree(&suites[i].nodes, &mut path, filter, &mut out);
        assert(views(before) + list_from(suites@[i as int].nodes@, 0, Seq::<Seq<char>>::empty(), *filter)
            + suites_listing(suites@, i + 1, *filter) =~= views(before) + (list_from(
            suites@[i as int].nodes@,
            0,
            Seq::<Seq<char>>::empty(),
            *filter,
        ) + suites_listing(suites@, i + 1, *filter)));
        i = i + 1;
    }
    out
}

/// No enclosing group: no hooks and no labels.
pub open spec fn empty_chain(ch: HookChain) -> bool {
    &&& ch.before_each@.len() == 0
    &&& ch.after_each@.len() == 0
    &&& ch.just_before_each@.len() == 0
    &&& ch.labels@.len() == 0
}

/// A fresh run over the body table `bodies` on the store `store`: nothing
/// counted, called or aborted yet, and a report that holds one blank line.
pub open spec fn fresh<'a, V, B, K, L>(
    r0: Runner<'a, V, B, K, L>,
    config: &'a RunConfig,
    bodies: &'a Vec<B>,
    store: FixtureStore<V>,
    clock: &'a K,
    cleanup: &'a L,
    focus_mode: bool,
    blank: bool,
) -> bool {
    &&& r0.bodies == bodies
    &&& r0.store == store
    &&& r0.clock == clock
    &&& r0.cleanup == cleanup
    &&& r0.config == config
    &&& r0.focus_mode == focus_mode
    &&& r0.result.passed == 0 && r0.result.failed == 0 && r0.result.pending == 0 && r0.result.skipped == 0
    &&& r0.result.failures@.len() == 0
    &&& lines_view(r0.lines@) == (if blank {
        seq![LineView::Blank]
    } else {
        Seq::<LineView>::empty()
    })
    &&& r0.calls@.len() == 0
    &&& r0.abort is None
    &&& r0.skip_flag is None
}

/// The report lines that open a suite named `name`: its header and a blank
/// line, or nothing for a suite without a name.
pub open spec fn suite_header(name: Seq<char>) -> Seq<LineView> {
    if name.len() > 0 {
        seq![LineView::SuiteHeader(name), LineView::Blank]
    } else {
        Seq::<LineView>::empty()
    }
}

/// The run of one suite from `mid` to `after`, through `m1` (its header
/// reported) and `m2` (its nodes run at depth 0 under no group, see
/// [`Runner::nodes_effect`]), with a blank line after it when `multi` holds;
/// nothing happens once the run was aborted.
pub open spec fn suite_states<'a, V, B, K, L>(
    mid: Runner<'a, V, B, K, L>,
    m1: Runner<'a, V, B, K, L>,
    m2: Runner<'a, V, B, K, L>,
    after: Runner<'a, V, B, K, L>,
    ch: HookChain,
    suite: Suite,
    multi: bool,
) -> bool where
    B: Fn(&mut FixtureStore<V>) -> Outcome,
    K: Fn() -> u64,
    L: Fn(&mut FixtureStore<V>) -> Outcome,
 {
    if mid.abort is Some {
        after == mid
    } else {
        &&& m1.same_setup(mid)
        &&& m1.store == mid.store
        &&& m1.calls == mid.calls
        &&& m1.result == mid.result
        &&& m1.abort == mid.abort
        &&& m1.skip_flag == mid.skip_flag
        &&& lines_view(m1.lines@) == lines_view(mid.lines@) + suite_header(suite.name@)
        &&& empty_chain(ch)
        &&& Runner::nodes_effect(m1, m2, suite.nodes@, 0, Seq::<Seq<char>>::empty(), ch, false)
        &&& after.same_setup(m2)
        &&& after.store == m2.store
        &&& after.calls == m2.calls
        &&& after.result == m2.result
        &&& after.abort == m2.abort
        &&& after.skip_flag == m2.skip_flag
        &&& lines_view(after.lines@) == lines_view(m2.lines@) + (if multi {
            seq![LineView::Blank]
        } else {
            Seq::<LineView>::empty()
        })
    }
}

/// What running the suites `suites` in order does, from `before` to `after`
/// (see [`suite_states`]).
pub open spec fn suites_effect<'a, V, B, K, L>(
    before: Runner<'a, V, B, K, L>,
    after: Runner<'a, V, B, K, L>,
    suites: Seq<Suite>,
    multi: bool,
) -> bool where
    B: Fn(&mut FixtureStore<V>) -> Outcome,
    K: Fn() -> u64,
    L: Fn(&mut FixtureStore<V>) -> Outcome,

    decreases suites.len(),
{
    if suites.len() == 0 {
        after == before
    } else {
        exists|mid: Runner<'a, V, B, K, L>, m1: Runner<'a, V, B, K, L>, m2: Runner<'a, V, B, K, L>, ch: HookChain|
            #[trigger] suite_states(mid, m1, m2, after, ch, suites.last(), multi)
                && suites_effect(before, mid, suites.drop_last(), multi)
    }
}

/// There is more than one suite.
pub open spec fn several(suites: Seq<Suite>) -> bool {
    suites.len() > 1
}

/// `r` is what running `suites` (not in listing mode) produced: from a fresh
/// run on `store`, focused when a suite holds focus, the suites ran as
/// [`suites_effect`] says, with a blank line after each when there are
/// several.
pub open spec fn suites_ran<'a, V, B, K, L>(
    suites: Seq<Suite>,
    config: &'a RunConfig,
    bodies: &'a Vec<B>,
    store: FixtureStore<V>,
    clock: &'a K,
    cleanup: &'a L,
    r: SuiteRun,
) -> bool where
    B: Fn(&mut FixtureStore<V>) -> Outcome,
    K: Fn() -> u64,
    L: Fn(&mut FixtureStore<V>) -> Outcome,
 {
    exists|r0: Runner<'a, V, B, K, L>, r1: Runner<'a, V, B, K, L>|
        #[trigger] suites_effect(r0, r1, suites, several(suites))
            && fresh(r0, config, bodies, store, clock, cleanup, suites_focus(suites), true)
            && r.result == r1.result && r.lines == r1.lines && r.abort == r1.abort
}

/// Run the suites in order with the body table `bodies`: in listing mode
/// only list them; otherwise report a blank line, then for each suite its
/// name (when it has one) and its nodes, with a blank line after each suite
/// when there are several (see [`suites_ran`]). Focus mode is on when any
/// suite holds focus. Nothing more runs once the run is aborted.
pub fn run_suites<V, B, K, L>(
    suites: &Vec<Suite>,
    config: &RunConfig,
    bodies: &Vec<B>,
    store: FixtureStore<V>,
    clock: &K,
    cleanup: &L,
) -> (r: SuiteRun) where
    B: Fn(&mut FixtureStore<V>) -> Outcome,
    K: Fn() -> u64,
    L: Fn(&mut FixtureStore<V>) -> Outcome,

    requires
        forall|i: int, s: &mut FixtureStore<V>| 0 <= i < bodies@.len() ==> #[trigger] call_requires(bodies@[i], (s,)),
        call_requires(*clock, ()),
        forall|s: &mut FixtureStore<V>| call_requires(*cleanup, (s,)),
        forall|i: int, s: &mut FixtureStore<V>, o: Outcome|
            0 <= i < bodies@.len() && #[trigger] call_ensures(bodies@[i], (s,), o) ==> (*final(s)).keeps_outer(*s),
        forall|s: &mut FixtureStore<V>, o: Outcome| #[trigger] call_ensures(*cleanup, (s,), o) ==> (*final(s)).keeps_outer(*s),
        suites_cost(suites@, 0) <= usize::MAX,
    ensures
        config.list ==> {
            &&& views(r.listing@) == suites_listing(suites@, 0, config.filter)
            &&& r.result.total() == 0
            &&& r.result.failures@.len() == 0
            &&& r.lines@.len() == 0
            &&& r.abort is None
        },
        !config.list ==> {
            &&& r.listing@.len() == 0
            &&& suites_ran(suites@, config, bodies, store, clock, cleanup, r)
            &&& r.result.wf()
            &&& r.result.total() <= suites_cost(suites@, 0)
            &&& r.lines@.len() > 0
            &&& r.lines@[0]@ == LineView::Blank
            &&& (r.abort matches Some(m) ==> m@ == focus_refusal())
        },
{
    if config.list {
        let listing = list_suites(suites, &config.filter);
        return SuiteRun { result: RunResult::new(), lines: Vec::new(), listing, abort: None };
    }
    let ghost st = store;
    let focus_mode = suites_have_focus(suites);
    let mut runner = Runner::new(bodies, store, clock, cleanup, config, focus_mode);
    runner.lines.push(Line::Blank);
    let ghost r0 = runner;
    proof {
        assert(lines_view(r0.lines@) =~= seq![LineView::Blank]);
        assert(suites@.take(0) =~= Seq::<Suite>::empty());
    }
    let multi = suites.len() > 1;
    let mut i: usize = 0;
    while i < suites.len()
        invariant
            i <= suites@.len(),
            runner.callable(),
            forall|i: int, s: &mut FixtureStore<V>, o: Outcome|
                0 <= i < runner.bodies@.len() && #[trigger] call_ensures(runner.bodies@[i], (s,), o) ==> (*final(s)).keeps_outer(*s),
            forall|s: &mut FixtureStore<V>, o: Outcome| #[trigger] call_ensures(*runner.cleanup, (s,), o) ==> (*final(s)).keeps_outer(*s),
            runner.table() == bodies@,
            runner.config == config,
            runner.result.wf(),
            runner.result.total() + suites_cost(suites@, i as int) <= suites_cost(suites@, 0),
            suites_cost(suites@, 0) <= usize::MAX,
            runner.lines@.len() >= 1,
            runner.lines@[0]@ == LineView::Blank,
            runner.abort matches Some(m) ==> m@ == focus_refusal(),
            multi == several(suites@),
            fresh(r0, config, bodies, st, clock, cleanup, suites_focus(suites@), true),
            suites_effect(r0, runner, suites@.take(i as int), multi),
        decreases suites@.len() - i,
    {
        let ghost mid = runner;
        let ghost mut m1 = runner;
        let ghost mut m2 = runner;
        let ghost mut ch: HookChain = vstd::pervasive::arbitrary();
        if runner.abort.is_none() {
            let suite = &suites[i];
            if !suite.name.as_str().is_empty() {
                let header = Line::SuiteHeader(string_from(suite.name.as_str()));
                proof {
                    crate::walk::lemma_lines_view_push(runner.lines@, header);
                }
                runner.lines.push(header);
                proof {
                    crate::walk::lemma_lines_view_push(runner.lines@, Line::Blank);
                }
                runner.lines.push(Line::Blank);
            }
            proof {
                m1 = runner;
                assert(lines_view(m1.lines@) =~= lines_view(mid.lines@) + suite_header(suite.name@));
            }
            let mut path: Vec<String> = Vec::new();
            let mut chain = HookChain::new();
            proof {
                ch = chain;
                assert(views(path@) =~= Seq::<Seq<char>>::empty());
            }
            let ghost before = runner;
            runner.run_nodes(&suite.nodes, 0, &mut path, &mut chain, false);
            proof {
                m2 = runner;
                assert(runner.lines@[0] == runner.lines@.take(before.lines@.len() as int)[0]);
            }
            if multi {
                proof {
                    crate::walk::lemma_lines_view_push(runner.lines@, Line::Blank);
                }
                runner.lines.push(Line::Blank);
            }
            proof {
                if !multi {
                    assert(lines_view(runner.lines@) =~= lines_view(m2.lines@) + Seq::<LineView>::empty());
                } else {
                    assert(lines_view(runner.lines@) =~= lines_view(m2.lines@) + seq![LineView::Blank]);
                }
            }
        }
        proof {
            let done = suites@.take(i + 1);
            assert(done.drop_last() =~= suites@.take(i as int));
            assert(done.last() == suites@[i as int]);
            assert(suite_states(mid, m1, m2, runner, ch, done.last(), multi));
            assert(suites_effect(r0, runner, done, multi));
        }
        i = i + 1;
    }
    proof {
        assert(suites@.take(suites@.len() as int) =~= suites@);
    }
    let r = SuiteRun { result: runner.result, lines: runner.lines, listing: Vec::new(), abort: runner.abort };
    proof {
        assert(suites_effect(r0, runner, suites@, multi));
        assert(suites_ran(suites@, config, bodies, st, clock, cleanup, r));
    }
    r
}

/// The nodes of the suites, suite after suite.
pub open spec fn flat(suites: Seq<Suite>) -> Seq<TestNode>
    decreases suites.len(),
{
    if suites.len() == 0 {
        Seq::<TestNode>::empty()
    } else {
        flat(suites.drop_last()) + suites.last().nodes@
    }
}

/// Split the suites into their layout (each suite's name and number of
/// top-level nodes) and the top-level nodes themselves, each with its place
/// in tree order.
pub fn flatten_units(suites: Vec<Suite>) -> (r: (Vec<(String, usize)>, Vec<(usize, TestNode)>))
    ensures
        r.0@.len() == suites@.len(),
        forall|k: int| 0 <= k < suites@.len() ==> (#[trigger] r.0@[k]).0@ == suites@[k].name@ && r.0@[k].1 == suites@[k].nodes@.len(),
        r.1@.len() == flat(suites@).len(),
        forall|k: int| 0 <= k < r.1@.len() ==> #[trigger] r.1@[k] == (k as usize, flat(suites@)[k]),
{
    let ghost all = suites@;
    let mut layout: Vec<(String, usize)> = Vec::new();
    let mut units: Vec<(usize, TestNode)> = Vec::new();
    for suite in it: suites.into_iter()
        invariant
            it.seq() == all,
            layout@.len() == it.index(),
            forall|k: int| 0 <= k < it.index() ==> (#[trigger] layout@[k]).0@ == all[k].name@ && layout@[k].1 == all[k].nodes@.len(),
            units@.len() == flat(all.take(it.index() as int)).len(),
            forall|k: int| 0 <= k < units@.len() ==> #[trigger] units@[k] == (k as usize, flat(all.take(it.index() as int))[k]),
    {
        let ghost done = all.take(it.index() as int);
        let ghost f0 = flat(done);
        assert(all.take(it.index() + 1).drop_last() =~= done);
        let Suite { name, nodes } = suite;
        let count = nodes.len();
        layout.push((name, count));
        let ghost n0 = nodes@;
        let ghost u0 = units@;
        for node in it2: nodes.into_iter()
            invariant
                it2.seq() == n0,
                units@.len() == u0.len() + it2.index(),
                u0.len() == f0.len(),
                forall|k: int| 0 <= k < u0.len() ==> #[trigger] units@[k] == u0[k],
                forall|k: int| 0 <= k < it2.index() ==> #[trigger] units@[u0.len() + k] == ((u0.len() + k) as usize, n0[k]),
        {
            let order = units.len();
            units.push((order, node));
        }
        proof {
            let f1 = flat(all.take(it.index() + 1));
            assert(f1 == f0 + n0);
            assert forall|k: int| 0 <= k < units@.len() implies #[trigger] units@[k] == (k as usize, f1[k]) by {
                if k >= u0.len() {
                    assert(units@[u0.len() + (k - u0.len())] == ((u0.len() + (k - u0.len())) as usize, n0[k - u0.len()]));
                }
            }
        }
    }
    proof {
        assert(all.take(all.len() as int) =~= all);
    }
    (layout, units)
}

/// Run one top-level node on a fresh fixture store (one unit of a parallel
/// run): its report, its counters and whether it aborted the run.
pub fn render_unit<V, B, K, L>(
    node: &TestNode,
    focus_mode: bool,
    config: &RunConfig,
    bodies: &Vec<B>,
    clock: &K,
    cleanup: &L,
) -> (r: (Vec<Line>, RunResult, Option<String>)) where
    B: Fn(&mut FixtureStore<V>) -> Outcome,
    K: Fn() -> u64,
    L: Fn(&mut FixtureStore<V>) -> Outcome,

    requires
        forall|i: int, s: &mut FixtureStore<V>| 0 <= i < bodies@.len() ==> #[trigger] call_requires(bodies@[i], (s,)),
        call_requires(*clock, ()),
        forall|s: &mut FixtureStore<V>| call_requires(*cleanup, (s,)),
        forall|i: int, s: &mut FixtureStore<V>, o: Outcome|
            0 <= i < bodies@.len() && #[trigger] call_ensures(bodies@[i], (s,), o) ==> (*final(s)).keeps_outer(*s),
        forall|s: &mut FixtureStore<V>, o: Outcome| #[trigger] call_ensures(*cleanup, (s,), o) ==> (*final(s)).keeps_outer(*s),
        node_cost(*node) <= usize::MAX,
    ensures
        unit_ran(*node, focus_mode, config, bodies, clock, cleanup, r),
        r.1.wf(),
        r.1.total() <= node_cost(*node),
        r.2 matches Some(m) ==> m@ == focus_refusal(),
{
    let store = FixtureStore::new();
    let ghost st = store;
    let mut runner = Runner::new(bodies, store, clock, cleanup, config, focus_mode);
    let ghost r0 = runner;
    let mut path: Vec<String> = Vec::new();
    let mut chain = HookChain::new();
    let ghost ch = chain;
    proof {
        assert(views(path@) =~= Seq::<Seq<char>>::empty());
        assert(lines_view(r0.lines@) =~= Seq::<LineView>::empty());
    }
    runner.run_node(node, 0, &mut path, &mut chain, false);
    let r = (runner.lines, runner.result, runner.abort);
    proof {
        assert(fresh(r0, config, bodies, st, clock, cleanup, focus_mode, false));
        assert(Runner::node_effect(r0, runner, *node, 0, Seq::<Seq<char>>::empty(), ch, false));
    }
    r
}

/// `r` is what running `node` as one unit produced: from a fresh run on an
/// empty fixture store, with an empty report, the node ran at depth 0 under
/// no group as [`Runner::node_effect`] says; `r` holds its report, counters
/// and abort.
pub open spec fn unit_ran<'a, V, B, K, L>(
    node: TestNode,
    focus_mode: bool,
    config: &'a RunConfig,
    bodies: &'a Vec<B>,
    clock: &'a K,
    cleanup: &'a L,
    r: (Vec<Line>, RunResult, Option<String>),
) -> bool where
    B: Fn(&mut FixtureStore<V>) -> Outcome,
    K: Fn() -> u64,
    L: Fn(&mut FixtureStore<V>) -> Outcome,
 {
    exists|r0: Runner<'a, V, B, K, L>, r1: Runner<'a, V, B, K, L>, ch: HookChain|
        #[trigger] Runner::node_effect(r0, r1, node, 0, Seq::<Seq<char>>::empty(), ch, false)
            && empty_chain(ch)
            && r0.store.per_test() == Map::<u64, V>::empty() && r0.store.layers().len() == 0
            && fresh(r0, config, bodies, r0.store, clock, cleanup, focus_mode, false)
            && r.0 == r1.lines && r.1 == r1.result && r.2 == r1.abort
}

/// Where the units of the suite at index `i` start in tree order.
pub open spec fn offset(layout: Seq<(String, usize)>, i: int) -> int
    decreases i,
{
    if i <= 0 {
        0
    } else {
        offset(layout, i - 1) + layout[i - 1].1
    }
}

/// The reports of the units from index `a` up to `b`, in order.
pub open spec fn units_lines(rendered: Seq<(Vec<Line>, RunResult)>, a: int, b: int) -> Seq<LineView>
    decreases b - a,
{
    if b <= a {
        Seq::<LineView>::empty()
    } else {
        units_lines(rendered, a, b - 1) + lines_view(rendered[b - 1].0@)
    }
}

/// The report of the first `i` suites: a blank line, then for each suite its
/// name and a blank line (when it has a name), its units' reports, and a blank
/// line when there are several suites.
pub open spec fn assembled(layout: Seq<(String, usize)>, rendered: Seq<(Vec<Line>, RunResult)>, i: int) -> Seq<LineView>
    decreases i,
{
    if i <= 0 {
        seq![LineView::Blank]
    } else {
        let k = i - 1;
        assembled(layout, rendered, k) + (if layout[k].0@.len() > 0 {
            seq![LineView::SuiteHeader(layout[k].0@), LineView::Blank]
        } else {
            Seq::<LineView>::empty()
        }) + units_lines(rendered, offset(layout, k), offset(layout, i)) + (if layout.len() > 1 {
            seq![LineView::Blank]
        } else {
            Seq::<LineView>::empty()
        })
    }
}

/// The counters (passed, failed, pending, skipped) and failure descriptions
/// of the first `n` units, merged in order.
pub open spec fn merged(rendered: Seq<(Vec<Line>, RunResult)>, n: int) -> (nat, nat, nat, nat, Seq<String>)
    decreases n,
{
    if n <= 0 {
        (0, 0, 0, 0, Seq::<String>::empty())
    } else {
        let m = merged(rendered, n - 1);
        let r = rendered[n - 1].1;
        (
            m.0 + r.passed as nat,
            m.1 + r.failed as nat,
            m.2 + r.pending as nat,
            m.3 + r.skipped as nat,
            m.4 + r.failures@,
        )
    }
}

proof fn lemma_merged_grows(rendered: Seq<(Vec<Line>, RunResult)>, a: int, b: int)
    requires
        0 <= a <= b,
    ensures
        merged(rendered, a).0 + merged(rendered, a).1 + merged(rendered, a).2 + merged(rendered, a).3 <= merged(rendered, b).0
            + merged(rendered, b).1 + merged(rendered, b).2 + merged(rendered, b).3,
    decreases b - a,
{
    if a < b {
        lemma_merged_grows(rendered, a, b - 1);
    }
}

/// Put the units' reports back in tree order under the suites' layout, and
/// merge their counters and failure descriptions in the same order.
pub fn reassemble(layout: &Vec<(String, usize)>, rendered: Vec<(Vec<Line>, RunResult)>) -> (r: (Vec<Line>, RunResult))
    requires
        offset(layout@, layout@.len() as int) == rendered@.len(),
        merged(rendered@, rendered@.len() as int).0 + merged(rendered@, rendered@.len() as int).1 + merged(
            rendered@,
            rendered@.len() as int,
        ).2 + merged(rendered@, rendered@.len() as int).3 <= usize::MAX,
    ensures
        lines_view(r.0@) == assembled(layout@, rendered@, layout@.len() as int),
        r.1.passed == merged(rendered@, rendered@.len() as int).0,
        r.1.failed == merged(rendered@, rendered@.len() as int).1,
        r.1.pending == merged(rendered@, rendered@.len() as int).2,
        r.1.skipped == merged(rendered@, rendered@.len() as int).3,
        r.1.failures@ == merged(rendered@, rendered@.len() as int).4,
{
    let ghost all = rendered@;
    let multi = layout.len() > 1;
    let mut lines: Vec<Line> = Vec::new();
    lines.push(Line::Blank);
    let mut result = RunResult::new();
    let mut rest = rendered;
    let total_units = rest.len();
    assert(total_units == all.len());
    let mut order: usize = 0;
    let mut i: usize = 0;
    assert(lines_view(lines@) =~= seq![LineView::Blank]);
    assert(result.failures@ =~= merged(all, 0).4);
    while i < layout.len()
        invariant
            i <= layout@.len(),
            offset(layout@, layout@.len() as int) == all.len(),
            all.len() <= usize::MAX,
            multi == (layout@.len() > 1),
            order == offset(layout@, i as int),
            rest@ == all.skip(order as int),
            lines_view(lines@) == assembled(layout@, all, i as int),
            result.passed == merged(all, order as int).0,
            result.failed == merged(all, order as int).1,
            result.pending == merged(all, order as int).2,
            result.skipped == merged(all, order as int).3,
            result.failures@ == merged(all, order as int).4,
            merged(all, all.len() as int).0 + merged(all, all.len() as int).1 + merged(all, all.len() as int).2 + merged(
                all,
                all.len() as int,
            ).3 <= usize::MAX,
        decreases layout@.len() - i,
    {
        let ghost before = lines_view(lines@);
        if !layout[i].0.as_str().is_empty() {
            lines.push(Line::SuiteHeader(string_from(layout[i].0.as_str())));
            lines.push(Line::Blank);
        }
        let ghost head = lines_view(lines@);
        assert(head =~= before + (if layout@[i as int].0@.len() > 0 {
            seq![LineView::SuiteHeader(layout@[i as int].0@), LineView::Blank]
        } else {
            Seq::<LineView>::empty()
        }));
        let count = layout[i].1;
        let start: usize = order;
        proof {
            assert(offset(layout@, i + 1) == offset(layout@, i as int) + count);
            lemma_offset_mono(layout@, i + 1, layout@.len() as int);
        }
        let mut k: usize = 0;
        while k < count
            invariant
                k <= count,
                start == offset(layout@, i as int),
                start + count <= all.len(),
                all.len() <= usize::MAX,
                order == start + k,
                rest@ == all.skip(order as int),
                lines_view(lines@) == head + units_lines(all, start as int, order as int),
                result.passed == merged(all, order as int).0,
                result.failed == merged(all, order as int).1,
                result.pending == merged(all, order as int).2,
                result.skipped == merged(all, order as int).3,
                result.failures@ == merged(all, order as int).4,
                merged(all, all.len() as int).0 + merged(all, all.len() as int).1 + merged(all, all.len() as int).2
                    + merged(all, all.len() as int).3 <= usize::MAX,
            decreases count - k,
        {
            let (mut buf, res) = rest.remove(0);
            assert(rest@ =~= all.skip(order + 1));
            proof {
                assert(all[order as int] == all.skip(order as int)[0]);
                lemma_merged_grows(all, order + 1, all.len() as int);
            }
            let ghost lb = lines@;
            let ghost bb = buf@;
            lines.append(&mut buf);
            assert(lines_view(lines@) =~= lines_view(lb) + lines_view(bb));
            result.merge(res);
            order = order + 1;
            k = k + 1;
        }
        if multi {
            lines.push(Line::Blank);
        }
        i = i + 1;
    }
    (lines, result)
}

proof fn lemma_offset_mono(layout: Seq<(String, usize)>, a: int, b: int)
    requires
        0 <= a <= b,
    ensures
        offset(layout, a) <= offset(layout, b),
    decreases b - a,
{
    if a < b {
        lemma_offset_mono(layout, a, b - 1);
    }
}

/// The cost of a tree (see [`cost_from`]), when it fits in a `usize`.
pub fn tree_cost(nodes: &Vec<TestNode>) -> (r: Option<usize>)
    ensures
        match r {
            Some(c) => c == cost_from(nodes@, 0),
            None => cost_from(nodes@, 0) > usize::MAX,
        },
    decreases nodes@,
{
    let mut i: usize = nodes.len();
    let mut acc: usize = 0;
    assert(cost_from(nodes@, nodes@.len() as int) == 0);
    while i > 0
        invariant
            i <= nodes@.len(),
            acc == cost_from(nodes@, i as int),
        decreases i,
    {
        i = i - 1;
        assert(cost_from(nodes@, i as int) == node_cost(nodes@[i as int]) + cost_from(nodes@, i + 1));
        let here: Option<usize> = match &nodes[i] {
            TestNode::Describe { children, .. } => {
                assert(decreases_to!(nodes@ => nodes@[i as int]));
                assert(node_cost(nodes@[i as int]) == 2 + cost_from(children@, 0));
                match tree_cost(children) {
                    Some(c) => c.checked_add(2),
                    None => None,
                }
            },
            _ => Some(1),
        };
        let sum = match here {
            Some(h) => h.checked_add(acc),
            None => None,
        };
        match sum {
            Some(t) => {
                acc = t;
            },
            None => {
                proof {
                    lemma_cost_from_tail(nodes@, i as int);
                }
                return None;
            },
        }
    }
    Some(acc)
}

proof fn lemma_cost_from_tail(nodes: Seq<TestNode>, i: int)
    requires
        0 <= i < nodes.len(),
    ensures
        cost_from(nodes, 0) >= cost_from(nodes, i),
    decreases i,
{
    if i > 0 {
        lemma_cost_from_tail(nodes, i - 1);
    }
}

/// Each failure description numbered from 1: `"  {n}. {description}"`.
pub open spec fn numbered(fs: Seq<Seq<char>>) -> Seq<Seq<char>> {
    Seq::new(fs.len(), |i: int| "  "@ + decimal((i + 1) as nat) + ". "@ + fs[i])
}

/// The message a failing run panics with: how many failed, then the numbered
/// failure descriptions, one per line.
pub open spec fn failure_summary(failed: nat, fs: Seq<Seq<char>>) -> Seq<char> {
    "rsspec: "@ + decimal(failed) + " test(s) failed\n"@ + join(numbered(fs), "\n"@)
}

/// The message a failing run panics with (see [`failure_summary`]).
pub fn failure_message(result: &RunResult) -> (s: String)
    ensures
        s@ == failure_summary(result.failed as nat, views(result.failures@)),
{
    let mut parts: Vec<String> = Vec::new();
    let mut i: usize = 0;
    while i < result.failures.len()
        invariant
            i <= result.failures@.len(),
            views(parts@) == numbered(views(result.failures@)).take(i as int),
        decreases result.failures@.len() - i,
    {
        let n = string_of(&decimal_chars((i as u64) + 1));
        let line = concat(concat(concat("  ", n.as_str()).as_str(), ". ").as_str(), result.failures[i].as_str());
        let ghost before = parts@;
        parts.push(line);
        assert(views(parts@) =~= views(before).push(line@));
        assert(numbered(views(result.failures@)).take(i + 1) =~= numbered(views(result.failures@)).take(i as int).push(
            line@,
        ));
        i = i + 1;
    }
    assert(numbered(views(result.failures@)).take(result.failures@.len() as int) =~= numbered(views(result.failures@)));
    let count = string_of(&decimal_chars(result.failed as u64));
    let head = concat(concat("rsspec: ", count.as_str()).as_str(), " test(s) failed\n");
    let body = join_strings(&parts, "\n");
    concat(head.as_str(), body.as_str())
}

/// How a run ends.
pub enum Verdict {
    /// Nothing failed.
    Passed,
    /// The run panics with this message.
    Panic(String),
    /// The program exits with a failure status.
    ExitFailure,
}

/// The end of a run inside a `#[test]` function (`in_harness`) or a
/// standalone test binary: an aborted run panics with why; a run where
/// something failed panics with the failure summary inside a `#[test]`
/// function and exits with a failure status otherwise.
pub open spec fn verdict_for(run: SuiteRun, in_harness: bool, v: Verdict) -> bool {
    match run.abort {
        Some(m) => v matches Verdict::Panic(p) && p@ == m@,
        None => if run.result.failed > 0 {
            if in_harness {
                v matches Verdict::Panic(p) && p@ == failure_summary(run.result.failed as nat, views(run.result.failures@))
            } else {
                v is ExitFailure
            }
        } else {
            v is Passed
        },
    }
}

/// The end of a run (see [`verdict_for`]).
pub fn verdict(run: &SuiteRun, in_harness: bool) -> (v: Verdict)
    ensures
        verdict_for(*run, in_harness, v),
{
    match &run.abort {
        Some(m) => Verdict::Panic(string_from(m.as_str())),
        None => if run.result.failed > 0 {
            if in_harness {
                Verdict::Panic(failure_message(&run.result))
            } else {
                Verdict::ExitFailure
            }
        } else {
            Verdict::Passed
        },
    }
}

/// The message of a run whose counts could not fit in a `usize`.
pub open spec fn too_large() -> Seq<char> {
    "rsspec: the suite is too large to count"@
}

/// `suite` is the unnamed suite of the tree built into `fin`, `bodies` its
/// body table, and `store` an empty fixture store.
pub open spec fn built<V, B>(fin: Context<B>, suite: Suite, bodies: Vec<B>, store: FixtureStore<V>) -> bool {
    &&& nodes_view(suite.nodes@) == close_all(old_settled(fin)).last().children
    &&& suite.name@.len() == 0
    &&& bodies@ == fin.table()
    &&& store.per_test() == Map::<u64, V>::empty()
    &&& store.layers().len() == 0
}

/// `r` is what running the tree built into `fin` gives: a tree whose counts
/// could not fit in a `usize` is not run and the verdict is a panic saying
/// so; otherwise the tree is listed (in listing mode) or runs as one unnamed
/// suite: on an empty fixture store (see [`suites_ran`]), or, with a
/// parallelism above one, top-level node by top-level node (see
/// [`units_ran`]); the verdict is the run's.
pub open spec fn built_and_ran<'a, V, B, K, L>(
    fin: Context<B>,
    config: &'a RunConfig,
    clock: &'a K,
    cleanup: &'a L,
    in_harness: bool,
    r: (SuiteRun, Verdict),
) -> bool where
    B: Fn(&mut FixtureStore<V>) -> Outcome,
    K: Fn() -> u64,
    L: Fn(&mut FixtureStore<V>) -> Outcome,
 {
    exists|suite: Suite, bodies: Vec<B>, store: FixtureStore<V>|
        #[trigger] built(fin, suite, bodies, store) && if cost_from(suite.nodes@, 0) > usize::MAX {
            r.1 matches Verdict::Panic(m) && m@ == too_large()
        } else {
            &&& (config.list ==> views(r.0.listing@) == suites_listing(seq![suite], 0, config.filter))
            &&& (!config.list && config.parallelism <= 1 ==> suites_ran(seq![suite], config, &bodies, store, clock, cleanup, r.0))
            &&& (!config.list && config.parallelism > 1 ==> units_ran(seq![suite], config, &bodies, clock, cleanup, r.0))
            &&& verdict_for(r.0, in_harness, r.1)
        }
}

/// Build the tree with `body` and run it as one unnamed suite under
/// `config` (see [`built_and_ran`]): on a fresh fixture store, or top-level
/// node by top-level node when the parallelism is above one. A tree whose
/// counts could not fit in a `usize` is not run: the verdict is a panic saying
/// so.
pub fn build_and_run<V, B, F, K, L>(body: F, config: &RunConfig, in_harness: bool, clock: &K, cleanup: &L) -> (r: (SuiteRun, Verdict)) where
    F: FnOnce(&mut Context<B>),
    B: Fn(&mut FixtureStore<V>) -> Outcome,
    K: Fn() -> u64,
    L: Fn(&mut FixtureStore<V>) -> Outcome,

    requires
        forall|c: &mut Context<B>| call_requires(body, (c,)),
        forall|b: B, s: &mut FixtureStore<V>| #[trigger] call_requires(b, (s,)),
        call_requires(*clock, ()),
        forall|s: &mut FixtureStore<V>| call_requires(*cleanup, (s,)),
        forall|b: B, s: &mut FixtureStore<V>, o: Outcome| #[trigger] call_ensures(b, (s,), o) ==> (*final(s)).keeps_outer(*s),
        forall|s: &mut FixtureStore<V>, o: Outcome| #[trigger] call_ensures(*cleanup, (s,), o) ==> (*final(s)).keeps_outer(*s),
    ensures
        exists|c: &mut Context<B>| #![trigger call_ensures(body, (c,), ())]
            (*c).frames() == seq![empty_frame(Seq::empty(), false, false)] && (*c).table().len() == 0 && (*c).staged() is None
                && call_ensures(body, (c,), ())
                && built_and_ran(*final(c), config, clock, cleanup, in_harness, r),
        r.1 matches Verdict::Panic(m) && m@ == too_large() || verdict_for(r.0, in_harness, r.1),
{
    let mut ctx: Context<B> = Context::new();
    body(&mut ctx);
    let ghost fin = ctx;
    let (nodes, bodies) = ctx.into_parts();
    let suite = Suite::new("", nodes);
    let store = FixtureStore::new();
    let ghost g = (suite, bodies, store);
    proof {
        reveal_strlit("");
        assert(built(fin, suite, bodies, store));
    }
    match tree_cost(&suite.nodes) {
        None => {
            let run = SuiteRun { result: RunResult::new(), lines: Vec::new(), listing: Vec::new(), abort: None };
            let r = (run, Verdict::Panic(string_from("rsspec: the suite is too large to count")));
            proof {
                assert(built_and_ran(fin, config, clock, cleanup, in_harness, r));
            }
            return r;
        },
        Some(_) => {},
    }
    let suites = vec![suite];
    assert(suites@ =~= seq![g.0]);
    assert(suites_cost(suites@, 0) == cost_from(suites@[0].nodes@, 0) + suites_cost(suites@, 1));
    assert(flat(suites@) =~= g.0.nodes@) by {
        assert(suites@.drop_last() =~= Seq::<Suite>::empty());
        assert(flat(suites@.drop_last()) =~= Seq::<TestNode>::empty());
        assert(suites@.last() == g.0);
        assert(flat(suites@) == flat(suites@.drop_last()) + suites@.last().nodes@);
    }
    let run = if config.parallelism > 1 {
        run_suites_in_units(suites, config, &bodies, clock, cleanup)
    } else {
        run_suites(&suites, config, &bodies, store, clock, cleanup)
    };
    let v = verdict(&run, in_harness);
    let r = (run, v);
    proof {
        assert(built_and_ran(fin, config, clock, cleanup, in_harness, r));
    }
    r
}

/// Build and run a suite inline, as inside a `#[test]` function: no
/// command-line parsing, sequential, and a panic verdict on failure.
pub fn run_inline<V, B, F, K, L>(body: F, clock: &K, cleanup: &L) -> (r: (SuiteRun, Verdict)) where
    F: FnOnce(&mut Context<B>),
    B: Fn(&mut FixtureStore<V>) -> Outcome,
    K: Fn() -> u64,
    L: Fn(&mut FixtureStore<V>) -> Outcome,

    requires
        forall|c: &mut Context<B>| call_requires(body, (c,)),
        forall|b: B, s: &mut FixtureStore<V>| #[trigger] call_requires(b, (s,)),
        call_requires(*clock, ()),
        forall|s: &mut FixtureStore<V>| call_requires(*cleanup, (s,)),
        forall|b: B, s: &mut FixtureStore<V>, o: Outcome| #[trigger] call_ensures(b, (s,), o) ==> (*final(s)).keeps_outer(*s),
        forall|s: &mut FixtureStore<V>, o: Outcome| #[trigger] call_ensures(*cleanup, (s,), o) ==> (*final(s)).keeps_outer(*s),
    ensures
        exists|c: &mut Context<B>, config: RunConfig| #![trigger call_ensures(body, (c,), ()), config.parallelism]
            (*c).frames() == seq![empty_frame(Seq::empty(), false, false)] && (*c).table().len() == 0 && (*c).staged() is None
                && call_ensures(body, (c,), ())
                && config.filter is None && !config.list && !config.include_ignored && config.parallelism == 1
                && config.label_filter is None && !config.fail_on_focus
                && built_and_ran(*final(c), &config, clock, cleanup, true, r),
        r.1 matches Verdict::Panic(m) && m@ == too_large() || verdict_for(r.0, true, r.1),
{
    let config = RunConfig::inline();
    build_and_run(body, &config, true, clock, cleanup)
}

/// The configuration of `run`: inside a `#[test]` function (some argument
/// after the program's name is one of libtest's own) the inline one;
/// otherwise the command line's (see [`RunConfig::from_args`]), whose label
/// filter, when it gives none, is `RSSPEC_LABEL_FILTER`'s. The focus guard
/// follows `RSSPEC_FAIL_ON_FOCUS` either way. Returns whether the run is
/// inside a `#[test]` function too.
pub fn run_config(
    args: &Vec<String>,
    env_parallel: Option<&str>,
    env_labels: Option<&str>,
    env_guard: Option<&str>,
    cores: usize,
) -> (r: (RunConfig, bool))
    ensures
        r.1 == exists|i: int| 1 <= i < args@.len() && crate::config::is_libtest_arg(#[trigger] args@[i]@),
        r.0.fail_on_focus == crate::config::guard_on(
            match env_guard {
                Some(v) => Some(v@),
                None => None,
            },
        ),
        r.1 ==> r.0.filter is None && !r.0.list && !r.0.include_ignored && r.0.parallelism == 1 && r.0.label_filter is None,
        !r.1 ==> match r.0.label_filter {
            Some(f) => match crate::config::args_scan(views(args@)).4 {
                Some(c) => f@ == c,
                None => env_labels matches Some(e) && f@ == e@,
            },
            None => crate::config::args_scan(views(args@)).4 is None && env_labels is None,
        },
{
    let mut rest: Vec<String> = Vec::new();
    if args.len() > 0 {
        let mut i: usize = 1;
        while i < args.len()
            invariant
                1 <= i <= args@.len(),
                rest@.len() == i - 1,
                forall|k: int| 0 <= k < rest@.len() ==> #[trigger] rest@[k]@ == args@[k + 1]@,
            decreases args@.len() - i,
        {
            rest.push(string_from(args[i].as_str()));
            i = i + 1;
        }
    }
    let in_harness = detect_libtest_args(&rest).is_some();
    proof {
        if args@.len() > 0 {
            assert(rest@.len() == args@.len() - 1);
        }
        if in_harness {
            let k = choose|k: int| 0 <= k < rest@.len() && #[trigger] crate::config::is_libtest_arg(rest@[k]@);
            assert(crate::config::is_libtest_arg(args@[k + 1]@));
        } else {
            assert forall|j: int| 1 <= j < args@.len() implies !crate::config::is_libtest_arg(#[trigger] args@[j]@) by {
                assert(rest@[j - 1]@ == args@[j]@);
            }
        }
    }
    let guard = fail_on_focus_value(env_guard);
    if in_harness {
        let mut c = RunConfig::inline();
        c.fail_on_focus = guard;
        (c, true)
    } else {
        let mut c = RunConfig::from_args(args, env_parallel, cores);
        if c.label_filter.is_none() {
            c.label_filter = match env_labels {
                Some(e) => Some(string_from(e)),
                None => None,
            };
        }
        c.fail_on_focus = guard;
        (c, false)
    }
}


/// What a part of the run's summary counts.
#[derive(Debug, PartialEq, Eq, Structural)]
pub enum Tally {
    Passed,
    Failed,
    Pending,
    Skipped,
    /// Nothing was counted at all.
    NoneMatched,
}

/// One part of the summary: `"{n} {word}"` for a count `n` that is not zero.
pub open spec fn tally_part(n: nat, kind: Tally, word: Seq<char>) -> Seq<(Tally, Seq<char>)> {
    if n > 0 {
        seq![(kind, decimal(n) + " "@ + word)]
    } else {
        Seq::empty()
    }
}

/// The parts of the summary line: the passed, failed, pending and skipped
/// counts that are not zero, in that order, or `"0 matched"` when all are.
pub open spec fn summary_of(r: RunResult) -> Seq<(Tally, Seq<char>)> {
    let parts = tally_part(r.passed as nat, Tally::Passed, "passed"@) + tally_part(r.failed as nat, Tally::Failed, "failed"@)
        + tally_part(r.pending as nat, Tally::Pending, "pending"@) + tally_part(r.skipped as nat, Tally::Skipped, "skipped"@);
    if parts.len() == 0 {
        seq![(Tally::NoneMatched, "0 matched"@)]
    } else {
        parts
    }
}

/// Append the part for count `n`, if it is not zero.
fn push_tally(parts: &mut Vec<(Tally, String)>, n: usize, kind: Tally, word: &str)
    ensures
        final(parts)@.map_values(|p: (Tally, String)| (p.0, p.1@)) == old(parts)@.map_values(|p: (Tally, String)| (p.0, p.1@))
            + tally_part(n as nat, kind, word@),
{
    let ghost before = parts@;
    if n > 0 {
        let text = concat(concat(string_of(&decimal_chars(n as u64)).as_str(), " ").as_str(), word);
        parts.push((kind, text));
        assert(parts@.map_values(|p: (Tally, String)| (p.0, p.1@)) =~= before.map_values(|p: (Tally, String)| (p.0, p.1@))
            + tally_part(n as nat, kind, word@));
    } else {
        assert(parts@.map_values(|p: (Tally, String)| (p.0, p.1@)) =~= before.map_values(|p: (Tally, String)| (p.0, p.1@))
            + tally_part(n as nat, kind, word@));
    }
}

/// The parts of the run's summary line (see [`summary_of`]), each with what
/// it counts.
pub fn summary_parts(result: &RunResult) -> (r: Vec<(Tally, String)>)
    ensures
        r@.map_values(|p: (Tally, String)| (p.0, p.1@)) == summary_of(*result),
{
    let mut parts: Vec<(Tally, String)> = Vec::new();
    assert(parts@.map_values(|p: (Tally, String)| (p.0, p.1@)) =~= Seq::<(Tally, Seq<char>)>::empty());
    push_tally(&mut parts, result.passed, Tally::Passed, "passed");
    push_tally(&mut parts, result.failed, Tally::Failed, "failed");
    push_tally(&mut parts, result.pending, Tally::Pending, "pending");
    push_tally(&mut parts, result.skipped, Tally::Skipped, "skipped");
    if parts.len() == 0 {
        parts.push((Tally::NoneMatched, string_from("0 matched")));
        assert(parts@.map_values(|p: (Tally, String)| (p.0, p.1@)) =~= seq![(Tally::NoneMatched, "0 matched"@)]);
    }
    parts
}


/// The sum of a merged tuple's counters.
pub open spec fn merged_total(m: (nat, nat, nat, nat, Seq<String>)) -> nat {
    m.0 + m.1 + m.2 + m.3
}

proof fn lemma_merged_prefix(rendered: Seq<(Vec<Line>, RunResult)>, x: (Vec<Line>, RunResult), k: int)
    requires
        0 <= k <= rendered.len(),
    ensures
        merged(rendered.push(x), k) == merged(rendered, k),
    decreases k,
{
    if k > 0 {
        lemma_merged_prefix(rendered, x, k - 1);
        assert(rendered.push(x)[k - 1] == rendered[k - 1]);
    }
}

proof fn lemma_offset_is_flat_len(layout: Seq<(String, usize)>, suites: Seq<Suite>, i: int)
    requires
        0 <= i <= suites.len(),
        layout.len() == suites.len(),
        forall|k: int| 0 <= k < suites.len() ==> (#[trigger] layout[k]).1 == suites[k].nodes@.len(),
    ensures
        offset(layout, i) == flat(suites.take(i)).len(),
    decreases i,
{
    if i > 0 {
        lemma_offset_is_flat_len(layout, suites, i - 1);
        assert(suites.take(i).drop_last() =~= suites.take(i - 1));
        assert(suites.take(i).last() == suites[i - 1]);
    }
}

proof fn lemma_cost_from_split(nodes: Seq<TestNode>, k: int)
    requires
        0 <= k < nodes.len(),
    ensures
        cost_from(nodes, k) == node_cost(nodes[k]) + cost_from(nodes, k + 1),
{
}

proof fn lemma_cost_from_nonneg_tail(nodes: Seq<TestNode>, k: int)
    requires
        0 <= k <= nodes.len(),
    ensures
        cost_from(nodes, k) <= cost_from(nodes, 0),
    decreases k,
{
    if k > 0 {
        lemma_cost_from_nonneg_tail(nodes, k - 1);
    }
}

/// `layout` is the layout of `suites`: each suite's name and number of
/// top-level nodes.
pub open spec fn layout_of(layout: Seq<(String, usize)>, suites: Seq<Suite>) -> bool {
    &&& layout.len() == suites.len()
    &&& forall|k: int| 0 <= k < suites.len() ==> (#[trigger] layout[k]).0@ == suites[k].name@ && layout[k].1 == suites[k].nodes@.len()
}

/// Each of `rendered` is what running the node of `units` at the same index
/// as one unit produced, without an abort (see [`unit_ran`]).
pub open spec fn unit_reports<'a, V, B, K, L>(
    rendered: Seq<(Vec<Line>, RunResult)>,
    units: Seq<TestNode>,
    focus_mode: bool,
    config: &'a RunConfig,
    bodies: &'a Vec<B>,
    clock: &'a K,
    cleanup: &'a L,
) -> bool where
    B: Fn(&mut FixtureStore<V>) -> Outcome,
    K: Fn() -> u64,
    L: Fn(&mut FixtureStore<V>) -> Outcome,
 {
    &&& rendered.len() == units.len()
    &&& forall|j: int|
        0 <= j < units.len() ==> #[trigger] unit_ran(units[j], focus_mode, config, bodies, clock, cleanup, (rendered[j].0, rendered[j].1, None))
}

/// `r` is what running `suites` unit by unit produced (not in listing mode):
/// every top-level node, in tree order, ran as one unit (see [`unit_ran`]),
/// focused when a suite holds focus. When none aborted, the report is the
/// units' reports put back under the suites' layout (see [`assembled`]) and
/// the counters and failure descriptions are theirs, merged in order; when one
/// aborted, the units before it ran without an abort, the run stops with its
/// abort, and the report holds a single blank line and no count.
pub open spec fn units_ran<'a, V, B, K, L>(
    suites: Seq<Suite>,
    config: &'a RunConfig,
    bodies: &'a Vec<B>,
    clock: &'a K,
    cleanup: &'a L,
    r: SuiteRun,
) -> bool where
    B: Fn(&mut FixtureStore<V>) -> Outcome,
    K: Fn() -> u64,
    L: Fn(&mut FixtureStore<V>) -> Outcome,
 {
    let fl = flat(suites);
    let focus = suites_focus(suites);
    match r.abort {
        None => exists|layout: Seq<(String, usize)>, rendered: Seq<(Vec<Line>, RunResult)>|
            #![trigger layout_of(layout, suites), unit_reports(rendered, fl, focus, config, bodies, clock, cleanup)]
            {
                let n = rendered.len() as int;
                &&& layout_of(layout, suites)
                &&& unit_reports(rendered, fl, focus, config, bodies, clock, cleanup)
                &&& lines_view(r.lines@) == assembled(layout, rendered, layout.len() as int)
                &&& r.result.passed == merged(rendered, n).0
                &&& r.result.failed == merged(rendered, n).1
                &&& r.result.pending == merged(rendered, n).2
                &&& r.result.skipped == merged(rendered, n).3
                &&& r.result.failures@ == merged(rendered, n).4
            },
        Some(_) => {
            &&& lines_view(r.lines@) == seq![LineView::Blank]
            &&& r.result.total() == 0
            &&& r.result.failures@.len() == 0
            &&& exists|k: int, rendered: Seq<(Vec<Line>, RunResult)>, ls: Vec<Line>, res: RunResult|
                #[trigger] aborted_at(k, rendered, ls, res, suites, config, bodies, clock, cleanup, r.abort)
        },
    }
}

/// Of the top-level nodes of `suites`, in tree order, those before index
/// `k` ran as units without an abort, producing `rendered`, and the one at
/// `k` produced `ls` and `res` and aborted with `abort` (focused when a suite
/// holds focus).
pub open spec fn aborted_at<'a, V, B, K, L>(
    k: int,
    rendered: Seq<(Vec<Line>, RunResult)>,
    ls: Vec<Line>,
    res: RunResult,
    suites: Seq<Suite>,
    config: &'a RunConfig,
    bodies: &'a Vec<B>,
    clock: &'a K,
    cleanup: &'a L,
    abort: Option<String>,
) -> bool where
    B: Fn(&mut FixtureStore<V>) -> Outcome,
    K: Fn() -> u64,
    L: Fn(&mut FixtureStore<V>) -> Outcome,
 {
    let units = flat(suites);
    let focus_mode = suites_focus(suites);
    &&& 0 <= k < units.len()
    &&& unit_reports(rendered, units.take(k), focus_mode, config, bodies, clock, cleanup)
    &&& unit_ran(units[k], focus_mode, config, bodies, clock, cleanup, (ls, res, abort))
}

/// Run the suites top-level node by top-level node, each on a fresh fixture
/// store, and put the reports back in tree order (as a parallel run does, one
/// unit after another): in listing mode only list them. The run stops at an
/// abort.
pub fn run_suites_in_units<V, B, K, L>(
    suites: Vec<Suite>,
    config: &RunConfig,
    bodies: &Vec<B>,
    clock: &K,
    cleanup: &L,
) -> (r: SuiteRun) where
    B: Fn(&mut FixtureStore<V>) -> Outcome,
    K: Fn() -> u64,
    L: Fn(&mut FixtureStore<V>) -> Outcome,

    requires
        forall|i: int, s: &mut FixtureStore<V>| 0 <= i < bodies@.len() ==> #[trigger] call_requires(bodies@[i], (s,)),
        call_requires(*clock, ()),
        forall|s: &mut FixtureStore<V>| call_requires(*cleanup, (s,)),
        forall|i: int, s: &mut FixtureStore<V>, o: Outcome|
            0 <= i < bodies@.len() && #[trigger] call_ensures(bodies@[i], (s,), o) ==> (*final(s)).keeps_outer(*s),
        forall|s: &mut FixtureStore<V>, o: Outcome| #[trigger] call_ensures(*cleanup, (s,), o) ==> (*final(s)).keeps_outer(*s),
        cost_from(flat(suites@), 0) <= usize::MAX,
    ensures
        config.list ==> {
            &&& views(r.listing@) == suites_listing(suites@, 0, config.filter)
            &&& r.result.total() == 0
            &&& r.lines@.len() == 0
            &&& r.abort is None
        },
        !config.list ==> {
            &&& r.listing@.len() == 0
            &&& units_ran(suites@, config, bodies, clock, cleanup, r)
            &&& r.result.wf()
            &&& r.result.total() <= cost_from(flat(suites@), 0)
            &&& r.lines@.len() > 0
            &&& r.lines@[0]@ == LineView::Blank
            &&& (r.abort matches Some(m) ==> m@ == focus_refusal())
        },
{
    if config.list {
        let listing = list_suites(&suites, &config.filter);
        return SuiteRun { result: RunResult::new(), lines: Vec::new(), listing, abort: None };
    }
    let focus_mode = suites_have_focus(&suites);
    let ghost all = suites@;
    let (layout, units) = flatten_units(suites);
    let ghost fl = flat(all);
    let mut rendered: Vec<(Vec<Line>, RunResult)> = Vec::new();
    let ghost mut acc: nat = 0;
    let mut k: usize = 0;
    while k < units.len()
        invariant
            k <= units@.len(),
            !config.list,
            units@.len() == fl.len(),
            forall|j: int| 0 <= j < units@.len() ==> #[trigger] units@[j] == (j as usize, fl[j]),
            forall|i: int, s: &mut FixtureStore<V>| 0 <= i < bodies@.len() ==> #[trigger] call_requires(bodies@[i], (s,)),
            call_requires(*clock, ()),
            forall|s: &mut FixtureStore<V>| call_requires(*cleanup, (s,)),
            forall|i: int, s: &mut FixtureStore<V>, o: Outcome|
                0 <= i < bodies@.len() && #[trigger] call_ensures(bodies@[i], (s,), o) ==> (*final(s)).keeps_outer(*s),
            forall|s: &mut FixtureStore<V>, o: Outcome| #[trigger] call_ensures(*cleanup, (s,), o) ==> (*final(s)).keeps_outer(*s),
            cost_from(fl, 0) <= usize::MAX,
            rendered@.len() == k,
            forall|j: int| 0 <= j < k ==> (#[trigger] rendered@[j]).1.wf(),
            merged_total(merged(rendered@, k as int)) + cost_from(fl, k as int) <= cost_from(fl, 0),
            merged(rendered@, k as int).4.len() == merged(rendered@, k as int).1,
            focus_mode == suites_focus(all),
            fl == flat(all),
            all == suites@,
            unit_reports(rendered@, fl.take(k as int), focus_mode, config, bodies, clock, cleanup),
        decreases units@.len() - k,
    {
        proof {
            lemma_cost_from_split(fl, k as int);
            lemma_cost_from_nonneg_tail(fl, k as int);
        }
        let (lines, result, abort) = render_unit(&units[k].1, focus_mode, config, bodies, clock, cleanup);
        if abort.is_some() {
            let mut lines0: Vec<Line> = Vec::new();
            lines0.push(Line::Blank);
            let r = SuiteRun { result: RunResult::new(), lines: lines0, listing: Vec::new(), abort };
            proof {
                assert(lines_view(r.lines@) =~= seq![LineView::Blank]);
                assert(units@[k as int].1 == fl[k as int]);
                assert(unit_ran(fl[k as int], focus_mode, config, bodies, clock, cleanup, (lines, result, r.abort)));
                assert(0 <= k < fl.len());
                assert(unit_reports(rendered@, fl.take(k as int), focus_mode, config, bodies, clock, cleanup));
                assert(r.result.total() == 0);
                assert(r.result.failures@.len() == 0);
                assert(aborted_at(k as int, rendered@, lines, result, all, config, bodies, clock, cleanup, r.abort));
                assert(units_ran(all, config, bodies, clock, cleanup, r));
            }
            return r;
        }
        let ghost before = rendered@;
        let ghost res = result;
        rendered.push((lines, result));
        proof {
            lemma_merged_prefix(before, rendered@[k as int], k as int);
            assert(rendered@[k as int].1 == res);
            let fk = fl.take(k + 1);
            assert(units@[k as int].1 == fl[k as int]);
            assert forall|j: int| 0 <= j < fk.len() implies #[trigger] unit_ran(fk[j], focus_mode, config, bodies, clock, cleanup, (rendered@[j].0, rendered@[j].1, None)) by {
                if j < k {
                    assert(fk[j] == fl.take(k as int)[j]);
                    assert(rendered@[j] == before[j]);
                }
            }
        }
        k = k + 1;
    }
    proof {
        lemma_offset_is_flat_len(layout@, all, all.len() as int);
        assert(all.take(all.len() as int) =~= all);
        assert(merged(rendered@, rendered@.len() as int).4.len() == merged(rendered@, rendered@.len() as int).1);
    }
    let ghost rv = rendered@;
    let (lines, result) = reassemble(&layout, rendered);
    proof {
        lemma_assembled_starts_blank(layout@, rv, layout@.len() as int);
        assert(lines@[0]@ == lines_view(lines@)[0]);
        assert(fl.take(fl.len() as int) =~= fl);
    }
    let r = SuiteRun { result, lines, listing: Vec::new(), abort: None };
    proof {
        assert(layout_of(layout@, all));
        assert(unit_reports(rv, fl, focus_mode, config, bodies, clock, cleanup));
        assert(units_ran(all, config, bodies, clock, cleanup, r));
    }
    r
}

proof fn lemma_assembled_starts_blank(layout: Seq<(String, usize)>, rendered: Seq<(Vec<Line>, RunResult)>, i: int)
    ensures
        assembled(layout, rendered, i).len() > 0,
        assembled(layout, rendered, i)[0] == LineView::Blank,
    decreases i,
{
    if i > 0 {
        lemma_assembled_starts_blank(layout, rendered, i - 1);
    }
}

} // verus!
