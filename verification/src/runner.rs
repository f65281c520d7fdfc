//! The runner: walks the test tree, runs hooks and bodies, and reports what
//! passed, failed, is pending or was skipped.
//!
//! Bodies are closures over the fixture store that report an [`Outcome`]; the
//! runner calls them in the order the tree prescribes and folds their outcomes
//! into a [`RunResult`] and the report [`Line`]s.
use vstd::prelude::*;
use crate::fixtures::FixtureStore;
use crate::filter::labels_match_chars;
use crate::text::{chars_of, contains_seq, join_strings, string_from, string_of, to_lower};
use crate::tree::{TestNode, Suite, leaves_from, node_leaves};
use crate::trials::decimal_chars;

verus! {

/// What running one body reported.
#[derive(Debug)]
pub enum Outcome {
    /// The body returned normally.
    Pass,
    /// The body failed with a message.
    Fail(String),
    /// The body returned normally after asking to skip the spec, with a reason.
    Skip(String),
}

/// Configuration of a run.
pub struct RunConfig {
    /// Only run specs whose full path contains this (case-insensitive).
    pub filter: Option<String>,
    /// Only list specs, don't run them.
    pub list: bool,
    /// Run non-focused specs even when something is focused.
    pub include_ignored: bool,
    /// Number of worker threads for top-level parallelism. `1` = sequential.
    pub parallelism: usize,
    /// The label filter specs' labels must match.
    pub label_filter: Option<String>,
    /// Abort the run when a focused spec is about to run (CI guard).
    pub fail_on_focus: bool,
}

impl RunConfig {
    /// The configuration of an inline run: no filters, sequential.
    pub fn inline() -> (r: RunConfig)
        ensures
            r.filter is None,
            !r.list,
            !r.include_ignored,
            r.parallelism == 1,
            r.label_filter is None,
            !r.fail_on_focus,
    {
        RunConfig {
            filter: None,
            list: false,
            include_ignored: false,
            parallelism: 1,
            label_filter: None,
            fail_on_focus: false,
        }
    }
}

/// Results from running a test tree.
pub struct RunResult {
    pub passed: usize,
    pub failed: usize,
    pub pending: usize,
    pub skipped: usize,
    pub failures: Vec<String>,
}

impl RunResult {
    /// No spec counted yet.
    pub fn new() -> (r: RunResult)
        ensures
            r.passed == 0 && r.failed == 0 && r.pending == 0 && r.skipped == 0,
            r.failures@.len() == 0,
    {
        RunResult { passed: 0, failed: 0, pending: 0, skipped: 0, failures: Vec::new() }
    }

    /// The sum of the counters.
    pub open spec fn total(self) -> int {
        self.passed + self.failed + self.pending + self.skipped
    }

    /// Every failure is counted once and described once.
    pub open spec fn wf(self) -> bool {
        self.failures@.len() == self.failed
    }

    /// Fold another result into this one, summing counters and appending
    /// failures (merge in tree order so failure numbering stays deterministic).
    pub fn merge(&mut self, other: RunResult)
        requires
            old(self).total() + other.total() <= usize::MAX,
        ensures
            final(self).passed == old(self).passed + other.passed,
            final(self).failed == old(self).failed + other.failed,
            final(self).pending == old(self).pending + other.pending,
            final(self).skipped == old(self).skipped + other.skipped,
            final(self).failures@ == old(self).failures@ + other.failures@,
    {
        self.passed = self.passed + other.passed;
        self.failed = self.failed + other.failed;
        self.pending = self.pending + other.pending;
        self.skipped = self.skipped + other.skipped;
        let mut f = other.failures;
        self.failures.append(&mut f);
    }
}

/// Which scope hook failed.
#[derive(Debug, PartialEq, Eq, Structural)]
pub enum HookPhase {
    BeforeAll,
    AfterAll,
}

/// One line of the tree report; `depth` is the nesting level.
#[derive(Debug)]
pub enum Line {
    Blank,
    /// `--- name ---` before a named suite.
    SuiteHeader(String),
    /// A group's name.
    Group { depth: usize, name: String },
    /// A group under a pending group.
    PendingGroup { depth: usize, name: String },
    /// A pending spec or ordered block.
    Pending { depth: usize, name: String },
    /// A spec that asked to be skipped, with its reason.
    Skipped { depth: usize, name: String, reason: String },
    /// A passing spec and how long it took.
    Passed { depth: usize, name: String, ms: u64 },
    /// A failing spec, how long it took and why.
    Failed { depth: usize, name: String, ms: u64, msg: String },
    /// A failing `before_all`/`after_all` of a group.
    HookFailed { depth: usize, phase: HookPhase, msg: String },
}

/// The value of a report line.
pub enum LineView {
    Blank,
    SuiteHeader(Seq<char>),
    Group { depth: usize, name: Seq<char> },
    PendingGroup { depth: usize, name: Seq<char> },
    Pending { depth: usize, name: Seq<char> },
    Skipped { depth: usize, name: Seq<char>, reason: Seq<char> },
    Passed { depth: usize, name: Seq<char>, ms: u64 },
    Failed { depth: usize, name: Seq<char>, ms: u64, msg: Seq<char> },
    HookFailed { depth: usize, phase: HookPhase, msg: Seq<char> },
}

impl View for Line {
    type V = LineView;

    open spec fn view(&self) -> LineView {
        match *self {
            Line::Blank => LineView::Blank,
            Line::SuiteHeader(n) => LineView::SuiteHeader(n@),
            Line::Group { depth, name } => LineView::Group { depth, name: name@ },
            Line::PendingGroup { depth, name } => LineView::PendingGroup { depth, name: name@ },
            Line::Pending { depth, name } => LineView::Pending { depth, name: name@ },
            Line::Skipped { depth, name, reason } => LineView::Skipped { depth, name: name@, reason: reason@ },
            Line::Passed { depth, name, ms } => LineView::Passed { depth, name: name@, ms },
            Line::Failed { depth, name, ms, msg } => LineView::Failed { depth, name: name@, ms, msg: msg@ },
            Line::HookFailed { depth, phase, msg } => LineView::HookFailed { depth, phase, msg: msg@ },
        }
    }
}

/// The values of report lines.
pub open spec fn lines_view(s: Seq<Line>) -> Seq<LineView> {
    s.map_values(|l: Line| l@)
}

/// A call the runner made.
pub enum Call {
    /// The body with this index in the table.
    Body(usize),
    /// The deferred cleanups of a spec.
    Cleanup,
    /// A reading of the clock, with the time it read (in milliseconds).
    Clock(u64),
}

/// The time a clock reading read (0 for another call).
pub open spec fn reading(c: Call) -> u64 {
    match c {
        Call::Clock(t) => t,
        _ => 0,
    }
}

/// The number of nodes in `nodes` from index `i` on.
pub open spec fn size_from(nodes: Seq<TestNode>, i: int) -> nat
    decreases nodes, nodes.len() - i,
{
    if 0 <= i < nodes.len() {
        node_size(nodes[i]) + size_from(nodes, i + 1)
    } else {
        0
    }
}

/// The number of nodes in a subtree.
pub open spec fn node_size(n: TestNode) -> nat
    decreases n,
{
    match n {
        TestNode::Describe { children, .. } => 1 + size_from(children@, 0),
        _ => 1,
    }
}

/// Hooks and labels accumulated from the enclosing groups.
pub struct HookChain {
    pub before_each: Vec<usize>,
    pub after_each: Vec<usize>,
    pub just_before_each: Vec<usize>,
    pub labels: Vec<Vec<char>>,
}

impl HookChain {
    /// No enclosing group.
    pub fn new() -> (r: HookChain)
        ensures
            r.before_each@.len() == 0,
            r.after_each@.len() == 0,
            r.just_before_each@.len() == 0,
            r.labels@.len() == 0,
    {
        HookChain { before_each: Vec::new(), after_each: Vec::new(), just_before_each: Vec::new(), labels: Vec::new() }
    }

    /// Append the hooks and labels of a group; returns the lengths before, for
    /// `pop_describe`.
    pub fn push_describe(&mut self, node: &TestNode) -> (saved: [usize; 4])
        ensures
            saved@.len() == 4,
            saved@[0] == old(self).before_each@.len(),
            saved@[1] == old(self).after_each@.len(),
            saved@[2] == old(self).just_before_each@.len(),
            saved@[3] == old(self).labels@.len(),
            match *node {
                TestNode::Describe { before_each, after_each, just_before_each, labels, .. } => {
                    &&& final(self).before_each@ == old(self).before_each@ + before_each@
                    &&& final(self).after_each@ == old(self).after_each@ + after_each@
                    &&& final(self).just_before_each@ == old(self).just_before_each@ + just_before_each@
                    &&& crate::filter::seqs(final(self).labels@) == crate::filter::seqs(old(self).labels@) + crate::text::views(labels@)
                    &&& final(self).labels@.len() == old(self).labels@.len() + labels@.len()
                    &&& final(self).labels@.take(old(self).labels@.len() as int) == old(self).labels@
                },
                _ => *final(self) == *old(self),
            },
    {
        let saved = [self.before_each.len(), self.after_each.len(), self.just_before_each.len(), self.labels.len()];
        if let TestNode::Describe { before_each, after_each, just_before_each, labels, .. } = node {
            extend_ids(&mut self.before_each, before_each);
            extend_ids(&mut self.after_each, after_each);
            extend_ids(&mut self.just_before_each, just_before_each);
            let ghost l0 = self.labels@;
            let mut i: usize = 0;
            while i < labels.len()
                invariant
                    i <= labels@.len(),
                    self.before_each@ == old(self).before_each@ + before_each@,
                    self.after_each@ == old(self).after_each@ + after_each@,
                    self.just_before_each@ == old(self).just_before_each@ + just_before_each@,
                    l0 == old(self).labels@,
                    crate::filter::seqs(self.labels@) == crate::filter::seqs(l0) + crate::text::views(labels@.take(i as int)),
                    self.labels@.len() == l0.len() + i,
                    self.labels@.take(l0.len() as int) == l0,
                decreases labels@.len() - i,
            {
                let c = chars_of(labels[i].as_str());
                let ghost before = self.labels@;
                self.labels.push(c);
                assert(crate::filter::seqs(self.labels@) =~= crate::filter::seqs(before).push(labels@[i as int]@));
                assert(self.labels@.take(l0.len() as int) =~= before.take(l0.len() as int));
                assert(crate::text::views(labels@.take(i + 1)) =~= crate::text::views(labels@.take(i as int)).push(labels@[i as int]@));
                i = i + 1;
            }
            assert(labels@.take(labels@.len() as int) =~= labels@);
        }
        saved
    }

    /// Restore the chain to the state captured by a prior `push_describe`.
    pub fn pop_describe(&mut self, saved: [usize; 4])
        requires
            saved@[0] <= old(self).before_each@.len(),
            saved@[1] <= old(self).after_each@.len(),
            saved@[2] <= old(self).just_before_each@.len(),
            saved@[3] <= old(self).labels@.len(),
        ensures
            final(self).before_each@ == old(self).before_each@.take(saved@[0] as int),
            final(self).after_each@ == old(self).after_each@.take(saved@[1] as int),
            final(self).just_before_each@ == old(self).just_before_each@.take(saved@[2] as int),
            final(self).labels@ == old(self).labels@.take(saved@[3] as int),
    {
        self.before_each.truncate(saved[0]);
        self.after_each.truncate(saved[1]);
        self.just_before_each.truncate(saved[2]);
        self.labels.truncate(saved[3]);
    }
}

pub(crate) fn extend_ids(v: &mut Vec<usize>, extra: &Vec<usize>)
    ensures
        final(v)@ == old(v)@ + extra@,
{
    let mut i: usize = 0;
    let ghost v0 = v@;
    while i < extra.len()
        invariant
            i <= extra@.len(),
            v@ == v0 + extra@.take(i as int),
        decreases extra@.len() - i,
    {
        v.push(extra[i]);
        assert(extra@.take(i + 1) =~= extra@.take(i as int).push(extra@[i as int]));
        i = i + 1;
    }
    assert(extra@.take(extra@.len() as int) =~= extra@);
}

/// `a` followed by `b`.
pub(crate) fn concat(a: &str, b: &str) -> (r: String)
    ensures
        r@ == a@ + b@,
{
    let mut s = string_from(a);
    s.append(b);
    s
}

/// `"test timed out after {ms}ms"`.
pub open spec fn timeout_msg(ms: u64) -> Seq<char> {
    "test timed out after "@ + crate::trials::decimal(ms as nat) + "ms"@
}


/// The message of a failing outcome.
pub open spec fn fail_msg(o: Outcome) -> Option<String> {
    match o {
        Outcome::Fail(m) => Some(m),
        _ => None,
    }
}

/// The message of the first failing call of `seg`.
pub open spec fn first_failure(seg: Seq<(Call, Outcome)>) -> Option<String>
    decreases seg.len(),
{
    if seg.len() == 0 {
        None
    } else {
        match seg[0].1 {
            Outcome::Fail(m) => Some(m),
            _ => first_failure(seg.drop_first()),
        }
    }
}

/// `seg` ran the bodies `ids` in order and stopped at the first failure.
pub open spec fn ran_until_failure(seg: Seq<(Call, Outcome)>, ids: Seq<usize>) -> bool {
    &&& seg.len() <= ids.len()
    &&& forall|j: int| 0 <= j < seg.len() ==> #[trigger] seg[j].0 == Call::Body(ids[j])
    &&& forall|j: int| 0 <= j < seg.len() - 1 ==> !(#[trigger] seg[j].1 is Fail)
    &&& seg.len() < ids.len() ==> seg.len() > 0 && seg.last().1 is Fail
}

/// `seg` ran every body of `ids` in order.
pub open spec fn ran_all(seg: Seq<(Call, Outcome)>, ids: Seq<usize>) -> bool {
    &&& seg.len() == ids.len()
    &&& forall|j: int| 0 <= j < seg.len() ==> #[trigger] seg[j].0 == Call::Body(ids[j])
}

/// One attempt of a spec: the `pre` bodies (`before_each`, `just_before_each`,
/// then the spec body) in order up to the first failure (`k` of them ran), then
/// every `after_each` body innermost first, then the deferred cleanups. The
/// attempt fails with the cleanups' failure, else the first `pre` failure, else
/// the first `after_each` failure.
pub open spec fn attempt_trace(
    seg: Seq<(Call, Outcome)>,
    pre: Seq<usize>,
    post: Seq<usize>,
    k: int,
    r: Result<(), String>,
) -> bool {
    &&& 0 <= k <= pre.len()
    &&& seg.len() == k + post.len() + 1
    &&& ran_until_failure(seg.take(k), pre)
    &&& ran_all(seg.subrange(k, k + post.len()), post.reverse())
    &&& seg.last().0 == Call::Cleanup
    &&& r == match fail_msg(seg.last().1) {
        Some(m) => Err(m),
        None => match first_failure(seg.take(k)) {
            Some(m) => Err(m),
            None => match first_failure(seg.subrange(k, k + post.len())) {
                Some(m) => Err(m),
                None => Ok(()),
            },
        },
    }
}

/// The skip flag after a call reported `o`.
pub open spec fn skip_update(f: Option<String>, o: Outcome) -> Option<String> {
    match o {
        Outcome::Skip(reason) => Some(reason),
        _ => f,
    }
}

/// The skip flag after the calls of `seg`, starting from `f`: the reason of
/// the last call that asked to skip, else `f`.
pub open spec fn skip_fold(f: Option<String>, seg: Seq<(Call, Outcome)>) -> Option<String>
    decreases seg.len(),
{
    if seg.len() == 0 {
        f
    } else {
        skip_update(skip_fold(f, seg.drop_last()), seg.last().1)
    }
}

pub(crate) proof fn lemma_skip_fold_concat(f: Option<String>, a: Seq<(Call, Outcome)>, b: Seq<(Call, Outcome)>)
    ensures
        skip_fold(f, a + b) == skip_fold(skip_fold(f, a), b),
    decreases b.len(),
{
    if b.len() > 0 {
        assert((a + b).drop_last() =~= a + b.drop_last());
        lemma_skip_fold_concat(f, a, b.drop_last());
    } else {
        assert(a + b =~= a);
    }
}

/// The state of a run over one body table.
pub struct Runner<'a, V, B, K, L> {
    pub bodies: &'a Vec<B>,
    /// The fixture store the bodies read and write.
    pub store: FixtureStore<V>,
    pub clock: &'a K,
    pub cleanup: &'a L,
    pub config: &'a RunConfig,
    pub focus_mode: bool,
    /// The counters and failure descriptions so far.
    pub result: RunResult,
    /// The report so far.
    pub lines: Vec<Line>,
    pub skip_flag: Option<String>,
    /// Set when the run was aborted (a focused spec under `fail_on_focus`).
    pub abort: Option<String>,
    /// The calls made so far, with what each reported.
    pub calls: Ghost<Seq<(Call, Outcome)>>,
}

impl<'a, V, B, K, L> Runner<'a, V, B, K, L> where
    B: Fn(&mut FixtureStore<V>) -> Outcome,
    K: Fn() -> u64,
    L: Fn(&mut FixtureStore<V>) -> Outcome,
 {
    /// Every body, the clock and the cleanup can be called on any store, and
    /// the bodies and the cleanup leave every scope layer but the innermost
    /// as they found it (see [`FixtureStore::keeps_outer`]).
    pub open spec fn callable(self) -> bool {
        &&& forall|i: int, s: &mut FixtureStore<V>| 0 <= i < self.bodies@.len() ==> #[trigger] call_requires(self.bodies@[i], (s,))
        &&& call_requires(*self.clock, ())
        &&& forall|s: &mut FixtureStore<V>| call_requires(*self.cleanup, (s,))
    }

    /// The table of bodies.
    pub open spec fn table(self) -> Seq<B> {
        self.bodies@
    }

    /// `self` runs with the same bodies, clock, cleanup, configuration and
    /// focus mode as `other`.
    pub open spec fn same_config(self, other: Self) -> bool {
        &&& self.bodies == other.bodies
        &&& self.clock == other.clock
        &&& self.cleanup == other.cleanup
        &&& self.config == other.config
        &&& self.focus_mode == other.focus_mode
    }

    /// `self` runs with the same setup as `other` (see [`Self::same_config`])
    /// and its fixture store kept `other`'s outer scope layers.
    pub open spec fn same_setup(self, other: Self) -> bool {
        &&& self.same_config(other)
        &&& self.store.keeps_outer(other.store)
    }

    /// A fresh run.
    pub fn new(
        bodies: &'a Vec<B>,
        store: FixtureStore<V>,
        clock: &'a K,
        cleanup: &'a L,
        config: &'a RunConfig,
        focus_mode: bool,
    ) -> (r: Self)
        ensures
            r.table() == bodies@,
            r.store == store,
            r.result.total() == 0,
            r.result.wf(),
            r.lines@.len() == 0,
            r.abort is None,
            r.skip_flag is None,
            r.calls@.len() == 0,
            r.bodies == bodies,
            r.clock == clock,
            r.cleanup == cleanup,
            r.config == config,
            r.focus_mode == focus_mode,
    {
        Runner {
            bodies,
            store,
            clock,
            cleanup,
            config,
            focus_mode,
            result: RunResult::new(),
            lines: Vec::new(),
            skip_flag: None,
            abort: None,
            calls: Ghost(Seq::empty()),
        }
    }

    /// The current time in milliseconds, from the clock; the reading is
    /// recorded as a call that passed.
    pub(crate) fn now(&mut self) -> (t: u64)
        requires
            old(self).callable(),
            forall|i: int, s: &mut FixtureStore<V>, o: Outcome|
                0 <= i < old(self).bodies@.len() && #[trigger] call_ensures(old(self).bodies@[i], (s,), o) ==> (*final(s)).keeps_outer(*s),
            forall|s: &mut FixtureStore<V>, o: Outcome| #[trigger] call_ensures(*old(self).cleanup, (s,), o) ==> (*final(s)).keeps_outer(*s),
        ensures
            final(self).callable(),
            final(self).same_setup(*old(self)),
            final(self).store == old(self).store,
            final(self).result == old(self).result,
            final(self).lines == old(self).lines,
            final(self).abort == old(self).abort,
            final(self).skip_flag == old(self).skip_flag,
            final(self).calls@ == old(self).calls@.push((Call::Clock(t), Outcome::Pass)),
    {
        let t = (self.clock)();
        proof {
            self.calls@ = self.calls@.push((Call::Clock(t), Outcome::Pass));
        }
        t
    }

    /// Call the body with index `id` (a missing body fails).
    pub(crate) fn call(&mut self, id: usize) -> (r: Result<(), String>)
        requires
            old(self).callable(),
            forall|i: int, s: &mut FixtureStore<V>, o: Outcome|
                0 <= i < old(self).bodies@.len() && #[trigger] call_ensures(old(self).bodies@[i], (s,), o) ==> (*final(s)).keeps_outer(*s),
            forall|s: &mut FixtureStore<V>, o: Outcome| #[trigger] call_ensures(*old(self).cleanup, (s,), o) ==> (*final(s)).keeps_outer(*s),
        ensures
            final(self).callable(),
            final(self).same_setup(*old(self)),
            final(self).result == old(self).result,
            final(self).lines == old(self).lines,
            final(self).abort == old(self).abort,
            final(self).calls@.len() == old(self).calls@.len() + 1,
            final(self).calls@.drop_last() == old(self).calls@,
            final(self).calls@.last().0 == Call::Body(id),
            final(self).skip_flag == skip_update(old(self).skip_flag, final(self).calls@.last().1),
            r is Ok <==> !(final(self).calls@.last().1 is Fail),
            final(self).calls@.last().1 matches Outcome::Fail(m) ==> r == Err::<(), String>(m),
            id >= old(self).table().len() ==> final(self).calls@.last().1 is Fail,
    {
        let o = if id < self.bodies.len() {
            (self.bodies[id])(&mut self.store)
        } else {
            Outcome::Fail(string_from("rsspec: no body registered under this index"))
        };
        let ghost og = o;
        proof {
            self.calls@ = self.calls@.push((Call::Body(id), og));
            assert(self.calls@.drop_last() =~= old(self).calls@);
        }
        match o {
            Outcome::Pass => Ok(()),
            Outcome::Skip(reason) => {
                self.skip_flag = Some(reason);
                Ok(())
            },
            Outcome::Fail(m) => Err(m),
        }
    }

    /// Run the deferred cleanups of the current spec.
    pub(crate) fn run_cleanup(&mut self) -> (r: Result<(), String>)
        requires
            old(self).callable(),
            forall|i: int, s: &mut FixtureStore<V>, o: Outcome|
                0 <= i < old(self).bodies@.len() && #[trigger] call_ensures(old(self).bodies@[i], (s,), o) ==> (*final(s)).keeps_outer(*s),
            forall|s: &mut FixtureStore<V>, o: Outcome| #[trigger] call_ensures(*old(self).cleanup, (s,), o) ==> (*final(s)).keeps_outer(*s),
        ensures
            final(self).callable(),
            final(self).same_setup(*old(self)),
            final(self).result == old(self).result,
            final(self).lines == old(self).lines,
            final(self).abort == old(self).abort,
            final(self).calls@.len() == old(self).calls@.len() + 1,
            final(self).calls@.drop_last() == old(self).calls@,
            final(self).calls@.last().0 == Call::Cleanup,
            final(self).skip_flag == skip_update(old(self).skip_flag, final(self).calls@.last().1),
            r is Ok <==> !(final(self).calls@.last().1 is Fail),
            final(self).calls@.last().1 matches Outcome::Fail(m) ==> r == Err::<(), String>(m),
    {
        let o = (self.cleanup)(&mut self.store);
        let ghost og = o;
        proof {
            self.calls@ = self.calls@.push((Call::Cleanup, og));
            assert(self.calls@.drop_last() =~= old(self).calls@);
        }
        match o {
            Outcome::Pass => Ok(()),
            Outcome::Skip(reason) => {
                self.skip_flag = Some(reason);
                Ok(())
            },
            Outcome::Fail(m) => Err(m),
        }
    }
}


impl<'a, V, B, K, L> Runner<'a, V, B, K, L> where
    B: Fn(&mut FixtureStore<V>) -> Outcome,
    K: Fn() -> u64,
    L: Fn(&mut FixtureStore<V>) -> Outcome,
 {
    /// Run `ids` in order, stopping at the first failure.
    pub(crate) fn run_until_failure(&mut self, ids: &Vec<usize>) -> (r: Result<(), String>)
        requires
            old(self).callable(),
            forall|i: int, s: &mut FixtureStore<V>, o: Outcome|
                0 <= i < old(self).bodies@.len() && #[trigger] call_ensures(old(self).bodies@[i], (s,), o) ==> (*final(s)).keeps_outer(*s),
            forall|s: &mut FixtureStore<V>, o: Outcome| #[trigger] call_ensures(*old(self).cleanup, (s,), o) ==> (*final(s)).keeps_outer(*s),
        ensures
            final(self).callable(),
            final(self).same_setup(*old(self)),
            final(self).result == old(self).result,
            final(self).lines == old(self).lines,
            final(self).abort == old(self).abort,
            final(self).calls@.len() >= old(self).calls@.len(),
            final(self).calls@.take(old(self).calls@.len() as int) == old(self).calls@,
            final(self).skip_flag == skip_fold(old(self).skip_flag, final(self).calls@.skip(old(self).calls@.len() as int)),
            ran_until_failure(final(self).calls@.skip(old(self).calls@.len() as int), ids@),
            final(self).calls@.len() == old(self).calls@.len() ==> final(self).store == old(self).store,
            r == match first_failure(final(self).calls@.skip(old(self).calls@.len() as int)) {
                Some(m) => Err::<(), String>(m),
                None => Ok(()),
            },
    {
        let ghost c0 = self.calls@;
        let mut i: usize = 0;
        assert(self.calls@.skip(c0.len() as int) =~= Seq::<(Call, Outcome)>::empty());
        while i < ids.len()
            invariant
                i <= ids@.len(),
                self.callable(),
                forall|i: int, s: &mut FixtureStore<V>, o: Outcome|
                    0 <= i < self.bodies@.len() && #[trigger] call_ensures(self.bodies@[i], (s,), o) ==> (*final(s)).keeps_outer(*s),
                forall|s: &mut FixtureStore<V>, o: Outcome| #[trigger] call_ensures(*self.cleanup, (s,), o) ==> (*final(s)).keeps_outer(*s),
                self.same_setup(*old(self)),
                self.result == old(self).result,
                self.lines == old(self).lines,
                self.abort == old(self).abort,
                self.calls@.take(c0.len() as int) == c0,
                self.skip_flag == skip_fold(old(self).skip_flag, self.calls@.skip(c0.len() as int)),
                c0 == old(self).calls@,
                self.calls@.len() == c0.len() + i,
                ran_all(self.calls@.skip(c0.len() as int), ids@.take(i as int)),
                forall|j: int| 0 <= j < i ==> !(#[trigger] self.calls@.skip(c0.len() as int)[j].1 is Fail),
                first_failure(self.calls@.skip(c0.len() as int)) is None,
                i == 0 ==> self.store == old(self).store,
            decreases ids@.len() - i,
        {
            let ghost before = self.calls@;
            let r = self.call(ids[i]);
            let ghost seg = self.calls@.skip(c0.len() as int);
            proof {
                let prev = before.skip(c0.len() as int);
                assert(seg =~= prev.push(self.calls@.last()));
                assert(seg.drop_last() =~= prev);
                assert(self.calls@.take(c0.len() as int) =~= before.take(c0.len() as int));
                lemma_first_failure_push(prev, self.calls@.last());
            }
            if r.is_err() {
                proof {
                    assert(ran_until_failure(seg, ids@)) by {
                        assert forall|j: int| 0 <= j < seg.len() implies #[trigger] seg[j].0 == Call::Body(ids@[j]) by {
                            if j < i {
                                assert(seg[j] == before.skip(c0.len() as int)[j]);
                                assert(ids@.take(i as int)[j] == ids@[j]);
                            }
                        }
                    }
                }
                return r;
            }
            proof {
                assert(ran_all(seg, ids@.take(i + 1))) by {
                    assert forall|j: int| 0 <= j < seg.len() implies #[trigger] seg[j].0 == Call::Body(ids@.take(i + 1)[j]) by {
                        if j < i {
                            assert(seg[j] == before.skip(c0.len() as int)[j]);
                            assert(ids@.take(i as int)[j] == ids@[j]);
                        }
                    }
                }
            }
            i = i + 1;
        }
        proof {
            assert(ids@.take(ids@.len() as int) =~= ids@);
        }
        Ok(())
    }

    /// Run every body of `ids` from last to first, each regardless of the
    /// others; the first failure is reported.
    pub(crate) fn run_all_reversed(&mut self, ids: &Vec<usize>) -> (r: Result<(), String>)
        requires
            old(self).callable(),
            forall|i: int, s: &mut FixtureStore<V>, o: Outcome|
                0 <= i < old(self).bodies@.len() && #[trigger] call_ensures(old(self).bodies@[i], (s,), o) ==> (*final(s)).keeps_outer(*s),
            forall|s: &mut FixtureStore<V>, o: Outcome| #[trigger] call_ensures(*old(self).cleanup, (s,), o) ==> (*final(s)).keeps_outer(*s),
        ensures
            final(self).callable(),
            final(self).same_setup(*old(self)),
            final(self).result == old(self).result,
            final(self).lines == old(self).lines,
            final(self).abort == old(self).abort,
            final(self).calls@.len() >= old(self).calls@.len(),
            final(self).calls@.take(old(self).calls@.len() as int) == old(self).calls@,
            final(self).skip_flag == skip_fold(old(self).skip_flag, final(self).calls@.skip(old(self).calls@.len() as int)),
            ran_all(final(self).calls@.skip(old(self).calls@.len() as int), ids@.reverse()),
            r == match first_failure(final(self).calls@.skip(old(self).calls@.len() as int)) {
                Some(m) => Err::<(), String>(m),
                None => Ok(()),
            },
    {
        let ghost c0 = self.calls@;
        let mut first: Option<String> = None;
        let mut i: usize = ids.len();
        assert(self.calls@.skip(c0.len() as int) =~= Seq::<(Call, Outcome)>::empty());
        assert(ids@.reverse().take(0) =~= Seq::<usize>::empty());
        while i > 0
            invariant
                i <= ids@.len(),
                self.callable(),
                forall|i: int, s: &mut FixtureStore<V>, o: Outcome|
                    0 <= i < self.bodies@.len() && #[trigger] call_ensures(self.bodies@[i], (s,), o) ==> (*final(s)).keeps_outer(*s),
                forall|s: &mut FixtureStore<V>, o: Outcome| #[trigger] call_ensures(*self.cleanup, (s,), o) ==> (*final(s)).keeps_outer(*s),
                self.same_setup(*old(self)),
                self.result == old(self).result,
                self.lines == old(self).lines,
                self.abort == old(self).abort,
                self.calls@.take(c0.len() as int) == c0,
                self.skip_flag == skip_fold(old(self).skip_flag, self.calls@.skip(c0.len() as int)),
                c0 == old(self).calls@,
                self.calls@.len() == c0.len() + (ids@.len() - i),
                ran_all(self.calls@.skip(c0.len() as int), ids@.reverse().take(ids@.len() - i)),
                first == first_failure(self.calls@.skip(c0.len() as int)),
            decreases i,
        {
            i = i - 1;
            let ghost before = self.calls@;
            let r = self.call(ids[i]);
            let ghost seg = self.calls@.skip(c0.len() as int);
            proof {
                let prev = before.skip(c0.len() as int);
                assert(seg =~= prev.push(self.calls@.last()));
                assert(seg.drop_last() =~= prev);
                assert(self.calls@.take(c0.len() as int) =~= before.take(c0.len() as int));
                lemma_first_failure_push(prev, self.calls@.last());
                let n = ids@.len() - i - 1;
                assert(ids@.reverse()[n] == ids@[i as int]);
                assert(ran_all(seg, ids@.reverse().take(n + 1))) by {
                    assert forall|j: int| 0 <= j < seg.len() implies #[trigger] seg[j].0 == Call::Body(ids@.reverse().take(n + 1)[j]) by {
                        if j < n {
                            assert(seg[j] == prev[j]);
                            assert(ids@.reverse().take(n)[j] == ids@.reverse()[j]);
                        }
                    }
                }
            }
            if first.is_none() {
                match r {
                    Err(m) => {
                        first = Some(m);
                    },
                    Ok(()) => {},
                }
            }
        }
        proof {
            assert(ids@.reverse().take(ids@.len() as int) =~= ids@.reverse());
        }
        match first {
            Some(m) => Err(m),
            None => Ok(()),
        }
    }
}

proof fn lemma_first_failure_push(seg: Seq<(Call, Outcome)>, c: (Call, Outcome))
    ensures
        first_failure(seg.push(c)) == match first_failure(seg) {
            Some(m) => Some(m),
            None => fail_msg(c.1),
        },
    decreases seg.len(),
{
    if seg.len() > 0 {
        assert(seg.push(c).drop_first() =~= seg.drop_first().push(c));
        assert(seg.push(c)[0] == seg[0]);
        lemma_first_failure_push(seg.drop_first(), c);
    } else {
        assert(seg.push(c).drop_first() =~= Seq::<(Call, Outcome)>::empty());
        assert(seg.push(c)[0] == c);
        assert(first_failure(Seq::<(Call, Outcome)>::empty()) is None);
    }
}


/// `seg` ends an attempt whose body part returned `rb`: the `after_each`
/// bodies `post`, innermost first, then the cleanups; `r` is the cleanups'
/// failure, else `rb`'s, else the first `after_each` failure.
pub open spec fn finish_trace(seg: Seq<(Call, Outcome)>, post: Seq<usize>, rb: Result<(), String>, r: Result<(), String>) -> bool {
    &&& seg.len() == post.len() + 1
    &&& ran_all(seg.take(post.len() as int), post.reverse())
    &&& seg.last().0 == Call::Cleanup
    &&& r == match fail_msg(seg.last().1) {
        Some(m) => Err(m),
        None => match rb {
            Err(m) => Err(m),
            Ok(()) => match first_failure(seg.take(post.len() as int)) {
                Some(m) => Err(m),
                None => Ok(()),
            },
        },
    }
}

/// The bodies run before and as the spec: `before_each`, `just_before_each`,
/// then the spec body.
pub open spec fn pre_ids(chain: HookChain, test: usize) -> Seq<usize> {
    chain.before_each@ + chain.just_before_each@ + seq![test]
}

impl<'a, V, B, K, L> Runner<'a, V, B, K, L> where
    B: Fn(&mut FixtureStore<V>) -> Outcome,
    K: Fn() -> u64,
    L: Fn(&mut FixtureStore<V>) -> Outcome,
 {
    /// The end of an attempt whose body part returned `rb`: every `after_each`
    /// hook of `post`, innermost first, even after a failure; then the deferred
    /// cleanups; then the per-test fixtures are cleared, whatever the cleanups
    /// reported.
    /// A cleanup failure takes precedence, then `rb`'s, then an `after_each`
    /// failure.
    pub fn finish_attempt(&mut self, post: &Vec<usize>, rb: Result<(), String>) -> (r: Result<(), String>)
        requires
            old(self).callable(),
            forall|i: int, s: &mut FixtureStore<V>, o: Outcome|
                0 <= i < old(self).bodies@.len() && #[trigger] call_ensures(old(self).bodies@[i], (s,), o) ==> (*final(s)).keeps_outer(*s),
            forall|s: &mut FixtureStore<V>, o: Outcome| #[trigger] call_ensures(*old(self).cleanup, (s,), o) ==> (*final(s)).keeps_outer(*s),
        ensures
            final(self).callable(),
            final(self).same_setup(*old(self)),
            final(self).result == old(self).result,
            final(self).lines == old(self).lines,
            final(self).abort == old(self).abort,
            final(self).calls@.len() >= old(self).calls@.len(),
            final(self).calls@.take(old(self).calls@.len() as int) == old(self).calls@,
            final(self).skip_flag == skip_fold(old(self).skip_flag, final(self).calls@.skip(old(self).calls@.len() as int)),
            finish_trace(final(self).calls@.skip(old(self).calls@.len() as int), post@, rb, r),
            final(self).store.per_test() == Map::<u64, V>::empty(),
    {
        let ghost c0 = self.calls@;
        let after_result = self.run_all_reversed(post);
        let ghost c1 = self.calls@;
        let cleanup_result = self.run_cleanup();
        let ghost c2 = self.calls@;
        self.store.clear_setup_values();
        proof {
            let seg = c2.skip(c0.len() as int);
            let b = c1.skip(c0.len() as int);
            assert(c1.take(c0.len() as int) == c0);
            assert(c2.drop_last() == c1);
            assert forall|i: int| 0 <= i < c1.len() implies c2[i] == c1[i] by {
                assert(c2[i] == c2.drop_last()[i]);
            }
            assert forall|i: int| 0 <= i < c0.len() implies c1[i] == c0[i] by {
                assert(c1[i] == c1.take(c0.len() as int)[i]);
            }
            assert(seg.take(post@.len() as int) =~= b);
            assert(seg.drop_last() =~= b);
            assert(c2.take(c0.len() as int) =~= c0);
            assert(seg.last() == c2.last());
        }
        match cleanup_result {
            Err(m) => Err(m),
            Ok(()) => match rb {
                Err(m) => Err(m),
                Ok(()) => after_result,
            },
        }
    }

    /// One attempt of a spec: `before_each` and `just_before_each` hooks and the
    /// body, stopping at the first failure; then the end of the attempt (see
    /// [`Self::finish_attempt`]).
    pub fn run_attempt(&mut self, chain: &HookChain, test: usize) -> (r: Result<(), String>)
        requires
            old(self).callable(),
            forall|i: int, s: &mut FixtureStore<V>, o: Outcome|
                0 <= i < old(self).bodies@.len() && #[trigger] call_ensures(old(self).bodies@[i], (s,), o) ==> (*final(s)).keeps_outer(*s),
            forall|s: &mut FixtureStore<V>, o: Outcome| #[trigger] call_ensures(*old(self).cleanup, (s,), o) ==> (*final(s)).keeps_outer(*s),
        ensures
            final(self).callable(),
            final(self).same_setup(*old(self)),
            final(self).result == old(self).result,
            final(self).lines == old(self).lines,
            final(self).abort == old(self).abort,
            final(self).calls@.len() >= old(self).calls@.len(),
            final(self).calls@.take(old(self).calls@.len() as int) == old(self).calls@,
            final(self).skip_flag == skip_fold(old(self).skip_flag, final(self).calls@.skip(old(self).calls@.len() as int)),
            exists|k: int| attempt_trace(
                final(self).calls@.skip(old(self).calls@.len() as int),
                pre_ids(*chain, test),
                chain.after_each@,
                k,
                r,
            ),
            final(self).store.per_test() == Map::<u64, V>::empty(),
    {
        let ghost c0 = self.calls@;
        let mut pre: Vec<usize> = Vec::new();
        extend_ids(&mut pre, &chain.before_each);
        extend_ids(&mut pre, &chain.just_before_each);
        pre.push(test);
        assert(pre@ =~= pre_ids(*chain, test));
        let body_result = self.run_until_failure(&pre);
        let ghost c1 = self.calls@;
        let ghost rb = body_result;
        let r = self.finish_attempt(&chain.after_each, body_result);
        let ghost c2 = self.calls@;
        proof {
            let seg = c2.skip(c0.len() as int);
            let a = c1.skip(c0.len() as int);
            let f = c2.skip(c1.len() as int);
            let k = a.len() as int;
            let n = chain.after_each@.len() as int;
            assert(c1.take(c0.len() as int) == c0);
            assert(c2.take(c1.len() as int) == c1);
            assert forall|i: int| 0 <= i < c0.len() implies c1[i] == c0[i] by {
                assert(c1[i] == c1.take(c0.len() as int)[i]);
            }
            assert forall|i: int| 0 <= i < c1.len() implies c2[i] == c1[i] by {
                assert(c2[i] == c2.take(c1.len() as int)[i]);
            }
            assert(seg =~= a + f);
            lemma_skip_fold_concat(old(self).skip_flag, a, f);
            assert(seg.take(k) =~= a);
            assert(seg.subrange(k, k + n) =~= f.take(n));
            assert(c2.take(c0.len() as int) =~= c0);
            assert(seg.last() == f.last());
            assert(attempt_trace(seg, pre_ids(*chain, test), chain.after_each@, k, r));
        }
        r
    }
}


/// The number of attempts a spec gets: one, plus the retries.
pub open spec fn max_attempts(retries: Option<u32>) -> nat {
    match retries {
        None => 1,
        Some(n) => n as nat + 1,
    }
}

/// `seg` is `m` attempts (see [`attempt_trace`]), one after another, each
/// of which failed.
pub open spec fn failed_attempts(seg: Seq<(Call, Outcome)>, pre: Seq<usize>, post: Seq<usize>, m: nat) -> bool
    decreases m,
{
    if m == 0 {
        seg.len() == 0
    } else {
        exists|j: int, k: int, e: String|
            #[trigger] attempt_trace(seg.skip(j), pre, post, k, Err(e))
                && 0 <= j <= seg.len()
                && failed_attempts(seg.take(j), pre, post, (m - 1) as nat)
    }
}

/// `seg` is one retried run of a spec that returned `r`: attempts one after
/// another, every one but the last failing, the last returning `r`; the last
/// one passed or was attempt number `max`.
pub open spec fn tries(seg: Seq<(Call, Outcome)>, pre: Seq<usize>, post: Seq<usize>, max: nat, r: Result<(), String>) -> bool {
    exists|j: int, k: int, m: nat|
        #![trigger attempt_trace(seg.skip(j), pre, post, k, r), failed_attempts(seg.take(j), pre, post, m)]
        0 <= j <= seg.len()
            && failed_attempts(seg.take(j), pre, post, m)
            && attempt_trace(seg.skip(j), pre, post, k, r)
            && m + 1 <= max
            && (r is Err ==> m + 1 == max)
}

/// `seg` is `n` retried runs (see [`tries`]), one after another, each of
/// which passed.
pub open spec fn passed_rounds(seg: Seq<(Call, Outcome)>, pre: Seq<usize>, post: Seq<usize>, max: nat, n: nat) -> bool
    decreases n,
{
    if n == 0 {
        seg.len() == 0
    } else {
        exists|j: int|
            #[trigger] tries(seg.skip(j), pre, post, max, Ok(()))
                && 0 <= j <= seg.len()
                && passed_rounds(seg.take(j), pre, post, max, (n - 1) as nat)
    }
}

/// `seg` is the repeated run of a spec that returned `r`: retried runs one
/// after another, every one but the last passing, the last returning `r`;
/// the last one failed or was run number `n`.
pub open spec fn repeated(seg: Seq<(Call, Outcome)>, pre: Seq<usize>, post: Seq<usize>, max: nat, n: nat, r: Result<(), String>) -> bool {
    exists|j: int, m: nat|
        #![trigger tries(seg.skip(j), pre, post, max, r), passed_rounds(seg.take(j), pre, post, max, m)]
        0 <= j <= seg.len()
            && passed_rounds(seg.take(j), pre, post, max, m)
            && tries(seg.skip(j), pre, post, max, r)
            && m + 1 <= n
            && (r is Ok ==> m + 1 == n)
}

proof fn lemma_rounds_step(
    prev: Seq<(Call, Outcome)>,
    blk: Seq<(Call, Outcome)>,
    pre: Seq<usize>,
    post: Seq<usize>,
    max: nat,
    m: nat,
)
    requires
        passed_rounds(prev, pre, post, max, m),
        tries(blk, pre, post, max, Ok(())),
    ensures
        passed_rounds(prev + blk, pre, post, max, m + 1),
{
    let seg = prev + blk;
    let i0 = prev.len() as int;
    assert(seg.skip(i0) =~= blk);
    assert(seg.take(i0) =~= prev);
}

proof fn lemma_repeated_close(
    prev: Seq<(Call, Outcome)>,
    blk: Seq<(Call, Outcome)>,
    pre: Seq<usize>,
    post: Seq<usize>,
    max: nat,
    n: nat,
    m: nat,
    r: Result<(), String>,
)
    requires
        passed_rounds(prev, pre, post, max, m),
        tries(blk, pre, post, max, r),
        m + 1 <= n,
        r is Ok ==> m + 1 == n,
    ensures
        repeated(prev + blk, pre, post, max, n, r),
{
    let seg = prev + blk;
    let i0 = prev.len() as int;
    assert(seg.skip(i0) =~= blk);
    assert(seg.take(i0) =~= prev);
}

/// The number of passing runs `must_pass_repeatedly` asks for (one when
/// unset).
pub open spec fn rounds_of(must: Option<u32>) -> nat {
    match must {
        None => 1,
        Some(n) => n as nat,
    }
}

/// The message of an unusable `must_pass_repeatedly(0)`.
pub open spec fn zero_repeat_msg() -> Seq<char> {
    "rsspec: must_pass_repeatedly requires n >= 1"@
}

impl<'a, V, B, K, L> Runner<'a, V, B, K, L> where
    B: Fn(&mut FixtureStore<V>) -> Outcome,
    K: Fn() -> u64,
    L: Fn(&mut FixtureStore<V>) -> Outcome,
 {
    /// Attempt the spec until an attempt passes, at most `max_attempts(retries)`
    /// times (see [`tries`]); the last attempt's result is the result. The
    /// per-test fixtures are cleared after every attempt.
    pub fn run_retries(&mut self, retries: Option<u32>, chain: &HookChain, test: usize) -> (r: Result<(), String>)
        requires
            old(self).callable(),
            forall|i: int, s: &mut FixtureStore<V>, o: Outcome|
                0 <= i < old(self).bodies@.len() && #[trigger] call_ensures(old(self).bodies@[i], (s,), o) ==> (*final(s)).keeps_outer(*s),
            forall|s: &mut FixtureStore<V>, o: Outcome| #[trigger] call_ensures(*old(self).cleanup, (s,), o) ==> (*final(s)).keeps_outer(*s),
        ensures
            final(self).callable(),
            final(self).same_setup(*old(self)),
            final(self).result == old(self).result,
            final(self).lines == old(self).lines,
            final(self).abort == old(self).abort,
            final(self).calls@.len() > old(self).calls@.len(),
            final(self).calls@.take(old(self).calls@.len() as int) == old(self).calls@,
            final(self).skip_flag == skip_fold(old(self).skip_flag, final(self).calls@.skip(old(self).calls@.len() as int)),
            tries(final(self).calls@.skip(old(self).calls@.len() as int), pre_ids(*chain, test), chain.after_each@, max_attempts(retries), r),
            final(self).store.per_test() == Map::<u64, V>::empty(),
    {
        let ghost c0 = self.calls@;
        let ghost pre = pre_ids(*chain, test);
        let ghost post = chain.after_each@;
        let max: u64 = match retries {
            None => 1,
            Some(n) => n as u64 + 1,
        };
        let mut attempt: u64 = 0;
        assert(self.calls@.skip(c0.len() as int) =~= Seq::<(Call, Outcome)>::empty());
        assert(self.calls@.take(c0.len() as int) =~= c0);
        loop
            invariant
                max == max_attempts(retries),
                attempt < max,
                self.callable(),
                forall|i: int, s: &mut FixtureStore<V>, o: Outcome|
                    0 <= i < self.bodies@.len() && #[trigger] call_ensures(self.bodies@[i], (s,), o) ==> (*final(s)).keeps_outer(*s),
                forall|s: &mut FixtureStore<V>, o: Outcome| #[trigger] call_ensures(*self.cleanup, (s,), o) ==> (*final(s)).keeps_outer(*s),
                self.same_setup(*old(self)),
                self.result == old(self).result,
                self.lines == old(self).lines,
                self.abort == old(self).abort,
                c0 == old(self).calls@,
                pre == pre_ids(*chain, test),
                post == chain.after_each@,
                self.calls@.len() >= c0.len(),
                self.calls@.take(c0.len() as int) == c0,
                self.skip_flag == skip_fold(old(self).skip_flag, self.calls@.skip(c0.len() as int)),
                failed_attempts(self.calls@.skip(c0.len() as int), pre, post, attempt as nat),
            decreases max - attempt,
        {
            let ghost before = self.calls@;
            let r = self.run_attempt(chain, test);
            let ghost prev = before.skip(c0.len() as int);
            let ghost att = self.calls@.skip(before.len() as int);
            let ghost seg = self.calls@.skip(c0.len() as int);
            proof {
                assert forall|i: int| 0 <= i < before.len() implies self.calls@[i] == before[i] by {
                    assert(self.calls@[i] == self.calls@.take(before.len() as int)[i]);
                }
                assert(seg =~= prev + att);
                lemma_skip_fold_concat(old(self).skip_flag, prev, att);
                assert(self.calls@.take(c0.len() as int) =~= c0) by {
                    assert forall|i: int| 0 <= i < c0.len() implies self.calls@[i] == c0[i] by {
                        assert(before[i] == before.take(c0.len() as int)[i]);
                    }
                }
                let i0 = prev.len() as int;
                assert(seg.skip(i0) =~= att);
                assert(seg.take(i0) =~= prev);
                assert(self.calls@.last() == att.last());
            }
            let ghost k = choose|k: int| attempt_trace(att, pre, post, k, r);
            if r.is_ok() || attempt + 1 == max {
                proof {
                    let i0 = prev.len() as int;
                    assert(attempt_trace(seg.skip(i0), pre, post, k, r));
                    assert(failed_attempts(seg.take(i0), pre, post, attempt as nat));
                    assert(tries(seg, pre, post, max_attempts(retries), r));
                }
                return r;
            }
            proof {
                let i0 = prev.len() as int;
                let e = r->Err_0;
                assert(r == Err::<(), String>(e));
                assert(attempt_trace(seg.skip(i0), pre, post, k, Err(e)));
                assert(failed_attempts(seg.take(i0), pre, post, attempt as nat));
                assert(failed_attempts(seg, pre, post, (attempt + 1) as nat));
            }
            attempt = attempt + 1;
        }
    }

    /// Run the retried spec `n` consecutive times (once when `must` is
    /// `None`), stopping at the first failing run (see [`repeated`]).
    /// `Some(0)` is a misuse: the spec fails with [`zero_repeat_msg`] without
    /// a call (the intended answer to that count: the spec fails with this
    /// message and nothing runs). Otherwise the per-test fixtures are cleared
    /// after every attempt.
    #[verifier::rlimit(40)]
    pub fn run_repeated(&mut self, must: Option<u32>, retries: Option<u32>, chain: &HookChain, test: usize) -> (r: Result<(), String>)
        requires
            old(self).callable(),
            forall|i: int, s: &mut FixtureStore<V>, o: Outcome|
                0 <= i < old(self).bodies@.len() && #[trigger] call_ensures(old(self).bodies@[i], (s,), o) ==> (*final(s)).keeps_outer(*s),
            forall|s: &mut FixtureStore<V>, o: Outcome| #[trigger] call_ensures(*old(self).cleanup, (s,), o) ==> (*final(s)).keeps_outer(*s),
        ensures
            final(self).callable(),
            final(self).same_setup(*old(self)),
            final(self).result == old(self).result,
            final(self).lines == old(self).lines,
            final(self).abort == old(self).abort,
            final(self).calls@.len() >= old(self).calls@.len(),
            final(self).calls@.take(old(self).calls@.len() as int) == old(self).calls@,
            final(self).skip_flag == skip_fold(old(self).skip_flag, final(self).calls@.skip(old(self).calls@.len() as int)),
            must == Some(0u32) ==> (r matches Err(m) && m@ == zero_repeat_msg() && final(self).calls@ == old(self).calls@
                && final(self).store == old(self).store),
            must != Some(0u32) ==> {
                &&& final(self).calls@.len() > old(self).calls@.len()
                &&& repeated(
                    final(self).calls@.skip(old(self).calls@.len() as int),
                    pre_ids(*chain, test),
                    chain.after_each@,
                    max_attempts(retries),
                    rounds_of(must),
                    r,
                )
                &&& final(self).store.per_test() == Map::<u64, V>::empty()
            },
    {
        let n: u32 = match must {
            None => 1,
            Some(n) => n,
        };
        if n == 0 {
            assert(self.calls@.take(self.calls@.len() as int) =~= self.calls@);
            return Err(string_from("rsspec: must_pass_repeatedly requires n >= 1"));
        }
        let ghost c0 = self.calls@;
        let ghost pre = pre_ids(*chain, test);
        let ghost post = chain.after_each@;
        let ghost max = max_attempts(retries);
        let mut round: u32 = 0;
        assert(self.calls@.skip(c0.len() as int) =~= Seq::<(Call, Outcome)>::empty());
        assert(self.calls@.take(c0.len() as int) =~= c0);
        loop
            invariant
                1 <= n,
                n == rounds_of(must),
                round < n,
                must != Some(0u32),
                self.callable(),
                forall|i: int, s: &mut FixtureStore<V>, o: Outcome|
                    0 <= i < self.bodies@.len() && #[trigger] call_ensures(self.bodies@[i], (s,), o) ==> (*final(s)).keeps_outer(*s),
                forall|s: &mut FixtureStore<V>, o: Outcome| #[trigger] call_ensures(*self.cleanup, (s,), o) ==> (*final(s)).keeps_outer(*s),
                self.same_setup(*old(self)),
                self.result == old(self).result,
                self.lines == old(self).lines,
                self.abort == old(self).abort,
                c0 == old(self).calls@,
                pre == pre_ids(*chain, test),
                post == chain.after_each@,
                max == max_attempts(retries),
                self.calls@.len() >= c0.len(),
                self.calls@.take(c0.len() as int) == c0,
                self.skip_flag == skip_fold(old(self).skip_flag, self.calls@.skip(c0.len() as int)),
                passed_rounds(self.calls@.skip(c0.len() as int), pre, post, max, round as nat),
            decreases n - round,
        {
            let ghost before = self.calls@;
            let r = self.run_retries(retries, chain, test);
            let ghost prev = before.skip(c0.len() as int);
            let ghost blk = self.calls@.skip(before.len() as int);
            let ghost seg = self.calls@.skip(c0.len() as int);
            proof {
                assert forall|i: int| 0 <= i < before.len() implies self.calls@[i] == before[i] by {
                    assert(self.calls@[i] == self.calls@.take(before.len() as int)[i]);
                }
                assert(seg =~= prev + blk);
                lemma_skip_fold_concat(old(self).skip_flag, prev, blk);
                assert(self.calls@.take(c0.len() as int) =~= c0) by {
                    assert forall|i: int| 0 <= i < c0.len() implies self.calls@[i] == c0[i] by {
                        assert(before[i] == before.take(c0.len() as int)[i]);
                    }
                }
                let i0 = prev.len() as int;
                assert(seg.skip(i0) =~= blk);
                assert(seg.take(i0) =~= prev);
            }
            if r.is_err() || round + 1 == n {
                proof {
                    lemma_repeated_close(prev, blk, pre, post, max, n as nat, round as nat, r);
                }
                return r;
            }
            proof {
                lemma_rounds_step(prev, blk, pre, post, max, round as nat);
            }
            round = round + 1;
        }
    }
}

/// Within an attempt, a failing body part (a `before_each`,
/// `just_before_each` or the spec body) is what the attempt reports, even when
/// an `after_each` hook fails too; only a cleanup failure takes precedence.
pub proof fn law_body_failure_wins_over_after_each(
    seg: Seq<(Call, Outcome)>,
    pre: Seq<usize>,
    post: Seq<usize>,
    k: int,
    r: Result<(), String>,
    m: String,
)
    requires
        attempt_trace(seg, pre, post, k, r),
        !(seg.last().1 is Fail),
        first_failure(seg.take(k)) == Some(m),
    ensures
        r == Err::<(), String>(m),
{
}

/// Every `after_each` hook runs in every attempt, innermost first, whatever
/// the hooks before it or the spec body did; and the cleanups run last.
pub proof fn law_after_each_always_runs(seg: Seq<(Call, Outcome)>, pre: Seq<usize>, post: Seq<usize>, k: int, r: Result<(), String>)
    requires
        attempt_trace(seg, pre, post, k, r),
    ensures
        forall|j: int| 0 <= j < post.len() ==> #[trigger] seg[k + j].0 == Call::Body(post[post.len() - 1 - j]),
        seg.last().0 == Call::Cleanup,
{
    assert forall|j: int| 0 <= j < post.len() implies #[trigger] seg[k + j].0 == Call::Body(post[post.len() - 1 - j]) by {
        assert(seg.subrange(k, k + post.len())[j] == seg[k + j]);
        assert(post.reverse()[j] == post[post.len() - 1 - j]);
    }
}

/// A failing body part stops it: the hooks and body after the first failure
/// are not called in that attempt.
pub proof fn law_body_part_stops_at_first_failure(
    seg: Seq<(Call, Outcome)>,
    pre: Seq<usize>,
    post: Seq<usize>,
    k: int,
    r: Result<(), String>,
    j: int,
)
    requires
        attempt_trace(seg, pre, post, k, r),
        0 <= j < k,
        seg[j].1 is Fail,
    ensures
        j == k - 1,
{
    assert(seg.take(k)[j] == seg[j]);
    if j < k - 1 {
        assert(!(seg.take(k)[j].1 is Fail));
    }
}

/// Merging results adds their counters and keeps the failure descriptions in
/// order.
pub proof fn law_merge_adds(a: RunResult, b: RunResult, m: RunResult)
    requires
        m.passed == a.passed + b.passed,
        m.failed == a.failed + b.failed,
        m.pending == a.pending + b.pending,
        m.skipped == a.skipped + b.skipped,
        m.failures@ == a.failures@ + b.failures@,
        a.wf(),
        b.wf(),
    ensures
        m.total() == a.total() + b.total(),
        m.wf(),
{
}


/// The result of running deferred cleanups that reported `os`, in the order
/// they ran: the first failure, else a pass.
pub open spec fn first_fail(os: Seq<Outcome>) -> Outcome
    decreases os.len(),
{
    if os.len() == 0 {
        Outcome::Pass
    } else {
        match os[0] {
            Outcome::Fail(m) => Outcome::Fail(m),
            _ => first_fail(os.drop_first()),
        }
    }
}

proof fn lemma_first_fail_push(os: Seq<Outcome>, o: Outcome)
    ensures
        first_fail(os.push(o)) == (match first_fail(os) {
            Outcome::Fail(m) => Outcome::Fail(m),
            _ => match o {
                Outcome::Fail(m) => Outcome::Fail(m),
                _ => Outcome::Pass,
            },
        }),
    decreases os.len(),
{
    if os.len() > 0 {
        assert(os.push(o)[0] == os[0]);
        assert(os.push(o).drop_first() =~= os.drop_first().push(o));
        lemma_first_fail_push(os.drop_first(), o);
        if !(os[0] is Fail) {
            assert(first_fail(os) == first_fail(os.drop_first()));
            assert(first_fail(os.push(o)) == first_fail(os.drop_first().push(o)));
        }
    } else {
        assert(os.push(o)[0] == o);
        assert(os.push(o).drop_first() =~= Seq::<Outcome>::empty());
        assert(first_fail(os) == Outcome::Pass);
        assert(first_fail(os.push(o).drop_first()) == Outcome::Pass);
        if o is Fail {
            assert(first_fail(os.push(o)) == o);
        } else {
            assert(first_fail(os.push(o)) == first_fail(os.push(o).drop_first()));
        }
    }
}

/// Run deferred cleanups, the last registered first; every one runs, and the
/// result is the first failure among them (in the order they ran), else a
/// pass.
pub fn run_cleanups<C: FnOnce() -> Outcome>(stack: Vec<C>) -> (r: Outcome)
    requires
        forall|i: int| 0 <= i < stack@.len() ==> call_requires(#[trigger] stack@[i], ()),
    ensures
        exists|os: Seq<Outcome>|
            os.len() == stack@.len() && (forall|k: int|
                0 <= k < stack@.len() ==> call_ensures(#[trigger] stack@[stack@.len() - 1 - k], (), os[k])) && r
                == first_fail(os),
{
    let ghost all = stack@;
    let mut rest = stack;
    let ghost mut os: Seq<Outcome> = Seq::empty();
    let mut first: Option<String> = None;
    while rest.len() > 0
        invariant
            rest@ == all.take(all.len() - os.len()),
            os.len() <= all.len(),
            forall|i: int| 0 <= i < all.len() ==> call_requires(#[trigger] all[i], ()),
            forall|k: int| 0 <= k < os.len() ==> call_ensures(#[trigger] all[all.len() - 1 - k], (), os[k]),
            match first {
                Some(m) => first_fail(os) == Outcome::Fail(m),
                None => !(first_fail(os) is Fail),
            },
        decreases rest@.len(),
    {
        let ghost n = os.len();
        let c = rest.pop().unwrap();
        assert(c == all[all.len() - 1 - n]);
        let o = c();
        proof {
            lemma_first_fail_push(os, o);
            os = os.push(o);
            assert(rest@ =~= all.take(all.len() - os.len()));
        }
        if first.is_none() {
            match o {
                Outcome::Fail(m) => {
                    first = Some(m);
                },
                _ => {},
            }
        }
    }
    assert(os.len() == all.len());
    let r = match first {
        Some(m) => Outcome::Fail(m),
        None => {
            proof {
                lemma_first_fail_pass(os);
            }
            Outcome::Pass
        },
    };
    assert(r == first_fail(os));
    r
}

proof fn lemma_first_fail_pass(os: Seq<Outcome>)
    requires
        !(first_fail(os) is Fail),
    ensures
        first_fail(os) == Outcome::Pass,
    decreases os.len(),
{
    if os.len() > 0 {
        if !(os[0] is Fail) {
            lemma_first_fail_pass(os.drop_first());
        }
    }
}

} // verus!
