//! The walk over the test tree: what becomes of each spec, ordered block and
//! group, and what the run reports for it.
//!
//! A spec is first held against the path filter, its pending mark, focus mode,
//! the focus guard and the label filter (see [`fate`]); a spec that passes all
//! of them runs through [`Runner::run_repeated`] under its timeout.
use vstd::prelude::*;
use crate::filter::{filter_accepts, labels_match_chars, seqs};
use crate::fixtures::FixtureStore;
use crate::runner::{
    reading, concat, attempt_trace, failed_attempts, max_attempts, passed_rounds, repeated, rounds_of, tries, finish_trace, first_failure, pre_ids, ran_all, ran_until_failure,
    lines_view, skip_fold, timeout_msg, zero_repeat_msg, Call, HookChain, HookPhase, Line, LineView,
    Outcome, RunConfig, RunResult, Runner,
};
use crate::text::{chars_of, contains_seq, has_substring, join, join_strings, lowercase, string_from, string_of, to_lower, views};
use crate::tree::{leaves_from, node_leaves, OrderedStep, TestNode};
use crate::trials::{decimal, decimal_chars};

verus! {

/// The path of a node named `name` under the groups `path`: the names joined
/// by `" > "`.
pub open spec fn full_path(path: Seq<Seq<char>>, name: Seq<char>) -> Seq<char> {
    join(path.push(name), " > "@)
}

/// The path filter admits a spec at path `p`: no filter, or the lowercased
/// path contains the lowercased filter.
pub open spec fn path_admits(filter: Option<String>, p: Seq<char>) -> bool {
    match filter {
        None => true,
        Some(f) => has_substring(lowercase(p), lowercase(f@)),
    }
}

/// The label filter of a configuration, as characters.
pub open spec fn label_filter_of(cfg: RunConfig) -> Option<Seq<char>> {
    match cfg.label_filter {
        Some(f) => Some(f@),
        None => None,
    }
}

/// What becomes of a spec or ordered block.
pub enum Fate {
    /// Its path does not contain the path filter: nothing is reported.
    Filtered,
    /// It is pending: reported as pending.
    Pending,
    /// Something else is focused and it is not: counted as skipped.
    Ignored,
    /// It is focused while the focus guard is on: the run is aborted.
    Refused,
    /// Its labels do not match the label filter: nothing is reported.
    Unlabeled,
    /// It runs.
    Runs,
}

/// The fate of a spec at path `p` with the given marks and labels `ls`
/// (its groups' labels, then its own).
pub open spec fn fate(cfg: RunConfig, focus_mode: bool, p: Seq<char>, pending: bool, focused: bool, ls: Seq<Seq<char>>) -> Fate {
    if !path_admits(cfg.filter, p) {
        Fate::Filtered
    } else if pending {
        Fate::Pending
    } else if focus_mode && !focused && !cfg.include_ignored {
        Fate::Ignored
    } else if focused && focus_mode && cfg.fail_on_focus {
        Fate::Refused
    } else if !filter_accepts(ls, label_filter_of(cfg)) {
        Fate::Unlabeled
    } else {
        Fate::Runs
    }
}

/// Why a run with a focused spec is refused under the focus guard.
pub open spec fn focus_refusal() -> Seq<char> {
    "rsspec: focused tests detected but RSSPEC_FAIL_ON_FOCUS is set. Remove fit/fdescribe/fcontext before pushing."@
}

/// The failure of a spec that outlived its timeout of `ms` milliseconds,
/// given what the spec itself returned.
pub open spec fn timeout_text(ms: u64, r: Result<(), String>) -> Seq<char> {
    match r {
        Err(m) => timeout_msg(ms) + " (original error: "@ + m@ + ")"@,
        Ok(()) => timeout_msg(ms),
    }
}

/// `rf` is what a spec under timeout `t` reports when its runs returned `rb`
/// after `el` milliseconds: the timeout failure when it took longer than the
/// timeout, else `rb` itself.
pub open spec fn timed(t: Option<u64>, rb: Result<(), String>, el: u64, rf: Result<(), String>) -> bool {
    match t {
        Some(ms) => if el > ms {
            rf matches Err(m) && m@ == timeout_text(ms, rb)
        } else {
            rf == rb
        },
        None => rf == rb,
    }
}

/// The milliseconds from the reading `t0` to the reading `t1` (none when the
/// clock went back).
pub open spec fn elapsed(t0: u64, t1: u64) -> u64 {
    if t1 >= t0 {
        (t1 - t0) as u64
    } else {
        0
    }
}

/// `seg` starts and ends with a reading of the clock.
pub open spec fn clocked(seg: Seq<(Call, Outcome)>) -> bool {
    &&& seg.len() >= 2
    &&& seg[0].0 is Clock && seg[0].1 is Pass
    &&& seg.last().0 is Clock && seg.last().1 is Pass
}

/// The calls of `seg` between its first and its last.
pub open spec fn inner(seg: Seq<(Call, Outcome)>) -> Seq<(Call, Outcome)> {
    seg.subrange(1, seg.len() - 1)
}

/// The milliseconds between the first and the last reading of `seg`.
pub open spec fn span(seg: Seq<(Call, Outcome)>) -> u64 {
    elapsed(reading(seg[0].0), reading(seg.last().0))
}

/// The calls `seg` are the runs of a spec (body `test`, repeated `must` times
/// and retried `retries` times, inside the hooks of `chain`) that returned `r`
/// (see [`repeated`]); `must_pass_repeatedly(0)` makes no call and fails.
pub open spec fn spec_runs(
    seg: Seq<(Call, Outcome)>,
    must: Option<u32>,
    retries: Option<u32>,
    chain: HookChain,
    test: usize,
    r: Result<(), String>,
) -> bool {
    if must == Some(0u32) {
        &&& seg.len() == 0
        &&& r matches Err(m) && m@ == zero_repeat_msg()
    } else {
        repeated(seg, pre_ids(chain, test), chain.after_each@, max_attempts(retries), rounds_of(must), r)
    }
}

/// `after` counts `d` more of each kind than `before` (passed, failed,
/// pending, skipped).
pub open spec fn bumped(before: RunResult, after: RunResult, d: (nat, nat, nat, nat)) -> bool {
    &&& after.passed == before.passed + d.0
    &&& after.failed == before.failed + d.1
    &&& after.pending == before.pending + d.2
    &&& after.skipped == before.skipped + d.3
}

/// The labels of the groups, then `own`.
fn labels_with(chain: &Vec<Vec<char>>, own: &Vec<String>) -> (r: Vec<Vec<char>>)
    ensures
        seqs(r@) == seqs(chain@) + views(own@),
{
    let mut r: Vec<Vec<char>> = Vec::new();
    let mut i: usize = 0;
    while i < chain.len()
        invariant
            i <= chain@.len(),
            seqs(r@) == seqs(chain@.take(i as int)),
        decreases chain@.len() - i,
    {
        let c = chars_of(string_of(&chain[i]).as_str());
        let ghost before = r@;
        r.push(c);
        assert(seqs(r@) =~= seqs(before).push(chain@[i as int]@));
        assert(seqs(chain@.take(i + 1)) =~= seqs(chain@.take(i as int)).push(chain@[i as int]@));
        i = i + 1;
    }
    assert(chain@.take(chain@.len() as int) =~= chain@);
    let ghost base = r@;
    let mut j: usize = 0;
    while j < own.len()
        invariant
            j <= own@.len(),
            seqs(base) == seqs(chain@),
            seqs(r@) == seqs(base) + views(own@.take(j as int)),
        decreases own@.len() - j,
    {
        let c = chars_of(own[j].as_str());
        let ghost before = r@;
        r.push(c);
        assert(seqs(r@) =~= seqs(before).push(own@[j as int]@));
        assert(views(own@.take(j + 1)) =~= views(own@.take(j as int)).push(own@[j as int]@));
        j = j + 1;
    }
    assert(own@.take(own@.len() as int) =~= own@);
    r
}

/// The path of a node named `name` under `path`.
fn full_path_of(path: &Vec<String>, name: &String) -> (r: String)
    ensures
        r@ == full_path(views(path@), name@),
{
    let mut parts: Vec<String> = Vec::new();
    let mut i: usize = 0;
    while i < path.len()
        invariant
            i <= path@.len(),
            views(parts@) == views(path@.take(i as int)),
        decreases path@.len() - i,
    {
        let s = string_from(path[i].as_str());
        let ghost before = parts@;
        parts.push(s);
        assert(views(parts@) =~= views(before).push(path@[i as int]@));
        assert(views(path@.take(i + 1)) =~= views(path@.take(i as int)).push(path@[i as int]@));
        i = i + 1;
    }
    assert(path@.take(path@.len() as int) =~= path@);
    let ghost before = parts@;
    parts.push(string_from(name.as_str()));
    assert(views(parts@) =~= views(before).push(name@));
    join_strings(&parts, " > ")
}

/// Whether the path filter admits the path `p`.
fn admits(filter: &Option<String>, p: &String) -> (r: bool)
    ensures
        r == path_admits(*filter, p@),
{
    match filter {
        None => true,
        Some(f) => {
            let a = chars_of(to_lower(p.as_str()).as_str());
            let b = chars_of(to_lower(f.as_str()).as_str());
            contains_seq(&a, &b)
        },
    }
}

/// The failure of a spec that outlived its timeout.
fn timeout_text_of(ms: u64, r: &Result<(), String>) -> (s: String)
    ensures
        s@ == timeout_text(ms, *r),
{
    let d = string_of(&decimal_chars(ms));
    let mut s = concat("test timed out after ", d.as_str());
    s.append("ms");
    match r {
        Err(m) => {
            s.append(" (original error: ");
            s.append(m.as_str());
            s.append(")");
        },
        Ok(()) => {},
    }
    s
}


/// The number of calls in `seg` that failed.
pub open spec fn fail_count(seg: Seq<(Call, Outcome)>) -> nat
    decreases seg.len(),
{
    if seg.len() == 0 {
        0
    } else {
        fail_count(seg.drop_last()) + if seg.last().1 is Fail {
            1nat
        } else {
            0nat
        }
    }
}

/// The failure of an ordered block run to the end with `k` of its `n` steps
/// failing.
pub open spec fn steps_msg(k: nat, n: nat) -> Seq<char> {
    decimal(k) + " of "@ + decimal(n) + " ordered steps failed"@
}

/// The bodies of the steps, in order.
pub open spec fn step_bodies(steps: Seq<OrderedStep>) -> Seq<usize> {
    steps.map_values(|st: OrderedStep| st.body)
}

/// The body part of an ordered block made the calls `seg` and returned `rb`:
/// the hooks `hooks` then the steps, all stopping at the first failure; or,
/// with `cont`, the hooks stopping at the first failure and then, if none
/// failed, every step, failing with how many of them failed.
pub open spec fn ordered_body(seg: Seq<(Call, Outcome)>, hooks: Seq<usize>, steps: Seq<usize>, cont: bool, rb: Result<(), String>) -> bool {
    if !cont {
        &&& ran_until_failure(seg, hooks + steps)
        &&& rb == match first_failure(seg) {
            Some(m) => Err::<(), String>(m),
            None => Ok(()),
        }
    } else {
        exists|k: int|
            0 <= k <= seg.len() && #[trigger] ran_until_failure(seg.take(k), hooks) && match first_failure(seg.take(k)) {
                Some(m) => k == seg.len() && rb == Err::<(), String>(m),
                None => {
                    &&& ran_all(seg.skip(k), steps)
                    &&& if fail_count(seg.skip(k)) == 0 {
                        rb is Ok
                    } else {
                        rb matches Err(m) && m@ == steps_msg(fail_count(seg.skip(k)), steps.len())
                    }
                },
            }
    }
}

/// The calls `seg` are one run of an ordered block inside the hooks of
/// `chain`, which returned `r`: the body part, then the end of the attempt.
pub open spec fn ordered_runs(seg: Seq<(Call, Outcome)>, chain: HookChain, steps: Seq<usize>, cont: bool, r: Result<(), String>) -> bool {
    exists|j: int, rb: Result<(), String>|
        0 <= j <= seg.len() && #[trigger] ordered_body(seg.take(j), chain.before_each@ + chain.just_before_each@, steps, cont, rb)
            && finish_trace(seg.skip(j), chain.after_each@, rb, r)
}

proof fn lemma_fail_count_push(seg: Seq<(Call, Outcome)>, c: (Call, Outcome))
    ensures
        fail_count(seg.push(c)) == fail_count(seg) + if c.1 is Fail {
            1nat
        } else {
            0nat
        },
{
    assert(seg.push(c).drop_last() =~= seg);
}

proof fn lemma_fail_count_bound(seg: Seq<(Call, Outcome)>)
    ensures
        fail_count(seg) <= seg.len(),
    decreases seg.len(),
{
    if seg.len() > 0 {
        lemma_fail_count_bound(seg.drop_last());
    }
}

/// The body of each step, in order.
fn step_ids(steps: &Vec<OrderedStep>) -> (r: Vec<usize>)
    ensures
        r@ == step_bodies(steps@),
{
    let mut r: Vec<usize> = Vec::new();
    let mut i: usize = 0;
    while i < steps.len()
        invariant
            i <= steps@.len(),
            r@ == step_bodies(steps@.take(i as int)),
        decreases steps@.len() - i,
    {
        r.push(steps[i].body);
        assert(step_bodies(steps@.take(i + 1)) =~= step_bodies(steps@.take(i as int)).push(steps@[i as int].body));
        i = i + 1;
    }
    assert(steps@.take(steps@.len() as int) =~= steps@);
    r
}

/// `"{k} of {n} ordered steps failed"`.
fn steps_msg_of(k: usize, n: usize) -> (s: String)
    ensures
        s@ == steps_msg(k as nat, n as nat),
{
    let a = string_of(&decimal_chars(k as u64));
    let b = string_of(&decimal_chars(n as u64));
    let mut s = concat(a.as_str(), " of ");
    s.append(b.as_str());
    s.append(" ordered steps failed");
    s
}

/// The depth of the children of a node at `depth`.
pub open spec fn deeper(depth: usize) -> usize {
    if depth < usize::MAX {
        (depth + 1) as usize
    } else {
        depth
    }
}

/// The lines reporting every node of `nodes` from index `i` on as pending,
/// at `depth`: a group's name and then its children one level deeper, a spec
/// or ordered block as pending.
pub open spec fn pending_from(nodes: Seq<TestNode>, i: int, depth: usize) -> Seq<LineView>
    decreases nodes, nodes.len() - i,
{
    if 0 <= i < nodes.len() {
        node_pending(nodes[i], depth) + pending_from(nodes, i + 1, depth)
    } else {
        Seq::<LineView>::empty()
    }
}

/// The lines reporting `node` as pending at `depth`.
pub open spec fn node_pending(node: TestNode, depth: usize) -> Seq<LineView>
    decreases node,
{
    match node {
        TestNode::Describe { name, children, .. } => seq![LineView::PendingGroup { depth, name: name@ }] + pending_from(
            children@,
            0,
            deeper(depth),
        ),
        TestNode::It { name, .. } => seq![LineView::Pending { depth, name: name@ }],
        TestNode::Ordered { name, .. } => seq![LineView::Pending { depth, name: name@ }],
    }
}

/// An upper bound on how much running a node can add to the counters: one
/// per spec or ordered block, two per group (its `before_all` and `after_all`
/// failures).
pub open spec fn node_cost(node: TestNode) -> nat
    decreases node,
{
    match node {
        TestNode::Describe { children, .. } => 2 + cost_from(children@, 0),
        _ => 1,
    }
}

/// The cost of the nodes of `nodes` from index `i` on.
pub open spec fn cost_from(nodes: Seq<TestNode>, i: int) -> nat
    decreases nodes, nodes.len() - i,
{
    if 0 <= i < nodes.len() {
        node_cost(nodes[i]) + cost_from(nodes, i + 1)
    } else {
        0
    }
}

proof fn lemma_leaves_le_cost_from(nodes: Seq<TestNode>, i: int)
    ensures
        leaves_from(nodes, i) <= cost_from(nodes, i),
    decreases nodes, nodes.len() - i,
{
    if 0 <= i < nodes.len() {
        lemma_leaves_le_cost(nodes[i]);
        lemma_leaves_le_cost_from(nodes, i + 1);
    }
}

proof fn lemma_leaves_le_cost(node: TestNode)
    ensures
        node_leaves(node) <= node_cost(node),
    decreases node,
{
    if let TestNode::Describe { children, .. } = node {
        lemma_leaves_le_cost_from(children@, 0);
    }
}

proof fn lemma_prefix_trans<T>(a: Seq<T>, b: Seq<T>, c: Seq<T>)
    requires
        a.len() <= b.len() <= c.len(),
        b.take(a.len() as int) == a,
        c.take(b.len() as int) == b,
    ensures
        c.take(a.len() as int) == a,
{
    assert forall|k: int| 0 <= k < a.len() implies c[k] == a[k] by {
        assert(c[k] == c.take(b.len() as int)[k]);
        assert(b[k] == b.take(a.len() as int)[k]);
    }
    assert(c.take(a.len() as int) =~= a);
}

pub(crate) proof fn lemma_lines_view_push(l: Seq<Line>, x: Line)
    ensures
        lines_view(l.push(x)) == lines_view(l).push(x@),
{
    assert(lines_view(l.push(x)) =~= lines_view(l).push(x@));
}

impl<'a, V, B, K, L> Runner<'a, V, B, K, L> where
    B: Fn(&mut FixtureStore<V>) -> Outcome,
    K: Fn() -> u64,
    L: Fn(&mut FixtureStore<V>) -> Outcome,
 {
    /// Nothing observable changed between `before` and `after`.
    pub open spec fn untouched(before: Self, after: Self) -> bool {
        &&& after.result == before.result
        &&& after.lines == before.lines
        &&& after.calls == before.calls
        &&& after.abort == before.abort
        &&& after.skip_flag == before.skip_flag
    }

    /// What reporting a finished spec named `name` at path `p`, that took `ms`
    /// milliseconds, does: a spec that returned normally is skipped when `skip`
    /// holds a reason and passed otherwise; a failing one is counted and
    /// described as `"{p}: {msg}"`.
    pub open spec fn reported(
        before: Self,
        after: Self,
        depth: usize,
        name: Seq<char>,
        p: Seq<char>,
        rf: Result<(), String>,
        ms: u64,
        skip: Option<String>,
    ) -> bool {
        &&& after.abort == before.abort
        &&& after.lines@.len() == before.lines@.len() + 1
        &&& after.lines@.drop_last() == before.lines@
        &&& match rf {
            Ok(()) => {
                &&& after.result.failures == before.result.failures
                &&& match skip {
                    Some(reason) => {
                        &&& bumped(before.result, after.result, (0, 0, 0, 1))
                        &&& after.lines@.last() matches Line::Skipped { depth: d, name: n, reason: why }
                            && d == depth && n@ == name && why == reason
                    },
                    None => {
                        &&& bumped(before.result, after.result, (1, 0, 0, 0))
                        &&& after.lines@.last() matches Line::Passed { depth: d, name: n, ms: e } && d == depth
                            && n@ == name && e == ms
                    },
                }
            },
            Err(m) => {
                &&& bumped(before.result, after.result, (0, 1, 0, 0))
                &&& after.result.failures@.len() == before.result.failures@.len() + 1
                &&& after.result.failures@.drop_last() == before.result.failures@
                &&& after.result.failures@.last()@ == p + ": "@ + m@
                &&& after.lines@.last() matches Line::Failed { depth: d, name: n, msg: e, ms: t } && d == depth
                    && n@ == name && e == m && t == ms
            },
        }
    }

    /// What running the spec `node` at `depth`, under the groups `path` with
    /// the hooks and labels of `chain`, does (`force`: an enclosing group is
    /// focused). A spec that runs reads the clock before and after its runs;
    /// the time between the readings decides its timeout and is reported.
    /// After its runs the per-test fixtures are cleared, whatever happened.
    pub open spec fn it_effect(
        before: Self,
        after: Self,
        node: TestNode,
        depth: usize,
        path: Seq<Seq<char>>,
        chain: HookChain,
        force: bool,
    ) -> bool {
        match node {
            TestNode::It { name, focused, pending, labels, retries, timeout_ms, must_pass_repeatedly, test_fn } => {
                let p = full_path(path, name@);
                let seg = after.calls@.skip(before.calls@.len() as int);
                match fate(*before.config, before.focus_mode, p, pending, focused || force, seqs(chain.labels@) + views(labels@)) {
                    Fate::Filtered | Fate::Unlabeled => Self::untouched(before, after),
                    Fate::Pending => {
                        &&& bumped(before.result, after.result, (0, 0, 1, 0))
                        &&& after.result.failures == before.result.failures
                        &&& after.lines@ == before.lines@.push(after.lines@.last())
                        &&& after.lines@.last() matches Line::Pending { depth: d, name: n } && d == depth && n@ == name@
                        &&& after.calls == before.calls
                        &&& after.abort == before.abort
                        &&& after.skip_flag == before.skip_flag
                    },
                    Fate::Ignored => {
                        &&& bumped(before.result, after.result, (0, 0, 0, 1))
                        &&& after.result.failures == before.result.failures
                        &&& after.lines == before.lines
                        &&& after.calls == before.calls
                        &&& after.abort == before.abort
                        &&& after.skip_flag == before.skip_flag
                    },
                    Fate::Refused => {
                        &&& after.abort matches Some(m) && m@ == focus_refusal()
                        &&& after.result == before.result
                        &&& after.lines == before.lines
                        &&& after.calls == before.calls
                    },
                    Fate::Runs => {
                        &&& clocked(seg)
                        &&& after.skip_flag is None
                        &&& after.store.per_test() == Map::<u64, V>::empty()
                        &&& exists|rb: Result<(), String>, rf: Result<(), String>|
                            spec_runs(inner(seg), must_pass_repeatedly, retries, chain, test_fn, rb)
                                && #[trigger] timed(timeout_ms, rb, span(seg), rf)
                                && Self::reported(before, after, depth, name@, p, rf, span(seg), skip_fold(before.skip_flag, inner(seg)))
                    },
                }
            },
            _ => false,
        }
    }

    /// Report a spec that finished with `rf` after `ms` milliseconds; with
    /// `honor_skip` the skip flag is taken and decides between skipped and
    /// passed, else it is left alone.
    fn report(&mut self, depth: usize, name: &String, p: &String, rf: Result<(), String>, ms: u64, honor_skip: bool)
        requires
            old(self).result.wf(),
            old(self).result.total() < usize::MAX,
        ensures
            final(self).result.wf(),
            final(self).result.total() == old(self).result.total() + 1,
            final(self).same_setup(*old(self)),
            final(self).store == old(self).store,
            final(self).calls == old(self).calls,
            honor_skip ==> final(self).skip_flag is None,
            honor_skip ==> Self::reported(*old(self), *final(self), depth, name@, p@, rf, ms, old(self).skip_flag),
            !honor_skip ==> final(self).skip_flag == old(self).skip_flag,
            !honor_skip ==> Self::reported(*old(self), *final(self), depth, name@, p@, rf, ms, None),
    {
        let skip = if honor_skip {
            self.skip_flag.take()
        } else {
            None
        };
        match rf {
            Ok(()) => match skip {
                Some(reason) => {
                    self.lines.push(Line::Skipped { depth, name: string_from(name.as_str()), reason });
                    self.result.skipped = self.result.skipped + 1;
                },
                None => {
                    self.lines.push(Line::Passed { depth, name: string_from(name.as_str()), ms });
                    self.result.passed = self.result.passed + 1;
                },
            },
            Err(m) => {
                let desc = concat(concat(p.as_str(), ": ").as_str(), m.as_str());
                self.lines.push(Line::Failed { depth, name: string_from(name.as_str()), ms, msg: m });
                self.result.failed = self.result.failed + 1;
                self.result.failures.push(desc);
                assert(self.result.failures@.drop_last() =~= old(self).result.failures@);
            },
        }
        assert(self.lines@.drop_last() =~= old(self).lines@);
    }

    /// Run the spec `node` (see [`Self::it_effect`]).
    pub fn run_it_node(&mut self, node: &TestNode, depth: usize, path: &Vec<String>, chain: &HookChain, force: bool)
        requires
            old(self).callable(),
            forall|i: int, s: &mut FixtureStore<V>, o: Outcome|
                0 <= i < old(self).bodies@.len() && #[trigger] call_ensures(old(self).bodies@[i], (s,), o) ==> (*final(s)).keeps_outer(*s),
            forall|s: &mut FixtureStore<V>, o: Outcome| #[trigger] call_ensures(*old(self).cleanup, (s,), o) ==> (*final(s)).keeps_outer(*s),
            old(self).result.wf(),
            old(self).result.total() < usize::MAX,
            node is It,
        ensures
            final(self).callable(),
            final(self).same_setup(*old(self)),
            final(self).result.wf(),
            final(self).result.total() <= old(self).result.total() + 1,
            final(self).calls@.len() >= old(self).calls@.len(),
            final(self).calls@.take(old(self).calls@.len() as int) == old(self).calls@,
            final(self).lines@.len() >= old(self).lines@.len(),
            final(self).lines@.take(old(self).lines@.len() as int) == old(self).lines@,
            final(self).result.failures@.len() >= old(self).result.failures@.len(),
            final(self).result.failures@.take(old(self).result.failures@.len() as int) == old(self).result.failures@,
            Self::it_effect(*old(self), *final(self), *node, depth, views(path@), *chain, force),
    {
        let ghost c0 = self.calls@;
        assert(self.calls@.take(c0.len() as int) =~= c0);
        if let TestNode::It { name, focused, pending, labels, retries, timeout_ms, must_pass_repeatedly, test_fn } = node {
            let p = full_path_of(path, name);
            if !admits(&self.config.filter, &p) {
                return;
            }
            if *pending {
                self.lines.push(Line::Pending { depth, name: string_from(name.as_str()) });
                self.result.pending = self.result.pending + 1;
                return;
            }
            let effectively_focused = *focused || force;
            if self.focus_mode && !effectively_focused && !self.config.include_ignored {
                self.result.skipped = self.result.skipped + 1;
                return;
            }
            if effectively_focused && self.focus_mode && self.config.fail_on_focus {
                self.abort = Some(string_from(
                    "rsspec: focused tests detected but RSSPEC_FAIL_ON_FOCUS is set. Remove fit/fdescribe/fcontext before pushing.",
                ));
                return;
            }
            let all = labels_with(&chain.labels, labels);
            let accepted = match &self.config.label_filter {
                Some(f) => {
                    let fc = chars_of(f.as_str());
                    labels_match_chars(&all, Some(&fc))
                },
                None => labels_match_chars(&all, None),
            };
            if !accepted {
                return;
            }
            let t0 = self.now();
            let ghost c1 = self.calls@;
            let rb = self.run_repeated(*must_pass_repeatedly, *retries, chain, *test_fn);
            let ghost runs = self.calls@.skip(c1.len() as int);
            let ghost c2 = self.calls@;
            self.store.clear_setup_values();
            let t1 = self.now();
            let elapsed: u64 = if t1 >= t0 {
                t1 - t0
            } else {
                0
            };
            let ghost rbg = rb;
            let rf = match timeout_ms {
                Some(ms) => {
                    if elapsed > *ms {
                        Err(timeout_text_of(*ms, &rb))
                    } else {
                        rb
                    }
                },
                None => rb,
            };
            let ghost rfg = rf;
            proof {
                let seg = self.calls@.skip(c0.len() as int);
                assert(c1.take(c0.len() as int) =~= c0);
                assert(c2.take(c1.len() as int) == c1);
                assert forall|i: int| 0 <= i < c1.len() implies c2[i] == c1[i] by {
                    assert(c2[i] == c2.take(c1.len() as int)[i]);
                }
                assert(seg[0] == c1.last());
                assert(seg.last() == self.calls@.last());
                assert(inner(seg) =~= runs);
                assert(self.calls@.take(c0.len() as int) =~= c0);
                assert(span(seg) == elapsed);
            }
            self.report(depth, name, &p, rf, elapsed, true);
            proof {
                assert(timed(*timeout_ms, rbg, elapsed, rfg));
                assert(spec_runs(runs, *must_pass_repeatedly, *retries, *chain, *test_fn, rbg));
            }
        }
    }
}

impl<'a, V, B, K, L> Runner<'a, V, B, K, L> where
    B: Fn(&mut FixtureStore<V>) -> Outcome,
    K: Fn() -> u64,
    L: Fn(&mut FixtureStore<V>) -> Outcome,
 {
    /// Run every body of `ids` in order, whatever each reports; returns how
    /// many failed.
    fn run_counting(&mut self, ids: &Vec<usize>) -> (n: usize)
        requires
            old(self).callable(),
            forall|i: int, s: &mut FixtureStore<V>, o: Outcome|
                0 <= i < old(self).bodies@.len() && #[trigger] call_ensures(old(self).bodies@[i], (s,), o) ==> (*final(s)).keeps_outer(*s),
            forall|s: &mut FixtureStore<V>, o: Outcome| #[trigger] call_ensures(*old(self).cleanup, (s,), o) ==> (*final(s)).keeps_outer(*s),
        ensures
            final(self).callable(),
            final(self).same_setup(*old(self)),
            final(self).result == old(self).result,
            final(self).lines == old(self).lines,
            final(self).abort == old(self).abort,
            final(self).calls@.len() >= old(self).calls@.len(),
            final(self).calls@.take(old(self).calls@.len() as int) == old(self).calls@,
            final(self).skip_flag == skip_fold(old(self).skip_flag, final(self).calls@.skip(old(self).calls@.len() as int)),
            ran_all(final(self).calls@.skip(old(self).calls@.len() as int), ids@),
            n == fail_count(final(self).calls@.skip(old(self).calls@.len() as int)),
            n <= ids@.len(),
    {
        let ghost c0 = self.calls@;
        let mut i: usize = 0;
        let mut n: usize = 0;
        assert(self.calls@.skip(c0.len() as int) =~= Seq::<(Call, Outcome)>::empty());
        while i < ids.len()
            invariant
                i <= ids@.len(),
                n <= i,
                self.callable(),
                forall|i: int, s: &mut FixtureStore<V>, o: Outcome|
                    0 <= i < self.bodies@.len() && #[trigger] call_ensures(self.bodies@[i], (s,), o) ==> (*final(s)).keeps_outer(*s),
                forall|s: &mut FixtureStore<V>, o: Outcome| #[trigger] call_ensures(*self.cleanup, (s,), o) ==> (*final(s)).keeps_outer(*s),
                self.same_setup(*old(self)),
                self.result == old(self).result,
                self.lines == old(self).lines,
                self.abort == old(self).abort,
                c0 == old(self).calls@,
                self.calls@.len() == c0.len() + i,
                self.calls@.take(c0.len() as int) == c0,
                self.skip_flag == skip_fold(old(self).skip_flag, self.calls@.skip(c0.len() as int)),
                ran_all(self.calls@.skip(c0.len() as int), ids@.take(i as int)),
                n == fail_count(self.calls@.skip(c0.len() as int)),
            decreases ids@.len() - i,
        {
            let ghost before = self.calls@;
            let r = self.call(ids[i]);
            proof {
                let prev = before.skip(c0.len() as int);
                let seg = self.calls@.skip(c0.len() as int);
                assert(seg =~= prev.push(self.calls@.last()));
                assert(seg.drop_last() =~= prev);
                assert(self.calls@.take(c0.len() as int) =~= before.take(c0.len() as int));
                lemma_fail_count_push(prev, self.calls@.last());
                assert(ran_all(seg, ids@.take(i + 1))) by {
                    assert forall|j: int| 0 <= j < seg.len() implies #[trigger] seg[j].0 == Call::Body(ids@.take(i + 1)[j]) by {
                        if j < i {
                            assert(seg[j] == prev[j]);
                            assert(ids@.take(i as int)[j] == ids@[j]);
                        }
                    }
                }
            }
            if r.is_err() {
                n = n + 1;
            }
            i = i + 1;
        }
        assert(ids@.take(ids@.len() as int) =~= ids@);
        n
    }

    /// The body part of an ordered block (see [`ordered_body`]).
    fn run_ordered_body(&mut self, chain: &HookChain, steps: &Vec<usize>, cont: bool) -> (rb: Result<(), String>)
        requires
            old(self).callable(),
            forall|i: int, s: &mut FixtureStore<V>, o: Outcome|
                0 <= i < old(self).bodies@.len() && #[trigger] call_ensures(old(self).bodies@[i], (s,), o) ==> (*final(s)).keeps_outer(*s),
            forall|s: &mut FixtureStore<V>, o: Outcome| #[trigger] call_ensures(*old(self).cleanup, (s,), o) ==> (*final(s)).keeps_outer(*s),
        ensures
            final(self).callable(),
            final(self).same_setup(*old(self)),
            final(self).result == old(self).result,
            final(self).lines == old(self).lines,
            final(self).abort == old(self).abort,
            final(self).calls@.len() >= old(self).calls@.len(),
            final(self).calls@.take(old(self).calls@.len() as int) == old(self).calls@,
            final(self).skip_flag == skip_fold(old(self).skip_flag, final(self).calls@.skip(old(self).calls@.len() as int)),
            ordered_body(
                final(self).calls@.skip(old(self).calls@.len() as int),
                chain.before_each@ + chain.just_before_each@,
                steps@,
                cont,
                rb,
            ),
    {
        let ghost c0 = self.calls@;
        let mut hooks: Vec<usize> = Vec::new();
        crate::runner::extend_ids(&mut hooks, &chain.before_each);
        crate::runner::extend_ids(&mut hooks, &chain.just_before_each);
        assert(hooks@ =~= chain.before_each@ + chain.just_before_each@);
        if !cont {
            let mut all = hooks;
            crate::runner::extend_ids(&mut all, steps);
            return self.run_until_failure(&all);
        }
        let r1 = self.run_until_failure(&hooks);
        let ghost c1 = self.calls@;
        proof {
            let seg = c1.skip(c0.len() as int);
            assert(seg.take(seg.len() as int) =~= seg);
        }
        match r1 {
            Err(m) => Err(m),
            Ok(()) => {
                let k = self.run_counting(steps);
                let ghost c2 = self.calls@;
                let rb = if k == 0 {
                    Ok(())
                } else {
                    Err(steps_msg_of(k, steps.len()))
                };
                proof {
                    let seg = c2.skip(c0.len() as int);
                    let a = c1.skip(c0.len() as int);
                    let b = c2.skip(c1.len() as int);
                    let j = a.len() as int;
                    assert(c1.take(c0.len() as int) == c0);
                    assert(c2.take(c1.len() as int) == c1);
                    assert forall|i: int| 0 <= i < c0.len() implies c1[i] == c0[i] by {
                        assert(c1[i] == c1.take(c0.len() as int)[i]);
                    }
                    assert forall|i: int| 0 <= i < c1.len() implies c2[i] == c1[i] by {
                        assert(c2[i] == c2.take(c1.len() as int)[i]);
                    }
                    assert(seg =~= a + b);
                    crate::runner::lemma_skip_fold_concat(old(self).skip_flag, a, b);
                    assert(seg.take(j) =~= a);
                    assert(seg.skip(j) =~= b);
                    assert(c2.take(c0.len() as int) =~= c0);
                    assert(ran_until_failure(seg.take(j), hooks@));
                    assert(ordered_body(seg, hooks@, steps@, cont, rb));
                }
                rb
            },
        }
    }
}

impl<'a, V, B, K, L> Runner<'a, V, B, K, L> where
    B: Fn(&mut FixtureStore<V>) -> Outcome,
    K: Fn() -> u64,
    L: Fn(&mut FixtureStore<V>) -> Outcome,
 {
    /// What running the ordered block `node` at `depth`, under the groups
    /// `path` with the hooks and labels of `chain`, does (`force`: an
    /// enclosing group is focused). An ordered block is never pending and is
    /// focused only through its groups; it does not look at the skip flag. One
    /// that runs reads the clock before and after its steps; the time between
    /// the readings is reported. After its steps the per-test fixtures are
    /// cleared.
    pub open spec fn ordered_effect(
        before: Self,
        after: Self,
        node: TestNode,
        depth: usize,
        path: Seq<Seq<char>>,
        chain: HookChain,
        force: bool,
    ) -> bool {
        match node {
            TestNode::Ordered { name, labels, continue_on_failure, steps } => {
                let p = full_path(path, name@);
                let seg = after.calls@.skip(before.calls@.len() as int);
                match fate(*before.config, before.focus_mode, p, false, force, seqs(chain.labels@) + views(labels@)) {
                    Fate::Filtered | Fate::Unlabeled | Fate::Pending => Self::untouched(before, after),
                    Fate::Ignored => {
                        &&& bumped(before.result, after.result, (0, 0, 0, 1))
                        &&& after.result.failures == before.result.failures
                        &&& after.lines == before.lines
                        &&& after.calls == before.calls
                        &&& after.abort == before.abort
                        &&& after.skip_flag == before.skip_flag
                    },
                    Fate::Refused => {
                        &&& after.abort matches Some(m) && m@ == focus_refusal()
                        &&& after.result == before.result
                        &&& after.lines == before.lines
                        &&& after.calls == before.calls
                    },
                    Fate::Runs => {
                        &&& clocked(seg)
                        &&& after.skip_flag == skip_fold(before.skip_flag, inner(seg))
                        &&& after.store.per_test() == Map::<u64, V>::empty()
                        &&& exists|r: Result<(), String>|
                            #[trigger] ordered_runs(inner(seg), chain, step_bodies(steps@), continue_on_failure, r)
                                && Self::reported(before, after, depth, name@, p, r, span(seg), None)
                    },
                }
            },
            _ => false,
        }
    }

    /// Run the ordered block `node` (see [`Self::ordered_effect`]).
    pub fn run_ordered_node(&mut self, node: &TestNode, depth: usize, path: &Vec<String>, chain: &HookChain, force: bool)
        requires
            old(self).callable(),
            forall|i: int, s: &mut FixtureStore<V>, o: Outcome|
                0 <= i < old(self).bodies@.len() && #[trigger] call_ensures(old(self).bodies@[i], (s,), o) ==> (*final(s)).keeps_outer(*s),
            forall|s: &mut FixtureStore<V>, o: Outcome| #[trigger] call_ensures(*old(self).cleanup, (s,), o) ==> (*final(s)).keeps_outer(*s),
            old(self).result.wf(),
            old(self).result.total() < usize::MAX,
            node is Ordered,
        ensures
            final(self).callable(),
            final(self).same_setup(*old(self)),
            final(self).result.wf(),
            final(self).result.total() <= old(self).result.total() + 1,
            final(self).calls@.len() >= old(self).calls@.len(),
            final(self).calls@.take(old(self).calls@.len() as int) == old(self).calls@,
            final(self).lines@.len() >= old(self).lines@.len(),
            final(self).lines@.take(old(self).lines@.len() as int) == old(self).lines@,
            final(self).result.failures@.len() >= old(self).result.failures@.len(),
            final(self).result.failures@.take(old(self).result.failures@.len() as int) == old(self).result.failures@,
            Self::ordered_effect(*old(self), *final(self), *node, depth, views(path@), *chain, force),
    {
        let ghost c0 = self.calls@;
        assert(self.calls@.take(c0.len() as int) =~= c0);
        if let TestNode::Ordered { name, labels, continue_on_failure, steps } = node {
            let p = full_path_of(path, name);
            if !admits(&self.config.filter, &p) {
                return;
            }
            if self.focus_mode && !force && !self.config.include_ignored {
                self.result.skipped = self.result.skipped + 1;
                return;
            }
            if force && self.focus_mode && self.config.fail_on_focus {
                self.abort = Some(string_from(
                    "rsspec: focused tests detected but RSSPEC_FAIL_ON_FOCUS is set. Remove fit/fdescribe/fcontext before pushing.",
                ));
                return;
            }
            let all = labels_with(&chain.labels, labels);
            let accepted = match &self.config.label_filter {
                Some(f) => {
                    let fc = chars_of(f.as_str());
                    labels_match_chars(&all, Some(&fc))
                },
                None => labels_match_chars(&all, None),
            };
            if !accepted {
                return;
            }
            let ids = step_ids(steps);
            let t0 = self.now();
            let ghost ca = self.calls@;
            let rb = self.run_ordered_body(chain, &ids, *continue_on_failure);
            let ghost c1 = self.calls@;
            let ghost rbg = rb;
            let r = self.finish_attempt(&chain.after_each, rb);
            let ghost c2 = self.calls@;
            let t1 = self.now();
            let elapsed: u64 = if t1 >= t0 {
                t1 - t0
            } else {
                0
            };
            let ghost rg = r;
            proof {
                let runs = c2.skip(ca.len() as int);
                let a = c1.skip(ca.len() as int);
                let b = c2.skip(c1.len() as int);
                let j = a.len() as int;
                assert(c1.take(ca.len() as int) == ca);
                assert(c2.take(c1.len() as int) == c1);
                assert forall|i: int| 0 <= i < ca.len() implies c1[i] == ca[i] by {
                    assert(c1[i] == c1.take(ca.len() as int)[i]);
                }
                assert forall|i: int| 0 <= i < c1.len() implies c2[i] == c1[i] by {
                    assert(c2[i] == c2.take(c1.len() as int)[i]);
                }
                assert(runs =~= a + b);
                crate::runner::lemma_skip_fold_concat(old(self).skip_flag, a, b);
                assert(runs.take(j) =~= a);
                assert(runs.skip(j) =~= b);
                assert(ordered_runs(runs, *chain, step_bodies(steps@), *continue_on_failure, rg));
                let seg = self.calls@.skip(c0.len() as int);
                assert(ca.take(c0.len() as int) =~= c0);
                assert forall|i: int| 0 <= i < ca.len() implies c2[i] == ca[i] by {
                    assert(c1[i] == ca[i]);
                }
                assert(seg[0] == ca.last());
                assert(seg.last() == self.calls@.last());
                assert(inner(seg) =~= runs);
                assert(self.calls@.take(c0.len() as int) =~= c0);
                assert(span(seg) == elapsed);
            }
            self.report(depth, name, &p, r, elapsed, false);
        }
    }
}

/// A spec at path `p` with these marks and labels would run, leaving the
/// focus guard aside: the path filter admits it, it is not pending, focus mode
/// does not pass it over and the label filter accepts its labels.
pub open spec fn would_run(cfg: RunConfig, focus_mode: bool, p: Seq<char>, pending: bool, focused: bool, ls: Seq<Seq<char>>) -> bool {
    &&& path_admits(cfg.filter, p)
    &&& !pending
    &&& !(focus_mode && !focused && !cfg.include_ignored)
    &&& filter_accepts(ls, label_filter_of(cfg))
}

/// Some node of `nodes` from index `i` on holds a spec or ordered block that
/// would run, under the groups `path` with labels `ls` (`force`: an enclosing
/// group is focused); pending groups hold none.
pub open spec fn runnable_from(
    nodes: Seq<TestNode>,
    i: int,
    path: Seq<Seq<char>>,
    ls: Seq<Seq<char>>,
    force: bool,
    cfg: RunConfig,
    focus_mode: bool,
) -> bool
    decreases nodes, nodes.len() - i,
{
    if 0 <= i < nodes.len() {
        node_runnable(nodes[i], path, ls, force, cfg, focus_mode) || runnable_from(nodes, i + 1, path, ls, force, cfg, focus_mode)
    } else {
        false
    }
}

/// The node holds a spec or ordered block that would run.
pub open spec fn node_runnable(node: TestNode, path: Seq<Seq<char>>, ls: Seq<Seq<char>>, force: bool, cfg: RunConfig, focus_mode: bool) -> bool
    decreases node,
{
    match node {
        TestNode::Describe { name, focused, pending, labels, children, .. } => !pending && runnable_from(
            children@,
            0,
            path.push(name@),
            ls + views(labels@),
            force || focused,
            cfg,
            focus_mode,
        ),
        TestNode::It { name, focused, pending, labels, .. } => would_run(
            cfg,
            focus_mode,
            full_path(path, name@),
            pending,
            focused || force,
            ls + views(labels@),
        ),
        TestNode::Ordered { name, labels, .. } => would_run(cfg, focus_mode, full_path(path, name@), false, force, ls + views(labels@)),
    }
}

/// `a` and `b` hold the same hooks and labels.
pub open spec fn same_chain(a: HookChain, b: HookChain) -> bool {
    &&& a.before_each@ == b.before_each@
    &&& a.after_each@ == b.after_each@
    &&& a.just_before_each@ == b.just_before_each@
    &&& a.labels@ == b.labels@
}

impl<'a, V, B, K, L> Runner<'a, V, B, K, L> where
    B: Fn(&mut FixtureStore<V>) -> Outcome,
    K: Fn() -> u64,
    L: Fn(&mut FixtureStore<V>) -> Outcome,
 {
    /// Whether a spec at path `p` with these marks and labels would run.
    fn would_run_here(&self, p: &String, pending: bool, focused: bool, labels: &Vec<Vec<char>>) -> (r: bool)
        ensures
            r == would_run(*self.config, self.focus_mode, p@, pending, focused, seqs(labels@)),
    {
        if !admits(&self.config.filter, p) || pending {
            return false;
        }
        if self.focus_mode && !focused && !self.config.include_ignored {
            return false;
        }
        match &self.config.label_filter {
            Some(f) => {
                let fc = chars_of(f.as_str());
                labels_match_chars(labels, Some(&fc))
            },
            None => labels_match_chars(labels, None),
        }
    }

    /// Whether any spec or ordered block in `nodes` would run (used to skip
    /// a group's `before_all`/`after_all` when none would).
    pub fn has_runnable_tests(&self, nodes: &Vec<TestNode>, path: &mut Vec<String>, chain: &mut HookChain, force: bool) -> (r: bool)
        ensures
            r == runnable_from(nodes@, 0, views(old(path)@), seqs(old(chain).labels@), force, *self.config, self.focus_mode),
            final(path)@ == old(path)@,
            same_chain(*final(chain), *old(chain)),
        decreases nodes@,
    {
        let mut i: usize = 0;
        while i < nodes.len()
            invariant
                i <= nodes@.len(),
                path@ == old(path)@,
                same_chain(*chain, *old(chain)),
                runnable_from(nodes@, 0, views(path@), seqs(chain.labels@), force, *self.config, self.focus_mode)
                    == runnable_from(nodes@, i as int, views(path@), seqs(chain.labels@), force, *self.config, self.focus_mode),
            decreases nodes@.len() - i,
        {
            let node = &nodes[i];
            let here = match node {
                TestNode::Describe { name, focused, pending, children, before_each, after_each, .. } => {
                    if *pending {
                        false
                    } else {
                        assert(decreases_to!(nodes@ => nodes@[i as int]));
                        let ghost p0 = path@;
                        let ghost ch0 = *chain;
                        path.push(string_from(name.as_str()));
                        let saved = chain.push_describe(node);
                        assert(chain.before_each@ == ch0.before_each@ + before_each@);
                        assert(chain.after_each@ == ch0.after_each@ + after_each@);
                        let any = self.has_runnable_tests(children, path, chain, force || *focused);
                        proof {
                            assert(views(path@) =~= views(p0).push(name@));
                            assert(saved@[0] == ch0.before_each@.len());
                            assert(saved@[1] == ch0.after_each@.len());
                        }
                        chain.pop_describe(saved);
                        path.pop();
                        proof {
                            assert(path@ =~= p0);
                            assert(chain.before_each@ =~= ch0.before_each@);
                            assert(chain.after_each@ =~= ch0.after_each@);
                            assert(chain.just_before_each@ =~= ch0.just_before_each@);
                            assert(chain.labels@ =~= ch0.labels@);
                        }
                        any
                    }
                },
                TestNode::It { name, focused, pending, labels, .. } => {
                    let p = full_path_of(path, name);
                    let all = labels_with(&chain.labels, labels);
                    self.would_run_here(&p, *pending, *focused || force, &all)
                },
                TestNode::Ordered { name, labels, .. } => {
                    let p = full_path_of(path, name);
                    let all = labels_with(&chain.labels, labels);
                    self.would_run_here(&p, false, force, &all)
                },
            };
            assert(here == node_runnable(nodes@[i as int], views(path@), seqs(chain.labels@), force, *self.config, self.focus_mode));
            if here {
                return true;
            }
            i = i + 1;
        }
        false
    }
}

impl<'a, V, B, K, L> Runner<'a, V, B, K, L> where
    B: Fn(&mut FixtureStore<V>) -> Outcome,
    K: Fn() -> u64,
    L: Fn(&mut FixtureStore<V>) -> Outcome,
 {
    /// Report every node of `nodes` as pending at `depth` (under a pending
    /// group): each spec and ordered block counts as pending.
    pub fn run_nodes_pending(&mut self, nodes: &Vec<TestNode>, depth: usize)
        requires
            old(self).result.wf(),
            old(self).result.total() + leaves_from(nodes@, 0) <= usize::MAX,
        ensures
            final(self).same_setup(*old(self)),
            final(self).result.wf(),
            lines_view(final(self).lines@) == lines_view(old(self).lines@) + pending_from(nodes@, 0, depth),
            final(self).lines@.len() >= old(self).lines@.len(),
            final(self).lines@.take(old(self).lines@.len() as int) == old(self).lines@,
            bumped(old(self).result, final(self).result, (0, 0, leaves_from(nodes@, 0), 0)),
            final(self).result.failures == old(self).result.failures,
            final(self).calls == old(self).calls,
            final(self).abort == old(self).abort,
            final(self).skip_flag == old(self).skip_flag,
            final(self).store == old(self).store,
        decreases nodes@,
    {
        let mut i: usize = 0;
        assert(self.lines@.take(old(self).lines@.len() as int) =~= old(self).lines@);
        while i < nodes.len()
            invariant
                i <= nodes@.len(),
                self.same_setup(*old(self)),
                self.result.wf(),
                old(self).result.total() + leaves_from(nodes@, 0) <= usize::MAX,
                lines_view(self.lines@) + pending_from(nodes@, i as int, depth) == lines_view(old(self).lines@) + pending_from(nodes@, 0, depth),
                self.lines@.len() >= old(self).lines@.len(),
                self.lines@.take(old(self).lines@.len() as int) == old(self).lines@,
                self.result.pending + leaves_from(nodes@, i as int) == old(self).result.pending + leaves_from(nodes@, 0),
                self.result.passed == old(self).result.passed,
                self.result.failed == old(self).result.failed,
                self.result.skipped == old(self).result.skipped,
                self.result.failures == old(self).result.failures,
                self.calls == old(self).calls,
                self.abort == old(self).abort,
                self.skip_flag == old(self).skip_flag,
                self.store == old(self).store,
            decreases nodes@.len() - i,
        {
            let node = &nodes[i];
            let ghost l0 = self.lines@;
            let ghost lo = old(self).lines@;
            assert(leaves_from(nodes@, i as int) == node_leaves(nodes@[i as int]) + leaves_from(nodes@, i + 1));
            match node {
                TestNode::Describe { name, children, .. } => {
                    let line = Line::PendingGroup { depth, name: string_from(name.as_str()) };
                    proof {
                        lemma_lines_view_push(l0, line);
                    }
                    self.lines.push(line);
                    assert(decreases_to!(nodes@ => nodes@[i as int]));
                    assert(node_leaves(nodes@[i as int]) == leaves_from(children@, 0));
                    let ghost l1 = self.lines@;
                    proof {
                        assert(l1.take(l0.len() as int) =~= l0);
                        lemma_prefix_trans(lo, l0, l1);
                    }
                    self.run_nodes_pending(children, depth.saturating_add(1));
                    proof {
                        lemma_prefix_trans(lo, l1, self.lines@);
                        assert(lines_view(l0) + node_pending(nodes@[i as int], depth) + pending_from(nodes@, i + 1, depth)
                            =~= lines_view(l0) + (node_pending(nodes@[i as int], depth) + pending_from(nodes@, i + 1, depth)));
                        assert(lines_view(self.lines@) =~= lines_view(l0) + node_pending(nodes@[i as int], depth));
                    }
                },
                TestNode::It { name, .. } => {
                    let line = Line::Pending { depth, name: string_from(name.as_str()) };
                    proof {
                        lemma_lines_view_push(l0, line);
                    }
                    self.lines.push(line);
                    self.result.pending = self.result.pending + 1;
                    assert(lines_view(self.lines@) =~= lines_view(l0) + node_pending(nodes@[i as int], depth));
                    proof {
                        assert(self.lines@.take(l0.len() as int) =~= l0);
                        lemma_prefix_trans(lo, l0, self.lines@);
                    }
                },
                TestNode::Ordered { name, .. } => {
                    let line = Line::Pending { depth, name: string_from(name.as_str()) };
                    proof {
                        lemma_lines_view_push(l0, line);
                    }
                    self.lines.push(line);
                    self.result.pending = self.result.pending + 1;
                    assert(lines_view(self.lines@) =~= lines_view(l0) + node_pending(nodes@[i as int], depth));
                    proof {
                        assert(self.lines@.take(l0.len() as int) =~= l0);
                        lemma_prefix_trans(lo, l0, self.lines@);
                    }
                },
            }
            i = i + 1;
        }
    }
}

/// `ch` holds the hooks of `chain` followed by those of the group `node`,
/// and the labels of `chain` followed by the group's.
pub open spec fn pushed_chain(chain: HookChain, node: TestNode, ch: HookChain) -> bool {
    match node {
        TestNode::Describe { labels, before_each, after_each, just_before_each, .. } => {
            &&& ch.before_each@ == chain.before_each@ + before_each@
            &&& ch.after_each@ == chain.after_each@ + after_each@
            &&& ch.just_before_each@ == chain.just_before_each@ + just_before_each@
            &&& seqs(ch.labels@) == seqs(chain.labels@) + views(labels@)
        },
        _ => false,
    }
}

/// The hooks `ids` when they run, else none.
pub open spec fn hooks_if(run: bool, ids: Seq<usize>) -> Seq<usize> {
    if run {
        ids
    } else {
        Seq::empty()
    }
}

impl<'a, V, B, K, L> Runner<'a, V, B, K, L> where
    B: Fn(&mut FixtureStore<V>) -> Outcome,
    K: Fn() -> u64,
    L: Fn(&mut FixtureStore<V>) -> Outcome,
 {
    /// What running `node` does, by its kind.
    pub open spec fn node_effect(
        before: Self,
        after: Self,
        node: TestNode,
        depth: usize,
        path: Seq<Seq<char>>,
        chain: HookChain,
        force: bool,
    ) -> bool
        decreases node, 2int,
    {
        match node {
            TestNode::Describe { .. } => Self::describe_effect(before, after, node, depth, path, chain, force),
            TestNode::It { .. } => Self::it_effect(before, after, node, depth, path, chain, force),
            TestNode::Ordered { .. } => Self::ordered_effect(before, after, node, depth, path, chain, force),
        }
    }

    /// What running the nodes `nodes` in order at `depth` does: each node
    /// runs as [`Self::node_effect`] says, under hooks and labels equal to
    /// those of `chain`, until the run is aborted; after that nothing more
    /// happens.
    pub open spec fn nodes_effect(
        before: Self,
        after: Self,
        nodes: Seq<TestNode>,
        depth: usize,
        path: Seq<Seq<char>>,
        chain: HookChain,
        force: bool,
    ) -> bool
        decreases nodes, 3int,
    {
        if nodes.len() == 0 {
            after == before
        } else {
            exists|mid: Self, ch: HookChain|
                #![trigger Self::grows(before, mid), same_chain(ch, chain)]
                Self::grows(before, mid) && same_chain(ch, chain) && Self::nodes_step(
                    before,
                    mid,
                    after,
                    ch,
                    nodes,
                    depth,
                    path,
                    chain,
                    force,
                )
        }
    }

    /// The last step of [`Self::nodes_effect`]: all nodes but the last took
    /// `before` to `mid`; the last one, unless the run was aborted by then,
    /// takes `mid` to `after` under the hooks and labels of `ch`.
    pub open spec fn nodes_step(
        before: Self,
        mid: Self,
        after: Self,
        ch: HookChain,
        nodes: Seq<TestNode>,
        depth: usize,
        path: Seq<Seq<char>>,
        chain: HookChain,
        force: bool,
    ) -> bool
        decreases nodes, 2int,
    {
        &&& nodes.len() > 0
        &&& Self::nodes_effect(before, mid, nodes.drop_last(), depth, path, chain, force)
        &&& if mid.abort is Some {
            after == mid
        } else {
            &&& after.same_setup(mid)
            &&& Self::node_effect(mid, after, nodes.last(), depth, path, ch, force)
        }
    }

    /// What running the group `node` at `depth`, under the groups `path` with
    /// the hooks and labels of `chain`, does (`force`: an enclosing group is
    /// focused). The group's name comes first. A pending group reports all it
    /// holds as pending. Otherwise its scope runs as [`Self::scope_states`]
    /// says. Either way the fixture store's scope layers are afterwards what
    /// they were before.
    pub open spec fn describe_effect(
        before: Self,
        after: Self,
        node: TestNode,
        depth: usize,
        path: Seq<Seq<char>>,
        chain: HookChain,
        force: bool,
    ) -> bool
        decreases node, 1int,
    {
        match node {
            TestNode::Describe { name, pending, children, .. } => {
                &&& after.lines@.len() > before.lines@.len()
                &&& after.lines@[before.lines@.len() as int]@ == (LineView::Group { depth, name: name@ })
                &&& after.store.layers() == before.store.layers()
                &&& pending ==> {
                    &&& lines_view(after.lines@) == lines_view(before.lines@).push(LineView::Group { depth, name: name@ })
                        + pending_from(children@, 0, deeper(depth))
                    &&& bumped(before.result, after.result, (0, 0, leaves_from(children@, 0), 0))
                    &&& after.result.failures == before.result.failures
                    &&& after.calls == before.calls
                    &&& after.abort == before.abort
                    &&& after.skip_flag == before.skip_flag
                    &&& after.store == before.store
                }
                &&& !pending ==> exists|m1: Self, m2: Self, ch: HookChain|
                    #![trigger m1.same_config(before), m2.same_setup(m1), pushed_chain(chain, node, ch)]
                    m1.same_config(before) && m2.same_setup(m1) && pushed_chain(chain, node, ch)
                        && Self::scope_states(before, after, m1, m2, ch, node, depth, path, chain, force)
            },
            _ => false,
        }
    }

    /// The run of the scope of the group `node` that is not pending, through
    /// the states `m1` (after its `before_all` hooks) and `m2` (after its
    /// children), its children running under the hooks and labels `ch` (those
    /// of `chain` followed by the group's, see [`pushed_chain`]):
    /// - its name is reported, then its `before_all` bodies run in order up to
    ///   the first failure;
    /// - a failing `before_all` is reported as `"{p} (before_all): {msg}"`
    ///   and no child runs; otherwise the children run one level deeper, under
    ///   the group's path, with its hooks appended to those of `chain`, its
    ///   labels to the enclosing ones, focused if the group or an enclosing
    ///   one is;
    /// - unless the run was aborted, its `after_all` bodies then run in order
    ///   up to the first failure, which is reported as
    ///   `"{p} (after_all): {msg}"`.
    ///
    /// The scope runs on a fixture scope layer of its own: a fresh, empty
    /// layer is pushed before its `before_all` hooks, its hooks and children
    /// keep the layers outside it, and it is popped at the end, so the store's
    /// layers are afterwards what they were before (values stored by its
    /// `before_all` hooks are gone and outer values of the same key are seen
    /// again).
    ///
    /// Where the group has `before_all`/`after_all` hooks and nothing in it
    /// would run, the hooks are left out.
    pub open spec fn scope_states(
        before: Self,
        after: Self,
        m1: Self,
        m2: Self,
        ch: HookChain,
        node: TestNode,
        depth: usize,
        path: Seq<Seq<char>>,
        chain: HookChain,
        force: bool,
    ) -> bool
        decreases node, 0int,
    {
        match node {
            TestNode::Describe {
                name,
                focused,
                labels,
                children,
                before_all,
                after_all,
                ..
            } => {
                let p = full_path(path, name@);
                let inner = path.push(name@);
                let ls = seqs(chain.labels@) + views(labels@);
                let hooks_run = runnable_from(children@, 0, inner, ls, force || focused, *before.config, before.focus_mode)
                    || (before_all@.len() == 0 && after_all@.len() == 0);
                let ba = hooks_if(hooks_run, before_all@);
                let aa = hooks_if(hooks_run, after_all@);
                let seg1 = m1.calls@.skip(before.calls@.len() as int);
                let seg3 = after.calls@.skip(m2.calls@.len() as int);
                &&& m1.same_config(before)
                &&& m1.store.layers() == before.store.layers().push(m1.store.layers().last())
                &&& seg1.len() == 0 ==> m1.store.layers().last() == Map::<u64, V>::empty()
                &&& m1.calls@.len() >= before.calls@.len()
                &&& m1.calls@.take(before.calls@.len() as int) == before.calls@
                &&& ran_until_failure(seg1, ba)
                &&& m1.skip_flag == skip_fold(before.skip_flag, seg1)
                &&& m1.result == before.result
                &&& m1.lines@.len() == before.lines@.len() + 1
                &&& m1.lines@.drop_last() == before.lines@
                &&& m1.lines@.last()@ == (LineView::Group { depth, name: name@ })
                &&& m1.abort == before.abort
                &&& m2.same_setup(m1)
                &&& match first_failure(seg1) {
                    Some(m) => {
                        &&& m2.calls == m1.calls
                        &&& m2.skip_flag == m1.skip_flag
                        &&& m2.abort == m1.abort
                        &&& Self::hook_reported(m1, m2, depth, HookPhase::BeforeAll, p, m@)
                    },
                    None => Self::nodes_effect(m1, m2, children@, deeper(depth), inner, ch, force || focused),
                }
                &&& after.same_config(m2)
                &&& after.store.layers() == before.store.layers()
                &&& match m2.abort {
                    Some(_) => Self::untouched(m2, after),
                    None => {
                        &&& after.calls@.len() >= m2.calls@.len()
                        &&& after.calls@.take(m2.calls@.len() as int) == m2.calls@
                        &&& ran_until_failure(seg3, aa)
                        &&& after.skip_flag == skip_fold(m2.skip_flag, seg3)
                        &&& after.abort == m2.abort
                        &&& match first_failure(seg3) {
                            Some(m) => Self::hook_reported(m2, after, depth, HookPhase::AfterAll, p, m@),
                            None => {
                                &&& after.result == m2.result
                                &&& after.lines == m2.lines
                            },
                        }
                    },
                }
            },
            _ => false,
        }
    }

    /// A failing `before_all`/`after_all` body of the group at path `p`
    /// failed with `m` and was reported: one more failure, described as
    /// `"{p} (before_all): {m}"` or `"{p} (after_all): {m}"`, and one more
    /// report line.
    pub open spec fn hook_reported(before: Self, after: Self, depth: usize, phase: HookPhase, p: Seq<char>, m: Seq<char>) -> bool {
        &&& bumped(before.result, after.result, (0, 1, 0, 0))
        &&& after.result.failures@.len() == before.result.failures@.len() + 1
        &&& after.result.failures@.drop_last() == before.result.failures@
        &&& after.result.failures@.last()@ == p + (if phase == HookPhase::BeforeAll {
            " (before_all): "@
        } else {
            " (after_all): "@
        }) + m
        &&& after.lines@.len() == before.lines@.len() + 1
        &&& after.lines@.drop_last() == before.lines@
        &&& after.lines@.last()@ == (LineView::HookFailed { depth, phase, msg: m })
    }

    /// Report a failing `before_all`/`after_all` of the group at path `p`.
    fn report_hook(&mut self, depth: usize, phase: HookPhase, p: &String, m: String)
        requires
            old(self).result.wf(),
            old(self).result.total() < usize::MAX,
        ensures
            final(self).same_setup(*old(self)),
            final(self).result.wf(),
            Self::hook_reported(*old(self), *final(self), depth, phase, p@, m@),
            final(self).calls == old(self).calls,
            final(self).abort == old(self).abort,
            final(self).skip_flag == old(self).skip_flag,
    {
        let tag = match phase {
            HookPhase::BeforeAll => " (before_all): ",
            HookPhase::AfterAll => " (after_all): ",
        };
        let desc = concat(concat(p.as_str(), tag).as_str(), m.as_str());
        self.lines.push(Line::HookFailed { depth, phase, msg: m });
        self.result.failed = self.result.failed + 1;
        self.result.failures.push(desc);
        assert(self.result.failures@.drop_last() =~= old(self).result.failures@);
        assert(self.lines@.drop_last() =~= old(self).lines@);
    }
}

impl<'a, V, B, K, L> Runner<'a, V, B, K, L> where
    B: Fn(&mut FixtureStore<V>) -> Outcome,
    K: Fn() -> u64,
    L: Fn(&mut FixtureStore<V>) -> Outcome,
 {
    /// `after` continues `before`: the same setup, the calls, the report and
    /// the failure descriptions only grew, the counters only rose, and an
    /// abort stays.
    pub open spec fn grows(before: Self, after: Self) -> bool {
        &&& after.same_setup(before)
        &&& after.result.wf()
        &&& after.calls@.len() >= before.calls@.len()
        &&& after.calls@.take(before.calls@.len() as int) == before.calls@
        &&& after.lines@.len() >= before.lines@.len()
        &&& after.lines@.take(before.lines@.len() as int) == before.lines@
        &&& after.result.failures@.len() >= before.result.failures@.len()
        &&& after.result.failures@.take(before.result.failures@.len() as int) == before.result.failures@
        &&& after.result.passed >= before.result.passed
        &&& after.result.failed >= before.result.failed
        &&& after.result.pending >= before.result.pending
        &&& after.result.skipped >= before.result.skipped
        &&& (before.abort is Some ==> after.abort == before.abort)
        &&& (before.abort is None ==> (after.abort matches Some(m) ==> m@ == focus_refusal()))
    }

    /// Run the nodes of `nodes` in order at `depth` (see
    /// [`Self::nodes_effect`]); once the run is aborted the rest is passed
    /// over.
    pub fn run_nodes(&mut self, nodes: &Vec<TestNode>, depth: usize, path: &mut Vec<String>, chain: &mut HookChain, force: bool)
        requires
            old(self).callable(),
            forall|i: int, s: &mut FixtureStore<V>, o: Outcome|
                0 <= i < old(self).bodies@.len() && #[trigger] call_ensures(old(self).bodies@[i], (s,), o) ==> (*final(s)).keeps_outer(*s),
            forall|s: &mut FixtureStore<V>, o: Outcome| #[trigger] call_ensures(*old(self).cleanup, (s,), o) ==> (*final(s)).keeps_outer(*s),
            old(self).result.wf(),
            old(self).result.total() + cost_from(nodes@, 0) <= usize::MAX,
        ensures
            final(self).callable(),
            Self::grows(*old(self), *final(self)),
            final(self).result.total() <= old(self).result.total() + cost_from(nodes@, 0),
            old(self).abort is Some ==> Self::untouched(*old(self), *final(self)),
            final(path)@ == old(path)@,
            same_chain(*final(chain), *old(chain)),
            Self::nodes_effect(*old(self), *final(self), nodes@, depth, views(old(path)@), *old(chain), force),
        decreases nodes@, 2int,
    {
        let mut i: usize = 0;
        let ghost s0 = *self;
        let ghost pv = views(old(path)@);
        let ghost c0 = *old(chain);
        assert(self.calls@.take(s0.calls@.len() as int) =~= s0.calls@);
        assert(self.lines@.take(s0.lines@.len() as int) =~= s0.lines@);
        assert(self.result.failures@.take(s0.result.failures@.len() as int) =~= s0.result.failures@);
        assert(nodes@.take(0) =~= Seq::<TestNode>::empty());
        while i < nodes.len()
            invariant
                i <= nodes@.len(),
                s0 == *old(self),
                pv == views(old(path)@),
                c0 == *old(chain),
                self.callable(),
                forall|i: int, s: &mut FixtureStore<V>, o: Outcome|
                    0 <= i < self.bodies@.len() && #[trigger] call_ensures(self.bodies@[i], (s,), o) ==> (*final(s)).keeps_outer(*s),
                forall|s: &mut FixtureStore<V>, o: Outcome| #[trigger] call_ensures(*self.cleanup, (s,), o) ==> (*final(s)).keeps_outer(*s),
                Self::grows(s0, *self),
                self.result.total() + cost_from(nodes@, i as int) <= s0.result.total() + cost_from(nodes@, 0),
                s0.result.total() + cost_from(nodes@, 0) <= usize::MAX,
                s0.abort is Some ==> Self::untouched(s0, *self),
                path@ == old(path)@,
                same_chain(*chain, *old(chain)),
                Self::nodes_effect(s0, *self, nodes@.take(i as int), depth, pv, c0, force),
            decreases nodes@.len() - i,
        {
            let ghost s1 = *self;
            let ghost ch1 = *chain;
            assert(decreases_to!(nodes@ => nodes@[i as int]));
            assert(cost_from(nodes@, i as int) == node_cost(nodes@[i as int]) + cost_from(nodes@, i + 1));
            if self.abort.is_none() {
                self.run_node(&nodes[i], depth, path, chain, force);
                proof {
                    lemma_prefix_trans(s0.calls@, s1.calls@, self.calls@);
                    lemma_prefix_trans(s0.lines@, s1.lines@, self.lines@);
                    lemma_prefix_trans(s0.result.failures@, s1.result.failures@, self.result.failures@);
                }
            }
            proof {
                let done = nodes@.take(i + 1);
                assert(done.drop_last() =~= nodes@.take(i as int));
                assert(done.last() == nodes@[i as int]);
                assert(Self::nodes_effect(s0, s1, done.drop_last(), depth, pv, c0, force));
                if s1.abort is None {
                    assert(Self::node_effect(s1, *self, done.last(), depth, pv, ch1, force));
                }
                assert(Self::nodes_step(s0, s1, *self, ch1, done, depth, pv, c0, force));
                assert(same_chain(ch1, c0));
                assert(Self::nodes_effect(s0, *self, done, depth, pv, c0, force));
            }
            i = i + 1;
        }
        proof {
            assert(nodes@.take(nodes@.len() as int) =~= nodes@);
        }
    }

    /// Run one node at `depth`.
    pub fn run_node(&mut self, node: &TestNode, depth: usize, path: &mut Vec<String>, chain: &mut HookChain, force: bool)
        requires
            old(self).callable(),
            forall|i: int, s: &mut FixtureStore<V>, o: Outcome|
                0 <= i < old(self).bodies@.len() && #[trigger] call_ensures(old(self).bodies@[i], (s,), o) ==> (*final(s)).keeps_outer(*s),
            forall|s: &mut FixtureStore<V>, o: Outcome| #[trigger] call_ensures(*old(self).cleanup, (s,), o) ==> (*final(s)).keeps_outer(*s),
            old(self).result.wf(),
            old(self).result.total() + node_cost(*node) <= usize::MAX,
            old(self).abort is None,
        ensures
            final(self).callable(),
            Self::grows(*old(self), *final(self)),
            final(self).result.total() <= old(self).result.total() + node_cost(*node),
            final(path)@ == old(path)@,
            same_chain(*final(chain), *old(chain)),
            Self::node_effect(*old(self), *final(self), *node, depth, views(old(path)@), *old(chain), force),
        decreases *node, 1int,
    {
        match node {
            TestNode::Describe { .. } => {
                self.run_describe_node(node, depth, path, chain, force);
            },
            TestNode::It { .. } => {
                self.run_it_node(node, depth, path, chain, force);
            },
            TestNode::Ordered { .. } => {
                self.run_ordered_node(node, depth, path, chain, force);
            },
        }
    }

    /// Run the group `node` (see [`Self::describe_effect`]): its name, then,
    /// in a fresh fixture scope, its `before_all` hooks, its children (unless a
    /// `before_all` failed) and its `after_all` hooks.
    pub fn run_describe_node(&mut self, node: &TestNode, depth: usize, path: &mut Vec<String>, chain: &mut HookChain, force: bool)
        requires
            old(self).callable(),
            forall|i: int, s: &mut FixtureStore<V>, o: Outcome|
                0 <= i < old(self).bodies@.len() && #[trigger] call_ensures(old(self).bodies@[i], (s,), o) ==> (*final(s)).keeps_outer(*s),
            forall|s: &mut FixtureStore<V>, o: Outcome| #[trigger] call_ensures(*old(self).cleanup, (s,), o) ==> (*final(s)).keeps_outer(*s),
            old(self).result.wf(),
            old(self).result.total() + node_cost(*node) <= usize::MAX,
            old(self).abort is None,
            node is Describe,
        ensures
            final(self).callable(),
            Self::grows(*old(self), *final(self)),
            final(self).result.total() <= old(self).result.total() + node_cost(*node),
            final(path)@ == old(path)@,
            same_chain(*final(chain), *old(chain)),
            Self::describe_effect(*old(self), *final(self), *node, depth, views(old(path)@), *old(chain), force),
        decreases *node, 0int,
    {
        let ghost s0 = *self;
        let ghost ch0 = *chain;
        let ghost p0 = path@;
        if let TestNode::Describe { name, focused, pending, labels, children, before_all, after_all, .. } = node {
            let group = Line::Group { depth, name: string_from(name.as_str()) };
            proof {
                lemma_lines_view_push(s0.lines@, group);
            }
            self.lines.push(group);
            let ghost s1 = *self;
            let ghost nl = s0.lines@.len() as int;
            assert(s1.lines@.take(nl) =~= s0.lines@);
            assert(s1.lines@.drop_last() =~= s0.lines@);
            assert(self.calls@.take(s0.calls@.len() as int) =~= s0.calls@);
            assert(self.result.failures@.take(s0.result.failures@.len() as int) =~= s0.result.failures@);
            if *pending {
                proof {
                    lemma_leaves_le_cost_from(children@, 0);
                }
                self.run_nodes_pending(children, depth.saturating_add(1));
                proof {
                    lemma_prefix_trans(s0.lines@, s1.lines@, self.lines@);
                    assert(self.lines@[nl] == self.lines@.take(nl + 1)[nl]);
                    assert(s1.lines@.len() == nl + 1);
                }
                return;
            }
            let p = full_path_of(path, name);
            let child_force = force || *focused;
            path.push(string_from(name.as_str()));
            let saved = chain.push_describe(node);
            proof {
                assert(views(path@) =~= views(p0).push(name@));
            }
            let any = self.has_runnable_tests(children, path, chain, child_force);
            let ghost ch1 = *chain;
            assert(pushed_chain(ch0, *node, ch1));
            let has_hooks = before_all.len() > 0 || after_all.len() > 0;
            let child_depth = depth.saturating_add(1);
            self.store.push_scope_setup_layer();
            let ghost sp = self.store;
            let ghost mut m1: Self = *self;
            let ghost mut m2: Self = *self;
            if !any && has_hooks {
                proof {
                    m1 = *self;
                    let seg1 = m1.calls@.skip(s0.calls@.len() as int);
                    assert(seg1 =~= Seq::<(Call, Outcome)>::empty());
                    assert(m1.calls@.take(s0.calls@.len() as int) =~= s0.calls@);
                }
                self.run_nodes(children, child_depth, path, chain, child_force);
                proof {
                    m2 = *self;
                }
            } else {
                let ba = self.run_until_failure(before_all);
                proof {
                    m1 = *self;
                    assert(m1.lines@.take(s1.lines@.len() as int) =~= s1.lines@);
                    assert(m1.result.failures@.take(s0.result.failures@.len() as int) =~= s0.result.failures@);
                }
                match ba {
                    Err(m) => {
                        self.report_hook(depth, HookPhase::BeforeAll, &p, m);
                    },
                    Ok(()) => {
                        self.run_nodes(children, child_depth, path, chain, child_force);
                    },
                }
                proof {
                    m2 = *self;
                }
            }
            let ghost c2 = self.calls@;
            assert(m1.lines@ == s1.lines@);
            assert(m1.lines@.take(s1.lines@.len() as int) =~= s1.lines@);
            assert(c2.take(m1.calls@.len() as int) =~= m1.calls@);
            assert(m2.lines@.take(m1.lines@.len() as int) =~= m1.lines@);
            assert(m2.result.failures@.take(m1.result.failures@.len() as int) =~= m1.result.failures@);
            if self.abort.is_none() {
                let aa = if !any && has_hooks {
                    Ok(())
                } else {
                    self.run_until_failure(after_all)
                };
                match aa {
                    Err(m) => {
                        self.report_hook(depth, HookPhase::AfterAll, &p, m);
                    },
                    Ok(()) => {},
                }
            }
            let ghost m3 = self.store;
            proof {
                assert(sp.layers() == s0.store.layers().push(Map::<u64, V>::empty()));
                assert(sp.layers().drop_last() =~= s0.store.layers());
                assert(m1.store.keeps_outer(sp));
                assert(m2.store.keeps_outer(m1.store));
                assert(m3.keeps_outer(m2.store));
                assert(m3.layers().len() > 0);
                assert(m3.layers().drop_last() == s0.store.layers());
                assert(m1.store.layers() =~= s0.store.layers().push(m1.store.layers().last()));
                if m1.calls@.len() == s0.calls@.len() {
                    assert(m1.store == sp);
                    assert(m1.store.layers().last() =~= Map::<u64, V>::empty());
                }
            }
            self.store.pop_scope_setup_layer();
            let ghost c3 = self.calls@;
            assert(c3.take(c2.len() as int) =~= c2);
            assert(self.lines@.take(m2.lines@.len() as int) =~= m2.lines@);
            assert(self.result.failures@.take(m2.result.failures@.len() as int) =~= m2.result.failures@);
            proof {
                lemma_prefix_trans(s0.calls@, m1.calls@, m2.calls@);
                lemma_prefix_trans(s0.calls@, m2.calls@, c3);
                lemma_prefix_trans(s0.lines@, s1.lines@, m1.lines@);
                lemma_prefix_trans(s0.lines@, m1.lines@, m2.lines@);
                lemma_prefix_trans(s0.lines@, m2.lines@, self.lines@);
                lemma_prefix_trans(s1.lines@, m1.lines@, m2.lines@);
                lemma_prefix_trans(s1.lines@, m2.lines@, self.lines@);
                lemma_prefix_trans(s0.result.failures@, m1.result.failures@, m2.result.failures@);
                lemma_prefix_trans(s0.result.failures@, m2.result.failures@, self.result.failures@);
                assert(self.lines@[nl] == self.lines@.take(nl + 1)[nl]);
                assert(m1.lines@ == s1.lines@);
                if m2.abort is None {
                    let seg3 = c3.skip(m2.calls@.len() as int);
                    if !any && has_hooks {
                        assert(seg3 =~= Seq::<(Call, Outcome)>::empty());
                    }
                }
                assert(Self::scope_states(s0, *self, m1, m2, ch1, *node, depth, views(p0), ch0, force));
                assert(pushed_chain(ch0, *node, ch1));
                assert(m1.same_config(s0));
                assert(m2.same_setup(m1));
            }
            chain.pop_describe(saved);
            path.pop();
            proof {
                assert(path@ =~= p0);
                assert(chain.before_each@ =~= ch0.before_each@);
                assert(chain.after_each@ =~= ch0.after_each@);
                assert(chain.just_before_each@ =~= ch0.just_before_each@);
                assert(chain.labels@ =~= ch0.labels@);
            }
        }
    }
}

/// A failing `before_all` hook stops its group: no child of the group runs,
/// the failure is reported as `"{p} (before_all): {msg}"`, and, unless the
/// run was aborted, the group's `after_all` hooks still run.
pub proof fn law_failed_before_all_skips_children<'a, V, B, K, L>(
    before: Runner<'a, V, B, K, L>,
    after: Runner<'a, V, B, K, L>,
    m1: Runner<'a, V, B, K, L>,
    m2: Runner<'a, V, B, K, L>,
    ch: HookChain,
    node: TestNode,
    depth: usize,
    path: Seq<Seq<char>>,
    chain: HookChain,
    force: bool,
    m: String,
) where
    B: Fn(&mut FixtureStore<V>) -> Outcome,
    K: Fn() -> u64,
    L: Fn(&mut FixtureStore<V>) -> Outcome,

    requires
        Runner::scope_states(before, after, m1, m2, ch, node, depth, path, chain, force),
        first_failure(m1.calls@.skip(before.calls@.len() as int)) == Some(m),
    ensures
        m2.calls == m1.calls,
        m2.result.failures@.last()@ == full_path(path, node->Describe_name@) + " (before_all): "@ + m@,
        m2.lines@.last()@ == (LineView::HookFailed { depth, phase: HookPhase::BeforeAll, msg: m@ }),
        before.abort is None ==> ran_until_failure(after.calls@.skip(m2.calls@.len() as int), node->Describe_after_all@),
{
    let seg1 = m1.calls@.skip(before.calls@.len() as int);
    assert(seg1.len() > 0);
}

/// A group that has `before_all`/`after_all` hooks but nothing that would
/// run calls none of those hooks: its children are still reported.
pub proof fn law_idle_group_calls_no_hook<'a, V, B, K, L>(
    before: Runner<'a, V, B, K, L>,
    after: Runner<'a, V, B, K, L>,
    m1: Runner<'a, V, B, K, L>,
    m2: Runner<'a, V, B, K, L>,
    ch: HookChain,
    node: TestNode,
    depth: usize,
    path: Seq<Seq<char>>,
    chain: HookChain,
    force: bool,
) where
    B: Fn(&mut FixtureStore<V>) -> Outcome,
    K: Fn() -> u64,
    L: Fn(&mut FixtureStore<V>) -> Outcome,

    requires
        Runner::scope_states(before, after, m1, m2, ch, node, depth, path, chain, force),
        !runnable_from(
            node->Describe_children@,
            0,
            path.push(node->Describe_name@),
            seqs(chain.labels@) + views(node->Describe_labels@),
            force || node->Describe_focused,
            *before.config,
            before.focus_mode,
        ),
    ensures
        m1.calls == before.calls,
        after.calls == m2.calls,
        Runner::nodes_effect(
            m1,
            m2,
            node->Describe_children@,
            deeper(depth),
            path.push(node->Describe_name@),
            ch,
            force || node->Describe_focused,
        ),
{
    assert(m1.calls@ =~= before.calls@.take(before.calls@.len() as int) + m1.calls@.skip(before.calls@.len() as int));
    assert(m1.calls@ =~= before.calls@);
    if m2.abort is None {
        assert(after.calls@ =~= m2.calls@.take(m2.calls@.len() as int) + after.calls@.skip(m2.calls@.len() as int));
        assert(after.calls@ =~= m2.calls@);
    }
}

proof fn lemma_runnable_at(
    nodes: Seq<TestNode>,
    i: int,
    j: int,
    path: Seq<Seq<char>>,
    ls: Seq<Seq<char>>,
    force: bool,
    cfg: RunConfig,
    focus_mode: bool,
)
    requires
        0 <= i <= j < nodes.len(),
        node_runnable(nodes[j], path, ls, force, cfg, focus_mode),
    ensures
        runnable_from(nodes, i, path, ls, force, cfg, focus_mode),
    decreases j - i,
{
    if i < j {
        lemma_runnable_at(nodes, i + 1, j, path, ls, force, cfg, focus_mode);
    }
}

proof fn lemma_runnable_prefix(
    nodes: Seq<TestNode>,
    i: int,
    path: Seq<Seq<char>>,
    ls: Seq<Seq<char>>,
    force: bool,
    cfg: RunConfig,
    focus_mode: bool,
)
    requires
        nodes.len() > 0,
        0 <= i,
        runnable_from(nodes.drop_last(), i, path, ls, force, cfg, focus_mode),
    ensures
        runnable_from(nodes, i, path, ls, force, cfg, focus_mode),
    decreases nodes.len() - i,
{
    let pre = nodes.drop_last();
    if i < pre.len() {
        assert(pre[i] == nodes[i]);
        if !node_runnable(pre[i], path, ls, force, cfg, focus_mode) {
            lemma_runnable_prefix(nodes, i + 1, path, ls, force, cfg, focus_mode);
        }
    }
}

/// Nodes in which nothing would run call no body: their specs are only
/// reported (pending, skipped, or not at all). This is why a group with
/// nothing runnable can leave its `before_all`/`after_all` hooks out.
pub proof fn law_idle_nodes_call_nothing<'a, V, B, K, L>(
    before: Runner<'a, V, B, K, L>,
    after: Runner<'a, V, B, K, L>,
    nodes: Seq<TestNode>,
    depth: usize,
    path: Seq<Seq<char>>,
    chain: HookChain,
    force: bool,
) where
    B: Fn(&mut FixtureStore<V>) -> Outcome,
    K: Fn() -> u64,
    L: Fn(&mut FixtureStore<V>) -> Outcome,

    requires
        Runner::nodes_effect(before, after, nodes, depth, path, chain, force),
        !runnable_from(nodes, 0, path, seqs(chain.labels@), force, *before.config, before.focus_mode),
    ensures
        after.calls == before.calls,
    decreases nodes, 1int,
{
    if nodes.len() > 0 {
        let ls = seqs(chain.labels@);
        assert(exists|mid: Runner<'a, V, B, K, L>, ch: HookChain|
            #![trigger Runner::grows(before, mid), same_chain(ch, chain)]
            Runner::grows(before, mid) && same_chain(ch, chain) && Runner::nodes_step(
                before,
                mid,
                after,
                ch,
                nodes,
                depth,
                path,
                chain,
                force,
            ));
        let (mid, ch) = choose|mid: Runner<'a, V, B, K, L>, ch: HookChain|
            Runner::grows(before, mid) && same_chain(ch, chain) && Runner::nodes_step(
                before,
                mid,
                after,
                ch,
                nodes,
                depth,
                path,
                chain,
                force,
            );
        let pre = nodes.drop_last();
        if runnable_from(pre, 0, path, ls, force, *before.config, before.focus_mode) {
            lemma_runnable_prefix(nodes, 0, path, ls, force, *before.config, before.focus_mode);
        }
        assert(decreases_to!(nodes => pre));
        law_idle_nodes_call_nothing(before, mid, pre, depth, path, chain, force);
        if mid.abort is None {
            let last = nodes.last();
            if node_runnable(last, path, ls, force, *before.config, before.focus_mode) {
                lemma_runnable_at(nodes, 0, nodes.len() - 1, path, ls, force, *before.config, before.focus_mode);
            }
            assert(seqs(ch.labels@) == ls);
            lemma_idle_node_calls_nothing(mid, after, last, depth, path, ch, force);
        }
    }
}

/// A node in which nothing would run calls no body.
proof fn lemma_idle_node_calls_nothing<'a, V, B, K, L>(
    before: Runner<'a, V, B, K, L>,
    after: Runner<'a, V, B, K, L>,
    node: TestNode,
    depth: usize,
    path: Seq<Seq<char>>,
    chain: HookChain,
    force: bool,
) where
    B: Fn(&mut FixtureStore<V>) -> Outcome,
    K: Fn() -> u64,
    L: Fn(&mut FixtureStore<V>) -> Outcome,

    requires
        Runner::node_effect(before, after, node, depth, path, chain, force),
        !node_runnable(node, path, seqs(chain.labels@), force, *before.config, before.focus_mode),
    ensures
        after.calls == before.calls,
    decreases node, 0int,
{
    match node {
        TestNode::Describe { name, focused, pending, labels, children, before_all, after_all, .. } => {
            if !pending {
                assert(Runner::describe_effect(before, after, node, depth, path, chain, force));
                assert(exists|m1: Runner<'a, V, B, K, L>, m2: Runner<'a, V, B, K, L>, ch: HookChain|
                    #![trigger m1.same_config(before), m2.same_setup(m1), pushed_chain(chain, node, ch)]
                    m1.same_config(before) && m2.same_setup(m1) && pushed_chain(chain, node, ch)
                        && Runner::scope_states(before, after, m1, m2, ch, node, depth, path, chain, force));
                let (m1, m2, ch) = choose|m1: Runner<'a, V, B, K, L>, m2: Runner<'a, V, B, K, L>, ch: HookChain|
                    m1.same_config(before) && m2.same_setup(m1) && pushed_chain(chain, node, ch)
                        && Runner::scope_states(before, after, m1, m2, ch, node, depth, path, chain, force);
                let seg1 = m1.calls@.skip(before.calls@.len() as int);
                assert(seg1.len() == 0);
                assert(m1.calls@ =~= before.calls@.take(before.calls@.len() as int) + seg1);
                assert(m1.calls@ =~= before.calls@);
                assert(seqs(ch.labels@) == seqs(chain.labels@) + views(labels@));
                assert(decreases_to!(node => children@));
                law_idle_nodes_call_nothing(m1, m2, children@, deeper(depth), path.push(name@), ch, force || focused);
                if m2.abort is None {
                    let seg3 = after.calls@.skip(m2.calls@.len() as int);
                    assert(seg3.len() == 0);
                    assert(after.calls@ =~= m2.calls@.take(m2.calls@.len() as int) + seg3);
                    assert(after.calls@ =~= m2.calls@);
                }
            }
        },
        _ => {},
    }
}

/// In focus mode, a spec that is neither focused nor inside a focused group
/// is counted as skipped and its body is not called, unless ignored specs are
/// included (a path filter that leaves it out, or marking it pending, comes
/// first).
pub proof fn law_focus_mode_skips_unfocused<'a, V, B, K, L>(
    before: Runner<'a, V, B, K, L>,
    after: Runner<'a, V, B, K, L>,
    node: TestNode,
    depth: usize,
    path: Seq<Seq<char>>,
    chain: HookChain,
) where
    B: Fn(&mut FixtureStore<V>) -> Outcome,
    K: Fn() -> u64,
    L: Fn(&mut FixtureStore<V>) -> Outcome,

    requires
        Runner::it_effect(before, after, node, depth, path, chain, false),
        node is It,
        !node->It_focused,
        !node->It_pending,
        before.focus_mode,
        !before.config.include_ignored,
        path_admits(before.config.filter, full_path(path, node->It_name@)),
    ensures
        after.calls == before.calls,
        after.result.skipped == before.result.skipped + 1,
        after.result.passed == before.result.passed,
        after.result.failed == before.result.failed,
        after.lines == before.lines,
{
}

/// A spec with neither retries nor repetitions makes exactly one attempt:
/// its calls are its `before_each`, `just_before_each` and body calls up to
/// the first failure, every `after_each` hook innermost first, and its
/// cleanups (see [`attempt_trace`]).
pub proof fn law_plain_spec_runs_once(seg: Seq<(Call, Outcome)>, chain: HookChain, test: usize, r: Result<(), String>)
    requires
        spec_runs(seg, None, None, chain, test, r),
    ensures
        exists|k: int| #[trigger] attempt_trace(seg, pre_ids(chain, test), chain.after_each@, k, r),
{
    let pre = pre_ids(chain, test);
    let post = chain.after_each@;
    let (j, m) = choose|j: int, m: nat|
        #![trigger tries(seg.skip(j), pre, post, 1, r), passed_rounds(seg.take(j), pre, post, 1, m)]
        0 <= j <= seg.len() && passed_rounds(seg.take(j), pre, post, 1, m) && tries(seg.skip(j), pre, post, 1, r) && m + 1 <= 1
            && (r is Ok ==> m + 1 == 1);
    assert(m == 0);
    assert(seg.take(j).len() == 0);
    assert(j == 0);
    assert(seg.skip(0) =~= seg);
    let (i, k, a) = choose|i: int, k: int, a: nat|
        #![trigger attempt_trace(seg.skip(i), pre, post, k, r), failed_attempts(seg.take(i), pre, post, a)]
        0 <= i <= seg.len() && failed_attempts(seg.take(i), pre, post, a) && attempt_trace(seg.skip(i), pre, post, k, r)
            && a + 1 <= 1 && (r is Err ==> a + 1 == 1);
    assert(a == 0);
    assert(seg.take(i).len() == 0);
    assert(i == 0);
    assert(attempt_trace(seg, pre, post, k, r));
}

/// Labels accumulate down the tree: the labels the children of a nested
/// group run under are those of the enclosing chain, then the outer group's,
/// then the inner group's (each spec's fate then adds its own, see
/// [`Runner::it_effect`]).
pub proof fn law_labels_accumulate(c0: HookChain, outer: TestNode, c1: HookChain, inner: TestNode, c2: HookChain)
    requires
        pushed_chain(c0, outer, c1),
        pushed_chain(c1, inner, c2),
    ensures
        seqs(c2.labels@) == seqs(c0.labels@) + views(outer->Describe_labels@) + views(inner->Describe_labels@),
{
}

/// The listing of the specs and ordered blocks of `nodes` from index `i` on,
/// under the groups `path`: each one's path that the path filter admits,
/// marked `" (pending)"` for a pending spec.
pub open spec fn list_from(nodes: Seq<TestNode>, i: int, path: Seq<Seq<char>>, filter: Option<String>) -> Seq<Seq<char>>
    decreases nodes, nodes.len() - i,
{
    if 0 <= i < nodes.len() {
        node_list(nodes[i], path, filter) + list_from(nodes, i + 1, path, filter)
    } else {
        Seq::<Seq<char>>::empty()
    }
}

/// The listing of one node under the groups `path`.
pub open spec fn node_list(node: TestNode, path: Seq<Seq<char>>, filter: Option<String>) -> Seq<Seq<char>>
    decreases node,
{
    match node {
        TestNode::Describe { name, children, .. } => list_from(children@, 0, path.push(name@), filter),
        TestNode::It { name, pending, .. } => {
            let p = full_path(path, name@);
            if !path_admits(filter, p) {
                Seq::<Seq<char>>::empty()
            } else if pending {
                seq![p + " (pending)"@]
            } else {
                seq![p]
            }
        },
        TestNode::Ordered { name, .. } => {
            let p = full_path(path, name@);
            if path_admits(filter, p) {
                seq![p]
            } else {
                Seq::<Seq<char>>::empty()
            }
        },
    }
}

/// Append to `out` the listing of `nodes` under the groups `path` (see
/// [`list_from`]).
pub fn list_tree(nodes: &Vec<TestNode>, path: &mut Vec<String>, filter: &Option<String>, out: &mut Vec<String>)
    ensures
        views(final(out)@) == views(old(out)@) + list_from(nodes@, 0, views(old(path)@), *filter),
        final(path)@ == old(path)@,
    decreases nodes@,
{
    let mut i: usize = 0;
    let ghost o0 = out@;
    while i < nodes.len()
        invariant
            i <= nodes@.len(),
            path@ == old(path)@,
            o0 == old(out)@,
            views(out@) + list_from(nodes@, i as int, views(path@), *filter) == views(o0) + list_from(nodes@, 0, views(path@), *filter),
        decreases nodes@.len() - i,
    {
        let ghost before = out@;
        let ghost rest = list_from(nodes@, i + 1, views(path@), *filter);
        match &nodes[i] {
            TestNode::Describe { name, children, .. } => {
                assert(decreases_to!(nodes@ => nodes@[i as int]));
                let ghost p0 = path@;
                path.push(string_from(name.as_str()));
                proof {
                    assert(views(path@) =~= views(p0).push(name@));
                }
                list_tree(children, path, filter, out);
                path.pop();
                proof {
                    assert(path@ =~= p0);
                }
            },
            TestNode::It { name, pending, .. } => {
                let p = full_path_of(path, name);
                if admits(filter, &p) {
                    if *pending {
                        out.push(concat(p.as_str(), " (pending)"));
                    } else {
                        out.push(p);
                    }
                    assert(views(out@) =~= views(before) + node_list(nodes@[i as int], views(path@), *filter));
                } else {
                    assert(views(out@) =~= views(before) + node_list(nodes@[i as int], views(path@), *filter));
                }
            },
            TestNode::Ordered { name, .. } => {
                let p = full_path_of(path, name);
                if admits(filter, &p) {
                    out.push(p);
                }
                assert(views(out@) =~= views(before) + node_list(nodes@[i as int], views(path@), *filter));
            },
        }
        assert(views(before) + (node_list(nodes@[i as int], views(path@), *filter) + rest) =~= views(before) + node_list(
            nodes@[i as int],
            views(path@),
            *filter,
        ) + rest);
        i = i + 1;
    }
}


/// The path filter is a case-insensitive substring test: with no filter every
/// path is admitted, and a filter is admitted exactly when its lowercased text
/// occurs somewhere in the lowercased path, at the start, the end or anywhere
/// between.
pub proof fn law_path_filter_is_substring(f: String, p: Seq<char>)
    ensures
        path_admits(None, p),
        path_admits(Some(f), p) <==> exists|i: int|
            0 <= i && i + lowercase(f@).len() <= lowercase(p).len() && #[trigger] lowercase(p).subrange(
                i,
                i + lowercase(f@).len(),
            ) == lowercase(f@),
{
    let lp = lowercase(p);
    let lf = lowercase(f@);
    if path_admits(Some(f), p) {
        let i = choose|i: int| crate::text::occurs_at(lp, lf, i);
        assert(lp.subrange(i, i + lf.len()) == lf);
    }
    if exists|i: int| 0 <= i && i + lf.len() <= lp.len() && #[trigger] lp.subrange(i, i + lf.len()) == lf {
        let i = choose|i: int| 0 <= i && i + lf.len() <= lp.len() && #[trigger] lp.subrange(i, i + lf.len()) == lf;
        assert(crate::text::occurs_at(lp, lf, i));
    }
}

/// Whatever comes before and after it in the lowercased path, a filter whose
/// lowercased text stands there admits the spec: it is not filtered out.
pub proof fn law_path_filter_admits_anywhere(
    cfg: RunConfig,
    f: String,
    p: Seq<char>,
    x: Seq<char>,
    y: Seq<char>,
    focus_mode: bool,
    pending: bool,
    focused: bool,
    ls: Seq<Seq<char>>,
)
    requires
        cfg.filter == Some(f),
        lowercase(p) == x + lowercase(f@) + y,
    ensures
        path_admits(Some(f), p),
        !(fate(cfg, focus_mode, p, pending, focused, ls) is Filtered),
{
    let lf = lowercase(f@);
    let i = x.len() as int;
    assert(lowercase(p).subrange(i, i + lf.len()) =~= lf);
    assert(crate::text::occurs_at(lowercase(p), lf, i));
}

} // verus!
