//! The suite builder: `Context` with `describe`/`it`/hooks, `ItBuilder`
//! decorators, ordered sequences and table-driven specs.
//!
//! A `Context` holds a stack of open groups (the root group at the bottom) and
//! the table of bodies; the tree names each body by its index in that table.
//! A spec registered with `it` is staged so that its decorators can be chained;
//! it is added to the current group at the next registration or group change,
//! so specs keep their declaration order.
use vstd::prelude::*;
use crate::text::{string_from, views};
use crate::tree::{NodeView, OrderedStep, TestNode, nodes_view, lemma_nodes_view, lemma_nodes_view_push, node_view};

verus! {

/// An open `describe` group being filled.
pub struct GroupFrame {
    pub name: String,
    pub focused: bool,
    pub pending: bool,
    pub labels: Vec<String>,
    pub before_each: Vec<usize>,
    pub after_each: Vec<usize>,
    pub before_all: Vec<usize>,
    pub after_all: Vec<usize>,
    pub just_before_each: Vec<usize>,
    pub children: Vec<TestNode>,
}

/// The value of an open group.
pub struct FrameView {
    pub name: Seq<char>,
    pub focused: bool,
    pub pending: bool,
    pub labels: Seq<Seq<char>>,
    pub before_each: Seq<usize>,
    pub after_each: Seq<usize>,
    pub before_all: Seq<usize>,
    pub after_all: Seq<usize>,
    pub just_before_each: Seq<usize>,
    pub children: Seq<NodeView>,
}

impl View for GroupFrame {
    type V = FrameView;

    open spec fn view(&self) -> FrameView {
        FrameView {
            name: self.name@,
            focused: self.focused,
            pending: self.pending,
            labels: views(self.labels@),
            before_each: self.before_each@,
            after_each: self.after_each@,
            before_all: self.before_all@,
            after_all: self.after_all@,
            just_before_each: self.just_before_each@,
            children: nodes_view(self.children@),
        }
    }
}

/// An empty group.
pub open spec fn empty_frame(name: Seq<char>, focused: bool, pending: bool) -> FrameView {
    FrameView {
        name,
        focused,
        pending,
        labels: Seq::empty(),
        before_each: Seq::empty(),
        after_each: Seq::empty(),
        before_all: Seq::empty(),
        after_all: Seq::empty(),
        just_before_each: Seq::empty(),
        children: Seq::empty(),
    }
}

/// The `describe` node a closed group becomes.
pub open spec fn frame_node(f: FrameView) -> NodeView {
    NodeView::Describe {
        name: f.name,
        focused: f.focused,
        pending: f.pending,
        labels: f.labels,
        before_each: f.before_each,
        after_each: f.after_each,
        before_all: f.before_all,
        after_all: f.after_all,
        just_before_each: f.just_before_each,
        children: f.children,
    }
}

/// `n` appended to the children of the innermost group.
pub open spec fn add_child(fs: Seq<FrameView>, n: NodeView) -> Seq<FrameView> {
    if fs.len() == 0 {
        fs
    } else {
        fs.update(fs.len() - 1, FrameView { children: fs.last().children.push(n), ..fs.last() })
    }
}

/// The groups, with an empty root group when there is none.
pub open spec fn rooted(fs: Seq<FrameView>) -> Seq<FrameView> {
    if fs.len() == 0 {
        seq![empty_frame(Seq::empty(), false, false)]
    } else {
        fs
    }
}

/// The innermost group closed into a `describe` child of its parent. The root
/// group is never closed.
pub open spec fn close_group(fs: Seq<FrameView>) -> Seq<FrameView> {
    if fs.len() < 2 {
        fs
    } else {
        add_child(fs.drop_last(), frame_node(fs.last()))
    }
}

/// Which hook list of a group.
pub enum HookKind {
    BeforeEach,
    AfterEach,
    BeforeAll,
    AfterAll,
    JustBeforeEach,
}

/// `id` appended to the chosen hook list of the innermost group.
pub open spec fn add_hook(fs: Seq<FrameView>, kind: HookKind, id: usize) -> Seq<FrameView> {
    if fs.len() == 0 {
        fs
    } else {
        let f = fs.last();
        fs.update(
            fs.len() - 1,
            match kind {
                HookKind::BeforeEach => FrameView { before_each: f.before_each.push(id), ..f },
                HookKind::AfterEach => FrameView { after_each: f.after_each.push(id), ..f },
                HookKind::BeforeAll => FrameView { before_all: f.before_all.push(id), ..f },
                HookKind::AfterAll => FrameView { after_all: f.after_all.push(id), ..f },
                HookKind::JustBeforeEach => FrameView {
                    just_before_each: f.just_before_each.push(id),
                    ..f
                },
            },
        )
    }
}

/// `ls` appended to the labels of the innermost group.
pub open spec fn add_labels(fs: Seq<FrameView>, ls: Seq<Seq<char>>) -> Seq<FrameView> {
    if fs.len() == 0 {
        fs
    } else {
        fs.update(fs.len() - 1, FrameView { labels: fs.last().labels + ls, ..fs.last() })
    }
}

/// The strings of `labels`.
fn owned_labels(labels: &[&str]) -> (r: Vec<String>)
    ensures
        views(r@) == labels@.map_values(|l: &str| l@),
{
    let mut r: Vec<String> = Vec::new();
    let mut i: usize = 0;
    while i < labels.len()
        invariant
            i <= labels@.len(),
            views(r@) == labels@.map_values(|l: &str| l@).take(i as int),
        decreases labels@.len() - i,
    {
        let ghost before = r@;
        r.push(string_from(labels[i]));
        assert(views(r@) =~= views(before).push(labels@[i as int]@));
        assert(labels@.map_values(|l: &str| l@).take(i + 1) =~= labels@.map_values(|l: &str| l@).take(i as int).push(labels@[i as int]@));
        i = i + 1;
    }
    assert(labels@.map_values(|l: &str| l@).take(labels@.len() as int) =~= labels@.map_values(|l: &str| l@));
    r
}

fn append_strings(v: &mut Vec<String>, extra: Vec<String>)
    ensures
        views(final(v)@) == views(old(v)@) + views(extra@),
{
    let ghost start = views(v@);
    let mut i: usize = 0;
    while i < extra.len()
        invariant
            i <= extra@.len(),
            views(v@) == start + views(extra@.take(i as int)),
        decreases extra@.len() - i,
    {
        let s = extra[i].clone();
        let ghost before = v@;
        v.push(s);
        assert(views(v@) =~= views(before).push(extra@[i as int]@));
        assert(views(extra@.take(i + 1)) =~= views(extra@.take(i as int)).push(extra@[i as int]@));
        i = i + 1;
    }
    assert(extra@.take(extra@.len() as int) =~= extra@);
}

/// Builder returned by [`Context::it`]: chains decorators onto the spec being
/// registered.
pub struct ItBuilder {
    name: String,
    body: usize,
    focused: bool,
    pending: bool,
    labels: Vec<String>,
    retries: Option<u32>,
    timeout_ms: Option<u64>,
    must_pass_repeatedly: Option<u32>,
}

impl View for ItBuilder {
    type V = NodeView;

    closed spec fn view(&self) -> NodeView {
        NodeView::It {
            name: self.name@,
            focused: self.focused,
            pending: self.pending,
            labels: views(self.labels@),
            retries: self.retries,
            timeout_ms: self.timeout_ms,
            must_pass_repeatedly: self.must_pass_repeatedly,
            test_fn: self.body,
        }
    }
}

/// The spec a fresh `it` registers: no labels, no decorators.
pub open spec fn plain_it(name: Seq<char>, body: usize, focused: bool, pending: bool) -> NodeView {
    NodeView::It {
        name,
        focused,
        pending,
        labels: Seq::empty(),
        retries: None,
        timeout_ms: None,
        must_pass_repeatedly: None,
        test_fn: body,
    }
}

/// A spec with its labels and decorators replaced.
pub open spec fn set_it(
    n: NodeView,
    labels: Seq<Seq<char>>,
    retries: Option<u32>,
    timeout_ms: Option<u64>,
    must_pass_repeatedly: Option<u32>,
) -> NodeView {
    match n {
        NodeView::It { name, focused, pending, test_fn, .. } => NodeView::It {
            name,
            focused,
            pending,
            labels,
            retries,
            timeout_ms,
            must_pass_repeatedly,
            test_fn,
        },
        other => other,
    }
}

impl ItBuilder {
    fn new(name: &str, body: usize, focused: bool, pending: bool) -> (r: ItBuilder)
        ensures
            r@ == plain_it(name@, body, focused, pending),
    {
        let r = ItBuilder {
            name: string_from(name),
            body,
            focused,
            pending,
            labels: Vec::new(),
            retries: None,
            timeout_ms: None,
            must_pass_repeatedly: None,
        };
        assert(views(r.labels@) =~= Seq::<Seq<char>>::empty());
        r
    }

    /// Add labels for filtering via `RSSPEC_LABEL_FILTER`. Labels accumulate
    /// across multiple calls.
    pub fn labels(&mut self, labels: &[&str]) -> (r: &mut Self)
        ensures
            *final(self) == *final(r),
            (*r)@ == set_it(
                old(self)@,
                old(self)@->It_labels + labels@.map_values(|s: &str| s@),
                old(self)@->It_retries,
                old(self)@->It_timeout_ms,
                old(self)@->It_must_pass_repeatedly,
            ),
    {
        let extra = owned_labels(labels);
        append_strings(&mut self.labels, extra);
        self
    }

    /// Retry the spec up to `n` additional times on failure.
    pub fn retries(&mut self, n: u32) -> (r: &mut Self)
        ensures
            *final(self) == *final(r),
            (*r)@ == set_it(
                old(self)@,
                old(self)@->It_labels,
                Some(n),
                old(self)@->It_timeout_ms,
                old(self)@->It_must_pass_repeatedly,
            ),
    {
        self.retries = Some(n);
        self
    }

    /// Fail the spec if it exceeds `ms` milliseconds. The timeout is checked
    /// after the body returns; a body cannot be aborted mid-run.
    pub fn timeout(&mut self, ms: u64) -> (r: &mut Self)
        ensures
            *final(self) == *final(r),
            (*r)@ == set_it(
                old(self)@,
                old(self)@->It_labels,
                old(self)@->It_retries,
                Some(ms),
                old(self)@->It_must_pass_repeatedly,
            ),
    {
        self.timeout_ms = Some(ms);
        self
    }

    /// Require the spec to pass `n` consecutive times.
    pub fn must_pass_repeatedly(&mut self, n: u32) -> (r: &mut Self)
        ensures
            *final(self) == *final(r),
            (*r)@ == set_it(
                old(self)@,
                old(self)@->It_labels,
                old(self)@->It_retries,
                old(self)@->It_timeout_ms,
                Some(n),
            ),
    {
        self.must_pass_repeatedly = Some(n);
        self
    }

    fn into_node(self) -> (r: TestNode)
        ensures
            r@ == self@,
    {
        TestNode::It {
            name: self.name,
            focused: self.focused,
            pending: self.pending,
            labels: self.labels,
            retries: self.retries,
            timeout_ms: self.timeout_ms,
            must_pass_repeatedly: self.must_pass_repeatedly,
            test_fn: self.body,
        }
    }
}

/// The group stack's values.
pub open spec fn frame_views(s: Seq<GroupFrame>) -> Seq<FrameView> {
    s.map_values(|f: GroupFrame| f@)
}

fn stack_add_child(stack: &mut Vec<GroupFrame>, node: TestNode)
    requires
        old(stack)@.len() >= 1,
    ensures
        final(stack)@.len() == old(stack)@.len(),
        frame_views(final(stack)@) == add_child(frame_views(old(stack)@), node@),
{
    let ghost fs = frame_views(stack@);
    let mut top = stack.pop().unwrap();
    let ghost t0 = top@;
    let ghost cs = top.children@;
    top.children.push(node);
    proof {
        lemma_nodes_view_push(cs, node);
    }
    stack.push(top);
    assert(frame_views(stack@) =~= add_child(fs, node@));
}

/// A new empty frame.
fn new_frame(name: String, focused: bool, pending: bool) -> (r: GroupFrame)
    ensures
        r@ == empty_frame(name@, focused, pending),
{
    let r = GroupFrame {
        name,
        focused,
        pending,
        labels: Vec::new(),
        before_each: Vec::new(),
        after_each: Vec::new(),
        before_all: Vec::new(),
        after_all: Vec::new(),
        just_before_each: Vec::new(),
        children: Vec::new(),
    };
    assert(views(r.labels@) =~= Seq::<Seq<char>>::empty());
    proof {
        lemma_nodes_view(r.children@);
    }
    assert(nodes_view(r.children@) =~= Seq::<NodeView>::empty());
    r
}

fn frame_into_node(f: GroupFrame) -> (r: TestNode)
    ensures
        r@ == frame_node(f@),
{
    let r = TestNode::Describe {
        name: f.name,
        focused: f.focused,
        pending: f.pending,
        labels: f.labels,
        before_each: f.before_each,
        after_each: f.after_each,
        before_all: f.before_all,
        after_all: f.after_all,
        just_before_each: f.just_before_each,
        children: f.children,
    };
    r
}

/// The ordered block `name` whose steps are named `names`, their bodies
/// registered from index `base` on.
pub open spec fn ordered_view(name: Seq<char>, cont: bool, names: Seq<Seq<char>>, base: nat) -> NodeView {
    NodeView::Ordered {
        name,
        labels: Seq::empty(),
        continue_on_failure: cont,
        steps: Seq::new(names.len(), |k: int| (names[k], (base + k) as usize)),
    }
}

/// The group a table becomes: one spec per case, named after the case, their
/// bodies registered from index `base` on.
pub open spec fn table_view(name: Seq<char>, names: Seq<Seq<char>>, base: nat) -> NodeView {
    NodeView::Describe {
        name,
        focused: false,
        pending: false,
        labels: Seq::empty(),
        before_each: Seq::empty(),
        after_each: Seq::empty(),
        before_all: Seq::empty(),
        after_all: Seq::empty(),
        just_before_each: Seq::empty(),
        children: Seq::new(names.len(), |k: int| plain_it(names[k], (base + k) as usize, false, false)),
    }
}

/// The steps of an ordered block being defined.
pub struct OrderedContext<B> {
    name: String,
    continue_on_failure: bool,
    steps: Vec<(String, B)>,
}

impl<B> OrderedContext<B> {
    /// The block's name.
    pub closed spec fn title(self) -> Seq<char> {
        self.name@
    }

    /// Whether later steps run after a failing one.
    pub closed spec fn cont(self) -> bool {
        self.continue_on_failure
    }

    /// The steps' names, in order.
    pub closed spec fn step_names(self) -> Seq<Seq<char>> {
        self.steps@.map_values(|st: (String, B)| st.0@)
    }

    /// The steps' bodies, in order.
    pub closed spec fn step_bodies(self) -> Seq<B> {
        self.steps@.map_values(|st: (String, B)| st.1)
    }

    fn new(name: &str, continue_on_failure: bool) -> (r: Self)
        ensures
            r.title() == name@,
            r.cont() == continue_on_failure,
            r.step_names().len() == 0,
            r.step_bodies().len() == 0,
    {
        OrderedContext { name: string_from(name), continue_on_failure, steps: Vec::new() }
    }

    /// Add a step; steps run in the order they are added.
    pub fn step(&mut self, name: &str, body: B)
        ensures
            final(self).title() == old(self).title(),
            final(self).cont() == old(self).cont(),
            final(self).step_names() == old(self).step_names().push(name@),
            final(self).step_bodies() == old(self).step_bodies().push(body),
    {
        self.steps.push((string_from(name), body));
        assert(self.step_names() =~= old(self).step_names().push(name@));
        assert(self.step_bodies() =~= old(self).step_bodies().push(body));
    }
}

/// Let `body` add the steps of `oct`.
fn fill_steps<B, F: FnOnce(&mut OrderedContext<B>)>(oct: &mut OrderedContext<B>, body: F)
    requires
        forall|o: &mut OrderedContext<B>| call_requires(body, (o,)),
    ensures
        exists|o: &mut OrderedContext<B>| #![trigger call_ensures(body, (o,), ())]
            *o == *old(oct) && call_ensures(body, (o,), ()) && *final(oct) == *final(o),
{
    body(oct);
}

/// A table-driven group being defined: named cases with their data.
pub struct TableBuilder<T> {
    name: String,
    cases: Vec<(String, T)>,
}

impl<T> TableBuilder<T> {
    /// The group's name.
    pub closed spec fn title(self) -> Seq<char> {
        self.name@
    }

    /// The cases' names, in order.
    pub closed spec fn case_names(self) -> Seq<Seq<char>> {
        self.cases@.map_values(|c: (String, T)| c.0@)
    }

    /// The cases' data, in order.
    pub closed spec fn case_data(self) -> Seq<T> {
        self.cases@.map_values(|c: (String, T)| c.1)
    }

    /// Add a case.
    pub fn case(self, name: &str, data: T) -> (r: Self)
        ensures
            r.title() == self.title(),
            r.case_names() == self.case_names().push(name@),
            r.case_data() == self.case_data().push(data),
    {
        let mut t = self;
        t.cases.push((string_from(name), data));
        assert(t.case_names() =~= self.case_names().push(name@));
        assert(t.case_data() =~= self.case_data().push(data));
        t
    }

    /// Add the table to `ctx`'s current group: a group named after the table
    /// with one spec per case, in order, whose body `make` builds from the
    /// case's data.
    pub fn run<B, F: Fn(T) -> B>(self, ctx: &mut Context<B>, make: F)
        requires
            forall|t: T| call_requires(make, (t,)),
        ensures
            final(ctx).table().len() == old(ctx).table().len() + self.case_data().len(),
            final(ctx).table().take(old(ctx).table().len() as int) == old(ctx).table(),
            forall|k: int|
                0 <= k < self.case_data().len() ==> call_ensures(
                    make,
                    (self.case_data()[k],),
                    #[trigger] final(ctx).table()[old(ctx).table().len() + k],
                ),
            final(ctx).frames() == add_child(old(ctx).settled(), table_view(self.title(), self.case_names(), old(ctx).table().len())),
            final(ctx).staged() is None,
    {
        let ghost names = self.case_names();
        let ghost data = self.case_data();
        let ghost t0 = ctx.table();
        let ghost set0 = ctx.settled();
        let TableBuilder { name, cases } = self;
        let base = ctx.bodies.len();
        let mut children: Vec<TestNode> = Vec::new();
        let ghost all = cases@;
        assert(nodes_view(children@) =~= Seq::<NodeView>::empty()) by {
            lemma_nodes_view(children@);
        }
        for c in it: cases.into_iter()
            invariant
                it.seq() == all,
                names == all.map_values(|c: (String, T)| c.0@),
                data == all.map_values(|c: (String, T)| c.1),
                forall|t: T| call_requires(make, (t,)),
                base == t0.len(),
                ctx.settled() == set0,
                ctx.table().len() == t0.len() + it.index(),
                ctx.table().take(t0.len() as int) == t0,
                forall|k: int| 0 <= k < it.index() ==> call_ensures(make, (data[k],), #[trigger] ctx.table()[t0.len() + k]),
                nodes_view(children@) == Seq::new(
                    it.index() as nat,
                    |k: int| plain_it(names[k], (t0.len() + k) as usize, false, false),
                ),
        {
            let (cname, d) = c;
            let ghost i = it.index();
            let b = make(d);
            let ghost before_table = ctx.table();
            let id = ctx.register(b);
            let node = TestNode::it(cname.as_str(), id);
            proof {
                assert(views(node->It_labels@) =~= Seq::<Seq<char>>::empty());
                assert(node_view(node) == plain_it(names[i as int], (t0.len() + i) as usize, false, false));
                lemma_nodes_view_push(children@, node);
                assert(ctx.table().take(t0.len() as int) =~= before_table.take(t0.len() as int));
            }
            children.push(node);
            proof {
                assert(nodes_view(children@) =~= Seq::new(
                    (i + 1) as nat,
                    |k: int| plain_it(names[k], (t0.len() + k) as usize, false, false),
                ));
                assert forall|k: int| 0 <= k < i + 1 implies call_ensures(make, (data[k],), #[trigger] ctx.table()[t0.len() + k]) by {
                    if k < i {
                        assert(ctx.table()[t0.len() + k] == before_table[t0.len() + k]);
                    }
                }
            }
        }
        assert(names.len() == all.len());
        assert(nodes_view(children@) == Seq::new(
            names.len(),
            |k: int| plain_it(names[k], (t0.len() + k) as usize, false, false),
        ));
        let node = TestNode::describe(name.as_str(), children);
        proof {
            assert(views(node->Describe_labels@) =~= Seq::<Seq<char>>::empty());
            assert(node->Describe_before_each@ =~= Seq::<usize>::empty());
            assert(node->Describe_after_each@ =~= Seq::<usize>::empty());
            assert(node->Describe_before_all@ =~= Seq::<usize>::empty());
            assert(node->Describe_after_all@ =~= Seq::<usize>::empty());
            assert(node->Describe_just_before_each@ =~= Seq::<usize>::empty());
            assert(node_view(node) == table_view(name@, names, t0.len()));
        }
        ctx.add_node(node);
    }
}

/// A handle for defining BDD test structure: the open groups and the table of
/// bodies of type `B`.
pub struct Context<B> {
    stack: Vec<GroupFrame>,
    bodies: Vec<B>,
    staged: ItBuilder,
    has_staged: bool,
}

impl<B> Context<B> {
    /// The open groups, outermost (the root) first.
    pub closed spec fn frames(self) -> Seq<FrameView> {
        frame_views(self.stack@)
    }

    /// The table of bodies; the tree names bodies by index into it.
    pub closed spec fn table(self) -> Seq<B> {
        self.bodies@
    }

    /// The spec registered by the last `it`, not yet added to its group.
    pub closed spec fn staged(self) -> Option<NodeView> {
        if self.has_staged {
            Some(self.staged@)
        } else {
            None
        }
    }

    /// The open groups with the staged spec added to the innermost one.
    pub open spec fn settled(self) -> Seq<FrameView> {
        match self.staged() {
            None => rooted(self.frames()),
            Some(n) => add_child(rooted(self.frames()), n),
        }
    }

    /// A builder with only the empty root group.
    pub fn new() -> (r: Self)
        ensures
            r.frames() == seq![empty_frame(Seq::empty(), false, false)],
            r.table().len() == 0,
            r.staged() is None,
    {
        let mut stack: Vec<GroupFrame> = Vec::new();
        stack.push(new_frame(String::new(), false, false));
        let r = Context { stack, bodies: Vec::new(), staged: ItBuilder::new("", 0, false, false), has_staged: false };
        assert(r.frames() =~= seq![empty_frame(Seq::empty(), false, false)]);
        r
    }

    /// Add the staged spec, if any, to the innermost group.
    fn settle(&mut self)
        ensures
            final(self).frames() == old(self).settled(),
            final(self).frames().len() >= 1,
            final(self).table() == old(self).table(),
            final(self).staged() is None,
    {
        if self.stack.len() == 0 {
            self.stack.push(new_frame(String::new(), false, false));
            assert(self.frames() =~= rooted(old(self).frames()));
        }
        if self.has_staged {
            let mut it = ItBuilder::new("", 0, false, false);
            std::mem::swap(&mut it, &mut self.staged);
            let node = it.into_node();
            stack_add_child(&mut self.stack, node);
            self.has_staged = false;
        }
    }

    /// Register a body in the table and return its index.
    fn register(&mut self, body: B) -> (id: usize)
        ensures
            id == old(self).table().len(),
            final(self).table() == old(self).table().push(body),
            final(self).frames() == old(self).frames(),
            final(self).staged() == old(self).staged(),
    {
        let id = self.bodies.len();
        self.bodies.push(body);
        id
    }

    /// Open a named group (entering a `describe`).
    pub fn push_group(&mut self, name: &str, focused: bool, pending: bool)
        ensures
            final(self).frames() == old(self).settled().push(empty_frame(name@, focused, pending)),
            final(self).table() == old(self).table(),
            final(self).staged() is None,
    {
        self.settle();
        self.stack.push(new_frame(string_from(name), focused, pending));
    }

    /// Close the innermost group into a `describe` node of its parent
    /// (leaving a `describe`). A group must be open: the root group is never
    /// closed.
    pub fn pop_group(&mut self)
        requires
            old(self).frames().len() >= 2,
        ensures
            final(self).frames() == close_group(old(self).settled()),
            final(self).table() == old(self).table(),
            final(self).staged() is None,
    {
        self.close_innermost();
    }

    /// Close the innermost group, if one is open, into its parent.
    fn close_innermost(&mut self)
        ensures
            final(self).frames() == close_group(old(self).settled()),
            final(self).table() == old(self).table(),
            final(self).staged() is None,
    {
        self.settle();
        if self.stack.len() >= 2 {
            let ghost fs = self.frames();
            let top = pop_frame(&mut self.stack);
            let node = frame_into_node(top);
            stack_add_child(&mut self.stack, node);
            assert(frame_views(self.stack@) =~= close_group(fs));
        }
    }

    fn describe_impl<F: FnOnce(&mut Context<B>)>(&mut self, name: &str, focused: bool, pending: bool, body: F)
        requires
            forall|c: &mut Context<B>| call_requires(body, (c,)),
        ensures
            exists|c: &mut Context<B>| #![trigger call_ensures(body, (c,), ())]
                (*c).frames() == old(self).settled().push(empty_frame(name@, focused, pending))
                && (*c).table() == old(self).table() && (*c).staged() is None
                && call_ensures(body, (c,), ())
                && final(self).frames() == close_group((*final(c)).settled())
                && final(self).table() == (*final(c)).table()
                && final(self).staged() is None,
    {
        self.push_group(name, focused, pending);
        body(self);
        self.close_innermost();
    }

    /// Define a named group of specs; `body` fills it. Aliases: `context`, `when`.
    pub fn describe<F: FnOnce(&mut Context<B>)>(&mut self, name: &str, body: F)
        requires
            forall|c: &mut Context<B>| call_requires(body, (c,)),
        ensures
            exists|c: &mut Context<B>| #![trigger call_ensures(body, (c,), ())]
                (*c).frames() == old(self).settled().push(empty_frame(name@, false, false))
                && (*c).table() == old(self).table() && (*c).staged() is None
                && call_ensures(body, (c,), ())
                && final(self).frames() == close_group((*final(c)).settled())
                && final(self).table() == (*final(c)).table()
                && final(self).staged() is None,
    {
        self.describe_impl(name, false, false, body)
    }

    /// Focused variant of `describe`: only focused groups and specs run.
    pub fn fdescribe<F: FnOnce(&mut Context<B>)>(&mut self, name: &str, body: F)
        requires
            forall|c: &mut Context<B>| call_requires(body, (c,)),
        ensures
            exists|c: &mut Context<B>| #![trigger call_ensures(body, (c,), ())]
                (*c).frames() == old(self).settled().push(empty_frame(name@, true, false))
                && (*c).table() == old(self).table() && (*c).staged() is None
                && call_ensures(body, (c,), ())
                && final(self).frames() == close_group((*final(c)).settled())
                && final(self).table() == (*final(c)).table()
                && final(self).staged() is None,
    {
        self.describe_impl(name, true, false, body)
    }

    /// Pending variant of `describe`: all children are pending and their bodies
    /// never execute.
    pub fn xdescribe<F: FnOnce(&mut Context<B>)>(&mut self, name: &str, body: F)
        requires
            forall|c: &mut Context<B>| call_requires(body, (c,)),
        ensures
            exists|c: &mut Context<B>| #![trigger call_ensures(body, (c,), ())]
                (*c).frames() == old(self).settled().push(empty_frame(name@, false, true))
                && (*c).table() == old(self).table() && (*c).staged() is None
                && call_ensures(body, (c,), ())
                && final(self).frames() == close_group((*final(c)).settled())
                && final(self).table() == (*final(c)).table()
                && final(self).staged() is None,
    {
        self.describe_impl(name, false, true, body)
    }

    /// Register a spec body under `name`; returns the builder for decorators.
    pub fn it(&mut self, name: &str, body: B) -> (r: &mut ItBuilder)
        ensures
            (*r)@ == plain_it(name@, old(self).table().len() as usize, false, false),
            final(self).table() == old(self).table().push(body),
            final(self).frames() == old(self).settled(),
            final(self).staged() == Some((*final(r))@),
    {
        self.it_impl(name, body, false, false)
    }

    /// Focused variant of `it`: only focused specs run; others are skipped.
    pub fn fit(&mut self, name: &str, body: B) -> (r: &mut ItBuilder)
        ensures
            (*r)@ == plain_it(name@, old(self).table().len() as usize, true, false),
            final(self).table() == old(self).table().push(body),
            final(self).frames() == old(self).settled(),
            final(self).staged() == Some((*final(r))@),
    {
        self.it_impl(name, body, true, false)
    }

    /// Pending variant of `it`: the body is registered but never executed.
    pub fn xit(&mut self, name: &str, body: B) -> (r: &mut ItBuilder)
        ensures
            (*r)@ == plain_it(name@, old(self).table().len() as usize, false, true),
            final(self).table() == old(self).table().push(body),
            final(self).frames() == old(self).settled(),
            final(self).staged() == Some((*final(r))@),
    {
        self.it_impl(name, body, false, true)
    }

    fn it_impl(&mut self, name: &str, body: B, focused: bool, pending: bool) -> (r: &mut ItBuilder)
        ensures
            (*r)@ == plain_it(name@, old(self).table().len() as usize, focused, pending),
            final(self).table() == old(self).table().push(body),
            final(self).frames() == old(self).settled(),
            final(self).staged() == Some((*final(r))@),
    {
        self.settle();
        let id = self.register(body);
        self.staged = ItBuilder::new(name, id, focused, pending);
        self.has_staged = true;
        &mut self.staged
    }

    fn add_hook_impl(&mut self, kind: HookKind, body: B)
        ensures
            final(self).table() == old(self).table().push(body),
            final(self).frames() == add_hook(old(self).settled(), kind, old(self).table().len() as usize),
            final(self).staged() is None,
    {
        self.settle();
        let id = self.register(body);
        let ghost fs = self.frames();
        let mut top = pop_frame(&mut self.stack);
        match kind {
            HookKind::BeforeEach => top.before_each.push(id),
            HookKind::AfterEach => top.after_each.push(id),
            HookKind::BeforeAll => top.before_all.push(id),
            HookKind::AfterAll => top.after_all.push(id),
            HookKind::JustBeforeEach => top.just_before_each.push(id),
        }
        self.stack.push(top);
        assert(self.frames() =~= add_hook(fs, kind, id));
    }

    /// Register a hook that runs before every spec in this group and nested
    /// groups, in registration order. It may store a per-test fixture.
    pub fn before_each(&mut self, hook: B)
        ensures
            final(self).table() == old(self).table().push(hook),
            final(self).frames() == add_hook(old(self).settled(), HookKind::BeforeEach, old(self).table().len() as usize),
            final(self).staged() is None,
    {
        self.add_hook_impl(HookKind::BeforeEach, hook)
    }

    /// Register a hook that runs after every spec in this group and nested
    /// groups, even if the spec fails. Hooks run inner-to-outer.
    pub fn after_each(&mut self, hook: B)
        ensures
            final(self).table() == old(self).table().push(hook),
            final(self).frames() == add_hook(old(self).settled(), HookKind::AfterEach, old(self).table().len() as usize),
            final(self).staged() is None,
    {
        self.add_hook_impl(HookKind::AfterEach, hook)
    }

    /// Register a hook that runs once before all specs of this group. Not
    /// inherited by nested groups; skipped if every child is filtered out. It
    /// may store a per-scope fixture.
    pub fn before_all(&mut self, hook: B)
        ensures
            final(self).table() == old(self).table().push(hook),
            final(self).frames() == add_hook(old(self).settled(), HookKind::BeforeAll, old(self).table().len() as usize),
            final(self).staged() is None,
    {
        self.add_hook_impl(HookKind::BeforeAll, hook)
    }

    /// Register a hook that runs once after all specs of this group, even if
    /// `before_all` failed.
    pub fn after_all(&mut self, hook: B)
        ensures
            final(self).table() == old(self).table().push(hook),
            final(self).frames() == add_hook(old(self).settled(), HookKind::AfterAll, old(self).table().len() as usize),
            final(self).staged() is None,
    {
        self.add_hook_impl(HookKind::AfterAll, hook)
    }

    /// Register a hook that runs after all `before_each` hooks, immediately
    /// before the spec body.
    pub fn just_before_each(&mut self, hook: B)
        ensures
            final(self).table() == old(self).table().push(hook),
            final(self).frames() == add_hook(old(self).settled(), HookKind::JustBeforeEach, old(self).table().len() as usize),
            final(self).staged() is None,
    {
        self.add_hook_impl(HookKind::JustBeforeEach, hook)
    }

    /// Alias for `describe`.
    pub fn context<F: FnOnce(&mut Context<B>)>(&mut self, name: &str, body: F)
        requires
            forall|c: &mut Context<B>| call_requires(body, (c,)),
        ensures
            exists|c: &mut Context<B>| #![trigger call_ensures(body, (c,), ())]
                (*c).frames() == old(self).settled().push(empty_frame(name@, false, false))
                && (*c).table() == old(self).table() && (*c).staged() is None
                && call_ensures(body, (c,), ())
                && final(self).frames() == close_group((*final(c)).settled())
                && final(self).table() == (*final(c)).table()
                && final(self).staged() is None,
    {
        self.describe_impl(name, false, false, body)
    }

    /// Alias for `fdescribe`.
    pub fn fcontext<F: FnOnce(&mut Context<B>)>(&mut self, name: &str, body: F)
        requires
            forall|c: &mut Context<B>| call_requires(body, (c,)),
        ensures
            exists|c: &mut Context<B>| #![trigger call_ensures(body, (c,), ())]
                (*c).frames() == old(self).settled().push(empty_frame(name@, true, false))
                && (*c).table() == old(self).table() && (*c).staged() is None
                && call_ensures(body, (c,), ())
                && final(self).frames() == close_group((*final(c)).settled())
                && final(self).table() == (*final(c)).table()
                && final(self).staged() is None,
    {
        self.describe_impl(name, true, false, body)
    }

    /// Alias for `xdescribe`.
    pub fn xcontext<F: FnOnce(&mut Context<B>)>(&mut self, name: &str, body: F)
        requires
            forall|c: &mut Context<B>| call_requires(body, (c,)),
        ensures
            exists|c: &mut Context<B>| #![trigger call_ensures(body, (c,), ())]
                (*c).frames() == old(self).settled().push(empty_frame(name@, false, true))
                && (*c).table() == old(self).table() && (*c).staged() is None
                && call_ensures(body, (c,), ())
                && final(self).frames() == close_group((*final(c)).settled())
                && final(self).table() == (*final(c)).table()
                && final(self).staged() is None,
    {
        self.describe_impl(name, false, true, body)
    }

    /// Alias for `describe`, for conditions.
    pub fn when<F: FnOnce(&mut Context<B>)>(&mut self, name: &str, body: F)
        requires
            forall|c: &mut Context<B>| call_requires(body, (c,)),
        ensures
            exists|c: &mut Context<B>| #![trigger call_ensures(body, (c,), ())]
                (*c).frames() == old(self).settled().push(empty_frame(name@, false, false))
                && (*c).table() == old(self).table() && (*c).staged() is None
                && call_ensures(body, (c,), ())
                && final(self).frames() == close_group((*final(c)).settled())
                && final(self).table() == (*final(c)).table()
                && final(self).staged() is None,
    {
        self.describe_impl(name, false, false, body)
    }

    /// Alias for `fdescribe`.
    pub fn fwhen<F: FnOnce(&mut Context<B>)>(&mut self, name: &str, body: F)
        requires
            forall|c: &mut Context<B>| call_requires(body, (c,)),
        ensures
            exists|c: &mut Context<B>| #![trigger call_ensures(body, (c,), ())]
                (*c).frames() == old(self).settled().push(empty_frame(name@, true, false))
                && (*c).table() == old(self).table() && (*c).staged() is None
                && call_ensures(body, (c,), ())
                && final(self).frames() == close_group((*final(c)).settled())
                && final(self).table() == (*final(c)).table()
                && final(self).staged() is None,
    {
        self.describe_impl(name, true, false, body)
    }

    /// Alias for `xdescribe`.
    pub fn xwhen<F: FnOnce(&mut Context<B>)>(&mut self, name: &str, body: F)
        requires
            forall|c: &mut Context<B>| call_requires(body, (c,)),
        ensures
            exists|c: &mut Context<B>| #![trigger call_ensures(body, (c,), ())]
                (*c).frames() == old(self).settled().push(empty_frame(name@, false, true))
                && (*c).table() == old(self).table() && (*c).staged() is None
                && call_ensures(body, (c,), ())
                && final(self).frames() == close_group((*final(c)).settled())
                && final(self).table() == (*final(c)).table()
                && final(self).staged() is None,
    {
        self.describe_impl(name, false, true, body)
    }

    /// Alias for `it`.
    pub fn specify(&mut self, name: &str, body: B) -> (r: &mut ItBuilder)
        ensures
            (*r)@ == plain_it(name@, old(self).table().len() as usize, false, false),
            final(self).table() == old(self).table().push(body),
            final(self).frames() == old(self).settled(),
            final(self).staged() == Some((*final(r))@),
    {
        self.it_impl(name, body, false, false)
    }

    /// Alias for `fit`.
    pub fn fspecify(&mut self, name: &str, body: B) -> (r: &mut ItBuilder)
        ensures
            (*r)@ == plain_it(name@, old(self).table().len() as usize, true, false),
            final(self).table() == old(self).table().push(body),
            final(self).frames() == old(self).settled(),
            final(self).staged() == Some((*final(r))@),
    {
        self.it_impl(name, body, true, false)
    }

    /// Alias for `xit`.
    pub fn xspecify(&mut self, name: &str, body: B) -> (r: &mut ItBuilder)
        ensures
            (*r)@ == plain_it(name@, old(self).table().len() as usize, false, true),
            final(self).table() == old(self).table().push(body),
            final(self).frames() == old(self).settled(),
            final(self).staged() == Some((*final(r))@),
    {
        self.it_impl(name, body, false, true)
    }

    /// Register an asynchronous spec: `body` drives the spec's future to completion on the run's shared runtime. Otherwise as `it`.
    pub fn async_it(&mut self, name: &str, body: B) -> (r: &mut ItBuilder)
        ensures
            (*r)@ == plain_it(name@, old(self).table().len() as usize, false, false),
            final(self).table() == old(self).table().push(body),
            final(self).frames() == old(self).settled(),
            final(self).staged() == Some((*final(r))@),
    {
        self.it_impl(name, body, false, false)
    }

    /// Focused variant of `async_it`.
    pub fn async_fit(&mut self, name: &str, body: B) -> (r: &mut ItBuilder)
        ensures
            (*r)@ == plain_it(name@, old(self).table().len() as usize, true, false),
            final(self).table() == old(self).table().push(body),
            final(self).frames() == old(self).settled(),
            final(self).staged() == Some((*final(r))@),
    {
        self.it_impl(name, body, true, false)
    }

    /// Pending variant of `async_it`.
    pub fn async_xit(&mut self, name: &str, body: B) -> (r: &mut ItBuilder)
        ensures
            (*r)@ == plain_it(name@, old(self).table().len() as usize, false, true),
            final(self).table() == old(self).table().push(body),
            final(self).frames() == old(self).settled(),
            final(self).staged() == Some((*final(r))@),
    {
        self.it_impl(name, body, false, true)
    }

    /// Alias for `async_it`.
    pub fn async_specify(&mut self, name: &str, body: B) -> (r: &mut ItBuilder)
        ensures
            (*r)@ == plain_it(name@, old(self).table().len() as usize, false, false),
            final(self).table() == old(self).table().push(body),
            final(self).frames() == old(self).settled(),
            final(self).staged() == Some((*final(r))@),
    {
        self.it_impl(name, body, false, false)
    }

    /// Alias for `async_fit`.
    pub fn async_fspecify(&mut self, name: &str, body: B) -> (r: &mut ItBuilder)
        ensures
            (*r)@ == plain_it(name@, old(self).table().len() as usize, true, false),
            final(self).table() == old(self).table().push(body),
            final(self).frames() == old(self).settled(),
            final(self).staged() == Some((*final(r))@),
    {
        self.it_impl(name, body, true, false)
    }

    /// Alias for `async_xit`.
    pub fn async_xspecify(&mut self, name: &str, body: B) -> (r: &mut ItBuilder)
        ensures
            (*r)@ == plain_it(name@, old(self).table().len() as usize, false, true),
            final(self).table() == old(self).table().push(body),
            final(self).frames() == old(self).settled(),
            final(self).staged() == Some((*final(r))@),
    {
        self.it_impl(name, body, false, true)
    }

    /// Asynchronous `before_each`: `hook` drives the hook's future on the run's shared runtime (and may store a per-test fixture).
    pub fn async_before_each(&mut self, hook: B)
        ensures
            final(self).table() == old(self).table().push(hook),
            final(self).frames() == add_hook(old(self).settled(), HookKind::BeforeEach, old(self).table().len() as usize),
            final(self).staged() is None,
    {
        self.add_hook_impl(HookKind::BeforeEach, hook)
    }

    /// Asynchronous `after_each`: `hook` drives the hook's future to completion.
    pub fn async_after_each(&mut self, hook: B)
        ensures
            final(self).table() == old(self).table().push(hook),
            final(self).frames() == add_hook(old(self).settled(), HookKind::AfterEach, old(self).table().len() as usize),
            final(self).staged() is None,
    {
        self.add_hook_impl(HookKind::AfterEach, hook)
    }

    /// Asynchronous `before_all`: `hook` drives the hook's future on the run's shared runtime (and may store a per-scope fixture).
    pub fn async_before_all(&mut self, hook: B)
        ensures
            final(self).table() == old(self).table().push(hook),
            final(self).frames() == add_hook(old(self).settled(), HookKind::BeforeAll, old(self).table().len() as usize),
            final(self).staged() is None,
    {
        self.add_hook_impl(HookKind::BeforeAll, hook)
    }

    /// Asynchronous `after_all`: `hook` drives the hook's future to completion.
    pub fn async_after_all(&mut self, hook: B)
        ensures
            final(self).table() == old(self).table().push(hook),
            final(self).frames() == add_hook(old(self).settled(), HookKind::AfterAll, old(self).table().len() as usize),
            final(self).staged() is None,
    {
        self.add_hook_impl(HookKind::AfterAll, hook)
    }

    /// Asynchronous `just_before_each`: `hook` drives the hook's future to completion.
    pub fn async_just_before_each(&mut self, hook: B)
        ensures
            final(self).table() == old(self).table().push(hook),
            final(self).frames() == add_hook(old(self).settled(), HookKind::JustBeforeEach, old(self).table().len() as usize),
            final(self).staged() is None,
    {
        self.add_hook_impl(HookKind::JustBeforeEach, hook)
    }

    /// Add labels to the current group. Labels accumulate across calls.
    pub fn labels(&mut self, labels: &[&str])
        ensures
            final(self).table() == old(self).table(),
            final(self).frames() == add_labels(old(self).settled(), labels@.map_values(|l: &str| l@)),
            final(self).staged() is None,
    {
        self.settle();
        let extra = owned_labels(labels);
        let ghost fs = self.frames();
        let mut top = pop_frame(&mut self.stack);
        let ghost t0 = top@;
        append_strings(&mut top.labels, extra);
        self.stack.push(top);
        assert(self.frames() =~= add_labels(fs, labels@.map_values(|l: &str| l@)));
    }

    /// Register the steps' bodies and build the ordered block.
    fn ordered_node(&mut self, oct: OrderedContext<B>) -> (node: TestNode)
        ensures
            node@ == ordered_view(oct.title(), oct.cont(), oct.step_names(), old(self).table().len()),
            final(self).table() == old(self).table() + oct.step_bodies(),
            final(self).frames() == old(self).frames(),
            final(self).staged() == old(self).staged(),
    {
        let ghost names = oct.step_names();
        let ghost bodies = oct.step_bodies();
        let ghost t0 = self.table();
        let OrderedContext { name, continue_on_failure, steps } = oct;
        let ghost all = steps@;
        let mut out: Vec<OrderedStep> = Vec::new();
        for st in it: steps.into_iter()
            invariant
                it.seq() == all,
                names == all.map_values(|st: (String, B)| st.0@),
                bodies == all.map_values(|st: (String, B)| st.1),
                self.table() == t0 + bodies.take(it.index() as int),
                self.frames() == old(self).frames(),
                self.staged() == old(self).staged(),
                t0 == old(self).table(),
                out@.map_values(|o: OrderedStep| (o.name@, o.body)) == Seq::new(
                    it.index() as nat,
                    |k: int| (names[k], (t0.len() + k) as usize),
                ),
        {
            let ghost i = it.index();
            let (sname, b) = st;
            let ghost sv = sname@;
            let id = self.register(b);
            let ghost before = out@;
            out.push(OrderedStep { name: sname, body: id });
            proof {
                assert(sv == names[i as int]);
                assert(out@.map_values(|o: OrderedStep| (o.name@, o.body)) =~= before.map_values(
                    |o: OrderedStep| (o.name@, o.body),
                ).push((sv, id)));
                assert(self.table() =~= t0 + bodies.take(i + 1));
                assert(out@.map_values(|o: OrderedStep| (o.name@, o.body)) =~= Seq::new(
                    (i + 1) as nat,
                    |k: int| (names[k], (t0.len() + k) as usize),
                ));
            }
        }
        proof {
            assert(bodies.take(all.len() as int) =~= bodies);
            assert(names.len() == all.len());
        }
        let node = TestNode::Ordered { name, labels: Vec::new(), continue_on_failure, steps: out };
        proof {
            assert(views(node->Ordered_labels@) =~= Seq::<Seq<char>>::empty());
        }
        node
    }

    fn ordered_impl<F: FnOnce(&mut OrderedContext<B>)>(&mut self, name: &str, cont: bool, body: F)
        requires
            forall|o: &mut OrderedContext<B>| call_requires(body, (o,)),
        ensures
            exists|o: &mut OrderedContext<B>| #![trigger call_ensures(body, (o,), ())]
                (*o).title() == name@ && (*o).cont() == cont && (*o).step_names().len() == 0
                && (*o).step_bodies().len() == 0 && call_ensures(body, (o,), ())
                && final(self).table() == old(self).table() + (*final(o)).step_bodies()
                && final(self).frames() == add_child(
                    old(self).settled(),
                    ordered_view((*final(o)).title(), (*final(o)).cont(), (*final(o)).step_names(), old(self).table().len()),
                )
                && final(self).staged() is None,
    {
        let mut oct = OrderedContext::new(name, cont);
        fill_steps(&mut oct, body);
        let node = self.ordered_node(oct);
        self.add_node(node);
    }

    /// Define an ordered sequence of steps that run as one spec: `body` adds
    /// the steps; a failing step stops the sequence.
    pub fn ordered<F: FnOnce(&mut OrderedContext<B>)>(&mut self, name: &str, body: F)
        requires
            forall|o: &mut OrderedContext<B>| call_requires(body, (o,)),
        ensures
            exists|o: &mut OrderedContext<B>| #![trigger call_ensures(body, (o,), ())]
                (*o).title() == name@ && !(*o).cont() && (*o).step_names().len() == 0
                && (*o).step_bodies().len() == 0 && call_ensures(body, (o,), ())
                && final(self).table() == old(self).table() + (*final(o)).step_bodies()
                && final(self).frames() == add_child(
                    old(self).settled(),
                    ordered_view((*final(o)).title(), (*final(o)).cont(), (*final(o)).step_names(), old(self).table().len()),
                )
                && final(self).staged() is None,
    {
        self.ordered_impl(name, false, body)
    }

    /// Like `ordered`, but every step runs even after one fails.
    pub fn ordered_continue_on_failure<F: FnOnce(&mut OrderedContext<B>)>(&mut self, name: &str, body: F)
        requires
            forall|o: &mut OrderedContext<B>| call_requires(body, (o,)),
        ensures
            exists|o: &mut OrderedContext<B>| #![trigger call_ensures(body, (o,), ())]
                (*o).title() == name@ && (*o).cont() && (*o).step_names().len() == 0
                && (*o).step_bodies().len() == 0 && call_ensures(body, (o,), ())
                && final(self).table() == old(self).table() + (*final(o)).step_bodies()
                && final(self).frames() == add_child(
                    old(self).settled(),
                    ordered_view((*final(o)).title(), (*final(o)).cont(), (*final(o)).step_names(), old(self).table().len()),
                )
                && final(self).staged() is None,
    {
        self.ordered_impl(name, true, body)
    }

    /// Start a table-driven group named `name` (see [`TableBuilder::run`]).
    pub fn describe_table<T>(&self, name: &str) -> (r: TableBuilder<T>)
        ensures
            r.title() == name@,
            r.case_names().len() == 0,
            r.case_data().len() == 0,
    {
        TableBuilder { name: string_from(name), cases: Vec::new() }
    }

    /// Add a finished node (an ordered block or a table group) to the current
    /// group.
    pub fn add_node(&mut self, node: TestNode)
        ensures
            final(self).table() == old(self).table(),
            final(self).frames() == add_child(old(self).settled(), node@),
            final(self).staged() is None,
    {
        self.settle();
        stack_add_child(&mut self.stack, node);
    }

    /// Close every open group and return the top-level nodes and the body table.
    pub fn into_parts(self) -> (r: (Vec<TestNode>, Vec<B>))
        ensures
            nodes_view(r.0@) == close_all(old_settled(self)).last().children,
            r.1@ == self.table(),
    {
        let mut s = self;
        s.settle();
        while s.stack.len() >= 2
            invariant
                s.stack@.len() >= 1,
                close_all(frame_views(s.stack@)) == close_all(old_settled(self)),
                s.bodies@ == self.table(),
            decreases s.stack@.len(),
        {
            let ghost fs = frame_views(s.stack@);
            let top = pop_frame(&mut s.stack);
            let node = frame_into_node(top);
            stack_add_child(&mut s.stack, node);
            assert(frame_views(s.stack@) =~= close_group(fs));
        }
        let Context { mut stack, bodies, .. } = s;
        let root = stack.pop().unwrap();
        (root.children, bodies)
    }
}

/// The settled groups of a context.
pub open spec fn old_settled<B>(c: Context<B>) -> Seq<FrameView> {
    c.settled()
}

/// Every group but the root closed, innermost first.
pub open spec fn close_all(fs: Seq<FrameView>) -> Seq<FrameView>
    decreases fs.len(),
{
    if fs.len() < 2 {
        fs
    } else {
        close_all(close_group(fs))
    }
}

fn pop_frame(stack: &mut Vec<GroupFrame>) -> (r: GroupFrame)
    requires
        old(stack)@.len() >= 1,
    ensures
        final(stack)@ == old(stack)@.drop_last(),
        r == old(stack)@.last(),
        frame_views(final(stack)@) == frame_views(old(stack)@).drop_last(),
{
    let r = stack.pop().unwrap();
    assert(frame_views(stack@) =~= frame_views(old(stack)@).drop_last());
    r
}

} // verus!
