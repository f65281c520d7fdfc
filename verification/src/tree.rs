//! The BDD test tree: `describe` groups, `it` specs and ordered step sequences.
//!
//! Bodies (specs, hooks, steps) are held by the suite in a table; the tree
//! names them by their index in that table.
use vstd::prelude::*;

verus! {

/// A step in an ordered test sequence.
pub struct OrderedStep {
    pub name: String,
    /// Index of the step's body in the body table.
    pub body: usize,
}

/// A node in the BDD test tree.
pub enum TestNode {
    /// A describe/context/when container.
    Describe {
        name: String,
        focused: bool,
        pending: bool,
        labels: Vec<String>,
        before_each: Vec<usize>,
        after_each: Vec<usize>,
        before_all: Vec<usize>,
        after_all: Vec<usize>,
        just_before_each: Vec<usize>,
        children: Vec<TestNode>,
    },
    /// An individual test case.
    It {
        name: String,
        focused: bool,
        pending: bool,
        labels: Vec<String>,
        retries: Option<u32>,
        timeout_ms: Option<u64>,
        must_pass_repeatedly: Option<u32>,
        test_fn: usize,
    },
    /// An ordered sequence of steps that run as a single test.
    Ordered {
        name: String,
        labels: Vec<String>,
        continue_on_failure: bool,
        steps: Vec<OrderedStep>,
    },
}

impl TestNode {
    /// The node's name.
    pub open spec fn name_of(self) -> Seq<char> {
        match self {
            TestNode::Describe { name, .. } => name@,
            TestNode::It { name, .. } => name@,
            TestNode::Ordered { name, .. } => name@,
        }
    }

    /// The node's name.
    pub fn name(&self) -> (r: &String)
        ensures
            r@ == self.name_of(),
    {
        match self {
            TestNode::Describe { name, .. } => name,
            TestNode::It { name, .. } => name,
            TestNode::Ordered { name, .. } => name,
        }
    }

    /// A plain group with no hooks.
    pub fn describe(name: &str, children: Vec<TestNode>) -> (r: TestNode)
        ensures
            r == (TestNode::Describe {
                name: r->Describe_name,
                focused: false,
                pending: false,
                labels: r->Describe_labels,
                before_each: r->Describe_before_each,
                after_each: r->Describe_after_each,
                before_all: r->Describe_before_all,
                after_all: r->Describe_after_all,
                just_before_each: r->Describe_just_before_each,
                children,
            }),
            r->Describe_name@ == name@,
            r->Describe_labels@.len() == 0,
            r->Describe_before_each@.len() == 0,
            r->Describe_after_each@.len() == 0,
            r->Describe_before_all@.len() == 0,
            r->Describe_after_all@.len() == 0,
            r->Describe_just_before_each@.len() == 0,
    {
        TestNode::Describe {
            name: crate::text::string_from(name),
            focused: false,
            pending: false,
            labels: Vec::new(),
            before_each: Vec::new(),
            after_each: Vec::new(),
            before_all: Vec::new(),
            after_all: Vec::new(),
            just_before_each: Vec::new(),
            children,
        }
    }

    /// A group with the given `before_all` and `after_all` hooks.
    pub fn describe_with_hooks(name: &str, before_all: Vec<usize>, after_all: Vec<usize>, children: Vec<TestNode>) -> (r: TestNode)
        ensures
            r matches TestNode::Describe {
                name: n,
                focused: false,
                pending: false,
                labels: l,
                before_each: be,
                after_each: ae,
                before_all: ba,
                after_all: aa,
                just_before_each: jbe,
                children: c,
            } && n@ == name@ && l@.len() == 0 && be@.len() == 0 && ae@.len() == 0 && ba == before_all
                && aa == after_all && jbe@.len() == 0 && c == children,
    {
        TestNode::Describe {
            name: crate::text::string_from(name),
            focused: false,
            pending: false,
            labels: Vec::new(),
            before_each: Vec::new(),
            after_each: Vec::new(),
            before_all,
            after_all,
            just_before_each: Vec::new(),
            children,
        }
    }

    /// A group with the given `before_each` and `after_each` hooks.
    pub fn describe_with_each_hooks(name: &str, before_each: Vec<usize>, after_each: Vec<usize>, children: Vec<TestNode>) -> (r: TestNode)
        ensures
            r matches TestNode::Describe {
                name: n,
                focused: false,
                pending: false,
                labels: l,
                before_each: be,
                after_each: ae,
                before_all: ba,
                after_all: aa,
                just_before_each: jbe,
                children: c,
            } && n@ == name@ && l@.len() == 0 && be == before_each && ae == after_each && ba@.len() == 0
                && aa@.len() == 0 && jbe@.len() == 0 && c == children,
    {
        TestNode::Describe {
            name: crate::text::string_from(name),
            focused: false,
            pending: false,
            labels: Vec::new(),
            before_each,
            after_each,
            before_all: Vec::new(),
            after_all: Vec::new(),
            just_before_each: Vec::new(),
            children,
        }
    }

    /// A spec with no decorators, running the body `test_fn`.
    pub fn it(name: &str, test_fn: usize) -> (r: TestNode)
        ensures
            r matches TestNode::It {
                name: n,
                focused: false,
                pending: false,
                labels: l,
                retries: None,
                timeout_ms: None,
                must_pass_repeatedly: None,
                test_fn: b,
            } && n@ == name@ && l@.len() == 0 && b == test_fn,
    {
        TestNode::It {
            name: crate::text::string_from(name),
            focused: false,
            pending: false,
            labels: Vec::new(),
            retries: None,
            timeout_ms: None,
            must_pass_repeatedly: None,
            test_fn,
        }
    }

    /// A focused spec with no decorators, running the body `test_fn`.
    pub fn fit(name: &str, test_fn: usize) -> (r: TestNode)
        ensures
            r matches TestNode::It {
                name: n,
                focused: true,
                pending: false,
                labels: l,
                retries: None,
                timeout_ms: None,
                must_pass_repeatedly: None,
                test_fn: b,
            } && n@ == name@ && l@.len() == 0 && b == test_fn,
    {
        TestNode::It {
            name: crate::text::string_from(name),
            focused: true,
            pending: false,
            labels: Vec::new(),
            retries: None,
            timeout_ms: None,
            must_pass_repeatedly: None,
            test_fn,
        }
    }
}

/// The node is a focused spec or a group that is focused or holds focus.
pub open spec fn node_has_focus(node: TestNode) -> bool
    decreases node,
{
    match node {
        TestNode::It { focused, .. } => focused,
        TestNode::Describe { focused, children, .. } => focused || has_focus_from(children@, 0),
        TestNode::Ordered { .. } => false,
    }
}

/// Some node of `nodes` from index `i` on has focus.
pub open spec fn has_focus_from(nodes: Seq<TestNode>, i: int) -> bool
    decreases nodes, nodes.len() - i,
{
    if 0 <= i < nodes.len() {
        node_has_focus(nodes[i]) || has_focus_from(nodes, i + 1)
    } else {
        false
    }
}

/// Whether the tree holds any focused spec or group.
pub fn tree_has_focus(nodes: &Vec<TestNode>) -> (r: bool)
    ensures
        r == has_focus_from(nodes@, 0),
    decreases nodes@,
{
    let mut i: usize = nodes.len();
    let mut acc = false;
    while i > 0
        invariant
            i <= nodes.len(),
            acc == has_focus_from(nodes@, i as int),
        decreases i,
    {
        i = i - 1;
        let node = &nodes[i];
        let here = match node {
            TestNode::It { focused, .. } => *focused,
            TestNode::Describe { focused, children, .. } => {
                assert(decreases_to!(nodes@ => nodes@[i as int]));
                *focused || tree_has_focus(children)
            },
            TestNode::Ordered { .. } => false,
        };
        assert(here == node_has_focus(nodes@[i as int]));
        acc = here || acc;
    }
    acc
}

/// The number of specs and ordered blocks (the leaves) in `nodes` from `i` on.
pub open spec fn leaves_from(nodes: Seq<TestNode>, i: int) -> nat
    decreases nodes, nodes.len() - i,
{
    if 0 <= i < nodes.len() {
        node_leaves(nodes[i]) + leaves_from(nodes, i + 1)
    } else {
        0
    }
}

/// The number of specs and ordered blocks in a node.
pub open spec fn node_leaves(node: TestNode) -> nat
    decreases node,
{
    match node {
        TestNode::Describe { children, .. } => leaves_from(children@, 0),
        _ => 1,
    }
}

/// A named suite for multi-suite runs.
pub struct Suite {
    pub name: String,
    pub nodes: Vec<TestNode>,
}

impl Suite {
    /// A suite with the given name and top-level nodes.
    pub fn new(name: &str, nodes: Vec<TestNode>) -> (r: Suite)
        ensures
            r.name@ == name@,
            r.nodes == nodes,
    {
        Suite { name: crate::text::string_from(name), nodes }
    }
}


/// The mathematical value of a tree node.
pub enum NodeView {
    Describe {
        name: Seq<char>,
        focused: bool,
        pending: bool,
        labels: Seq<Seq<char>>,
        before_each: Seq<usize>,
        after_each: Seq<usize>,
        before_all: Seq<usize>,
        after_all: Seq<usize>,
        just_before_each: Seq<usize>,
        children: Seq<NodeView>,
    },
    It {
        name: Seq<char>,
        focused: bool,
        pending: bool,
        labels: Seq<Seq<char>>,
        retries: Option<u32>,
        timeout_ms: Option<u64>,
        must_pass_repeatedly: Option<u32>,
        test_fn: usize,
    },
    Ordered {
        name: Seq<char>,
        labels: Seq<Seq<char>>,
        continue_on_failure: bool,
        steps: Seq<(Seq<char>, usize)>,
    },
}

/// The value of a node.
pub open spec fn node_view(n: TestNode) -> NodeView
    decreases n, 0int,
{
    match n {
        TestNode::Describe {
            name,
            focused,
            pending,
            labels,
            before_each,
            after_each,
            before_all,
            after_all,
            just_before_each,
            children,
        } => NodeView::Describe {
            name: name@,
            focused,
            pending,
            labels: crate::text::views(labels@),
            before_each: before_each@,
            after_each: after_each@,
            before_all: before_all@,
            after_all: after_all@,
            just_before_each: just_before_each@,
            children: nodes_view_from(children@, 0),
        },
        TestNode::It {
            name,
            focused,
            pending,
            labels,
            retries,
            timeout_ms,
            must_pass_repeatedly,
            test_fn,
        } => NodeView::It {
            name: name@,
            focused,
            pending,
            labels: crate::text::views(labels@),
            retries,
            timeout_ms,
            must_pass_repeatedly,
            test_fn,
        },
        TestNode::Ordered { name, labels, continue_on_failure, steps } => NodeView::Ordered {
            name: name@,
            labels: crate::text::views(labels@),
            continue_on_failure,
            steps: steps@.map_values(|st: OrderedStep| (st.name@, st.body)),
        },
    }
}

/// The values of `ns` from index `i` on.
pub open spec fn nodes_view_from(ns: Seq<TestNode>, i: int) -> Seq<NodeView>
    decreases ns, ns.len() - i,
{
    if 0 <= i < ns.len() {
        seq![node_view(ns[i])] + nodes_view_from(ns, i + 1)
    } else {
        Seq::<NodeView>::empty()
    }
}

/// The values of a sequence of nodes.
pub open spec fn nodes_view(ns: Seq<TestNode>) -> Seq<NodeView> {
    nodes_view_from(ns, 0)
}

/// `nodes_view_from` has one value per node, in order.
pub proof fn lemma_nodes_view_from(ns: Seq<TestNode>, i: int)
    requires
        0 <= i <= ns.len(),
    ensures
        nodes_view_from(ns, i).len() == ns.len() - i,
        forall|k: int| 0 <= k < ns.len() - i ==> #[trigger] nodes_view_from(ns, i)[k] == node_view(ns[i + k]),
    decreases ns.len() - i,
{
    if i < ns.len() {
        lemma_nodes_view_from(ns, i + 1);
        assert forall|k: int| 0 <= k < ns.len() - i implies #[trigger] nodes_view_from(ns, i)[k] == node_view(ns[i + k]) by {
            if k > 0 {
                assert(nodes_view_from(ns, i)[k] == nodes_view_from(ns, i + 1)[k - 1]);
            }
        }
    }
}

/// The values of the nodes of `ns`, one per node.
pub proof fn lemma_nodes_view(ns: Seq<TestNode>)
    ensures
        nodes_view(ns).len() == ns.len(),
        forall|k: int| 0 <= k < ns.len() ==> #[trigger] nodes_view(ns)[k] == node_view(ns[k]),
{
    lemma_nodes_view_from(ns, 0);
}

/// Pushing a node extends the values by its value.
pub proof fn lemma_nodes_view_push(ns: Seq<TestNode>, n: TestNode)
    ensures
        nodes_view(ns.push(n)) == nodes_view(ns).push(node_view(n)),
{
    lemma_nodes_view(ns);
    lemma_nodes_view(ns.push(n));
    assert(nodes_view(ns.push(n)) =~= nodes_view(ns).push(node_view(n)));
}

impl View for TestNode {
    type V = NodeView;

    open spec fn view(&self) -> NodeView {
        node_view(*self)
    }
}

} // verus!
