use vstd::prelude::*;

use crate::node::{NodeEnum, NodeModel, QuirksMode};

verus! {

/// A handle into the construction arena: a plain index, cheap to copy,
/// valid only until the arena is finalized.
#[derive(Clone, Copy, PartialEq, Eq, Structural, Debug)]
pub struct Handle {
    pub index: usize,
}

impl View for Handle {
    type V = int;

    /// A handle denotes an arena index; the null handle denotes `-1`.
    open spec fn view(&self) -> int {
        if self.index == usize::MAX {
            -1
        } else {
            self.index as int
        }
    }
}

impl Handle {
    /// The handle that refers to no node.
    pub fn null() -> (h: Handle)
        ensures
            h@ == -1,
    {
        Handle { index: usize::MAX }
    }

    pub fn is_null(&self) -> (r: bool)
        ensures
            r == (self@ == -1),
    {
        self.index == usize::MAX
    }
}

/// A node as it lives in the construction arena: its payload, a weak
/// parent link used only for sibling lookup during construction, and the
/// ordered handles of its exclusively owned children.
pub struct SquishyNode {
    pub node: NodeEnum,
    pub parent: Handle,
    pub children: Vec<Handle>,
}

/// The mathematical value of an arena node.
#[verifier::ext_equal]
pub ghost struct ArenaNode {
    pub node: NodeModel,
    pub parent: int,
    pub children: Seq<int>,
}

impl View for SquishyNode {
    type V = ArenaNode;

    open spec fn view(&self) -> ArenaNode {
        ArenaNode {
            node: self.node@,
            parent: self.parent@,
            children: self.children@.map_values(|h: Handle| h@),
        }
    }
}

/// Either an existing arena node or a chunk of text to be appended.
pub enum NodeOrText {
    AppendNode(Handle),
    AppendText(Vec<u16>),
}

/// The mathematical value of an append operand.
#[verifier::ext_equal]
pub ghost enum NodeOrTextModel {
    Node(int),
    Text(Seq<u16>),
}

impl View for NodeOrText {
    type V = NodeOrTextModel;

    open spec fn view(&self) -> NodeOrTextModel {
        match self {
            NodeOrText::AppendNode(h) => NodeOrTextModel::Node(h@),
            NodeOrText::AppendText(t) => NodeOrTextModel::Text(t@),
        }
    }
}

/// A well-formed arena: index 0 is the document root; every child link
/// points forward to a node whose parent link points back; every parent
/// link points backward to a node whose children contain it; and no node
/// appears twice in one children list. Forward child links make the
/// arena an acyclic forest: a node is only ever attached under a node
/// that was created before it.
pub open spec fn wf_arena(ns: Seq<ArenaNode>) -> bool {
    &&& 1 <= ns.len() < usize::MAX as int
    &&& ns[0].node is Document
    &&& ns[0].parent == -1
    &&& forall|i: int, k: int|
        0 <= i < ns.len() && 0 <= k < ns[i].children.len()
            ==> i < #[trigger] ns[i].children[k] < ns.len()
    &&& forall|i: int, k: int|
        0 <= i < ns.len() && 0 <= k < ns[i].children.len()
            ==> ns[#[trigger] ns[i].children[k]].parent == i
    &&& forall|c: int|
        0 <= c < ns.len() && ns[c].parent != -1
            ==> 0 <= #[trigger] ns[c].parent < c && ns[ns[c].parent].children.contains(c)
    &&& forall|i: int, k1: int, k2: int|
        0 <= i < ns.len() && 0 <= k1 < ns[i].children.len() && 0 <= k2 < ns[i].children.len()
            && #[trigger] ns[i].children[k1] == #[trigger] ns[i].children[k2] ==> k1 == k2
}

/// The arena extended with a fresh, detached node.
pub open spec fn arena_push_node(ns: Seq<ArenaNode>, nm: NodeModel) -> Seq<ArenaNode> {
    ns.push(ArenaNode { node: nm, parent: -1, children: Seq::empty() })
}

/// The arena after attaching detached node `c` as the last child of `p`.
pub open spec fn arena_attach(ns: Seq<ArenaNode>, p: int, c: int) -> Seq<ArenaNode> {
    ns.update(p, ArenaNode { children: ns[p].children.push(c), ..ns[p] }).update(
        c,
        ArenaNode { parent: p, ..ns[c] },
    )
}

/// Whether the last child of `p` is a text node, so that an appended text
/// chunk coalesces into it instead of allocating a new node.
pub open spec fn can_coalesce(ns: Seq<ArenaNode>, p: int) -> bool {
    ns[p].children.len() > 0 && ns[ns[p].children.last()].node is Text
}

/// The arena after extending the text of node `t` by `chunk`.
pub open spec fn arena_extend_text(ns: Seq<ArenaNode>, t: int, chunk: Seq<u16>) -> Seq<
    ArenaNode,
> {
    ns.update(t, ArenaNode { node: NodeModel::Text(ns[t].node->Text_0 + chunk), ..ns[t] })
}

/// The arena after appending a text chunk under `p`: coalesce into the
/// last child when it is a text node, else attach a fresh text node.
pub open spec fn arena_append_text(ns: Seq<ArenaNode>, p: int, chunk: Seq<u16>) -> Seq<
    ArenaNode,
> {
    if can_coalesce(ns, p) {
        arena_extend_text(ns, ns[p].children.last(), chunk)
    } else {
        arena_attach(arena_push_node(ns, NodeModel::Text(chunk)), p, ns.len() as int)
    }
}

/// The arena after appending an operand under `p`.
pub open spec fn arena_append(ns: Seq<ArenaNode>, p: int, c: NodeOrTextModel) -> Seq<
    ArenaNode,
> {
    match c {
        NodeOrTextModel::Node(i) => arena_attach(ns, p, i),
        NodeOrTextModel::Text(t) => arena_append_text(ns, p, t),
    }
}

/// The construction sink: an index-based arena of nodes plus the
/// diagnostics the parser reported. Handles never outlive the arena;
/// `finish` consumes it and returns the owned tree.
pub struct Sink {
    pub nodes: Vec<SquishyNode>,
    pub document: Handle,
    pub errors: Vec<String>,
    pub quirks_mode: QuirksMode,
}

/// The mathematical value of the sink.
#[verifier::ext_equal]
pub ghost struct SinkModel {
    pub nodes: Seq<ArenaNode>,
    pub errors: Seq<Seq<char>>,
    pub quirks_mode: QuirksMode,
}

impl View for Sink {
    type V = SinkModel;

    open spec fn view(&self) -> SinkModel {
        SinkModel {
            nodes: self.nodes@.map_values(|n: SquishyNode| n@),
            errors: self.errors@.map_values(|e: String| e@),
            quirks_mode: self.quirks_mode,
        }
    }
}

impl Sink {
    /// The sink's invariant: a well-formed arena whose document handle is
    /// index 0.
    pub open spec fn wf(&self) -> bool {
        wf_arena(self@.nodes) && self.document@ == 0
    }
}

impl Default for Sink {
    /// A fresh sink holding only the document root.
    fn default() -> (s: Sink)
        ensures
            s.wf(),
            s@.nodes.len() == 1,
            s@.nodes[0].node is Document,
            s@.nodes[0].children.len() == 0,
            s@.errors.len() == 0,
            s@.quirks_mode == QuirksMode::NoQuirks,
    {
        let mut nodes: Vec<SquishyNode> = Vec::new();
        nodes.push(
            SquishyNode {
                node: NodeEnum::Document,
                parent: Handle::null(),
                children: Vec::new(),
            },
        );
        let s = Sink {
            nodes,
            document: Handle { index: 0 },
            errors: Vec::new(),
            quirks_mode: QuirksMode::NoQuirks,
        };
        proof {
            assert(s@.nodes =~~= seq![
                ArenaNode {
                    node: NodeModel::Document,
                    parent: -1,
                    children: Seq::empty(),
                },
            ]);
            assert(s@.errors =~= Seq::<Seq<char>>::empty());
        }
        s
    }
}

impl Sink {
    /// Allocate a fresh, detached node in the arena and hand back its
    /// handle.
    pub fn new_node(&mut self, node: NodeEnum) -> (h: Handle)
        requires
            old(self).wf(),
            old(self)@.nodes.len() + 1 < usize::MAX,
        ensures
            final(self).wf(),
            final(self)@.nodes == arena_push_node(old(self)@.nodes, node@),
            final(self)@.errors == old(self)@.errors,
            final(self)@.quirks_mode == old(self)@.quirks_mode,
            h@ == old(self)@.nodes.len(),
    {
        let h = Handle { index: self.nodes.len() };
        self.nodes.push(
            SquishyNode { node, parent: Handle::null(), children: Vec::new() },
        );
        proof {
            assert(self@.nodes =~~= arena_push_node(old(self)@.nodes, node@));
            assert(self@.errors =~= old(self)@.errors);
            let ns = self@.nodes;
            let ons = old(self)@.nodes;
            assert forall|i: int, k: int|
                0 <= i < ns.len() && 0 <= k < ns[i].children.len() implies i
                < #[trigger] ns[i].children[k] < ns.len() by {
                assert(i < ons.len());
                assert(ns[i] == ons[i]);
            }
            assert forall|i: int, k: int|
                0 <= i < ns.len() && 0 <= k < ns[i].children.len() implies ns[#[trigger] ns[i]
                .children[k]].parent == i by {
                assert(i < ons.len());
                assert(ns[i] == ons[i]);
                assert(ons[i].children[k] < ons.len());
            }
            assert forall|c: int|
                0 <= c < ns.len() && ns[c].parent != -1 implies 0 <= #[trigger] ns[c].parent
                < c && ns[ns[c].parent].children.contains(c) by {
                assert(c < ons.len());
                assert(ns[c] == ons[c]);
                assert(ons[ons[c].parent].children.contains(c));
                let p = ons[c].parent;
                let k = choose|k: int|
                    0 <= k < ons[p].children.len() && ons[p].children[k] == c;
                assert(ns[p].children[k] == c);
            }
        }
        h
    }

    /// Record a non-fatal parse diagnostic.
    pub fn parse_error(&mut self, msg: String)
        requires
            old(self).wf(),
        ensures
            final(self).wf(),
            final(self)@.nodes == old(self)@.nodes,
            final(self)@.errors == old(self)@.errors.push(msg@),
            final(self)@.quirks_mode == old(self)@.quirks_mode,
    {
        self.errors.push(msg);
        proof {
            assert(self@.nodes =~= old(self)@.nodes);
            assert(self@.errors =~= old(self)@.errors.push(msg@));
        }
    }

    /// The handle of the document root.
    pub fn get_document(&self) -> (h: Handle)
        requires
            self.wf(),
        ensures
            h@ == 0,
    {
        self.document
    }

    /// Record how the parser classified the document.
    pub fn set_quirks_mode(&mut self, mode: QuirksMode)
        requires
            old(self).wf(),
        ensures
            final(self).wf(),
            final(self)@.nodes == old(self)@.nodes,
            final(self)@.errors == old(self)@.errors,
            final(self)@.quirks_mode == mode,
    {
        self.quirks_mode = mode;
        proof {
            assert(self@.nodes =~= old(self)@.nodes);
            assert(self@.errors =~= old(self)@.errors);
        }
    }

    /// Whether two handles denote the same node.
    pub fn same_node(&self, x: &Handle, y: &Handle) -> (r: bool)
        ensures
            r == (x@ == y@),
    {
        x.index == y.index
    }

    /// The tag name of an element node.
    pub fn elem_name<'a>(&'a self, target: &Handle) -> (name: &'a Vec<u16>)
        requires
            self.wf(),
            0 <= target@ < self@.nodes.len(),
            self@.nodes[target@].node is Element,
        ensures
            name@ == self@.nodes[target@].node->Element_0,
    {
        match &self.nodes[target.index].node {
            NodeEnum::Element(name, _attrs) => name,
            _ => {
                proof {
                    assert(false);
                }
                unreached()
            },
        }
    }

    /// Allocate a detached element node.
    pub fn create_element(&mut self, name: Vec<u16>, attrs: Vec<crate::node::OwnedAttribute>)
        -> (h: Handle)
        requires
            old(self).wf(),
            old(self)@.nodes.len() + 1 < usize::MAX,
        ensures
            final(self).wf(),
            final(self)@.nodes == arena_push_node(
                old(self)@.nodes,
                NodeModel::Element(
                    name@,
                    attrs@.map_values(|at: crate::node::OwnedAttribute| at@),
                ),
            ),
            final(self)@.errors == old(self)@.errors,
            final(self)@.quirks_mode == old(self)@.quirks_mode,
            h@ == old(self)@.nodes.len(),
    {
        self.new_node(NodeEnum::Element(name, attrs))
    }

    /// Allocate a detached comment node.
    pub fn create_comment(&mut self, text: Vec<u16>) -> (h: Handle)
        requires
            old(self).wf(),
            old(self)@.nodes.len() + 1 < usize::MAX,
        ensures
            final(self).wf(),
            final(self)@.nodes == arena_push_node(old(self)@.nodes, NodeModel::Comment(text@)),
            final(self)@.errors == old(self)@.errors,
            final(self)@.quirks_mode == old(self)@.quirks_mode,
            h@ == old(self)@.nodes.len(),
    {
        self.new_node(NodeEnum::Comment(text))
    }

    /// The parser may mark a script as already started; the model keeps no
    /// such state.
    pub fn mark_script_already_started(&mut self, _node: &Handle)
        requires
            old(self).wf(),
        ensures
            *final(self) == *old(self),
    {
    }
}

/// The position of node `t` in its parent's children list. Well-defined
/// whenever the arena is well-formed and `t` has a parent: the slot exists
/// and is unique.
pub open spec fn child_slot(ns: Seq<ArenaNode>, t: int) -> int {
    choose|k: int|
        0 <= k < ns[ns[t].parent].children.len() && ns[ns[t].parent].children[k] == t
}

/// The arena after detaching node `t` from its parent, if it has one.
pub open spec fn arena_detach(ns: Seq<ArenaNode>, t: int) -> Seq<ArenaNode> {
    if ns[t].parent == -1 {
        ns
    } else {
        let p = ns[t].parent;
        let k = child_slot(ns, t);
        ns.update(p, ArenaNode { children: ns[p].children.remove(k), ..ns[p] }).update(
            t,
            ArenaNode { parent: -1, ..ns[t] },
        )
    }
}

/// The arena after inserting detached node `c` at position `k` of the
/// children of `p`.
pub open spec fn arena_insert_child(ns: Seq<ArenaNode>, p: int, k: int, c: int) -> Seq<
    ArenaNode,
> {
    ns.update(p, ArenaNode { children: ns[p].children.insert(k, c), ..ns[p] }).update(
        c,
        ArenaNode { parent: p, ..ns[c] },
    )
}

/// Pushing a detached node preserves well-formedness.
pub proof fn lemma_wf_push(ns: Seq<ArenaNode>, nm: NodeModel)
    requires
        wf_arena(ns),
        ns.len() + 1 < usize::MAX as int,
    ensures
        wf_arena(arena_push_node(ns, nm)),
{
    let ns2 = arena_push_node(ns, nm);
    assert forall|i: int, k: int|
        0 <= i < ns2.len() && 0 <= k < ns2[i].children.len() implies i < #[trigger] ns2[i]
        .children[k] < ns2.len() by {
        assert(i < ns.len());
        assert(ns2[i] == ns[i]);
    }
    assert forall|i: int, k: int|
        0 <= i < ns2.len() && 0 <= k < ns2[i].children.len() implies ns2[#[trigger] ns2[i]
        .children[k]].parent == i by {
        assert(i < ns.len());
        assert(ns2[i] == ns[i]);
        assert(ns[i].children[k] < ns.len());
    }
    assert forall|c: int|
        0 <= c < ns2.len() && ns2[c].parent != -1 implies 0 <= #[trigger] ns2[c].parent < c
        && ns2[ns2[c].parent].children.contains(c) by {
        assert(c < ns.len());
        assert(ns2[c] == ns[c]);
        let p = ns[c].parent;
        assert(ns[p].children.contains(c));
        let k = choose|k: int| 0 <= k < ns[p].children.len() && ns[p].children[k] == c;
        assert(ns2[p].children[k] == c);
    }
    assert forall|i: int, k1: int, k2: int|
        0 <= i < ns2.len() && 0 <= k1 < ns2[i].children.len() && 0 <= k2 < ns2[i]
        .children.len() && #[trigger] ns2[i].children[k1] == #[trigger] ns2[i].children[k2]
        implies k1 == k2 by {
        assert(i < ns.len());
        assert(ns2[i] == ns[i]);
    }
}

/// In a well-formed arena, a node whose parent link is null stands in no
/// children list.
pub proof fn lemma_detached_not_a_child(ns: Seq<ArenaNode>, c: int)
    requires
        wf_arena(ns),
        0 <= c < ns.len(),
        ns[c].parent == -1,
    ensures
        forall|i: int, k: int|
            0 <= i < ns.len() && 0 <= k < ns[i].children.len()
                ==> #[trigger] ns[i].children[k] != c,
{
    assert forall|i: int, k: int|
        0 <= i < ns.len() && 0 <= k < ns[i].children.len() implies #[trigger] ns[i]
        .children[k] != c by {
        if ns[i].children[k] == c {
            assert(ns[c].parent == i);
        }
    }
}

/// Attaching a detached later node under an earlier one preserves
/// well-formedness.
pub proof fn lemma_wf_attach(ns: Seq<ArenaNode>, p: int, c: int)
    requires
        wf_arena(ns),
        0 <= p < c < ns.len(),
        ns[c].parent == -1,
    ensures
        wf_arena(arena_attach(ns, p, c)),
{
    let ns2 = arena_attach(ns, p, c);
    lemma_detached_not_a_child(ns, c);
    assert(ns2.len() == ns.len());
    assert(ns2[0].node == ns[0].node);
    assert(ns2[0].parent == ns[0].parent);
    assert forall|i: int, k: int|
        0 <= i < ns2.len() && 0 <= k < ns2[i].children.len() implies i < #[trigger] ns2[i]
        .children[k] < ns2.len() by {
        if i == p {
            if k < ns[p].children.len() {
                assert(ns2[i].children[k] == ns[p].children[k]);
            } else {
                assert(ns2[i].children[k] == c);
            }
        } else {
            assert(ns2[i].children == ns[i].children);
        }
    }
    assert forall|i: int, k: int|
        0 <= i < ns2.len() && 0 <= k < ns2[i].children.len() implies ns2[#[trigger] ns2[i]
        .children[k]].parent == i by {
        if i == p {
            if k < ns[p].children.len() {
                let t = ns[p].children[k];
                assert(ns[t].parent == p);
                assert(t != c);
                assert(ns2[t].parent == p);
            } else {
                assert(ns2[i].children[k] == c);
                assert(ns2[c].parent == p);
            }
        } else {
            assert(ns2[i].children == ns[i].children);
            let t = ns[i].children[k];
            assert(ns[t].parent == i);
            assert(t != c);
        }
    }
    assert forall|x: int|
        0 <= x < ns2.len() && ns2[x].parent != -1 implies 0 <= #[trigger] ns2[x].parent < x
        && ns2[ns2[x].parent].children.contains(x) by {
        if x == c {
            assert(ns2[c].parent == p);
            assert(ns2[p].children[ns[p].children.len() as int] == c);
            assert(ns2[p].children.contains(c));
        } else {
            assert(ns2[x].parent == ns[x].parent);
            let q = ns[x].parent;
            assert(ns[q].children.contains(x));
            let k = choose|k: int| 0 <= k < ns[q].children.len() && ns[q].children[k] == x;
            if q == p {
                assert(ns2[p].children[k] == x);
                assert(ns2[p].children.contains(x));
            } else {
                assert(ns2[q].children == ns[q].children);
            }
        }
    }
    assert forall|i: int, k1: int, k2: int|
        0 <= i < ns2.len() && 0 <= k1 < ns2[i].children.len() && 0 <= k2 < ns2[i]
        .children.len() && #[trigger] ns2[i].children[k1] == #[trigger] ns2[i].children[k2]
        implies k1 == k2 by {
        if i == p {
            let last = ns[p].children.len() as int;
            if k1 != k2 {
                if k1 < last && k2 < last {
                    assert(ns[p].children[k1] == ns[p].children[k2]);
                } else if k1 == last {
                    assert(ns2[i].children[k2] == ns[p].children[k2]);
                    assert(ns[p].children[k2] != c);
                    assert(false);
                } else {
                    assert(ns2[i].children[k1] == ns[p].children[k1]);
                    assert(ns[p].children[k1] != c);
                    assert(false);
                }
            }
        } else {
            assert(ns2[i].children == ns[i].children);
        }
    }
}

/// Replacing the payload of a non-root node with another payload of the
/// same text kind preserves well-formedness.
pub proof fn lemma_wf_extend_text(ns: Seq<ArenaNode>, t: int, chunk: Seq<u16>)
    requires
        wf_arena(ns),
        0 <= t < ns.len(),
        ns[t].node is Text,
    ensures
        wf_arena(arena_extend_text(ns, t, chunk)),
{
    let ns2 = arena_extend_text(ns, t, chunk);
    assert(t != 0);
    assert forall|i: int|
        0 <= i < ns2.len() implies ns2[i].children == ns[i].children && ns2[i].parent
        == ns[i].parent by {
    }
    assert forall|c: int|
        0 <= c < ns2.len() && ns2[c].parent != -1 implies 0 <= #[trigger] ns2[c].parent < c
        && ns2[ns2[c].parent].children.contains(c) by {
        let p = ns[c].parent;
        assert(ns[p].children.contains(c));
        let k = choose|k: int| 0 <= k < ns[p].children.len() && ns[p].children[k] == c;
        assert(ns2[p].children[k] == c);
    }
}

/// Appending text under a valid parent preserves well-formedness.
pub proof fn lemma_wf_append_text(ns: Seq<ArenaNode>, p: int, chunk: Seq<u16>)
    requires
        wf_arena(ns),
        0 <= p < ns.len(),
        ns.len() + 1 < usize::MAX as int,
    ensures
        wf_arena(arena_append_text(ns, p, chunk)),
{
    if can_coalesce(ns, p) {
        let t = ns[p].children.last();
        assert(0 <= t < ns.len());
        lemma_wf_extend_text(ns, t, chunk);
    } else {
        lemma_wf_push(ns, NodeModel::Text(chunk));
        let ns1 = arena_push_node(ns, NodeModel::Text(chunk));
        lemma_wf_attach(ns1, p, ns.len() as int);
    }
}

impl Sink {
    /// Attach the detached node at index `c` as the last child of `p`.
    fn attach_child(&mut self, p: usize, c: usize)
        requires
            old(self).wf(),
            p < c < old(self)@.nodes.len(),
            old(self)@.nodes[c as int].parent == -1,
        ensures
            final(self).wf(),
            final(self)@.nodes == arena_attach(old(self)@.nodes, p as int, c as int),
            final(self)@.errors == old(self)@.errors,
            final(self)@.quirks_mode == old(self)@.quirks_mode,
    {
        self.nodes[p].children.push(Handle { index: c });
        self.nodes[c].parent = Handle { index: p };
        proof {
            assert(c < usize::MAX);
            assert(p < usize::MAX);
            assert(self@.nodes =~~= arena_attach(old(self)@.nodes, p as int, c as int));
            assert(self@.errors =~= old(self)@.errors);
            lemma_wf_attach(old(self)@.nodes, p as int, c as int);
        }
    }

    /// Append a child or a chunk of text under `parent`, coalescing text
    /// into an existing trailing text node.
    pub fn append(&mut self, parent: &Handle, child: NodeOrText)
        requires
            old(self).wf(),
            0 <= parent@ < old(self)@.nodes.len(),
            old(self)@.nodes.len() + 1 < usize::MAX,
            child is AppendNode ==> ({
                let c = child->AppendNode_0@;
                &&& parent@ < c < old(self)@.nodes.len()
                &&& old(self)@.nodes[c].parent == -1
            }),
        ensures
            final(self).wf(),
            final(self)@.nodes == arena_append(old(self)@.nodes, parent@, child@),
            final(self)@.errors == old(self)@.errors,
            final(self)@.quirks_mode == old(self)@.quirks_mode,
    {
        match child {
            NodeOrText::AppendNode(h) => {
                self.attach_child(parent.index, h.index);
            },
            NodeOrText::AppendText(text) => {
                self.append_text(parent.index, text);
            },
        }
    }

    /// Append a chunk of text under parent index `p`.
    fn append_text(&mut self, p: usize, text: Vec<u16>)
        requires
            old(self).wf(),
            p < old(self)@.nodes.len(),
            old(self)@.nodes.len() + 1 < usize::MAX,
        ensures
            final(self).wf(),
            final(self)@.nodes == arena_append_text(old(self)@.nodes, p as int, text@),
            final(self)@.errors == old(self)@.errors,
            final(self)@.quirks_mode == old(self)@.quirks_mode,
    {
        let plen = self.nodes[p].children.len();
        if plen > 0 {
            let last = self.nodes[p].children[plen - 1];
            proof {
                assert(last@ == old(self)@.nodes[p as int].children.last());
                assert(0 <= last@ < old(self)@.nodes.len());
            }
            let is_text = matches!(&self.nodes[last.index].node, NodeEnum::Text(_));
            if is_text {
                let ghost ns = old(self)@.nodes;
                proof {
                    assert(self.nodes@[last@]@ == self@.nodes[last@]);
                }
                self.extend_text_at(last.index, &text);
                proof {
                    assert(self@.nodes =~~= arena_append_text(ns, p as int, text@));
                    lemma_wf_append_text(ns, p as int, text@);
                }
            } else {
                let h = self.new_node(NodeEnum::Text(text));
                self.attach_child(p, h.index);
                proof {
                    assert(self@.nodes =~~= arena_append_text(
                        old(self)@.nodes,
                        p as int,
                        text@,
                    ));
                    lemma_wf_append_text(old(self)@.nodes, p as int, text@);
                }
            }
        } else {
            let h = self.new_node(NodeEnum::Text(text));
            self.attach_child(p, h.index);
            proof {
                assert(self@.nodes =~~= arena_append_text(old(self)@.nodes, p as int, text@));
                lemma_wf_append_text(old(self)@.nodes, p as int, text@);
            }
        }
    }

    /// Append a doctype node under the document root.
    pub fn append_doctype_to_document(
        &mut self,
        name: Vec<u16>,
        public_id: Vec<u16>,
        system_id: Vec<u16>,
    )
        requires
            old(self).wf(),
            old(self)@.nodes.len() + 1 < usize::MAX,
        ensures
            final(self).wf(),
            final(self)@.nodes == arena_attach(
                arena_push_node(
                    old(self)@.nodes,
                    NodeModel::Doctype(name@, public_id@, system_id@),
                ),
                0,
                old(self)@.nodes.len() as int,
            ),
            final(self)@.errors == old(self)@.errors,
            final(self)@.quirks_mode == old(self)@.quirks_mode,
    {
        let h = self.new_node(NodeEnum::Doctype(name, public_id, system_id));
        proof {
            lemma_wf_push(old(self)@.nodes, NodeModel::Doctype(name@, public_id@, system_id@));
        }
        self.attach_child(0, h.index);
    }
}

/// Detaching a node preserves well-formedness.
pub proof fn lemma_wf_detach(ns: Seq<ArenaNode>, t: int)
    requires
        wf_arena(ns),
        0 <= t < ns.len(),
    ensures
        wf_arena(arena_detach(ns, t)),
        arena_detach(ns, t).len() == ns.len(),
        arena_detach(ns, t)[t].parent == -1,
{
    if ns[t].parent != -1 {
        let p = ns[t].parent;
        assert(ns[p].children.contains(t));
        let k = child_slot(ns, t);
        assert(0 <= k < ns[p].children.len() && ns[p].children[k] == t);
        let ns2 = arena_detach(ns, t);
        let newkids = ns[p].children.remove(k);
        assert forall|j: int| 0 <= j < newkids.len() implies #[trigger] newkids[j] == (
        if j < k {
            ns[p].children[j]
        } else {
            ns[p].children[j + 1]
        }) by {}
        assert forall|j: int| 0 <= j < newkids.len() implies newkids[j] != t by {
            if j < k {
                assert(ns[p].children[j] == newkids[j]);
            } else {
                assert(ns[p].children[j + 1] == newkids[j]);
            }
        }
        assert(ns2[0].node == ns[0].node);
        assert(ns2[0].parent == ns[0].parent);
        assert forall|i: int, kk: int|
            0 <= i < ns2.len() && 0 <= kk < ns2[i].children.len() implies i < #[trigger] ns2[i]
            .children[kk] < ns2.len() by {
            if i == p {
                assert(ns2[i].children[kk] == newkids[kk]);
                if kk < k {
                    assert(newkids[kk] == ns[p].children[kk]);
                } else {
                    assert(newkids[kk] == ns[p].children[kk + 1]);
                }
            } else {
                assert(ns2[i].children == ns[i].children);
            }
        }
        assert forall|i: int, kk: int|
            0 <= i < ns2.len() && 0 <= kk < ns2[i].children.len() implies ns2[#[trigger] ns2[i]
            .children[kk]].parent == i by {
            if i == p {
                let x = ns2[i].children[kk];
                assert(x == newkids[kk]);
                assert(x != t);
                if kk < k {
                    assert(x == ns[p].children[kk]);
                } else {
                    assert(x == ns[p].children[kk + 1]);
                }
                assert(ns[x].parent == p);
                assert(ns2[x].parent == p);
            } else {
                assert(ns2[i].children == ns[i].children);
                let x = ns[i].children[kk];
                assert(ns[x].parent == i);
                assert(x != t);
            }
        }
        assert forall|x: int|
            0 <= x < ns2.len() && ns2[x].parent != -1 implies 0 <= #[trigger] ns2[x].parent
            < x && ns2[ns2[x].parent].children.contains(x) by {
            assert(x != t);
            assert(ns2[x].parent == ns[x].parent);
            let q = ns[x].parent;
            assert(ns[q].children.contains(x));
            let j = choose|j: int| 0 <= j < ns[q].children.len() && ns[q].children[j] == x;
            if q == p {
                assert(j != k);
                if j < k {
                    assert(newkids[j] == x);
                    assert(ns2[p].children.contains(x));
                } else {
                    assert(newkids[j - 1] == x);
                    assert(ns2[p].children.contains(x));
                }
            } else {
                assert(ns2[q].children == ns[q].children);
                assert(ns2[q].children[j] == x);
            }
        }
        assert forall|i: int, k1: int, k2: int|
            0 <= i < ns2.len() && 0 <= k1 < ns2[i].children.len() && 0 <= k2 < ns2[i]
            .children.len() && #[trigger] ns2[i].children[k1] == #[trigger] ns2[i]
            .children[k2] implies k1 == k2 by {
            if i == p {
                let j1: int = if k1 < k { k1 } else { k1 + 1 };
                let j2: int = if k2 < k { k2 } else { k2 + 1 };
                assert(ns2[i].children[k1] == ns[p].children[j1]);
                assert(ns2[i].children[k2] == ns[p].children[j2]);
            } else {
                assert(ns2[i].children == ns[i].children);
            }
        }
    }
}

/// Inserting a detached later node among the children of an earlier node
/// preserves well-formedness.
pub proof fn lemma_wf_insert(ns: Seq<ArenaNode>, p: int, k: int, c: int)
    requires
        wf_arena(ns),
        0 <= p < c < ns.len(),
        ns[c].parent == -1,
        0 <= k <= ns[p].children.len(),
    ensures
        wf_arena(arena_insert_child(ns, p, k, c)),
{
    let ns2 = arena_insert_child(ns, p, k, c);
    lemma_detached_not_a_child(ns, c);
    let newkids = ns[p].children.insert(k, c);
    assert forall|j: int| 0 <= j < newkids.len() implies #[trigger] newkids[j] == (
    if j < k {
        ns[p].children[j]
    } else if j == k {
        c
    } else {
        ns[p].children[j - 1]
    }) by {}
    assert(ns2[0].node == ns[0].node);
    assert(ns2[0].parent == ns[0].parent);
    assert forall|i: int, kk: int|
        0 <= i < ns2.len() && 0 <= kk < ns2[i].children.len() implies i < #[trigger] ns2[i]
        .children[kk] < ns2.len() by {
        if i == p {
            assert(ns2[i].children[kk] == newkids[kk]);
        } else {
            assert(ns2[i].children == ns[i].children);
        }
    }
    assert forall|i: int, kk: int|
        0 <= i < ns2.len() && 0 <= kk < ns2[i].children.len() implies ns2[#[trigger] ns2[i]
        .children[kk]].parent == i by {
        if i == p {
            let x = newkids[kk];
            assert(ns2[i].children[kk] == x);
            if kk == k {
                assert(ns2[c].parent == p);
            } else {
                assert(x != c);
                assert(ns[x].parent == p);
                assert(ns2[x].parent == p);
            }
        } else {
            assert(ns2[i].children == ns[i].children);
            let x = ns[i].children[kk];
            assert(ns[x].parent == i);
            assert(x != c);
        }
    }
    assert forall|x: int|
        0 <= x < ns2.len() && ns2[x].parent != -1 implies 0 <= #[trigger] ns2[x].parent < x
        && ns2[ns2[x].parent].children.contains(x) by {
        if x == c {
            assert(ns2[c].parent == p);
            assert(ns2[p].children[k] == c);
            assert(ns2[p].children.contains(c));
        } else {
            assert(ns2[x].parent == ns[x].parent);
            let q = ns[x].parent;
            assert(ns[q].children.contains(x));
            let j = choose|j: int| 0 <= j < ns[q].children.len() && ns[q].children[j] == x;
            if q == p {
                if j < k {
                    assert(newkids[j] == x);
                } else {
                    assert(newkids[j + 1] == x);
                }
                assert(ns2[p].children.contains(x));
            } else {
                assert(ns2[q].children == ns[q].children);
                assert(ns2[q].children[j] == x);
            }
        }
    }
    assert forall|i: int, k1: int, k2: int|
        0 <= i < ns2.len() && 0 <= k1 < ns2[i].children.len() && 0 <= k2 < ns2[i]
        .children.len() && #[trigger] ns2[i].children[k1] == #[trigger] ns2[i].children[k2]
        implies k1 == k2 by {
        if i == p {
            if k1 != k2 {
                if k1 == k || k2 == k {
                    let other: int = if k1 == k {
                        k2
                    } else {
                        k1
                    };
                    let jo: int = if other < k {
                        other
                    } else {
                        other - 1
                    };
                    assert(newkids[other] == ns[p].children[jo]);
                    assert(newkids[other] != c);
                    assert(newkids[k] == c);
                    assert(false);
                } else {
                    let j1: int = if k1 < k {
                        k1
                    } else {
                        k1 - 1
                    };
                    let j2: int = if k2 < k {
                        k2
                    } else {
                        k2 - 1
                    };
                    assert(newkids[k1] == ns[p].children[j1]);
                    assert(newkids[k2] == ns[p].children[j2]);
                }
            }
        } else {
            assert(ns2[i].children == ns[i].children);
        }
    }
}

impl Sink {
    /// Find the parent of `child` and the position of `child` among the
    /// parent's children; `None` if `child` is detached. A node that has a
    /// parent is always found in that parent's children list: the arena
    /// invariant rules the mismatch out.
    pub fn get_parent_and_index(&self, child: &Handle) -> (r: Option<(Handle, usize)>)
        requires
            self.wf(),
            0 <= child@ < self@.nodes.len(),
        ensures
            match r {
                None => self@.nodes[child@].parent == -1,
                Some((p, i)) => {
                    &&& self@.nodes[child@].parent == p@
                    &&& 0 <= p@ < self@.nodes.len()
                    &&& 0 <= i < self@.nodes[p@].children.len()
                    &&& self@.nodes[p@].children[i as int] == child@
                    &&& i as int == child_slot(self@.nodes, child@)
                },
            },
    {
        let parent = self.nodes[child.index].parent;
        if parent.index == usize::MAX {
            return None;
        }
        let ghost ns = self@.nodes;
        proof {
            assert(ns[child@].parent == parent@);
            assert(0 <= parent@ < ns.len());
            assert(ns[parent@].children.contains(child@));
        }
        let kids_len = self.nodes[parent.index].children.len();
        let mut i: usize = 0;
        while i < kids_len
            invariant
                self.wf(),
                ns == self@.nodes,
                0 <= child@ < ns.len(),
                ns[child@].parent == parent@,
                0 <= parent@ < ns.len(),
                parent.index < usize::MAX,
                kids_len == ns[parent@].children.len(),
                i <= kids_len,
                forall|k: int| 0 <= k < i ==> ns[parent@].children[k] != child@,
            decreases kids_len - i,
        {
            if self.nodes[parent.index].children[i].index == child.index {
                proof {
                    assert(ns[parent@].children[i as int] == child@);
                    let slot = child_slot(ns, child@);
                    assert(0 <= slot < ns[parent@].children.len() && ns[parent@].children[slot]
                        == child@);
                    assert(slot == i as int);
                }
                return Some((parent, i));
            }
            i = i + 1;
        }
        proof {
            let k = choose|k: int|
                0 <= k < ns[parent@].children.len() && ns[parent@].children[k] == child@;
            assert(false);
        }
        unreached()
    }

    /// Detach `target` from its parent, if it has one.
    fn unparent(&mut self, target: &Handle)
        requires
            old(self).wf(),
            0 <= target@ < old(self)@.nodes.len(),
        ensures
            final(self).wf(),
            final(self)@.nodes == arena_detach(old(self)@.nodes, target@),
            final(self)@.errors == old(self)@.errors,
            final(self)@.quirks_mode == old(self)@.quirks_mode,
    {
        match self.get_parent_and_index(target) {
            None => {
            },
            Some((p, i)) => {
                self.nodes[p.index].children.remove(i);
                self.nodes[target.index].parent = Handle::null();
                proof {
                    assert(self@.nodes =~~= arena_detach(old(self)@.nodes, target@));
                    assert(self@.errors =~= old(self)@.errors);
                    lemma_wf_detach(old(self)@.nodes, target@);
                }
            },
        }
    }

    /// Detach `target` from its parent, if it has one.
    pub fn remove_from_parent(&mut self, target: &Handle)
        requires
            old(self).wf(),
            0 <= target@ < old(self)@.nodes.len(),
        ensures
            final(self).wf(),
            final(self)@.nodes == arena_detach(old(self)@.nodes, target@),
            final(self)@.errors == old(self)@.errors,
            final(self)@.quirks_mode == old(self)@.quirks_mode,
    {
        self.unparent(target);
    }

    /// Insert the detached node at index `c` at position `k` of the
    /// children of `p`.
    fn insert_child_at(&mut self, p: usize, k: usize, c: usize)
        requires
            old(self).wf(),
            p < c < old(self)@.nodes.len(),
            old(self)@.nodes[c as int].parent == -1,
            k <= old(self)@.nodes[p as int].children.len(),
        ensures
            final(self).wf(),
            final(self)@.nodes == arena_insert_child(old(self)@.nodes, p as int, k as int, c as int),
            final(self)@.errors == old(self)@.errors,
            final(self)@.quirks_mode == old(self)@.quirks_mode,
    {
        self.nodes[p].children.insert(k, Handle { index: c });
        self.nodes[c].parent = Handle { index: p };
        proof {
            assert(c < usize::MAX);
            assert(p < usize::MAX);
            assert(self@.nodes =~~= arena_insert_child(
                old(self)@.nodes,
                p as int,
                k as int,
                c as int,
            ));
            assert(self@.errors =~= old(self)@.errors);
            lemma_wf_insert(old(self)@.nodes, p as int, k as int, c as int);
        }
    }

    /// Extend the text node at index `t` by `text`.
    fn extend_text_at(&mut self, t: usize, text: &Vec<u16>)
        requires
            old(self).wf(),
            t < old(self)@.nodes.len(),
            old(self)@.nodes[t as int].node is Text,
        ensures
            final(self).wf(),
            final(self)@.nodes == arena_extend_text(old(self)@.nodes, t as int, text@),
            final(self)@.errors == old(self)@.errors,
            final(self)@.quirks_mode == old(self)@.quirks_mode,
    {
        proof {
            assert(self.nodes@[t as int]@ == self@.nodes[t as int]);
        }
        match &mut self.nodes[t].node {
            NodeEnum::Text(existing) => {
                let ghost content0 = existing@;
                let mut i: usize = 0;
                while i < text.len()
                    invariant
                        i <= text.len(),
                        existing@ == content0 + text@.take(i as int),
                    decreases text.len() - i,
                {
                    existing.push(text[i]);
                    i = i + 1;
                    proof {
                        assert(existing@ =~= content0 + text@.take(i as int));
                    }
                }
                proof {
                    assert(text@.take(text@.len() as int) =~= text@);
                }
            },
            _ => {
                proof {
                    assert(false);
                }
            },
        }
        proof {
            assert(self@.nodes =~~= arena_extend_text(old(self)@.nodes, t as int, text@));
            lemma_wf_extend_text(old(self)@.nodes, t as int, text@);
        }
    }

    /// Insert a child or a chunk of text immediately before `sibling`,
    /// coalescing text into a text node that stands just before the
    /// insertion point. A node that already has a parent is detached from
    /// it first: a node never stands in two children lists at once.
    pub fn append_before_sibling(&mut self, sibling: &Handle, child: NodeOrText)
        requires
            old(self).wf(),
            0 <= sibling@ < old(self)@.nodes.len(),
            old(self)@.nodes[sibling@].parent != -1,
            old(self)@.nodes.len() + 1 < usize::MAX,
            child is AppendNode ==> ({
                let c = child->AppendNode_0@;
                &&& 0 <= c < old(self)@.nodes.len()
                &&& old(self)@.nodes[sibling@].parent < c
                &&& c != sibling@
            }),
        ensures
            final(self).wf(),
            final(self)@.nodes == ({
                let ns = old(self)@.nodes;
                let p = ns[sibling@].parent;
                let i = child_slot(ns, sibling@);
                match child@ {
                    NodeOrTextModel::Text(chunk) => if i > 0 && ns[ns[p].children[i - 1]].node
                        is Text {
                        arena_extend_text(ns, ns[p].children[i - 1], chunk)
                    } else {
                        arena_insert_child(
                            arena_push_node(ns, NodeModel::Text(chunk)),
                            p,
                            i,
                            ns.len() as int,
                        )
                    },
                    NodeOrTextModel::Node(c) => arena_insert_child(arena_detach(ns, c), p, i, c),
                }
            }),
            final(self)@.errors == old(self)@.errors,
            final(self)@.quirks_mode == old(self)@.quirks_mode,
    {
        let ghost ns = old(self)@.nodes;
        let (parent, i) = match self.get_parent_and_index(sibling) {
            Some(pi) => pi,
            None => {
                proof {
                    assert(false);
                }
                unreached()
            },
        };
        match child {
            NodeOrText::AppendText(text) => {
                if i > 0 {
                    let prev = self.nodes[parent.index].children[i - 1];
                    proof {
                        assert(prev@ == ns[parent@].children[i - 1]);
                        assert(0 <= prev@ < ns.len());
                    }
                    let is_text = matches!(&self.nodes[prev.index].node, NodeEnum::Text(_));
                    if is_text {
                        self.extend_text_at(prev.index, &text);
                        return ;
                    }
                }
                let h = self.new_node(NodeEnum::Text(text));
                proof {
                    lemma_wf_push(ns, NodeModel::Text(text@));
                }
                self.insert_child_at(parent.index, i, h.index);
            },
            NodeOrText::AppendNode(c) => {
                let ghost slot = i as int;
                self.unparent(&c);
                proof {
                    lemma_wf_detach(ns, c@);
                    let ns1 = arena_detach(ns, c@);
                    assert(ns1[sibling@].parent == ns[sibling@].parent);
                    if ns[c@].parent == ns[sibling@].parent && ns[c@].parent != -1 {
                        let p = ns[sibling@].parent;
                        let kc = child_slot(ns, c@);
                        assert(ns[p].children[kc] == c@);
                        assert(kc != slot);
                        assert(ns1[p].children.len() == ns[p].children.len() - 1);
                        assert(slot <= ns1[p].children.len());
                    } else {
                        assert(ns1[ns[sibling@].parent].children
                            == ns[ns[sibling@].parent].children);
                    }
                    assert(ns1[c@].parent == -1);
                }
                self.insert_child_at(parent.index, i, c.index);
            },
        }
    }

    /// Add the given attributes to an element, keeping existing values:
    /// an attribute whose name the element already has is dropped. A
    /// non-element target is left unchanged.
    pub fn add_attrs_if_missing(
        &mut self,
        target: &Handle,
        attrs: Vec<crate::node::OwnedAttribute>,
    )
        requires
            old(self).wf(),
            0 <= target@ < old(self)@.nodes.len(),
        ensures
            final(self).wf(),
            final(self)@.nodes == ({
                let ns = old(self)@.nodes;
                match ns[target@].node {
                    NodeModel::Element(name, existing) => ns.update(
                        target@,
                        ArenaNode {
                            node: NodeModel::Element(
                                name,
                                existing + missing_attrs(
                                    existing,
                                    attrs@.map_values(|at: crate::node::OwnedAttribute| at@),
                                ),
                            ),
                            ..ns[target@]
                        },
                    ),
                    _ => ns,
                }
            }),
            final(self)@.errors == old(self)@.errors,
            final(self)@.quirks_mode == old(self)@.quirks_mode,
    {
        let ghost ns = old(self)@.nodes;
        proof {
            assert(self.nodes@[target@]@ == ns[target@]);
        }
        match &mut self.nodes[target.index].node {
            NodeEnum::Element(_name, existing) => {
                let ghost existing0 = existing@.map_values(
                    |at: crate::node::OwnedAttribute| at@,
                );
                let ghost given = attrs@.map_values(|at: crate::node::OwnedAttribute| at@);
                let existing_len = existing.len();
                let mut j: usize = 0;
                let mut attrs = attrs;
                proof {
                    reveal(Seq::filter);
                    assert(given.take(0) =~= Seq::<crate::node::AttrModel>::empty());
                    assert(missing_attrs(existing0, given.take(0)) =~= Seq::empty());
                    assert(existing@.map_values(|at: crate::node::OwnedAttribute| at@)
                        =~= existing0 + missing_attrs(existing0, given.take(0)));
                }
                while j < attrs.len()
                    invariant
                        j <= attrs.len(),
                        existing_len == existing0.len(),
                        existing@.map_values(|at: crate::node::OwnedAttribute| at@)
                            == existing0 + missing_attrs(existing0, given.take(j as int)),
                        attrs@.map_values(|at: crate::node::OwnedAttribute| at@) == given,
                    decreases attrs.len() - j,
                {
                    let ghost kept_before = existing@.map_values(
                        |at: crate::node::OwnedAttribute| at@,
                    );
                    proof {
                        assert(existing0 =~= kept_before.take(existing_len as int));
                    }
                    let mut present = false;
                    let mut k: usize = 0;
                    while k < existing_len
                        invariant
                            k <= existing_len,
                            existing_len <= existing@.len(),
                            j < attrs@.len(),
                            existing@.map_values(|at: crate::node::OwnedAttribute| at@)
                                == kept_before,
                            kept_before.len() >= existing_len,
                            attrs@.map_values(|at: crate::node::OwnedAttribute| at@) == given,
                            existing0 == kept_before.take(existing_len as int),
                            present == exists|m: int|
                                0 <= m < k && existing0[m].name == given[j as int].name,
                        decreases existing_len - k,
                    {
                        proof {
                            assert(existing@[k as int]@ == kept_before[k as int]);
                            assert(kept_before.take(existing_len as int)[k as int]
                                == kept_before[k as int]);
                            assert(attrs@[j as int]@ == given[j as int]);
                        }
                        if crate::serializer::u16s_eq(&existing[k].name, &attrs[j].name) {
                            present = true;
                        }
                        k = k + 1;
                    }
                    if !present {
                        let at = crate::node::OwnedAttribute {
                            name: crate::node::copy_u16s(&attrs[j].name),
                            value: crate::node::copy_u16s(&attrs[j].value),
                        };
                        proof {
                            assert(at@ =~~= attrs@[j as int]@);
                            assert(at@ == given[j as int]);
                        }
                        existing.push(at);
                        proof {
                            assert(existing@.map_values(
                                |at: crate::node::OwnedAttribute| at@,
                            ) =~= kept_before.push(given[j as int]));
                        }
                    }
                    j = j + 1;
                    proof {
                        assert(attrs@[j - 1]@ == given[j - 1]);
                        let prefix = given.take(j - 1);
                        let cur = given.take(j as int);
                        assert(cur.drop_last() =~= prefix);
                        assert(cur.last() == given[j - 1]);
                        reveal(Seq::filter);
                        assert(missing_attrs(existing0, cur) == (
                        if !(exists|m: int|
                            0 <= m < existing0.len() && existing0[m].name == given[j - 1].name) {
                            missing_attrs(existing0, prefix).push(given[j - 1])
                        } else {
                            missing_attrs(existing0, prefix)
                        }));
                        assert(existing@.map_values(|at: crate::node::OwnedAttribute| at@)
                            =~= existing0 + missing_attrs(existing0, given.take(j as int)));
                    }
                }
                proof {
                    assert(given.take(given.len() as int) =~= given);
                }
            },
            _ => {
            },
        }
        proof {
            if ns[target@].node is Element {
                assert(self@.nodes =~~= ({
                    let name = ns[target@].node->Element_0;
                    let existing = ns[target@].node->Element_1;
                    ns.update(
                        target@,
                        ArenaNode {
                            node: NodeModel::Element(
                                name,
                                existing + missing_attrs(
                                    existing,
                                    attrs@.map_values(|at: crate::node::OwnedAttribute| at@),
                                ),
                            ),
                            ..ns[target@]
                        },
                    )
                }));
                lemma_wf_same_links(ns, self@.nodes);
            } else {
                assert(self@.nodes =~~= ns);
            }
        }
    }

    /// Move every child of `node` to the end of `new_parent`'s children,
    /// in order.
    pub fn reparent_children(&mut self, node: &Handle, new_parent: &Handle)
        requires
            old(self).wf(),
            0 <= node@ < old(self)@.nodes.len(),
            0 <= new_parent@ < old(self)@.nodes.len(),
            node@ != new_parent@,
            forall|k: int|
                0 <= k < old(self)@.nodes[node@].children.len()
                    ==> new_parent@ < #[trigger] old(self)@.nodes[node@].children[k],
        ensures
            final(self).wf(),
            final(self)@.nodes == arena_reparent(old(self)@.nodes, node@, new_parent@),
            final(self)@.errors == old(self)@.errors,
            final(self)@.quirks_mode == old(self)@.quirks_mode,
    {
        let ghost ns = old(self)@.nodes;
        let mut moved: Vec<Handle> = Vec::new();
        core::mem::swap(&mut moved, &mut self.nodes[node.index].children);
        proof {
            assert(moved@.map_values(|h: Handle| h@) == ns[node@].children);
            assert forall|m: int| 0 <= m < moved@.len() implies new_parent@
                < #[trigger] moved@[m]@ by {
                assert(moved@.map_values(|h: Handle| h@)[m] == moved@[m]@);
                assert(ns[node@].children[m] == moved@[m]@);
            }
            assert(ns[new_parent@].children + ns[node@].children.take(0)
                =~= ns[new_parent@].children);
            assert(self@.nodes =~~= reparent_partial(ns, node@, new_parent@, 0));
        }
        let mut k: usize = 0;
        while k < moved.len()
            invariant
                k <= moved.len(),
                wf_arena(ns),
                0 <= node@ < ns.len(),
                0 <= new_parent@ < ns.len(),
                node@ != new_parent@,
                node.index < usize::MAX,
                new_parent.index < usize::MAX,
                moved@.map_values(|h: Handle| h@) == ns[node@].children,
                forall|m: int| 0 <= m < moved@.len() ==> new_parent@ < #[trigger] moved@[m]@,
                self@.nodes == reparent_partial(ns, node@, new_parent@, k as int),
                self@.errors == old(self)@.errors,
                self@.quirks_mode == old(self)@.quirks_mode,
                self.document == old(self).document,
            decreases moved.len() - k,
        {
            proof {
                assert(moved@[k as int]@ == ns[node@].children[k as int]);
                assert(0 <= moved@[k as int]@ < ns.len());
                assert(self@.nodes.len() == ns.len());
                assert(self.nodes@.len() == ns.len());
            }
            let c = moved[k];
            proof {
                assert(c@ == moved@[k as int]@);
                assert(c.index != usize::MAX);
                assert(c.index < self.nodes@.len());
                assert(new_parent@ == new_parent.index as int);
            }
            self.nodes[c.index].parent = *new_parent;
            self.nodes[new_parent.index].children.push(c);
            k = k + 1;
            proof {
                let kk = k as int;
                let q = new_parent@;
                let nn = node@;
                let ci = ns[nn].children[kk - 1];
                let pk = reparent_partial(ns, nn, q, kk - 1);
                let pk1 = reparent_partial(ns, nn, q, kk);
                assert(c@ == ci);
                assert forall|i: int| 0 <= i < ns.len() implies self@.nodes[i] =~~= pk1[i] by {
                    if i == nn {
                        assert(pk1[i] =~~= pk[i]);
                        assert(self@.nodes[i] =~~= pk[i]);
                    } else if i == q {
                        assert(ns[nn].children.take(kk) =~= ns[nn].children.take(kk - 1).push(
                            ci,
                        ));
                        assert(pk1[i].children =~= pk[i].children.push(ci));
                        assert(self@.nodes[i].children =~= pk[i].children.push(ci));
                    } else if i == ci {
                        if exists|m: int| 0 <= m < kk - 1 && ns[nn].children[m] == i {
                            let m = choose|m: int|
                                0 <= m < kk - 1 && ns[nn].children[m] == i;
                            assert(ns[nn].children[m] == ns[nn].children[kk - 1]);
                            assert(false);
                        }
                        assert(pk[i] == ns[i]);
                        assert(pk1[i] =~~= ArenaNode { parent: q, ..ns[i] });
                        assert(self@.nodes[i] =~~= ArenaNode { parent: q, ..ns[i] });
                    } else {
                        if exists|m: int| 0 <= m < kk && ns[nn].children[m] == i {
                            let m = choose|m: int| 0 <= m < kk && ns[nn].children[m] == i;
                            assert(m != kk - 1);
                            assert(exists|m2: int| 0 <= m2 < kk - 1 && ns[nn].children[m2] == i);
                            assert(pk1[i] =~~= pk[i]);
                        } else {
                            assert(!(exists|m: int|
                                0 <= m < kk - 1 && ns[nn].children[m] == i));
                            assert(pk1[i] == ns[i]);
                            assert(pk[i] == ns[i]);
                        }
                        assert(self@.nodes[i] =~~= pk[i]);
                    }
                }
                assert(self@.nodes =~~= reparent_partial(ns, node@, new_parent@, k as int));
            }
        }
        proof {
            assert(self@.nodes =~~= arena_reparent(ns, node@, new_parent@));
            lemma_wf_reparent(ns, node@, new_parent@);
        }
    }
}

/// Whether arena node `i` is reachable from the document root: its
/// parent chain ends at index 0. Parent links always point backward, so
/// the chain is well-founded.
pub open spec fn is_live(ns: Seq<ArenaNode>, i: int) -> bool
    decreases i,
{
    if i == 0 {
        true
    } else {
        let p = ns[i].parent;
        if 0 <= p < i {
            is_live(ns, p)
        } else {
            false
        }
    }
}

/// Whether `t` is the owned tree built from arena node `i`: same payload,
/// and one subtree per child, in order.
pub open spec fn tree_matches(ns: Seq<ArenaNode>, i: int, t: crate::node::TreeModel) -> bool
    decreases t,
{
    &&& 0 <= i < ns.len()
    &&& t.node == ns[i].node
    &&& t.children.len() == ns[i].children.len()
    &&& forall|k: int|
        0 <= k < t.children.len() ==> tree_matches(
            ns,
            ns[i].children[k],
            #[trigger] t.children[k],
        )
}

/// Mark pass of finalization: compute, for every arena node, whether it
/// is reachable from the document root. Parent links point backward, so
/// one forward sweep settles every node.
fn mark_live(nodes: &Vec<SquishyNode>) -> (live: Vec<bool>)
    requires
        wf_arena(nodes@.map_values(|n: SquishyNode| n@)),
    ensures
        live@.len() == nodes@.len(),
        forall|i: int|
            0 <= i < nodes@.len() ==> live@[i] == is_live(
                nodes@.map_values(|n: SquishyNode| n@),
                i,
            ),
{
    let ghost ns = nodes@.map_values(|n: SquishyNode| n@);
    let mut live: Vec<bool> = Vec::new();
    let mut i: usize = 0;
    while i < nodes.len()
        invariant
            ns == nodes@.map_values(|n: SquishyNode| n@),
            wf_arena(ns),
            i <= nodes@.len(),
            live@.len() == i,
            forall|j: int| 0 <= j < i ==> live@[j] == is_live(ns, j),
        decreases nodes@.len() - i,
    {
        if i == 0 {
            live.push(true);
            proof {
                assert(is_live(ns, 0));
            }
        } else {
            let parent = nodes[i].parent;
            proof {
                assert(ns[i as int].parent == parent@);
            }
            if parent.index == usize::MAX {
                live.push(false);
                proof {
                    assert(!is_live(ns, i as int));
                }
            } else {
                proof {
                    assert(parent@ != -1);
                    assert(0 <= parent@ < i as int);
                }
                let b = live[parent.index];
                live.push(b);
                proof {
                    assert(is_live(ns, i as int) == is_live(ns, parent@));
                }
            }
        }
        i = i + 1;
    }
    live
}

impl Sink {
    /// Build the owned subtree rooted at arena index `i`. Children carry
    /// larger indices than their parent, so the recursion is grounded.
    fn build_owned(nodes: &Vec<SquishyNode>, i: usize) -> (t: crate::node::Node)
        requires
            wf_arena(nodes@.map_values(|n: SquishyNode| n@)),
            i < nodes@.len(),
        ensures
            tree_matches(nodes@.map_values(|n: SquishyNode| n@), i as int, t@),
        decreases nodes@.len() - i,
    {
        let ghost ns = nodes@.map_values(|n: SquishyNode| n@);
        let payload = crate::node::copy_node_enum(&nodes[i].node);
        proof {
            assert(ns[i as int].node == nodes@[i as int]@.node);
        }
        let mut kids: Vec<crate::node::Node> = Vec::new();
        let klen = nodes[i].children.len();
        let mut k: usize = 0;
        while k < klen
            invariant
                ns == nodes@.map_values(|n: SquishyNode| n@),
                wf_arena(ns),
                i < nodes@.len(),
                klen == ns[i as int].children.len(),
                k <= klen,
                kids@.len() == k,
                forall|m: int|
                    0 <= m < k ==> tree_matches(
                        ns,
                        ns[i as int].children[m],
                        #[trigger] kids@[m]@,
                    ),
            decreases klen - k,
        {
            let c = nodes[i].children[k];
            proof {
                assert(ns[i as int].children[k as int] == c@);
                assert((i as int) < c@ < ns.len());
            }
            let child = Self::build_owned(nodes, c.index);
            kids.push(child);
            k = k + 1;
        }
        let t = crate::node::Node { node: payload, children: kids };
        proof {
            crate::node::lemma_tree_views_of(t.children@);
            assert(t@.children.len() == ns[i as int].children.len());
            assert forall|k2: int| 0 <= k2 < t@.children.len() implies tree_matches(
                ns,
                ns[i as int].children[k2],
                #[trigger] t@.children[k2],
            ) by {
                assert(t@.children[k2] == t.children@[k2]@);
            }
        }
        t
    }

    /// Finalize the arena into an owned document tree. The mark pass
    /// computes which nodes the root still reaches; detached subtrees,
    /// abandoned by removal or reparenting, are identified there and
    /// released with the arena, never turned into owned nodes. The build
    /// pass then constructs the owned tree from the root; parent links do
    /// not survive it.
    pub fn finish(self) -> (dom: crate::node::OwnedDom)
        requires
            self.wf(),
        ensures
            tree_matches(self@.nodes, 0, dom@.document),
            crate::node::tree_count(dom@.document) == live_set(self@.nodes).len(),
            dom@.errors == self@.errors,
            dom@.quirks_mode == self@.quirks_mode,
    {
        let live = mark_live(&self.nodes);
        let document = Self::build_owned(&self.nodes, 0);
        proof {
            assert(live@[0] == is_live(self@.nodes, 0));
            lemma_finish_counts_live(self@.nodes, document@);
        }
        crate::node::OwnedDom { document, errors: self.errors, quirks_mode: self.quirks_mode }
    }
}

/// Whether the parent chain of node `j` passes through node `i`.
pub open spec fn reaches(ns: Seq<ArenaNode>, j: int, i: int) -> bool
    decreases j,
{
    if j == i {
        true
    } else if 0 <= ns[j].parent < j {
        reaches(ns, ns[j].parent, i)
    } else {
        false
    }
}

/// The set of arena indices whose parent chain passes through `i`: the
/// nodes of the subtree rooted at `i`.
pub open spec fn sub_of(ns: Seq<ArenaNode>, i: int) -> Set<int> {
    Set::new(|j: int| 0 <= j < ns.len() && reaches(ns, j, i))
}

/// The set of arena indices the document root reaches.
pub open spec fn live_set(ns: Seq<ArenaNode>) -> Set<int> {
    Set::new(|j: int| 0 <= j < ns.len() && is_live(ns, j))
}

/// A chain target never exceeds its source: parent links point backward.
proof fn lemma_reaches_ge(ns: Seq<ArenaNode>, j: int, i: int)
    requires
        reaches(ns, j, i),
    ensures
        i <= j,
    decreases j,
{
    if j != i {
        lemma_reaches_ge(ns, ns[j].parent, i);
    }
}

/// Two targets of one chain lie on one line: one reaches the other.
proof fn lemma_reaches_linear(ns: Seq<ArenaNode>, j: int, x: int, y: int)
    requires
        reaches(ns, j, x),
        reaches(ns, j, y),
    ensures
        reaches(ns, x, y) || reaches(ns, y, x),
    decreases j,
{
    if j == x || j == y {
    } else {
        lemma_reaches_linear(ns, ns[j].parent, x, y);
    }
}

/// Reachability is the parent-chain relation rooted at the document.
proof fn lemma_live_is_reach(ns: Seq<ArenaNode>, j: int)
    ensures
        is_live(ns, j) == reaches(ns, j, 0),
    decreases j,
{
    if j != 0 && 0 <= ns[j].parent < j {
        lemma_live_is_reach(ns, ns[j].parent);
    }
}

/// A node below `i` in the subtree of `i` lies in the subtree of exactly
/// one child of `i`.
proof fn lemma_reach_through_child(ns: Seq<ArenaNode>, i: int, j: int)
    requires
        wf_arena(ns),
        0 <= i < ns.len(),
        0 <= j < ns.len(),
        reaches(ns, j, i),
        j != i,
    ensures
        exists|k: int|
            0 <= k < ns[i].children.len() && reaches(ns, j, #[trigger] ns[i].children[k]),
    decreases j,
{
    let p = ns[j].parent;
    assert(0 <= p < j);
    if p == i {
        assert(ns[i].children.contains(j));
        let k = choose|k: int| 0 <= k < ns[i].children.len() && ns[i].children[k] == j;
        assert(reaches(ns, j, ns[i].children[k]));
    } else {
        lemma_reach_through_child(ns, i, p);
        let k = choose|k: int|
            0 <= k < ns[i].children.len() && reaches(ns, p, #[trigger] ns[i].children[k]);
        assert(reaches(ns, j, ns[i].children[k]));
    }
}

/// The subtrees of two distinct children of one node are disjoint.
proof fn lemma_child_subtrees_disjoint(ns: Seq<ArenaNode>, i: int, k1: int, k2: int, j: int)
    requires
        wf_arena(ns),
        0 <= i < ns.len(),
        0 <= k1 < ns[i].children.len(),
        0 <= k2 < ns[i].children.len(),
        k1 != k2,
        reaches(ns, j, ns[i].children[k1]),
    ensures
        !reaches(ns, j, ns[i].children[k2]),
{
    let c1 = ns[i].children[k1];
    let c2 = ns[i].children[k2];
    assert(c1 != c2);
    if reaches(ns, j, c2) {
        lemma_reaches_linear(ns, j, c1, c2);
        if reaches(ns, c1, c2) {
            assert(ns[c1].parent == i);
            assert(reaches(ns, i, c2));
            lemma_reaches_ge(ns, i, c2);
            assert(i < c2);
        } else {
            assert(ns[c2].parent == i);
            assert(reaches(ns, i, c1));
            lemma_reaches_ge(ns, i, c1);
            assert(i < c1);
        }
    }
}

/// The total size of the subtrees of a sequence of nodes.
pub open spec fn subs_len(ns: Seq<ArenaNode>, cs: Seq<int>) -> nat
    decreases cs,
{
    if cs.len() == 0 {
        0
    } else {
        subs_len(ns, cs.drop_last()) + sub_of(ns, cs.last()).len()
    }
}

/// The union of the subtrees of a sequence of nodes.
pub open spec fn subs_union(ns: Seq<ArenaNode>, cs: Seq<int>) -> Set<int>
    decreases cs,
{
    if cs.len() == 0 {
        Set::empty()
    } else {
        subs_union(ns, cs.drop_last()).union(sub_of(ns, cs.last()))
    }
}

/// A subtree set is finite: it lies inside the index range.
proof fn lemma_sub_finite(ns: Seq<ArenaNode>, i: int)
    ensures
        sub_of(ns, i).finite(),
        sub_of(ns, i).len() <= ns.len(),
{
    vstd::set_lib::lemma_int_range(0, ns.len() as int);
    vstd::set_lib::lemma_len_subset(
        sub_of(ns, i),
        vstd::set_lib::set_int_range(0, ns.len() as int),
    );
}

/// The union of two disjoint finite sets has the sum of their sizes.
proof fn lemma_disjoint_union_len(s1: Set<int>, s2: Set<int>)
    requires
        s1.finite(),
        s2.finite(),
        forall|a: int| !(s1.contains(a) && s2.contains(a)),
    ensures
        s1.union(s2).finite(),
        s1.union(s2).len() == s1.len() + s2.len(),
    decreases s1.len(),
{
    if s1.is_empty() {
        assert(s1.union(s2) =~= s2);
        assert(s1.len() == 0);
    } else {
        let a = s1.choose();
        assert(s1.contains(a));
        assert(!s2.contains(a));
        assert(s1.union(s2).remove(a) =~= s1.remove(a).union(s2));
        lemma_disjoint_union_len(s1.remove(a), s2);
        assert(s1.union(s2).contains(a));
        assert(s1.union(s2) =~= s1.union(s2).remove(a).insert(a));
    }
}

/// The union of the subtrees of a prefix of `i`'s children is finite,
/// its size is the sum of the subtree sizes, and it holds exactly the
/// nodes that reach one of those children.
proof fn lemma_subs(ns: Seq<ArenaNode>, i: int, m: int)
    requires
        wf_arena(ns),
        0 <= i < ns.len(),
        0 <= m <= ns[i].children.len(),
    ensures
        subs_union(ns, ns[i].children.take(m)).finite(),
        subs_union(ns, ns[i].children.take(m)).len() == subs_len(ns, ns[i].children.take(m)),
        forall|j: int|
            subs_union(ns, ns[i].children.take(m)).contains(j) <==> (0 <= j < ns.len()
                && exists|k: int|
                0 <= k < m && reaches(ns, j, #[trigger] ns[i].children[k])),
    decreases m,
{
    let cs = ns[i].children.take(m);
    if m == 0 {
        assert(cs.len() == 0);
        assert(subs_union(ns, cs) == Set::<int>::empty());
        assert(subs_len(ns, cs) == 0);
    } else {
        lemma_subs(ns, i, m - 1);
        let prev = ns[i].children.take(m - 1);
        assert(cs.drop_last() =~= prev);
        assert(cs.last() == ns[i].children[m - 1]);
        let u_prev = subs_union(ns, prev);
        let s_last = sub_of(ns, ns[i].children[m - 1]);
        lemma_sub_finite(ns, ns[i].children[m - 1]);
        assert forall|a: int| !(u_prev.contains(a) && s_last.contains(a)) by {
            if u_prev.contains(a) && s_last.contains(a) {
                let k = choose|k: int|
                    0 <= k < m - 1 && reaches(ns, a, #[trigger] ns[i].children[k]);
                lemma_child_subtrees_disjoint(ns, i, k, m - 1, a);
            }
        }
        lemma_disjoint_union_len(u_prev, s_last);
        assert forall|j: int|
            subs_union(ns, cs).contains(j) <==> (0 <= j < ns.len() && exists|k: int|
                0 <= k < m && reaches(ns, j, #[trigger] ns[i].children[k])) by {
            if subs_union(ns, cs).contains(j) {
                if u_prev.contains(j) {
                    let k = choose|k: int|
                        0 <= k < m - 1 && reaches(ns, j, #[trigger] ns[i].children[k]);
                    assert(0 <= k < m && reaches(ns, j, ns[i].children[k]));
                } else {
                    assert(s_last.contains(j));
                    assert(reaches(ns, j, ns[i].children[m - 1]));
                }
            }
            if 0 <= j < ns.len() && exists|k: int|
                0 <= k < m && reaches(ns, j, #[trigger] ns[i].children[k]) {
                let k = choose|k: int|
                    0 <= k < m && reaches(ns, j, #[trigger] ns[i].children[k]);
                if k < m - 1 {
                    assert(u_prev.contains(j));
                } else {
                    assert(s_last.contains(j));
                }
                assert(subs_union(ns, cs).contains(j));
            }
        }
    }
}

/// The subtree of `i` is `i` itself plus the subtrees of its children,
/// so its size is one more than their total size.
proof fn lemma_sub_decompose(ns: Seq<ArenaNode>, i: int)
    requires
        wf_arena(ns),
        0 <= i < ns.len(),
    ensures
        sub_of(ns, i).len() == 1 + subs_len(ns, ns[i].children),
{
    let full = ns[i].children.len() as int;
    lemma_subs(ns, i, full);
    assert(ns[i].children.take(full) =~= ns[i].children);
    let u = subs_union(ns, ns[i].children);
    assert forall|j: int| u.contains(j) implies sub_of(ns, i).contains(j) && j != i by {
        let k = choose|k: int|
            0 <= k < full && reaches(ns, j, #[trigger] ns[i].children[k]);
        let c = ns[i].children[k];
        lemma_reaches_ge(ns, j, c);
        assert(ns[c].parent == i);
        lemma_reach_trans_step(ns, j, c, i);
        if j == i {
            lemma_reaches_ge(ns, i, c);
        }
    }
    assert forall|j: int| sub_of(ns, i).contains(j) && j != i implies u.contains(j) by {
        lemma_reach_through_child(ns, i, j);
    }
    assert(!u.contains(i));
    assert(sub_of(ns, i).contains(i));
    assert(sub_of(ns, i) =~= u.insert(i));
}

/// Extending a chain by one parent step keeps its targets.
proof fn lemma_reach_trans_step(ns: Seq<ArenaNode>, j: int, c: int, i: int)
    requires
        reaches(ns, j, c),
        0 <= ns[c].parent < c,
        ns[c].parent == i,
    ensures
        reaches(ns, j, i),
    decreases j,
{
    if j == c {
        assert(reaches(ns, i, i));
        assert(reaches(ns, c, i));
    } else {
        lemma_reach_trans_step(ns, ns[j].parent, c, i);
    }
}

/// An owned tree built from an arena node has exactly as many nodes as
/// the node's subtree in the arena.
proof fn lemma_tree_count_is_sub(ns: Seq<ArenaNode>, i: int, t: crate::node::TreeModel)
    requires
        wf_arena(ns),
        tree_matches(ns, i, t),
    ensures
        crate::node::tree_count(t) == sub_of(ns, i).len(),
    decreases t, 1int,
{
    lemma_sub_decompose(ns, i);
    lemma_trees_count_is_subs(ns, ns[i].children, t.children);
}

/// The node counts of a forest of owned trees total the sizes of the
/// matching arena subtrees.
proof fn lemma_trees_count_is_subs(
    ns: Seq<ArenaNode>,
    cs: Seq<int>,
    ts: Seq<crate::node::TreeModel>,
)
    requires
        wf_arena(ns),
        cs.len() == ts.len(),
        forall|k: int| 0 <= k < ts.len() ==> tree_matches(ns, cs[k], #[trigger] ts[k]),
    ensures
        crate::node::trees_count(ts) == subs_len(ns, cs),
    decreases ts, 0int,
{
    if ts.len() > 0 {
        assert forall|k: int|
            0 <= k < ts.drop_last().len() implies tree_matches(
            ns,
            cs.drop_last()[k],
            #[trigger] ts.drop_last()[k],
        ) by {
            assert(ts.drop_last()[k] == ts[k]);
        }
        lemma_trees_count_is_subs(ns, cs.drop_last(), ts.drop_last());
        lemma_tree_count_is_sub(ns, cs.last(), ts.last());
    }
}

/// Law: the finalized tree holds exactly the nodes the document root
/// still reaches in the arena, and no detached node leaks into it.
pub proof fn lemma_finish_counts_live(ns: Seq<ArenaNode>, t: crate::node::TreeModel)
    requires
        wf_arena(ns),
        tree_matches(ns, 0, t),
    ensures
        crate::node::tree_count(t) == live_set(ns).len(),
{
    lemma_tree_count_is_sub(ns, 0, t);
    assert forall|j: int| #[trigger] live_set(ns).contains(j) == sub_of(ns, 0).contains(
        j,
    ) by {
        lemma_live_is_reach(ns, j);
    }
    assert(live_set(ns) =~= sub_of(ns, 0));
}

/// The attributes of `given` whose names `existing` does not already
/// have, in order.
pub open spec fn missing_attrs(
    existing: Seq<crate::node::AttrModel>,
    given: Seq<crate::node::AttrModel>,
) -> Seq<crate::node::AttrModel> {
    given.filter(
        |a: crate::node::AttrModel|
            !exists|m: int| 0 <= m < existing.len() && existing[m].name == a.name,
    )
}

/// An arena transformation that changes no links preserves
/// well-formedness.
pub proof fn lemma_wf_same_links(ns: Seq<ArenaNode>, ns2: Seq<ArenaNode>)
    requires
        wf_arena(ns),
        ns2.len() == ns.len(),
        ns2[0].node is Document,
        forall|i: int|
            0 <= i < ns.len() ==> #[trigger] ns2[i].children == ns[i].children && ns2[i].parent
                == ns[i].parent,
    ensures
        wf_arena(ns2),
{
    assert forall|i: int, k: int|
        0 <= i < ns2.len() && 0 <= k < ns2[i].children.len() implies i < #[trigger] ns2[i]
        .children[k] < ns2.len() by {
        assert(ns2[i].children == ns[i].children);
    }
    assert forall|i: int, k: int|
        0 <= i < ns2.len() && 0 <= k < ns2[i].children.len() implies ns2[#[trigger] ns2[i]
        .children[k]].parent == i by {
        assert(ns2[i].children == ns[i].children);
        let x = ns[i].children[k];
        assert(ns[x].parent == i);
        assert(ns2[x].children == ns[x].children);
    }
    assert forall|c: int|
        0 <= c < ns2.len() && ns2[c].parent != -1 implies 0 <= #[trigger] ns2[c].parent < c
        && ns2[ns2[c].parent].children.contains(c) by {
        assert(ns2[c].children == ns[c].children);
        let p = ns[c].parent;
        assert(ns[p].children.contains(c));
        let k = choose|k: int| 0 <= k < ns[p].children.len() && ns[p].children[k] == c;
        assert(ns2[p].children == ns[p].children);
        assert(ns2[p].children[k] == c);
    }
    assert forall|i: int, k1: int, k2: int|
        0 <= i < ns2.len() && 0 <= k1 < ns2[i].children.len() && 0 <= k2 < ns2[i]
        .children.len() && #[trigger] ns2[i].children[k1] == #[trigger] ns2[i].children[k2]
        implies k1 == k2 by {
        assert(ns2[i].children == ns[i].children);
    }
}

/// The arena part-way through moving the children of `n` under `q`: the
/// first `k` moved children have their parent updated and stand at the
/// end of `q`'s list.
pub open spec fn reparent_partial(ns: Seq<ArenaNode>, n: int, q: int, k: int) -> Seq<
    ArenaNode,
> {
    Seq::new(
        ns.len(),
        |i: int|
            if i == n {
                ArenaNode { children: Seq::empty(), ..ns[n] }
            } else if i == q {
                ArenaNode { children: ns[q].children + ns[n].children.take(k), ..ns[q] }
            } else if exists|m: int| 0 <= m < k && ns[n].children[m] == i {
                ArenaNode { parent: q, ..ns[i] }
            } else {
                ns[i]
            },
    )
}

/// The arena after moving every child of `n` under `q`.
pub open spec fn arena_reparent(ns: Seq<ArenaNode>, n: int, q: int) -> Seq<ArenaNode> {
    reparent_partial(ns, n, q, ns[n].children.len() as int)
}

/// Moving all children of a node under an earlier node preserves
/// well-formedness.
pub proof fn lemma_wf_reparent(ns: Seq<ArenaNode>, n: int, q: int)
    requires
        wf_arena(ns),
        0 <= n < ns.len(),
        0 <= q < ns.len(),
        n != q,
        forall|k: int|
            0 <= k < ns[n].children.len() ==> q < #[trigger] ns[n].children[k],
    ensures
        wf_arena(arena_reparent(ns, n, q)),
{
    let ns2 = arena_reparent(ns, n, q);
    let moved = ns[n].children;
    assert(moved.take(moved.len() as int) =~= moved);
    assert(ns2[0].node == ns[0].node);
    assert forall|i: int, k: int|
        0 <= i < ns2.len() && 0 <= k < ns2[i].children.len() implies i < #[trigger] ns2[i]
        .children[k] < ns2.len() by {
        if i == q {
            if k < ns[q].children.len() {
                assert(ns2[i].children[k] == ns[q].children[k]);
            } else {
                assert(ns2[i].children[k] == moved[k - ns[q].children.len()]);
            }
        } else if i != n {
            assert(ns2[i].children == ns[i].children);
        }
    }
    assert forall|i: int, k: int|
        0 <= i < ns2.len() && 0 <= k < ns2[i].children.len() implies ns2[#[trigger] ns2[i]
        .children[k]].parent == i by {
        if i == q {
            if k < ns[q].children.len() {
                let x = ns[q].children[k];
                assert(ns[x].parent == q);
                assert(q < x);
                if moved.contains(x) {
                    let mm = choose|mm: int| 0 <= mm < moved.len() && moved[mm] == x;
                    assert(ns[n].children[mm] == x);
                    assert(ns[x].parent == n);
                    assert(false);
                }
                assert(ns2[x].parent == q);
            } else {
                let m = k - ns[q].children.len();
                let x = moved[m];
                assert(ns[n].children[m] == x);
                assert(n < x);
                assert(ns2[i].children[k] == x);
                assert(x != n);
                assert(x != q);
                assert(ns2[x].parent == q);
            }
        } else if i == n {
        } else {
            assert(ns2[i].children == ns[i].children);
            let x = ns[i].children[k];
            assert(ns[x].parent == i);
            assert(x != n || ns[x].parent == i);
            if x == n {
                assert(ns2[n].parent == ns[n].parent);
            } else if x == q {
                assert(ns2[q].parent == ns[q].parent);
            } else {
                if moved.contains(x) {
                    assert(ns[x].parent == n);
                    assert(i == n);
                    assert(false);
                }
                assert(ns2[x].parent == ns[x].parent);
            }
        }
    }
    assert forall|x: int|
        0 <= x < ns2.len() && ns2[x].parent != -1 implies 0 <= #[trigger] ns2[x].parent < x
        && ns2[ns2[x].parent].children.contains(x) by {
        if x != n && x != q && moved.contains(x) {
            let m = choose|m: int| 0 <= m < moved.len() && moved[m] == x;
            assert(ns2[x].parent == q);
            assert(q < x);
            assert(ns2[q].children[ns[q].children.len() + m] == x);
            assert(ns2[q].children.contains(x));
        } else {
            assert(ns2[x].parent == ns[x].parent);
            let p = ns[x].parent;
            assert(ns[p].children.contains(x));
            let k = choose|k: int| 0 <= k < ns[p].children.len() && ns[p].children[k] == x;
            if p == n {
                assert(moved[k] == x);
                assert(moved.contains(x));
                assert(x != q);
                assert(x != n);
                assert(false);
            } else if p == q {
                assert(ns2[q].children[k] == x);
                assert(ns2[q].children.contains(x));
            } else {
                assert(ns2[p].children == ns[p].children);
                assert(ns2[p].children[k] == x);
            }
        }
    }
    assert forall|i: int, k1: int, k2: int|
        0 <= i < ns2.len() && 0 <= k1 < ns2[i].children.len() && 0 <= k2 < ns2[i]
        .children.len() && #[trigger] ns2[i].children[k1] == #[trigger] ns2[i].children[k2]
        implies k1 == k2 by {
        if i == q {
            let old_len = ns[q].children.len() as int;
            if k1 != k2 {
                if k1 < old_len && k2 < old_len {
                    assert(ns[q].children[k1] == ns[q].children[k2]);
                } else if k1 >= old_len && k2 >= old_len {
                    assert(moved[k1 - old_len] == moved[k2 - old_len]);
                } else {
                    let ko: int = if k1 < old_len {
                        k1
                    } else {
                        k2
                    };
                    let km: int = if k1 < old_len {
                        k2
                    } else {
                        k1
                    };
                    let x = ns[q].children[ko];
                    assert(x == moved[km - old_len]);
                    assert(ns[x].parent == q);
                    assert(ns[x].parent == n);
                    assert(false);
                }
            }
        } else if i != n {
            assert(ns2[i].children == ns[i].children);
        }
    }
}

} // verus!
