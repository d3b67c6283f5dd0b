use vstd::prelude::*;

verus! {

broadcast use
    vstd::std_specs::vec::axiom_vec_decreases_to_view,
    vstd::std_specs::vec::axiom_vec_index_decreases,
    vstd::seq::axiom_seq_index_decreases;

/// How the parser classified the document while building it.
#[derive(Clone, Copy, PartialEq, Eq, Structural, Debug)]
pub enum QuirksMode {
    NoQuirks,
    LimitedQuirks,
    Quirks,
}

/// A single attribute of an element; name and value are UTF-16 code units.
pub struct OwnedAttribute {
    pub name: Vec<u16>,
    pub value: Vec<u16>,
}

/// The mathematical value of an attribute.
#[verifier::ext_equal]
pub ghost struct AttrModel {
    pub name: Seq<u16>,
    pub value: Seq<u16>,
}

impl View for OwnedAttribute {
    type V = AttrModel;

    open spec fn view(&self) -> AttrModel {
        AttrModel { name: self.name@, value: self.value@ }
    }
}

/// The different kinds of nodes in the document tree.
pub enum NodeEnum {
    /// The document itself, the unique root.
    Document,
    /// A doctype with name, public id, and system id.
    Doctype(Vec<u16>, Vec<u16>, Vec<u16>),
    /// A text node; its content is UTF-16 code units.
    Text(Vec<u16>),
    /// A comment.
    Comment(Vec<u16>),
    /// An element with a tag name and an ordered attribute list.
    Element(Vec<u16>, Vec<OwnedAttribute>),
}

/// The mathematical value of a node's payload.
#[verifier::ext_equal]
pub ghost enum NodeModel {
    Document,
    Doctype(Seq<u16>, Seq<u16>, Seq<u16>),
    Text(Seq<u16>),
    Comment(Seq<u16>),
    Element(Seq<u16>, Seq<AttrModel>),
}

impl View for NodeEnum {
    type V = NodeModel;

    open spec fn view(&self) -> NodeModel {
        match self {
            NodeEnum::Document => NodeModel::Document,
            NodeEnum::Doctype(n, p, s) => NodeModel::Doctype(n@, p@, s@),
            NodeEnum::Text(t) => NodeModel::Text(t@),
            NodeEnum::Comment(t) => NodeModel::Comment(t@),
            NodeEnum::Element(n, a) => NodeModel::Element(
                n@,
                a@.map_values(|at: OwnedAttribute| at@),
            ),
        }
    }
}

/// A node of the finalized tree: a payload and its exclusively owned
/// children. No parent links survive finalization.
pub struct Node {
    pub node: NodeEnum,
    pub children: Vec<Node>,
}

/// The mathematical value of a finalized tree.
#[verifier::ext_equal]
pub ghost struct TreeModel {
    pub node: NodeModel,
    pub children: Seq<TreeModel>,
}

impl View for Node {
    type V = TreeModel;

    open spec fn view(&self) -> TreeModel
        decreases self,
    {
        TreeModel { node: self.node@, children: tree_views_of(self.children@) }
    }
}

/// The mathematical values of a sequence of finalized nodes, in order.
pub open spec fn tree_views_of(s: Seq<Node>) -> Seq<TreeModel>
    decreases s,
{
    if s.len() == 0 {
        Seq::empty()
    } else {
        tree_views_of(s.drop_last()).push(s.last()@)
    }
}

/// `tree_views_of` maps the sequence elementwise.
pub proof fn lemma_tree_views_of(s: Seq<Node>)
    ensures
        tree_views_of(s).len() == s.len(),
        forall|i: int| 0 <= i < s.len() ==> tree_views_of(s)[i] == s[i]@,
    decreases s.len(),
{
    if s.len() == 0 {
        assert(tree_views_of(s) == Seq::<TreeModel>::empty());
    } else {
        lemma_tree_views_of(s.drop_last());
        assert(tree_views_of(s) == tree_views_of(s.drop_last()).push(s.last()@));
        assert forall|i: int| 0 <= i < s.len() implies tree_views_of(s)[i] == s[i]@ by {
            if i < s.len() - 1 {
                assert(s.drop_last()[i] == s[i]);
            }
        }
    }
}

/// The number of nodes in a finalized tree, the root included.
pub open spec fn tree_count(t: TreeModel) -> nat
    decreases t,
{
    1 + trees_count(t.children)
}

/// The number of nodes in a forest of finalized trees.
pub open spec fn trees_count(ts: Seq<TreeModel>) -> nat
    decreases ts,
{
    if ts.len() == 0 {
        0
    } else {
        trees_count(ts.drop_last()) + tree_count(ts.last())
    }
}

/// The finalized document: an owned tree plus the diagnostics the parser
/// reported while building it.
pub struct OwnedDom {
    pub document: Node,
    pub errors: Vec<String>,
    pub quirks_mode: QuirksMode,
}

/// The mathematical value of a finalized document.
#[verifier::ext_equal]
pub ghost struct DomModel {
    pub document: TreeModel,
    pub errors: Seq<Seq<char>>,
    pub quirks_mode: QuirksMode,
}

impl View for OwnedDom {
    type V = DomModel;

    open spec fn view(&self) -> DomModel {
        DomModel {
            document: self.document@,
            errors: self.errors@.map_values(|e: String| e@),
            quirks_mode: self.quirks_mode,
        }
    }
}

/// Copy a vector of code units.
pub fn copy_u16s(v: &Vec<u16>) -> (r: Vec<u16>)
    ensures
        r@ == v@,
{
    let mut r: Vec<u16> = Vec::new();
    let mut i: usize = 0;
    while i < v.len()
        invariant
            i <= v.len(),
            r@ == v@.take(i as int),
        decreases v.len() - i,
    {
        r.push(v[i]);
        i = i + 1;
        proof {
            assert(r@ =~= v@.take(i as int));
        }
    }
    proof {
        assert(v@.take(v.len() as int) =~= v@);
    }
    r
}

/// Copy an attribute list.
pub fn copy_attrs(attrs: &Vec<OwnedAttribute>) -> (r: Vec<OwnedAttribute>)
    ensures
        r@.map_values(|at: OwnedAttribute| at@) == attrs@.map_values(|at: OwnedAttribute| at@),
{
    let mut r: Vec<OwnedAttribute> = Vec::new();
    let mut i: usize = 0;
    while i < attrs.len()
        invariant
            i <= attrs.len(),
            r@.len() == i,
            forall|k: int| 0 <= k < i ==> r@[k]@ == attrs@[k]@,
        decreases attrs.len() - i,
    {
        let at = OwnedAttribute {
            name: copy_u16s(&attrs[i].name),
            value: copy_u16s(&attrs[i].value),
        };
        r.push(at);
        i = i + 1;
    }
    proof {
        assert(r@.map_values(|at: OwnedAttribute| at@)
            =~= attrs@.map_values(|at: OwnedAttribute| at@));
    }
    r
}

/// Copy a node payload; the copy has the same mathematical value.
pub fn copy_node_enum(n: &NodeEnum) -> (r: NodeEnum)
    ensures
        r@ == n@,
{
    match n {
        NodeEnum::Document => NodeEnum::Document,
        NodeEnum::Doctype(a, b, c) => NodeEnum::Doctype(
            copy_u16s(a),
            copy_u16s(b),
            copy_u16s(c),
        ),
        NodeEnum::Text(t) => NodeEnum::Text(copy_u16s(t)),
        NodeEnum::Comment(t) => NodeEnum::Comment(copy_u16s(t)),
        NodeEnum::Element(name, attrs) => NodeEnum::Element(
            copy_u16s(name),
            copy_attrs(attrs),
        ),
    }
}

} // verus!
