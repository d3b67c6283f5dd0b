use vstd::prelude::*;

use crate::node::{Node, NodeEnum, NodeModel, OwnedDom, TreeModel};
use crate::node::{lemma_tree_views_of, tree_views_of};

verus! {

broadcast use
    vstd::std_specs::vec::axiom_vec_decreases_to_view,
    vstd::std_specs::vec::axiom_vec_index_decreases,
    vstd::seq::axiom_seq_index_decreases;

/// The tag name `html` as UTF-16 code units.
pub open spec fn tag_html() -> Seq<u16> {
    seq![104u16, 116u16, 109u16, 108u16]
}

/// The tag name `head` as UTF-16 code units.
pub open spec fn tag_head() -> Seq<u16> {
    seq![104u16, 101u16, 97u16, 100u16]
}

/// The tag name `body` as UTF-16 code units.
pub open spec fn tag_body() -> Seq<u16> {
    seq![98u16, 111u16, 100u16, 121u16]
}

/// Structural wrapper tags that the parser inserts around every document;
/// they never appear in the editable text.
pub open spec fn excluded_tag(name: Seq<u16>) -> bool {
    name == tag_html() || name == tag_head() || name == tag_body()
}

/// The code units of an opening tag: `<name>`.
pub open spec fn open_tag(name: Seq<u16>) -> Seq<u16> {
    seq![60u16] + name + seq![62u16]
}

/// The code units of a closing tag: `</name>`.
pub open spec fn close_tag(name: Seq<u16>) -> Seq<u16> {
    seq![60u16, 47u16] + name + seq![62u16]
}

/// The serialized text of one tree: text nodes emit their content, elements
/// emit open and close tags around their serialized children except for the
/// excluded wrapper tags, and every other kind of node emits only its
/// children. This function defines what a `Location` offset means.
pub open spec fn ser_tree(t: TreeModel) -> Seq<u16>
    decreases t,
{
    match t.node {
        NodeModel::Text(content) => content + ser_trees(t.children),
        NodeModel::Element(name, _attrs) => if excluded_tag(name) {
            ser_trees(t.children)
        } else {
            open_tag(name) + ser_trees(t.children) + close_tag(name)
        },
        _ => ser_trees(t.children),
    }
}

/// The serialized text of a forest of trees, in order.
pub open spec fn ser_trees(ts: Seq<TreeModel>) -> Seq<u16>
    decreases ts,
{
    if ts.len() == 0 {
        Seq::empty()
    } else {
        ser_trees(ts.drop_last()) + ser_tree(ts.last())
    }
}

/// Whether two code-unit vectors hold the same text.
pub fn u16s_eq(a: &Vec<u16>, b: &Vec<u16>) -> (r: bool)
    ensures
        r == (a@ == b@),
{
    if a.len() != b.len() {
        proof {
            assert(a@ != b@);
        }
        return false;
    }
    let mut i: usize = 0;
    while i < a.len()
        invariant
            i <= a.len(),
            a@.len() == b@.len(),
            forall|k: int| 0 <= k < i ==> a@[k] == b@[k],
        decreases a.len() - i,
    {
        if a[i] != b[i] {
            return false;
        }
        i = i + 1;
    }
    proof {
        assert(a@ =~= b@);
    }
    true
}

/// Whether `name` is one of the excluded structural wrapper tags.
fn is_excluded_tag(name: &Vec<u16>) -> (r: bool)
    ensures
        r == excluded_tag(name@),
{
    let mut html: Vec<u16> = Vec::new();
    html.push(104);
    html.push(116);
    html.push(109);
    html.push(108);
    let mut head: Vec<u16> = Vec::new();
    head.push(104);
    head.push(101);
    head.push(97);
    head.push(100);
    let mut body: Vec<u16> = Vec::new();
    body.push(98);
    body.push(111);
    body.push(100);
    body.push(121);
    proof {
        assert(html@ =~= tag_html());
        assert(head@ =~= tag_head());
        assert(body@ =~= tag_body());
    }
    u16s_eq(name, &html) || u16s_eq(name, &head) || u16s_eq(name, &body)
}

/// Append the serialization of one tree to `out`.
fn write_tree(n: &Node, out: &mut Vec<u16>)
    ensures
        final(out)@ == old(out)@ + ser_tree(n@),
    decreases *n,
{
    let ghost out0 = out@;
    match &n.node {
        NodeEnum::Text(content) => {
            let mut i: usize = 0;
            while i < content.len()
                invariant
                    i <= content.len(),
                    out@ == out0 + content@.take(i as int),
                decreases content.len() - i,
            {
                out.push(content[i]);
                i = i + 1;
                proof {
                    assert(out@ =~= out0 + content@.take(i as int));
                }
            }
            proof {
                assert(content@.take(content@.len() as int) =~= content@);
            }
            write_children(&n.children, out);
            proof {
                assert(out@ =~= out0 + ser_tree(n@));
            }
        },
        NodeEnum::Element(name, _attrs) => {
            if is_excluded_tag(name) {
                write_children(&n.children, out);
                proof {
                    assert(out@ =~= out0 + ser_tree(n@));
                }
            } else {
                out.push(60);
                let mut i: usize = 0;
                while i < name.len()
                    invariant
                        i <= name.len(),
                        out@ == out0 + seq![60u16] + name@.take(i as int),
                    decreases name.len() - i,
                {
                    out.push(name[i]);
                    i = i + 1;
                    proof {
                        assert(out@ =~= out0 + seq![60u16] + name@.take(i as int));
                    }
                }
                out.push(62);
                proof {
                    assert(name@.take(name@.len() as int) =~= name@);
                    assert(out@ =~= out0 + open_tag(name@));
                }
                write_children(&n.children, out);
                let ghost mid = out@;
                out.push(60);
                out.push(47);
                let mut j: usize = 0;
                while j < name.len()
                    invariant
                        j <= name.len(),
                        out@ == mid + seq![60u16, 47u16] + name@.take(j as int),
                    decreases name.len() - j,
                {
                    out.push(name[j]);
                    j = j + 1;
                    proof {
                        assert(out@ =~= mid + seq![60u16, 47u16] + name@.take(j as int));
                    }
                }
                out.push(62);
                proof {
                    assert(name@.take(name@.len() as int) =~= name@);
                    assert(out@ =~= out0 + ser_tree(n@));
                }
            }
        },
        _ => {
            write_children(&n.children, out);
            proof {
                assert(out@ =~= out0 + ser_tree(n@));
            }
        },
    }
}

/// Append the serialization of a node sequence to `out`.
fn write_children(children: &Vec<Node>, out: &mut Vec<u16>)
    ensures
        final(out)@ == old(out)@ + ser_trees(tree_views_of(children@)),
    decreases *children,
{
    let ghost out0 = out@;
    let mut i: usize = 0;
    while i < children.len()
        invariant
            i <= children.len(),
            out@ == out0 + ser_trees(tree_views_of(children@.take(i as int))),
        decreases children.len() - i,
    {
        let ghost pre = children@.take(i as int);
        write_tree(&children[i], out);
        i = i + 1;
        proof {
            let cur = children@.take(i as int);
            assert(cur.drop_last() =~= pre);
            assert(cur.last() == children@[i - 1]);
            lemma_tree_views_of(cur);
            lemma_tree_views_of(pre);
            assert(tree_views_of(cur) =~= tree_views_of(pre).push(children@[i - 1]@));
            assert(tree_views_of(cur).drop_last() =~= tree_views_of(pre));
            assert(out@ =~= out0 + ser_trees(tree_views_of(cur)));
        }
    }
    proof {
        assert(children@.take(children@.len() as int) =~= children@);
    }
}

/// Render the document into a flat sequence of UTF-16 code units.
pub fn serialize(dom: &OwnedDom) -> (out: Vec<u16>)
    ensures
        out@ == ser_tree(dom.document@),
{
    let mut out: Vec<u16> = Vec::new();
    write_tree(&dom.document, &mut out);
    out
}

/// The tag name `strong`, the formatting element `bold` toggles.
pub open spec fn tag_strong() -> Seq<u16> {
    seq![115u16, 116u16, 114u16, 111u16, 110u16, 103u16]
}

/// Peeling the first tree off a forest splits its serialization.
pub proof fn lemma_ser_trees_first(ts: Seq<TreeModel>)
    requires
        ts.len() > 0,
    ensures
        ser_trees(ts) == ser_tree(ts[0]) + ser_trees(ts.drop_first()),
    decreases ts.len(),
{
    if ts.len() == 1 {
        assert(ts.drop_last() =~= Seq::<TreeModel>::empty());
        assert(ts.drop_first() =~= Seq::<TreeModel>::empty());
        assert(ts.last() == ts[0]);
        assert(ser_trees(ts.drop_last()) + ser_tree(ts[0]) =~= ser_tree(ts[0]) + ser_trees(
            ts.drop_first(),
        ));
    } else {
        lemma_ser_trees_first(ts.drop_last());
        assert(ts.drop_last()[0] == ts[0]);
        assert(ts.drop_last().drop_first() =~= ts.drop_first().drop_last());
        assert(ts.drop_first().last() == ts.last());
        assert((ser_tree(ts[0]) + ser_trees(ts.drop_first().drop_last())) + ser_tree(ts.last())
            =~= ser_tree(ts[0]) + (ser_trees(ts.drop_first().drop_last()) + ser_tree(
            ts.last(),
        )));
    }
}

/// The serialization-coordinate ranges of the text nodes of a tree
/// placed at offset `pos`, in document order.
pub open spec fn text_spans_of(t: TreeModel, pos: int) -> Seq<(int, int)>
    decreases t,
{
    match t.node {
        NodeModel::Text(c) => seq![(pos, pos + c.len())] + text_spans_list(
            t.children,
            pos + c.len(),
        ),
        NodeModel::Element(name, _attrs) => if excluded_tag(name) {
            text_spans_list(t.children, pos)
        } else {
            text_spans_list(t.children, pos + open_tag(name).len())
        },
        _ => text_spans_list(t.children, pos),
    }
}

/// The text spans of a forest placed at offset `pos`.
pub open spec fn text_spans_list(ts: Seq<TreeModel>, pos: int) -> Seq<(int, int)>
    decreases ts,
{
    if ts.len() == 0 {
        Seq::empty()
    } else {
        text_spans_of(ts[0], pos) + text_spans_list(
            ts.drop_first(),
            pos + ser_tree(ts[0]).len(),
        )
    }
}

/// The serialization-coordinate ranges of the content of each `strong`
/// element of a tree placed at offset `pos`: the range its children
/// occupy, between its open and close tags. Deeper elements come first.
pub open spec fn strong_spans_of(t: TreeModel, pos: int) -> Seq<(int, int)>
    decreases t,
{
    match t.node {
        NodeModel::Text(c) => strong_spans_list(t.children, pos + c.len()),
        NodeModel::Element(name, _attrs) => if excluded_tag(name) {
            strong_spans_list(t.children, pos)
        } else {
            let inner = pos + open_tag(name).len();
            if name == tag_strong() {
                strong_spans_list(t.children, inner) + seq![
                    (inner, inner + ser_trees(t.children).len()),
                ]
            } else {
                strong_spans_list(t.children, inner)
            }
        },
        _ => strong_spans_list(t.children, pos),
    }
}

/// The `strong` content spans of a forest placed at offset `pos`.
pub open spec fn strong_spans_list(ts: Seq<TreeModel>, pos: int) -> Seq<(int, int)>
    decreases ts,
{
    if ts.len() == 0 {
        Seq::empty()
    } else {
        strong_spans_of(ts[0], pos) + strong_spans_list(
            ts.drop_first(),
            pos + ser_tree(ts[0]).len(),
        )
    }
}

/// The mathematical value of a vector of spans.
pub open spec fn spans_view(v: Seq<(usize, usize)>) -> Seq<(int, int)> {
    v.map_values(|p: (usize, usize)| (p.0 as int, p.1 as int))
}

/// Collect the text spans and the `strong` content spans of the tree
/// rooted at `n` placed at offset `pos`; the return value is the offset
/// just past the tree's serialization.
pub fn collect_spans(
    n: &Node,
    pos: usize,
    texts: &mut Vec<(usize, usize)>,
    strongs: &mut Vec<(usize, usize)>,
) -> (end: usize)
    requires
        pos + ser_tree(n@).len() <= usize::MAX,
    ensures
        end == pos + ser_tree(n@).len(),
        spans_view(final(texts)@) == spans_view(old(texts)@) + text_spans_of(n@, pos as int),
        spans_view(final(strongs)@) == spans_view(old(strongs)@) + strong_spans_of(
            n@,
            pos as int,
        ),
    decreases *n,
{
    match &n.node {
        NodeEnum::Text(content) => {
            let after = pos + content.len();
            texts.push((pos, after));
            let end = collect_children(&n.children, after, texts, strongs);
            proof {
                assert(spans_view(texts@) =~= spans_view(old(texts)@) + text_spans_of(
                    n@,
                    pos as int,
                ));
                assert(spans_view(strongs@) =~= spans_view(old(strongs)@) + strong_spans_of(
                    n@,
                    pos as int,
                ));
            }
            end
        },
        NodeEnum::Element(name, _attrs) => {
            if is_excluded_tag(name) {
                let end = collect_children(&n.children, pos, texts, strongs);
                proof {
                    assert(spans_view(texts@) =~= spans_view(old(texts)@) + text_spans_of(
                        n@,
                        pos as int,
                    ));
                    assert(spans_view(strongs@) =~= spans_view(old(strongs)@)
                        + strong_spans_of(n@, pos as int));
                }
                end
            } else {
                let mut strong: Vec<u16> = Vec::new();
                strong.push(115);
                strong.push(116);
                strong.push(114);
                strong.push(111);
                strong.push(110);
                strong.push(103);
                proof {
                    assert(strong@ =~= tag_strong());
                }
                let is_strong = u16s_eq(name, &strong);
                let inner_start = pos + 1 + name.len() + 1;
                proof {
                    assert(open_tag(name@).len() == name@.len() + 2);
                    assert(ser_tree(n@).len() == open_tag(name@).len() + ser_trees(
                        n@.children,
                    ).len() + close_tag(name@).len());
                }
                let inner_end = collect_children(&n.children, inner_start, texts, strongs);
                let ghost mid_strongs = strongs@;
                if is_strong {
                    strongs.push((inner_start, inner_end));
                }
                proof {
                    assert(inner_end as int == inner_start as int + ser_trees(
                        n@.children,
                    ).len());
                    assert(is_strong == (name@ == tag_strong()));
                    assert(strong_spans_of(n@, pos as int) == (
                    if name@ == tag_strong() {
                        strong_spans_list(n@.children, inner_start as int) + seq![
                            (inner_start as int, inner_end as int),
                        ]
                    } else {
                        strong_spans_list(n@.children, inner_start as int)
                    }));
                    assert(spans_view(texts@) =~= spans_view(old(texts)@) + text_spans_of(
                        n@,
                        pos as int,
                    ));
                    if is_strong {
                        assert(strongs@ == mid_strongs.push((inner_start, inner_end)));
                        assert(spans_view(strongs@) =~= spans_view(mid_strongs).push(
                            (inner_start as int, inner_end as int),
                        ));
                    }
                    assert(spans_view(strongs@) =~= spans_view(old(strongs)@)
                        + strong_spans_of(n@, pos as int));
                }
                inner_end + 2 + name.len() + 1
            }
        },
        _ => {
            let end = collect_children(&n.children, pos, texts, strongs);
            proof {
                assert(spans_view(texts@) =~= spans_view(old(texts)@) + text_spans_of(
                    n@,
                    pos as int,
                ));
                assert(spans_view(strongs@) =~= spans_view(old(strongs)@) + strong_spans_of(
                    n@,
                    pos as int,
                ));
            }
            end
        },
    }
}

/// Collect the spans of a node sequence placed at offset `pos`.
fn collect_children(
    children: &Vec<Node>,
    pos: usize,
    texts: &mut Vec<(usize, usize)>,
    strongs: &mut Vec<(usize, usize)>,
) -> (end: usize)
    requires
        pos + ser_trees(tree_views_of(children@)).len() <= usize::MAX,
    ensures
        end == pos + ser_trees(tree_views_of(children@)).len(),
        spans_view(final(texts)@) == spans_view(old(texts)@) + text_spans_list(
            tree_views_of(children@),
            pos as int,
        ),
        spans_view(final(strongs)@) == spans_view(old(strongs)@) + strong_spans_list(
            tree_views_of(children@),
            pos as int,
        ),
    decreases *children,
{
    let ghost views = tree_views_of(children@);
    proof {
        lemma_tree_views_of(children@);
        assert(views.skip(0) =~= views);
        assert(spans_view(texts@) + text_spans_list(views.skip(0), pos as int)
            =~= spans_view(texts@) + text_spans_list(views, pos as int));
    }
    let mut cur = pos;
    let mut i: usize = 0;
    while i < children.len()
        invariant
            i <= children@.len(),
            views == tree_views_of(children@),
            views.len() == children@.len(),
            forall|m: int| 0 <= m < children@.len() ==> views[m] == #[trigger] children@[m]@,
            cur + ser_trees(views.skip(i as int)).len() == pos + ser_trees(views).len(),
            pos + ser_trees(views).len() <= usize::MAX,
            spans_view(texts@) + text_spans_list(views.skip(i as int), cur as int)
                == spans_view(old(texts)@) + text_spans_list(views, pos as int),
            spans_view(strongs@) + strong_spans_list(views.skip(i as int), cur as int)
                == spans_view(old(strongs)@) + strong_spans_list(views, pos as int),
        decreases children.len() - i,
    {
        let ghost rest = views.skip(i as int);
        proof {
            assert(rest.len() > 0);
            assert(rest[0] == views[i as int]);
            lemma_ser_trees_first(rest);
            assert(views[i as int] == children@[i as int]@);
            assert(cur + ser_tree(children@[i as int]@).len() <= usize::MAX);
        }
        let ghost texts_pre = texts@;
        let ghost strongs_pre = strongs@;
        let c_end = collect_spans(&children[i], cur, texts, strongs);
        proof {
            assert(rest.drop_first() =~= views.skip(i + 1));
            assert(text_spans_list(rest, cur as int) == text_spans_of(rest[0], cur as int)
                + text_spans_list(views.skip(i + 1), cur as int + ser_tree(rest[0]).len()));
            assert(strong_spans_list(rest, cur as int) == strong_spans_of(rest[0], cur as int)
                + strong_spans_list(views.skip(i + 1), cur as int + ser_tree(rest[0]).len()));
            assert(spans_view(texts@) + text_spans_list(
                views.skip(i + 1),
                c_end as int,
            ) =~= spans_view(texts_pre) + text_spans_list(rest, cur as int));
            assert(spans_view(strongs@) + strong_spans_list(
                views.skip(i + 1),
                c_end as int,
            ) =~= spans_view(strongs_pre) + strong_spans_list(rest, cur as int));
        }
        cur = c_end;
        i = i + 1;
    }
    proof {
        assert(views.skip(views.len() as int) =~= Seq::<TreeModel>::empty());
        assert(spans_view(texts@) =~= spans_view(texts@) + text_spans_list(
            Seq::empty(),
            cur as int,
        ));
        assert(spans_view(strongs@) =~= spans_view(strongs@) + strong_spans_list(
            Seq::empty(),
            cur as int,
        ));
    }
    cur
}

} // verus!
