use vstd::prelude::*;

use crate::node::{NodeModel, OwnedDom};
use crate::parse::{parse_of, parse_utf16, BuildStep, ParsedHtml, StepModel};
use crate::sink::{
    arena_append_text, arena_attach, arena_push_node, tree_matches, ArenaNode, Handle,
    NodeOrText, Sink,
};

verus! {

/// The state of a replay of construction callbacks: the arena built so
/// far and the stack of open elements, bottom the document root.
#[verifier::ext_equal]
pub ghost struct ReplayState {
    pub nodes: Seq<ArenaNode>,
    pub stack: Seq<int>,
}

/// The replay before any step: one document node, and it alone open.
pub open spec fn replay_init() -> ReplayState {
    ReplayState {
        nodes: seq![
            ArenaNode { node: NodeModel::Document, parent: -1, children: Seq::empty() },
        ],
        stack: seq![0],
    }
}

/// The insertion point of a replay state: the innermost open element.
pub open spec fn replay_top(st: ReplayState) -> int {
    if st.stack.len() == 0 {
        0
    } else {
        st.stack.last()
    }
}

/// The replay state after one construction callback. An element is
/// allocated and appended under the insertion point, then opened; text
/// is appended under the insertion point, coalescing with a trailing
/// text node; a doctype always goes under the document root; a close
/// step never pops the root.
pub open spec fn replay_step(st: ReplayState, step: StepModel) -> ReplayState {
    match step {
        StepModel::Open(name, attrs) => {
            let idx = st.nodes.len() as int;
            ReplayState {
                nodes: arena_attach(
                    arena_push_node(st.nodes, NodeModel::Element(name, attrs)),
                    replay_top(st),
                    idx,
                ),
                stack: st.stack.push(idx),
            }
        },
        StepModel::Close => ReplayState {
            nodes: st.nodes,
            stack: if st.stack.len() > 1 {
                st.stack.drop_last()
            } else {
                st.stack
            },
        },
        StepModel::Text(chunk) => ReplayState {
            nodes: arena_append_text(st.nodes, replay_top(st), chunk),
            stack: st.stack,
        },
        StepModel::Comment(c) => {
            let idx = st.nodes.len() as int;
            ReplayState {
                nodes: arena_attach(
                    arena_push_node(st.nodes, NodeModel::Comment(c)),
                    replay_top(st),
                    idx,
                ),
                stack: st.stack,
            }
        },
        StepModel::Doctype(n, p, s) => {
            let idx = st.nodes.len() as int;
            ReplayState {
                nodes: arena_attach(
                    arena_push_node(st.nodes, NodeModel::Doctype(n, p, s)),
                    0,
                    idx,
                ),
                stack: st.stack,
            }
        },
    }
}

/// The replay state after a whole stream of callbacks.
pub open spec fn replay(steps: Seq<StepModel>) -> ReplayState
    decreases steps,
{
    if steps.len() == 0 {
        replay_init()
    } else {
        replay_step(replay(steps.drop_last()), steps.last())
    }
}

/// Whether `d` is the document a parse of `text` builds: its tree is the
/// finalization of the replayed callback stream, and it carries the
/// parse diagnostics and the quirks mode.
pub open spec fn dom_matches_text(text: Seq<u16>, d: crate::node::DomModel) -> bool {
    &&& tree_matches(replay(parse_of(text).steps).nodes, 0, d.document)
    &&& d.errors == parse_of(text).errors
    &&& d.quirks_mode == parse_of(text).quirks_mode
}

/// Drive the construction sink with a recorded callback stream and
/// finalize: the arena is exactly the replayed one.
pub fn build_dom(parsed: ParsedHtml) -> (dom: OwnedDom)
    requires
        parsed@.steps.len() + 2 < usize::MAX,
    ensures
        tree_matches(replay(parsed@.steps).nodes, 0, dom@.document),
        dom@.errors == parsed@.errors,
        dom@.quirks_mode == parsed@.quirks_mode,
{
    let ParsedHtml { steps, mut errors, quirks_mode } = parsed;
    let ghost steps_m = steps@.map_values(|s: BuildStep| s@);
    let mut sink = Sink::default();
    let mut stack: Vec<Handle> = Vec::new();
    stack.push(sink.get_document());
    proof {
        assert(sink@.nodes =~~= replay_init().nodes);
        assert(stack@.map_values(|h: Handle| h@) =~= replay_init().stack);
    }
    let mut i: usize = 0;
    while i < steps.len()
        invariant
            i <= steps.len(),
            steps_m == steps@.map_values(|s: BuildStep| s@),
            steps_m.len() == steps@.len(),
            steps@.len() + 2 < usize::MAX,
            sink.wf(),
            sink@.nodes == replay(steps_m.take(i as int)).nodes,
            stack@.map_values(|h: Handle| h@) == replay(steps_m.take(i as int)).stack,
            stack@.len() >= 1,
            forall|m: int| 0 <= m < stack@.len() ==> 0 <= #[trigger] stack@[m]@,
            forall|m: int|
                0 <= m < stack@.len() ==> #[trigger] stack@[m]@ < sink@.nodes.len(),
            sink@.nodes.len() <= 1 + i,
            sink@.errors.len() == 0,
            sink@.quirks_mode == crate::node::QuirksMode::NoQuirks,
        decreases steps.len() - i,
    {
        let ghost pre = replay(steps_m.take(i as int));
        let ghost cur_m = steps_m[i as int];
        proof {
            assert(steps@[i as int]@ == cur_m);
            assert(steps_m.take(i + 1).drop_last() =~= steps_m.take(i as int));
            assert(steps_m.take(i + 1).last() == cur_m);
            assert(replay(steps_m.take(i + 1)) == replay_step(pre, cur_m));
            assert(stack@.map_values(|h: Handle| h@).last() == stack@[stack@.len() - 1]@);
            assert(replay_top(pre) == stack@[stack@.len() - 1]@);
        }
        let top = stack[stack.len() - 1];
        match &steps[i] {
            BuildStep::OpenElement(name, attrs) => {
                let name2 = crate::node::copy_u16s(name);
                let attrs2 = crate::node::copy_attrs(attrs);
                let h = sink.create_element(name2, attrs2);
                sink.append(&top, NodeOrText::AppendNode(h));
                stack.push(h);
                proof {
                    assert(sink@.nodes =~~= replay(steps_m.take(i + 1)).nodes);
                    assert(stack@.map_values(|h2: Handle| h2@) =~= replay(
                        steps_m.take(i + 1),
                    ).stack);
                }
            },
            BuildStep::CloseElement => {
                if stack.len() > 1 {
                    stack.pop();
                }
                proof {
                    assert(sink@.nodes =~~= replay(steps_m.take(i + 1)).nodes);
                    assert(stack@.map_values(|h2: Handle| h2@) =~= replay(
                        steps_m.take(i + 1),
                    ).stack);
                }
            },
            BuildStep::AddText(t) => {
                let t2 = crate::node::copy_u16s(t);
                sink.append(&top, NodeOrText::AppendText(t2));
                proof {
                    assert(sink@.nodes =~~= replay(steps_m.take(i + 1)).nodes);
                    assert(stack@.map_values(|h2: Handle| h2@) =~= replay(
                        steps_m.take(i + 1),
                    ).stack);
                }
            },
            BuildStep::AddComment(t) => {
                let t2 = crate::node::copy_u16s(t);
                let h = sink.create_comment(t2);
                sink.append(&top, NodeOrText::AppendNode(h));
                proof {
                    assert(sink@.nodes =~~= replay(steps_m.take(i + 1)).nodes);
                    assert(stack@.map_values(|h2: Handle| h2@) =~= replay(
                        steps_m.take(i + 1),
                    ).stack);
                }
            },
            BuildStep::AddDoctype(n, p, s) => {
                let n2 = crate::node::copy_u16s(n);
                let p2 = crate::node::copy_u16s(p);
                let s2 = crate::node::copy_u16s(s);
                sink.append_doctype_to_document(n2, p2, s2);
                proof {
                    assert(sink@.nodes =~~= replay(steps_m.take(i + 1)).nodes);
                    assert(stack@.map_values(|h2: Handle| h2@) =~= replay(
                        steps_m.take(i + 1),
                    ).stack);
                }
            },
        }
        i = i + 1;
        proof {
            assert forall|m: int| 0 <= m < stack@.len() implies 0 <= #[trigger] stack@[m]@
                && stack@[m]@ < sink@.nodes.len() by {
                assert(stack@.map_values(|h2: Handle| h2@)[m] == stack@[m]@);
            }
        }
    }
    proof {
        assert(steps_m.take(steps_m.len() as int) =~= steps_m);
    }
    let ghost errs0 = errors@.map_values(|e: String| e@);
    let mut j: usize = 0;
    let elen = errors.len();
    while j < elen
        invariant
            j <= elen,
            j + errors@.len() == errs0.len(),
            errs0.len() == elen,
            sink.wf(),
            sink@.nodes == replay(steps_m).nodes,
            sink@.errors == errs0.take(j as int),
            sink@.quirks_mode == crate::node::QuirksMode::NoQuirks,
            forall|m: int| 0 <= m < errors@.len() ==> errors@[m]@ == errs0[j + m],
        decreases elen - j,
    {
        let ghost prev = errors@;
        let e = errors.remove(0);
        proof {
            assert(e@ == errs0[j as int]);
        }
        sink.parse_error(e);
        j = j + 1;
        proof {
            assert(sink@.errors =~= errs0.take(j as int));
            assert forall|m: int|
                0 <= m < errors@.len() implies #[trigger] errors@[m]@ == errs0[j + m] by {
                assert(errors@[m] == prev[m + 1]);
            }
        }
    }
    proof {
        assert(errs0.take(elen as int) =~= errs0);
    }
    sink.set_quirks_mode(quirks_mode);
    let dom = sink.finish();
    proof {
        assert(dom@.errors =~= parsed@.errors);
    }
    dom
}

/// Parse a text with the external parser and rebuild the document tree
/// through the verified construction sink.
pub fn rebuild(text: &Vec<u16>) -> (dom: OwnedDom)
    ensures
        dom_matches_text(text@, dom@),
{
    let parsed = parse_utf16(text);
    build_dom(parsed)
}

} // verus!
