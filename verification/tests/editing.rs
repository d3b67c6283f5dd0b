use wysiwyg::composer_model::ComposerModel;
use wysiwyg::location::Location;
use wysiwyg::node::{Node, NodeEnum, QuirksMode};
use wysiwyg::sink::{Handle, NodeOrText, Sink};
use wysiwyg::update::{ActionResponse, ComposerUpdate};

fn utf16(s: &str) -> Vec<u16> {
    s.encode_utf16().collect()
}

fn text_of(model: &ComposerModel) -> String {
    String::from_utf16(&model.html()).unwrap()
}

#[test]
fn backspacing_a_surrogate_pair_removes_both_units() {
    let mut model = ComposerModel::from(utf16("foo\u{1F4A9}"), 5, 5);
    model.backspace();
    assert_eq!(text_of(&model), "foo");
    assert_eq!(model.start.value, 3);
    assert_eq!(model.end.value, 3);
}

#[test]
fn deleting_a_surrogate_pair_removes_both_units() {
    let mut model = ComposerModel::from(utf16("\u{1F4A9}foo"), 0, 0);
    model.delete();
    assert_eq!(text_of(&model), "foo");
    assert_eq!(model.start.value, 0);
}

#[test]
fn backspace_on_an_empty_document_is_a_no_op() {
    let mut model = ComposerModel::new();
    model.backspace();
    assert_eq!(text_of(&model), "");
    assert_eq!(model.start.value, 0);
}

#[test]
fn ordering_then_clamping_matches_clamping_then_ordering() {
    // An inverted and out-of-range selection normalizes the same way
    // whichever step comes first: both give the range [2, 3) of "abc".
    let mut a = ComposerModel::from(utf16("abc"), 9, 2);
    a.replace_text(&utf16("Z"));
    let mut b = ComposerModel::from(utf16("abc"), 2, 9);
    b.replace_text(&utf16("Z"));
    assert_eq!(text_of(&a), "abZ");
    assert_eq!(text_of(&b), "abZ");
    assert_eq!(a.start.value, 3);
    assert_eq!(b.start.value, 3);
}

#[test]
fn snapshot_reads_back_what_was_given() {
    let model = ComposerModel::from(utf16("hello"), 1, 4);
    let (s, e) = model.get_selection();
    assert_eq!(s.value, 1);
    assert_eq!(e.value, 4);
    assert_eq!(text_of(&model), "hello");
}

#[test]
fn replace_text_in_edits_the_given_range_not_the_selection() {
    let mut model = ComposerModel::from(utf16("abcdef"), 0, 0);
    let update = model.replace_text_in(&utf16("X"), 1, 3);
    assert_eq!(text_of(&model), "aXdef");
    assert_eq!(model.start.value, 2);
    assert_eq!(model.end.value, 2);
    assert!(matches!(update, ComposerUpdate::ReplaceAll { .. }));
}

#[test]
fn delete_in_removes_the_given_range() {
    let mut model = ComposerModel::from(utf16("abcdef"), 5, 5);
    model.delete_in(2, 4);
    assert_eq!(text_of(&model), "abef");
    assert_eq!(model.start.value, 2);
}

#[test]
fn enter_keeps_everything() {
    let mut model = ComposerModel::from(utf16("abc"), 1, 2);
    let update = model.enter();
    assert!(matches!(update, ComposerUpdate::Keep));
    assert_eq!(text_of(&model), "abc");
    assert_eq!(model.start.value, 1);
    assert_eq!(model.end.value, 2);
}

#[test]
fn action_response_is_a_no_op() {
    let mut model = ComposerModel::from(utf16("abc"), 0, 0);
    let update = model.action_response(String::from("123"), ActionResponse::Success);
    assert!(matches!(update, ComposerUpdate::Keep));
    assert_eq!(text_of(&model), "abc");
}

#[test]
fn markup_in_the_text_round_trips_through_the_parser() {
    // The rebuilt tree carries the element; the serialization shows it
    // again. This fails if the parse boundary hands its input through
    // without building a tree.
    let model = ComposerModel::from(utf16("ab<em>cd</em>ef"), 0, 0);
    assert_eq!(text_of(&model), "ab<em>cd</em>ef");
}

#[test]
fn bold_unwraps_an_exactly_selected_strong_element() {
    let html = "aa<strong>bb</strong>cc";
    let mut model = ComposerModel::from(utf16(html), 10, 12);
    let update = model.bold();
    assert_eq!(text_of(&model), "aabbcc");
    assert_eq!(model.start.value, 2);
    assert_eq!(model.end.value, 4);
    assert!(matches!(update, ComposerUpdate::ReplaceAll { .. }));
}

#[test]
fn bold_refuses_a_selection_that_crosses_elements() {
    // [1, 9) starts in the leading text and ends inside the <em> tags,
    // so wrapping would split element structure: the tree is untouched,
    // the host keeps its view, and a diagnostic is recorded.
    let mut model = ComposerModel::from(utf16("ab<em>cd</em>ef"), 1, 9);
    let errors_before = model.dom.errors.len();
    let update = model.bold();
    assert!(matches!(update, ComposerUpdate::Keep));
    assert_eq!(text_of(&model), "ab<em>cd</em>ef");
    assert_eq!(model.start.value, 1);
    assert_eq!(model.end.value, 9);
    assert_eq!(model.dom.errors.len(), errors_before + 1);
}

#[test]
fn parse_errors_are_kept_as_diagnostics() {
    // A stray end tag is a parse error; construction still succeeds and
    // the diagnostic is attached to the document.
    let model = ComposerModel::from(utf16("ab</div>cd"), 0, 0);
    assert_eq!(text_of(&model), "abcd");
    assert!(model.dom.errors.len() > 0);
}

fn count_nodes(n: &Node) -> usize {
    let mut total = 1;
    for child in &n.children {
        total += count_nodes(child);
    }
    total
}

#[test]
fn finish_keeps_only_nodes_the_root_reaches() {
    let mut sink = Sink::default();
    let doc = sink.get_document();
    let html = sink.create_element(utf16("html"), Vec::new());
    sink.append(&doc, NodeOrText::AppendNode(html));
    let body = sink.create_element(utf16("body"), Vec::new());
    sink.append(&html, NodeOrText::AppendNode(body));
    sink.append(&body, NodeOrText::AppendText(utf16("kept")));
    let stray = sink.create_element(utf16("div"), Vec::new());
    sink.append(&body, NodeOrText::AppendNode(stray));
    sink.append(&stray, NodeOrText::AppendText(utf16("dropped")));
    // Detach the div with its text child: both leave the tree.
    sink.remove_from_parent(&stray);
    let dom = sink.finish();
    // document + html + body + "kept": the two detached nodes are gone.
    assert_eq!(count_nodes(&dom.document), 4);
}

#[test]
fn append_coalesces_adjacent_text() {
    let mut sink = Sink::default();
    let doc = sink.get_document();
    sink.append(&doc, NodeOrText::AppendText(utf16("ab")));
    sink.append(&doc, NodeOrText::AppendText(utf16("cd")));
    let dom = sink.finish();
    assert_eq!(dom.document.children.len(), 1);
    match &dom.document.children[0].node {
        NodeEnum::Text(t) => assert_eq!(t, &utf16("abcd")),
        _ => panic!("expected one coalesced text node"),
    }
}

#[test]
fn append_before_sibling_inserts_and_coalesces() {
    let mut sink = Sink::default();
    let doc = sink.get_document();
    sink.append(&doc, NodeOrText::AppendText(utf16("aa")));
    let em = sink.create_element(utf16("em"), Vec::new());
    sink.append(&doc, NodeOrText::AppendNode(em));
    // Text inserted before <em> lands in the text node just before it.
    sink.append_before_sibling(&em, NodeOrText::AppendText(utf16("bb")));
    let dom = sink.finish();
    assert_eq!(dom.document.children.len(), 2);
    match &dom.document.children[0].node {
        NodeEnum::Text(t) => assert_eq!(t, &utf16("aabb")),
        _ => panic!("expected the coalesced text node first"),
    }
}

#[test]
fn reparent_children_moves_every_child() {
    let mut sink = Sink::default();
    let doc = sink.get_document();
    let target = sink.create_element(utf16("div"), Vec::new());
    sink.append(&doc, NodeOrText::AppendNode(target));
    let source = sink.create_element(utf16("span"), Vec::new());
    sink.append(&doc, NodeOrText::AppendNode(source));
    sink.append(&source, NodeOrText::AppendText(utf16("x")));
    sink.append(&source, NodeOrText::AppendText(utf16("y")));
    sink.reparent_children(&source, &target);
    let dom = sink.finish();
    let div = &dom.document.children[0];
    let span = &dom.document.children[1];
    assert_eq!(div.children.len(), 1);
    match &div.children[0].node {
        NodeEnum::Text(t) => assert_eq!(t, &utf16("xy")),
        _ => panic!("expected the moved text under the div"),
    }
    assert_eq!(span.children.len(), 0);
}

#[test]
fn add_attrs_if_missing_keeps_existing_values() {
    let mut sink = Sink::default();
    let doc = sink.get_document();
    let attr = |n: &str, v: &str| wysiwyg::node::OwnedAttribute {
        name: utf16(n),
        value: utf16(v),
    };
    let el = sink.create_element(utf16("a"), vec![attr("href", "old")]);
    sink.append(&doc, NodeOrText::AppendNode(el));
    sink.add_attrs_if_missing(&el, vec![attr("href", "new"), attr("rel", "x")]);
    let dom = sink.finish();
    match &dom.document.children[0].node {
        NodeEnum::Element(_, attrs) => {
            assert_eq!(attrs.len(), 2);
            assert_eq!(attrs[0].name, utf16("href"));
            assert_eq!(attrs[0].value, utf16("old"));
            assert_eq!(attrs[1].name, utf16("rel"));
            assert_eq!(attrs[1].value, utf16("x"));
        },
        _ => panic!("expected the element"),
    }
}

#[test]
fn quirks_mode_is_recorded() {
    let mut sink = Sink::default();
    sink.set_quirks_mode(QuirksMode::Quirks);
    let dom = sink.finish();
    assert_eq!(dom.quirks_mode, QuirksMode::Quirks);
}

#[test]
fn handles_compare_by_index() {
    let sink = Sink::default();
    let doc = sink.get_document();
    assert!(sink.same_node(&doc, &Handle { index: 0 }));
    assert!(Handle::null().is_null());
    assert!(!doc.is_null());
}
