use vstd::prelude::*;

use html5ever::tendril::TendrilSink;
use markup5ever_rcdom::NodeData;

use crate::node::{AttrModel, OwnedAttribute, QuirksMode};

verus! {

/// One tree-construction callback recorded from the external parser,
/// carried as plain values: the element stream of the finished tree in
/// document order, elements bracketed by open and close steps.
pub enum BuildStep {
    /// An element opens: tag name and attribute list.
    OpenElement(Vec<u16>, Vec<OwnedAttribute>),
    /// The innermost open element closes.
    CloseElement,
    /// A chunk of character data at the current position.
    AddText(Vec<u16>),
    /// A comment at the current position.
    AddComment(Vec<u16>),
    /// A doctype, which always belongs to the document root.
    AddDoctype(Vec<u16>, Vec<u16>, Vec<u16>),
}

/// The mathematical value of a construction callback.
#[verifier::ext_equal]
pub ghost enum StepModel {
    Open(Seq<u16>, Seq<AttrModel>),
    Close,
    Text(Seq<u16>),
    Comment(Seq<u16>),
    Doctype(Seq<u16>, Seq<u16>, Seq<u16>),
}

impl View for BuildStep {
    type V = StepModel;

    open spec fn view(&self) -> StepModel {
        match self {
            BuildStep::OpenElement(name, attrs) => StepModel::Open(
                name@,
                attrs@.map_values(|at: OwnedAttribute| at@),
            ),
            BuildStep::CloseElement => StepModel::Close,
            BuildStep::AddText(t) => StepModel::Text(t@),
            BuildStep::AddComment(t) => StepModel::Comment(t@),
            BuildStep::AddDoctype(n, p, s) => StepModel::Doctype(n@, p@, s@),
        }
    }
}

/// Everything the external parser produced for one text: the callback
/// stream that rebuilds its finished tree, the parse diagnostics, and
/// the quirks mode it settled on.
pub struct ParsedHtml {
    pub steps: Vec<BuildStep>,
    pub errors: Vec<String>,
    pub quirks_mode: QuirksMode,
}

/// The mathematical value of a parse result.
#[verifier::ext_equal]
pub ghost struct ParsedModel {
    pub steps: Seq<StepModel>,
    pub errors: Seq<Seq<char>>,
    pub quirks_mode: QuirksMode,
}

impl View for ParsedHtml {
    type V = ParsedModel;

    open spec fn view(&self) -> ParsedModel {
        ParsedModel {
            steps: self.steps@.map_values(|s: BuildStep| s@),
            errors: self.errors@.map_values(|e: String| e@),
            quirks_mode: self.quirks_mode,
        }
    }
}

/// What the external HTML parser makes of a text: a function of the code
/// units alone. The grammar it implements takes pages to state, so the
/// result only carries this name; nothing else is assumed of it.
pub uninterp spec fn parse_of(text: Seq<u16>) -> ParsedModel;

#[verifier::external_type_specification]
#[verifier::external_body]
pub struct ExRcDom(markup5ever_rcdom::RcDom);

#[verifier::external_type_specification]
#[verifier::external_body]
pub struct ExNodeData(markup5ever_rcdom::NodeData);

/// Relies on html5ever's `parse_document` driving `markup5ever_rcdom`:
/// parses the text as an HTML document, invalid UTF-16 replaced lossily.
#[verifier::external_body]
fn parse_rcdom(text: &Vec<u16>) -> markup5ever_rcdom::RcDom {
    let s = String::from_utf16_lossy(text);
    html5ever::parse_document(markup5ever_rcdom::RcDom::default(), Default::default())
        .from_utf8()
        .one(s.as_bytes())
}

/// Relies on the `markup5ever_rcdom` node layout: the callback that
/// would create a node with this payload, if it has one; names and
/// contents are converted to UTF-16 code units.
#[verifier::external_body]
fn step_of(data: &markup5ever_rcdom::NodeData) -> Option<BuildStep> {
    let utf16 = |s: &str| s.encode_utf16().collect::<Vec<u16>>();
    match data {
        NodeData::Document | NodeData::ProcessingInstruction { .. } => None,
        NodeData::Doctype { name, public_id, system_id } =>
            Some(BuildStep::AddDoctype(utf16(name), utf16(public_id), utf16(system_id))),
        NodeData::Text { contents } => Some(BuildStep::AddText(utf16(&contents.borrow()))),
        NodeData::Comment { contents } => Some(BuildStep::AddComment(utf16(contents))),
        NodeData::Element { name, attrs, .. } => Some(BuildStep::OpenElement(
            utf16(&name.local),
            attrs.borrow().iter().map(|a| OwnedAttribute { name: utf16(&a.name.local), value: utf16(&a.value) }).collect(),
        )),
    }
}

/// Relies on the `markup5ever_rcdom` tree layout: walks the finished
/// tree and records each node's callback in document order, elements
/// bracketed by open and close steps.
#[verifier::external_body]
fn flatten_dom(dom: &markup5ever_rcdom::RcDom) -> Vec<BuildStep> {
    let mut out: Vec<BuildStep> = Vec::new();
    let mut stack = vec![(dom.document.clone(), false)];
    loop {
        let (node, closing) = match stack.pop() { Some(top) => top, None => return out };
        if closing { out.push(BuildStep::CloseElement); continue; }
        if let Some(step) = step_of(&node.data) { out.push(step); }
        if matches!(&node.data, NodeData::Element { .. }) { stack.push((node.clone(), true)); }
        for child in node.children.borrow().iter().rev() { stack.push((child.clone(), false)); }
    }
}

/// Relies on the `markup5ever_rcdom` document layout: the diagnostics
/// the parser collected, and the quirks mode it settled on.
#[verifier::external_body]
fn dom_meta(dom: markup5ever_rcdom::RcDom) -> (Vec<String>, QuirksMode) {
    let errors = dom.errors.into_inner().into_iter().map(|e| e.to_string()).collect();
    let quirks_mode = match dom.quirks_mode.get() {
        html5ever::tree_builder::QuirksMode::Quirks => QuirksMode::Quirks,
        html5ever::tree_builder::QuirksMode::LimitedQuirks => QuirksMode::LimitedQuirks,
        html5ever::tree_builder::QuirksMode::NoQuirks => QuirksMode::NoQuirks,
    };
    (errors, quirks_mode)
}

/// Relies on html5ever being a deterministic function of the input code
/// units: the parse result carries the name `parse_of` and nothing else
/// is assumed of it. The step count stays below `usize::MAX - 2`: a
/// `Vec` holds at most `isize::MAX` bytes and a step occupies several.
#[verifier::external_body]
pub(crate) fn parse_utf16(text: &Vec<u16>) -> (r: ParsedHtml)
    ensures
        r@ == parse_of(text@),
        r.steps@.len() + 2 < usize::MAX,
{
    let dom = parse_rcdom(text);
    let steps = flatten_dom(&dom);
    let (errors, quirks_mode) = dom_meta(dom);
    ParsedHtml { steps, errors, quirks_mode }
}

} // verus!
