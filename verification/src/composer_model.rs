use vstd::prelude::*;

use crate::builder::{dom_matches_text, rebuild};
use crate::location::{clamp_spec, normalize_spec, Location};
use crate::node::OwnedDom;
use crate::serializer::{
    close_tag, collect_spans, open_tag, ser_tree, serialize, spans_view, strong_spans_of,
    tag_strong, text_spans_of,
};
use crate::update::{ActionResponse, ComposerUpdate};
use vstd::string::StringExecFns;

verus! {

/// Whether a code unit is the leading half of a surrogate pair.
pub open spec fn is_lead_surrogate(u: u16) -> bool {
    0xD800 <= u < 0xDC00
}

/// Whether a code unit is the trailing half of a surrogate pair.
pub open spec fn is_trail_surrogate(u: u16) -> bool {
    0xDC00 <= u < 0xE000
}

/// Where a backward deletion from caret `c` starts: one code unit back,
/// or two when the unit before the caret closes a surrogate pair, so
/// that the pair is removed whole; floored at zero.
pub open spec fn back_boundary(h: Seq<u16>, c: int) -> int {
    if c >= 2 && is_trail_surrogate(h[c - 1]) && is_lead_surrogate(h[c - 2]) {
        c - 2
    } else if c >= 1 {
        c - 1
    } else {
        0
    }
}

/// Where a forward deletion from caret `c` ends: one code unit forward,
/// or two when the unit at the caret opens a surrogate pair; capped at
/// the document length.
pub open spec fn forward_boundary(h: Seq<u16>, c: int) -> int {
    if c + 2 <= h.len() && is_lead_surrogate(h[c]) && is_trail_surrogate(h[c + 1]) {
        c + 2
    } else if c + 1 <= h.len() {
        c + 1
    } else {
        h.len() as int
    }
}

/// The spliced text: `ins` replaces the code units of `[s, e)`.
pub open spec fn splice_spec(h: Seq<u16>, s: int, e: int, ins: Seq<u16>) -> Seq<u16> {
    h.take(s) + ins + h.skip(e)
}

/// Replace the code units of `[s, e)` by `ins`.
pub fn splice(h: &Vec<u16>, s: usize, e: usize, ins: &Vec<u16>) -> (r: Vec<u16>)
    requires
        s <= e <= h.len(),
    ensures
        r@ == splice_spec(h@, s as int, e as int, ins@),
{
    let mut r: Vec<u16> = Vec::new();
    let mut i: usize = 0;
    while i < s
        invariant
            i <= s,
            s <= h@.len(),
            r@ == h@.take(i as int),
        decreases s - i,
    {
        r.push(h[i]);
        i = i + 1;
        proof {
            assert(r@ =~= h@.take(i as int));
        }
    }
    let mut j: usize = 0;
    while j < ins.len()
        invariant
            j <= ins@.len(),
            s <= h@.len(),
            r@ == h@.take(s as int) + ins@.take(j as int),
        decreases ins.len() - j,
    {
        r.push(ins[j]);
        j = j + 1;
        proof {
            assert(r@ =~= h@.take(s as int) + ins@.take(j as int));
        }
    }
    proof {
        assert(ins@.take(ins@.len() as int) =~= ins@);
    }
    let mut k: usize = e;
    while k < h.len()
        invariant
            e <= k <= h@.len(),
            s <= e,
            r@ == h@.take(s as int) + ins@ + h@.subrange(e as int, k as int),
        decreases h.len() - k,
    {
        r.push(h[k]);
        k = k + 1;
        proof {
            assert(r@ =~= h@.take(s as int) + ins@ + h@.subrange(e as int, k as int));
        }
    }
    proof {
        assert(h@.subrange(e as int, h@.len() as int) =~= h@.skip(e as int));
        assert(r@ =~= splice_spec(h@, s as int, e as int, ins@));
    }
    r
}

/// The headless composer model: the current document tree and the
/// current selection. Every mutating command normalizes the selection
/// against the serialized text, splices that text, and re-derives the
/// tree from the spliced text.
pub struct ComposerModel {
    pub dom: OwnedDom,
    pub start: Location,
    pub end: Location,
}

impl ComposerModel {
    /// The serialized text of the current document; the coordinate space
    /// of every `Location`.
    pub open spec fn text_of(self) -> Seq<u16> {
        ser_tree(self.dom.document@)
    }

    /// An empty model: the parse of an empty text, caret at zero.
    pub fn new() -> (m: ComposerModel)
        ensures
            dom_matches_text(Seq::empty(), m.dom@),
            m.start.value == 0,
            m.end.value == 0,
    {
        let empty: Vec<u16> = Vec::new();
        ComposerModel {
            dom: rebuild(&empty),
            start: Location::new(0),
            end: Location::new(0),
        }
    }

    /// A model built from a text and a selection, stored verbatim.
    pub fn from(html: Vec<u16>, start: usize, end: usize) -> (m: ComposerModel)
        requires
            start <= isize::MAX,
            end <= isize::MAX,
        ensures
            dom_matches_text(html@, m.dom@),
            m.start.value == start,
            m.end.value == end,
    {
        ComposerModel {
            dom: rebuild(&html),
            start: Location::new(start as isize),
            end: Location::new(end as isize),
        }
    }

    /// Store a selection verbatim; the tree is untouched and clamping is
    /// deferred to the next text-affecting command.
    pub fn select(&mut self, start: Location, end: Location)
        ensures
            final(self).start == start,
            final(self).end == end,
            final(self).dom == old(self).dom,
    {
        self.start = start;
        self.end = end;
    }

    /// The current selection, raw.
    pub fn get_selection(&self) -> (r: (Location, Location))
        ensures
            r.0 == self.start,
            r.1 == self.end,
    {
        (self.start, self.end)
    }

    /// The serialized text of the current document.
    pub fn html(&self) -> (r: Vec<u16>)
        ensures
            r@ == self.text_of(),
    {
        serialize(&self.dom)
    }

    /// The serialized text of the current document.
    pub fn get_html(&self) -> (r: Vec<u16>)
        ensures
            r@ == self.text_of(),
    {
        self.html()
    }

    /// The selection normalized against the current text: both ends
    /// clamped into `[0, length]` and ordered.
    pub fn safe_selection(&self) -> (r: (usize, usize))
        ensures
            ({
                let (s, e) = normalize_spec(
                    self.start.value as int,
                    self.end.value as int,
                    self.text_of().len() as int,
                );
                r.0 == s && r.1 == e && r.0 <= r.1 && r.1 <= self.text_of().len()
            }),
    {
        let html = self.html();
        let len = html.len();
        let s = clamp_to(self.start.value, len);
        let e = clamp_to(self.end.value, len);
        if s > e {
            (e, s)
        } else {
            (s, e)
        }
    }

    /// The splice core every text command funnels through: replace
    /// `[s, e)` of the current text by `new_text`, rebuild the tree from
    /// the spliced text, collapse the caret after the insertion, and
    /// report the whole new text.
    fn splice_and_rebuild(&mut self, s: usize, e: usize, new_text: &Vec<u16>) -> (r:
        ComposerUpdate)
        requires
            s <= e <= old(self).text_of().len(),
            s + new_text@.len() <= isize::MAX,
        ensures
            dom_matches_text(
                splice_spec(old(self).text_of(), s as int, e as int, new_text@),
                final(self).dom@,
            ),
            final(self).start.value == s + new_text@.len(),
            final(self).end == final(self).start,
            (r matches ComposerUpdate::ReplaceAll { replacement_html, start, end }
                && replacement_html@ == ser_tree(final(self).dom.document@)
                && start == final(self).start && end == final(self).end),
    {
        let html = self.html();
        let new_html = splice(&html, s, e, new_text);
        self.dom = rebuild(&new_html);
        self.start = Location::new((s + new_text.len()) as isize);
        self.end = Location::new((s + new_text.len()) as isize);
        self.create_update_replace_all()
    }

    /// Report the whole current text and selection to the host.
    fn create_update_replace_all(&self) -> (r: ComposerUpdate)
        ensures
            (r matches ComposerUpdate::ReplaceAll { replacement_html, start, end }
                && replacement_html@ == self.text_of() && start == self.start && end
                == self.end),
    {
        ComposerUpdate::replace_all(self.html(), self.start, self.end)
    }

    /// Replace the selected range by `new_text`: normalize the selection,
    /// splice, rebuild, and leave a collapsed caret after the insertion.
    pub fn replace_text(&mut self, new_text: &Vec<u16>) -> (r: ComposerUpdate)
        requires
            old(self).text_of().len() + new_text@.len() <= isize::MAX,
        ensures
            ({
                let h = old(self).text_of();
                let (s, e) = normalize_spec(
                    old(self).start.value as int,
                    old(self).end.value as int,
                    h.len() as int,
                );
                &&& dom_matches_text(splice_spec(h, s, e, new_text@), final(self).dom@)
                &&& final(self).start.value == s + new_text@.len()
                &&& final(self).end == final(self).start
                &&& (r matches ComposerUpdate::ReplaceAll { replacement_html, start, end }
                    && replacement_html@ == ser_tree(final(self).dom.document@)
                    && start == final(self).start && end == final(self).end)
            }),
    {
        let (s, e) = self.safe_selection();
        self.splice_and_rebuild(s, e, new_text)
    }

    /// Replace the given range by `new_text`, independent of the live
    /// selection; the bounds are clamped to the document length and
    /// ordered, never rejected.
    pub fn replace_text_in(&mut self, new_text: &Vec<u16>, start: usize, end: usize) -> (r:
        ComposerUpdate)
        requires
            old(self).text_of().len() + new_text@.len() <= isize::MAX,
        ensures
            ({
                let h = old(self).text_of();
                let (s, e) = normalize_spec(start as int, end as int, h.len() as int);
                &&& dom_matches_text(splice_spec(h, s, e, new_text@), final(self).dom@)
                &&& final(self).start.value == s + new_text@.len()
                &&& final(self).end == final(self).start
                &&& (r matches ComposerUpdate::ReplaceAll { replacement_html, start, end }
                    && replacement_html@ == ser_tree(final(self).dom.document@)
                    && start == final(self).start && end == final(self).end)
            }),
    {
        let html = self.html();
        let len = html.len();
        let s0 = if start > len {
            len
        } else {
            start
        };
        let e0 = if end > len {
            len
        } else {
            end
        };
        let (s, e) = if s0 > e0 {
            (e0, s0)
        } else {
            (s0, e0)
        };
        self.splice_and_rebuild(s, e, new_text)
    }

    /// Delete the given range, independent of the live selection.
    pub fn delete_in(&mut self, start: usize, end: usize) -> (r: ComposerUpdate)
        requires
            old(self).text_of().len() <= isize::MAX,
        ensures
            ({
                let h = old(self).text_of();
                let (s, e) = normalize_spec(start as int, end as int, h.len() as int);
                &&& dom_matches_text(splice_spec(h, s, e, Seq::empty()), final(self).dom@)
                &&& final(self).start.value == s
                &&& final(self).end == final(self).start
                &&& r is ReplaceAll
            }),
    {
        let empty: Vec<u16> = Vec::new();
        self.replace_text_in(&empty, start, end)
    }

    /// Delete backward: a collapsed caret first grows one code unit to
    /// the left, a whole surrogate pair when one ends there, floored at
    /// zero; then the range is deleted. At caret zero nothing changes
    /// but the report.
    pub fn backspace(&mut self) -> (r: ComposerUpdate)
        requires
            old(self).text_of().len() <= isize::MAX,
        ensures
            ({
                let h = old(self).text_of();
                let (s, e) = normalize_spec(
                    old(self).start.value as int,
                    old(self).end.value as int,
                    h.len() as int,
                );
                let b = if old(self).start == old(self).end {
                    back_boundary(h, s)
                } else {
                    s
                };
                &&& dom_matches_text(splice_spec(h, b, e, Seq::empty()), final(self).dom@)
                &&& final(self).start.value == b
                &&& final(self).end == final(self).start
                &&& r is ReplaceAll
            }),
    {
        let empty: Vec<u16> = Vec::new();
        if self.start.value == self.end.value {
            let html = self.html();
            let c = clamp_to(self.start.value, html.len());
            let b = if c >= 2 && is_trail(html[c - 1]) && is_lead(html[c - 2]) {
                c - 2
            } else if c >= 1 {
                c - 1
            } else {
                0
            };
            proof {
                let (s, e) = normalize_spec(
                    self.start.value as int,
                    self.end.value as int,
                    self.text_of().len() as int,
                );
                assert(s == e);
                assert(b == back_boundary(self.text_of(), s));
            }
            self.splice_and_rebuild(b, c, &empty)
        } else {
            self.replace_text(&empty)
        }
    }

    /// Delete forward: the mirror of `backspace`. A collapsed caret
    /// grows one code unit to the right, a whole surrogate pair when one
    /// starts there, capped at the document length.
    pub fn delete(&mut self) -> (r: ComposerUpdate)
        requires
            old(self).text_of().len() <= isize::MAX,
        ensures
            ({
                let h = old(self).text_of();
                let (s, e) = normalize_spec(
                    old(self).start.value as int,
                    old(self).end.value as int,
                    h.len() as int,
                );
                let f = if old(self).start == old(self).end {
                    forward_boundary(h, e)
                } else {
                    e
                };
                &&& dom_matches_text(splice_spec(h, s, f, Seq::empty()), final(self).dom@)
                &&& final(self).start.value == s
                &&& final(self).end == final(self).start
                &&& r is ReplaceAll
            }),
    {
        let empty: Vec<u16> = Vec::new();
        if self.start.value == self.end.value {
            let html = self.html();
            let c = clamp_to(self.start.value, html.len());
            let f = if c + 2 <= html.len() && is_lead(html[c]) && is_trail(html[c + 1]) {
                c + 2
            } else if c + 1 <= html.len() {
                c + 1
            } else {
                html.len()
            };
            proof {
                let (s, e) = normalize_spec(
                    self.start.value as int,
                    self.end.value as int,
                    self.text_of().len() as int,
                );
                assert(s == e);
                assert(f == forward_boundary(self.text_of(), e));
            }
            self.splice_and_rebuild(c, f, &empty)
        } else {
            self.replace_text(&empty)
        }
    }

    /// Toggle the `strong` formatting element over the normalized
    /// selection. When the selection is exactly the content of one
    /// `strong` element, that element is unwrapped. When the selection
    /// lies inside a single text node, the selected run is wrapped in a
    /// new `strong` element. Any other selection crosses element
    /// structure: the command refuses, records a diagnostic, and leaves
    /// the tree alone.
    #[verifier::rlimit(60)]
    pub fn bold(&mut self) -> (r: ComposerUpdate)
        ensures
            ({
                let t = old(self).dom.document@;
                let h = old(self).text_of();
                let (s, e) = normalize_spec(
                    old(self).start.value as int,
                    old(self).end.value as int,
                    h.len() as int,
                );
                if strong_toggles(t, s, e) && s >= 8 && e + 9 <= h.len() {
                    let spliced = h.take(s - 8) + h.subrange(s, e) + h.skip(e + 9);
                    &&& dom_matches_text(spliced, final(self).dom@)
                    &&& final(self).start.value == s - 8
                    &&& final(self).end.value == e - 8
                    &&& r is ReplaceAll
                } else if wrap_allowed(t, s, e) {
                    let spliced = h.take(s) + open_tag(tag_strong()) + h.subrange(s, e)
                        + close_tag(tag_strong()) + h.skip(e);
                    &&& dom_matches_text(spliced, final(self).dom@)
                    &&& final(self).start == old(self).start
                    &&& final(self).end == old(self).end
                    &&& (r matches ComposerUpdate::ReplaceAll {
                        replacement_html,
                        start,
                        end,
                    } && replacement_html@ == ser_tree(final(self).dom.document@) && start
                        == old(self).start && end == old(self).end)
                } else {
                    &&& final(self).dom.document == old(self).dom.document
                    &&& final(self).dom@.errors == old(self).dom@.errors.push(
                        bold_refused_note(),
                    )
                    &&& final(self).start == old(self).start
                    &&& final(self).end == old(self).end
                    &&& r is Keep
                }
            }),
    {
        let (s, e) = self.safe_selection();
        let html = self.html();
        let mut texts: Vec<(usize, usize)> = Vec::new();
        let mut strongs: Vec<(usize, usize)> = Vec::new();
        collect_spans(&self.dom.document, 0, &mut texts, &mut strongs);
        proof {
            assert(spans_view(texts@) =~= text_spans_of(self.dom.document@, 0));
            assert(spans_view(strongs@) =~= strong_spans_of(self.dom.document@, 0));
        }
        let toggle = s >= 8 && {
            let mut found = false;
            let mut i: usize = 0;
            while i < strongs.len()
                invariant
                    i <= strongs@.len(),
                    found == exists|m: int|
                        0 <= m < i && (#[trigger] strongs@[m]).0 == s && strongs@[m].1 == e,
                decreases strongs.len() - i,
            {
                if strongs[i].0 == s && strongs[i].1 == e {
                    found = true;
                }
                i = i + 1;
            }
            found
        };
        if toggle && e + 9 <= html.len() {
            proof {
                let m = choose|m: int|
                    0 <= m < strongs@.len() && (#[trigger] strongs@[m]).0 == s
                        && strongs@[m].1 == e;
                assert(spans_view(strongs@)[m] == (s as int, e as int));
                assert(strong_toggles(self.dom.document@, s as int, e as int));
            }
            let empty: Vec<u16> = Vec::new();
            let u1 = splice(&html, e, e + 9, &empty);
            let u2 = splice(&u1, s - 8, s, &empty);
            proof {
                let h = self.text_of();
                assert(u2@.take(s - 8) =~= h.take(s - 8));
                assert(u2@ =~= h.take(s - 8) + h.subrange(s as int, e as int) + h.skip(
                    e + 9,
                ));
            }
            self.dom = rebuild(&u2);
            self.start = Location::new((s - 8) as isize);
            self.end = Location::new((e - 8) as isize);
            self.create_update_replace_all()
        } else {
            let mut wrap = false;
            let mut i: usize = 0;
            while i < texts.len()
                invariant
                    i <= texts@.len(),
                    wrap == exists|m: int|
                        0 <= m < i && (#[trigger] texts@[m]).0 <= s && e <= texts@[m].1,
                decreases texts.len() - i,
            {
                if texts[i].0 <= s && e <= texts[i].1 {
                    wrap = true;
                }
                i = i + 1;
            }
            proof {
                if wrap {
                    let m = choose|m: int|
                        0 <= m < texts@.len() && (#[trigger] texts@[m]).0 <= s && e
                            <= texts@[m].1;
                    assert(spans_view(texts@)[m].0 <= s as int && e as int <= spans_view(
                        texts@,
                    )[m].1);
                    assert(wrap_allowed(self.dom.document@, s as int, e as int));
                } else {
                    assert forall|m: int|
                        0 <= m < spans_view(texts@).len() implies !((#[trigger] spans_view(
                        texts@,
                    )[m]).0 <= s as int && e as int <= spans_view(texts@)[m].1) by {
                        assert(spans_view(texts@)[m] == ((texts@[m]).0 as int, (
                        texts@[m]).1 as int));
                    }
                    assert(!wrap_allowed(self.dom.document@, s as int, e as int));
                }
            }
            if wrap {
                let mut open: Vec<u16> = Vec::new();
                open.push(60);
                open.push(115);
                open.push(116);
                open.push(114);
                open.push(111);
                open.push(110);
                open.push(103);
                open.push(62);
                let mut close: Vec<u16> = Vec::new();
                close.push(60);
                close.push(47);
                close.push(115);
                close.push(116);
                close.push(114);
                close.push(111);
                close.push(110);
                close.push(103);
                close.push(62);
                proof {
                    assert(open@ =~= open_tag(tag_strong()));
                    assert(close@ =~= close_tag(tag_strong()));
                }
                let w1 = splice(&html, e, e, &close);
                let w2 = splice(&w1, s, s, &open);
                proof {
                    let h = self.text_of();
                    assert(w2@.take(s as int) =~= h.take(s as int));
                    assert(w2@ =~= h.take(s as int) + open_tag(tag_strong()) + h.subrange(
                        s as int,
                        e as int,
                    ) + close_tag(tag_strong()) + h.skip(e as int));
                }
                self.dom = rebuild(&w2);
                self.create_update_replace_all()
            } else {
                proof {
                    assert forall|m: int|
                        0 <= m < spans_view(strongs@).len() implies #[trigger] spans_view(
                        strongs@,
                    )[m] != (s as int, e as int) || !(s >= 8 && e + 9 <= html@.len()) by {
                        if s >= 8 && e + 9 <= html.len() {
                            assert(spans_view(strongs@)[m] == ((strongs@[m]).0 as int, (
                            strongs@[m]).1 as int));
                        }
                    }
                }
                let note = bold_refused_text();
                self.dom.errors.push(note);
                proof {
                    assert(self.dom@.errors =~= old(self).dom@.errors.push(
                        bold_refused_note(),
                    ));
                }
                ComposerUpdate::keep()
            }
        }
    }

    /// Line insertion is an intentional extension seam: no tree change,
    /// the host keeps its view.
    pub fn enter(&mut self) -> (r: ComposerUpdate)
        ensures
            *final(self) == *old(self),
            r is Keep,
    {
        ComposerUpdate::keep()
    }

    /// Accept an action identifier and its result; reserved for a future
    /// asynchronous-action protocol, a no-op today.
    pub fn action_response(&mut self, action_id: String, response: ActionResponse) -> (r:
        ComposerUpdate)
        ensures
            *final(self) == *old(self),
            r is Keep,
    {
        let _ = action_id;
        let _ = response;
        ComposerUpdate::keep()
    }
}

/// A tree that matches an arena index is unique: the arena determines
/// the finalized tree.
pub proof fn lemma_tree_matches_unique(
    ns: Seq<crate::sink::ArenaNode>,
    i: int,
    t1: crate::node::TreeModel,
    t2: crate::node::TreeModel,
)
    requires
        crate::sink::tree_matches(ns, i, t1),
        crate::sink::tree_matches(ns, i, t2),
    ensures
        t1 == t2,
    decreases t1,
{
    assert forall|k: int|
        0 <= k < t1.children.len() implies #[trigger] t1.children[k] == t2.children[k] by {
        lemma_tree_matches_unique(ns, ns[i].children[k], t1.children[k], t2.children[k]);
    }
    assert(t1.children =~= t2.children);
    assert(t1 =~~= t2);
}

/// A model rebuilt from a text is determined by that text alone: two
/// documents built from the same text are equal, so reading a model's
/// text and selection back immediately after construction depends only
/// on what the construction was given.
pub proof fn lemma_rebuild_deterministic(
    text: Seq<u16>,
    d1: crate::node::DomModel,
    d2: crate::node::DomModel,
)
    requires
        dom_matches_text(text, d1),
        dom_matches_text(text, d2),
    ensures
        d1 == d2,
{
    lemma_tree_matches_unique(
        crate::builder::replay(crate::parse::parse_of(text).steps).nodes,
        0,
        d1.document,
        d2.document,
    );
    assert(d1 =~~= d2);
}

/// Law: deleting backward from a caret that sits just past a surrogate
/// pair removes both code units of the pair in one step; the boundary
/// never falls between the two halves.
pub proof fn lemma_backspace_removes_pair(h: Seq<u16>, k: int)
    requires
        0 <= k,
        k + 2 <= h.len(),
        is_lead_surrogate(h[k]),
        is_trail_surrogate(h[k + 1]),
    ensures
        back_boundary(h, k + 2) == k,
        splice_spec(h, back_boundary(h, k + 2), k + 2, Seq::empty()) == h.take(k) + h.skip(
            k + 2,
        ),
{
    assert(h.take(k) + Seq::<u16>::empty() + h.skip(k + 2) =~= h.take(k) + h.skip(k + 2));
}

/// Law: deleting backward from a caret that sits past a plain code unit
/// removes exactly that unit.
pub proof fn lemma_backspace_removes_unit(h: Seq<u16>, c: int)
    requires
        1 <= c <= h.len(),
        !(c >= 2 && is_trail_surrogate(h[c - 1]) && is_lead_surrogate(h[c - 2])),
    ensures
        back_boundary(h, c) == c - 1,
        splice_spec(h, c - 1, c, Seq::empty()) == h.take(c - 1) + h.skip(c),
{
    assert(h.take(c - 1) + Seq::<u16>::empty() + h.skip(c) =~= h.take(c - 1) + h.skip(c));
}

/// Law: deleting backward at caret zero changes nothing.
pub proof fn lemma_backspace_at_zero(h: Seq<u16>)
    ensures
        back_boundary(h, 0) == 0,
        splice_spec(h, back_boundary(h, 0), 0, Seq::empty()) == h,
{
    assert(h.take(0) + Seq::<u16>::empty() + h.skip(0) =~= h);
}

/// Law: deleting forward from a caret that sits just before a surrogate
/// pair removes both code units of the pair in one step.
pub proof fn lemma_delete_removes_pair(h: Seq<u16>, k: int)
    requires
        0 <= k,
        k + 2 <= h.len(),
        is_lead_surrogate(h[k]),
        is_trail_surrogate(h[k + 1]),
    ensures
        forward_boundary(h, k) == k + 2,
        splice_spec(h, k, forward_boundary(h, k), Seq::empty()) == h.take(k) + h.skip(k + 2),
{
    assert(h.take(k) + Seq::<u16>::empty() + h.skip(k + 2) =~= h.take(k) + h.skip(k + 2));
}

/// Law: backward deletion never leaves a boundary between the two
/// halves of a surrogate pair: from any caret that does not already sit
/// inside the pair, the computed start avoids the middle of the pair.
pub proof fn lemma_backspace_never_splits_pair(h: Seq<u16>, k: int, c: int)
    requires
        0 <= k,
        k + 2 <= h.len(),
        is_lead_surrogate(h[k]),
        is_trail_surrogate(h[k + 1]),
        0 <= c <= h.len(),
        c != k + 1,
    ensures
        back_boundary(h, c) != k + 1,
{
}

/// Law: forward deletion never leaves a boundary between the two halves
/// of a surrogate pair.
pub proof fn lemma_delete_never_splits_pair(h: Seq<u16>, k: int, c: int)
    requires
        0 <= k,
        k + 2 <= h.len(),
        is_lead_surrogate(h[k]),
        is_trail_surrogate(h[k + 1]),
        0 <= c <= h.len(),
        c != k + 1,
    ensures
        forward_boundary(h, c) != k + 1,
{
}

/// Law: deleting forward at the end of the document changes nothing.
pub proof fn lemma_delete_at_end(h: Seq<u16>)
    ensures
        forward_boundary(h, h.len() as int) == h.len(),
        splice_spec(h, h.len() as int, h.len() as int, Seq::empty()) == h,
{
    assert(h.take(h.len() as int) + Seq::<u16>::empty() + h.skip(h.len() as int) =~= h);
}

/// Whether `[s, e)` lies inside a single text node of the tree: the
/// wrapped run then aligns with node boundaries after splitting.
pub open spec fn wrap_allowed(t: crate::node::TreeModel, s: int, e: int) -> bool {
    exists|m: int|
        0 <= m < text_spans_of(t, 0).len() && (#[trigger] text_spans_of(t, 0)[m]).0 <= s && e
            <= text_spans_of(t, 0)[m].1
}

/// Whether `[s, e)` is exactly the content of one `strong` element of
/// the tree: `bold` then toggles that element off.
pub open spec fn strong_toggles(t: crate::node::TreeModel, s: int, e: int) -> bool {
    exists|m: int|
        0 <= m < strong_spans_of(t, 0).len() && #[trigger] strong_spans_of(t, 0)[m] == (s, e)
}

/// The diagnostic recorded when `bold` refuses a selection that crosses
/// element structure.
pub open spec fn bold_refused_note() -> Seq<char> {
    "bold refused: selection crosses element boundaries"@
}

/// The diagnostic recorded when `bold` refuses, as an owned string.
fn bold_refused_text() -> (r: String)
    ensures
        r@ == bold_refused_note(),
{
    String::from_str("bold refused: selection crosses element boundaries")
}

/// Clamp a signed offset into `[0, len]`.
fn clamp_to(v: isize, len: usize) -> (r: usize)
    ensures
        r == clamp_spec(v as int, len as int),
{
    if v < 0 {
        0
    } else if v as usize > len {
        len
    } else {
        v as usize
    }
}

/// Whether a code unit is the leading half of a surrogate pair.
fn is_lead(u: u16) -> (r: bool)
    ensures
        r == is_lead_surrogate(u),
{
    0xD800 <= u && u < 0xDC00
}

/// Whether a code unit is the trailing half of a surrogate pair.
fn is_trail(u: u16) -> (r: bool)
    ensures
        r == is_trail_surrogate(u),
{
    0xDC00 <= u && u < 0xE000
}

} // verus!
