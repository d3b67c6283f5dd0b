use vstd::prelude::*;

verus! {

/// A code-unit offset into the serialized document text.
///
/// Offsets are signed: a command may move a caret below zero or past the
/// end of the document, and such values are clamped during normalization
/// rather than rejected.
#[derive(Clone, Copy, PartialEq, Eq, Structural, Debug)]
pub struct Location {
    pub value: isize,
}

impl Location {
    pub fn new(value: isize) -> (r: Location)
        ensures
            r.value == value,
    {
        Location { value }
    }
}

/// Clamp an offset into the valid range `[0, len]`.
pub open spec fn clamp_spec(x: int, len: int) -> int {
    if x < 0 {
        0
    } else if x > len {
        len
    } else {
        x
    }
}

/// Order a pair of offsets so the first is not greater than the second.
pub open spec fn order_spec(s: int, e: int) -> (int, int) {
    if s > e {
        (e, s)
    } else {
        (s, e)
    }
}

/// The normalized form of a selection against a document of length `len`:
/// clamp both ends into `[0, len]`, then order them.
pub open spec fn normalize_spec(s: int, e: int, len: int) -> (int, int) {
    order_spec(clamp_spec(s, len), clamp_spec(e, len))
}

/// Ordering a selection and then clamping both ends gives the same pair as
/// clamping both ends and then ordering, for every selection and every
/// document length.
pub proof fn lemma_order_clamp_commute(s: int, e: int, len: int)
    requires
        len >= 0,
    ensures
        ({
            let (a, b) = order_spec(s, e);
            (clamp_spec(a, len), clamp_spec(b, len)) == normalize_spec(s, e, len)
        }),
{
}

} // verus!
