//! Spans, written `|like this|`.
use vstd::prelude::*;

verus! {

/// An inline span, rendered as `<span>`.
pub struct Span {
    pub marker: char,
}

} // verus!
