//! Superscript, written `^like this^`, and subscript, written `~like this~`.
use vstd::prelude::*;

verus! {

/// Superscript text, rendered as `<sup>`.
pub struct Superscript {
    pub marker: char,
}

/// Subscript text, rendered as `<sub>`.
pub struct Subscript {
    pub marker: char,
}

} // verus!
