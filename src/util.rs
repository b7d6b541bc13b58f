use std::ops::Range;
use vstd::prelude::*;

verus! {

/// A token of kind `Kind` with the half-open byte range of the source it covers.
#[derive(Debug)]
pub struct Token<Kind> {
    pub token: Kind,
    pub span: Range<usize>,
}

} // verus!
