//! Categories: the opaque discrete values a grid cell can hold.
//!
//! The engine itself works with an arbitrary enumerable alphabet of
//! categories; the rule-file format maps a small fixed set of symbol
//! characters onto them.

use vstd::prelude::*;

verus! {

/// An opaque category value. The reference alphabet identifies each
/// category by the byte of the rule-file symbol that denotes it, but any
/// `u8` code is a valid category.
#[derive(Clone, Copy, PartialEq, Eq, Structural, Debug)]
pub struct CategoryId {
    pub code: u8,
}

/// The fixed symbol table of the rule-file format: `k` -> black,
/// `w` -> white, `g` -> gray, `r` -> red, `p` -> pink, `b` -> blue.
/// Every other byte is an unknown symbol.
pub open spec fn spec_category_of_symbol(s: u8) -> Option<CategoryId> {
    if s == 107 || s == 119 || s == 103 || s == 114 || s == 112 || s == 98 {
        Some(CategoryId { code: s })
    } else {
        None
    }
}

/// Looks a rule-file symbol up in the fixed alphabet table.
pub fn category_of_symbol(s: u8) -> (r: Option<CategoryId>)
    ensures
        r == spec_category_of_symbol(s),
{
    if s == 107 || s == 119 || s == 103 || s == 114 || s == 112 || s == 98 {
        Some(CategoryId { code: s })
    } else {
        None
    }
}

} // verus!
