//! Element symbols: which strings name a chemical element.
//!
//! The periodic table itself is `chematic_core`'s: a symbol is recognized
//! exactly when `chematic_core::Element::from_symbol` accepts it
//! (title-case IUPAC symbols, Z = 1 through 118).

use vstd::prelude::*;

verus! {

/// Whether `symbol` is one of the element symbols `chematic_core` knows,
/// i.e. whether `chematic_core::Element::from_symbol(symbol)` is `Some`.
pub uninterp spec fn is_element_symbol(symbol: Seq<char>) -> bool;

/// Calls `chematic_core::Element::from_symbol` and reports whether it
/// recognized the symbol. The contract claims only that the answer is
/// `is_element_symbol` of the symbol's characters, i.e. that it depends on
/// the symbol alone; which symbols are recognized is `chematic_core`'s
/// table (the 118 title-case IUPAC symbols, matched case-sensitively).
#[verifier::external_body]
pub fn is_recognized_element(symbol: &str) -> (known: bool)
    ensures
        known == is_element_symbol(symbol@),
{
    match chematic_core::Element::from_symbol(symbol) {
        Some(_) => true,
        None => false,
    }
}

} // verus!
