use vstd::prelude::*;
use crate::unicode::{canonically_equivalent, is_norm, nfc_of, name_is_nfc, name_to_nfc};

verus! {

/// The decision made for one leaf name: the name itself, its NFC candidate,
/// and whether a rename is needed. Computed independently per entry.
pub struct NormalizationDecision {
    pub name: String,
    pub candidate: String,
    pub needs_rename: bool,
}

/// Decide whether `name` needs renaming and what its NFC form is.
///
/// Pure and deterministic: the decision is a function of the characters
/// alone. A rename is needed exactly when the NFC form differs from the
/// name, so a name already in NFC is never renamed, and the candidate is
/// always itself in NFC (old and new names are canonically equivalent).
pub fn decide(name: &str) -> (d: NormalizationDecision)
    ensures
        d.name@ == name@,
        d.candidate@ == nfc_of(name@),
        d.needs_rename == !is_norm(name@),
        d.needs_rename == (d.candidate@ != d.name@),
        is_norm(d.candidate@),
        canonically_equivalent(d.name@, d.candidate@),
{
    if name_is_nfc(name) {
        // Fast path: the quick check proved the name is already composed, so
        // the candidate is the name itself.
        NormalizationDecision { name: name.to_owned(), candidate: name.to_owned(), needs_rename: false }
    } else {
        let candidate = name_to_nfc(name);
        NormalizationDecision { name: name.to_owned(), candidate, needs_rename: true }
    }
}

} // verus!
