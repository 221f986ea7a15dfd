use vstd::prelude::*;
use unicode_normalization::is_nfc;
use unicode_normalization::UnicodeNormalization;

verus! {

/// The canonical composition (Unicode Normalization Form C) of a sequence of
/// characters. Its exact value is defined by the Unicode standard and is
/// computed only by the `unicode_normalization` crate; contracts in this
/// library speak of it by this name.
pub uninterp spec fn nfc_of(s: Seq<char>) -> Seq<char>;

/// A name is normalized exactly when composing it changes nothing.
pub open spec fn is_norm(s: Seq<char>) -> bool {
    nfc_of(s) == s
}

/// Two names are canonically equivalent when they compose to the same
/// form: they differ only in normalization.
pub open spec fn canonically_equivalent(a: Seq<char>, b: Seq<char>) -> bool {
    nfc_of(a) == nfc_of(b)
}

/// Relies on `unicode_normalization::is_nfc`: an authoritative check that a
/// string is in NFC (a streaming quick check, followed by a full composition
/// and comparison when the quick check is indeterminate).
#[verifier::external_body]
pub(crate) fn name_is_nfc(s: &str) -> (r: bool)
    ensures
        r == is_norm(s@),
{
    is_nfc(s)
}

/// Relies on `unicode_normalization`'s `nfc()` iterator: canonical
/// composition per UAX #15, which depends on the characters alone. UAX #15
/// guarantees that normalization is idempotent, and composing an empty
/// string yields an empty string.
#[verifier::external_body]
pub(crate) fn name_to_nfc(s: &str) -> (r: String)
    ensures
        r@ == nfc_of(s@),
        is_norm(r@),
        s@.len() == 0 ==> r@.len() == 0,
{
    s.nfc().collect::<String>()
}

} // verus!
