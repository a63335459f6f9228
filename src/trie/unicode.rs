//! Character-level services taken from std and unicode-normalization.
use unicode_normalization::UnicodeNormalization;
use vstd::prelude::*;

verus! {

/// The NFC form of a string of scalar values.
pub uninterp spec fn nfc_of(s: Seq<char>) -> Seq<char>;

/// The simple lower-case form of a string of scalar values.
pub uninterp spec fn lower_of(s: Seq<char>) -> Seq<char>;

/// Whether a scalar value is Unicode alphabetic or numeric.
pub uninterp spec fn alnum(c: char) -> bool;

/// Relies on unicode_normalization's `nfc`: canonical composition of the
/// characters of `s`, which depends on those characters alone.
#[verifier::external_body]
pub(crate) fn normalize(s: &str) -> (r: String)
    ensures
        r@ == nfc_of(s@),
{
    s.nfc().collect()
}

/// Relies on `str::to_lowercase`: the result depends on the characters alone.
#[verifier::external_body]
pub(crate) fn lowercase(s: &str) -> (r: String)
    ensures
        r@ == lower_of(s@),
{
    s.to_lowercase()
}

/// Relies on `char::is_alphanumeric`.
#[verifier::external_body]
pub(crate) fn is_alphanumeric(c: char) -> (r: bool)
    ensures
        r == alnum(c),
{
    c.is_alphanumeric()
}

/// Relies on `str::chars`: the scalar values of `s`, in order.
#[verifier::external_body]
pub(crate) fn chars_of(s: &str) -> (r: Vec<char>)
    ensures
        r@ == s@,
{
    s.chars().collect()
}

} // verus!
