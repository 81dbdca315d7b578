use vstd::prelude::*;
use encoding::Encoding;

verus! {

/// Relies on `String::push`: the character is appended at the end.
#[verifier::external_body]
pub(crate) fn push_char(s: &mut String, c: char)
    ensures
        final(s)@ == old(s)@.push(c),
{
    s.push(c)
}

/// Relies on `String::push_str`: the text is appended at the end.
#[verifier::external_body]
pub(crate) fn push_str(s: &mut String, t: &str)
    ensures
        final(s)@ == old(s)@ + t@,
{
    s.push_str(t)
}

/// Relies on `str::chars`: the characters of the string, in order.
#[verifier::external_body]
pub(crate) fn chars_of(s: &str) -> (r: Vec<char>)
    ensures
        r@ == s@,
{
    s.chars().collect()
}

/// The text that UTF-8 decoding makes of `b`, each invalid sequence replaced
/// by U+FFFD.
pub uninterp spec fn utf8_lossy(b: Seq<u8>) -> Seq<char>;

/// Relies on `encoding::all::UTF_8`'s `decode` with `DecoderTrap::Replace`,
/// which replaces each invalid sequence and so never fails.
#[verifier::external_body]
pub(crate) fn decode_utf8_lossy(b: &[u8]) -> (r: String)
    ensures
        r@ == utf8_lossy(b@),
{
    encoding::all::UTF_8.decode(b, encoding::DecoderTrap::Replace).unwrap_or_default()
}

/// Whether `label` names an encoding that the encoding crate knows.
pub uninterp spec fn is_encoding_label(label: Seq<char>) -> bool;

/// The text that the encoding labelled `label` makes of `b`, each invalid
/// sequence replaced by U+FFFD.
pub uninterp spec fn decoded_as(label: Seq<char>, b: Seq<u8>) -> Seq<char>;

/// The bytes that the encoding labelled `label` makes of `s`, characters it
/// cannot represent written as numeric character references; none when even
/// those cannot be represented.
pub uninterp spec fn encoded_as(label: Seq<char>, s: Seq<char>) -> Option<Seq<u8>>;

/// Relies on `encoding::label::encoding_from_whatwg_label`: whether it finds
/// an encoding for `label`.
#[verifier::external_body]
pub(crate) fn known_label(label: &str) -> (r: bool)
    ensures
        r == is_encoding_label(label@),
{
    encoding::label::encoding_from_whatwg_label(label).is_some()
}

/// Relies on `Encoding::decode` with `DecoderTrap::Replace`, on the encoding
/// that `encoding_from_whatwg_label` finds; that trap never fails.
#[verifier::external_body]
pub(crate) fn decode_lossy_as(label: &str, b: &[u8]) -> (r: String)
    requires
        is_encoding_label(label@),
    ensures
        r@ == decoded_as(label@, b@),
{
    match encoding::label::encoding_from_whatwg_label(label) {
        Some(e) => e.decode(b, encoding::DecoderTrap::Replace).unwrap_or_default(),
        None => String::new(),
    }
}

/// Relies on `Encoding::encode` with `EncoderTrap::NcrEscape`, on the encoding
/// that `encoding_from_whatwg_label` finds.
#[verifier::external_body]
pub(crate) fn encode_ncr_as(label: &str, s: &str) -> (r: Option<Vec<u8>>)
    requires
        is_encoding_label(label@),
    ensures
        r matches Some(v) ==> encoded_as(label@, s@) == Some(v@),
        r is None ==> encoded_as(label@, s@) is None,
{
    match encoding::label::encoding_from_whatwg_label(label) {
        Some(e) => e.encode(s, encoding::EncoderTrap::NcrEscape).ok(),
        None => None,
    }
}

} // verus!
