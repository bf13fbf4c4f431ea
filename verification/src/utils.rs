//! Media types that a sender accepts.

use crate::http_header::value::MimeView;
use crate::http_header::Mime;
use crate::text::str_eq;
use vstd::prelude::*;

verus! {

/// Whether a media type that a sender accepts covers a media type that is on
/// offer: its type is `*` or the type on offer, and its subtype is `*` or the
/// subtype on offer.
pub open spec fn mime_compatible(accepted: MimeView, actual: MimeView) -> bool {
    (accepted.kind == seq!['*'] || accepted.kind == actual.kind) && (accepted.subtype == seq!['*']
        || accepted.subtype == actual.subtype)
}

/// Tells whether the accepted media type covers the actual one.
pub fn are_mime_compatible(accepted: &Mime, actual: &Mime) -> (r: bool)
    ensures
        r == mime_compatible(accepted@, actual@),
{
    proof {
        reveal_strlit("*");
        assert("*"@ =~= seq!['*']);
    }
    (str_eq(accepted.kind.as_str(), "*") || str_eq(accepted.kind.as_str(), actual.kind.as_str()))
        && (str_eq(accepted.subtype.as_str(), "*") || str_eq(
        accepted.subtype.as_str(),
        actual.subtype.as_str(),
    ))
}

/// Every media type covers itself.
pub proof fn lemma_compatible_reflexive(m: MimeView)
    ensures
        mime_compatible(m, m),
{
}

/// A media type whose type and subtype are both `*` covers every media type.
pub proof fn lemma_any_covers_all(accepted: MimeView, actual: MimeView)
    requires
        accepted.kind == seq!['*'],
        accepted.subtype == seq!['*'],
    ensures
        mime_compatible(accepted, actual),
{
}

/// A media type whose subtype is `*` covers every media type of its own type.
pub proof fn lemma_any_subtype_covers_type(accepted: MimeView, actual: MimeView)
    requires
        accepted.subtype == seq!['*'],
        accepted.kind == actual.kind,
    ensures
        mime_compatible(accepted, actual),
{
}

/// Putting `*` for the type or for the subtype of an accepted media type
/// loses nothing: what the media type covered is still covered.
pub proof fn lemma_wildcards_monotone(accepted: MimeView, wider: MimeView, actual: MimeView)
    requires
        mime_compatible(accepted, actual),
        wider.kind == seq!['*'] || wider.kind == accepted.kind,
        wider.subtype == seq!['*'] || wider.subtype == accepted.subtype,
    ensures
        mime_compatible(wider, actual),
{
}

} // verus!
