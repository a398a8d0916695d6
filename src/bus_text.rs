//! The bus protocol's rules for object paths and type signatures, checked by
//! the zvariant crate.
use vstd::prelude::*;

verus! {

pub open spec fn is_path_char(c: char) -> bool {
    ('a' <= c <= 'z') || ('A' <= c <= 'Z') || ('0' <= c <= '9') || c == '_' || c == '/'
}

/// An object path: `/`, or `/` followed by non-empty names of ASCII letters,
/// digits and `_`, separated by single `/`.
pub open spec fn is_object_path(t: Seq<char>) -> bool {
    &&& t.len() >= 1
    &&& t[0] == '/'
    &&& forall|i: int| 0 <= i < t.len() ==> #[trigger] is_path_char(t[i])
    &&& forall|i: int| 0 <= i < t.len() - 1 ==> !(#[trigger] t[i] == '/' && t[i + 1] == '/')
    &&& (t.len() == 1 || t.last() != '/')
}

/// Whether zvariant accepts `t` as a type signature.
pub uninterp spec fn signature_valid(t: Seq<char>) -> bool;

/// Relies on `zvariant::ObjectPath::try_from(&str)`, whose validation accepts
/// exactly the paths described by `is_object_path`.
#[verifier::external_body]
pub(crate) fn object_path_accepts(s: &str) -> (r: bool)
    ensures
        r == is_object_path(s@),
{
    zvariant::ObjectPath::try_from(s).is_ok()
}

/// Relies on `zvariant::Signature::try_from(&str)`: whether it parses `s`
/// depends on the text alone.
#[verifier::external_body]
pub(crate) fn signature_accepts(s: &str) -> (r: bool)
    ensures
        r == signature_valid(s@),
{
    zvariant::Signature::try_from(s).is_ok()
}

} // verus!
