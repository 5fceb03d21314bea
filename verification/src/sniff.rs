//! Content sniffing: the trusted boundary around the signature matcher, and
//! the verified step from a buffer's bytes to its category.

use vstd::prelude::*;
use crate::category::Category;
use crate::category::Family;
use crate::category::SniffInfo;
use crate::category::classify;
use crate::category::sniff_view;
use crate::category::spec_classify;

verus! {

/// What the default signature matcher reports for a buffer: `None` when no
/// known signature matches the leading bytes, otherwise the family tag and
/// the exact mime string of the detected type. The result is a function of
/// the bytes alone.
pub uninterp spec fn spec_sniff(bytes: Seq<u8>) -> Option<(Family, Seq<char>)>;

/// Relies on infer::get together with infer::Type's matcher_type and
/// mime_type accessors: the detected signature depends on the buffer's
/// bytes alone, and is reported as a matcher family plus a mime string.
#[verifier::external_body]
fn sniff_bytes(bytes: &Vec<u8>) -> (r: Option<SniffInfo>)
    ensures
        sniff_view(r) == spec_sniff(bytes@),
{
    let t = match infer::get(bytes) { None => return None, Some(t) => t };
    let family = match t.matcher_type() {
        infer::MatcherType::App => Family::App,
        infer::MatcherType::Archive => Family::Archive,
        infer::MatcherType::Audio => Family::Audio,
        infer::MatcherType::Book => Family::Book,
        infer::MatcherType::Doc => Family::Doc,
        infer::MatcherType::Font => Family::Font,
        infer::MatcherType::Image => Family::Image,
        infer::MatcherType::Text => Family::Text,
        infer::MatcherType::Video => Family::Video,
        infer::MatcherType::Custom => Family::Custom,
    };
    Some(SniffInfo { family, mime: t.mime_type().to_string() })
}

/// Sniffs a buffer and assigns its category: the `Other` fallback when no
/// signature is recognized, otherwise the family rule with the pdf
/// carve-out.
pub fn classify_bytes(bytes: &Vec<u8>) -> (r: Category)
    ensures
        r == spec_classify(spec_sniff(bytes@)),
{
    let s = sniff_bytes(bytes);
    classify(&s)
}

} // verus!
