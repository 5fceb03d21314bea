//! The fixed set of destination categories and the rule that assigns a
//! category to a sniffed content type.

use vstd::prelude::*;

verus! {

/// The nine destination labels files are grouped under. The set is closed:
/// every successfully sniffed file lands in exactly one of them.
#[derive(Clone, Copy, PartialEq, Eq, Structural, Debug)]
pub enum Category {
    Video,
    Image,
    Audio,
    Document,
    Compressed,
    Book,
    Font,
    Pdf,
    Other,
}

/// The signature families a content sniff can report.
#[derive(Clone, Copy, PartialEq, Eq, Structural, Debug)]
pub enum Family {
    App,
    Archive,
    Audio,
    Book,
    Doc,
    Font,
    Image,
    Text,
    Video,
    Custom,
}

/// What a successful sniff of a file's leading bytes yields: the signature
/// family and the exact mime string of the detected type.
pub struct SniffInfo {
    pub family: Family,
    pub mime: String,
}

/// The subdirectory name that a category's files are moved into.
pub open spec fn spec_name(c: Category) -> Seq<char> {
    match c {
        Category::Video => "video"@,
        Category::Image => "image"@,
        Category::Audio => "audio"@,
        Category::Document => "document"@,
        Category::Compressed => "compressed"@,
        Category::Book => "book"@,
        Category::Font => "font"@,
        Category::Pdf => "pdf"@,
        Category::Other => "other"@,
    }
}

pub fn category_name(c: Category) -> (r: String)
    ensures
        r@ == spec_name(c),
{
    match c {
        Category::Video => String::from_str("video"),
        Category::Image => String::from_str("image"),
        Category::Audio => String::from_str("audio"),
        Category::Document => String::from_str("document"),
        Category::Compressed => String::from_str("compressed"),
        Category::Book => String::from_str("book"),
        Category::Font => String::from_str("font"),
        Category::Pdf => String::from_str("pdf"),
        Category::Other => String::from_str("other"),
    }
}

/// The classification rule, first match wins. The `pdf` category is a
/// carve-out of the archive/container family, keyed on the exact mime
/// string; it is not a top-level family of its own.
pub open spec fn spec_classify(s: Option<(Family, Seq<char>)>) -> Category {
    match s {
        Option::None => Category::Other,
        Option::Some((f, mime)) => match f {
            Family::Image => Category::Image,
            Family::Video => Category::Video,
            Family::Audio => Category::Audio,
            Family::Doc => Category::Document,
            Family::Archive => if mime == "application/pdf"@ {
                Category::Pdf
            } else {
                Category::Compressed
            },
            Family::Book => Category::Book,
            Family::Font => Category::Font,
            Family::Custom => Category::Other,
            Family::App => Category::Other,
            Family::Text => Category::Other,
        },
    }
}

/// The view of a sniff outcome that the classification rule is stated over.
pub open spec fn sniff_view(s: Option<SniffInfo>) -> Option<(Family, Seq<char>)> {
    match s {
        Option::None => Option::None,
        Option::Some(i) => Option::Some((i.family, i.mime@)),
    }
}

/// Assigns the category of a sniff outcome: `None` (no recognized
/// signature) falls back to `Other`; otherwise the family decides, with the
/// pdf carve-out inside the archive branch.
pub fn classify(s: &Option<SniffInfo>) -> (r: Category)
    ensures
        r == spec_classify(sniff_view(*s)),
{
    match s {
        Option::None => Category::Other,
        Option::Some(info) => match info.family {
            Family::Image => Category::Image,
            Family::Video => Category::Video,
            Family::Audio => Category::Audio,
            Family::Doc => Category::Document,
            Family::Archive => {
                let pdf: String = String::from_str("application/pdf");
                if info.mime == pdf {
                    Category::Pdf
                } else {
                    Category::Compressed
                }
            },
            Family::Book => Category::Book,
            Family::Font => Category::Font,
            Family::Custom => Category::Other,
            Family::App => Category::Other,
            Family::Text => Category::Other,
        },
    }
}

/// Law: an archive-family file whose exact mime type is "application/pdf"
/// is classified `Pdf`, never `Compressed`; any other archive-family file
/// is classified `Compressed`.
pub proof fn lemma_pdf_carve_out(mime: Seq<char>)
    ensures
        mime == "application/pdf"@ ==> spec_classify(
            Option::Some((Family::Archive, mime)),
        ) == Category::Pdf,
        mime != "application/pdf"@ ==> spec_classify(
            Option::Some((Family::Archive, mime)),
        ) == Category::Compressed,
{
}

/// Law: a file whose content matches no recognized signature is classified
/// `Other`.
pub proof fn lemma_unknown_fallback()
    ensures
        spec_classify(Option::None) == Category::Other,
{
}

} // verus!
