use file_organizer::category::Category;
use file_organizer::category::Family;
use file_organizer::category::SniffInfo;
use file_organizer::category::category_name;
use file_organizer::category::classify;
use file_organizer::sniff::classify_bytes;

fn png_bytes() -> Vec<u8> {
    vec![0x89, 0x50, 0x4E, 0x47, 0x0D, 0x0A, 0x1A, 0x0A, 0x00, 0x00]
}

fn pdf_bytes() -> Vec<u8> {
    b"%PDF-1.7\n%more".to_vec()
}

fn zip_bytes() -> Vec<u8> {
    vec![0x50, 0x4B, 0x03, 0x04, 0x14, 0x00, 0x00, 0x00]
}

fn avi_bytes() -> Vec<u8> {
    vec![0x52, 0x49, 0x46, 0x46, 0x00, 0x01, 0x02, 0x03, 0x41, 0x56, 0x49, 0x20]
}

fn mp3_bytes() -> Vec<u8> {
    vec![0x49, 0x44, 0x33, 0x04, 0x00, 0x00, 0x00, 0x00]
}

fn woff_bytes() -> Vec<u8> {
    vec![0x77, 0x4F, 0x46, 0x46, 0x00, 0x01, 0x00, 0x00, 0x00, 0x00]
}

fn info(family: Family, mime: &str) -> Option<SniffInfo> {
    Some(SniffInfo { family, mime: mime.to_string() })
}

#[test]
fn sniffed_png_is_image() {
    assert_eq!(classify_bytes(&png_bytes()), Category::Image);
}

#[test]
fn sniffed_avi_is_video() {
    assert_eq!(classify_bytes(&avi_bytes()), Category::Video);
}

#[test]
fn sniffed_mp3_is_audio() {
    assert_eq!(classify_bytes(&mp3_bytes()), Category::Audio);
}

#[test]
fn sniffed_woff_is_font() {
    assert_eq!(classify_bytes(&woff_bytes()), Category::Font);
}

#[test]
fn sniffed_pdf_is_pdf_not_compressed() {
    assert_eq!(classify_bytes(&pdf_bytes()), Category::Pdf);
}

#[test]
fn sniffed_zip_is_compressed() {
    assert_eq!(classify_bytes(&zip_bytes()), Category::Compressed);
}

#[test]
fn unrecognized_content_is_other() {
    assert_eq!(classify_bytes(&b"no known signature here".to_vec()), Category::Other);
}

#[test]
fn empty_content_is_other() {
    assert_eq!(classify_bytes(&Vec::new()), Category::Other);
}

#[test]
fn archive_with_pdf_mime_is_pdf() {
    assert_eq!(classify(&info(Family::Archive, "application/pdf")), Category::Pdf);
}

#[test]
fn archive_with_other_mime_is_compressed() {
    assert_eq!(classify(&info(Family::Archive, "application/zip")), Category::Compressed);
    assert_eq!(classify(&info(Family::Archive, "application/gzip")), Category::Compressed);
}

#[test]
fn pdf_mime_matches_the_standard_constant() {
    assert_eq!(mime::APPLICATION_PDF.essence_str(), "application/pdf");
}

#[test]
fn families_map_to_their_categories() {
    assert_eq!(classify(&info(Family::Image, "image/png")), Category::Image);
    assert_eq!(classify(&info(Family::Video, "video/mp4")), Category::Video);
    assert_eq!(classify(&info(Family::Audio, "audio/mpeg")), Category::Audio);
    assert_eq!(classify(&info(Family::Doc, "application/msword")), Category::Document);
    assert_eq!(classify(&info(Family::Book, "application/epub+zip")), Category::Book);
    assert_eq!(classify(&info(Family::Font, "application/font-woff")), Category::Font);
    assert_eq!(classify(&info(Family::App, "application/wasm")), Category::Other);
    assert_eq!(classify(&info(Family::Text, "text/html")), Category::Other);
    assert_eq!(classify(&info(Family::Custom, "application/x-custom")), Category::Other);
}

#[test]
fn no_sniff_result_is_other() {
    assert_eq!(classify(&None), Category::Other);
}

#[test]
fn category_names() {
    assert_eq!(category_name(Category::Video), "video");
    assert_eq!(category_name(Category::Image), "image");
    assert_eq!(category_name(Category::Audio), "audio");
    assert_eq!(category_name(Category::Document), "document");
    assert_eq!(category_name(Category::Compressed), "compressed");
    assert_eq!(category_name(Category::Book), "book");
    assert_eq!(category_name(Category::Font), "font");
    assert_eq!(category_name(Category::Pdf), "pdf");
    assert_eq!(category_name(Category::Other), "other");
}
