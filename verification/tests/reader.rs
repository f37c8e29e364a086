use image::{DynamicImage, ImageFormat, RgbImage};
use lopdf::Document;
use presse::pdf::builder::image_to_pdf;
use presse::pdf::reader::{load_pdf, LoadError};
use presse::pdf::writer::{compress_pdf, serialize, serialize_compressed};
use std::io::Cursor;

fn page_doc() -> Document {
    let img = RgbImage::from_fn(16, 8, |x, y| image::Rgb([x as u8, y as u8, 7]));
    let mut out = Cursor::new(Vec::new());
    DynamicImage::ImageRgb8(img).write_to(&mut out, ImageFormat::Png).unwrap();
    image_to_pdf(&"p.png".to_string(), &out.into_inner()).unwrap()
}

#[test]
fn garbage_is_unreadable() {
    assert_eq!(load_pdf(b"not a pdf").err(), Some(LoadError::Unreadable));
}

#[test]
fn plain_serialization_reads_back() {
    let mut doc = page_doc();
    compress_pdf(&mut doc);
    let bytes = serialize(&doc).unwrap();
    assert!(bytes.starts_with(b"%PDF-1.5"));
    let back = load_pdf(&bytes).unwrap();
    assert_eq!(back.get_pages().len(), 1);
}

#[test]
fn compact_serialization_packs_objects_and_reads_back() {
    let mut doc = page_doc();
    compress_pdf(&mut doc);
    let before = doc.clone();
    let compact = serialize_compressed(&doc).unwrap();
    let plain = serialize(&doc).unwrap();
    // The document itself is not changed by writing it.
    assert_eq!(doc.max_id, before.max_id);
    assert_eq!(doc.trailer, before.trailer);
    assert!(compact.windows(6).any(|w| w == b"ObjStm"));
    assert!(compact.windows(4).any(|w| w == b"XRef"));
    assert!(!plain.windows(6).any(|w| w == b"ObjStm"));
    let back = load_pdf(&compact).unwrap();
    assert_eq!(back.get_pages().len(), 1);
}
