use image::codecs::jpeg::JpegEncoder;
use image::{DynamicImage, RgbImage};
use lopdf::{Dictionary, Document, Object, ObjectId, Stream};
use presse::pdf::images::{compress_images, ImageOutcome, ImageReport};
use presse::pdf::lopdf_api::{ArrayItem, DictEntry};

fn name(s: &str) -> Object {
    Object::Name(s.as_bytes().to_vec())
}

fn image_stream(w: i64, h: i64, color_space: Option<&str>, filter: Option<Object>, content: Vec<u8>) -> Stream {
    let mut d = Dictionary::new();
    d.set("Type", name("XObject"));
    d.set("Subtype", name("Image"));
    d.set("Width", Object::Integer(w));
    d.set("Height", Object::Integer(h));
    if let Some(c) = color_space {
        d.set("ColorSpace", name(c));
    }
    d.set("BitsPerComponent", Object::Integer(8));
    if let Some(f) = filter {
        d.set("Filter", f);
    }
    Stream::new(d, content)
}

/// The bytes written as ASCII hexadecimal digits, ended by `>`.
fn hex(bytes: &[u8]) -> Vec<u8> {
    let mut out = Vec::new();
    for b in bytes {
        out.extend_from_slice(format!("{:02x}", b).as_bytes());
    }
    out.push(b'>');
    out
}

/// A smooth RGB picture, three samples per pixel.
fn gradient_rgb(w: u32, h: u32) -> Vec<u8> {
    let mut v = Vec::new();
    for y in 0..h {
        for x in 0..w {
            v.push((x * 4) as u8);
            v.push((y * 4) as u8);
            v.push(((x + y) * 2) as u8);
        }
    }
    v
}

fn gradient_gray(w: u32, h: u32) -> Vec<u8> {
    let mut v = Vec::new();
    for y in 0..h {
        for x in 0..w {
            v.push(((x + y) * 2) as u8);
        }
    }
    v
}

fn jpeg_of(w: u32, h: u32, quality: u8) -> Vec<u8> {
    let img = DynamicImage::ImageRgb8(RgbImage::from_raw(w, h, gradient_rgb(w, h)).unwrap());
    let mut buf = Vec::new();
    JpegEncoder::new_with_quality(&mut buf, quality).encode_image(&img).unwrap();
    buf
}

fn stream_of(doc: &Document, id: ObjectId) -> &Stream {
    doc.objects.get(&id).unwrap().as_stream().unwrap()
}

fn one_image(s: Stream, quality: u8) -> (Document, ObjectId, Stream, Vec<ImageReport>) {
    let mut doc = Document::with_version("1.5");
    let id = doc.add_object(s.clone());
    let reports = compress_images(&mut doc, quality);
    (doc, id, s, reports)
}

fn assert_unchanged(doc: &Document, id: ObjectId, before: &Stream) {
    let after = stream_of(doc, id);
    assert_eq!(after.content, before.content);
    assert_eq!(after.dict, before.dict);
}

#[test]
fn rgb_image_behind_hex_filter_is_recompressed() {
    let raw = gradient_rgb(32, 32);
    let s = image_stream(32, 32, Some("DeviceRGB"), Some(name("ASCIIHexDecode")), hex(&raw));
    let content_len = s.content.len();
    let (doc, id, _, reports) = one_image(s, 80);
    assert_eq!(reports.len(), 1);
    let r = &reports[0];
    assert_eq!(r.id, id);
    assert_eq!(r.color_space, Some(b"DeviceRGB".to_vec()));
    assert_eq!(r.filter, DictEntry::Name(b"ASCIIHexDecode".to_vec()));
    assert_eq!((r.width, r.height), (32, 32));
    assert_eq!(r.content_len, content_len);
    let after = stream_of(&doc, id);
    match r.outcome {
        ImageOutcome::Compressed { encoded_len } => {
            assert_eq!(after.content.len(), encoded_len);
            assert!(encoded_len < content_len);
        }
        other => panic!("unexpected outcome {:?}", other),
    }
    assert_eq!(&after.content[..2], &[0xFF, 0xD8]);
    assert_eq!(after.dict.get(b"Filter").unwrap(), &name("DCTDecode"));
    assert_eq!(after.dict.get(b"Length").unwrap(), &Object::Integer(after.content.len() as i64));
    // The re-encoded picture keeps its size.
    let decoded = image::load_from_memory(&after.content).unwrap();
    assert_eq!((decoded.width(), decoded.height()), (32, 32));
    assert_eq!(jpeg_components(&after.content), Some(3));
}

#[test]
fn gray_image_is_read_as_one_sample_per_pixel() {
    // One sample per pixel is enough for a grey image; read as RGB it would be too few.
    let raw = gradient_gray(32, 32);
    let s = image_stream(32, 32, Some("DeviceGray"), Some(name("ASCIIHexDecode")), hex(&raw));
    let (doc, id, _, reports) = one_image(s, 80);
    assert!(matches!(reports[0].outcome, ImageOutcome::Compressed { .. }));
    let decoded = image::load_from_memory(&stream_of(&doc, id).content).unwrap();
    assert_eq!((decoded.width(), decoded.height()), (32, 32));
}

#[test]
fn gray_samples_without_gray_colour_space_are_too_few() {
    let raw = gradient_gray(32, 32);
    let s = image_stream(32, 32, Some("DeviceRGB"), Some(name("ASCIIHexDecode")), hex(&raw));
    let (_, _, _, reports) = one_image(s, 80);
    assert_eq!(reports[0].outcome, ImageOutcome::SkippedBadPixelData);
}

/// The number of colour components in the frame header of a JPEG stream.
fn jpeg_components(data: &[u8]) -> Option<u8> {
    let mut i = 2;
    while i + 9 < data.len() {
        if data[i] != 0xFF {
            return None;
        }
        let marker = data[i + 1];
        let len = ((data[i + 2] as usize) << 8) | data[i + 3] as usize;
        if (0xC0..=0xC2).contains(&marker) {
            return Some(data[i + 9]);
        }
        i += 2 + len;
    }
    None
}

#[test]
fn single_filter_array_counts_as_its_filter() {
    let raw = gradient_rgb(32, 32);
    let filter = Object::Array(vec![name("ASCIIHexDecode")]);
    let s = image_stream(32, 32, Some("DeviceRGB"), Some(filter), hex(&raw));
    let (_, _, _, reports) = one_image(s, 80);
    assert_eq!(reports[0].filter, DictEntry::Array(vec![ArrayItem::Name(b"ASCIIHexDecode".to_vec())]));
    assert!(matches!(reports[0].outcome, ImageOutcome::Compressed { .. }));
}

#[test]
fn cmyk_image_is_skipped() {
    let s = image_stream(4, 4, Some("DeviceCMYK"), Some(name("ASCIIHexDecode")), hex(&[0u8; 64]));
    let (doc, id, before, reports) = one_image(s, 80);
    assert_eq!(reports[0].outcome, ImageOutcome::SkippedCmyk);
    assert_unchanged(&doc, id, &before);
}

#[test]
fn filter_pipeline_is_skipped() {
    let filter = Object::Array(vec![name("FlateDecode"), name("DCTDecode")]);
    let s = image_stream(4, 4, Some("DeviceRGB"), Some(filter), vec![1, 2, 3]);
    let (doc, id, before, reports) = one_image(s, 80);
    assert_eq!(reports[0].outcome, ImageOutcome::SkippedFilterPipeline);
    assert_eq!(reports[0].filter, DictEntry::Array(vec![ArrayItem::Name(b"FlateDecode".to_vec()), ArrayItem::Name(b"DCTDecode".to_vec())]));
    assert_unchanged(&doc, id, &before);
}

#[test]
fn unfiltered_image_is_skipped() {
    let s = image_stream(4, 4, Some("DeviceRGB"), None, gradient_rgb(4, 4));
    let (doc, id, before, reports) = one_image(s, 80);
    assert_eq!(reports[0].outcome, ImageOutcome::SkippedNoFilter);
    assert_eq!(reports[0].filter, DictEntry::Missing);
    assert_unchanged(&doc, id, &before);
}

#[test]
fn broken_jpeg_is_skipped() {
    let s = image_stream(4, 4, Some("DeviceRGB"), Some(name("DCTDecode")), vec![0, 1, 2, 3, 4, 5]);
    let (doc, id, before, reports) = one_image(s, 80);
    assert_eq!(reports[0].outcome, ImageOutcome::SkippedUndecodable);
    assert_unchanged(&doc, id, &before);
}

#[test]
fn jpeg_is_reencoded_at_lower_quality() {
    let original = jpeg_of(64, 64, 100);
    let s = image_stream(64, 64, Some("DeviceRGB"), Some(name("DCTDecode")), original.clone());
    let (doc, id, _, reports) = one_image(s, 10);
    match reports[0].outcome {
        ImageOutcome::Compressed { encoded_len } => assert!(encoded_len < original.len()),
        other => panic!("unexpected outcome {:?}", other),
    }
    let after = stream_of(&doc, id);
    assert_ne!(after.content, original);
    assert_eq!(after.dict.get(b"Length").unwrap(), &Object::Integer(after.content.len() as i64));
}

#[test]
fn small_jpeg_is_kept_when_not_smaller() {
    // A tiny picture at low quality re-encoded at the highest quality grows.
    let original = jpeg_of(8, 8, 1);
    let s = image_stream(8, 8, Some("DeviceRGB"), Some(name("DCTDecode")), original.clone());
    let (doc, id, before, reports) = one_image(s, 100);
    match reports[0].outcome {
        ImageOutcome::SkippedNotSmaller { encoded_len } => assert!(encoded_len >= original.len()),
        other => panic!("unexpected outcome {:?}", other),
    }
    assert_unchanged(&doc, id, &before);
}

#[test]
fn undecodable_filtered_data_is_skipped() {
    let s = image_stream(4, 4, Some("DeviceRGB"), Some(name("ASCIIHexDecode")), b"zz>".to_vec());
    let (doc, id, before, reports) = one_image(s, 80);
    assert_eq!(reports[0].outcome, ImageOutcome::SkippedDecompressFailed);
    assert_unchanged(&doc, id, &before);
}

#[test]
fn too_few_samples_are_skipped() {
    let s = image_stream(32, 32, Some("DeviceRGB"), Some(name("ASCIIHexDecode")), hex(&[7u8; 100]));
    let (doc, id, before, reports) = one_image(s, 80);
    assert_eq!(reports[0].outcome, ImageOutcome::SkippedBadPixelData);
    assert_unchanged(&doc, id, &before);
}

#[test]
fn missing_size_counts_as_zero() {
    let mut d = Dictionary::new();
    d.set("Subtype", name("Image"));
    d.set("Filter", name("ASCIIHexDecode"));
    let s = Stream::new(d, hex(&[1, 2, 3]));
    let (_, _, _, reports) = one_image(s, 80);
    assert_eq!((reports[0].width, reports[0].height), (0, 0));
    assert_eq!(reports[0].color_space, None);
}

#[test]
fn other_objects_are_left_alone() {
    let mut doc = Document::with_version("1.5");
    let mut d = Dictionary::new();
    d.set("Subtype", name("Form"));
    d.set("Filter", name("ASCIIHexDecode"));
    let form = Stream::new(d, hex(&gradient_rgb(32, 32)));
    let form_id = doc.add_object(form.clone());
    let dict_id = doc.add_object(Object::Dictionary(Dictionary::new()));
    let raw = gradient_rgb(32, 32);
    let image_id = doc.add_object(image_stream(32, 32, Some("DeviceRGB"), Some(name("ASCIIHexDecode")), hex(&raw)));
    let reports = compress_images(&mut doc, 80);
    assert_eq!(reports.len(), 1);
    assert_eq!(reports[0].id, image_id);
    assert_unchanged(&doc, form_id, &form);
    assert_eq!(doc.objects.get(&dict_id).unwrap(), &Object::Dictionary(Dictionary::new()));
    assert_eq!(doc.objects.len(), 3);
}

#[test]
fn reports_come_in_increasing_order_of_identifiers() {
    let mut doc = Document::with_version("1.5");
    let mut ids = Vec::new();
    for _ in 0..3 {
        let s = image_stream(4, 4, Some("DeviceCMYK"), None, vec![0; 64]);
        ids.push(doc.add_object(s));
    }
    let reports = compress_images(&mut doc, 80);
    let got: Vec<ObjectId> = reports.iter().map(|r| r.id).collect();
    assert_eq!(got, ids);
}

fn icc_image(n: i64) -> (Document, ObjectId, Stream) {
    let mut doc = Document::with_version("1.5");
    let mut profile = Dictionary::new();
    profile.set("N", Object::Integer(n));
    let profile_id = doc.add_object(Stream::new(profile, vec![0; 16]));
    let raw = gradient_rgb(32, 32);
    let mut s = image_stream(32, 32, None, Some(name("ASCIIHexDecode")), hex(&raw));
    s.dict.set("ColorSpace", Object::Array(vec![name("ICCBased"), Object::Reference(profile_id)]));
    let id = doc.add_object(s.clone());
    (doc, id, s)
}

#[test]
fn cmyk_icc_profile_image_is_skipped() {
    let (mut doc, id, before) = icc_image(4);
    let reports = compress_images(&mut doc, 80);
    assert_eq!(reports.len(), 1);
    assert_eq!(reports[0].outcome, ImageOutcome::SkippedCmyk);
    assert_unchanged(&doc, id, &before);
}

#[test]
fn rgb_icc_profile_image_is_recompressed() {
    let (mut doc, _, _) = icc_image(3);
    let reports = compress_images(&mut doc, 80);
    assert!(matches!(reports[0].outcome, ImageOutcome::Compressed { .. }));
}

#[test]
fn trailer_and_version_are_kept() {
    let raw = gradient_rgb(32, 32);
    let mut doc = Document::with_version("1.4");
    let id = doc.add_object(image_stream(32, 32, Some("DeviceRGB"), Some(name("ASCIIHexDecode")), hex(&raw)));
    doc.trailer.set("Root", Object::Reference(id));
    let trailer = doc.trailer.clone();
    let max_id = doc.max_id;
    compress_images(&mut doc, 80);
    assert_eq!(doc.trailer, trailer);
    assert_eq!(doc.version, "1.4");
    assert_eq!(doc.max_id, max_id);
}

#[test]
fn filter_name_and_one_element_array_give_the_same_stream() {
    let raw = gradient_rgb(32, 32);
    let a = image_stream(32, 32, Some("DeviceRGB"), Some(name("ASCIIHexDecode")), hex(&raw));
    let b = image_stream(32, 32, Some("DeviceRGB"), Some(Object::Array(vec![name("ASCIIHexDecode")])), hex(&raw));
    let (da, ia, _, ra) = one_image(a, 60);
    let (db, ib, _, rb) = one_image(b, 60);
    assert_eq!(ra[0].outcome, rb[0].outcome);
    let sa = stream_of(&da, ia);
    let sb = stream_of(&db, ib);
    assert_eq!(sa.content, sb.content);
    assert_eq!(sa.dict, sb.dict);
}
