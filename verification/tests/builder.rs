use image::{DynamicImage, ImageFormat, RgbImage, RgbaImage};
use lopdf::content::Content;
use lopdf::{Document, Object, ObjectId};
use presse::pdf::builder::{image_to_pdf, BuildError};
use std::io::Cursor;

fn rgb_picture(w: u32, h: u32) -> RgbImage {
    RgbImage::from_fn(w, h, |x, y| image::Rgb([(x * 7) as u8, (y * 5) as u8, 90]))
}

fn rgba_picture(w: u32, h: u32) -> RgbaImage {
    RgbaImage::from_fn(w, h, |x, y| image::Rgba([(x * 7) as u8, (y * 5) as u8, 90, (x + y) as u8]))
}

fn encode(img: DynamicImage, format: ImageFormat) -> Vec<u8> {
    let mut out = Cursor::new(Vec::new());
    img.write_to(&mut out, format).unwrap();
    out.into_inner()
}

fn dict(doc: &Document, id: ObjectId) -> &lopdf::Dictionary {
    doc.objects.get(&id).unwrap().as_dict().unwrap()
}

fn name(s: &str) -> Object {
    Object::Name(s.as_bytes().to_vec())
}

#[test]
fn opaque_picture_gives_five_objects() {
    let img = rgb_picture(32, 24);
    let data = encode(DynamicImage::ImageRgb8(img.clone()), ImageFormat::Png);
    let doc = image_to_pdf(&"picture.png".to_string(), &data).unwrap();
    assert_eq!(doc.version, "1.5");
    assert_eq!(doc.objects.len(), 5);
    assert_eq!(doc.max_id, 5);
    assert_eq!(doc.trailer.get(b"Root").unwrap(), &Object::Reference((5, 0)));

    let catalog = dict(&doc, (5, 0));
    assert_eq!(catalog.get(b"Type").unwrap(), &name("Catalog"));
    assert_eq!(catalog.get(b"Pages").unwrap(), &Object::Reference((1, 0)));

    let pages = dict(&doc, (1, 0));
    assert_eq!(pages.get(b"Type").unwrap(), &name("Pages"));
    assert_eq!(pages.get(b"Count").unwrap(), &Object::Integer(1));
    assert_eq!(pages.get(b"Kids").unwrap(), &Object::Array(vec![Object::Reference((4, 0))]));

    let page = dict(&doc, (4, 0));
    assert_eq!(page.get(b"Parent").unwrap(), &Object::Reference((1, 0)));
    assert_eq!(
        page.get(b"MediaBox").unwrap(),
        &Object::Array(vec![Object::Integer(0), Object::Integer(0), Object::Integer(32), Object::Integer(24)])
    );
    assert_eq!(page.get(b"Contents").unwrap(), &Object::Reference((3, 0)));
    let xobjects = page.get(b"Resources").unwrap().as_dict().unwrap().get(b"XObject").unwrap().as_dict().unwrap();
    assert_eq!(xobjects.get(b"Im0").unwrap(), &Object::Reference((2, 0)));

    let image = doc.objects.get(&(2, 0)).unwrap().as_stream().unwrap();
    assert_eq!(image.dict.get(b"Subtype").unwrap(), &name("Image"));
    assert_eq!(image.dict.get(b"ColorSpace").unwrap(), &name("DeviceRGB"));
    assert_eq!(image.dict.get(b"Width").unwrap(), &Object::Integer(32));
    assert_eq!(image.dict.get(b"Height").unwrap(), &Object::Integer(24));
    assert_eq!(image.dict.get(b"Filter").unwrap(), &name("FlateDecode"));
    assert!(image.dict.get(b"SMask").is_err());
    assert_eq!(image.decompressed_content().unwrap(), img.into_raw());

    let content = doc.objects.get(&(3, 0)).unwrap().as_stream().unwrap();
    let ops = Content::decode(&content.content).unwrap().operations;
    let names: Vec<&str> = ops.iter().map(|o| o.operator.as_str()).collect();
    assert_eq!(names, vec!["q", "cm", "Do", "Q"]);
    assert_eq!(
        ops[1].operands,
        vec![Object::Integer(32), Object::Integer(0), Object::Integer(0), Object::Integer(24), Object::Integer(0), Object::Integer(0)]
    );
    assert_eq!(ops[2].operands, vec![name("Im0")]);
}

#[test]
fn transparent_picture_gets_a_soft_mask() {
    let img = rgba_picture(32, 32);
    let data = encode(DynamicImage::ImageRgba8(img.clone()), ImageFormat::Png);
    let doc = image_to_pdf(&"logo.png".to_string(), &data).unwrap();
    assert_eq!(doc.objects.len(), 6);
    assert_eq!(doc.max_id, 6);
    assert_eq!(doc.trailer.get(b"Root").unwrap(), &Object::Reference((6, 0)));

    let smask = doc.objects.get(&(2, 0)).unwrap().as_stream().unwrap();
    assert_eq!(smask.dict.get(b"ColorSpace").unwrap(), &name("DeviceGray"));
    assert_eq!(smask.dict.get(b"Filter").unwrap(), &name("FlateDecode"));
    let alpha: Vec<u8> = img.pixels().map(|p| p[3]).collect();
    assert_eq!(smask.decompressed_content().unwrap(), alpha);

    let image = doc.objects.get(&(3, 0)).unwrap().as_stream().unwrap();
    assert_eq!(image.dict.get(b"SMask").unwrap(), &Object::Reference((2, 0)));
    let rgb: Vec<u8> = img.pixels().flat_map(|p| [p[0], p[1], p[2]]).collect();
    assert_eq!(image.decompressed_content().unwrap(), rgb);

    let page = dict(&doc, (5, 0));
    assert_eq!(page.get(b"Contents").unwrap(), &Object::Reference((4, 0)));
}

#[test]
fn tiny_picture_is_flate_encoded_too() {
    // Flate does not shorten 3 samples, but the image is marked and encoded with it all the same.
    let img = rgb_picture(1, 1);
    let data = encode(DynamicImage::ImageRgb8(img.clone()), ImageFormat::Png);
    let doc = image_to_pdf(&"dot.png".to_string(), &data).unwrap();
    let image = doc.objects.get(&(2, 0)).unwrap().as_stream().unwrap();
    assert_eq!(image.dict.get(b"Filter").unwrap(), &name("FlateDecode"));
    assert_eq!(image.dict.get(b"Length").unwrap(), &Object::Integer(image.content.len() as i64));
    assert_eq!(image.decompressed_content().unwrap(), img.into_raw());
}

#[test]
fn format_is_sniffed_from_the_data() {
    let img = rgb_picture(16, 16);
    let data = encode(DynamicImage::ImageRgb8(img), ImageFormat::Png);
    let doc = image_to_pdf(&"misnamed.jpg".to_string(), &data).unwrap();
    assert_eq!(doc.objects.len(), 5);
}

#[test]
fn jpeg_picture_is_accepted() {
    let img = rgb_picture(16, 8);
    let data = encode(DynamicImage::ImageRgb8(img), ImageFormat::Jpeg);
    let doc = image_to_pdf(&"photo.jpeg".to_string(), &data).unwrap();
    let page = dict(&doc, (4, 0));
    assert_eq!(
        page.get(b"MediaBox").unwrap(),
        &Object::Array(vec![Object::Integer(0), Object::Integer(0), Object::Integer(16), Object::Integer(8)])
    );
}

#[test]
fn garbage_is_not_a_picture() {
    let r = image_to_pdf(&"noise.png".to_string(), &[1, 2, 3, 4, 5]);
    assert_eq!(r.err(), Some(BuildError::Undecodable));
}

#[test]
fn empty_data_is_not_a_picture() {
    let r = image_to_pdf(&"empty".to_string(), &[]);
    assert_eq!(r.err(), Some(BuildError::Undecodable));
}
