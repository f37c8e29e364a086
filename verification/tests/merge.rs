use image::{DynamicImage, ImageFormat, RgbImage};
use lopdf::{Dictionary, Document, Object};
use presse::pdf::builder::image_to_pdf;
use presse::pdf::merger::{merge, MergeError};
use std::io::Cursor;

fn page_doc(w: u32, h: u32) -> Document {
    let img = RgbImage::from_fn(w, h, |x, y| image::Rgb([x as u8, y as u8, 7]));
    let mut out = Cursor::new(Vec::new());
    DynamicImage::ImageRgb8(img).write_to(&mut out, ImageFormat::Png).unwrap();
    image_to_pdf(&"p.png".to_string(), &out.into_inner()).unwrap()
}

fn page_sizes(doc: &Document) -> Vec<(i64, i64)> {
    doc.get_pages()
        .values()
        .map(|id| {
            let page = doc.objects.get(id).unwrap().as_dict().unwrap();
            match page.get(b"MediaBox").unwrap() {
                Object::Array(a) => (a[2].as_i64().unwrap(), a[3].as_i64().unwrap()),
                _ => panic!("no media box"),
            }
        })
        .collect()
}

fn name(s: &str) -> Object {
    Object::Name(s.as_bytes().to_vec())
}

#[test]
fn pages_of_the_first_come_first() {
    let mut a = page_doc(10, 20);
    let mut b = page_doc(30, 40);
    let merged = merge(&mut a, &mut b).unwrap();
    assert_eq!(merged.version, "1.5");
    assert_eq!(page_sizes(&merged), vec![(10, 20), (30, 40)]);
}

#[test]
fn page_tree_counts_and_lists_all_pages() {
    let mut a = page_doc(10, 20);
    let mut b = page_doc(30, 40);
    let merged = merge(&mut a, &mut b).unwrap();
    let root = merged.trailer.get(b"Root").unwrap().as_reference().unwrap();
    let catalog = merged.objects.get(&root).unwrap().as_dict().unwrap();
    assert_eq!(catalog.get(b"Type").unwrap(), &name("Catalog"));
    let pages_id = catalog.get(b"Pages").unwrap().as_reference().unwrap();
    let pages = merged.objects.get(&pages_id).unwrap().as_dict().unwrap();
    assert_eq!(pages.get(b"Count").unwrap(), &Object::Integer(2));
    let kids = pages.get(b"Kids").unwrap().as_array().unwrap();
    assert_eq!(kids.len(), 2);
    for kid in kids {
        let page = merged.objects.get(&kid.as_reference().unwrap()).unwrap().as_dict().unwrap();
        assert_eq!(page.get(b"Parent").unwrap(), &Object::Reference(pages_id));
    }
}

#[test]
fn merged_objects_keep_their_new_numbers() {
    let mut a = page_doc(10, 20);
    let mut b = page_doc(30, 40);
    let merged = merge(&mut a, &mut b).unwrap();
    // Two images, two contents, two pages, one page tree, one catalog.
    assert_eq!(merged.objects.len(), 8);
    // The page tree and catalog of the second document are gathered into the first's.
    let ids: Vec<u32> = merged.objects.keys().map(|id| id.0).collect();
    assert_eq!(ids, vec![1, 2, 3, 4, 5, 7, 8, 9]);
    assert_eq!(merged.max_id, b.max_id);
    assert_eq!(merged.max_id, 10);
}

#[test]
fn inputs_are_renumbered_apart() {
    let mut a = page_doc(10, 20);
    let mut b = page_doc(30, 40);
    merge(&mut a, &mut b).unwrap();
    let max_a = a.objects.keys().map(|id| id.0).max().unwrap();
    let min_b = b.objects.keys().map(|id| id.0).min().unwrap();
    assert_eq!(a.objects.keys().map(|id| id.0).min().unwrap(), 1);
    assert_eq!(min_b, max_a + 1);
}

#[test]
fn three_documents_merge_in_order() {
    let mut a = page_doc(1, 2);
    let mut b = page_doc(3, 4);
    let mut c = page_doc(5, 6);
    let mut ab = merge(&mut a, &mut b).unwrap();
    let abc = merge(&mut ab, &mut c).unwrap();
    assert_eq!(page_sizes(&abc), vec![(1, 2), (3, 4), (5, 6)]);
}

#[test]
fn outlines_are_dropped_from_the_catalog() {
    let mut a = page_doc(10, 20);
    let mut b = page_doc(30, 40);
    let mut outlines = Dictionary::new();
    outlines.set("Type", name("Outlines"));
    let outlines_id = a.add_object(outlines);
    let root = a.trailer.get(b"Root").unwrap().as_reference().unwrap();
    a.objects.get_mut(&root).unwrap().as_dict_mut().unwrap().set("Outlines", outlines_id);
    let merged = merge(&mut a, &mut b).unwrap();
    let root = merged.trailer.get(b"Root").unwrap().as_reference().unwrap();
    let catalog = merged.objects.get(&root).unwrap().as_dict().unwrap();
    assert!(catalog.get(b"Outlines").is_err());
    for o in merged.objects.values() {
        if let Ok(d) = o.as_dict() {
            assert_ne!(d.get(b"Type").ok(), Some(&name("Outlines")));
        }
    }
}

#[test]
fn empty_documents_have_no_page_tree() {
    let mut a = Document::with_version("1.5");
    let mut b = Document::with_version("1.5");
    assert_eq!(merge(&mut a, &mut b).err(), Some(MergeError::NoPageTree));
}

#[test]
fn page_tree_without_catalog_is_refused() {
    let mut a = Document::with_version("1.5");
    let mut pages = Dictionary::new();
    pages.set("Type", name("Pages"));
    pages.set("Kids", Object::Array(vec![]));
    pages.set("Count", Object::Integer(0));
    a.add_object(pages);
    let mut b = Document::with_version("1.5");
    assert_eq!(merge(&mut a, &mut b).err(), Some(MergeError::NoCatalog));
}

#[test]
fn other_objects_are_carried_over() {
    let mut a = page_doc(10, 20);
    let mut b = page_doc(30, 40);
    let mut extra = Dictionary::new();
    extra.set("Producer", Object::string_literal("test"));
    b.add_object(extra);
    let merged = merge(&mut a, &mut b).unwrap();
    assert_eq!(merged.objects.len(), 9);
    assert!(merged
        .objects
        .values()
        .any(|o| o.as_dict().map(|d| d.get(b"Producer").is_ok()).unwrap_or(false)));
}

#[test]
fn pages_missing_from_a_document_are_skipped() {
    let mut a = page_doc(10, 20);
    let mut b = page_doc(30, 40);
    // b's page tree also lists an object b does not hold.
    let root = b.trailer.get(b"Root").unwrap().as_reference().unwrap();
    let pages_id = b.objects.get(&root).unwrap().as_dict().unwrap().get(b"Pages").unwrap().as_reference().unwrap();
    let pages = b.objects.get_mut(&pages_id).unwrap().as_dict_mut().unwrap();
    let mut kids = pages.get(b"Kids").unwrap().as_array().unwrap().clone();
    kids.push(Object::Reference((999, 0)));
    pages.set("Kids", Object::Array(kids));
    pages.set("Count", Object::Integer(2));
    let merged = merge(&mut a, &mut b).unwrap();
    assert_eq!(page_sizes(&merged), vec![(10, 20), (30, 40)]);
}

#[test]
fn merged_page_tree_has_no_parent() {
    let mut a = page_doc(10, 20);
    let mut b = page_doc(30, 40);
    let root = b.trailer.get(b"Root").unwrap().as_reference().unwrap();
    let pages_id = b.objects.get(&root).unwrap().as_dict().unwrap().get(b"Pages").unwrap().as_reference().unwrap();
    b.objects.get_mut(&pages_id).unwrap().as_dict_mut().unwrap().set("Parent", Object::Reference((77, 0)));
    let merged = merge(&mut a, &mut b).unwrap();
    let root = merged.trailer.get(b"Root").unwrap().as_reference().unwrap();
    let pages_id = merged.objects.get(&root).unwrap().as_dict().unwrap().get(b"Pages").unwrap().as_reference().unwrap();
    assert!(merged.objects.get(&pages_id).unwrap().as_dict().unwrap().get(b"Parent").is_err());
}

fn root_pages_dict(doc: &mut Document) -> &mut Dictionary {
    let root = doc.trailer.get(b"Root").unwrap().as_reference().unwrap();
    let pages_id = doc.objects.get(&root).unwrap().as_dict().unwrap().get(b"Pages").unwrap().as_reference().unwrap();
    doc.objects.get_mut(&pages_id).unwrap().as_dict_mut().unwrap()
}

#[test]
fn page_tree_nodes_are_combined_by_extend() {
    let mut a = page_doc(10, 20);
    let mut b = page_doc(30, 40);
    let mut ra = Dictionary::new();
    ra.set("A", Object::Integer(1));
    root_pages_dict(&mut a).set("Resources", Object::Dictionary(ra));
    root_pages_dict(&mut a).set("Rotate", Object::Integer(0));
    let mut rb = Dictionary::new();
    rb.set("B", Object::Integer(2));
    root_pages_dict(&mut b).set("Resources", Object::Dictionary(rb));
    root_pages_dict(&mut b).set("Rotate", Object::Integer(90));
    let mut merged = merge(&mut a, &mut b).unwrap();
    let node = root_pages_dict(&mut merged);
    let res = node.get(b"Resources").unwrap().as_dict().unwrap();
    // The later node's dictionary is extended by the earlier one's.
    assert_eq!(res.get(b"B").unwrap(), &Object::Integer(2));
    assert_eq!(res.get(b"A").unwrap(), &Object::Integer(1));
    // Two integers under one key are gathered into an array, the later node's first.
    assert_eq!(node.get(b"Rotate").unwrap(), &Object::Array(vec![Object::Integer(90), Object::Integer(0)]));
}
