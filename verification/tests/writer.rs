use lopdf::{Dictionary, Document, Object, Stream};
use presse::pdf::writer::compress_pdf;

fn name(s: &str) -> Object {
    Object::Name(s.as_bytes().to_vec())
}

#[test]
fn empty_streams_are_removed() {
    let mut doc = Document::with_version("1.5");
    let empty = doc.add_object(Stream::new(Dictionary::new(), vec![]));
    let kept = doc.add_object(Stream::new(Dictionary::new(), vec![1, 2, 3]));
    let plain = doc.add_object(Object::Integer(5));
    let report = compress_pdf(&mut doc);
    assert_eq!(report.objects_before, 3);
    assert_eq!(report.removed, vec![empty]);
    assert_eq!(report.objects_after, 2);
    assert!(doc.objects.get(&empty).is_none());
    assert_eq!(doc.objects.get(&kept).unwrap().as_stream().unwrap().content, vec![1, 2, 3]);
    assert_eq!(doc.objects.get(&plain).unwrap(), &Object::Integer(5));
    assert_eq!(doc.max_id, 3);
}

#[test]
fn long_streams_are_compressed() {
    let mut doc = Document::with_version("1.5");
    let content = vec![b'a'; 1000];
    let id = doc.add_object(Stream::new(Dictionary::new(), content.clone()));
    let report = compress_pdf(&mut doc);
    assert!(report.removed.is_empty());
    let s = doc.objects.get(&id).unwrap().as_stream().unwrap();
    assert_eq!(s.dict.get(b"Filter").unwrap(), &name("FlateDecode"));
    assert!(s.content.len() < content.len());
    assert_eq!(s.decompressed_content().unwrap(), content);
}

#[test]
fn filtered_streams_are_left_as_they_are() {
    let mut doc = Document::with_version("1.5");
    let mut d = Dictionary::new();
    d.set("Filter", name("DCTDecode"));
    let content = vec![b'a'; 1000];
    let id = doc.add_object(Stream::new(d, content.clone()));
    compress_pdf(&mut doc);
    assert_eq!(doc.objects.get(&id).unwrap().as_stream().unwrap().content, content);
}

#[test]
fn short_streams_are_not_compressed() {
    let mut doc = Document::with_version("1.5");
    let id = doc.add_object(Stream::new(Dictionary::new(), b"BT ET".to_vec()));
    compress_pdf(&mut doc);
    let s = doc.objects.get(&id).unwrap().as_stream().unwrap();
    assert!(s.dict.get(b"Filter").is_err());
    assert_eq!(s.content, b"BT ET".to_vec());
}

#[test]
fn empty_document_stays_empty() {
    let mut doc = Document::with_version("1.5");
    let report = compress_pdf(&mut doc);
    assert_eq!((report.objects_before, report.objects_after), (0, 0));
    assert!(report.removed.is_empty());
}

#[test]
fn streams_that_may_not_be_compressed_keep_their_content() {
    let mut doc = Document::with_version("1.5");
    let mut s = Stream::new(Dictionary::new(), vec![b'a'; 1000]);
    s.allows_compression = false;
    let id = doc.add_object(s);
    compress_pdf(&mut doc);
    let s = doc.objects.get(&id).unwrap().as_stream().unwrap();
    assert!(s.dict.get(b"Filter").is_err());
    assert_eq!(s.content, vec![b'a'; 1000]);
}

#[test]
fn references_to_removed_streams_go_where_lopdf_drops_them() {
    let mut doc = Document::with_version("1.5");
    let empty = doc.add_object(Stream::new(Dictionary::new(), vec![]));
    let mut catalog = Dictionary::new();
    catalog.set("Type", name("Catalog"));
    catalog.set("Thumb", Object::Reference(empty));
    catalog.set("List", Object::Array(vec![Object::Reference(empty), Object::Reference(empty), Object::Integer(1)]));
    let catalog_id = doc.add_object(catalog);
    doc.trailer.set("Root", Object::Reference(catalog_id));
    doc.trailer.set("Extra", Object::Reference(empty));
    let report = compress_pdf(&mut doc);
    assert_eq!(report.removed, vec![empty]);
    let catalog = doc.objects.get(&catalog_id).unwrap().as_dict().unwrap();
    // A dictionary reached from the trailer loses its entries that refer to the removed stream.
    assert!(catalog.get(b"Thumb").is_err());
    // An array loses only its first such reference.
    assert_eq!(
        catalog.get(b"List").unwrap(),
        &Object::Array(vec![Object::Reference(empty), Object::Integer(1)])
    );
    // The trailer's own entries are values, not walked dictionaries: they stay.
    assert_eq!(doc.trailer.get(b"Root").unwrap(), &Object::Reference(catalog_id));
    assert_eq!(doc.trailer.get(b"Extra").unwrap(), &Object::Reference(empty));
}

#[test]
fn compressed_streams_get_flate_filter_and_length() {
    let mut doc = Document::with_version("1.5");
    let id = doc.add_object(Stream::new(Dictionary::new(), vec![b'z'; 500]));
    compress_pdf(&mut doc);
    let s = doc.objects.get(&id).unwrap().as_stream().unwrap();
    assert_eq!(s.dict.get(b"Filter").unwrap(), &name("FlateDecode"));
    assert_eq!(s.dict.get(b"Length").unwrap(), &Object::Integer(s.content.len() as i64));
}
