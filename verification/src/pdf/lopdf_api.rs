//! The calls this library makes into `lopdf`, with what each is taken to do.
//!
//! A `lopdf::Document` keeps its objects in a `BTreeMap` from identifiers to
//! `lopdf::Object` values; `pdf_objects` names what that map holds, each
//! object read as a `PdfObject`.
use crate::pdf::model::{
    obj_at,
    dict_get, dict_set, stream_allows_compression, stream_content, stream_dict,
    with_content, with_entry, ObjId, PdfDict, PdfObject,
};
use lopdf::content::{Content, Operation};
use lopdf::{Dictionary, Document, Object, SaveOptions, Stream};
use vstd::prelude::*;
use vstd::string::StringSliceAdditionalSpecFns;

verus! {

#[verifier::external_type_specification]
#[verifier::external_body]
pub struct ExDocument(Document);

#[verifier::external_type_specification]
#[verifier::external_body]
pub struct ExDictionary(Dictionary);

/// What the objects of a document are.
pub uninterp spec fn pdf_objects(doc: Document) -> Map<ObjId, PdfObject>;

/// The largest object number handed out so far (`Document::max_id`).
pub uninterp spec fn pdf_max_id(doc: Document) -> u32;

/// The entries of the document's trailer dictionary.
pub uninterp spec fn pdf_trailer(doc: Document) -> PdfDict;

/// The PDF version the document declares.
pub uninterp spec fn pdf_version(doc: Document) -> Seq<char>;

/// The entries of a dictionary, in order.
pub uninterp spec fn dict_entries(d: Dictionary) -> PdfDict;

/// An entry of a stream dictionary, as the library reads it.
#[derive(Debug, PartialEq, Eq)]
pub enum DictEntry {
    /// The dictionary has no such key.
    Missing,
    Name(Vec<u8>),
    Integer(i64),
    /// An array, each element read as an `ArrayItem`.
    Array(Vec<ArrayItem>),
    /// Any other kind of value.
    Other,
}

/// An element of an array, as the library reads it.
#[derive(Debug, PartialEq, Eq)]
pub enum ArrayItem {
    Name(Vec<u8>),
    Reference(ObjId),
    /// Any other kind of value.
    Other,
}

/// `e` is how the library reads the array element `o`.
pub open spec fn item_matches(e: ArrayItem, o: PdfObject) -> bool {
    match e {
        ArrayItem::Name(n) => o == PdfObject::Name(n@),
        ArrayItem::Reference(id) => o == PdfObject::Reference(id.0, id.1),
        ArrayItem::Other => !(o is Name || o is Reference),
    }
}

/// `e` is how the library reads the dictionary value `o`.
pub open spec fn entry_matches(e: DictEntry, o: Option<PdfObject>) -> bool {
    match e {
        DictEntry::Missing => o is None,
        DictEntry::Name(n) => o == Some(PdfObject::Name(n@)),
        DictEntry::Integer(i) => o == Some(PdfObject::Integer(i)),
        DictEntry::Array(v) => match o {
            Some(PdfObject::Array(a)) => {
                &&& v@.len() == a.len()
                &&& forall|i: int| 0 <= i < a.len() ==> item_matches(#[trigger] v@[i], a[i])
            },
            _ => false,
        },
        DictEntry::Other => match o {
            Some(x) => !(x is Name || x is Integer || x is Array),
            None => false,
        },
    }
}

/// The view of optional bytes.
pub open spec fn bytes_view(b: Option<Vec<u8>>) -> Option<Seq<u8>> {
    match b {
        Some(v) => Some(v@),
        None => None,
    }
}

/// A simple value to store in a dictionary.
pub enum SimpleValue {
    Name(Vec<u8>),
    Integer(i64),
}

/// The object a simple value stands for.
pub open spec fn simple_object(v: SimpleValue) -> PdfObject {
    match v {
        SimpleValue::Name(n) => PdfObject::Name(n@),
        SimpleValue::Integer(i) => PdfObject::Integer(i),
    }
}

/// Object identifiers in increasing order: by number, then by generation.
pub open spec fn id_lt(a: ObjId, b: ObjId) -> bool {
    a.0 < b.0 || (a.0 == b.0 && a.1 < b.1)
}

/// The identifiers are in strictly increasing order.
pub open spec fn ids_sorted(s: Seq<ObjId>) -> bool {
    forall|i: int, j: int| 0 <= i < j < s.len() ==> id_lt(#[trigger] s[i], #[trigger] s[j])
}

/// `BTreeMap::keys` on `Document::objects`: the identifiers of all objects,
/// each once, in increasing order.
#[verifier::external_body]
pub(crate) fn object_ids(doc: &Document) -> (r: Vec<ObjId>)
    ensures
        r@.to_set() == pdf_objects(*doc).dom(),
        r@.no_duplicates(),
        ids_sorted(r@),
{
    doc.objects.keys().copied().collect()
}

/// `Dictionary::get` on the dictionary of the stream `id`, the value read as
/// a `DictEntry`; `None` when `id` is no stream of the document.
#[verifier::external_body]
pub(crate) fn stream_entry(doc: &Document, id: ObjId, key: &[u8]) -> (r: Option<DictEntry>)
    ensures
        match obj_at(pdf_objects(*doc), id) {
            Some(o) => if o is Stream {
                r is Some && entry_matches(r.unwrap(), dict_get(stream_dict(o), key@))
            } else {
                r is None
            },
            None => r is None,
        },
{
    let item = |o: &Object| match o {
        Object::Name(n) => ArrayItem::Name(n.clone()),
        Object::Reference(r) => ArrayItem::Reference(*r),
        _ => ArrayItem::Other,
    };
    Some(match doc.objects.get(&id)?.as_stream().ok()?.dict.get(key) {
        Ok(Object::Name(n)) => DictEntry::Name(n.clone()),
        Ok(Object::Integer(i)) => DictEntry::Integer(*i),
        Ok(Object::Array(a)) => DictEntry::Array(a.iter().map(item).collect()),
        Ok(_) => DictEntry::Other,
        Err(_) => DictEntry::Missing,
    })
}

/// What `Stream::decompressed_content` gives for a stream with dictionary
/// `dict` and content `content`: the content run through the decoders its
/// `/Filter` entry names (with the parameters of `/DecodeParms`), or `None`
/// when a decoder fails or is unknown.
pub uninterp spec fn decoded_content(dict: PdfDict, content: Seq<u8>) -> Option<Seq<u8>>;

/// A copy of the content of the stream `id`; `None` when `id` is no stream
/// of the document.
#[verifier::external_body]
pub(crate) fn stream_raw_content(doc: &Document, id: ObjId) -> (r: Option<Vec<u8>>)
    ensures
        match obj_at(pdf_objects(*doc), id) {
            Some(o) => if o is Stream {
                r is Some && r.unwrap()@ == stream_content(o)
            } else {
                r is None
            },
            None => r is None,
        },
{
    Some(doc.objects.get(&id)?.as_stream().ok()?.content.clone())
}

/// The dictionary names `/FlateDecode` as its one filter and has no
/// `/DecodeParms`.
pub open spec fn flate_only(d: PdfDict) -> bool {
    &&& dict_get(d, "Filter".spec_bytes()) == Some(PdfObject::Name("FlateDecode".spec_bytes()))
    &&& dict_get(d, "DecodeParms".spec_bytes()) is None
}

/// The dictionary with a `/Filter` that is a one-element array of a name
/// replaced by that name; any other dictionary as it is.
pub open spec fn decoding_dict(d: PdfDict) -> PdfDict {
    match dict_get(d, "Filter".spec_bytes()) {
        Some(PdfObject::Array(a)) => if a.len() == 1 && a[0] is Name {
            dict_set(d, "Filter".spec_bytes(), a[0])
        } else {
            d
        },
        _ => d,
    }
}

/// `Stream::decompressed_content` on the stream `id`, errors read as `None`;
/// `None` too when `id` is no stream of the document. It reads the filters
/// as a list of names (`Stream::filters`), so `/Filter /F` and `/Filter [/F]`
/// decode alike: the result is also what `decoding_dict` of the dictionary
/// gives.
#[verifier::external_body]
pub(crate) fn stream_decoded_content(doc: &Document, id: ObjId) -> (r: Option<Vec<u8>>)
    ensures
        match obj_at(pdf_objects(*doc), id) {
            Some(o) => if o is Stream {
                &&& bytes_view(r) == decoded_content(stream_dict(o), stream_content(o))
                &&& bytes_view(r) == decoded_content(decoding_dict(stream_dict(o)), stream_content(o))
            } else {
                r is None
            },
            None => r is None,
        },
{
    doc.objects.get(&id)?.as_stream().ok()?.decompressed_content().ok()
}

/// Assigns `content` to the `content` field of the stream `id`; nothing else
/// of the document changes.
#[verifier::external_body]
pub(crate) fn set_stream_content(doc: &mut Document, id: ObjId, content: Vec<u8>)
    requires
        obj_at(pdf_objects(*old(doc)), id) matches Some(o) && o is Stream,
    ensures
        pdf_objects(*final(doc)) == pdf_objects(*old(doc)).insert(
            id,
            with_content(pdf_objects(*old(doc))[id], content@),
        ),
        pdf_trailer(*final(doc)) == pdf_trailer(*old(doc)),
        pdf_max_id(*final(doc)) == pdf_max_id(*old(doc)),
        pdf_version(*final(doc)) == pdf_version(*old(doc)),
{
    if let Some(Object::Stream(s)) = doc.objects.get_mut(&id) {
        s.content = content;
    }
}

/// `Dictionary::set` on the dictionary of the stream `id`: an existing entry
/// keeps its place and takes the value, a new one goes last; nothing else of
/// the document changes.
#[verifier::external_body]
pub(crate) fn set_stream_entry(doc: &mut Document, id: ObjId, key: &[u8], value: SimpleValue)
    requires
        obj_at(pdf_objects(*old(doc)), id) matches Some(o) && o is Stream,
    ensures
        pdf_objects(*final(doc)) == pdf_objects(*old(doc)).insert(
            id,
            with_entry(pdf_objects(*old(doc))[id], key@, simple_object(value)),
        ),
        pdf_trailer(*final(doc)) == pdf_trailer(*old(doc)),
        pdf_max_id(*final(doc)) == pdf_max_id(*old(doc)),
        pdf_version(*final(doc)) == pdf_version(*old(doc)),
{
    if let Some(Object::Stream(s)) = doc.objects.get_mut(&id) {
        s.dict.set(
            key.to_vec(),
            match value {
                SimpleValue::Name(n) => Object::Name(n),
                SimpleValue::Integer(i) => Object::Integer(i),
            },
        );
    }
}

/// A value to store in a dictionary or an array.
pub enum Scalar {
    Integer(i64),
    Name(Vec<u8>),
    Reference(ObjId),
}

/// The object a scalar stands for.
pub open spec fn scalar_object(v: Scalar) -> PdfObject {
    match v {
        Scalar::Integer(i) => PdfObject::Integer(i),
        Scalar::Name(n) => PdfObject::Name(n@),
        Scalar::Reference(id) => PdfObject::Reference(id.0, id.1),
    }
}

/// The objects a sequence of scalars stands for.
pub open spec fn scalar_objects(v: Seq<Scalar>) -> Seq<PdfObject> {
    v.map_values(|x: Scalar| scalar_object(x))
}

/// `Document::with_version`: a document with no objects and an empty trailer.
#[verifier::external_body]
pub(crate) fn new_document(version: &str) -> (r: Document)
    ensures
        pdf_objects(r).dom().is_empty(),
        pdf_max_id(r) == 0,
        pdf_trailer(r).len() == 0,
        pdf_version(r) == version@,
{
    Document::with_version(version)
}

/// `Document::new_object_id`: the next object number, with generation 0.
#[verifier::external_body]
pub(crate) fn new_object_id(doc: &mut Document) -> (r: ObjId)
    requires
        pdf_max_id(*old(doc)) < u32::MAX,
    ensures
        pdf_max_id(*final(doc)) == pdf_max_id(*old(doc)) + 1,
        r == (pdf_max_id(*final(doc)), 0u16),
        pdf_objects(*final(doc)) == pdf_objects(*old(doc)),
        pdf_trailer(*final(doc)) == pdf_trailer(*old(doc)),
        pdf_version(*final(doc)) == pdf_version(*old(doc)),
{
    doc.new_object_id()
}

/// `Dictionary::new`.
#[verifier::external_body]
pub(crate) fn dict_new() -> (r: Dictionary)
    ensures
        dict_entries(r).len() == 0,
{
    Dictionary::new()
}

/// A value to set in a dictionary: a scalar, an array of scalars, or a
/// dictionary.
pub enum DictValue {
    Scalar(Scalar),
    Array(Vec<Scalar>),
    Dictionary(Dictionary),
}

/// The object a dictionary value stands for.
pub open spec fn value_object(v: DictValue) -> PdfObject {
    match v {
        DictValue::Scalar(x) => scalar_object(x),
        DictValue::Array(a) => PdfObject::Array(scalar_objects(a@)),
        DictValue::Dictionary(d) => PdfObject::Dictionary(dict_entries(d)),
    }
}

/// `Dictionary::set`: an existing entry keeps its place and takes the
/// value, a new one goes last.
#[verifier::external_body]
pub(crate) fn dict_insert(d: &mut Dictionary, key: &str, v: DictValue)
    ensures
        dict_entries(*final(d)) == dict_set(dict_entries(*old(d)), key.spec_bytes(), value_object(v)),
{
    let scalar = |x: Scalar| match x {
        Scalar::Integer(i) => Object::Integer(i),
        Scalar::Name(n) => Object::Name(n),
        Scalar::Reference(id) => Object::Reference(id),
    };
    let value = match v {
        DictValue::Scalar(x) => scalar(x),
        DictValue::Array(a) => Object::Array(a.into_iter().map(scalar).collect()),
        DictValue::Dictionary(x) => Object::Dictionary(x),
    };
    d.set(key, value);
}

/// An object to add to a document: a dictionary, or a stream made by
/// `Stream::new` from a dictionary and a content.
pub enum NewObject {
    Dictionary(Dictionary),
    Stream(Dictionary, Vec<u8>),
}

/// The object that `NewObject` stands for; `Stream::new` sets `/Length` to
/// the length of the content and allows compression.
pub open spec fn new_object(v: NewObject) -> PdfObject {
    match v {
        NewObject::Dictionary(d) => PdfObject::Dictionary(dict_entries(d)),
        NewObject::Stream(d, c) => PdfObject::Stream {
            dict: dict_set(dict_entries(d), "Length".spec_bytes(), PdfObject::Integer(c@.len() as i64)),
            content: c@,
            allows_compression: true,
        },
    }
}

/// `Document::add_object`: the object goes under the next object number.
#[verifier::external_body]
pub(crate) fn add_object(doc: &mut Document, v: NewObject) -> (r: ObjId)
    requires
        pdf_max_id(*old(doc)) < u32::MAX,
    ensures
        pdf_max_id(*final(doc)) == pdf_max_id(*old(doc)) + 1,
        r == (pdf_max_id(*final(doc)), 0u16),
        pdf_objects(*final(doc)) == pdf_objects(*old(doc)).insert(r, new_object(v)),
        pdf_trailer(*final(doc)) == pdf_trailer(*old(doc)),
        pdf_version(*final(doc)) == pdf_version(*old(doc)),
{
    match v {
        NewObject::Dictionary(d) => doc.add_object(d),
        NewObject::Stream(d, c) => doc.add_object(Stream::new(d, c)),
    }
}

/// `BTreeMap::insert` of a dictionary into `Document::objects`.
#[verifier::external_body]
pub(crate) fn set_dict_object(doc: &mut Document, id: ObjId, d: Dictionary)
    ensures
        pdf_objects(*final(doc)) == pdf_objects(*old(doc)).insert(
            id,
            PdfObject::Dictionary(dict_entries(d)),
        ),
        pdf_max_id(*final(doc)) == pdf_max_id(*old(doc)),
        pdf_trailer(*final(doc)) == pdf_trailer(*old(doc)),
        pdf_version(*final(doc)) == pdf_version(*old(doc)),
{
    doc.objects.insert(id, Object::Dictionary(d));
}

/// `Dictionary::set` on the trailer with a scalar value.
#[verifier::external_body]
pub(crate) fn set_trailer_entry(doc: &mut Document, key: &str, v: Scalar)
    ensures
        pdf_trailer(*final(doc)) == dict_set(pdf_trailer(*old(doc)), key.spec_bytes(), scalar_object(v)),
        pdf_objects(*final(doc)) == pdf_objects(*old(doc)),
        pdf_max_id(*final(doc)) == pdf_max_id(*old(doc)),
        pdf_version(*final(doc)) == pdf_version(*old(doc)),
{
    doc.trailer.set(
        key,
        match v {
            Scalar::Integer(i) => Object::Integer(i),
            Scalar::Name(n) => Object::Name(n),
            Scalar::Reference(id) => Object::Reference(id),
        },
    );
}

/// The zlib form of `content` at the best compression level (what lopdf's
/// `zlib_compress` at level 9 and a `flate2::write::ZlibEncoder` at
/// `Compression::best()` both write), or `None` when writing fails.
pub uninterp spec fn zlib_compressed(content: Seq<u8>) -> Option<Seq<u8>>;

/// What `Stream::compress` makes of a stream: a stream without `/Filter`
/// whose zlib form is more than 19 bytes shorter gets `/Filter
/// /FlateDecode`, that content and its `/Length`; any other stays as it is.
pub open spec fn flate_compressed(o: PdfObject) -> PdfObject {
    match o {
        PdfObject::Stream { dict, content, allows_compression } => {
            if dict_get(dict, "Filter".spec_bytes()) is None {
                match zlib_compressed(content) {
                    Some(c) => if c.len() + 19 < content.len() {
                        PdfObject::Stream {
                            dict: dict_set(
                                dict_set(dict, "Filter".spec_bytes(), PdfObject::Name("FlateDecode".spec_bytes())),
                                "Length".spec_bytes(),
                                PdfObject::Integer(c.len() as i64),
                            ),
                            content: c,
                            allows_compression,
                        }
                    } else {
                        o
                    },
                    None => o,
                }
            } else {
                o
            }
        },
        _ => o,
    }
}

/// A content-stream operation: an operator and its operands.
pub struct ContentOp {
    pub operator: String,
    pub operands: Vec<Scalar>,
}

/// The operations, as operator names and operand objects.
pub open spec fn content_ops(ops: Seq<ContentOp>) -> Seq<(Seq<char>, Seq<PdfObject>)> {
    ops.map_values(|op: ContentOp| (op.operator@, scalar_objects(op.operands@)))
}

/// What `Content::encode` writes for the operations, or `None` when it fails.
pub uninterp spec fn encoded_content(ops: Seq<(Seq<char>, Seq<PdfObject>)>) -> Option<Seq<u8>>;

/// `Content::encode` of the operations. It writes into a `Vec`, which does
/// not fail, and integers, names and references always write, so there
/// always is a result.
#[verifier::external_body]
pub(crate) fn encode_content(ops: Vec<ContentOp>) -> (r: Option<Vec<u8>>)
    ensures
        r is Some,
        bytes_view(r) == encoded_content(content_ops(ops@)),
{
    let operations: Vec<Operation> = ops.into_iter().map(|op| {
        let operands = op.operands.into_iter().map(|x| match x {
            Scalar::Integer(i) => Object::Integer(i),
            Scalar::Name(n) => Object::Name(n),
            Scalar::Reference(id) => Object::Reference(id),
        }).collect();
        Operation::new(&op.operator, operands)
    }).collect();
    Content { operations }.encode().ok()
}

/// The stream objects of a map whose content is empty.
pub open spec fn empty_streams(m: Map<ObjId, PdfObject>) -> Set<ObjId> {
    Set::new(|id: ObjId| m.dom().contains(id) && m[id] is Stream && stream_content(m[id]).len() == 0)
}

/// The position of the first element of `a` that is a reference to `x`.
pub open spec fn first_ref_index(a: Seq<PdfObject>, x: ObjId) -> Option<int>
    decreases a.len(),
{
    if a.len() == 0 {
        None
    } else {
        match first_ref_index(a.drop_last(), x) {
            Some(i) => Some(i),
            None => if a.last() == PdfObject::Reference(x.0, x.1) {
                Some(a.len() - 1)
            } else {
                None
            },
        }
    }
}

/// `a` without its first reference to `x` (`Vec::remove`), if it has one.
pub open spec fn without_first_ref(a: Seq<PdfObject>, x: ObjId) -> Seq<PdfObject> {
    match first_ref_index(a, x) {
        Some(i) => a.remove(i),
        None => a,
    }
}

/// The keys of `d` whose value is a reference to `x`, in order.
pub open spec fn ref_keys(d: PdfDict, x: ObjId) -> Seq<Seq<u8>>
    decreases d.len(),
{
    if d.len() == 0 {
        Seq::empty()
    } else {
        let k = ref_keys(d.drop_last(), x);
        if d.last().1 == PdfObject::Reference(x.0, x.1) {
            k.push(d.last().0)
        } else {
            k
        }
    }
}

/// `d` with each of `keys` removed in turn (`Dictionary::remove`).
pub open spec fn remove_keys(d: PdfDict, keys: Seq<Seq<u8>>) -> PdfDict
    decreases keys.len(),
{
    if keys.len() == 0 {
        d
    } else {
        dict_remove(remove_keys(d, keys.drop_last()), keys.last())
    }
}

/// What deleting the object `x` makes of an object that lopdf's walk
/// reaches: an array loses its first reference to `x`, a dictionary every
/// entry whose value is a reference to `x`, and so on inside their values
/// (and inside a stream's dictionary); other values stay.
pub open spec fn drop_ref(o: PdfObject, x: ObjId) -> PdfObject
    decreases o,
{
    match o {
        PdfObject::Array(a) => PdfObject::Array(without_first_ref(drop_ref_items(a, x), x)),
        PdfObject::Dictionary(d) => {
            let m = drop_ref_values(d, x);
            PdfObject::Dictionary(remove_keys(m, ref_keys(m, x)))
        },
        PdfObject::Stream { dict, content, allows_compression } => PdfObject::Stream {
            dict: drop_ref_values(dict, x),
            content,
            allows_compression,
        },
        _ => o,
    }
}

/// `drop_ref` of each element.
pub open spec fn drop_ref_items(a: Seq<PdfObject>, x: ObjId) -> Seq<PdfObject>
    decreases a,
{
    if a.len() == 0 {
        a
    } else {
        let init = a.subrange(0, a.len() - 1);
        proof {
            assert(decreases_to!(a => init));
        }
        drop_ref_items(init, x).push(drop_ref(a[a.len() - 1], x))
    }
}

/// `drop_ref` of each value, the keys staying in their places.
pub open spec fn drop_ref_values(d: PdfDict, x: ObjId) -> PdfDict
    decreases d,
{
    if d.len() == 0 {
        d
    } else {
        let init = d.subrange(0, d.len() - 1);
        let e = d[d.len() - 1];
        proof {
            assert(decreases_to!(d => init));
            assert(decreases_to!(d => e));
        }
        drop_ref_values(init, x).push((e.0, drop_ref(e.1, x)))
    }
}

/// The trailer after deleting the objects `xs` in turn: lopdf's walk
/// changes the values of its entries as `drop_ref` does, but does not remove
/// its entries.
pub open spec fn trailer_after_deletes(t: PdfDict, xs: Seq<ObjId>) -> PdfDict
    decreases xs.len(),
{
    if xs.len() == 0 {
        t
    } else {
        drop_ref_values(trailer_after_deletes(t, xs.drop_last()), xs.last())
    }
}

/// An object after deleting the objects `xs` in turn, where `reached[k]`
/// tells whether lopdf's walk from the trailer reached it when deleting
/// `xs[k]`.
pub open spec fn object_after_deletes(o: PdfObject, xs: Seq<ObjId>, reached: Seq<bool>) -> PdfObject
    decreases xs.len(),
{
    if xs.len() == 0 || reached.len() != xs.len() {
        o
    } else {
        let p = object_after_deletes(o, xs.drop_last(), reached.drop_last());
        if reached.last() {
            drop_ref(p, xs.last())
        } else {
            p
        }
    }
}

/// `Document::delete_zero_length_streams`: removes the streams whose content
/// is empty and returns their identifiers.
///
/// Each stream is deleted in turn (`Document::delete_object`), in the order
/// returned. Deleting one walks the objects reachable from the trailer and
/// changes each object it reaches, and the values of the trailer's entries,
/// as `drop_ref` says. Which objects the walk reaches is not said here: of
/// each remaining object it is said that it is what some choice of reached
/// or not, for each deletion, makes of it. So every other object keeps its
/// identifier and its kind, a stream keeps its content and whether it may
/// be compressed, and a stream's `/Filter` that is missing or a name stays
/// so.
#[verifier::external_body]
pub(crate) fn delete_zero_length_streams(doc: &mut Document) -> (r: Vec<ObjId>)
    ensures
        r@.to_set() == empty_streams(pdf_objects(*old(doc))),
        r@.no_duplicates(),
        pdf_objects(*final(doc)).dom() == pdf_objects(*old(doc)).dom().difference(r@.to_set()),
        pdf_trailer(*final(doc)) == trailer_after_deletes(pdf_trailer(*old(doc)), r@),
        forall|id: ObjId|
            #![trigger pdf_objects(*final(doc))[id]]
            pdf_objects(*final(doc)).dom().contains(id) ==> exists|reached: Seq<bool>|
                reached.len() == r@.len() && pdf_objects(*final(doc))[id] == object_after_deletes(
                    pdf_objects(*old(doc))[id],
                    r@,
                    reached,
                ),
        forall|id: ObjId|
            #![trigger pdf_objects(*final(doc))[id]]
            pdf_objects(*final(doc)).dom().contains(id) ==> {
                &&& (pdf_objects(*final(doc))[id] is Stream <==> pdf_objects(*old(doc))[id] is Stream)
                &&& stream_content(pdf_objects(*final(doc))[id]) == stream_content(
                    pdf_objects(*old(doc))[id],
                )
                &&& stream_allows_compression(pdf_objects(*final(doc))[id])
                    == stream_allows_compression(pdf_objects(*old(doc))[id])
                &&& (plain_filter(pdf_objects(*old(doc))[id]) ==> crate::pdf::model::stream_entry(
                    pdf_objects(*final(doc))[id],
                    "Filter",
                ) == crate::pdf::model::stream_entry(pdf_objects(*old(doc))[id], "Filter"))
            },
        pdf_max_id(*final(doc)) == pdf_max_id(*old(doc)),
        pdf_version(*final(doc)) == pdf_version(*old(doc)),
{
    doc.delete_zero_length_streams()
}

/// The stream's `/Filter` is missing or a name.
pub open spec fn plain_filter(o: PdfObject) -> bool {
    let f = crate::pdf::model::stream_entry(o, "Filter");
    f is None || f matches Some(PdfObject::Name(_))
}

/// The object after `Document::compress`: a stream that allows compression
/// is Flate-compressed as `Stream::compress` does it; any other object stays.
pub open spec fn document_compressed(o: PdfObject) -> PdfObject {
    match o {
        PdfObject::Stream { allows_compression, .. } => if allows_compression {
            flate_compressed(o)
        } else {
            o
        },
        _ => o,
    }
}

/// `Document::compress`: every stream that allows compression goes through
/// `Stream::compress`, errors ignored. A stream that held content still
/// does: zlib output is never empty (it starts with a two-byte header).
#[verifier::external_body]
pub(crate) fn compress_document(doc: &mut Document)
    ensures
        pdf_objects(*final(doc)).dom() == pdf_objects(*old(doc)).dom(),
        forall|id: ObjId|
            #![trigger pdf_objects(*final(doc))[id]]
            pdf_objects(*old(doc)).dom().contains(id) ==> pdf_objects(*final(doc))[id]
                == document_compressed(pdf_objects(*old(doc))[id]),
        forall|id: ObjId|
            #![trigger pdf_objects(*final(doc))[id]]
            pdf_objects(*old(doc)).dom().contains(id) && stream_content(pdf_objects(*old(doc))[id]).len()
                > 0 ==> stream_content(pdf_objects(*final(doc))[id]).len() > 0,
        pdf_trailer(*final(doc)) == pdf_trailer(*old(doc)),
        pdf_max_id(*final(doc)) == pdf_max_id(*old(doc)),
        pdf_version(*final(doc)) == pdf_version(*old(doc)),
{
    doc.compress();
}

/// `BTreeMap::len` of `Document::objects`.
#[verifier::external_body]
pub(crate) fn object_count(doc: &Document) -> (r: usize)
    ensures
        r == pdf_objects(*doc).dom().len(),
{
    doc.objects.len()
}

/// What `Document::renumber_objects_with(start)` makes of a document with
/// these objects and this trailer: its objects, its trailer and its
/// `max_id`.
pub uninterp spec fn renumbering(objects: Map<ObjId, PdfObject>, trailer: PdfDict, start: u32) -> (
    Map<ObjId, PdfObject>,
    PdfDict,
    u32,
);

/// Renumbering these objects only moves them: every object and every page
/// that the page walk lists has generation 0, and the walk lists no page
/// twice.
pub open spec fn simple_renumbering(m: Map<ObjId, PdfObject>, pages: Seq<ObjId>) -> bool {
    &&& forall|id: ObjId| #[trigger] m.dom().contains(id) ==> id.1 == 0
    &&& forall|i: int| 0 <= i < pages.len() ==> (#[trigger] pages[i]).1 == 0
    &&& pages.no_duplicates()
}

/// Two objects of the same kind: both dictionaries or neither, declaring the
/// same type.
pub open spec fn same_kind(a: PdfObject, b: PdfObject) -> bool {
    &&& declared_type(a) == declared_type(b)
    &&& (a is Dictionary <==> b is Dictionary)
}

/// `Document::renumber_objects_with(start)`: the objects are numbered anew
/// from `start` on, in increasing order of their old identifiers (the pages
/// first put in page order), and references follow; `max_id` becomes the
/// last number given out, so every object number lies between `start` and
/// it.
///
/// Objects are moved to their new numbers; only references in them change
/// (and only in objects reachable from the trailer), so each keeps its kind
/// and type. When the renumbering is simple (see `simple_renumbering`) no
/// two objects are moved to the same number, so every object is still
/// there. Otherwise, moving pages to other numbers with their old
/// generation may put one object in another's place, and what is lost then
/// is not said here; nor is how references are renamed.
#[verifier::external_body]
pub(crate) fn renumber_objects_with(doc: &mut Document, start: u32)
    requires
        start >= 1,
        start + pdf_objects(*old(doc)).dom().len() <= u32::MAX,
    ensures
        (pdf_objects(*final(doc)), pdf_trailer(*final(doc)), pdf_max_id(*final(doc))) == renumbering(
            pdf_objects(*old(doc)),
            pdf_trailer(*old(doc)),
            start,
        ),
        pdf_max_id(*final(doc)) + 1 >= start,
        pdf_max_id(*final(doc)) + 1 <= start + pdf_objects(*old(doc)).dom().len(),
        forall|id: ObjId|
            #[trigger] pdf_objects(*final(doc)).dom().contains(id) ==> start <= id.0 <= pdf_max_id(
                *final(doc),
            ),
        pdf_objects(*final(doc)).dom().len() <= pdf_objects(*old(doc)).dom().len(),
        pdf_version(*final(doc)) == pdf_version(*old(doc)),
        simple_renumbering(pdf_objects(*old(doc)), page_order(pdf_objects(*old(doc)), pdf_trailer(*old(doc))))
            ==> forall|id: ObjId| #[trigger]
            pdf_objects(*old(doc)).dom().contains(id) ==> exists|nid: ObjId|
                pdf_objects(*final(doc)).dom().contains(nid) && same_kind(
                    #[trigger] pdf_objects(*final(doc))[nid],
                    pdf_objects(*old(doc))[id],
                ),
{
    doc.renumber_objects_with(start);
}

/// Assigns `n` to `Document::max_id`; nothing else of the document
/// changes.
#[verifier::external_body]
pub(crate) fn set_max_id(doc: &mut Document, n: u32)
    ensures
        pdf_max_id(*final(doc)) == n,
        pdf_objects(*final(doc)) == pdf_objects(*old(doc)),
        pdf_trailer(*final(doc)) == pdf_trailer(*old(doc)),
        pdf_version(*final(doc)) == pdf_version(*old(doc)),
{
    doc.max_id = n;
}

/// `Document::max_id`.
#[verifier::external_body]
pub(crate) fn max_id(doc: &Document) -> (r: u32)
    ensures
        r == pdf_max_id(*doc),
{
    doc.max_id
}

/// The pages of a document with these objects and this trailer, in the
/// order `Document::page_iter` walks the page tree from the catalog.
pub uninterp spec fn page_order(objects: Map<ObjId, PdfObject>, trailer: PdfDict) -> Seq<ObjId>;

/// `Document::get_pages`, its page identifiers in page order. A page tree
/// may list identifiers of objects the document does not hold.
#[verifier::external_body]
pub(crate) fn page_ids(doc: &Document) -> (r: Vec<ObjId>)
    ensures
        r@ == page_order(pdf_objects(*doc), pdf_trailer(*doc)),
{
    doc.get_pages().into_values().collect()
}

/// `BTreeMap::contains_key` on `Document::objects`.
#[verifier::external_body]
pub(crate) fn contains_object(doc: &Document, id: ObjId) -> (r: bool)
    ensures
        r == pdf_objects(*doc).dom().contains(id),
{
    doc.objects.contains_key(&id)
}

/// The type a dictionary declares: its `/Type` name, or `Linearized` when
/// it has a `/Linearized` entry instead.
pub open spec fn dict_type(d: PdfDict) -> Option<Seq<u8>> {
    match dict_get(d, "Type".spec_bytes()) {
        Some(PdfObject::Name(n)) => Some(n),
        _ => if dict_get(d, "Linearized".spec_bytes()) is Some {
            Some("Linearized".spec_bytes())
        } else {
            None
        },
    }
}

/// The type of a dictionary, or of a stream's dictionary; other objects
/// have none.
pub open spec fn declared_type(o: PdfObject) -> Option<Seq<u8>> {
    match o {
        PdfObject::Dictionary(d) => dict_type(d),
        PdfObject::Stream { dict, .. } => dict_type(dict),
        _ => None,
    }
}

/// `Dictionary::get_type` of the object `id` (which the document holds),
/// when it is a dictionary or a stream.
#[verifier::external_body]
pub(crate) fn object_type(doc: &Document, id: ObjId) -> (r: Option<Vec<u8>>)
    requires
        pdf_objects(*doc).dom().contains(id),
    ensures
        bytes_view(r) == declared_type(pdf_objects(*doc)[id]),
{
    let t = match doc.objects.get(&id)? {
        Object::Dictionary(d) => d.get_type(),
        Object::Stream(s) => s.dict.get_type(),
        _ => return None,
    };
    t.ok().map(|t| t.to_vec())
}

/// `BTreeMap::insert` into `dst` of a clone of the object `id` of `src`.
#[verifier::external_body]
pub(crate) fn copy_object(dst: &mut Document, src: &Document, id: ObjId)
    requires
        pdf_objects(*src).dom().contains(id),
    ensures
        pdf_objects(*final(dst)) == pdf_objects(*old(dst)).insert(id, pdf_objects(*src)[id]),
        pdf_trailer(*final(dst)) == pdf_trailer(*old(dst)),
        pdf_max_id(*final(dst)) == pdf_max_id(*old(dst)),
        pdf_version(*final(dst)) == pdf_version(*old(dst)),
{
    if let Some(o) = src.objects.get(&id) {
        dst.objects.insert(id, o.clone());
    }
}

/// `Object::as_dict` on the object `id`, cloned; `None` when it is no
/// dictionary.
#[verifier::external_body]
pub(crate) fn object_dict(doc: &Document, id: ObjId) -> (r: Option<Dictionary>)
    requires
        pdf_objects(*doc).dom().contains(id),
    ensures
        match pdf_objects(*doc)[id] {
            PdfObject::Dictionary(d) => r matches Some(x) && dict_entries(x) == d,
            _ => r is None,
        },
{
    doc.objects.get(&id)?.as_dict().ok().cloned()
}

/// What `Dictionary::extend(other)` makes of a dictionary: the entries of
/// `other` are taken in order; one under a new key is added last, and one
/// under a key the dictionary has already combines with the value there
/// (see `combined`), which keeps its place.
pub open spec fn extended(d: PdfDict, other: PdfDict) -> PdfDict
    decreases other,
{
    if other.len() == 0 {
        d
    } else {
        let init = other.subrange(0, other.len() - 1);
        let e = other[other.len() - 1];
        proof {
            assert(decreases_to!(other => init));
            assert(decreases_to!(other => e));
        }
        let acc = extended(d, init);
        match dict_get(acc, e.0) {
            None => dict_set(acc, e.0, e.1),
            Some(old) => dict_set(acc, e.0, combined(old, e.1)),
        }
    }
}

/// How `Dictionary::extend` combines the value `old` a dictionary has with
/// the value `new` the other one has under the same key: two dictionaries
/// are extended, two arrays joined, two integers, reals, strings or
/// references gathered into an array (old first); a null, boolean, name or
/// stream stays; otherwise both go into an array, prepended to `new` when it
/// is an array.
pub open spec fn combined(old: PdfObject, new: PdfObject) -> PdfObject
    decreases new,
{
    match (old, new) {
        (PdfObject::Dictionary(od), PdfObject::Dictionary(nd)) => PdfObject::Dictionary(
            extended(od, nd),
        ),
        (PdfObject::Array(oa), PdfObject::Array(na)) => PdfObject::Array(oa + na),
        (PdfObject::Integer(_), PdfObject::Integer(_)) | (PdfObject::Real(_), PdfObject::Real(_)) | (
            PdfObject::Text(_, _),
            PdfObject::Text(_, _),
        ) | (PdfObject::Reference(_, _), PdfObject::Reference(_, _)) => PdfObject::Array(
            seq![old, new],
        ),
        (PdfObject::Null, _) | (PdfObject::Boolean(_), _) | (PdfObject::Name(_), _) | (
            PdfObject::Stream { .. },
            _,
        ) => old,
        (_, PdfObject::Array(na)) => PdfObject::Array(seq![old] + na),
        (_, _) => PdfObject::Array(seq![new, old]),
    }
}

/// `Dictionary::extend`.
#[verifier::external_body]
pub(crate) fn dict_extend(d: &mut Dictionary, other: &Dictionary)
    ensures
        dict_entries(*final(d)) == extended(dict_entries(*old(d)), dict_entries(*other)),
{
    d.extend(other);
}

/// What `Dictionary::remove` makes of a dictionary (`IndexMap::swap_remove`):
/// the entry for `key` is replaced by the last entry, which is dropped.
pub open spec fn dict_remove(d: PdfDict, key: Seq<u8>) -> PdfDict {
    match crate::pdf::model::dict_index(d, key) {
        Some(i) => d.update(i, d.last()).drop_last(),
        None => d,
    }
}

/// `Dictionary::remove`.
#[verifier::external_body]
pub(crate) fn dict_remove_key(d: &mut Dictionary, key: &str)
    ensures
        dict_entries(*final(d)) == dict_remove(dict_entries(*old(d)), key.spec_bytes()),
{
    d.remove(key.as_bytes());
}

// ---------------------------------------------------------------------------
// Reading and writing.

/// What `Document::load_mem` parses from `data`: the objects, the trailer,
/// `max_id` and the version; `None` when it fails.
pub uninterp spec fn parsed_document(data: Seq<u8>) -> Option<
    (Map<ObjId, PdfObject>, PdfDict, u32, Seq<char>),
>;

/// `Document::load_mem`, errors read as `None`.
#[verifier::external_body]
pub(crate) fn load_document(data: &[u8]) -> (r: Option<Document>)
    ensures
        match r {
            Some(d) => parsed_document(data@) == Some(
                (pdf_objects(d), pdf_trailer(d), pdf_max_id(d), pdf_version(d)),
            ),
            None => parsed_document(data@) is None,
        },
{
    Document::load_mem(data).ok()
}

/// The view of written bytes, or of an error's text.
pub open spec fn written_view(r: Result<Vec<u8>, String>) -> Result<Seq<u8>, Seq<char>> {
    match r {
        Ok(b) => Ok(b@),
        Err(m) => Err(m@),
    }
}

/// The binary mark the document writes after its header
/// (`Document::binary_mark`).
pub uninterp spec fn pdf_binary_mark(doc: Document) -> Seq<u8>;

/// Whether the document's cross-reference data is kept as a stream
/// (`Document::reference_table`'s type).
pub uninterp spec fn pdf_xref_streams(doc: Document) -> bool;

/// The bytes `Document::save_with_options` writes for a document with these
/// objects, trailer, `max_id`, version, binary mark and cross-reference type,
/// with object streams (`object_streams`, at most `per_stream` objects each,
/// compressed at `level`) and cross-reference streams (`xref_streams`) as
/// asked; or, when it fails, the text of its error (`Display`).
pub uninterp spec fn serialized_with_options(
    objects: Map<ObjId, PdfObject>,
    trailer: PdfDict,
    max_id: u32,
    version: Seq<char>,
    binary_mark: Seq<u8>,
    doc_xref_streams: bool,
    object_streams: bool,
    xref_streams: bool,
    per_stream: usize,
    level: u32,
) -> Result<Seq<u8>, Seq<char>>;

/// `Document::save_with_options` into a fresh buffer, on a clone of the
/// document (saving changes the saved document's trailer, version and
/// `max_id`; the clone takes those changes).
#[verifier::external_body]
pub(crate) fn save_with_options_to_vec(
    doc: &Document,
    object_streams: bool,
    xref_streams: bool,
    per_stream: usize,
    level: u32,
) -> (r: Result<Vec<u8>, String>)
    ensures
        written_view(r) == serialized_with_options(
            pdf_objects(*doc),
            pdf_trailer(*doc),
            pdf_max_id(*doc),
            pdf_version(*doc),
            pdf_binary_mark(*doc),
            pdf_xref_streams(*doc),
            object_streams,
            xref_streams,
            per_stream,
            level,
        ),
{
    let options = SaveOptions::builder().use_object_streams(object_streams).use_xref_streams(
        xref_streams,
    ).max_objects_per_stream(per_stream).compression_level(level).build();
    let mut buf: Vec<u8> = Vec::new();
    doc.clone().save_with_options(&mut buf, options).map_err(|e| e.to_string())?;
    Ok(buf)
}

/// The bytes `Document::save_to` writes for a document with these objects,
/// trailer, `max_id`, version, binary mark and cross-reference type; or,
/// when it fails, the text of its error (`Display`).
pub uninterp spec fn serialized(
    objects: Map<ObjId, PdfObject>,
    trailer: PdfDict,
    max_id: u32,
    version: Seq<char>,
    binary_mark: Seq<u8>,
    doc_xref_streams: bool,
) -> Result<Seq<u8>, Seq<char>>;

/// `Document::save_to` into a fresh buffer, on a clone of the document.
#[verifier::external_body]
pub(crate) fn save_to_vec(doc: &Document) -> (r: Result<Vec<u8>, String>)
    ensures
        written_view(r) == serialized(
            pdf_objects(*doc),
            pdf_trailer(*doc),
            pdf_max_id(*doc),
            pdf_version(*doc),
            pdf_binary_mark(*doc),
            pdf_xref_streams(*doc),
        ),
{
    let mut buf: Vec<u8> = Vec::new();
    doc.clone().save_to(&mut buf).map_err(|e| e.to_string())?;
    Ok(buf)
}

} // verus!
