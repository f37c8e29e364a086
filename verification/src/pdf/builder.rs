//! A one-page document that shows a picture.
//!
//! The page is as large as the picture (one point per pixel) and its content
//! draws the picture over the whole page. The picture is an RGB image
//! XObject compressed with Flate; an alpha channel, when the picture has one,
//! becomes a grey soft mask. The media box and the resources sit on the page
//! itself, so that a merge keeps them.
use crate::cli::path::{extension, extension_or_empty};
use crate::pdf::flate_api::zlib_encode;
use crate::pdf::image_api::{decode_rgba, decoded_rgba};
use crate::pdf::lopdf_api::{
    add_object, decoded_content, dict_entries, dict_new, dict_insert,
    encode_content, encoded_content, flate_only, new_document, new_object_id, pdf_max_id,
    pdf_objects, pdf_trailer, pdf_version, scalar_object, scalar_objects, set_dict_object,
    set_trailer_entry, zlib_compressed, ContentOp, DictValue, NewObject, Scalar,
};
use crate::pdf::model::{
    dict_get, dict_set, lemma_dict_get_set, lemma_names_differ, lemma_names_differ_in_length, stream_entry, name, root_page_tree,
    stream_content, stream_dict,
    ObjId, PdfDict, PdfObject,
};
use lopdf::{Dictionary, Document};
use vstd::prelude::*;
use vstd::string::StringSliceAdditionalSpecFns;

verus! {

/// Why no document could be built.
#[derive(Debug, PartialEq, Eq)]
pub enum BuildError {
    /// The data decodes to no picture.
    Undecodable,
}

/// The RGB samples of RGBA samples: the alpha of each pixel dropped.
pub open spec fn rgb_samples(rgba: Seq<u8>) -> Seq<u8> {
    Seq::new(3 * (rgba.len() / 4), |i: int| rgba[(i / 3) * 4 + i % 3])
}

/// The alpha samples of RGBA samples, one per pixel.
pub open spec fn alpha_samples(rgba: Seq<u8>) -> Seq<u8> {
    Seq::new(rgba.len() / 4, |i: int| rgba[4 * i + 3])
}

/// The dictionary of an 8-bit image XObject of the given size and colour
/// space.
pub open spec fn xobject_dict(w: u32, h: u32, color_space: &str) -> PdfDict {
    let d = dict_set(Seq::empty(), "Type".spec_bytes(), name("XObject"));
    let d = dict_set(d, "Subtype".spec_bytes(), name("Image"));
    let d = dict_set(d, "Width".spec_bytes(), PdfObject::Integer(w as i64));
    let d = dict_set(d, "Height".spec_bytes(), PdfObject::Integer(h as i64));
    let d = dict_set(d, "ColorSpace".spec_bytes(), name(color_space));
    dict_set(d, "BitsPerComponent".spec_bytes(), PdfObject::Integer(8))
}

/// A reference to an object.
pub open spec fn reference(id: ObjId) -> PdfObject {
    PdfObject::Reference(id.0, id.1)
}

/// The page: its parent, a media box of the picture's size, its content and
/// the picture as resource `/Im0`.
pub open spec fn page_dict(pages: ObjId, w: u32, h: u32, content: ObjId, image: ObjId) -> PdfDict {
    let d = dict_set(Seq::empty(), "Type".spec_bytes(), name("Page"));
    let d = dict_set(d, "Parent".spec_bytes(), reference(pages));
    let d = dict_set(
        d,
        "MediaBox".spec_bytes(),
        PdfObject::Array(
            seq![
                PdfObject::Integer(0),
                PdfObject::Integer(0),
                PdfObject::Integer(w as i64),
                PdfObject::Integer(h as i64),
            ],
        ),
    );
    let d = dict_set(d, "Contents".spec_bytes(), reference(content));
    let xobjects = dict_set(Seq::empty(), "Im0".spec_bytes(), reference(image));
    let resources = dict_set(Seq::empty(), "XObject".spec_bytes(), PdfObject::Dictionary(xobjects));
    dict_set(d, "Resources".spec_bytes(), PdfObject::Dictionary(resources))
}

/// The page tree: one page.
pub open spec fn pages_dict(page: ObjId) -> PdfDict {
    let d = dict_set(Seq::empty(), "Type".spec_bytes(), name("Pages"));
    let d = dict_set(d, "Kids".spec_bytes(), PdfObject::Array(seq![reference(page)]));
    dict_set(d, "Count".spec_bytes(), PdfObject::Integer(1))
}

/// The catalog, pointing at the page tree.
pub open spec fn catalog_dict(pages: ObjId) -> PdfDict {
    let d = dict_set(Seq::empty(), "Type".spec_bytes(), name("Catalog"));
    dict_set(d, "Pages".spec_bytes(), reference(pages))
}

/// The content of the page: draw `/Im0` scaled to `w` by `h`.
pub open spec fn page_ops(w: u32, h: u32) -> Seq<(Seq<char>, Seq<PdfObject>)> {
    seq![
        ("q"@, Seq::empty()),
        (
            "cm"@,
            seq![
                PdfObject::Integer(w as i64),
                PdfObject::Integer(0),
                PdfObject::Integer(0),
                PdfObject::Integer(h as i64),
                PdfObject::Integer(0),
                PdfObject::Integer(0),
            ],
        ),
        ("Do"@, seq![name("Im0")]),
        ("Q"@, Seq::empty()),
    ]
}

/// A stream made by `Stream::new`.
pub open spec fn new_stream(dict: PdfDict, content: Seq<u8>) -> PdfObject {
    PdfObject::Stream {
        dict: dict_set(dict, "Length".spec_bytes(), PdfObject::Integer(content.len() as i64)),
        content,
        allows_compression: true,
    }
}

/// A stream of `samples` compressed with zlib, marked `/Filter
/// /FlateDecode`, made by `Stream::new`.
pub open spec fn flate_stream(dict: PdfDict, samples: Seq<u8>) -> PdfObject {
    new_stream(
        dict_set(dict, "Filter".spec_bytes(), name("FlateDecode")),
        zlib_compressed(samples).unwrap(),
    )
}

/// The number of the first object after the page tree: the soft mask when
/// there is one, else the image.
pub open spec fn id_after(first: u32, k: u32) -> ObjId {
    ((first + k) as u32, 0u16)
}

/// The objects of the one-page document for a picture of size `w` by `h`
/// with RGBA samples `s`, whose page content is `content`.
pub open spec fn image_page_objects(w: u32, h: u32, alpha: bool, s: Seq<u8>, content: Seq<u8>) -> Map<
    ObjId,
    PdfObject,
> {
    let pages: ObjId = (1u32, 0u16);
    let first: u32 = if alpha {
        3
    } else {
        2
    };
    let image = id_after(first, 0);
    let content_id = id_after(first, 1);
    let page = id_after(first, 2);
    let catalog = id_after(first, 3);
    let smask: ObjId = (2u32, 0u16);
    let m = Map::<ObjId, PdfObject>::empty();
    let m = if alpha {
        m.insert(
            smask,
            flate_stream(xobject_dict(w, h, "DeviceGray"), alpha_samples(s)),
        )
    } else {
        m
    };
    let image_d = if alpha {
        dict_set(xobject_dict(w, h, "DeviceRGB"), "SMask".spec_bytes(), reference(smask))
    } else {
        xobject_dict(w, h, "DeviceRGB")
    };
    m.insert(image, flate_stream(image_d, rgb_samples(s))).insert(
        content_id,
        new_stream(Seq::empty(), content),
    ).insert(page, PdfObject::Dictionary(page_dict(pages, w, h, content_id, image))).insert(
        pages,
        PdfObject::Dictionary(pages_dict(page)),
    ).insert(catalog, PdfObject::Dictionary(catalog_dict(pages)))
}

/// The stream decodes, as `Stream::decompressed_content` does it, to
/// `samples`.
pub open spec fn decodes_to(o: PdfObject, samples: Seq<u8>) -> bool {
    decoded_content(stream_dict(o), stream_content(o)) == Some(samples)
}

/// The file extension of `path`, or the empty string.
pub open spec fn extension_text(path: Seq<char>) -> Seq<char> {
    match extension(path) {
        Some(x) => x,
        None => Seq::empty(),
    }
}

/// The outcome `image_to_pdf` has for the picture file at `path` holding
/// `data`: `Ok` with the number of the catalog, or the error.
pub open spec fn image_to_pdf_result(path: Seq<char>, data: Seq<u8>) -> Result<u32, BuildError> {
    match decoded_rgba(data, extension_text(path)) {
        None => Err(BuildError::Undecodable),
        Some((w, h, alpha, s)) => Ok(
            if alpha {
                6
            } else {
                5
            },
        ),
    }
}

// ---------------------------------------------------------------------------
// Building blocks.

/// The RGB samples of RGBA samples.
pub fn rgb_of(rgba: &Vec<u8>) -> (r: Vec<u8>)
    requires
        rgba@.len() % 4 == 0,
    ensures
        r@ == rgb_samples(rgba@),
{
    let len = rgba.len();
    let n = len / 4;
    let mut r: Vec<u8> = Vec::new();
    let mut p: usize = 0;
    while p < n
        invariant
            len == rgba@.len(),
            n == rgba@.len() / 4,
            rgba@.len() % 4 == 0,
            p <= n,
            r@.len() == 3 * p,
            forall|i: int| 0 <= i < 3 * p ==> r@[i] == rgba@[(i / 3) * 4 + i % 3],
        decreases n - p,
    {
        proof {
            assert(4 * p + 3 < rgba@.len()) by (nonlinear_arith)
                requires
                    p < n,
                    n == rgba@.len() / 4,
                    rgba@.len() % 4 == 0,
            ;
        }
        r.push(rgba[4 * p]);
        r.push(rgba[4 * p + 1]);
        r.push(rgba[4 * p + 2]);
        proof {
            assert forall|i: int| 0 <= i < 3 * (p + 1) implies r@[i] == rgba@[(i / 3) * 4 + i % 3] by {
                if i >= 3 * p {
                    let c = i - 3 * p;
                    assert((i / 3) == p && i % 3 == c) by (nonlinear_arith)
                        requires
                            i == 3 * p + c,
                            0 <= c < 3,
                    ;
                }
            }
        }
        p += 1;
    }
    proof {
        assert(r@ =~= rgb_samples(rgba@));
    }
    r
}

/// The alpha samples of RGBA samples.
pub fn alpha_of(rgba: &Vec<u8>) -> (r: Vec<u8>)
    requires
        rgba@.len() % 4 == 0,
    ensures
        r@ == alpha_samples(rgba@),
{
    let len = rgba.len();
    let n = len / 4;
    let mut r: Vec<u8> = Vec::new();
    let mut p: usize = 0;
    while p < n
        invariant
            len == rgba@.len(),
            n == rgba@.len() / 4,
            rgba@.len() % 4 == 0,
            p <= n,
            r@.len() == p,
            forall|i: int| 0 <= i < p ==> r@[i] == rgba@[4 * i + 3],
        decreases n - p,
    {
        proof {
            assert(4 * p + 3 < rgba@.len()) by (nonlinear_arith)
                requires
                    p < n,
                    n == rgba@.len() / 4,
                    rgba@.len() % 4 == 0,
            ;
        }
        r.push(rgba[4 * p + 3]);
        p += 1;
    }
    proof {
        assert(r@ =~= alpha_samples(rgba@));
    }
    r
}

fn name_value(s: &str) -> (r: Scalar)
    ensures
        scalar_object(r) == name(s),
{
    Scalar::Name(vstd::slice::slice_to_vec(s.as_bytes()))
}

/// The dictionary of an image XObject.
fn xobject(w: u32, h: u32, color_space: &str) -> (r: Dictionary)
    ensures
        dict_entries(r) == xobject_dict(w, h, color_space),
{
    let mut d = dict_new();
    assert(dict_entries(d) =~= Seq::<(Seq<u8>, PdfObject)>::empty());
    dict_insert(&mut d, "Type", DictValue::Scalar(name_value("XObject")));
    dict_insert(&mut d, "Subtype", DictValue::Scalar(name_value("Image")));
    dict_insert(&mut d, "Width", DictValue::Scalar(Scalar::Integer(w as i64)));
    dict_insert(&mut d, "Height", DictValue::Scalar(Scalar::Integer(h as i64)));
    dict_insert(&mut d, "ColorSpace", DictValue::Scalar(name_value(color_space)));
    dict_insert(&mut d, "BitsPerComponent", DictValue::Scalar(Scalar::Integer(8)));
    proof {
        assert(dict_entries(d) =~= xobject_dict(w, h, color_space));
    }
    d
}

/// The page dictionary.
fn page(pages: ObjId, w: u32, h: u32, content: ObjId, image: ObjId) -> (r: Dictionary)
    ensures
        dict_entries(r) == page_dict(pages, w, h, content, image),
{
    let mut d = dict_new();
    assert(dict_entries(d) =~= Seq::<(Seq<u8>, PdfObject)>::empty());
    dict_insert(&mut d, "Type", DictValue::Scalar(name_value("Page")));
    dict_insert(&mut d, "Parent", DictValue::Scalar(Scalar::Reference(pages)));
    let mut media_box: Vec<Scalar> = Vec::new();
    media_box.push(Scalar::Integer(0));
    media_box.push(Scalar::Integer(0));
    media_box.push(Scalar::Integer(w as i64));
    media_box.push(Scalar::Integer(h as i64));
    proof {
        assert(scalar_objects(media_box@) =~= seq![
            PdfObject::Integer(0),
            PdfObject::Integer(0),
            PdfObject::Integer(w as i64),
            PdfObject::Integer(h as i64),
        ]);
    }
    dict_insert(&mut d, "MediaBox", DictValue::Array(media_box));
    dict_insert(&mut d, "Contents", DictValue::Scalar(Scalar::Reference(content)));
    let mut xobjects = dict_new();
    assert(dict_entries(xobjects) =~= Seq::<(Seq<u8>, PdfObject)>::empty());
    dict_insert(&mut xobjects, "Im0", DictValue::Scalar(Scalar::Reference(image)));
    let mut resources = dict_new();
    assert(dict_entries(resources) =~= Seq::<(Seq<u8>, PdfObject)>::empty());
    dict_insert(&mut resources, "XObject", DictValue::Dictionary(xobjects));
    dict_insert(&mut d, "Resources", DictValue::Dictionary(resources));
    proof {
        assert(dict_entries(d) =~= page_dict(pages, w, h, content, image));
    }
    d
}

/// The page tree dictionary.
fn pages_tree(page: ObjId) -> (r: Dictionary)
    ensures
        dict_entries(r) == pages_dict(page),
{
    let mut d = dict_new();
    assert(dict_entries(d) =~= Seq::<(Seq<u8>, PdfObject)>::empty());
    dict_insert(&mut d, "Type", DictValue::Scalar(name_value("Pages")));
    let mut kids: Vec<Scalar> = Vec::new();
    kids.push(Scalar::Reference(page));
    proof {
        assert(scalar_objects(kids@) =~= seq![reference(page)]);
    }
    dict_insert(&mut d, "Kids", DictValue::Array(kids));
    dict_insert(&mut d, "Count", DictValue::Scalar(Scalar::Integer(1)));
    d
}

/// The catalog dictionary.
fn catalog(pages: ObjId) -> (r: Dictionary)
    ensures
        dict_entries(r) == catalog_dict(pages),
{
    let mut d = dict_new();
    assert(dict_entries(d) =~= Seq::<(Seq<u8>, PdfObject)>::empty());
    dict_insert(&mut d, "Type", DictValue::Scalar(name_value("Catalog")));
    dict_insert(&mut d, "Pages", DictValue::Scalar(Scalar::Reference(pages)));
    d
}

fn op(operator: &str, operands: Vec<Scalar>) -> (r: ContentOp)
    ensures
        r.operator@ == operator@,
        r.operands@ == operands@,
{
    ContentOp { operator: String::from_str(operator), operands }
}

/// The operations of the page content.
fn page_operations(w: u32, h: u32) -> (r: Vec<ContentOp>)
    ensures
        crate::pdf::lopdf_api::content_ops(r@) == page_ops(w, h),
{
    let mut cm: Vec<Scalar> = Vec::new();
    cm.push(Scalar::Integer(w as i64));
    cm.push(Scalar::Integer(0));
    cm.push(Scalar::Integer(0));
    cm.push(Scalar::Integer(h as i64));
    cm.push(Scalar::Integer(0));
    cm.push(Scalar::Integer(0));
    let mut draw: Vec<Scalar> = Vec::new();
    draw.push(name_value("Im0"));
    let mut r: Vec<ContentOp> = Vec::new();
    r.push(op("q", Vec::new()));
    r.push(op("cm", cm));
    r.push(op("Do", draw));
    r.push(op("Q", Vec::new()));
    proof {
        let ops = crate::pdf::lopdf_api::content_ops(r@);
        assert(ops[0].1 =~= Seq::<PdfObject>::empty());
        assert(ops[1].1 =~= page_ops(w, h)[1].1);
        assert(ops[2].1 =~= page_ops(w, h)[2].1);
        assert(ops[3].1 =~= Seq::<PdfObject>::empty());
        assert(ops =~= page_ops(w, h));
    }
    r
}

/// The image streams the page shows have no `/Filter` and no
/// `/DecodeParms` (nor any other key starting with `F` or `D`) before they
/// are compressed.
proof fn lemma_key_absent_before_compression(
    w: u32,
    h: u32,
    cs: &str,
    smask: Option<ObjId>,
    c: Seq<u8>,
    key: &str,
)
    requires
        cs == "DeviceRGB" || cs == "DeviceGray",
        vstd::utf8::is_ascii_chars(key@),
        key@.len() > 0,
        key@[0] == 'F' || key@[0] == 'D',
    ensures
        ({
            let d = match smask {
                Some(m) => dict_set(xobject_dict(w, h, cs), "SMask".spec_bytes(), reference(m)),
                None => xobject_dict(w, h, cs),
            };
            dict_get(d, key.spec_bytes()) is None
        }),
{
    reveal_strlit("Type");
    reveal_strlit("Subtype");
    reveal_strlit("Width");
    reveal_strlit("Height");
    reveal_strlit("ColorSpace");
    reveal_strlit("BitsPerComponent");
    reveal_strlit("SMask");
    let f = key.spec_bytes();
    lemma_names_differ(key, "Type");
    lemma_names_differ(key, "Subtype");
    lemma_names_differ(key, "Width");
    lemma_names_differ(key, "Height");
    lemma_names_differ(key, "ColorSpace");
    lemma_names_differ(key, "BitsPerComponent");
    lemma_names_differ(key, "SMask");
    let e: PdfDict = Seq::empty();
    assert(dict_get(e, f) is None);
    let d1 = dict_set(e, "Type".spec_bytes(), name("XObject"));
    lemma_dict_get_set(e, "Type".spec_bytes(), name("XObject"), f);
    let d2 = dict_set(d1, "Subtype".spec_bytes(), name("Image"));
    lemma_dict_get_set(d1, "Subtype".spec_bytes(), name("Image"), f);
    let d3 = dict_set(d2, "Width".spec_bytes(), PdfObject::Integer(w as i64));
    lemma_dict_get_set(d2, "Width".spec_bytes(), PdfObject::Integer(w as i64), f);
    let d4 = dict_set(d3, "Height".spec_bytes(), PdfObject::Integer(h as i64));
    lemma_dict_get_set(d3, "Height".spec_bytes(), PdfObject::Integer(h as i64), f);
    let d5 = dict_set(d4, "ColorSpace".spec_bytes(), name(cs));
    lemma_dict_get_set(d4, "ColorSpace".spec_bytes(), name(cs), f);
    let d6 = dict_set(d5, "BitsPerComponent".spec_bytes(), PdfObject::Integer(8));
    lemma_dict_get_set(d5, "BitsPerComponent".spec_bytes(), PdfObject::Integer(8), f);
    assert(d6 == xobject_dict(w, h, cs));
    let d = match smask {
        Some(m) => {
            lemma_dict_get_set(d6, "SMask".spec_bytes(), reference(m), f);
            dict_set(d6, "SMask".spec_bytes(), reference(m))
        },
        None => d6,
    };
}

/// The image streams the page shows are marked as compressed with Flate
/// alone, so they decode back to the samples they were made from.
proof fn lemma_flate_stream_decodes(w: u32, h: u32, cs: &str, smask: Option<ObjId>, samples: Seq<u8>)
    requires
        cs == "DeviceRGB" || cs == "DeviceGray",
        zlib_compressed(samples) matches Some(z) && forall|d: PdfDict|
            flate_only(d) ==> #[trigger] decoded_content(d, z) == Some(samples),
    ensures
        ({
            let d = match smask {
                Some(m) => dict_set(xobject_dict(w, h, cs), "SMask".spec_bytes(), reference(m)),
                None => xobject_dict(w, h, cs),
            };
            decodes_to(flate_stream(d, samples), samples)
        }),
{
    reveal_strlit("Filter");
    reveal_strlit("DecodeParms");
    reveal_strlit("Length");
    reveal_strlit("FlateDecode");
    lemma_key_absent_before_compression(w, h, cs, smask, samples, "DecodeParms");
    lemma_names_differ("Filter", "Length");
    lemma_names_differ("DecodeParms", "Filter");
    lemma_names_differ("DecodeParms", "Length");
    let d = match smask {
        Some(m) => dict_set(xobject_dict(w, h, cs), "SMask".spec_bytes(), reference(m)),
        None => xobject_dict(w, h, cs),
    };
    let z = zlib_compressed(samples).unwrap();
    let f = "Filter".spec_bytes();
    let p = "DecodeParms".spec_bytes();
    let l = "Length".spec_bytes();
    let d1 = dict_set(d, f, name("FlateDecode"));
    let len = PdfObject::Integer(z.len() as i64);
    lemma_dict_get_set(d, f, name("FlateDecode"), f);
    lemma_dict_get_set(d, f, name("FlateDecode"), p);
    lemma_dict_get_set(d1, l, len, f);
    lemma_dict_get_set(d1, l, len, p);
    assert(flate_only(dict_set(d1, l, len)));
}

/// Builds a one-page document showing the picture in `data`, the content of
/// the file at `path` (whose extension helps to tell the picture's format).
pub fn image_to_pdf(path: &String, data: &[u8]) -> (r: Result<Document, BuildError>)
    ensures
        match image_to_pdf_result(path@, data@) {
            Err(e) => r == Err::<Document, BuildError>(e),
            Ok(catalog) => r matches Ok(doc) && {
                let (w, h, alpha, s) = decoded_rgba(data@, extension_text(path@)).unwrap();
                &&& pdf_objects(doc) == image_page_objects(
                    w,
                    h,
                    alpha,
                    s,
                    encoded_content(page_ops(w, h)).unwrap(),
                )
                &&& pdf_trailer(doc) == dict_set(
                    Seq::empty(),
                    "Root".spec_bytes(),
                    reference((catalog, 0u16)),
                )
                &&& pdf_version(doc) == "1.5"@
                &&& pdf_max_id(doc) == catalog
                &&& decodes_to(pdf_objects(doc)[id_after(if alpha { 3 } else { 2 }, 0)], rgb_samples(s))
                &&& alpha ==> decodes_to(pdf_objects(doc)[(2u32, 0u16)], alpha_samples(s))
            },
        },
{
    let ext = extension_or_empty(path.as_str());
    let img = match decode_rgba(data, ext.as_str()) {
        Some(i) => i,
        None => {
            return Err(BuildError::Undecodable);
        },
    };
    let w = img.width;
    let h = img.height;
    let ghost s = img.samples@;
    proof {
        assert(s.len() == (w * h) * 4) by (nonlinear_arith)
            requires
                s.len() == 4 * w * h,
        ;
        vstd::arithmetic::div_mod::lemma_mod_multiples_basic(w * h, 4);
    }
    let mut doc = new_document("1.5");
    let pages_id = new_object_id(&mut doc);
    let rgb = rgb_of(&img.samples);
    let mut image_dict = xobject(w, h, "DeviceRGB");
    let ghost mut smask: Option<ObjId> = None;
    if img.has_alpha {
        let a = alpha_of(&img.samples);
        let z = zlib_encode(a.as_slice()).unwrap();
        let mut smask_dict = xobject(w, h, "DeviceGray");
        dict_insert(&mut smask_dict, "Filter", DictValue::Scalar(name_value("FlateDecode")));
        let smask_id = add_object(&mut doc, NewObject::Stream(smask_dict, z));
        proof {
            lemma_flate_stream_decodes(w, h, "DeviceGray", None, alpha_samples(s));
        }
        dict_insert(&mut image_dict, "SMask", DictValue::Scalar(Scalar::Reference(smask_id)));
        proof {
            smask = Some(smask_id);
        }
    }
    let z = zlib_encode(rgb.as_slice()).unwrap();
    dict_insert(&mut image_dict, "Filter", DictValue::Scalar(name_value("FlateDecode")));
    let image_id = add_object(&mut doc, NewObject::Stream(image_dict, z));
    proof {
        lemma_flate_stream_decodes(w, h, "DeviceRGB", smask, rgb_samples(s));
    }
    let content = encode_content(page_operations(w, h)).unwrap();
    let ghost content_view = content@;
    let empty = dict_new();
    proof {
        assert(dict_entries(empty) =~= Seq::<(Seq<u8>, PdfObject)>::empty());
    }
    let content_id = add_object(&mut doc, NewObject::Stream(empty, content));
    let page_id = add_object(
        &mut doc,
        NewObject::Dictionary(page(pages_id, w, h, content_id, image_id)),
    );
    set_dict_object(&mut doc, pages_id, pages_tree(page_id));
    let catalog_id = add_object(&mut doc, NewObject::Dictionary(catalog(pages_id)));
    set_trailer_entry(&mut doc, "Root", Scalar::Reference(catalog_id));
    proof {
        assert(pdf_objects(doc) =~= image_page_objects(w, h, img.has_alpha, s, content_view));
    }
    Ok(doc)
}

// ---------------------------------------------------------------------------
// Laws.

/// The document built for a picture has one page, as large as the picture:
/// its catalog points at a page tree that lists just that page and counts
/// one, and the page's media box is the picture's size, one point per pixel.
pub proof fn law_image_page_is_picture_size(w: u32, h: u32, alpha: bool, s: Seq<u8>, c: Seq<u8>)
    ensures
        ({
            let objs = image_page_objects(w, h, alpha, s, c);
            let first: u32 = if alpha {
                3
            } else {
                2
            };
            let page = id_after(first, 2);
            let trailer = dict_set(Seq::empty(), "Root".spec_bytes(), reference(id_after(first, 3)));
            &&& root_page_tree(objs, trailer) matches Some(p) && {
                &&& dict_get(p, "Kids".spec_bytes()) == Some(PdfObject::Array(seq![reference(page)]))
                &&& dict_get(p, "Count".spec_bytes()) == Some(PdfObject::Integer(1))
            }
            &&& objs.dom().contains(page)
            &&& objs[page] matches PdfObject::Dictionary(d) && dict_get(d, "MediaBox".spec_bytes())
                == Some(
                PdfObject::Array(
                    seq![
                        PdfObject::Integer(0),
                        PdfObject::Integer(0),
                        PdfObject::Integer(w as i64),
                        PdfObject::Integer(h as i64),
                    ],
                ),
            )
        }),
{
    reveal_strlit("Root");
    reveal_strlit("Type");
    reveal_strlit("Pages");
    reveal_strlit("Kids");
    reveal_strlit("Count");
    reveal_strlit("Parent");
    reveal_strlit("MediaBox");
    reveal_strlit("Contents");
    reveal_strlit("Resources");
    lemma_names_differ("Count", "Kids");
    lemma_names_differ("MediaBox", "Contents");
    lemma_names_differ("MediaBox", "Resources");
    let e: PdfDict = Seq::empty();
    let first: u32 = if alpha {
        3
    } else {
        2
    };
    let pages: ObjId = (1u32, 0u16);
    let page = id_after(first, 2);
    let catalog = id_after(first, 3);
    let content = id_after(first, 1);
    let image = id_after(first, 0);
    lemma_dict_get_set(e, "Root".spec_bytes(), reference(catalog), "Root".spec_bytes());
    // The catalog.
    let c1 = dict_set(e, "Type".spec_bytes(), name("Catalog"));
    lemma_dict_get_set(c1, "Pages".spec_bytes(), reference(pages), "Pages".spec_bytes());
    // The page tree.
    let p1 = dict_set(e, "Type".spec_bytes(), name("Pages"));
    let kids = PdfObject::Array(seq![reference(page)]);
    let p2 = dict_set(p1, "Kids".spec_bytes(), kids);
    lemma_dict_get_set(p1, "Kids".spec_bytes(), kids, "Kids".spec_bytes());
    lemma_dict_get_set(p2, "Count".spec_bytes(), PdfObject::Integer(1), "Kids".spec_bytes());
    lemma_dict_get_set(p2, "Count".spec_bytes(), PdfObject::Integer(1), "Count".spec_bytes());
    // The page.
    let media_box = PdfObject::Array(
        seq![
            PdfObject::Integer(0),
            PdfObject::Integer(0),
            PdfObject::Integer(w as i64),
            PdfObject::Integer(h as i64),
        ],
    );
    let d1 = dict_set(e, "Type".spec_bytes(), name("Page"));
    let d2 = dict_set(d1, "Parent".spec_bytes(), reference(pages));
    let d3 = dict_set(d2, "MediaBox".spec_bytes(), media_box);
    let d4 = dict_set(d3, "Contents".spec_bytes(), reference(content));
    let xobjects = dict_set(e, "Im0".spec_bytes(), reference(image));
    let resources = PdfObject::Dictionary(
        dict_set(e, "XObject".spec_bytes(), PdfObject::Dictionary(xobjects)),
    );
    lemma_dict_get_set(d2, "MediaBox".spec_bytes(), media_box, "MediaBox".spec_bytes());
    lemma_dict_get_set(d3, "Contents".spec_bytes(), reference(content), "MediaBox".spec_bytes());
    lemma_dict_get_set(d4, "Resources".spec_bytes(), resources, "MediaBox".spec_bytes());
    assert(page_dict(pages, w, h, content, image) == dict_set(d4, "Resources".spec_bytes(), resources));
}

/// The entries of an image stream the page shows: its size, eight bits per
/// component, its colour space and its soft mask, if any.
proof fn lemma_image_stream_entries(w: u32, h: u32, cs: &str, smask: Option<ObjId>, samples: Seq<u8>)
    requires
        cs == "DeviceRGB" || cs == "DeviceGray",
    ensures
        ({
            let d = match smask {
                Some(m) => dict_set(xobject_dict(w, h, cs), "SMask".spec_bytes(), reference(m)),
                None => xobject_dict(w, h, cs),
            };
            let o = flate_stream(d, samples);
            &&& stream_entry(o, "Width") == Some(PdfObject::Integer(w as i64))
            &&& stream_entry(o, "Height") == Some(PdfObject::Integer(h as i64))
            &&& stream_entry(o, "BitsPerComponent") == Some(PdfObject::Integer(8))
            &&& stream_entry(o, "ColorSpace") == Some(name(cs))
            &&& stream_entry(o, "SMask") == match smask {
                Some(m) => Some(reference(m)),
                None => None,
            }
        }),
{
    reveal_strlit("Type");
    reveal_strlit("Subtype");
    reveal_strlit("Width");
    reveal_strlit("Height");
    reveal_strlit("ColorSpace");
    reveal_strlit("BitsPerComponent");
    reveal_strlit("SMask");
    reveal_strlit("Filter");
    reveal_strlit("Length");
    let ty = "Type".spec_bytes();
    let st = "Subtype".spec_bytes();
    let wk = "Width".spec_bytes();
    let hk = "Height".spec_bytes();
    let ck = "ColorSpace".spec_bytes();
    let bk = "BitsPerComponent".spec_bytes();
    let sk = "SMask".spec_bytes();
    let fk = "Filter".spec_bytes();
    let lk = "Length".spec_bytes();
    lemma_names_differ("Width", "Height");
    lemma_names_differ("Width", "ColorSpace");
    lemma_names_differ("Width", "BitsPerComponent");
    lemma_names_differ("Width", "SMask");
    lemma_names_differ("Width", "Filter");
    lemma_names_differ("Width", "Length");
    lemma_names_differ("Height", "ColorSpace");
    lemma_names_differ("Height", "BitsPerComponent");
    lemma_names_differ("Height", "SMask");
    lemma_names_differ("Height", "Filter");
    lemma_names_differ("Height", "Length");
    lemma_names_differ("ColorSpace", "BitsPerComponent");
    lemma_names_differ("ColorSpace", "SMask");
    lemma_names_differ("ColorSpace", "Filter");
    lemma_names_differ("ColorSpace", "Length");
    lemma_names_differ("BitsPerComponent", "SMask");
    lemma_names_differ("BitsPerComponent", "Filter");
    lemma_names_differ("BitsPerComponent", "Length");
    lemma_names_differ("SMask", "Filter");
    lemma_names_differ("SMask", "Length");
    lemma_names_differ("SMask", "Type");
    lemma_names_differ("SMask", "Width");
    lemma_names_differ("SMask", "Height");
    lemma_names_differ_in_length("SMask", "Subtype");
    let e: PdfDict = Seq::empty();
    let d1 = dict_set(e, ty, name("XObject"));
    let d2 = dict_set(d1, st, name("Image"));
    let d3 = dict_set(d2, wk, PdfObject::Integer(w as i64));
    let d4 = dict_set(d3, hk, PdfObject::Integer(h as i64));
    let d5 = dict_set(d4, ck, name(cs));
    let d6 = dict_set(d5, bk, PdfObject::Integer(8));
    assert(d6 == xobject_dict(w, h, cs));
    let d = match smask {
        Some(m) => dict_set(d6, sk, reference(m)),
        None => d6,
    };
    let z = zlib_compressed(samples).unwrap();
    let len = PdfObject::Integer(z.len() as i64);
    let df = dict_set(d, fk, name("FlateDecode"));
    let keys = seq![wk, hk, ck, bk, sk];
    assert forall|k: int| 0 <= k < keys.len() implies {
        let key = #[trigger] keys[k];
        dict_get(dict_set(df, lk, len), key) == dict_get(d, key)
    } by {
        let key = keys[k];
        lemma_dict_get_set(d, fk, name("FlateDecode"), key);
        lemma_dict_get_set(df, lk, len, key);
    }
    assert(keys[0] == wk && keys[1] == hk && keys[2] == ck && keys[3] == bk && keys[4] == sk);
    if let Some(m) = smask {
        lemma_dict_get_set(d6, sk, reference(m), wk);
        lemma_dict_get_set(d6, sk, reference(m), hk);
        lemma_dict_get_set(d6, sk, reference(m), ck);
        lemma_dict_get_set(d6, sk, reference(m), bk);
        lemma_dict_get_set(d6, sk, reference(m), sk);
    }
    lemma_dict_get_set(d5, bk, PdfObject::Integer(8), bk);
    lemma_dict_get_set(d5, bk, PdfObject::Integer(8), ck);
    lemma_dict_get_set(d5, bk, PdfObject::Integer(8), hk);
    lemma_dict_get_set(d5, bk, PdfObject::Integer(8), wk);
    lemma_dict_get_set(d5, bk, PdfObject::Integer(8), sk);
    lemma_dict_get_set(d4, ck, name(cs), ck);
    lemma_dict_get_set(d4, ck, name(cs), hk);
    lemma_dict_get_set(d4, ck, name(cs), wk);
    lemma_dict_get_set(d4, ck, name(cs), sk);
    lemma_dict_get_set(d3, hk, PdfObject::Integer(h as i64), hk);
    lemma_dict_get_set(d3, hk, PdfObject::Integer(h as i64), wk);
    lemma_dict_get_set(d3, hk, PdfObject::Integer(h as i64), sk);
    lemma_dict_get_set(d2, wk, PdfObject::Integer(w as i64), wk);
    lemma_dict_get_set(d2, wk, PdfObject::Integer(w as i64), sk);
    lemma_dict_get_set(d1, st, name("Image"), sk);
    lemma_dict_get_set(e, ty, name("XObject"), sk);
}

/// The picture is shown from an 8-bit RGB image as large as the picture,
/// whose samples are the picture's colour samples, pixel by pixel; a picture
/// with alpha gets an 8-bit grey soft mask of the same size whose samples
/// are its alpha samples, and one without has none. So each image declares
/// exactly as many samples (components by `/Width` by `/Height`, one byte
/// each at 8 bits) as it holds.
pub proof fn law_picture_images_match_the_picture(w: u32, h: u32, alpha: bool, s: Seq<u8>, c: Seq<u8>)
    requires
        s.len() == 4 * (w * h),
    ensures
        ({
            let objs = image_page_objects(w, h, alpha, s, c);
            let image = id_after(if alpha { 3 } else { 2 }, 0);
            let smask: ObjId = (2u32, 0u16);
            let im = objs[image];
            &&& objs.dom().contains(image)
            &&& stream_entry(im, "Width") == Some(PdfObject::Integer(w as i64))
            &&& stream_entry(im, "Height") == Some(PdfObject::Integer(h as i64))
            &&& stream_entry(im, "BitsPerComponent") == Some(PdfObject::Integer(8))
            &&& stream_entry(im, "ColorSpace") == Some(name("DeviceRGB"))
            &&& rgb_samples(s).len() == 3 * (w * h)
            &&& forall|p: int, k: int|
                0 <= p < w * h && 0 <= k < 3 ==> #[trigger] rgb_samples(s)[3 * p + k] == s[4 * p + k]
            &&& alpha ==> {
                &&& stream_entry(im, "SMask") == Some(reference(smask))
                &&& objs.dom().contains(smask)
                &&& stream_entry(objs[smask], "Width") == stream_entry(im, "Width")
                &&& stream_entry(objs[smask], "Height") == stream_entry(im, "Height")
                &&& stream_entry(objs[smask], "BitsPerComponent") == Some(PdfObject::Integer(8))
                &&& stream_entry(objs[smask], "ColorSpace") == Some(name("DeviceGray"))
                &&& alpha_samples(s).len() == w * h
                &&& forall|p: int| 0 <= p < w * h ==> #[trigger] alpha_samples(s)[p] == s[4 * p + 3]
            }
            &&& !alpha ==> stream_entry(im, "SMask") is None
        }),
{
    let smask: ObjId = (2u32, 0u16);
    lemma_picture_objects(w, h, alpha, s, c);
    if alpha {
        lemma_image_stream_entries(w, h, "DeviceGray", None, alpha_samples(s));
        lemma_image_stream_entries(w, h, "DeviceRGB", Some(smask), rgb_samples(s));
    } else {
        lemma_image_stream_entries(w, h, "DeviceRGB", None, rgb_samples(s));
    }
    lemma_sample_layout(s, w * h);
}

/// The image streams of the page's objects: the colour image, and the soft
/// mask when there is alpha.
proof fn lemma_picture_objects(w: u32, h: u32, alpha: bool, s: Seq<u8>, c: Seq<u8>)
    ensures
        ({
            let objs = image_page_objects(w, h, alpha, s, c);
            let image = id_after(if alpha { 3 } else { 2 }, 0);
            let smask: ObjId = (2u32, 0u16);
            let image_d = if alpha {
                dict_set(xobject_dict(w, h, "DeviceRGB"), "SMask".spec_bytes(), reference(smask))
            } else {
                xobject_dict(w, h, "DeviceRGB")
            };
            &&& objs.dom().contains(image)
            &&& objs[image] == flate_stream(image_d, rgb_samples(s))
            &&& alpha ==> objs.dom().contains(smask) && objs[smask] == flate_stream(
                xobject_dict(w, h, "DeviceGray"),
                alpha_samples(s),
            )
        }),
{
}

/// The colour and alpha samples of `n` RGBA pixels: three and one per
/// pixel, in pixel order.
proof fn lemma_sample_layout(s: Seq<u8>, n: int)
    requires
        n >= 0,
        s.len() == 4 * n,
    ensures
        rgb_samples(s).len() == 3 * n,
        forall|p: int, k: int| 0 <= p < n && 0 <= k < 3 ==> #[trigger] rgb_samples(s)[3 * p + k] == s[4 * p + k],
        alpha_samples(s).len() == n,
        forall|p: int| 0 <= p < n ==> #[trigger] alpha_samples(s)[p] == s[4 * p + 3],
{
    assert(s.len() / 4 == n);
    assert forall|p: int, k: int| 0 <= p < n && 0 <= k < 3 implies #[trigger] rgb_samples(s)[3 * p + k]
        == s[4 * p + k] by {
        assert((3 * p + k) / 3 == p && (3 * p + k) % 3 == k) by (nonlinear_arith)
            requires
                0 <= k < 3,
                0 <= p,
        ;
    }
}

} // verus!
