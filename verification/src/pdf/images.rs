//! Re-encoding the images of a document as JPEG.
//!
//! Each image stream is looked at once. CMYK images, images behind a chain
//! of several filters and unfiltered images are left alone. An image already
//! in JPEG or JPEG 2000 form is decoded and re-encoded; any other filtered
//! image is decompressed and its samples, grey or RGB by its colour space,
//! are encoded. The new bytes replace the old ones only when they are fewer,
//! and the stream is then marked `/Filter /DCTDecode` with the new `/Length`.
use crate::pdf::image_api::{
    gray_as_jpeg, jpeg_from_encoded, jpeg_from_gray, jpeg_from_rgb, reencode_as_jpeg, rgb_as_jpeg,
};
use crate::pdf::lopdf_api::{
    decoded_content, decoding_dict, entry_matches, id_lt, ids_sorted, object_ids, pdf_max_id, pdf_objects, pdf_trailer, pdf_version, set_stream_content,
    set_stream_entry, stream_decoded_content, stream_entry, stream_raw_content, ArrayItem, DictEntry,
    SimpleValue,
};
use crate::pdf::model::{
    as_integer, as_name, bytes_eq, dict_set, obj_at, is_name, lemma_dict_get_set, lemma_dict_set_set, lemma_names_differ, name,
    opt_bytes_eq, stream_content, stream_dict, with_content, with_entry, ObjId, PdfObject,
};
use lopdf::Document;
use vstd::prelude::*;
use vstd::slice::slice_to_vec;
use vstd::string::StringSliceAdditionalSpecFns;

verus! {

/// What became of one image.
#[derive(Debug, Clone, Copy, PartialEq, Eq)]
pub enum ImageOutcome {
    /// CMYK images are not re-encoded.
    SkippedCmyk,
    /// The image passes through several filters.
    SkippedFilterPipeline,
    /// The image has no filter (or a filter that is no name).
    SkippedNoFilter,
    /// The JPEG or JPEG 2000 data did not decode.
    SkippedUndecodable,
    /// The filtered data did not decompress.
    SkippedDecompressFailed,
    /// The decompressed samples are fewer than the image's size asks for.
    SkippedBadPixelData,
    /// The encoder wrote nothing.
    SkippedEmptyOutput,
    /// The re-encoded image is not smaller than the original.
    SkippedNotSmaller { encoded_len: usize },
    /// The image was replaced by its re-encoded form.
    Compressed { encoded_len: usize },
}

/// What the library saw of one image and what became of it.
#[derive(Debug)]
pub struct ImageReport {
    pub id: ObjId,
    pub color_space: Option<Vec<u8>>,
    pub filter: DictEntry,
    pub width: u32,
    pub height: u32,
    pub content_len: usize,
    pub outcome: ImageOutcome,
}

/// The object is an image stream: its `/Subtype` is the name `Image`.
pub open spec fn is_image(o: PdfObject) -> bool {
    o is Stream && is_name(crate::pdf::model::stream_entry(o, "Subtype"), "Image")
}

/// The document holds an image stream under `id`.
pub open spec fn is_image_at(m: Map<ObjId, PdfObject>, id: ObjId) -> bool {
    m.dom().contains(id) && is_image(m[id])
}

/// A dimension of the image: the integer under `key`, cut to 32 bits, or 0.
pub open spec fn dimension(o: PdfObject, key: &str) -> u32 {
    match as_integer(crate::pdf::model::stream_entry(o, key)) {
        Some(i) => i as u32,
        None => 0,
    }
}

/// The filter the image is decoded with: a name, or a one-element array's
/// element when that is a name; `Err` for a longer (or empty) array.
pub open spec fn single_filter(o: PdfObject) -> Result<Option<Seq<u8>>, ()> {
    match crate::pdf::model::stream_entry(o, "Filter") {
        Some(PdfObject::Name(n)) => Ok(Some(n)),
        Some(PdfObject::Array(a)) => if a.len() == 1 {
            Ok(as_name(Some(a[0])))
        } else {
            Err(())
        },
        _ => Ok(None),
    }
}

/// The image is a CMYK image among the objects `m`: its colour space is
/// `/DeviceCMYK`, or `[/ICCBased r]` where `r` is a stream whose profile has
/// four components (`/N 4`).
pub open spec fn is_cmyk(m: Map<ObjId, PdfObject>, o: PdfObject) -> bool {
    ||| is_name(crate::pdf::model::stream_entry(o, "ColorSpace"), "DeviceCMYK")
    ||| (crate::pdf::model::stream_entry(o, "ColorSpace") matches Some(PdfObject::Array(a)) && {
        &&& a.len() == 2
        &&& a[0] == name("ICCBased")
        &&& a[1] matches PdfObject::Reference(n, g) && obj_at(m, (n, g)) matches Some(p) && {
            &&& p is Stream
            &&& crate::pdf::model::stream_entry(p, "N") == Some(PdfObject::Integer(4))
        }
    })
}

/// The JPEG encoding of the image, or why there is none; `cmyk` tells
/// whether it is a CMYK image.
pub open spec fn jpeg_encoding(o: PdfObject, cmyk: bool, quality: u8) -> Result<Seq<u8>, ImageOutcome> {
    let w = dimension(o, "Width");
    let h = dimension(o, "Height");
    if cmyk {
        Err(ImageOutcome::SkippedCmyk)
    } else {
        match single_filter(o) {
            Err(()) => Err(ImageOutcome::SkippedFilterPipeline),
            Ok(None) => Err(ImageOutcome::SkippedNoFilter),
            Ok(Some(f)) => if f == "DCTDecode".spec_bytes() || f == "JPXDecode".spec_bytes() {
                match jpeg_from_encoded(stream_content(o), quality) {
                    Some(b) => Ok(b),
                    None => Err(ImageOutcome::SkippedUndecodable),
                }
            } else {
                match decoded_content(decoding_dict(stream_dict(o)), stream_content(o)) {
                    None => Err(ImageOutcome::SkippedDecompressFailed),
                    Some(raw) => if is_name(
                        crate::pdf::model::stream_entry(o, "ColorSpace"),
                        "DeviceGray",
                    ) {
                        if w * h <= raw.len() {
                            Ok(jpeg_from_gray(w, h, raw, quality))
                        } else {
                            Err(ImageOutcome::SkippedBadPixelData)
                        }
                    } else {
                        if 3 * w * h <= raw.len() {
                            Ok(jpeg_from_rgb(w, h, raw, quality))
                        } else {
                            Err(ImageOutcome::SkippedBadPixelData)
                        }
                    },
                }
            },
        }
    }
}

/// The encoding replaces the image: it is not empty and shorter than the
/// current content.
pub open spec fn replaces(o: PdfObject, b: Seq<u8>) -> bool {
    0 < b.len() < stream_content(o).len()
}

/// What becomes of the image.
pub open spec fn image_outcome(o: PdfObject, cmyk: bool, quality: u8) -> ImageOutcome {
    match jpeg_encoding(o, cmyk, quality) {
        Err(e) => e,
        Ok(b) => if b.len() == 0 {
            ImageOutcome::SkippedEmptyOutput
        } else if b.len() < stream_content(o).len() {
            ImageOutcome::Compressed { encoded_len: b.len() as usize }
        } else {
            ImageOutcome::SkippedNotSmaller { encoded_len: b.len() as usize }
        },
    }
}

/// The image after re-encoding: the new content, `/Filter /DCTDecode` and the
/// new `/Length` when the encoding replaces it; the image unchanged otherwise.
pub open spec fn recompressed(o: PdfObject, cmyk: bool, quality: u8) -> PdfObject {
    match jpeg_encoding(o, cmyk, quality) {
        Ok(b) => if replaces(o, b) {
            with_entry(
                with_entry(with_content(o, b), "Filter".spec_bytes(), name("DCTDecode")),
                "Length".spec_bytes(),
                PdfObject::Integer(b.len() as i64),
            )
        } else {
            o
        },
        Err(_) => o,
    }
}

/// The report tells what the image holds.
pub open spec fn report_describes(r: ImageReport, o: PdfObject) -> bool {
    &&& match r.color_space {
        Some(c) => as_name(crate::pdf::model::stream_entry(o, "ColorSpace")) == Some(c@),
        None => as_name(crate::pdf::model::stream_entry(o, "ColorSpace")) is None,
    }
    &&& entry_matches(r.filter, crate::pdf::model::stream_entry(o, "Filter"))
    &&& r.width == dimension(o, "Width")
    &&& r.height == dimension(o, "Height")
    &&& r.content_len == stream_content(o).len()
}

/// The identifiers of the image streams of the document, in increasing
/// order.
pub fn image_stream_ids(doc: &Document) -> (r: Vec<ObjId>)
    ensures
        r@.no_duplicates(),
        ids_sorted(r@),
        forall|id: ObjId| r@.contains(id) <==> is_image_at(pdf_objects(*doc), id),
{
    let ids = object_ids(doc);
    let mut r: Vec<ObjId> = Vec::new();
    let mut i: usize = 0;
    while i < ids.len()
        invariant
            i <= ids@.len(),
            ids@.to_set() == pdf_objects(*doc).dom(),
            ids@.no_duplicates(),
            ids_sorted(ids@),
            r@.no_duplicates(),
            ids_sorted(r@),
            forall|k: int|
                #![trigger r@[k]]
                0 <= k < r@.len() ==> exists|j: int| 0 <= j < i && #[trigger] ids@[j] == r@[k],
            forall|id: ObjId|
                r@.contains(id) <==> (is_image_at(pdf_objects(*doc), id) && exists|j: int|
                    0 <= j < i && #[trigger] ids@[j] == id),
        decreases ids@.len() - i,
    {
        let id = ids[i];
        proof {
            assert(ids@.to_set().contains(id));
        }
        let subtype = stream_entry(doc, id, "Subtype".as_bytes());
        let image = match subtype {
            Some(DictEntry::Name(n)) => bytes_eq(n.as_slice(), "Image".as_bytes()),
            _ => false,
        };
        assert(image == is_image_at(pdf_objects(*doc), id));
        let ghost old_r = r@;
        if image {
            r.push(id);
        }
        proof {
            assert forall|k: ObjId|
                r@.contains(k) <==> (is_image_at(pdf_objects(*doc), k) && exists|j: int|
                    0 <= j < i + 1 && #[trigger] ids@[j] == k) by {
                if r@.contains(k) && k != id {
                    assert(old_r.contains(k));
                }
                if k == id {
                    assert(ids@[i as int] == k);
                    if image {
                        assert(r@[r@.len() - 1] == k);
                    }
                } else if exists|j: int| 0 <= j < i + 1 && #[trigger] ids@[j] == k {
                    let j = choose|j: int| 0 <= j < i + 1 && #[trigger] ids@[j] == k;
                    assert(j < i);
                    if is_image_at(pdf_objects(*doc), k) {
                        assert(old_r.contains(k));
                        let m = choose|m: int| 0 <= m < old_r.len() && old_r[m] == k;
                        assert(r@[m] == k);
                    }
                }
            }
            if image {
                assert forall|a: int, b: int| 0 <= a < b < r@.len() implies r@[a] != r@[b] by {
                    if b == r@.len() - 1 {
                        assert(old_r.contains(r@[a]));
                        let j = choose|j: int| 0 <= j < i && #[trigger] ids@[j] == r@[a];
                        assert(ids@[j] != ids@[i as int]);
                    }
                }
                assert forall|a: int, b: int| 0 <= a < b < r@.len() implies id_lt(
                    #[trigger] r@[a],
                    #[trigger] r@[b],
                ) by {
                    if b == r@.len() - 1 {
                        assert(r@[a] == old_r[a]);
                        let j = choose|j: int| 0 <= j < i && #[trigger] ids@[j] == old_r[a];
                        assert(id_lt(ids@[j], ids@[i as int]));
                    } else {
                        assert(r@[a] == old_r[a] && r@[b] == old_r[b]);
                    }
                }
                assert forall|k: int| #![trigger r@[k]] 0 <= k < r@.len() implies exists|j: int|
                    0 <= j < i + 1 && #[trigger] ids@[j] == r@[k] by {
                    if k == r@.len() - 1 {
                        assert(ids@[i as int] == r@[k]);
                    } else {
                        assert(r@[k] == old_r[k]);
                        let j = choose|j: int| 0 <= j < i && #[trigger] ids@[j] == old_r[k];
                        assert(ids@[j] == r@[k]);
                    }
                }
            } else {
                assert forall|k: int| #![trigger r@[k]] 0 <= k < r@.len() implies exists|j: int|
                    0 <= j < i + 1 && #[trigger] ids@[j] == r@[k] by {
                    let j = choose|j: int| 0 <= j < i && #[trigger] ids@[j] == r@[k];
                    assert(ids@[j] == r@[k]);
                }
            }
        }
        i += 1;
    }
    proof {
        assert forall|id: ObjId| is_image_at(pdf_objects(*doc), id) implies exists|j: int|
            0 <= j < ids@.len() && #[trigger] ids@[j] == id by {
            assert(ids@.to_set().contains(id));
            assert(ids@.contains(id));
        }
    }
    r
}

/// The integer of a dictionary entry, cut to 32 bits, or 0.
fn dimension_of(e: Option<DictEntry>) -> (r: u32)
    ensures
        r == match e {
            Some(DictEntry::Integer(i)) => i as u32,
            _ => 0u32,
        },
{
    match e {
        Some(DictEntry::Integer(i)) => i as u32,
        _ => 0,
    }
}

/// The JPEG encoding of the image `id`, or why there is none.
fn jpeg_encode(
    doc: &Document,
    id: ObjId,
    cmyk: bool,
    color_space: &Option<Vec<u8>>,
    filter: &DictEntry,
    width: u32,
    height: u32,
    content: Vec<u8>,
    quality: u8,
) -> (r: Result<Vec<u8>, ImageOutcome>)
    requires
        is_image_at(pdf_objects(*doc), id),
        content@ == stream_content(pdf_objects(*doc)[id]),
        report_describes(
            ImageReport {
                id,
                color_space: *color_space,
                filter: *filter,
                width,
                height,
                content_len: content.len(),
                outcome: ImageOutcome::SkippedEmptyOutput,
            },
            pdf_objects(*doc)[id],
        ),
    ensures
        match r {
            Ok(b) => jpeg_encoding(pdf_objects(*doc)[id], cmyk, quality) == Ok::<Seq<u8>, ImageOutcome>(
                b@,
            ),
            Err(e) => jpeg_encoding(pdf_objects(*doc)[id], cmyk, quality) == Err::<Seq<u8>, ImageOutcome>(
                e,
            ),
        },
{
    let ghost o = pdf_objects(*doc)[id];
    if cmyk {
        return Err(ImageOutcome::SkippedCmyk);
    }
    let f: Option<Vec<u8>> = match filter {
        DictEntry::Name(n) => Some(slice_to_vec(n.as_slice())),
        DictEntry::Array(v) => {
            if v.len() == 1 {
                match &v[0] {
                    ArrayItem::Name(n) => Some(slice_to_vec(n.as_slice())),
                    _ => None,
                }
            } else {
                return Err(ImageOutcome::SkippedFilterPipeline);
            }
        },
        _ => None,
    };
    match f {
        None => Err(ImageOutcome::SkippedNoFilter),
        Some(f) => {
            if bytes_eq(f.as_slice(), "DCTDecode".as_bytes()) || bytes_eq(
                f.as_slice(),
                "JPXDecode".as_bytes(),
            ) {
                match reencode_as_jpeg(content.as_slice(), quality) {
                    Some(b) => Ok(b),
                    None => Err(ImageOutcome::SkippedUndecodable),
                }
            } else {
                match stream_decoded_content(doc, id) {
                    None => Err(ImageOutcome::SkippedDecompressFailed),
                    Some(raw) => {
                        if opt_bytes_eq(color_space, "DeviceGray".as_bytes()) {
                            match gray_as_jpeg(width, height, raw, quality) {
                                Some(b) => Ok(b),
                                None => Err(ImageOutcome::SkippedBadPixelData),
                            }
                        } else {
                            match rgb_as_jpeg(width, height, raw, quality) {
                                Some(b) => Ok(b),
                                None => Err(ImageOutcome::SkippedBadPixelData),
                            }
                        }
                    },
                }
            }
        },
    }
}

/// Whether the image `id` is a CMYK image.
fn cmyk_of(doc: &Document, id: ObjId) -> (r: bool)
    requires
        is_image_at(pdf_objects(*doc), id),
    ensures
        r == is_cmyk(pdf_objects(*doc), pdf_objects(*doc)[id]),
{
    match stream_entry(doc, id, "ColorSpace".as_bytes()) {
        Some(DictEntry::Name(n)) => bytes_eq(n.as_slice(), "DeviceCMYK".as_bytes()),
        Some(DictEntry::Array(v)) => {
            if v.len() != 2 {
                return false;
            }
            let icc = match &v[0] {
                ArrayItem::Name(n) => bytes_eq(n.as_slice(), "ICCBased".as_bytes()),
                _ => false,
            };
            if !icc {
                return false;
            }
            match &v[1] {
                ArrayItem::Reference(profile) => match stream_entry(doc, *profile, "N".as_bytes()) {
                    Some(DictEntry::Integer(c)) => c == 4,
                    _ => false,
                },
                _ => false,
            }
        },
        _ => false,
    }
}

/// Re-encodes the image `id` and tells what became of it.
fn compress_image(doc: &mut Document, id: ObjId, cmyk: bool, quality: u8) -> (r: ImageReport)
    requires
        is_image_at(pdf_objects(*old(doc)), id),
    ensures
        pdf_objects(*final(doc)) == pdf_objects(*old(doc)).insert(
            id,
            recompressed(pdf_objects(*old(doc))[id], cmyk, quality),
        ),
        r.id == id,
        r.outcome == image_outcome(pdf_objects(*old(doc))[id], cmyk, quality),
        pdf_trailer(*final(doc)) == pdf_trailer(*old(doc)),
        pdf_max_id(*final(doc)) == pdf_max_id(*old(doc)),
        pdf_version(*final(doc)) == pdf_version(*old(doc)),
        report_describes(r, pdf_objects(*old(doc))[id]),
{
    let ghost o = pdf_objects(*doc)[id];
    let color_space = match stream_entry(doc, id, "ColorSpace".as_bytes()) {
        Some(DictEntry::Name(n)) => Some(n),
        _ => None,
    };
    let width = dimension_of(stream_entry(doc, id, "Width".as_bytes()));
    let height = dimension_of(stream_entry(doc, id, "Height".as_bytes()));
    let filter = stream_entry(doc, id, "Filter".as_bytes()).unwrap();
    let content = stream_raw_content(doc, id).unwrap();
    let content_len = content.len();
    let encoded = jpeg_encode(doc, id, cmyk, &color_space, &filter, width, height, content, quality);
    let outcome = match encoded {
        Err(e) => e,
        Ok(buf) => {
            if buf.len() == 0 {
                ImageOutcome::SkippedEmptyOutput
            } else if buf.len() < content_len {
                let n = buf.len();
                set_stream_content(doc, id, buf);
                set_stream_entry(
                    doc,
                    id,
                    "Filter".as_bytes(),
                    SimpleValue::Name(slice_to_vec("DCTDecode".as_bytes())),
                );
                set_stream_entry(doc, id, "Length".as_bytes(), SimpleValue::Integer(n as i64));
                proof {
                    assert(pdf_objects(*doc) =~= pdf_objects(*old(doc)).insert(
                        id,
                        recompressed(o, cmyk, quality),
                    ));
                }
                ImageOutcome::Compressed { encoded_len: n }
            } else {
                ImageOutcome::SkippedNotSmaller { encoded_len: buf.len() }
            }
        },
    };
    proof {
        if !(outcome is Compressed) {
            assert(pdf_objects(*doc) =~= pdf_objects(*old(doc)).insert(id, recompressed(o, cmyk, quality)));
        }
    }
    ImageReport { id, color_space, filter, width, height, content_len, outcome }
}

/// Re-encodes the images of the document as JPEG where that makes them
/// smaller, and reports on each image.
///
/// Every image stream (a stream whose `/Subtype` is `/Image`) becomes its
/// `recompressed` form; every other object stays as it was. There is one
/// report per image stream, in increasing order of identifiers, and it
/// tells the outcome that `image_outcome` gives.
pub fn compress_images(doc: &mut Document, quality: u8) -> (r: Vec<ImageReport>)
    ensures
        pdf_objects(*final(doc)).dom() == pdf_objects(*old(doc)).dom(),
        pdf_trailer(*final(doc)) == pdf_trailer(*old(doc)),
        pdf_max_id(*final(doc)) == pdf_max_id(*old(doc)),
        pdf_version(*final(doc)) == pdf_version(*old(doc)),
        forall|id: ObjId|
            #![trigger pdf_objects(*final(doc))[id]]
            pdf_objects(*old(doc)).dom().contains(id) ==> pdf_objects(*final(doc))[id] == if is_image(
                pdf_objects(*old(doc))[id],
            ) {
                recompressed(pdf_objects(*old(doc))[id], is_cmyk(pdf_objects(*old(doc)), pdf_objects(*old(doc))[id]), quality)
            } else {
                pdf_objects(*old(doc))[id]
            },
        forall|i: int|
            #![trigger r@[i]]
            0 <= i < r@.len() ==> {
                &&& is_image_at(pdf_objects(*old(doc)), r@[i].id)
                &&& r@[i].outcome == image_outcome(
                    pdf_objects(*old(doc))[r@[i].id],
                    is_cmyk(pdf_objects(*old(doc)), pdf_objects(*old(doc))[r@[i].id]),
                    quality,
                )
                &&& report_describes(r@[i], pdf_objects(*old(doc))[r@[i].id])
            },
        forall|id: ObjId|
            is_image_at(pdf_objects(*old(doc)), id) ==> exists|i: int|
                0 <= i < r@.len() && #[trigger] r@[i].id == id,
        forall|i: int, j: int| 0 <= i < j < r@.len() ==> id_lt(#[trigger] r@[i].id, #[trigger] r@[j].id),
{
    let ghost old_objs = pdf_objects(*doc);
    let ids = image_stream_ids(doc);
    let mut cmyk: Vec<bool> = Vec::new();
    let mut k: usize = 0;
    while k < ids.len()
        invariant
            k <= ids@.len(),
            cmyk@.len() == k,
            pdf_objects(*doc) == old_objs,
            forall|id: ObjId| ids@.contains(id) <==> is_image_at(old_objs, id),
            forall|j: int| 0 <= j < k ==> #[trigger] cmyk@[j] == is_cmyk(old_objs, old_objs[ids@[j]]),
        decreases ids@.len() - k,
    {
        proof {
            assert(ids@.contains(ids@[k as int]));
        }
        cmyk.push(cmyk_of(doc, ids[k]));
        k += 1;
    }
    let mut reports: Vec<ImageReport> = Vec::new();
    let mut i: usize = 0;
    while i < ids.len()
        invariant
            i <= ids@.len(),
            ids@.no_duplicates(),
            ids_sorted(ids@),
            forall|id: ObjId| ids@.contains(id) <==> is_image_at(old_objs, id),
            cmyk@.len() == ids@.len(),
            forall|j: int|
                0 <= j < ids@.len() ==> #[trigger] cmyk@[j] == is_cmyk(old_objs, old_objs[ids@[j]]),
            pdf_objects(*doc).dom() == old_objs.dom(),
            pdf_trailer(*doc) == pdf_trailer(*old(doc)),
            pdf_max_id(*doc) == pdf_max_id(*old(doc)),
            pdf_version(*doc) == pdf_version(*old(doc)),
            forall|id: ObjId|
                #![trigger pdf_objects(*doc)[id]]
                old_objs.dom().contains(id) ==> pdf_objects(*doc)[id] == if exists|j: int|
                    0 <= j < i && #[trigger] ids@[j] == id {
                    recompressed(old_objs[id], is_cmyk(old_objs, old_objs[id]), quality)
                } else {
                    old_objs[id]
                },
            reports@.len() == i,
            forall|j: int|
                #![trigger reports@[j]]
                0 <= j < i ==> {
                    &&& reports@[j].id == ids@[j]
                    &&& is_image_at(old_objs, reports@[j].id)
                    &&& reports@[j].outcome == image_outcome(
                        old_objs[reports@[j].id],
                        is_cmyk(old_objs, old_objs[reports@[j].id]),
                        quality,
                    )
                    &&& report_describes(reports@[j], old_objs[reports@[j].id])
                },
        decreases ids@.len() - i,
    {
        let id = ids[i];
        proof {
            assert(ids@.contains(id));
            assert(is_image_at(old_objs, id));
            assert(old_objs.dom().contains(id));
            assert(!exists|j: int| 0 <= j < i && #[trigger] ids@[j] == id);
            assert(pdf_objects(*doc)[id] == old_objs[id]);
            assert(is_image_at(pdf_objects(*doc), id));
        }
        let report = compress_image(doc, id, cmyk[i], quality);
        reports.push(report);
        proof {
            assert forall|k: ObjId| #[trigger]
                old_objs.dom().contains(k) implies pdf_objects(*doc)[k] == if exists|j: int|
                0 <= j < i + 1 && #[trigger] ids@[j] == k {
                recompressed(old_objs[k], is_cmyk(old_objs, old_objs[k]), quality)
            } else {
                old_objs[k]
            } by {
                if k == id {
                    assert(ids@[i as int] == k);
                } else {
                    if exists|j: int| 0 <= j < i + 1 && #[trigger] ids@[j] == k {
                        let j = choose|j: int| 0 <= j < i + 1 && #[trigger] ids@[j] == k;
                        assert(j != i);
                    }
                }
            }
        }
        i += 1;
    }
    proof {
        assert forall|id: ObjId| is_image_at(old_objs, id) implies exists|i: int|
            0 <= i < reports@.len() && #[trigger] reports@[i].id == id by {
            assert(ids@.contains(id));
            let j = choose|j: int| 0 <= j < ids@.len() && ids@[j] == id;
            assert(reports@[j].id == id);
        }
        assert forall|k: ObjId| #[trigger]
            old_objs.dom().contains(k) implies pdf_objects(*doc)[k] == if is_image(old_objs[k]) {
            recompressed(old_objs[k], is_cmyk(old_objs, old_objs[k]), quality)
        } else {
            old_objs[k]
        } by {
            if is_image(old_objs[k]) {
                assert(ids@.contains(k));
                let j = choose|j: int| 0 <= j < ids@.len() && ids@[j] == k;
                assert(ids@[j] == k);
            } else {
                if exists|j: int| 0 <= j < ids@.len() && #[trigger] ids@[j] == k {
                    let j = choose|j: int| 0 <= j < ids@.len() && #[trigger] ids@[j] == k;
                    assert(ids@.contains(k));
                }
            }
        }
    }
    reports
}

// ---------------------------------------------------------------------------
// Laws.

/// Re-encoding never makes an image larger: what it holds afterwards is at
/// most as long as what it held before.
pub proof fn law_recompressed_never_grows(o: PdfObject, cmyk: bool, quality: u8)
    ensures
        stream_content(recompressed(o, cmyk, quality)).len() <= stream_content(o).len(),
{
}

/// CMYK images (colour space `/DeviceCMYK`, or an ICC profile with four
/// components) are left as they are, and reported so.
pub proof fn law_cmyk_image_kept(m: Map<ObjId, PdfObject>, o: PdfObject, quality: u8)
    requires
        is_cmyk(m, o),
    ensures
        recompressed(o, is_cmyk(m, o), quality) == o,
        image_outcome(o, is_cmyk(m, o), quality) == ImageOutcome::SkippedCmyk,
{
}

/// The outcome tells what became of the image: a compressed image holds
/// the new, shorter bytes, marked as JPEG with their length; under any
/// other outcome the image is what it was.
pub proof fn law_outcome_tells_change(o: PdfObject, cmyk: bool, quality: u8)
    requires
        o is Stream,
        stream_content(o).len() <= usize::MAX,
    ensures
        match image_outcome(o, cmyk, quality) {
            ImageOutcome::Compressed { encoded_len } => {
                let r = recompressed(o, cmyk, quality);
                &&& r is Stream
                &&& stream_content(r).len() == encoded_len
                &&& encoded_len < stream_content(o).len()
                &&& crate::pdf::model::stream_entry(r, "Filter") == Some(name("DCTDecode"))
                &&& crate::pdf::model::stream_entry(r, "Length") == Some(
                    PdfObject::Integer(encoded_len as i64),
                )
            },
            _ => recompressed(o, cmyk, quality) == o,
        },
{
    if let ImageOutcome::Compressed { encoded_len } = image_outcome(o, cmyk, quality) {
        let b = jpeg_encoding(o, cmyk, quality)->Ok_0;
        reveal_strlit("Filter");
        reveal_strlit("Length");
        lemma_names_differ("Filter", "Length");
        let d = stream_dict(o);
        let f = "Filter".spec_bytes();
        let l = "Length".spec_bytes();
        lemma_dict_get_set(d, f, name("DCTDecode"), f);
        lemma_dict_get_set(dict_set(d, f, name("DCTDecode")), l, PdfObject::Integer(b.len() as i64), f);
        lemma_dict_get_set(dict_set(d, f, name("DCTDecode")), l, PdfObject::Integer(b.len() as i64), l);
    }
}

/// A `/Filter` that is a one-element array counts as its element: the
/// image is decoded with the same filter as when `/Filter` is that name.
pub proof fn law_single_filter_array(o: PdfObject, f: Seq<u8>)
    requires
        o is Stream,
    ensures
        single_filter(with_entry(o, "Filter".spec_bytes(), PdfObject::Array(seq![PdfObject::Name(f)])))
            == single_filter(with_entry(o, "Filter".spec_bytes(), PdfObject::Name(f))),
        single_filter(with_entry(o, "Filter".spec_bytes(), PdfObject::Name(f))) == Ok::<
            Option<Seq<u8>>,
            (),
        >(Some(f)),
{
    let d = stream_dict(o);
    let k = "Filter".spec_bytes();
    lemma_dict_get_set(d, k, PdfObject::Array(seq![PdfObject::Name(f)]), k);
    lemma_dict_get_set(d, k, PdfObject::Name(f), k);
}

/// A `/Filter` that is a one-element array of a name and one that is that
/// name come to the same: the image is a CMYK image in both forms or in
/// neither, has the same outcome, and when it is compressed it becomes the
/// same stream.
pub proof fn law_filter_name_or_one_element_array(
    m: Map<ObjId, PdfObject>,
    o: PdfObject,
    f: Seq<u8>,
    quality: u8,
)
    requires
        o is Stream,
    ensures
        ({
            let o1 = with_entry(o, "Filter".spec_bytes(), PdfObject::Name(f));
            let o2 = with_entry(o, "Filter".spec_bytes(), PdfObject::Array(seq![PdfObject::Name(f)]));
            &&& is_cmyk(m, o1) == is_cmyk(m, o2)
            &&& image_outcome(o1, is_cmyk(m, o1), quality) == image_outcome(
                o2,
                is_cmyk(m, o2),
                quality,
            )
            &&& image_outcome(o1, is_cmyk(m, o1), quality) is Compressed ==> recompressed(
                o1,
                is_cmyk(m, o1),
                quality,
            ) == recompressed(o2, is_cmyk(m, o2), quality)
        }),
{
    reveal_strlit("Filter");
    reveal_strlit("ColorSpace");
    reveal_strlit("Width");
    reveal_strlit("Height");
    reveal_strlit("Length");
    lemma_names_differ("Filter", "ColorSpace");
    lemma_names_differ("Filter", "Width");
    lemma_names_differ("Filter", "Height");
    let k = "Filter".spec_bytes();
    let d = stream_dict(o);
    let v1 = PdfObject::Name(f);
    let v2 = PdfObject::Array(seq![PdfObject::Name(f)]);
    let o1 = with_entry(o, k, v1);
    let o2 = with_entry(o, k, v2);
    lemma_dict_get_set(d, k, v1, "ColorSpace".spec_bytes());
    lemma_dict_get_set(d, k, v2, "ColorSpace".spec_bytes());
    lemma_dict_get_set(d, k, v1, "Width".spec_bytes());
    lemma_dict_get_set(d, k, v2, "Width".spec_bytes());
    lemma_dict_get_set(d, k, v1, "Height".spec_bytes());
    lemma_dict_get_set(d, k, v2, "Height".spec_bytes());
    lemma_dict_get_set(d, k, v1, k);
    lemma_dict_get_set(d, k, v2, k);
    law_single_filter_array(o, f);
    lemma_dict_set_set(d, k, v2, v1);
    assert(decoding_dict(stream_dict(o2)) == stream_dict(o1));
    assert(decoding_dict(stream_dict(o1)) == stream_dict(o1));
    assert(is_cmyk(m, o1) == is_cmyk(m, o2));
    assert(jpeg_encoding(o1, is_cmyk(m, o1), quality) == jpeg_encoding(o2, is_cmyk(m, o2), quality));
    let dct = name("DCTDecode");
    lemma_dict_set_set(d, k, v1, dct);
    lemma_dict_set_set(d, k, v2, dct);
}

/// An image that is re-encoded from its decoded samples is encoded as a
/// picture of its declared size: `/Width` pixels wide and `/Height` pixels
/// high, one sample per pixel for `/DeviceGray` and three otherwise. It is
/// skipped for bad pixel data exactly when the samples are fewer than that
/// size asks for; when it is replaced, what replaces it is that picture's
/// JPEG, and otherwise it stays as it was.
pub proof fn law_raw_image_encoded_at_declared_size(
    o: PdfObject,
    cmyk: bool,
    quality: u8,
    f: Seq<u8>,
    raw: Seq<u8>,
)
    requires
        o is Stream,
        stream_content(o).len() <= usize::MAX,
        !cmyk,
        single_filter(o) == Ok::<Option<Seq<u8>>, ()>(Some(f)),
        f != "DCTDecode".spec_bytes(),
        f != "JPXDecode".spec_bytes(),
        decoded_content(decoding_dict(stream_dict(o)), stream_content(o)) == Some(raw),
    ensures
        ({
            let width = dimension(o, "Width");
            let height = dimension(o, "Height");
            let gray = is_name(crate::pdf::model::stream_entry(o, "ColorSpace"), "DeviceGray");
            let needed: int = if gray {
                width * height
            } else {
                3 * width * height
            };
            let jpeg = if gray {
                jpeg_from_gray(width, height, raw, quality)
            } else {
                jpeg_from_rgb(width, height, raw, quality)
            };
            &&& (image_outcome(o, cmyk, quality) == ImageOutcome::SkippedBadPixelData <==> raw.len()
                < needed)
            &&& raw.len() >= needed ==> match image_outcome(o, cmyk, quality) {
                ImageOutcome::Compressed { encoded_len } => {
                    &&& stream_content(recompressed(o, cmyk, quality)) == jpeg
                    &&& encoded_len == jpeg.len()
                },
                _ => recompressed(o, cmyk, quality) == o,
            }
        }),
{
}

} // verus!
