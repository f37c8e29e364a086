//! Writing a document: first empty streams go and the streams that may be
//! compressed are compressed with Flate; then the document is written out,
//! compactly (object and cross-reference streams) or plainly.
use crate::pdf::lopdf_api::{
    compress_document, delete_zero_length_streams, document_compressed, empty_streams,
    object_count, written_view, pdf_binary_mark, pdf_max_id, pdf_objects, pdf_trailer, pdf_version,
    pdf_xref_streams, object_after_deletes, plain_filter, trailer_after_deletes, save_to_vec, save_with_options_to_vec, serialized,
    serialized_with_options,
};
use crate::pdf::model::{stream_content, stream_entry, ObjId};
use lopdf::Document;
use vstd::prelude::*;

verus! {

/// What the clean-up before saving did.
pub struct CleanupReport {
    /// How many objects the document held before.
    pub objects_before: usize,
    /// The streams that were removed because they were empty.
    pub removed: Vec<ObjId>,
    /// How many objects the document holds after.
    pub objects_after: usize,
}

/// Removes the empty streams of the document, then compresses its streams,
/// as is done before it is written.
///
/// The trailer's values lose references to the removed streams as
/// `trailer_after_deletes` says; each remaining object is the
/// `document_compressed` form of what the deletions made of it (see
/// `object_after_deletes`). The objects that remain are those that were no
/// empty stream; each keeps
/// its kind, and a stream whose `/Filter` is missing or a name ends up with
/// the content `Document::compress` gives it: Flate-compressed when it has
/// no filter, may be compressed and gets more than 19 bytes shorter so, as
/// it was otherwise; no stream is left empty.
pub fn compress_pdf(doc: &mut Document) -> (r: CleanupReport)
    ensures
        r.objects_before == pdf_objects(*old(doc)).dom().len(),
        r.removed@.to_set() == empty_streams(pdf_objects(*old(doc))),
        r.removed@.no_duplicates(),
        pdf_objects(*final(doc)).dom() == pdf_objects(*old(doc)).dom().difference(
            empty_streams(pdf_objects(*old(doc))),
        ),
        r.objects_after == pdf_objects(*final(doc)).dom().len(),
        forall|id: ObjId|
            #![trigger pdf_objects(*final(doc))[id]]
            pdf_objects(*final(doc)).dom().contains(id) ==> {
                &&& (pdf_objects(*final(doc))[id] is Stream <==> pdf_objects(*old(doc))[id] is Stream)
                &&& (plain_filter(pdf_objects(*old(doc))[id]) ==> stream_content(
                    pdf_objects(*final(doc))[id],
                ) == stream_content(document_compressed(pdf_objects(*old(doc))[id])))
                &&& (pdf_objects(*final(doc))[id] is Stream ==> stream_content(
                    pdf_objects(*final(doc))[id],
                ).len() > 0)
            },
        pdf_trailer(*final(doc)) == trailer_after_deletes(pdf_trailer(*old(doc)), r.removed@),
        forall|id: ObjId|
            #![trigger pdf_objects(*final(doc))[id]]
            pdf_objects(*final(doc)).dom().contains(id) ==> exists|reached: Seq<bool>|
                reached.len() == r.removed@.len() && pdf_objects(*final(doc))[id] == document_compressed(
                    object_after_deletes(pdf_objects(*old(doc))[id], r.removed@, reached),
                ),
        pdf_max_id(*final(doc)) == pdf_max_id(*old(doc)),
        pdf_version(*final(doc)) == pdf_version(*old(doc)),
{
    let objects_before = object_count(doc);
    let removed = delete_zero_length_streams(doc);
    let ghost cleaned = pdf_objects(*doc);
    compress_document(doc);
    let objects_after = object_count(doc);
    proof {
        assert forall|id: ObjId| #[trigger]
            pdf_objects(*doc).dom().contains(id) implies (pdf_objects(*doc)[id] is Stream
            <==> pdf_objects(*old(doc))[id] is Stream) by {
            assert(cleaned.dom().contains(id));
            assert(cleaned[id] is Stream <==> pdf_objects(*old(doc))[id] is Stream);
            assert(pdf_objects(*doc)[id] == document_compressed(cleaned[id]));
            assert(!empty_streams(pdf_objects(*old(doc))).contains(id));
            if plain_filter(pdf_objects(*old(doc))[id]) {
                reveal_strlit("Filter");
                assert(stream_entry(cleaned[id], "Filter") == stream_entry(
                    pdf_objects(*old(doc))[id],
                    "Filter",
                ));
            }
        }
        assert forall|id: ObjId| #[trigger]
            pdf_objects(*doc).dom().contains(id) implies exists|reached: Seq<bool>|
                reached.len() == removed@.len() && pdf_objects(*doc)[id] == document_compressed(
                    object_after_deletes(pdf_objects(*old(doc))[id], removed@, reached),
                ) by {
            assert(cleaned.dom().contains(id));
            let reached = choose|reached: Seq<bool>|
                reached.len() == removed@.len() && cleaned[id] == object_after_deletes(
                    pdf_objects(*old(doc))[id],
                    removed@,
                    reached,
                );
            assert(pdf_objects(*doc)[id] == document_compressed(cleaned[id]));
        }
    }
    CleanupReport { objects_before, removed, objects_after }
}

/// How many objects at most go into one object stream.
pub const OBJECTS_PER_STREAM: usize = 200;

/// The zlib level object streams are compressed at.
pub const COMPRESSION_LEVEL: u32 = 9;

/// The bytes of the document written compactly: objects packed into object
/// streams (at most `OBJECTS_PER_STREAM` each, compressed at level
/// `COMPRESSION_LEVEL`) and the cross-reference data as a stream; or the
/// text of lopdf's error when writing fails. The document itself is left as it is.
pub fn serialize_compressed(doc: &Document) -> (r: Result<Vec<u8>, String>)
    ensures
        written_view(r) == serialized_with_options(
            pdf_objects(*doc),
            pdf_trailer(*doc),
            pdf_max_id(*doc),
            pdf_version(*doc),
            pdf_binary_mark(*doc),
            pdf_xref_streams(*doc),
            true,
            true,
            OBJECTS_PER_STREAM,
            COMPRESSION_LEVEL,
        ),
{
    save_with_options_to_vec(doc, true, true, OBJECTS_PER_STREAM, COMPRESSION_LEVEL)
}

/// The bytes of the document written plainly, each object on its own; or
/// the text of lopdf's error when writing fails. The document itself is left as it is.
pub fn serialize(doc: &Document) -> (r: Result<Vec<u8>, String>)
    ensures
        written_view(r) == serialized(
            pdf_objects(*doc),
            pdf_trailer(*doc),
            pdf_max_id(*doc),
            pdf_version(*doc),
            pdf_binary_mark(*doc),
            pdf_xref_streams(*doc),
        ),
{
    save_to_vec(doc)
}

} // verus!
