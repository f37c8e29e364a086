//! Merging two documents into one.
//!
//! The objects of both documents are numbered anew so that they do not
//! collide: the first document's from 1 on, the second's after them. The
//! merged document then takes every object of both, in increasing order of
//! identifiers, except that:
//! - of the catalogs, the identifier of the first and the content of the
//!   last are kept;
//! - the page tree nodes are gathered into one: the first one's identifier,
//!   and their dictionaries combined with `Dictionary::extend`;
//! - pages, outlines and outline items are left out at first.
//! The pages of the first document and then those of the second that each
//! holds, in page order, are hung under the gathered page tree node, which
//! loses its `/Parent`, counts them and lists them as its kids; the catalog
//! points at it and loses its outlines. Two documents that hold too many
//! objects to be numbered with 32 bits are not merged.
//! The merged document keeps the (new) numbers of the objects it takes.
use crate::pdf::lopdf_api::{
    contains_object, copy_object, declared_type, dict_entries, dict_extend, dict_remove, dict_remove_key,
    dict_insert, extended, id_lt, ids_sorted, max_id, new_document, object_count,
    object_dict, object_ids, object_type, page_ids, page_order, pdf_max_id, pdf_objects,
    pdf_trailer, pdf_version, renumber_objects_with, renumbering, scalar_objects, same_kind, set_dict_object, set_max_id, simple_renumbering,
    set_trailer_entry, DictValue, Scalar,
};
use crate::pdf::model::{
    dict_get, dict_index, dict_set, keys_distinct, root_page_tree, lemma_dict_get_distinct,
    lemma_dict_get_set, lemma_dict_index, lemma_names_differ, lemma_names_differ_in_length, obj_at, opt_bytes_eq, ObjId, PdfDict,
    PdfObject,
};
use lopdf::{Dictionary, Document};
use vstd::prelude::*;
use vstd::string::StringSliceAdditionalSpecFns;

verus! {

/// Why two documents could not be merged.
#[derive(Debug, PartialEq, Eq)]
pub enum MergeError {
    /// Neither document has a page tree node.
    NoPageTree,
    /// Neither document has a catalog.
    NoCatalog,
    /// The two documents hold too many objects to be numbered with 32 bits.
    TooManyObjects,
}

/// What the walk over the objects has gathered so far.
pub struct Gathered {
    /// The catalog: the first identifier seen and the last object seen.
    pub catalog: Option<(ObjId, PdfObject)>,
    /// The page tree node: the first identifier seen and the dictionaries
    /// seen, combined.
    pub pages: Option<(ObjId, PdfDict)>,
    /// The objects taken over as they are.
    pub objects: Map<ObjId, PdfObject>,
}

/// The type is `s`.
pub open spec fn is_type(t: Option<Seq<u8>>, s: &str) -> bool {
    t == Some(s.spec_bytes())
}

/// One more object seen by the walk.
pub open spec fn gather_one(g: Gathered, id: ObjId, o: PdfObject) -> Gathered {
    let t = declared_type(o);
    if is_type(t, "Catalog") {
        Gathered {
            catalog: Some(
                (
                    match g.catalog {
                        Some(c) => c.0,
                        None => id,
                    },
                    o,
                ),
            ),
            pages: g.pages,
            objects: g.objects,
        }
    } else if is_type(t, "Pages") {
        match o {
            PdfObject::Dictionary(d) => Gathered {
                catalog: g.catalog,
                pages: Some(
                    match g.pages {
                        Some(p) => (p.0, extended(d, p.1)),
                        None => (id, d),
                    },
                ),
                objects: g.objects,
            },
            _ => g,
        }
    } else if is_type(t, "Page") || is_type(t, "Outlines") || is_type(t, "Outline") {
        g
    } else {
        Gathered { catalog: g.catalog, pages: g.pages, objects: g.objects.insert(id, o) }
    }
}

/// The walk over the objects `m` holds under `ids`, in that order.
pub open spec fn gather(g: Gathered, ids: Seq<ObjId>, m: Map<ObjId, PdfObject>) -> Gathered
    decreases ids.len(),
{
    if ids.len() == 0 {
        g
    } else {
        gather_one(gather(g, ids.drop_last(), m), ids.last(), m[ids.last()])
    }
}

/// The identifiers of a set, in increasing order.
pub open spec fn sorted_ids(s: Set<ObjId>) -> Seq<ObjId> {
    choose|q: Seq<ObjId>| q.to_set() == s && q.no_duplicates() && ids_sorted(q)
}

/// A reference to an object.
pub open spec fn reference(id: ObjId) -> PdfObject {
    PdfObject::Reference(id.0, id.1)
}

/// The pages `pages`, taken from `src`, hung under `parent`: each page that
/// is a dictionary goes in with its `/Parent` set.
pub open spec fn place_pages(
    objs: Map<ObjId, PdfObject>,
    pages: Seq<ObjId>,
    src: Map<ObjId, PdfObject>,
    parent: ObjId,
) -> Map<ObjId, PdfObject>
    decreases pages.len(),
{
    if pages.len() == 0 {
        objs
    } else {
        let prev = place_pages(objs, pages.drop_last(), src, parent);
        let p = pages.last();
        match src[p] {
            PdfObject::Dictionary(d) => prev.insert(
                p,
                PdfObject::Dictionary(dict_set(d, "Parent".spec_bytes(), reference(parent))),
            ),
            _ => prev,
        }
    }
}

/// The pages of `pages` that the objects `m` hold, in order.
pub open spec fn present_pages(pages: Seq<ObjId>, m: Map<ObjId, PdfObject>) -> Seq<ObjId>
    decreases pages.len(),
{
    if pages.len() == 0 {
        pages
    } else {
        let prev = present_pages(pages.drop_last(), m);
        if m.dom().contains(pages.last()) {
            prev.push(pages.last())
        } else {
            prev
        }
    }
}

/// The pages of a document that it holds, in page order.
pub open spec fn document_pages(m: Map<ObjId, PdfObject>, t: PdfDict) -> Seq<ObjId> {
    present_pages(page_order(m, t), m)
}

/// The walk over both documents, from nothing gathered.
pub open spec fn gather_both(m1: Map<ObjId, PdfObject>, m2: Map<ObjId, PdfObject>) -> Gathered {
    let g0 = Gathered { catalog: None, pages: None, objects: Map::empty() };
    gather(gather(g0, sorted_ids(m1.dom()), m1), sorted_ids(m2.dom()), m2)
}

/// The objects and the trailer of the merged document, from the
/// (renumbered) objects and trailers of the two documents; or why there are
/// none.
pub open spec fn merged_parts(
    m1: Map<ObjId, PdfObject>,
    t1: PdfDict,
    m2: Map<ObjId, PdfObject>,
    t2: PdfDict,
) -> Result<(Map<ObjId, PdfObject>, PdfDict), MergeError> {
    let g = gather_both(m1, m2);
    let pages = document_pages(m1, t1) + document_pages(m2, t2);
    match g.pages {
        None => Err(MergeError::NoPageTree),
        Some((pid, pd)) => match g.catalog {
            None => Err(MergeError::NoCatalog),
            Some((cid, co)) => {
                let objs = place_pages(g.objects, pages, m1.union_prefer_right(m2), pid);
                let pd2 = dict_set(
                    dict_set(
                        dict_remove(pd, "Parent".spec_bytes()),
                        "Count".spec_bytes(),
                        PdfObject::Integer(pages.len() as u32 as i64),
                    ),
                    "Kids".spec_bytes(),
                    PdfObject::Array(pages.map_values(|p: ObjId| reference(p))),
                );
                let objs = objs.insert(pid, PdfObject::Dictionary(pd2));
                let objs = match co {
                    PdfObject::Dictionary(cd) => objs.insert(
                        cid,
                        PdfObject::Dictionary(
                            dict_remove(
                                dict_set(cd, "Pages".spec_bytes(), reference(pid)),
                                "Outlines".spec_bytes(),
                            ),
                        ),
                    ),
                    _ => objs,
                };
                Ok((objs, dict_set(Seq::empty(), "Root".spec_bytes(), reference(cid))))
            },
        },
    }
}

// ---------------------------------------------------------------------------
// Facts.

/// Two increasing sequences of identifiers with the same elements are equal.
pub proof fn lemma_sorted_ids_unique(a: Seq<ObjId>, b: Seq<ObjId>)
    requires
        ids_sorted(a),
        ids_sorted(b),
        a.to_set() == b.to_set(),
    ensures
        a == b,
    decreases a.len(),
{
    if a.len() == 0 {
        if b.len() > 0 {
            assert(b.to_set().contains(b[0]));
        }
        assert(b =~= a);
    } else {
        if b.len() == 0 {
            assert(a.to_set().contains(a[0]));
        }
        assert(a.to_set().contains(a[0]));
        assert(b.to_set().contains(b[0]));
        let j = choose|j: int| 0 <= j < b.len() && b[j] == a[0];
        let i = choose|i: int| 0 <= i < a.len() && a[i] == b[0];
        if j > 0 {
            assert(id_lt(b[0], b[j]));
            if i > 0 {
                assert(id_lt(a[0], a[i]));
            }
        }
        assert(a[0] == b[0]);
        let a1 = a.drop_first();
        let b1 = b.drop_first();
        assert forall|x: ObjId| a1.to_set().contains(x) implies b1.to_set().contains(x) by {
            let k = choose|k: int| 0 <= k < a1.len() && a1[k] == x;
            assert(a[k + 1] == x);
            assert(id_lt(a[0], x));
            assert(b.to_set().contains(x));
            let m = choose|m: int| 0 <= m < b.len() && b[m] == x;
            assert(m != 0);
            assert(b1[m - 1] == x);
        }
        assert forall|x: ObjId| b1.to_set().contains(x) implies a1.to_set().contains(x) by {
            let k = choose|k: int| 0 <= k < b1.len() && b1[k] == x;
            assert(b[k + 1] == x);
            assert(id_lt(b[0], x));
            assert(a.to_set().contains(x));
            let m = choose|m: int| 0 <= m < a.len() && a[m] == x;
            assert(m != 0);
            assert(a1[m - 1] == x);
        }
        assert(a1.to_set() =~= b1.to_set());
        lemma_sorted_ids_unique(a1, b1);
        assert(a.len() == b.len());
        assert forall|k: int| 0 <= k < a.len() implies a[k] == b[k] by {
            if k > 0 {
                assert(a[k] == a1[k - 1]);
                assert(b[k] == b1[k - 1]);
            }
        }
        assert(a =~= b);
    }
}

/// The identifiers `object_ids` lists are the sorted identifiers.
pub proof fn lemma_object_ids_sorted(ids: Seq<ObjId>, s: Set<ObjId>)
    requires
        ids.to_set() == s,
        ids.no_duplicates(),
        ids_sorted(ids),
    ensures
        sorted_ids(s) == ids,
{
    let q = sorted_ids(s);
    assert(exists|q: Seq<ObjId>| q.to_set() == s && q.no_duplicates() && ids_sorted(q));
    lemma_sorted_ids_unique(q, ids);
}

/// `a` comes before or is `b`.
pub open spec fn id_le(a: ObjId, b: ObjId) -> bool {
    !id_lt(b, a)
}

/// Every finite set of identifiers can be listed in increasing order, so
/// `sorted_ids` lists it.
pub proof fn lemma_sorted_ids_exist(s: Set<ObjId>)
    requires
        s.finite(),
    ensures
        sorted_ids(s).to_set() == s,
        sorted_ids(s).no_duplicates(),
        ids_sorted(sorted_ids(s)),
    decreases s.len(),
{
    let q = lemma_sorted_listing(s);
    assert(q.to_set() == s && q.no_duplicates() && ids_sorted(q));
}

/// A listing of a finite set of identifiers in increasing order.
proof fn lemma_sorted_listing(s: Set<ObjId>) -> (q: Seq<ObjId>)
    requires
        s.finite(),
    ensures
        q.to_set() == s,
        q.no_duplicates(),
        ids_sorted(q),
    decreases s.len(),
{
    if s.len() == 0 {
        s.lemma_len0_is_empty();
        let q = Seq::<ObjId>::empty();
        assert(q.to_set() =~= s);
        q
    } else {
        let leq = |a: ObjId, b: ObjId| id_le(a, b);
        assert(vstd::relations::total_ordering(leq)) by {
            assert forall|x: ObjId, y: ObjId| #[trigger] leq(x, y) && #[trigger] leq(y, x) implies x
                == y by {}
        }
        s.find_unique_maximal_ensures(leq);
        let m = s.find_unique_maximal(leq);
        let rest = s.remove(m);
        let q0 = lemma_sorted_listing(rest);
        let q = q0.push(m);
        assert(vstd::relations::is_maximal(leq, m, s));
        assert forall|x: ObjId| rest.contains(x) implies id_lt(x, m) by {
            assert(s.contains(x));
            assert(leq(x, m) || leq(m, x));
            if leq(m, x) {
                assert(leq(x, m));
            }
            assert(x != m);
        }
        assert forall|x: ObjId| q.to_set().contains(x) <==> s.contains(x) by {
            if s.contains(x) && x != m {
                assert(q0.to_set().contains(x));
                let k = choose|k: int| 0 <= k < q0.len() && q0[k] == x;
                assert(q[k] == x);
            }
            if x == m {
                assert(q[q0.len() as int] == m);
            }
            if q.to_set().contains(x) {
                let k = choose|k: int| 0 <= k < q.len() && q[k] == x;
                if k < q0.len() {
                    assert(q0[k] == x);
                    assert(q0.to_set().contains(x));
                }
            }
        }
        assert(q.to_set() =~= s);
        assert forall|i: int, j: int| 0 <= i < j < q.len() implies id_lt(#[trigger] q[i], #[trigger] q[j]) by {
            if j == q0.len() {
                assert(q0.to_set().contains(q0[i]));
            } else {
                assert(q[i] == q0[i] && q[j] == q0[j]);
            }
        }
        assert forall|i: int, j: int| 0 <= i < q.len() && 0 <= j < q.len() && i != j implies q[i]
            != q[j] by {
            if i < j {
                assert(id_lt(q[i], q[j]));
            } else {
                assert(id_lt(q[j], q[i]));
            }
        }
        q
    }
}

// ---------------------------------------------------------------------------
// The walk.

/// The catalog the walk holds stands for the one gathered: same identifier,
/// and its dictionary when it is one.
pub open spec fn catalog_rel(c: Option<(ObjId, Option<Dictionary>)>, g: Option<(ObjId, PdfObject)>) -> bool {
    match c {
        Some((id, od)) => match g {
            Some((gid, o)) => id == gid && match o {
                PdfObject::Dictionary(d) => od matches Some(x) && dict_entries(x) == d,
                _ => od is None,
            },
            None => false,
        },
        None => g is None,
    }
}

/// The page tree node the walk holds stands for the one gathered.
pub open spec fn pages_rel(p: Option<(ObjId, Dictionary)>, g: Option<(ObjId, PdfDict)>) -> bool {
    match p {
        Some((id, d)) => match g {
            Some((gid, gd)) => id == gid && dict_entries(d) == gd,
            None => false,
        },
        None => g is None,
    }
}

/// The walk over the objects of `src`.
fn gather_doc(
    src: &Document,
    merged: &mut Document,
    catalog: Option<(ObjId, Option<Dictionary>)>,
    pages: Option<(ObjId, Dictionary)>,
    Ghost(g): Ghost<Gathered>,
) -> (r: (Option<(ObjId, Option<Dictionary>)>, Option<(ObjId, Dictionary)>))
    requires
        catalog_rel(catalog, g.catalog),
        pages_rel(pages, g.pages),
        pdf_objects(*old(merged)) == g.objects,
    ensures
        catalog_rel(r.0, gather(g, sorted_ids(pdf_objects(*src).dom()), pdf_objects(*src)).catalog),
        pages_rel(r.1, gather(g, sorted_ids(pdf_objects(*src).dom()), pdf_objects(*src)).pages),
        pdf_objects(*final(merged)) == gather(
            g,
            sorted_ids(pdf_objects(*src).dom()),
            pdf_objects(*src),
        ).objects,
        pdf_objects(*src).dom().finite(),
        sorted_ids(pdf_objects(*src).dom()).to_set() == pdf_objects(*src).dom(),
        pdf_trailer(*final(merged)) == pdf_trailer(*old(merged)),
        pdf_max_id(*final(merged)) == pdf_max_id(*old(merged)),
        pdf_version(*final(merged)) == pdf_version(*old(merged)),
{
    let ghost m = pdf_objects(*src);
    let ids = object_ids(src);
    proof {
        lemma_object_ids_sorted(ids@, m.dom());
        vstd::seq_lib::seq_to_set_is_finite(ids@);
    }
    let mut catalog = catalog;
    let mut pages = pages;
    let mut i: usize = 0;
    while i < ids.len()
        invariant
            i <= ids@.len(),
            ids@.to_set() == m.dom(),
            m == pdf_objects(*src),
            ids@ == sorted_ids(m.dom()),
            catalog_rel(catalog, gather(g, ids@.subrange(0, i as int), m).catalog),
            pages_rel(pages, gather(g, ids@.subrange(0, i as int), m).pages),
            pdf_objects(*merged) == gather(g, ids@.subrange(0, i as int), m).objects,
            pdf_trailer(*merged) == pdf_trailer(*old(merged)),
            pdf_max_id(*merged) == pdf_max_id(*old(merged)),
            pdf_version(*merged) == pdf_version(*old(merged)),
        decreases ids@.len() - i,
    {
        let id = ids[i];
        proof {
            assert(ids@.subrange(0, i + 1).drop_last() =~= ids@.subrange(0, i as int));
            assert(ids@.to_set().contains(id));
        }
        let ghost before = gather(g, ids@.subrange(0, i as int), m);
        let t = object_type(src, id);
        if opt_bytes_eq(&t, "Catalog".as_bytes()) {
            let first = match &catalog {
                Some(c) => c.0,
                None => id,
            };
            catalog = Some((first, object_dict(src, id)));
        } else if opt_bytes_eq(&t, "Pages".as_bytes()) {
            match object_dict(src, id) {
                Some(d) => {
                    pages = match pages {
                        Some((pid, old_d)) => {
                            let mut d = d;
                            dict_extend(&mut d, &old_d);
                            Some((pid, d))
                        },
                        None => Some((id, d)),
                    };
                },
                None => {},
            }
        } else if opt_bytes_eq(&t, "Page".as_bytes()) || opt_bytes_eq(&t, "Outlines".as_bytes())
            || opt_bytes_eq(&t, "Outline".as_bytes()) {
        } else {
            copy_object(merged, src, id);
        }
        i += 1;
    }
    proof {
        assert(ids@.subrange(0, ids@.len() as int) =~= ids@);
    }
    (catalog, pages)
}

/// The pages of `doc` that it holds, in page order.
fn present_page_ids(doc: &Document) -> (r: Vec<ObjId>)
    ensures
        r@ == document_pages(pdf_objects(*doc), pdf_trailer(*doc)),
        forall|k: int| 0 <= k < r@.len() ==> pdf_objects(*doc).dom().contains(#[trigger] r@[k]),
{
    let all = page_ids(doc);
    let ghost m = pdf_objects(*doc);
    let mut r: Vec<ObjId> = Vec::new();
    let mut i: usize = 0;
    while i < all.len()
        invariant
            i <= all@.len(),
            m == pdf_objects(*doc),
            r@ == present_pages(all@.subrange(0, i as int), m),
            forall|k: int| 0 <= k < r@.len() ==> m.dom().contains(#[trigger] r@[k]),
        decreases all@.len() - i,
    {
        proof {
            assert(all@.subrange(0, i + 1).drop_last() =~= all@.subrange(0, i as int));
        }
        let p = all[i];
        if contains_object(doc, p) {
            r.push(p);
        }
        i += 1;
    }
    proof {
        assert(all@.subrange(0, all@.len() as int) =~= all@);
    }
    r
}

/// Hangs the pages `pages` of `src` under `parent` in `merged`.
fn place_doc_pages(
    merged: &mut Document,
    src: &Document,
    pages: &Vec<ObjId>,
    parent: ObjId,
    Ghost(all): Ghost<Map<ObjId, PdfObject>>,
)
    requires
        forall|i: int| 0 <= i < pages@.len() ==> pdf_objects(*src).dom().contains(#[trigger] pages@[i]),
        forall|i: int|
            0 <= i < pages@.len() ==> all[#[trigger] pages@[i]] == pdf_objects(*src)[pages@[i]],
    ensures
        pdf_objects(*final(merged)) == place_pages(pdf_objects(*old(merged)), pages@, all, parent),
        pdf_trailer(*final(merged)) == pdf_trailer(*old(merged)),
        pdf_max_id(*final(merged)) == pdf_max_id(*old(merged)),
        pdf_version(*final(merged)) == pdf_version(*old(merged)),
{
    let ghost start = pdf_objects(*merged);
    let mut i: usize = 0;
    while i < pages.len()
        invariant
            i <= pages@.len(),
            forall|i: int|
                0 <= i < pages@.len() ==> pdf_objects(*src).dom().contains(#[trigger] pages@[i]),
            forall|i: int|
                0 <= i < pages@.len() ==> all[#[trigger] pages@[i]] == pdf_objects(*src)[pages@[i]],
            pdf_objects(*merged) == place_pages(start, pages@.subrange(0, i as int), all, parent),
            pdf_trailer(*merged) == pdf_trailer(*old(merged)),
            pdf_max_id(*merged) == pdf_max_id(*old(merged)),
            pdf_version(*merged) == pdf_version(*old(merged)),
        decreases pages@.len() - i,
    {
        let p = pages[i];
        proof {
            assert(pages@.subrange(0, i + 1).drop_last() =~= pages@.subrange(0, i as int));
            assert(pages@.subrange(0, i + 1).last() == p);
            assert(all[p] == pdf_objects(*src)[p]);
        }
        match object_dict(src, p) {
            Some(d) => {
                let mut d = d;
                dict_insert(&mut d, "Parent", DictValue::Scalar(Scalar::Reference(parent)));
                set_dict_object(merged, p, d);
            },
            None => {},
        }
        i += 1;
    }
    proof {
        assert(pages@.subrange(0, pages@.len() as int) =~= pages@);
    }
}

/// All identifiers the walk holds lie in `s`.
pub open spec fn ids_within(g: Gathered, s: Set<ObjId>) -> bool {
    &&& g.objects.dom().subset_of(s)
    &&& (g.catalog matches Some(c) ==> s.contains(c.0))
    &&& (g.pages matches Some(p) ==> s.contains(p.0))
}

/// The walk over identifiers of `s` keeps within `s`.
pub proof fn lemma_gather_within(g: Gathered, ids: Seq<ObjId>, m: Map<ObjId, PdfObject>, s: Set<ObjId>)
    requires
        ids_within(g, s),
        forall|k: int| 0 <= k < ids.len() ==> s.contains(#[trigger] ids[k]),
    ensures
        ids_within(gather(g, ids, m), s),
    decreases ids.len(),
{
    if ids.len() > 0 {
        lemma_gather_within(g, ids.drop_last(), m, s);
        assert(s.contains(ids[ids.len() - 1]));
    }
}

/// Pages hung one list after another are the pages of both lists hung.
pub proof fn lemma_place_pages_concat(
    objs: Map<ObjId, PdfObject>,
    a: Seq<ObjId>,
    b: Seq<ObjId>,
    src: Map<ObjId, PdfObject>,
    parent: ObjId,
)
    ensures
        place_pages(objs, a + b, src, parent) == place_pages(
            place_pages(objs, a, src, parent),
            b,
            src,
            parent,
        ),
    decreases b.len(),
{
    if b.len() == 0 {
        assert(a + b =~= a);
    } else {
        lemma_place_pages_concat(objs, a, b.drop_last(), src, parent);
        assert((a + b).drop_last() =~= a + b.drop_last());
        assert((a + b).last() == b.last());
    }
}

/// Hanging pages of `s` keeps the identifiers within `s`.
pub proof fn lemma_place_pages_within(
    objs: Map<ObjId, PdfObject>,
    pages: Seq<ObjId>,
    src: Map<ObjId, PdfObject>,
    parent: ObjId,
    s: Set<ObjId>,
)
    requires
        objs.dom().subset_of(s),
        forall|k: int| 0 <= k < pages.len() ==> s.contains(#[trigger] pages[k]),
    ensures
        place_pages(objs, pages, src, parent).dom().subset_of(s),
    decreases pages.len(),
{
    if pages.len() > 0 {
        lemma_place_pages_within(objs, pages.drop_last(), src, parent, s);
        assert(s.contains(pages[pages.len() - 1]));
    }
}

// ---------------------------------------------------------------------------
// What a merge promises.

/// Removing an entry from a dictionary with distinct keys leaves the value
/// of every other key as it was.
pub proof fn lemma_dict_get_remove(d: PdfDict, k: Seq<u8>, k2: Seq<u8>)
    requires
        keys_distinct(d),
        k != k2,
    ensures
        dict_get(dict_remove(d, k), k2) == dict_get(d, k2),
{
    lemma_dict_index(d, k);
    lemma_dict_get_distinct(d, k2);
    if let Some(i) = dict_index(d, k) {
        let n = d.len();
        let e = dict_remove(d, k);
        assert(e.len() == n - 1);
        assert forall|a: int| 0 <= a < n - 1 implies #[trigger] e[a] == if a == i {
            d[n - 1]
        } else {
            d[a]
        } by {}
        assert forall|a: int, b: int| 0 <= a < b < e.len() implies e[a].0 != e[b].0 by {
            if a == i {
                assert(d[b].0 != d[n - 1].0);
            } else if b == i {
                assert(d[a].0 != d[n - 1].0);
            } else {
                assert(d[a].0 != d[b].0);
            }
        }
        lemma_dict_get_distinct(e, k2);
        if exists|j: int| 0 <= j < n && d[j].0 == k2 {
            let j = choose|j: int| 0 <= j < n && d[j].0 == k2;
            assert(dict_get(d, k2) == Some(d[j].1));
            assert(j != i);
            if j < n - 1 {
                assert(e[j] == d[j]);
            } else {
                assert(e[i] == d[j]);
            }
        } else {
            assert forall|a: int| 0 <= a < e.len() implies #[trigger] e[a].0 != k2 by {
                if a == i {
                    assert(d[n - 1].0 != k2);
                } else {
                    assert(d[a].0 != k2);
                }
            }
        }
    }
}

/// Every catalog among the objects is a dictionary with distinct keys.
pub open spec fn catalogs_well_formed(m: Map<ObjId, PdfObject>) -> bool {
    forall|id: ObjId|
        #![trigger m[id]]
        m.dom().contains(id) && is_type(declared_type(m[id]), "Catalog") ==> (m[id] matches PdfObject::Dictionary(
            d,
        ) && keys_distinct(d))
}

/// What the walk has gathered is typed as it should be in `all`: the
/// catalog's identifier is that of a catalog, and its object a dictionary
/// with distinct keys; the page tree node's identifier is that of one.
pub open spec fn gathered_typed(g: Gathered, all: Map<ObjId, PdfObject>) -> bool {
    &&& (g.catalog matches Some((c, o)) ==> {
        &&& all.dom().contains(c)
        &&& is_type(declared_type(all[c]), "Catalog")
        &&& o matches PdfObject::Dictionary(d) && keys_distinct(d)
    })
    &&& (g.pages matches Some((p, x)) ==> all.dom().contains(p) && is_type(
        declared_type(all[p]),
        "Pages",
    ))
}

/// The walk over objects that `all` holds too keeps what it gathers typed.
pub proof fn lemma_gather_typed(
    g: Gathered,
    ids: Seq<ObjId>,
    m: Map<ObjId, PdfObject>,
    all: Map<ObjId, PdfObject>,
)
    requires
        gathered_typed(g, all),
        catalogs_well_formed(m),
        forall|k: int|
            0 <= k < ids.len() ==> m.dom().contains(#[trigger] ids[k]) && all.dom().contains(ids[k])
                && all[ids[k]] == m[ids[k]],
    ensures
        gathered_typed(gather(g, ids, m), all),
    decreases ids.len(),
{
    if ids.len() > 0 {
        lemma_gather_typed(g, ids.drop_last(), m, all);
        let id = ids.last();
        assert(m.dom().contains(ids[ids.len() - 1]));
        assert(all[id] == m[id]);
    }
}

/// A merge hangs the pages of the first document and then those of the
/// second (those each holds), in page order, under the page tree node its
/// catalog points at, which counts them.
///
/// This holds of any two documents with no identifier in common whose
/// catalogs are dictionaries, when they merge at all.
pub proof fn law_merge_lists_pages_in_order(
    m1: Map<ObjId, PdfObject>,
    t1: PdfDict,
    m2: Map<ObjId, PdfObject>,
    t2: PdfDict,
)
    requires
        m1.dom().finite(),
        m2.dom().finite(),
        m1.dom().disjoint(m2.dom()),
        catalogs_well_formed(m1),
        catalogs_well_formed(m2),
        merged_parts(m1, t1, m2, t2) is Ok,
    ensures
        ({
            let (objs, trailer) = merged_parts(m1, t1, m2, t2)->Ok_0;
            let pages = document_pages(m1, t1) + document_pages(m2, t2);
            root_page_tree(objs, trailer) matches Some(p) && {
                &&& dict_get(p, "Kids".spec_bytes()) == Some(
                    PdfObject::Array(pages.map_values(|x: ObjId| reference(x))),
                )
                &&& dict_get(p, "Count".spec_bytes()) == Some(
                    PdfObject::Integer(pages.len() as u32 as i64),
                )
            }
        }),
{
    let all = m1.union_prefer_right(m2);
    lemma_sorted_ids_exist(m1.dom());
    lemma_sorted_ids_exist(m2.dom());
    let q1 = sorted_ids(m1.dom());
    let q2 = sorted_ids(m2.dom());
    assert forall|k: int| 0 <= k < q1.len() implies m1.dom().contains(#[trigger] q1[k]) && all.dom().contains(
        q1[k],
    ) && all[q1[k]] == m1[q1[k]] by {
        assert(q1.to_set().contains(q1[k]));
        assert(!m2.dom().contains(q1[k]));
    }
    assert forall|k: int| 0 <= k < q2.len() implies m2.dom().contains(#[trigger] q2[k]) && all.dom().contains(
        q2[k],
    ) && all[q2[k]] == m2[q2[k]] by {
        assert(q2.to_set().contains(q2[k]));
    }
    let g0 = Gathered { catalog: None, pages: None, objects: Map::empty() };
    lemma_gather_typed(g0, q1, m1, all);
    let g1 = gather(g0, q1, m1);
    lemma_gather_typed(g1, q2, m2, all);
    let g = gather_both(m1, m2);
    let (pid, pd) = g.pages.unwrap();
    let (cid, co) = g.catalog.unwrap();
    let cd = co->Dictionary_0;
    reveal_strlit("Catalog");
    reveal_strlit("Pages");
    reveal_strlit("Kids");
    reveal_strlit("Count");
    reveal_strlit("Outlines");
    reveal_strlit("Root");
    lemma_names_differ("Catalog", "Pages");
    lemma_names_differ("Count", "Kids");
    lemma_names_differ("Outlines", "Pages");
    assert(cid != pid);
    let pages = document_pages(m1, t1) + document_pages(m2, t2);
    let kids = PdfObject::Array(pages.map_values(|x: ObjId| reference(x)));
    let count = PdfObject::Integer(pages.len() as u32 as i64);
    let pd0 = dict_remove(pd, "Parent".spec_bytes());
    let pd1 = dict_set(pd0, "Count".spec_bytes(), count);
    lemma_dict_get_set(pd1, "Kids".spec_bytes(), kids, "Kids".spec_bytes());
    lemma_dict_get_set(pd1, "Kids".spec_bytes(), kids, "Count".spec_bytes());
    lemma_dict_get_set(pd0, "Count".spec_bytes(), count, "Count".spec_bytes());
    let cd1 = dict_set(cd, "Pages".spec_bytes(), reference(pid));
    lemma_dict_get_set(cd, "Pages".spec_bytes(), reference(pid), "Pages".spec_bytes());
    lemma_dict_get_remove(cd1, "Outlines".spec_bytes(), "Pages".spec_bytes());
    let root = Seq::<(Seq<u8>, PdfObject)>::empty();
    lemma_dict_get_set(root, "Root".spec_bytes(), reference(cid), "Root".spec_bytes());
}

/// The object is a page tree node the walk gathers: a dictionary of type
/// `Pages`.
pub open spec fn is_page_tree(o: PdfObject) -> bool {
    is_type(declared_type(o), "Pages") && o is Dictionary
}

/// The objects hold a page tree node.
pub open spec fn has_page_tree(m: Map<ObjId, PdfObject>) -> bool {
    exists|id: ObjId| m.dom().contains(id) && is_page_tree(#[trigger] m[id])
}

/// The objects hold a catalog.
pub open spec fn has_catalog(m: Map<ObjId, PdfObject>) -> bool {
    exists|id: ObjId| m.dom().contains(id) && is_type(declared_type(#[trigger] m[id]), "Catalog")
}

/// The walk gathers a page tree node, or a catalog, exactly when it had
/// one already or meets one.
pub proof fn lemma_gather_finds(g: Gathered, ids: Seq<ObjId>, m: Map<ObjId, PdfObject>)
    ensures
        gather(g, ids, m).pages is None <==> (g.pages is None && forall|k: int|
            0 <= k < ids.len() ==> !is_page_tree(#[trigger] m[ids[k]])),
        gather(g, ids, m).catalog is None <==> (g.catalog is None && forall|k: int|
            0 <= k < ids.len() ==> !is_type(declared_type(#[trigger] m[ids[k]]), "Catalog")),
    decreases ids.len(),
{
    reveal_strlit("Catalog");
    reveal_strlit("Pages");
    lemma_names_differ("Catalog", "Pages");
    if ids.len() > 0 {
        let prev = ids.drop_last();
        lemma_gather_finds(g, prev, m);
        let last = ids.len() - 1;
        assert(ids[last] == ids.last());
        assert forall|k: int| 0 <= k < last implies #[trigger] ids[k] == prev[k] by {}
        if forall|k: int| 0 <= k < last ==> !is_page_tree(#[trigger] m[prev[k]]) {
            if !is_page_tree(m[ids[last]]) {
                assert forall|k: int| 0 <= k < ids.len() implies !is_page_tree(#[trigger] m[ids[k]]) by {
                    if k < last {
                        assert(ids[k] == prev[k]);
                    }
                }
            }
        } else {
            let k = choose|k: int| 0 <= k < last && is_page_tree(#[trigger] m[prev[k]]);
            assert(ids[k] == prev[k]);
        }
        if forall|k: int| 0 <= k < last ==> !is_type(declared_type(#[trigger] m[prev[k]]), "Catalog") {
            if !is_type(declared_type(m[ids[last]]), "Catalog") {
                assert forall|k: int| 0 <= k < ids.len() implies !is_type(
                    declared_type(#[trigger] m[ids[k]]),
                    "Catalog",
                ) by {
                    if k < last {
                        assert(ids[k] == prev[k]);
                    }
                }
            }
        } else {
            let k = choose|k: int| 0 <= k < last && is_type(declared_type(#[trigger] m[prev[k]]), "Catalog");
            assert(ids[k] == prev[k]);
        }
    }
}

/// The walk over all the objects of a finite map meets a page tree node,
/// or a catalog, exactly when the map holds one.
proof fn lemma_gather_all_finds(g: Gathered, m: Map<ObjId, PdfObject>)
    requires
        m.dom().finite(),
    ensures
        gather(g, sorted_ids(m.dom()), m).pages is None <==> (g.pages is None && !has_page_tree(m)),
        gather(g, sorted_ids(m.dom()), m).catalog is None <==> (g.catalog is None && !has_catalog(m)),
{
    lemma_sorted_ids_exist(m.dom());
    let q = sorted_ids(m.dom());
    lemma_gather_finds(g, q, m);
    if has_page_tree(m) {
        let id = choose|id: ObjId| m.dom().contains(id) && is_page_tree(#[trigger] m[id]);
        assert(q.to_set().contains(id));
        let k = choose|k: int| 0 <= k < q.len() && q[k] == id;
        assert(is_page_tree(m[q[k]]));
    } else {
        assert forall|k: int| 0 <= k < q.len() implies !is_page_tree(#[trigger] m[q[k]]) by {
            assert(q.to_set().contains(q[k]));
        }
    }
    if has_catalog(m) {
        let id = choose|id: ObjId| m.dom().contains(id) && is_type(declared_type(#[trigger] m[id]), "Catalog");
        assert(q.to_set().contains(id));
        let k = choose|k: int| 0 <= k < q.len() && q[k] == id;
        assert(is_type(declared_type(m[q[k]]), "Catalog"));
    } else {
        assert forall|k: int| 0 <= k < q.len() implies !is_type(declared_type(#[trigger] m[q[k]]), "Catalog") by {
            assert(q.to_set().contains(q[k]));
        }
    }
}

/// Two documents merge unless neither holds a page tree node (a dictionary
/// of type `Pages`), which is refused first, or neither holds a catalog.
pub proof fn law_merge_refusals(m1: Map<ObjId, PdfObject>, t1: PdfDict, m2: Map<ObjId, PdfObject>, t2: PdfDict)
    requires
        m1.dom().finite(),
        m2.dom().finite(),
    ensures
        merged_parts(m1, t1, m2, t2) == Err::<(Map<ObjId, PdfObject>, PdfDict), MergeError>(
            MergeError::NoPageTree,
        ) <==> !has_page_tree(m1) && !has_page_tree(m2),
        merged_parts(m1, t1, m2, t2) == Err::<(Map<ObjId, PdfObject>, PdfDict), MergeError>(
            MergeError::NoCatalog,
        ) <==> (has_page_tree(m1) || has_page_tree(m2)) && !has_catalog(m1) && !has_catalog(m2),
        merged_parts(m1, t1, m2, t2) is Ok <==> (has_page_tree(m1) || has_page_tree(m2)) && (
        has_catalog(m1) || has_catalog(m2)),
{
    let g0 = Gathered { catalog: None, pages: None, objects: Map::empty() };
    lemma_gather_all_finds(g0, m1);
    lemma_gather_all_finds(gather(g0, sorted_ids(m1.dom()), m1), m2);
}

/// Objects that all survive a renumbering, each with its kind, keep a page
/// tree node or a catalog when there is one.
proof fn lemma_renumbering_keeps_kinds(old: Map<ObjId, PdfObject>, new: Map<ObjId, PdfObject>)
    requires
        forall|id: ObjId| #[trigger]
            old.dom().contains(id) ==> exists|nid: ObjId|
                new.dom().contains(nid) && same_kind(#[trigger] new[nid], old[id]),
    ensures
        has_page_tree(old) ==> has_page_tree(new),
        has_catalog(old) ==> has_catalog(new),
{
    if has_page_tree(old) {
        let id = choose|id: ObjId| old.dom().contains(id) && is_page_tree(#[trigger] old[id]);
        let nid = choose|nid: ObjId| new.dom().contains(nid) && same_kind(#[trigger] new[nid], old[id]);
        assert(is_page_tree(new[nid]));
    }
    if has_catalog(old) {
        let id = choose|id: ObjId| old.dom().contains(id) && is_type(declared_type(#[trigger] old[id]), "Catalog");
        let nid = choose|nid: ObjId| new.dom().contains(nid) && same_kind(#[trigger] new[nid], old[id]);
        assert(is_type(declared_type(new[nid]), "Catalog"));
    }
}

/// Every page of `pages` that `m` holds is in the list `present_pages` gives.
pub proof fn lemma_present_pages_held(pages: Seq<ObjId>, m: Map<ObjId, PdfObject>)
    ensures
        forall|k: int|
            0 <= k < present_pages(pages, m).len() ==> m.dom().contains(
                #[trigger] present_pages(pages, m)[k],
            ),
    decreases pages.len(),
{
    if pages.len() > 0 {
        lemma_present_pages_held(pages.drop_last(), m);
        let prev = present_pages(pages.drop_last(), m);
        assert forall|k: int| 0 <= k < present_pages(pages, m).len() implies m.dom().contains(
            #[trigger] present_pages(pages, m)[k],
        ) by {
            if k < prev.len() {
                assert(present_pages(pages, m)[k] == prev[k]);
            }
        }
    }
}

/// A page hung by `place_pages` is there, as its dictionary with `/Parent`
/// set.
pub proof fn lemma_place_pages_at(
    objs: Map<ObjId, PdfObject>,
    pages: Seq<ObjId>,
    src: Map<ObjId, PdfObject>,
    parent: ObjId,
    p: ObjId,
)
    requires
        pages.contains(p),
        src[p] is Dictionary,
    ensures
        place_pages(objs, pages, src, parent).dom().contains(p),
        place_pages(objs, pages, src, parent)[p] == PdfObject::Dictionary(
            dict_set(src[p]->Dictionary_0, "Parent".spec_bytes(), reference(parent)),
        ),
    decreases pages.len(),
{
    let last = pages.last();
    if last != p {
        let k = choose|k: int| 0 <= k < pages.len() && pages[k] == p;
        assert(k < pages.len() - 1);
        assert(pages.drop_last()[k] == p);
        lemma_place_pages_at(objs, pages.drop_last(), src, parent, p);
    }
}

/// The catalog's entry `key` in a document with these objects and trailer.
pub open spec fn catalog_entry(objs: Map<ObjId, PdfObject>, trailer: PdfDict, key: Seq<u8>) -> Option<
    PdfObject,
> {
    match dict_get(trailer, "Root".spec_bytes()) {
        Some(PdfObject::Reference(n, g)) => match obj_at(objs, (n, g)) {
            Some(PdfObject::Dictionary(c)) => dict_get(c, key),
            _ => None,
        },
        _ => None,
    }
}

/// Every page of the document that it holds is a dictionary of type `Page`.
pub open spec fn pages_well_formed(m: Map<ObjId, PdfObject>, t: PdfDict) -> bool {
    forall|k: int|
        0 <= k < document_pages(m, t).len() ==> {
            let pg = m[#[trigger] document_pages(m, t)[k]];
            &&& is_type(declared_type(pg), "Page")
            &&& pg is Dictionary
        }
}

/// The page tree of a merge resolves: the catalog's `/Pages` refers to the
/// page tree node, which is a dictionary of the merged document, and every
/// page it lists is a dictionary of the merged document whose `/Parent` is
/// that same reference.
///
/// This holds of any two documents with no identifier in common whose
/// catalogs are dictionaries and whose pages are dictionaries of type
/// `Page`, when they merge at all.
pub proof fn law_merge_tree_resolves(
    m1: Map<ObjId, PdfObject>,
    t1: PdfDict,
    m2: Map<ObjId, PdfObject>,
    t2: PdfDict,
)
    requires
        m1.dom().finite(),
        m2.dom().finite(),
        m1.dom().disjoint(m2.dom()),
        catalogs_well_formed(m1),
        catalogs_well_formed(m2),
        pages_well_formed(m1, t1),
        pages_well_formed(m2, t2),
        merged_parts(m1, t1, m2, t2) is Ok,
    ensures
        ({
            let (objs, trailer) = merged_parts(m1, t1, m2, t2)->Ok_0;
            let pages = document_pages(m1, t1) + document_pages(m2, t2);
            &&& root_page_tree(objs, trailer) is Some
            &&& (catalog_entry(objs, trailer, "Pages".spec_bytes()) matches Some(
                PdfObject::Reference(n, g),
            ) && obj_at(objs, (n, g)) matches Some(PdfObject::Dictionary(_)))
            &&& forall|k: int|
                0 <= k < pages.len() ==> {
                    &&& objs.dom().contains(#[trigger] pages[k])
                    &&& (objs[pages[k]] matches PdfObject::Dictionary(pg) && dict_get(
                        pg,
                        "Parent".spec_bytes(),
                    ) == catalog_entry(objs, trailer, "Pages".spec_bytes()))
                }
        }),
{
    law_merge_lists_pages_in_order(m1, t1, m2, t2);
    let all = m1.union_prefer_right(m2);
    lemma_sorted_ids_exist(m1.dom());
    lemma_sorted_ids_exist(m2.dom());
    let q1 = sorted_ids(m1.dom());
    let q2 = sorted_ids(m2.dom());
    assert forall|k: int| 0 <= k < q1.len() implies m1.dom().contains(#[trigger] q1[k]) && all.dom().contains(
        q1[k],
    ) && all[q1[k]] == m1[q1[k]] by {
        assert(q1.to_set().contains(q1[k]));
        assert(!m2.dom().contains(q1[k]));
    }
    assert forall|k: int| 0 <= k < q2.len() implies m2.dom().contains(#[trigger] q2[k]) && all.dom().contains(
        q2[k],
    ) && all[q2[k]] == m2[q2[k]] by {
        assert(q2.to_set().contains(q2[k]));
    }
    let g0 = Gathered { catalog: None, pages: None, objects: Map::empty() };
    lemma_gather_typed(g0, q1, m1, all);
    let g1 = gather(g0, q1, m1);
    lemma_gather_typed(g1, q2, m2, all);
    let g = gather_both(m1, m2);
    let (pid, pd) = g.pages.unwrap();
    let (cid, co) = g.catalog.unwrap();
    let cd = co->Dictionary_0;
    reveal_strlit("Catalog");
    reveal_strlit("Pages");
    reveal_strlit("Page");
    reveal_strlit("Parent");
    reveal_strlit("Outlines");
    reveal_strlit("Root");
    lemma_names_differ("Catalog", "Pages");
    lemma_names_differ("Catalog", "Page");
    lemma_names_differ_in_length("Page", "Pages");
    lemma_names_differ("Outlines", "Pages");
    let d1 = document_pages(m1, t1);
    let d2 = document_pages(m2, t2);
    let pages = d1 + d2;
    lemma_present_pages_held(page_order(m1, t1), m1);
    lemma_present_pages_held(page_order(m2, t2), m2);
    let cd1 = dict_set(cd, "Pages".spec_bytes(), reference(pid));
    lemma_dict_get_set(cd, "Pages".spec_bytes(), reference(pid), "Pages".spec_bytes());
    lemma_dict_get_remove(cd1, "Outlines".spec_bytes(), "Pages".spec_bytes());
    let root = Seq::<(Seq<u8>, PdfObject)>::empty();
    lemma_dict_get_set(root, "Root".spec_bytes(), reference(cid), "Root".spec_bytes());
    let (objs, trailer) = merged_parts(m1, t1, m2, t2)->Ok_0;
    assert(catalog_entry(objs, trailer, "Pages".spec_bytes()) == Some(reference(pid)));
    assert forall|k: int| 0 <= k < pages.len() implies {
        &&& objs.dom().contains(#[trigger] pages[k])
        &&& (objs[pages[k]] matches PdfObject::Dictionary(pg) && dict_get(pg, "Parent".spec_bytes())
            == catalog_entry(objs, trailer, "Pages".spec_bytes()))
    } by {
        let p = pages[k];
        if k < d1.len() {
            assert(p == d1[k]);
            assert(m1.dom().contains(p));
            assert(all[p] == m1[p]);
        } else {
            assert(p == d2[k - d1.len()]);
            assert(m2.dom().contains(p));
        }
        assert(is_type(declared_type(all[p]), "Page") && all[p] is Dictionary);
        assert(pages.contains(p));
        lemma_place_pages_at(g.objects, pages, all, pid, p);
        assert(p != pid);
        assert(p != cid);
        lemma_dict_get_set(all[p]->Dictionary_0, "Parent".spec_bytes(), reference(pid), "Parent".spec_bytes());
    }
}

/// The type is one of those a merge takes apart: catalog, page tree node,
/// page, outlines or outline item.
pub open spec fn taken_apart(t: Option<Seq<u8>>) -> bool {
    ||| is_type(t, "Catalog")
    ||| is_type(t, "Pages")
    ||| is_type(t, "Page")
    ||| is_type(t, "Outlines")
    ||| is_type(t, "Outline")
}

/// The identifiers the walk holds for the catalog and the page tree node
/// are those of a catalog and of a page tree node in `all`.
pub open spec fn gathered_ids_typed(g: Gathered, all: Map<ObjId, PdfObject>) -> bool {
    &&& (g.catalog matches Some((c, o)) ==> all.dom().contains(c) && is_type(
        declared_type(all[c]),
        "Catalog",
    ))
    &&& (g.pages matches Some((p, x)) ==> all.dom().contains(p) && is_type(
        declared_type(all[p]),
        "Pages",
    ))
}

/// The walk over objects that `all` holds too keeps those identifiers
/// typed.
pub proof fn lemma_gather_ids_typed(
    g: Gathered,
    ids: Seq<ObjId>,
    m: Map<ObjId, PdfObject>,
    all: Map<ObjId, PdfObject>,
)
    requires
        gathered_ids_typed(g, all),
        forall|k: int|
            0 <= k < ids.len() ==> m.dom().contains(#[trigger] ids[k]) && all.dom().contains(ids[k])
                && all[ids[k]] == m[ids[k]],
    ensures
        gathered_ids_typed(gather(g, ids, m), all),
    decreases ids.len(),
{
    if ids.len() > 0 {
        lemma_gather_ids_typed(g, ids.drop_last(), m, all);
        let id = ids.last();
        assert(m.dom().contains(ids[ids.len() - 1]));
        assert(all[id] == m[id]);
    }
}

/// The walk over other identifiers leaves an object it has taken as it is.
pub proof fn lemma_gather_keeps(g: Gathered, ids: Seq<ObjId>, m: Map<ObjId, PdfObject>, id: ObjId)
    requires
        g.objects.dom().contains(id),
        !ids.contains(id),
    ensures
        gather(g, ids, m).objects.dom().contains(id),
        gather(g, ids, m).objects[id] == g.objects[id],
    decreases ids.len(),
{
    if ids.len() > 0 {
        assert(!ids.drop_last().contains(id)) by {
            if ids.drop_last().contains(id) {
                let k = choose|k: int| 0 <= k < ids.drop_last().len() && ids.drop_last()[k] == id;
                assert(ids[k] == id);
            }
        }
        lemma_gather_keeps(g, ids.drop_last(), m, id);
        assert(ids[ids.len() - 1] != id);
    }
}

/// The walk takes every object it meets that is of no type it takes apart,
/// under its identifier, as it is.
pub proof fn lemma_gather_takes(g: Gathered, ids: Seq<ObjId>, m: Map<ObjId, PdfObject>, id: ObjId)
    requires
        ids.no_duplicates(),
        ids.contains(id),
        !taken_apart(declared_type(m[id])),
    ensures
        gather(g, ids, m).objects.dom().contains(id),
        gather(g, ids, m).objects[id] == m[id],
    decreases ids.len(),
{
    let last = ids.last();
    let init = ids.drop_last();
    if last == id {
        if init.contains(id) {
            let k = choose|k: int| 0 <= k < init.len() && init[k] == id;
            assert(ids[k] == ids[ids.len() - 1]);
        }
    } else {
        let k = choose|k: int| 0 <= k < ids.len() && ids[k] == id;
        assert(k < ids.len() - 1);
        assert(init[k] == id);
        assert(init.no_duplicates());
        lemma_gather_takes(g, init, m, id);
    }
}

/// Hanging pages leaves every other object as it is.
pub proof fn lemma_place_pages_keeps(
    objs: Map<ObjId, PdfObject>,
    pages: Seq<ObjId>,
    src: Map<ObjId, PdfObject>,
    parent: ObjId,
    id: ObjId,
)
    requires
        objs.dom().contains(id),
        !pages.contains(id),
    ensures
        place_pages(objs, pages, src, parent).dom().contains(id),
        place_pages(objs, pages, src, parent)[id] == objs[id],
    decreases pages.len(),
{
    if pages.len() > 0 {
        assert(!pages.drop_last().contains(id)) by {
            if pages.drop_last().contains(id) {
                let k = choose|k: int| 0 <= k < pages.drop_last().len() && pages.drop_last()[k] == id;
                assert(pages[k] == id);
            }
        }
        lemma_place_pages_keeps(objs, pages.drop_last(), src, parent, id);
        assert(pages[pages.len() - 1] != id);
    }
}

/// A merge carries over every other object of both documents: an object of
/// either whose type is none of catalog, page tree node, page, outlines or
/// outline item, and which the documents do not list as a page, is in the
/// merged document under its identifier, as it was.
///
/// This holds of any two documents with no identifier in common, when they
/// merge at all.
pub proof fn law_merge_keeps_other_objects(
    m1: Map<ObjId, PdfObject>,
    t1: PdfDict,
    m2: Map<ObjId, PdfObject>,
    t2: PdfDict,
    id: ObjId,
)
    requires
        m1.dom().finite(),
        m2.dom().finite(),
        m1.dom().disjoint(m2.dom()),
        merged_parts(m1, t1, m2, t2) is Ok,
        m1.dom().contains(id) || m2.dom().contains(id),
        !is_type(declared_type(m1.union_prefer_right(m2)[id]), "Catalog"),
        !is_type(declared_type(m1.union_prefer_right(m2)[id]), "Pages"),
        !is_type(declared_type(m1.union_prefer_right(m2)[id]), "Page"),
        !is_type(declared_type(m1.union_prefer_right(m2)[id]), "Outlines"),
        !is_type(declared_type(m1.union_prefer_right(m2)[id]), "Outline"),
        !(document_pages(m1, t1) + document_pages(m2, t2)).contains(id),
    ensures
        merged_parts(m1, t1, m2, t2)->Ok_0.0.dom().contains(id),
        merged_parts(m1, t1, m2, t2)->Ok_0.0[id] == m1.union_prefer_right(m2)[id],
{
    let all = m1.union_prefer_right(m2);
    lemma_sorted_ids_exist(m1.dom());
    lemma_sorted_ids_exist(m2.dom());
    let q1 = sorted_ids(m1.dom());
    let q2 = sorted_ids(m2.dom());
    assert forall|k: int| 0 <= k < q1.len() implies m1.dom().contains(#[trigger] q1[k]) && all.dom().contains(
        q1[k],
    ) && all[q1[k]] == m1[q1[k]] by {
        assert(q1.to_set().contains(q1[k]));
        assert(!m2.dom().contains(q1[k]));
    }
    assert forall|k: int| 0 <= k < q2.len() implies m2.dom().contains(#[trigger] q2[k]) && all.dom().contains(
        q2[k],
    ) && all[q2[k]] == m2[q2[k]] by {
        assert(q2.to_set().contains(q2[k]));
    }
    let g0 = Gathered { catalog: None, pages: None, objects: Map::empty() };
    lemma_gather_ids_typed(g0, q1, m1, all);
    let g1 = gather(g0, q1, m1);
    lemma_gather_ids_typed(g1, q2, m2, all);
    let g = gather_both(m1, m2);
    if m1.dom().contains(id) {
        assert(q1.to_set().contains(id));
        assert(!m2.dom().contains(id));
        assert(all[id] == m1[id]);
        lemma_gather_takes(g0, q1, m1, id);
        assert(!q2.contains(id)) by {
            if q2.contains(id) {
                assert(q2.to_set().contains(id));
            }
        }
        lemma_gather_keeps(g1, q2, m2, id);
    } else {
        assert(q2.to_set().contains(id));
        assert(all[id] == m2[id]);
        lemma_gather_takes(g1, q2, m2, id);
    }
    let (pid, pd) = g.pages.unwrap();
    let (cid, co) = g.catalog.unwrap();
    let pages = document_pages(m1, t1) + document_pages(m2, t2);
    lemma_place_pages_keeps(g.objects, pages, all, pid, id);
    assert(id != pid);
    assert(id != cid);
}

/// Merges two documents: the pages of `doc1` and then those of `doc2`, in
/// one document of PDF version 1.5.
///
/// When the two hold too many objects to be numbered with 32 bits, nothing
/// changes and the merge is refused. Otherwise both documents are numbered
/// anew first (`doc1` from 1, `doc2` after it), and they stay so. The merged
/// document is `merged_parts` of the two, keeping their numbers, with
/// `max_id` set to the largest number they use; when neither document has a
/// page tree node, or neither a catalog, there is no merged document.
pub fn merge(doc1: &mut Document, doc2: &mut Document) -> (r: Result<Document, MergeError>)
    ensures
        pdf_objects(*old(doc1)).dom().len() + pdf_objects(*old(doc2)).dom().len() + 1 > u32::MAX ==> {
            &&& r == Err::<Document, MergeError>(MergeError::TooManyObjects)
            &&& *final(doc1) == *old(doc1)
            &&& *final(doc2) == *old(doc2)
        },
        pdf_objects(*old(doc1)).dom().len() + pdf_objects(*old(doc2)).dom().len() + 1 <= u32::MAX ==> {
            &&& (pdf_objects(*final(doc1)), pdf_trailer(*final(doc1)), pdf_max_id(*final(doc1)))
                == renumbering(pdf_objects(*old(doc1)), pdf_trailer(*old(doc1)), 1)
            &&& (pdf_objects(*final(doc2)), pdf_trailer(*final(doc2)), pdf_max_id(*final(doc2)))
                == renumbering(
                pdf_objects(*old(doc2)),
                pdf_trailer(*old(doc2)),
                (pdf_max_id(*final(doc1)) + 1) as u32,
            )
            &&& pdf_objects(*final(doc1)).dom().finite()
            &&& pdf_objects(*final(doc2)).dom().finite()
            &&& pdf_objects(*final(doc1)).dom().disjoint(pdf_objects(*final(doc2)).dom())
            &&& ({
                &&& simple_renumbering(
                    pdf_objects(*old(doc1)),
                    page_order(pdf_objects(*old(doc1)), pdf_trailer(*old(doc1))),
                )
                &&& simple_renumbering(
                    pdf_objects(*old(doc2)),
                    page_order(pdf_objects(*old(doc2)), pdf_trailer(*old(doc2))),
                )
                &&& has_page_tree(pdf_objects(*old(doc1))) || has_page_tree(pdf_objects(*old(doc2)))
                &&& has_catalog(pdf_objects(*old(doc1))) || has_catalog(pdf_objects(*old(doc2)))
            } ==> r is Ok)
            &&& match merged_parts(
                pdf_objects(*final(doc1)),
                pdf_trailer(*final(doc1)),
                pdf_objects(*final(doc2)),
                pdf_trailer(*final(doc2)),
            ) {
                Err(e) => r == Err::<Document, MergeError>(e),
                Ok((objs, trailer)) => r matches Ok(d) && {
                    &&& pdf_objects(d) == objs
                    &&& pdf_trailer(d) == trailer
                    &&& pdf_max_id(d) == pdf_max_id(*final(doc2))
                    &&& forall|id: ObjId| #[trigger] objs.dom().contains(id) ==> id.0 <= pdf_max_id(d)
                    &&& pdf_version(d) == "1.5"@
                },
            }
        },
{
    let n1 = object_count(doc1);
    let n2 = object_count(doc2);
    if n1 >= u32::MAX as usize || n2 >= u32::MAX as usize - n1 {
        return Err(MergeError::TooManyObjects);
    }
    renumber_objects_with(doc1, 1);
    let next = max_id(doc1) + 1;
    renumber_objects_with(doc2, next);
    let ghost m1 = pdf_objects(*doc1);
    let ghost m2 = pdf_objects(*doc2);
    proof {
        if simple_renumbering(
            pdf_objects(*old(doc1)),
            page_order(pdf_objects(*old(doc1)), pdf_trailer(*old(doc1))),
        ) {
            lemma_renumbering_keeps_kinds(pdf_objects(*old(doc1)), m1);
        }
        if simple_renumbering(
            pdf_objects(*old(doc2)),
            page_order(pdf_objects(*old(doc2)), pdf_trailer(*old(doc2))),
        ) {
            lemma_renumbering_keeps_kinds(pdf_objects(*old(doc2)), m2);
        }
    }
    let ghost all = m1.union_prefer_right(m2);
    let ghost both = m1.dom().union(m2.dom());
    proof {
        // The two documents share no identifier.
        assert(m1.dom().disjoint(m2.dom())) by {
            assert forall|id: ObjId| m1.dom().contains(id) implies !m2.dom().contains(id) by {
                if m2.dom().contains(id) {
                    assert(id.0 <= pdf_max_id(*doc1));
                    assert(next <= id.0);
                }
            }
        }
    }
    let pages1 = present_page_ids(doc1);
    let pages2 = present_page_ids(doc2);
    let mut merged = new_document("1.5");
    let ghost g0 = Gathered { catalog: None, pages: None, objects: Map::empty() };
    proof {
        assert(pdf_objects(merged) =~= g0.objects);
    }
    let (catalog, pages) = gather_doc(doc1, &mut merged, None, None, Ghost(g0));
    let ghost g1 = gather(g0, sorted_ids(m1.dom()), m1);
    let (catalog, pages) = gather_doc(doc2, &mut merged, catalog, pages, Ghost(g1));
    let ghost g2 = gather_both(m1, m2);
    proof {
        assert(g2 == gather(g1, sorted_ids(m2.dom()), m2));
        assert(ids_within(g0, both));
        lemma_object_ids_within(m1, both);
        lemma_gather_within(g0, sorted_ids(m1.dom()), m1, both);
        lemma_object_ids_within(m2, both);
        lemma_gather_within(g1, sorted_ids(m2.dom()), m2, both);
    }
    proof {
        law_merge_refusals(m1, pdf_trailer(*doc1), m2, pdf_trailer(*doc2));
    }
    let (pid, mut pd) = match pages {
        Some(p) => p,
        None => {
            return Err(MergeError::NoPageTree);
        },
    };
    let (cid, cd) = match catalog {
        Some(c) => c,
        None => {
            return Err(MergeError::NoCatalog);
        },
    };
    place_doc_pages(&mut merged, doc1, &pages1, pid, Ghost(all));
    place_doc_pages(&mut merged, doc2, &pages2, pid, Ghost(all));
    let ghost all_pages = pages1@ + pages2@;
    proof {
        lemma_place_pages_concat(g2.objects, pages1@, pages2@, all, pid);
        assert forall|k: int| 0 <= k < all_pages.len() implies both.contains(#[trigger] all_pages[k]) by {
            if k < pages1@.len() {
                assert(all_pages[k] == pages1@[k]);
            } else {
                assert(all_pages[k] == pages2@[k - pages1@.len()]);
            }
        }
        lemma_place_pages_within(g2.objects, all_pages, all, pid, both);
    }
    let mut kids: Vec<Scalar> = Vec::new();
    let mut i: usize = 0;
    while i < pages1.len()
        invariant
            i <= pages1@.len(),
            kids@.len() == i,
            forall|k: int| 0 <= k < i ==> #[trigger] kids@[k] == Scalar::Reference(pages1@[k]),
        decreases pages1@.len() - i,
    {
        kids.push(Scalar::Reference(pages1[i]));
        i += 1;
    }
    let mut j: usize = 0;
    while j < pages2.len()
        invariant
            j <= pages2@.len(),
            kids@.len() == pages1@.len() + j,
            forall|k: int| 0 <= k < pages1@.len() ==> #[trigger] kids@[k] == Scalar::Reference(pages1@[k]),
            forall|k: int|
                pages1@.len() <= k < pages1@.len() + j ==> #[trigger] kids@[k] == Scalar::Reference(
                    pages2@[k - pages1@.len()],
                ),
        decreases pages2@.len() - j,
    {
        kids.push(Scalar::Reference(pages2[j]));
        j += 1;
    }
    proof {
        assert forall|k: int| 0 <= k < kids@.len() implies #[trigger] kids@[k] == Scalar::Reference(
            all_pages[k],
        ) by {
            if k < pages1@.len() {
                assert(all_pages[k] == pages1@[k]);
            } else {
                assert(all_pages[k] == pages2@[k - pages1@.len()]);
            }
        }
        assert(scalar_objects(kids@) =~= all_pages.map_values(|p: ObjId| reference(p)));
    }
    let count = #[verifier::truncate] (kids.len() as u32);
    dict_remove_key(&mut pd, "Parent");
    dict_insert(&mut pd, "Count", DictValue::Scalar(Scalar::Integer(count as i64)));
    dict_insert(&mut pd, "Kids", DictValue::Array(kids));
    set_dict_object(&mut merged, pid, pd);
    match cd {
        Some(d) => {
            let mut d = d;
            dict_insert(&mut d, "Pages", DictValue::Scalar(Scalar::Reference(pid)));
            dict_remove_key(&mut d, "Outlines");
            set_dict_object(&mut merged, cid, d);
        },
        None => {},
    }
    set_trailer_entry(&mut merged, "Root", Scalar::Reference(cid));
    proof {
        assert(pdf_trailer(merged) =~= dict_set(Seq::empty(), "Root".spec_bytes(), reference(cid)));
        let (objs, trailer) = merged_parts(m1, pdf_trailer(*doc1), m2, pdf_trailer(*doc2)).unwrap();
        assert(pdf_objects(merged) =~= objs);
        assert(pdf_objects(merged).dom().subset_of(both));
    }
    let last = max_id(doc2);
    set_max_id(&mut merged, last);
    proof {
        assert forall|id: ObjId| #[trigger] pdf_objects(merged).dom().contains(id) implies id.0 <= pdf_max_id(
            merged,
        ) by {
            assert(both.contains(id));
            if m1.dom().contains(id) {
                assert(id.0 <= pdf_max_id(*doc1));
            }
        }
    }
    Ok(merged)
}

/// The sorted identifiers of a map lie in any set that holds its domain.
proof fn lemma_object_ids_within(m: Map<ObjId, PdfObject>, s: Set<ObjId>)
    requires
        m.dom().subset_of(s),
        sorted_ids(m.dom()).to_set() == m.dom(),
    ensures
        forall|k: int|
            0 <= k < sorted_ids(m.dom()).len() ==> s.contains(#[trigger] sorted_ids(m.dom())[k]),
{
    let q = sorted_ids(m.dom());
    assert forall|k: int| 0 <= k < q.len() implies s.contains(#[trigger] q[k]) by {
        assert(q.to_set().contains(q[k]));
    }
}

} // verus!
