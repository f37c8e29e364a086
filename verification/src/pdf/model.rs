//! What a PDF document holds, as mathematical values.
//!
//! A document is a map from object identifiers to objects; an object is one
//! of the PDF value kinds. A dictionary is a sequence of entries with distinct
//! keys, in the order they were first set. A real number is kept by the bits
//! of its single-precision value.
use vstd::prelude::*;
use vstd::string::StringSliceAdditionalSpecFns;

verus! {

/// An object identifier: object number and generation.
pub type ObjId = (u32, u16);

/// A dictionary: its entries, in order, keys distinct.
pub type PdfDict = Seq<(Seq<u8>, PdfObject)>;

/// A PDF object.
pub enum PdfObject {
    Null,
    Boolean(bool),
    Integer(i64),
    /// A real number, by the bits of its `f32` value.
    Real(u32),
    Name(Seq<u8>),
    /// A string and whether it is written in hexadecimal.
    Text(Seq<u8>, bool),
    Array(Seq<PdfObject>),
    Dictionary(PdfDict),
    Stream { dict: PdfDict, content: Seq<u8>, allows_compression: bool },
    Reference(u32, u16),
}

/// The index of the (first) entry for `key`, if the dictionary has one.
pub open spec fn dict_index(d: PdfDict, key: Seq<u8>) -> Option<int>
    decreases d.len(),
{
    if d.len() == 0 {
        None
    } else {
        match dict_index(d.drop_last(), key) {
            Some(i) => Some(i),
            None => if d.last().0 == key {
                Some(d.len() - 1)
            } else {
                None
            },
        }
    }
}

/// The value the dictionary holds for `key`.
pub open spec fn dict_get(d: PdfDict, key: Seq<u8>) -> Option<PdfObject> {
    match dict_index(d, key) {
        Some(i) => Some(d[i].1),
        None => None,
    }
}

/// The dictionary with `key` set to `v`: an existing entry keeps its place
/// and takes the new value, a new entry goes last.
pub open spec fn dict_set(d: PdfDict, key: Seq<u8>, v: PdfObject) -> PdfDict {
    match dict_index(d, key) {
        Some(i) => d.update(i, (key, v)),
        None => d.push((key, v)),
    }
}

/// The keys of a dictionary are distinct.
pub open spec fn keys_distinct(d: PdfDict) -> bool {
    forall|i: int, j: int| 0 <= i < j < d.len() ==> d[i].0 != d[j].0
}

/// A name object.
pub open spec fn name(s: &str) -> PdfObject {
    PdfObject::Name(s.spec_bytes())
}

/// The object is a name equal to `s`.
pub open spec fn is_name(o: Option<PdfObject>, s: &str) -> bool {
    o == Some(name(s))
}

/// The name an optional value holds, if it is a name.
pub open spec fn as_name(o: Option<PdfObject>) -> Option<Seq<u8>> {
    match o {
        Some(PdfObject::Name(n)) => Some(n),
        _ => None,
    }
}

/// The integer an optional value holds, if it is an integer.
pub open spec fn as_integer(o: Option<PdfObject>) -> Option<i64> {
    match o {
        Some(PdfObject::Integer(i)) => Some(i),
        _ => None,
    }
}

/// The dictionary of a stream object.
pub open spec fn stream_dict(o: PdfObject) -> PdfDict {
    match o {
        PdfObject::Stream { dict, .. } => dict,
        _ => Seq::empty(),
    }
}

/// The content of a stream object.
pub open spec fn stream_content(o: PdfObject) -> Seq<u8> {
    match o {
        PdfObject::Stream { content, .. } => content,
        _ => Seq::empty(),
    }
}

/// Whether a stream may be compressed; other objects may not.
pub open spec fn stream_allows_compression(o: PdfObject) -> bool {
    match o {
        PdfObject::Stream { allows_compression, .. } => allows_compression,
        _ => false,
    }
}

/// The entry `key` of a stream's dictionary.
pub open spec fn stream_entry(o: PdfObject, key: &str) -> Option<PdfObject> {
    dict_get(stream_dict(o), key.spec_bytes())
}

/// The stream with its content replaced.
pub open spec fn with_content(o: PdfObject, c: Seq<u8>) -> PdfObject {
    match o {
        PdfObject::Stream { dict, content, allows_compression } => PdfObject::Stream {
            dict,
            content: c,
            allows_compression,
        },
        _ => o,
    }
}

/// The stream with the entry `key` of its dictionary set to `v`.
pub open spec fn with_entry(o: PdfObject, key: Seq<u8>, v: PdfObject) -> PdfObject {
    match o {
        PdfObject::Stream { dict, content, allows_compression } => PdfObject::Stream {
            dict: dict_set(dict, key, v),
            content,
            allows_compression,
        },
        _ => o,
    }
}

/// `dict_index` finds the first entry for `key`, or tells there is none.
pub proof fn lemma_dict_index(d: PdfDict, key: Seq<u8>)
    ensures
        match dict_index(d, key) {
            Some(i) => {
                &&& 0 <= i < d.len()
                &&& d[i].0 == key
                &&& forall|j: int| 0 <= j < i ==> d[j].0 != key
            },
            None => forall|j: int| 0 <= j < d.len() ==> d[j].0 != key,
        },
    decreases d.len(),
{
    if d.len() > 0 {
        lemma_dict_index(d.drop_last(), key);
        match dict_index(d.drop_last(), key) {
            Some(i) => {
                assert forall|j: int| 0 <= j < i implies d[j].0 != key by {
                    assert(d[j] == d.drop_last()[j]);
                }
            },
            None => {
                assert forall|j: int| 0 <= j < d.len() - 1 implies d[j].0 != key by {
                    assert(d[j] == d.drop_last()[j]);
                }
            },
        }
    }
}

/// Two dictionaries with the same keys at the same places find a key at
/// the same index.
pub proof fn lemma_dict_index_same_keys(d: PdfDict, e: PdfDict, key: Seq<u8>)
    requires
        d.len() == e.len(),
        forall|j: int| 0 <= j < d.len() ==> d[j].0 == e[j].0,
    ensures
        dict_index(d, key) == dict_index(e, key),
{
    lemma_dict_index(d, key);
    lemma_dict_index(e, key);
    match dict_index(d, key) {
        Some(i) => match dict_index(e, key) {
            Some(j) => {
                if i < j {
                    assert(e[i].0 == d[i].0);
                } else if j < i {
                    assert(d[j].0 == e[j].0);
                }
            },
            None => {
                assert(e[i].0 == d[i].0);
            },
        },
        None => match dict_index(e, key) {
            Some(j) => {
                assert(d[j].0 == e[j].0);
            },
            None => {},
        },
    }
}

/// The object the objects hold under `id`, if any.
pub open spec fn obj_at(objs: Map<ObjId, PdfObject>, id: ObjId) -> Option<PdfObject> {
    if objs.dom().contains(id) {
        Some(objs[id])
    } else {
        None
    }
}

/// The page tree node a catalog points at: its dictionary, when the
/// trailer's `/Root` refers to a dictionary whose `/Pages` refers to one.
pub open spec fn root_page_tree(objs: Map<ObjId, PdfObject>, trailer: PdfDict) -> Option<PdfDict> {
    match dict_get(trailer, "Root".spec_bytes()) {
        Some(PdfObject::Reference(n, g)) => match obj_at(objs, (n, g)) {
            Some(PdfObject::Dictionary(c)) => match dict_get(c, "Pages".spec_bytes()) {
                Some(PdfObject::Reference(pn, pg)) => match obj_at(objs, (pn, pg)) {
                    Some(PdfObject::Dictionary(p)) => Some(p),
                    _ => None,
                },
                _ => None,
            },
            _ => None,
        },
        _ => None,
    }
}

/// Setting an entry: the dictionary then holds `v` for `k` and what it held
/// before for any other key; distinct keys stay distinct.
pub proof fn lemma_dict_get_set(d: PdfDict, k: Seq<u8>, v: PdfObject, k2: Seq<u8>)
    ensures
        keys_distinct(d) ==> keys_distinct(dict_set(d, k, v)),
        dict_get(dict_set(d, k, v), k2) == if k == k2 {
            Some(v)
        } else {
            dict_get(d, k2)
        },
{
    let e = dict_set(d, k, v);
    lemma_dict_index(d, k);
    lemma_dict_index(d, k2);
    lemma_dict_index(e, k2);
    match dict_index(d, k) {
        Some(i) => {
            assert forall|j: int| 0 <= j < d.len() implies d[j].0 == e[j].0 by {}
            lemma_dict_index_same_keys(d, e, k2);
            if keys_distinct(d) {
                assert forall|a: int, b: int| 0 <= a < b < e.len() implies e[a].0 != e[b].0 by {
                    assert(e[a].0 == d[a].0 && e[b].0 == d[b].0);
                }
            }
        },
        None => {
            assert(e == d.push((k, v)));
            assert(e.drop_last() =~= d);
            if keys_distinct(d) {
                assert forall|a: int, b: int| 0 <= a < b < e.len() implies e[a].0 != e[b].0 by {
                    if b == d.len() {
                        assert(e[a].0 == d[a].0);
                    }
                }
            }
        },
    }
}

/// Setting a key twice is setting it to the second value.
pub proof fn lemma_dict_set_set(d: PdfDict, k: Seq<u8>, v1: PdfObject, v2: PdfObject)
    ensures
        dict_set(dict_set(d, k, v1), k, v2) == dict_set(d, k, v2),
{
    let e = dict_set(d, k, v1);
    lemma_dict_index(d, k);
    lemma_dict_index(e, k);
    match dict_index(d, k) {
        Some(i) => {
            assert forall|j: int| 0 <= j < d.len() implies d[j].0 == e[j].0 by {}
            lemma_dict_index_same_keys(d, e, k);
            assert(dict_set(e, k, v2) =~= dict_set(d, k, v2));
        },
        None => {
            assert(e == d.push((k, v1)));
            match dict_index(e, k) {
                Some(j) => {
                    if j < d.len() {
                        assert(e[j] == d[j]);
                    }
                    assert(j == d.len());
                },
                None => {
                    assert(e[d.len() as int].0 == k);
                },
            }
            assert(dict_set(e, k, v2) =~= dict_set(d, k, v2));
        },
    }
}

/// In a dictionary with distinct keys, the value for a key is that of the
/// one entry that has it, and there is none when no entry has it.
pub proof fn lemma_dict_get_distinct(d: PdfDict, key: Seq<u8>)
    requires
        keys_distinct(d),
    ensures
        forall|j: int| 0 <= j < d.len() && #[trigger] d[j].0 == key ==> dict_get(d, key) == Some(d[j].1),
        (forall|j: int| 0 <= j < d.len() ==> #[trigger] d[j].0 != key) ==> dict_get(d, key) is None,
{
    lemma_dict_index(d, key);
    assert forall|j: int| 0 <= j < d.len() && #[trigger] d[j].0 == key implies dict_get(d, key) == Some(
        d[j].1,
    ) by {
        match dict_index(d, key) {
            Some(i) => {
                if i < j {
                    assert(d[i].0 != d[j].0);
                }
            },
            None => {},
        }
    }
}

/// Two ASCII names of different lengths are different names.
pub proof fn lemma_names_differ_in_length(a: &str, b: &str)
    requires
        vstd::utf8::is_ascii_chars(a@),
        vstd::utf8::is_ascii_chars(b@),
        a@.len() != b@.len(),
    ensures
        a.spec_bytes() != b.spec_bytes(),
{
    vstd::utf8::is_ascii_chars_encode_utf8(a@);
    vstd::utf8::is_ascii_chars_encode_utf8(b@);
}

/// Two ASCII names whose first characters differ are different names.
pub proof fn lemma_names_differ(a: &str, b: &str)
    requires
        vstd::utf8::is_ascii_chars(a@),
        vstd::utf8::is_ascii_chars(b@),
        a@.len() > 0,
        b@.len() > 0,
        a@[0] != b@[0],
    ensures
        a.spec_bytes() != b.spec_bytes(),
{
    vstd::utf8::is_ascii_chars_encode_utf8(a@);
    vstd::utf8::is_ascii_chars_encode_utf8(b@);
    assert(a.spec_bytes()[0] == a@[0] as u8);
    assert(b.spec_bytes()[0] == b@[0] as u8);
}

// ---------------------------------------------------------------------------
// Byte strings.

/// Whether two byte strings are equal.
pub fn bytes_eq(a: &[u8], b: &[u8]) -> (r: bool)
    ensures
        r == (a@ == b@),
{
    if a.len() != b.len() {
        return false;
    }
    let mut i: usize = 0;
    while i < a.len()
        invariant
            a@.len() == b@.len(),
            i <= a@.len(),
            forall|j: int| 0 <= j < i ==> a@[j] == b@[j],
        decreases a@.len() - i,
    {
        if a[i] != b[i] {
            return false;
        }
        i += 1;
    }
    assert(a@ =~= b@);
    true
}

/// Whether an optional byte string is `Some(b)`.
pub fn opt_bytes_eq(a: &Option<Vec<u8>>, b: &[u8]) -> (r: bool)
    ensures
        r == (match a {
            Some(v) => v@ == b@,
            None => false,
        }),
{
    match a {
        Some(v) => bytes_eq(v.as_slice(), b),
        None => false,
    }
}

} // verus!
