//! Unix path strings, read the way the standard library splits a path into
//! components: a leading `/` is the root, a leading `.` followed by a `/` (or
//! alone) is the current directory, empty pieces and `.` pieces in the body
//! are skipped, `..` is the parent directory and anything else is a name.
use vstd::prelude::*;

verus! {

/// The path begins at the root.
pub open spec fn has_root(p: Seq<char>) -> bool {
    p.len() > 0 && p[0] == '/'
}

/// The path begins with a `.` that stands for the current directory.
pub open spec fn cur_dir_prefix(p: Seq<char>) -> bool {
    !has_root(p) && p.len() > 0 && p[0] == '.' && (p.len() == 1 || p[1] == '/')
}

/// Where the body of the path (after the root or the leading `.`) begins.
pub open spec fn body_start(p: Seq<char>) -> int {
    if has_root(p) || cur_dir_prefix(p) {
        1
    } else {
        0
    }
}

/// The start of the last piece of `p[lo..k]`: just after its last `/`, or `lo`.
pub open spec fn piece_start(p: Seq<char>, lo: int, k: int) -> int
    decreases k - lo,
{
    if k <= lo {
        lo
    } else if p[k - 1] == '/' {
        k
    } else {
        piece_start(p, lo, k - 1)
    }
}

/// The piece `p[j..k]` is empty or a single `.`: it names no component.
pub open spec fn skippable(p: Seq<char>, j: int, k: int) -> bool {
    k == j || (k == j + 1 && p[j] == '.')
}

/// The piece `p[j..k]` is `..`.
pub open spec fn is_dot_dot(p: Seq<char>, j: int, k: int) -> bool {
    k == j + 2 && p[j] == '.' && p[j + 1] == '.'
}

/// The end of `p[..k]` once trailing separators and `.` pieces of the body
/// (which starts at `lo`) are dropped.
pub open spec fn trim_end(p: Seq<char>, lo: int, k: int) -> int
    decreases k - lo,
{
    if k <= lo {
        k
    } else {
        let j = piece_start(p, lo, k);
        proof {
            lemma_piece_start_le(p, lo, k);
        }
        if skippable(p, j, k) {
            trim_end(p, lo, if j > lo { j - 1 } else { lo })
        } else {
            k
        }
    }
}

/// The end of the last component of the body.
pub open spec fn last_end(p: Seq<char>) -> int {
    trim_end(p, body_start(p), p.len() as int)
}

/// The start of the last component of the body.
pub open spec fn last_start(p: Seq<char>) -> int {
    piece_start(p, body_start(p), last_end(p))
}

/// The path ends in a name (not in the root, `.` or `..`).
pub open spec fn has_file_name(p: Seq<char>) -> bool {
    last_end(p) > body_start(p) && !is_dot_dot(p, last_start(p), last_end(p))
}

/// The final component of the path, if it is a name.
pub open spec fn file_name(p: Seq<char>) -> Option<Seq<char>> {
    if has_file_name(p) {
        Some(p.subrange(last_start(p), last_end(p)))
    } else {
        None
    }
}

/// The index of the last `.` in `p[s..k]`, or `s - 1` when there is none.
pub open spec fn last_dot(p: Seq<char>, s: int, k: int) -> int
    decreases k - s,
{
    if k <= s {
        s - 1
    } else if p[k - 1] == '.' {
        k - 1
    } else {
        last_dot(p, s, k - 1)
    }
}

/// The file name without its extension: everything before the last `.`,
/// unless that `.` is the first character of the name.
pub open spec fn stem_of(name: Seq<char>) -> Seq<char> {
    let d = last_dot(name, 0, name.len() as int);
    if d > 0 {
        name.subrange(0, d)
    } else {
        name
    }
}

/// The stem of the path's file name, if it has one.
pub open spec fn file_stem(p: Seq<char>) -> Option<Seq<char>> {
    match file_name(p) {
        Some(n) => Some(stem_of(n)),
        None => None,
    }
}

/// The extension of the path's file name: what follows its last `.`, unless
/// that `.` is the first character of the name.
pub open spec fn extension(p: Seq<char>) -> Option<Seq<char>> {
    match file_name(p) {
        Some(n) => {
            let d = last_dot(n, 0, n.len() as int);
            if d > 0 {
                Some(n.subrange(d + 1, n.len() as int))
            } else {
                None
            }
        },
        None => None,
    }
}

/// What is left of the path once its last component is taken away.
pub open spec fn parent(p: Seq<char>) -> Option<Seq<char>> {
    let lb = body_start(p);
    if last_end(p) > lb {
        let j = last_start(p);
        Some(p.subrange(0, trim_end(p, lb, if j > lb { j - 1 } else { lb })))
    } else if cur_dir_prefix(p) {
        Some(Seq::empty())
    } else {
        None
    }
}

/// The path ends with a separator character.
pub open spec fn ends_with_sep(p: Seq<char>) -> bool {
    p.len() > 0 && p.last() == '/'
}

/// `base` extended by `name`: a separator goes between them when `base` is
/// not empty and does not already end with one; an absolute `name` replaces
/// `base`.
pub open spec fn push(base: Seq<char>, name: Seq<char>) -> Seq<char> {
    if has_root(name) {
        name
    } else if base.len() > 0 && base.last() != '/' {
        base + seq!['/'] + name
    } else {
        base + name
    }
}

/// The path with its file name replaced by `name`.
pub open spec fn with_file_name(p: Seq<char>, name: Seq<char>) -> Seq<char> {
    if has_file_name(p) {
        push(parent(p).unwrap(), name)
    } else {
        push(p, name)
    }
}

/// The sequence holds no separator.
pub open spec fn no_sep(s: Seq<char>) -> bool {
    forall|i: int| 0 <= i < s.len() ==> s[i] != '/'
}

// ---------------------------------------------------------------------------
// Facts about the definitions.

/// The last piece starts inside the range it is searched in.
pub proof fn lemma_piece_start_le(p: Seq<char>, lo: int, k: int)
    requires
        lo <= k,
    ensures
        lo <= piece_start(p, lo, k) <= k,
    decreases k - lo,
{
    if k > lo && p[k - 1] != '/' {
        lemma_piece_start_le(p, lo, k - 1);
    }
}

proof fn lemma_piece_start_bounds(p: Seq<char>, lo: int, k: int)
    requires
        0 <= lo <= k <= p.len(),
    ensures
        lo <= piece_start(p, lo, k) <= k,
        forall|i: int| piece_start(p, lo, k) <= i < k ==> p[i] != '/',
        piece_start(p, lo, k) > lo ==> p[piece_start(p, lo, k) - 1] == '/',
    decreases k - lo,
{
    if k > lo && p[k - 1] != '/' {
        lemma_piece_start_bounds(p, lo, k - 1);
    }
}

proof fn lemma_trim_end_bounds(p: Seq<char>, lo: int, k: int)
    requires
        0 <= lo <= k <= p.len(),
    ensures
        lo <= trim_end(p, lo, k) <= k,
        trim_end(p, lo, k) > lo ==> !skippable(
            p,
            piece_start(p, lo, trim_end(p, lo, k)),
            trim_end(p, lo, k),
        ),
    decreases k - lo,
{
    if k > lo {
        let j = piece_start(p, lo, k);
        lemma_piece_start_bounds(p, lo, k);
        if skippable(p, j, k) {
            lemma_trim_end_bounds(p, lo, if j > lo { j - 1 } else { lo });
        }
    }
}

/// The pieces of the body end where the body ends.
pub proof fn lemma_last_component_bounds(p: Seq<char>)
    ensures
        0 <= body_start(p) <= last_start(p) <= last_end(p) <= p.len(),
        body_start(p) <= p.len(),
        forall|i: int| last_start(p) <= i < last_end(p) ==> p[i] != '/',
        last_end(p) > body_start(p) ==> !skippable(p, last_start(p), last_end(p)),
        last_start(p) > body_start(p) ==> p[last_start(p) - 1] == '/',
{
    lemma_trim_end_bounds(p, body_start(p), p.len() as int);
    lemma_piece_start_bounds(p, body_start(p), last_end(p));
}

proof fn lemma_last_dot_bounds(p: Seq<char>, s: int, k: int)
    requires
        0 <= s <= k <= p.len(),
    ensures
        s - 1 <= last_dot(p, s, k) < k,
        last_dot(p, s, k) >= s ==> p[last_dot(p, s, k)] == '.',
        forall|i: int| last_dot(p, s, k) < i < k ==> p[i] != '.',
    decreases k - s,
{
    if k > s && p[k - 1] != '.' {
        lemma_last_dot_bounds(p, s, k - 1);
    }
}

/// A last piece that runs from `m` to `k` without a separator, and begins at
/// `lo` or after a separator, starts at `m`.
proof fn lemma_piece_start_at(p: Seq<char>, lo: int, m: int, k: int)
    requires
        0 <= lo <= m <= k <= p.len(),
        forall|i: int| m <= i < k ==> p[i] != '/',
        m == lo || p[m - 1] == '/',
    ensures
        piece_start(p, lo, k) == m,
    decreases k - lo,
{
    if k > m {
        lemma_piece_start_at(p, lo, m, k - 1);
    }
}

/// `piece_start` reads only the part of the path before `k`.
proof fn lemma_piece_start_prefix(p: Seq<char>, q: Seq<char>, lo: int, k: int)
    requires
        0 <= lo <= k <= p.len(),
        k <= q.len(),
        forall|i: int| 0 <= i < k ==> p[i] == q[i],
    ensures
        piece_start(p, lo, k) == piece_start(q, lo, k),
    decreases k - lo,
{
    if k > lo {
        lemma_piece_start_prefix(p, q, lo, k - 1);
    }
}

/// `trim_end` reads only the part of the path before `k`.
proof fn lemma_trim_end_prefix(p: Seq<char>, q: Seq<char>, lo: int, k: int)
    requires
        0 <= lo <= k <= p.len(),
        k <= q.len(),
        forall|i: int| 0 <= i < k ==> p[i] == q[i],
    ensures
        trim_end(p, lo, k) == trim_end(q, lo, k),
    decreases k - lo,
{
    if k > lo {
        lemma_piece_start_prefix(p, q, lo, k);
        lemma_piece_start_bounds(p, lo, k);
        let j = piece_start(p, lo, k);
        if skippable(p, j, k) {
            lemma_trim_end_prefix(p, q, lo, if j > lo { j - 1 } else { lo });
        }
    }
}

/// Trimming a trimmed end changes nothing.
proof fn lemma_trim_end_idempotent(p: Seq<char>, lo: int, k: int)
    requires
        0 <= lo <= k <= p.len(),
    ensures
        trim_end(p, lo, trim_end(p, lo, k)) == trim_end(p, lo, k),
{
    lemma_trim_end_bounds(p, lo, k);
}

/// What the trimmed part of a path looks like: it is empty, or it is the
/// root or `.` alone, or its last character is no separator.
proof fn lemma_trim_end_last_char(p: Seq<char>, lo: int, k: int)
    requires
        0 <= lo <= k <= p.len(),
    ensures
        trim_end(p, lo, k) > lo ==> p[trim_end(p, lo, k) - 1] != '/',
        trim_end(p, lo, k) > lo ==> !(trim_end(p, lo, k) == 1 && p[0] == '.' && lo == 0),
{
    lemma_trim_end_bounds(p, lo, k);
    let t = trim_end(p, lo, k);
    if t > lo {
        lemma_piece_start_bounds(p, lo, t);
    }
}

/// The stem of a name without separators has none either.
pub proof fn lemma_stem_no_sep(n: Seq<char>)
    requires
        no_sep(n),
    ensures
        no_sep(stem_of(n)),
{
    lemma_last_dot_bounds(n, 0, n.len() as int);
}

/// The stem of a name is the whole name, or a part of it that a `.`
/// follows.
pub proof fn lemma_stem_before_dot(n: Seq<char>)
    ensures
        stem_of(n) == n || {
            &&& stem_of(n).len() < n.len()
            &&& stem_of(n) == n.subrange(0, stem_of(n).len() as int)
            &&& n[stem_of(n).len() as int] == '.'
        },
{
    lemma_last_dot_bounds(n, 0, n.len() as int);
}

/// A name with no separator that is not `.` or `..`.
pub open spec fn plain_name(name: Seq<char>) -> bool {
    &&& name.len() > 0
    &&& no_sep(name)
    &&& !(name.len() == 1 && name[0] == '.')
    &&& !(name.len() == 2 && name[0] == '.' && name[1] == '.')
}

/// A plain name pushed onto any path becomes that path's file name.
pub proof fn lemma_file_name_of_push(base: Seq<char>, name: Seq<char>)
    requires
        plain_name(name),
    ensures
        file_name(push(base, name)) == Some(name),
        has_file_name(push(base, name)),
        last_start(push(base, name)) == push(base, name).len() - name.len(),
{
    let q = push(base, name);
    let m = q.len() - name.len();
    assert(q.subrange(m, q.len() as int) =~= name);
    assert(forall|i: int| m <= i < q.len() ==> q[i] == name[i - m]);
    if m == 0 {
        assert(q =~= name);
        assert(!has_root(q));
        assert(!cur_dir_prefix(q));
    }
    let lb = body_start(q);
    assert(lb <= m);
    lemma_piece_start_at(q, lb, m, q.len() as int);
    assert(!skippable(q, m, q.len() as int));
    assert(trim_end(q, lb, q.len() as int) == q.len());
}

/// Giving a path a new plain file name keeps it in the same directory.
pub proof fn lemma_parent_of_with_file_name(p: Seq<char>, name: Seq<char>)
    requires
        plain_name(name),
        has_file_name(p),
    ensures
        parent(with_file_name(p, name)) == parent(p),
{
    let lb = body_start(p);
    lemma_last_component_bounds(p);
    let j = last_start(p);
    let k = if j > lb { j - 1 } else { lb };
    let pe = trim_end(p, lb, k);
    lemma_trim_end_bounds(p, lb, k);
    lemma_trim_end_last_char(p, lb, k);
    let b = p.subrange(0, pe);
    assert(parent(p) == Some(b));
    let q = push(b, name);
    lemma_file_name_of_push(b, name);
    let m = q.len() - name.len();
    let lbq = body_start(q);
    if b.len() == 0 {
        assert(q =~= name);
        assert(parent(q) =~= Some(b));
    } else if b.last() == '/' {
        // Only the root ends with a separator once trimmed.
        assert(pe <= lb);
        assert(pe == 1 && p[0] == '/');
        assert(q[0] == '/');
        assert(lbq == 1);
        assert(m == 1);
        assert(q.subrange(0, 1) =~= b);
    } else {
        assert(q =~= b + seq!['/'] + name);
        assert(m == pe + 1);
        assert(forall|i: int| 0 <= i < pe ==> q[i] == p[i]);
        // The body starts at the same place in both paths.
        if pe >= 2 {
            assert(q[0] == p[0] && q[1] == p[1]);
            assert(lbq == lb);
        } else {
            assert(pe == 1);
            assert(q[1] == '/');
            if p[0] == '.' {
                assert(lb == 1);
            }
            assert(lbq == lb);
        }
        assert(m > lbq);
        lemma_trim_end_prefix(p, q, lb, pe);
        lemma_trim_end_idempotent(p, lb, k);
        assert(q.subrange(0, pe) =~= b);
    }
}

// ---------------------------------------------------------------------------
// Executable counterparts, on the characters of a path.

/// The characters of `s`, one by one.
pub fn chars_of(s: &str) -> (v: Vec<char>)
    ensures
        v@ == s@,
{
    let n = s.unicode_len();
    let mut v: Vec<char> = Vec::new();
    let mut i: usize = 0;
    while i < n
        invariant
            n == s@.len(),
            i <= n,
            v@ == s@.subrange(0, i as int),
        decreases n - i,
    {
        v.push(s.get_char(i));
        i += 1;
        assert(v@ =~= s@.subrange(0, i as int));
    }
    assert(v@ =~= s@);
    v
}

fn body_start_exec(p: &Vec<char>) -> (r: usize)
    ensures
        r == body_start(p@),
{
    if p.len() > 0 && p[0] == '/' {
        1
    } else if p.len() > 0 && p[0] == '.' && (p.len() == 1 || p[1] == '/') {
        1
    } else {
        0
    }
}

fn piece_start_exec(p: &Vec<char>, lo: usize, k: usize) -> (r: usize)
    requires
        lo <= k <= p.len(),
    ensures
        r == piece_start(p@, lo as int, k as int),
{
    let mut i = k;
    while i > lo && p[i - 1] != '/'
        invariant
            lo <= i <= k <= p.len(),
            piece_start(p@, lo as int, k as int) == piece_start(p@, lo as int, i as int),
        decreases i,
    {
        i -= 1;
    }
    i
}

fn trim_end_exec(p: &Vec<char>, lo: usize, k: usize) -> (r: usize)
    requires
        lo <= k <= p.len(),
    ensures
        r == trim_end(p@, lo as int, k as int),
{
    let mut k1 = k;
    loop
        invariant
            lo <= k1 <= k <= p.len(),
            trim_end(p@, lo as int, k as int) == trim_end(p@, lo as int, k1 as int),
        decreases k1,
    {
        if k1 <= lo {
            return k1;
        }
        let j = piece_start_exec(p, lo, k1);
        proof {
            lemma_piece_start_bounds(p@, lo as int, k1 as int);
        }
        if j == k1 || (k1 == j + 1 && p[j] == '.') {
            k1 = if j > lo {
                j - 1
            } else {
                lo
            };
        } else {
            return k1;
        }
    }
}

/// The bounds of the last component of the body, as `last_start` and
/// `last_end` give them.
pub fn last_bounds_exec(p: &Vec<char>) -> (r: (usize, usize))
    ensures
        r.0 == last_start(p@),
        r.1 == last_end(p@),
{
    let lb = body_start_exec(p);
    let e = trim_end_exec(p, lb, p.len());
    proof {
        lemma_trim_end_bounds(p@, lb as int, p@.len() as int);
    }
    let s = piece_start_exec(p, lb, e);
    (s, e)
}

/// Whether the path ends in a name.
pub fn has_file_name_exec(p: &Vec<char>) -> (r: bool)
    ensures
        r == has_file_name(p@),
{
    let lb = body_start_exec(p);
    let (s, e) = last_bounds_exec(p);
    proof {
        lemma_last_component_bounds(p@);
    }
    e > lb && !(e - s == 2 && p[s] == '.' && p[s + 1] == '.')
}

/// How much of the path its parent keeps, as `parent` says.
pub fn parent_end_exec(p: &Vec<char>) -> (r: Option<usize>)
    ensures
        match parent(p@) {
            Some(q) => r is Some && r.unwrap() <= p@.len() && q == p@.subrange(0, r.unwrap() as int),
            None => r is None,
        },
{
    let lb = body_start_exec(p);
    let (s, e) = last_bounds_exec(p);
    proof {
        lemma_last_component_bounds(p@);
    }
    if e > lb {
        let k = if s > lb {
            s - 1
        } else {
            lb
        };
        let pe = trim_end_exec(p, lb, k);
        proof {
            lemma_trim_end_bounds(p@, lb as int, k as int);
        }
        Some(pe)
    } else if lb == 1 && p[0] != '/' {
        assert(Seq::<char>::empty() =~= p@.subrange(0, 0));
        Some(0)
    } else {
        None
    }
}

fn last_dot_exec(p: &Vec<char>, s: usize, k: usize) -> (r: Option<usize>)
    requires
        s <= k <= p.len(),
    ensures
        match r {
            Some(d) => d == last_dot(p@, s as int, k as int),
            None => last_dot(p@, s as int, k as int) == s - 1,
        },
{
    let mut i = k;
    while i > s && p[i - 1] != '.'
        invariant
            s <= i <= k <= p.len(),
            last_dot(p@, s as int, k as int) == last_dot(p@, s as int, i as int),
        decreases i,
    {
        i -= 1;
    }
    if i > s {
        Some(i - 1)
    } else {
        None
    }
}

/// Where the stem of the file name `p[s..e]` ends.
pub fn stem_end_exec(p: &Vec<char>, s: usize, e: usize) -> (r: usize)
    requires
        s <= e <= p.len(),
    ensures
        s <= r <= e,
        p@.subrange(s as int, r as int) == stem_of(p@.subrange(s as int, e as int)),
{
    let d = last_dot_exec(p, s, e);
    proof {
        lemma_last_dot_shift(p@, s as int, e as int);
        lemma_last_dot_bounds(p@, s as int, e as int);
    }
    match d {
        Some(d) => {
            if d > s {
                assert(p@.subrange(s as int, d as int) =~= p@.subrange(s as int, e as int).subrange(
                    0,
                    d - s,
                ));
                d
            } else {
                e
            }
        },
        None => e,
    }
}

proof fn lemma_last_dot_shift(p: Seq<char>, s: int, k: int)
    requires
        0 <= s <= k <= p.len(),
    ensures
        last_dot(p.subrange(s, k), 0, k - s) == last_dot(p, s, k) - s,
    decreases k - s,
{
    let q = p.subrange(s, k);
    if k > s {
        assert(q[k - s - 1] == p[k - 1]);
        if p[k - 1] != '.' {
            lemma_last_dot_shift(p, s, k - 1);
            assert(p.subrange(s, k - 1) =~= q.subrange(0, k - s - 1));
            lemma_last_dot_prefix(q, k - s - 1);
        }
    }
}

/// The search in a prefix of `q` is the search in `q` stopped early.
proof fn lemma_last_dot_prefix(q: Seq<char>, k: int)
    requires
        0 <= k <= q.len(),
    ensures
        last_dot(q.subrange(0, k), 0, k) == last_dot(q, 0, k),
    decreases k,
{
    if k > 0 {
        if q[k - 1] != '.' {
            lemma_last_dot_prefix(q, k - 1);
            assert(q.subrange(0, k).subrange(0, k - 1) =~= q.subrange(0, k - 1));
            lemma_last_dot_prefix(q.subrange(0, k), k - 1);
        }
    }
}

/// The extension of the path's file name, or the empty string when it has
/// none.
pub fn extension_or_empty(path: &str) -> (r: String)
    ensures
        r@ == match extension(path@) {
            Some(x) => x,
            None => Seq::empty(),
        },
{
    let p = chars_of(path);
    if !has_file_name_exec(&p) {
        return String::new();
    }
    let (s, e) = last_bounds_exec(&p);
    proof {
        lemma_last_component_bounds(p@);
        lemma_last_dot_shift(p@, s as int, e as int);
        lemma_last_dot_bounds(p@, s as int, e as int);
    }
    let ghost n = p@.subrange(s as int, e as int);
    match last_dot_exec(&p, s, e) {
        Some(d) => {
            if d > s {
                assert(p@.subrange(d + 1, e as int) =~= n.subrange(d + 1 - s, n.len() as int));
                String::from_str(path.substring_char(d + 1, e))
            } else {
                String::new()
            }
        },
        None => String::new(),
    }
}

} // verus!
