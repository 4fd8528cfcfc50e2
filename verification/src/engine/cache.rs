//! History cache: the format checks, the hex encoding of object ids and
//! the decisions of an incremental scan (reuse, splice a delta, rebuild).
//!
//! The file is JSON with an envelope (`format_version`, `head_oid`,
//! `commit_count`) and the interned tables; reading and writing it, and
//! walking the repository, are done by the caller.

use vstd::prelude::*;
use vstd::string::StringSliceAdditionalSpecFns;
use vstd::utf8::{encode_utf8, is_ascii_chars};
use vstd::hash_map::StringHashMap;
use vstd::set_lib::{lemma_int_range, lemma_subset_equality, set_int_range};
use crate::engine::git::walk::ScanOutput;
use crate::engine::model::{
    author_key, author_keys, last_index_of, lemma_last_index_of_found, lemma_last_index_of_push,
    lemma_new_keys_prefix_len, lemma_new_keys_push, new_keys, path_views, same_author, AuthorId,
    AuthorInfo, CommitRecord, FileId, FileStat, History, Oid, CACHE_FORMAT_VERSION,
};
use crate::order::{sort_strict, sorted_strict, StrictOrder};
use crate::text::{hex_char, hex_digit_char, push_char};

verus! {

broadcast use {vstd::string::group_string_axioms, vstd::array::group_array_axioms};

// ------------------------------------------------------------------
// Object ids as hex
// ------------------------------------------------------------------

/// Lower-case hex of `bytes`, two characters per byte.
pub open spec fn hex_of(bytes: Seq<u8>) -> Seq<char> {
    Seq::new(
        2 * bytes.len(),
        |i: int|
            if i % 2 == 0 {
                hex_digit_char(bytes[i / 2] / 16)
            } else {
                hex_digit_char(bytes[i / 2] % 16)
            },
    )
}

/// Value of one hex digit byte (either case).
pub open spec fn nibble_value(b: u8) -> Option<u8> {
    if 48 <= b <= 57 {
        Some((b - 48) as u8)
    } else if 97 <= b <= 102 {
        Some((b - 87) as u8)
    } else if 65 <= b <= 70 {
        Some((b - 55) as u8)
    } else {
        None
    }
}

/// Value of two hex digits (the high one first).
pub open spec fn pair_value(b0: u8, b1: u8) -> Option<u8> {
    match (nibble_value(b0), nibble_value(b1)) {
        (Some(h), Some(l)) => Some((16 * h + l) as u8),
        _ => None,
    }
}

/// Every pair of the 40 bytes holds a hex number.
pub open spec fn all_pairs_valid(b: Seq<u8>) -> bool {
    forall|k: int| 0 <= k < 20 ==> #[trigger] pair_value(b[2 * k], b[2 * k + 1]) is Some
}

/// The object id written in `b` (40 hex bytes), if it is one.
pub open spec fn parse_oid_hex(b: Seq<u8>) -> Option<Seq<u8>> {
    if b.len() == 40 && all_pairs_valid(b) {
        Some(Seq::new(20, |k: int| pair_value(b[2 * k], b[2 * k + 1])->0))
    } else {
        None
    }
}

fn nibble(b: u8) -> (r: Option<u8>)
    ensures
        r == nibble_value(b),
{
    if 48 <= b && b <= 57 {
        Some(b - 48)
    } else if 97 <= b && b <= 102 {
        Some(b - 87)
    } else if 65 <= b && b <= 70 {
        Some(b - 55)
    } else {
        None
    }
}

fn parse_pair(b0: u8, b1: u8) -> (r: Option<u8>)
    ensures
        r == pair_value(b0, b1),
{
    match (nibble(b0), nibble(b1)) {
        (Some(h), Some(l)) => Some(16 * h + l),
        _ => None,
    }
}

/// Lower-case hex of an object id (40 characters).
pub fn oid_hex(oid: &Oid) -> (s: String)
    ensures
        s@ == hex_of(oid@),
{
    let mut s = String::new();
    let mut i: usize = 0;
    while i < 20
        invariant
            i <= 20,
            s@ =~= hex_of(oid@).take(2 * i),
        decreases 20 - i,
    {
        let b = oid[i];
        push_char(&mut s, hex_char(b / 16));
        push_char(&mut s, hex_char(b % 16));
        assert(s@ =~= hex_of(oid@).take(2 * (i + 1)));
        i = i + 1;
    }
    assert(hex_of(oid@).take(40) =~= hex_of(oid@));
    s
}

/// The object id written as 40 hex digits (either case) in `s`; `None`
/// for any other text.
pub fn hex_to_oid(s: &str) -> (r: Option<Oid>)
    ensures
        r is None <==> parse_oid_hex(s.spec_bytes()) is None,
        r matches Some(o) ==> parse_oid_hex(s.spec_bytes()) == Some(o@),
{
    let bytes = s.as_bytes();
    if bytes.len() != 40 {
        return None;
    }
    let ghost b = bytes@;
    let mut out: Oid = [0u8; 20];
    let mut i: usize = 0;
    while i < 20
        invariant
            b == bytes@,
            b == s.spec_bytes(),
            b.len() == 40,
            i <= 20,
            forall|k: int| 0 <= k < i ==> #[trigger] pair_value(b[2 * k], b[2 * k + 1]) == Some(out@[k]),
        decreases 20 - i,
    {
        match parse_pair(bytes[2 * i], bytes[2 * i + 1]) {
            Some(v) => {
                out[i] = v;
            },
            None => {
                assert(pair_value(b[2 * (i as int)], b[2 * (i as int) + 1]) is None);
                return None;
            },
        }
        i = i + 1;
    }
    assert(all_pairs_valid(b));
    assert(Seq::new(20, |k: int| pair_value(b[2 * k], b[2 * k + 1])->0) =~= out@);
    Some(out)
}

proof fn lemma_hex_digit(d: u8)
    requires
        d < 16,
    ensures
        nibble_value(hex_digit_char(d) as u8) == Some(d),
        hex_digit_char(d) as u8 <= 127,
{
}

/// Writing an object id as hex and reading it back gives the same id.
pub proof fn lemma_oid_hex_round_trip(oid: Oid)
    ensures
        parse_oid_hex(encode_utf8(hex_of(oid@))) == Some(oid@),
{
    let chars = hex_of(oid@);
    assert(is_ascii_chars(chars));
    vstd::utf8::is_ascii_chars_encode_utf8(chars);
    let b = encode_utf8(chars);
    assert(b.len() == 40);
    assert forall|k: int| 0 <= k < 20 implies #[trigger] pair_value(b[2 * k], b[2 * k + 1]) == Some(
        oid@[k],
    ) by {
        assert(chars[2 * k] as u8 == b[2 * k]);
        assert(chars[2 * k + 1] as u8 == b[2 * k + 1]);
        lemma_hex_digit(oid@[k] / 16);
        lemma_hex_digit(oid@[k] % 16);
    }
    assert(all_pairs_valid(b));
    assert(Seq::new(20, |k: int| pair_value(b[2 * k], b[2 * k + 1])->0) =~= oid@);
}


/// `b` with its ASCII capitals made small.
pub open spec fn ascii_lower(b: Seq<u8>) -> Seq<u8> {
    b.map_values(|x: u8| if 65 <= x <= 90 { (x + 32) as u8 } else { x })
}

proof fn lemma_digit_back(x: u8, h: u8)
    requires
        nibble_value(x) == Some(h),
    ensures
        h < 16,
        hex_digit_char(h) as u8 == (if 65 <= x <= 90 { (x + 32) as u8 } else { x }),
        '\0' <= hex_digit_char(h) <= '\u{7f}',
{
}

/// Reading an id written in hex and writing it back gives the text in lower
/// case: an accepted text is 40 hex digits, and the hex of what it names is
/// those digits with capitals made small.
pub proof fn lemma_hex_reads_back_lower(b: Seq<u8>)
    requires
        parse_oid_hex(b) is Some,
    ensures
        encode_utf8(hex_of(parse_oid_hex(b)->0)) == ascii_lower(b),
{
    let o = parse_oid_hex(b)->0;
    let chars = hex_of(o);
    assert forall|i: int| 0 <= i < 40 implies (#[trigger] chars[i]) as u8 == ascii_lower(b)[i] && '\0' <= chars[i]
        <= '\u{7f}' by {
        let k = i / 2;
        assert(0 <= k < 20);
        assert(pair_value(b[2 * k], b[2 * k + 1]) is Some);
        let h = nibble_value(b[2 * k])->0;
        let l = nibble_value(b[2 * k + 1])->0;
        lemma_digit_back(b[2 * k], h);
        lemma_digit_back(b[2 * k + 1], l);
        assert(o[k] == (16 * h + l) as u8);
        assert((16 * h + l) / 16 == h && (16 * h + l) % 16 == l) by (nonlinear_arith)
            requires
                h < 16,
                l < 16,
        ;
        if i % 2 == 0 {
            assert(i == 2 * k);
        } else {
            assert(i == 2 * k + 1);
        }
    }
    assert(is_ascii_chars(chars));
    vstd::utf8::is_ascii_chars_encode_utf8(chars);
    assert forall|i: int| 0 <= i < 40 implies encode_utf8(chars)[i] == ascii_lower(b)[i] by {
        assert(chars[i] as u8 == ascii_lower(b)[i]);
    }
    assert(encode_utf8(chars) =~= ascii_lower(b));
}

// ------------------------------------------------------------------
// Newest-first order of commits
// ------------------------------------------------------------------

/// `p` lists each index below `n` exactly once.
pub open spec fn is_permutation(p: Seq<int>, n: nat) -> bool {
    &&& p.len() == n
    &&& forall|k: int| 0 <= k < p.len() ==> 0 <= #[trigger] p[k] < n
    &&& forall|k: int, l: int| 0 <= k < l < p.len() ==> #[trigger] p[k] != #[trigger] p[l]
}

/// `out` is `input` reordered by time, newest first; commits with equal
/// times keep their order (a stable sort).
pub open spec fn newest_first_of(input: Seq<CommitRecord>, out: Seq<CommitRecord>) -> bool {
    exists|p: Seq<int>|
        #![trigger is_permutation(p, input.len())]
        is_permutation(p, input.len()) && out.len() == input.len() && (forall|k: int|
            0 <= k < out.len() ==> #[trigger] out[k] == input[p[k]]) && (forall|k: int, l: int|
            0 <= k < l < out.len() ==> #[trigger] input[p[k]].time > #[trigger] input[p[l]].time
                || (input[p[k]].time == input[p[l]].time && p[k] < p[l]))
}

/// A commit with its position in the input order.
struct Positioned {
    time: i64,
    pos: usize,
    rec: CommitRecord,
}

impl StrictOrder for Positioned {
    closed spec fn before(self, other: Self) -> bool {
        self.time > other.time || (self.time == other.time && self.pos < other.pos)
    }

    fn is_before(&self, other: &Self) -> (r: bool) {
        self.time > other.time || (self.time == other.time && self.pos < other.pos)
    }

    proof fn lemma_strict(a: Self, b: Self, c: Self) {
    }
}

/// Reorders the commits newest first by time (stable: equal times keep
/// their relative order).
pub fn sort_newest_first(h: &mut History)
    ensures
        final(h).authors == old(h).authors,
        final(h).paths == old(h).paths,
        newest_first_of(old(h).commits@, final(h).commits@),
{
    let ghost input = h.commits@;
    let mut commits: Vec<CommitRecord> = Vec::new();
    std::mem::swap(&mut commits, &mut h.commits);
    let mut keyed: Vec<Positioned> = Vec::new();
    while commits.len() > 0
        invariant
            commits@ =~= input.take(commits@.len() as int),
            commits@.len() + keyed@.len() == input.len(),
            forall|k: int|
                0 <= k < keyed@.len() ==> {
                    &&& (#[trigger] keyed@[k]).pos == input.len() - 1 - k
                    &&& keyed@[k].rec == input[keyed@[k].pos as int]
                    &&& keyed@[k].time == input[keyed@[k].pos as int].time
                },
        decreases commits@.len(),
    {
        let rec = commits.pop().unwrap();
        let pos = commits.len();
        keyed.push(Positioned { time: rec.time, pos, rec });
    }
    proof {
        assert forall|a: int, b: int|
            0 <= a < keyed@.len() && 0 <= b < keyed@.len() && a != b implies #[trigger] keyed@[a].before(keyed@[b])
            || #[trigger] keyed@[b].before(keyed@[a]) by {}
    }
    let ghost unsorted = keyed@;
    let sorted = sort_strict(keyed);
    let ghost srt = sorted@;
    // `sorted` is newest first; popping it twice keeps that order
    let mut rev: Vec<CommitRecord> = Vec::new();
    let mut sorted = sorted;
    let ghost perm = srt.map_values(|x: Positioned| x.pos as int);
    while sorted.len() > 0
        invariant
            sorted@ =~= srt.take(sorted@.len() as int),
            sorted@.len() + rev@.len() == srt.len(),
            forall|k: int|
                0 <= k < rev@.len() ==> #[trigger] rev@[k] == srt[srt.len() - 1 - k].rec,
        decreases sorted@.len(),
    {
        let x = sorted.pop().unwrap();
        rev.push(x.rec);
    }
    let mut out: Vec<CommitRecord> = Vec::new();
    while rev.len() > 0
        invariant
            forall|k: int| 0 <= k < rev@.len() ==> #[trigger] rev@[k] == srt[srt.len() - 1 - k].rec,
            rev@.len() + out@.len() == srt.len(),
            forall|k: int| 0 <= k < out@.len() ==> #[trigger] out@[k] == srt[k].rec,
        decreases rev@.len(),
    {
        let r = rev.pop().unwrap();
        out.push(r);
    }
    proof {
        assert forall|k: int| 0 <= k < srt.len() implies #[trigger] perm[k] == srt[k].pos && 0 <= srt[k].pos
            < input.len() && srt[k].rec == input[srt[k].pos as int] && srt[k].time == input[srt[k].pos as int].time by {
            assert(srt.contains(srt[k]));
            let q = choose|q: int| 0 <= q < unsorted.len() && unsorted[q] == srt[k];
        }
        assert forall|k: int, l: int| 0 <= k < l < perm.len() implies #[trigger] perm[k] != #[trigger] perm[l] by {
            assert(srt[k].before(srt[l]));
        }
        assert(is_permutation(perm, input.len()));
        assert forall|k: int, l: int|
            0 <= k < l < out@.len() implies #[trigger] input[perm[k]].time > #[trigger] input[perm[l]].time
                || (input[perm[k]].time == input[perm[l]].time && perm[k] < perm[l]) by {
            assert(srt[k].before(srt[l]));
        }
    }
    h.commits = out;
}


// ------------------------------------------------------------------
// Splicing a walked delta onto the cached history
// ------------------------------------------------------------------

/// The cache file: envelope and interned tables.
#[derive(Debug)]
pub struct CacheFile {
    pub format_version: u32,
    /// Object id of HEAD when the cache was written, as 40 hex characters.
    pub head_oid: String,
    pub commit_count: usize,
    pub authors: Vec<AuthorInfo>,
    pub paths: Vec<String>,
    pub records: Vec<CommitRecord>,
}

/// Author key of each walked record, through the walk's own table.
pub open spec fn record_author_keys(records: Seq<CommitRecord>, authors: Seq<AuthorInfo>) -> Seq<
    (Seq<char>, Seq<char>),
> {
    records.map_values(|r: CommitRecord| author_key(authors[r.author.0 as int]))
}

/// Path of each file stat, through the walk's own table.
pub open spec fn file_path_keys(files: Seq<FileStat>, paths: Seq<String>) -> Seq<Seq<char>> {
    files.map_values(|f: FileStat| paths[f.file.0 as int]@)
}

/// Paths of all the file stats of `records`, record after record.
pub open spec fn record_path_keys(records: Seq<CommitRecord>, paths: Seq<String>) -> Seq<Seq<char>>
    decreases records.len(),
{
    if records.len() == 0 {
        Seq::empty()
    } else {
        record_path_keys(records.drop_last(), paths) + file_path_keys(records.last().files@, paths)
    }
}

/// Every author and file id of the walk points into the walk's tables.
pub open spec fn ids_in_range(w: ScanOutput) -> bool {
    forall|i: int|
        0 <= i < w.records@.len() ==> (#[trigger] w.records@[i]).author.0 < w.authors@.len()
            && forall|j: int|
            0 <= j < w.records@[i].files@.len() ==> (#[trigger] w.records@[i].files@[j]).file.0
                < w.paths@.len()
}

/// `f` is `src` with its file id moved to the path's (last) position in `ptbl`.
pub open spec fn file_remapped(f: FileStat, src: FileStat, ptbl: Seq<Seq<char>>, wp: Seq<String>) -> bool {
    &&& f.file.0 == last_index_of(ptbl, wp[src.file.0 as int]@)
    &&& f.adds == src.adds
    &&& f.dels == src.dels
    &&& f.binary == src.binary
}

/// `r` is `src` with its author and file ids moved into the tables `atbl` and `ptbl`.
pub open spec fn remapped(
    r: CommitRecord,
    src: CommitRecord,
    atbl: Seq<(Seq<char>, Seq<char>)>,
    ptbl: Seq<Seq<char>>,
    wa: Seq<AuthorInfo>,
    wp: Seq<String>,
) -> bool {
    &&& r.oid == src.oid
    &&& r.time == src.time
    &&& r.n_parents == src.n_parents
    &&& r.author.0 == last_index_of(atbl, author_key(wa[src.author.0 as int]))
    &&& r.files@.len() == src.files@.len()
    &&& forall|j: int|
        0 <= j < r.files@.len() ==> #[trigger] file_remapped(r.files@[j], src.files@[j], ptbl, wp)
}

/// `h` is the walked records (ids moved into the cache's tables, extended
/// with the keys the cache lacks) followed by the cached records from
/// `splice_idx` on.
pub open spec fn is_delta_merge(cf: CacheFile, splice_idx: int, w: ScanOutput, h: History) -> bool {
    let ak = author_keys(cf.authors@);
    let pv = path_views(cf.paths@);
    let atbl = author_keys(h.authors@);
    let ptbl = path_views(h.paths@);
    let n = w.records@.len();
    &&& atbl == ak + new_keys(ak, record_author_keys(w.records@, w.authors@))
    &&& ptbl == pv + new_keys(pv, record_path_keys(w.records@, w.paths@))
    &&& h.commits@.len() == n + cf.records@.len() - splice_idx
    &&& forall|i: int|
        0 <= i < n ==> #[trigger] remapped(h.commits@[i], w.records@[i], atbl, ptbl, w.authors@, w.paths@)
    &&& forall|i: int|
        n <= i < h.commits@.len() ==> #[trigger] h.commits@[i] == cf.records@[splice_idx + i - n]
}

proof fn lemma_remapped_push_author(
    r: CommitRecord,
    src: CommitRecord,
    atbl: Seq<(Seq<char>, Seq<char>)>,
    y: (Seq<char>, Seq<char>),
    ptbl: Seq<Seq<char>>,
    wa: Seq<AuthorInfo>,
    wp: Seq<String>,
)
    requires
        remapped(r, src, atbl, ptbl, wa, wp),
        !atbl.contains(y),
    ensures
        remapped(r, src, atbl.push(y), ptbl, wa, wp),
{
    let key = author_key(wa[src.author.0 as int]);
    lemma_last_index_of_found(atbl, key);
    lemma_last_index_of_push(atbl, y, key);
}

proof fn lemma_remapped_push_path(
    r: CommitRecord,
    src: CommitRecord,
    atbl: Seq<(Seq<char>, Seq<char>)>,
    ptbl: Seq<Seq<char>>,
    y: Seq<char>,
    wa: Seq<AuthorInfo>,
    wp: Seq<String>,
)
    requires
        remapped(r, src, atbl, ptbl, wa, wp),
        !ptbl.contains(y),
    ensures
        remapped(r, src, atbl, ptbl.push(y), wa, wp),
{
    assert forall|j: int| 0 <= j < r.files@.len() implies #[trigger] file_remapped(
        r.files@[j],
        src.files@[j],
        ptbl.push(y),
        wp,
    ) by {
        assert(file_remapped(r.files@[j], src.files@[j], ptbl, wp));
        let key = wp[src.files@[j].file.0 as int]@;
        lemma_last_index_of_found(ptbl, key);
        lemma_last_index_of_push(ptbl, y, key);
    }
}

proof fn lemma_file_remapped_push(f: FileStat, src: FileStat, ptbl: Seq<Seq<char>>, y: Seq<char>, wp: Seq<String>)
    requires
        file_remapped(f, src, ptbl, wp),
        !ptbl.contains(y),
    ensures
        file_remapped(f, src, ptbl.push(y), wp),
{
    let key = wp[src.file.0 as int]@;
    lemma_last_index_of_found(ptbl, key);
    lemma_last_index_of_push(ptbl, y, key);
}

/// `a` is an initial segment of `b`.
pub open spec fn is_prefix<K>(a: Seq<K>, b: Seq<K>) -> bool {
    a.len() <= b.len() && a =~= b.take(a.len() as int)
}

proof fn lemma_record_path_keys_step(records: Seq<CommitRecord>, paths: Seq<String>, i: int)
    requires
        0 <= i < records.len(),
    ensures
        record_path_keys(records.take(i + 1), paths) == record_path_keys(records.take(i), paths)
            + file_path_keys(records[i].files@, paths),
{
    assert(records.take(i + 1).drop_last() =~= records.take(i));
}

proof fn lemma_record_path_keys_prefix(records: Seq<CommitRecord>, paths: Seq<String>, i: int)
    requires
        0 <= i <= records.len(),
    ensures
        is_prefix(record_path_keys(records.take(i), paths), record_path_keys(records, paths)),
    decreases records.len() - i,
{
    if i < records.len() {
        lemma_record_path_keys_step(records, paths, i);
        lemma_record_path_keys_prefix(records, paths, i + 1);
        let a = record_path_keys(records.take(i), paths);
        let b = record_path_keys(records.take(i + 1), paths);
        let c = record_path_keys(records, paths);
        assert(a =~= b.take(a.len() as int));
        assert(a =~= c.take(a.len() as int));
    } else {
        assert(records.take(i) =~= records);
    }
}

/// Keys up to stat `j` of record `i` are a prefix of all the walk's path keys.
proof fn lemma_path_keys_upto_prefix(records: Seq<CommitRecord>, paths: Seq<String>, i: int, j: int)
    requires
        0 <= i < records.len(),
        0 <= j <= records[i].files@.len(),
    ensures
        is_prefix(
            record_path_keys(records.take(i), paths) + file_path_keys(records[i].files@, paths).take(j),
            record_path_keys(records, paths),
        ),
{
    lemma_record_path_keys_step(records, paths, i);
    lemma_record_path_keys_prefix(records, paths, i + 1);
    let a = record_path_keys(records.take(i), paths) + file_path_keys(records[i].files@, paths).take(j);
    let b = record_path_keys(records.take(i + 1), paths);
    let c = record_path_keys(records, paths);
    assert(a =~= b.take(a.len() as int));
    assert(a =~= c.take(a.len() as int));
}

proof fn lemma_new_keys_prefix<K>(known: Seq<K>, a: Seq<K>, b: Seq<K>)
    requires
        is_prefix(a, b),
    ensures
        new_keys(known, a).len() <= new_keys(known, b).len(),
{
    lemma_new_keys_prefix_len(known, b, a.len() as int);
    assert(b.take(a.len() as int) == a);
}

/// Position of the last author of `authors` with this name and email.
fn find_last_author(authors: &Vec<AuthorInfo>, name: &String, email: &String) -> (r: Option<usize>)
    ensures
        r is None <==> !author_keys(authors@).contains((name@, email@)),
        r matches Some(k) ==> k == last_index_of(author_keys(authors@), (name@, email@)),
{
    let ghost key = (name@, email@);
    let ghost tbl = author_keys(authors@);
    let mut k = authors.len();
    while k > 0
        invariant
            key == (name@, email@),
            tbl == author_keys(authors@),
            k <= authors@.len(),
            forall|q: int| k <= q < authors@.len() ==> #[trigger] tbl[q] != key,
        decreases k,
    {
        if same_author(&authors[k - 1], name, email) {
            proof {
                lemma_last_index_of_found(tbl, key);
                assert(tbl[k - 1] == key);
            }
            return Some(k - 1);
        }
        k = k - 1;
    }
    proof {
        lemma_last_index_of_found(tbl, key);
    }
    None
}

/// Appends the walked delta (newest commits first) to the cached records
/// from `splice_idx` on, moving the walk's author and path ids into the
/// cache's tables and appending the authors and paths the cache lacks.
pub fn merge_delta(cf: CacheFile, splice_idx: usize, walked: ScanOutput) -> (h: History)
    requires
        splice_idx <= cf.records@.len(),
        ids_in_range(walked),
        cf.authors@.len() + new_keys(
            author_keys(cf.authors@),
            record_author_keys(walked.records@, walked.authors@),
        ).len() <= u32::MAX + 1,
        cf.paths@.len() + new_keys(
            path_views(cf.paths@),
            record_path_keys(walked.records@, walked.paths@),
        ).len() <= u32::MAX + 1,
    ensures
        is_delta_merge(cf, splice_idx as int, walked, h),
{
    let ghost ak0 = author_keys(cf.authors@);
    let ghost pv0 = path_views(cf.paths@);
    let ghost wr = walked.records@;
    let ghost wa = walked.authors@;
    let ghost wp = walked.paths@;
    let ghost rak = record_author_keys(wr, wa);
    let ghost rpk = record_path_keys(wr, wp);
    let ghost cf0 = cf;
    let CacheFile { format_version: _, head_oid: _, commit_count: _, authors, paths, records: cached } = cf;
    let mut authors = authors;
    let mut paths = paths;
    // path -> last position in the table
    let mut path_map: StringHashMap<u32> = StringHashMap::new();
    let mut k: usize = 0;
    while k < paths.len()
        invariant
            k <= paths@.len(),
            paths@ == cf0.paths@,
            paths@.len() <= u32::MAX + 1,
            forall|p: Seq<char>|
                #[trigger] path_map@.contains_key(p) <==> path_views(paths@).take(k as int).contains(p),
            forall|p: Seq<char>|
                #[trigger] path_map@.contains_key(p) ==> path_map@[p] == last_index_of(
                    path_views(paths@).take(k as int),
                    p,
                ),
        decreases paths@.len() - k,
    {
        let ghost tbl = path_views(paths@);
        let p = paths[k].clone();
        path_map.insert(p, k as u32);
        proof {
            assert(tbl.take(k + 1) =~= tbl.take(k as int).push(tbl[k as int]));
            assert forall|q: Seq<char>| #[trigger] path_map@.contains_key(q) <==> tbl.take(k + 1).contains(q) by {
                lemma_last_index_of_found(tbl.take(k + 1), q);
                lemma_last_index_of_found(tbl.take(k as int), q);
                lemma_last_index_of_push(tbl.take(k as int), tbl[k as int], q);
            }
            assert forall|q: Seq<char>| #[trigger] path_map@.contains_key(q) implies path_map@[q]
                == last_index_of(tbl.take(k + 1), q) by {
                lemma_last_index_of_push(tbl.take(k as int), tbl[k as int], q);
            }
        }
        k = k + 1;
    }
    assert(path_views(paths@).take(k as int) =~= path_views(paths@));
    let mut records: Vec<CommitRecord> = Vec::new();
    let mut i: usize = 0;
    proof {
        assert(wr.take(0) =~= Seq::<CommitRecord>::empty());
        assert(rak.take(0) =~= Seq::<(Seq<char>, Seq<char>)>::empty());
        assert(author_keys(authors@) =~= ak0 + new_keys(ak0, rak.take(0)));
        assert(path_views(paths@) =~= pv0 + new_keys(pv0, record_path_keys(wr.take(0), wp)));
    }
    while i < walked.records.len()
        invariant
            wr == walked.records@,
            wa == walked.authors@,
            wp == walked.paths@,
            rak == record_author_keys(wr, wa),
            rpk == record_path_keys(wr, wp),
            ids_in_range(walked),
            ak0.len() + new_keys(ak0, rak).len() <= u32::MAX + 1,
            pv0.len() + new_keys(pv0, rpk).len() <= u32::MAX + 1,
            i <= wr.len(),
            author_keys(authors@) == ak0 + new_keys(ak0, rak.take(i as int)),
            path_views(paths@) == pv0 + new_keys(pv0, record_path_keys(wr.take(i as int), wp)),
            forall|p: Seq<char>|
                #[trigger] path_map@.contains_key(p) <==> path_views(paths@).contains(p),
            forall|p: Seq<char>|
                #[trigger] path_map@.contains_key(p) ==> path_map@[p] == last_index_of(
                    path_views(paths@),
                    p,
                ),
            records@.len() == i,
            forall|q: int|
                0 <= q < i ==> #[trigger] remapped(
                    records@[q],
                    wr[q],
                    author_keys(authors@),
                    path_views(paths@),
                    wa,
                    wp,
                ),
        decreases wr.len() - i,
    {
        let src = &walked.records[i];
        let a = &walked.authors[src.author.0 as usize];
        let ghost key = author_key(*a);
        let ghost atbl0 = author_keys(authors@);
        proof {
            assert(rak.take(i + 1) =~= rak.take(i as int).push(key));
            lemma_new_keys_push(ak0, rak.take(i as int), key);
            lemma_new_keys_prefix_len(ak0, rak, i + 1);
        }
        let author_id = match find_last_author(&authors, &a.name, &a.email) {
            Some(id) => {
                proof {
                    lemma_last_index_of_found(atbl0, key);
                }
                id as u32
            },
            None => {
                let id = authors.len() as u32;
                let ghost old_records = records@;
                authors.push(AuthorInfo { name: a.name.clone(), email: a.email.clone() });
                proof {
                    assert(author_keys(authors@) =~= atbl0.push(key));
                    lemma_last_index_of_push(atbl0, key, key);
                    assert forall|q: int| 0 <= q < i implies #[trigger] remapped(
                        records@[q],
                        wr[q],
                        author_keys(authors@),
                        path_views(paths@),
                        wa,
                        wp,
                    ) by {
                        lemma_remapped_push_author(records@[q], wr[q], atbl0, key, path_views(paths@), wa, wp);
                    }
                }
                id
            },
        };
        assert(author_keys(authors@) == ak0 + new_keys(ak0, rak.take(i + 1)));
        assert(author_id == last_index_of(author_keys(authors@), key));
        let mut files: Vec<FileStat> = Vec::new();
        let mut j: usize = 0;
        let ghost fk = file_path_keys(src.files@, wp);
        while j < src.files.len()
            invariant
                wr == walked.records@,
                wa == walked.authors@,
                wp == walked.paths@,
                rpk == record_path_keys(wr, wp),
                ids_in_range(walked),
                pv0.len() + new_keys(pv0, rpk).len() <= u32::MAX + 1,
                i < wr.len(),
                *src == wr[i as int],
                fk == file_path_keys(src.files@, wp),
                j <= src.files@.len(),
                author_keys(authors@) == ak0 + new_keys(ak0, rak.take(i + 1)),
                author_id == last_index_of(author_keys(authors@), key),
                key == author_key(wa[src.author.0 as int]),
                path_views(paths@) == pv0 + new_keys(
                    pv0,
                    record_path_keys(wr.take(i as int), wp) + fk.take(j as int),
                ),
                forall|p: Seq<char>|
                    #[trigger] path_map@.contains_key(p) <==> path_views(paths@).contains(p),
                forall|p: Seq<char>|
                    #[trigger] path_map@.contains_key(p) ==> path_map@[p] == last_index_of(
                        path_views(paths@),
                        p,
                    ),
                records@.len() == i,
                forall|q: int|
                    0 <= q < i ==> #[trigger] remapped(
                        records@[q],
                        wr[q],
                        author_keys(authors@),
                        path_views(paths@),
                        wa,
                        wp,
                    ),
                files@.len() == j,
                forall|q: int|
                    0 <= q < j ==> #[trigger] file_remapped(files@[q], src.files@[q], path_views(paths@), wp),
            decreases src.files@.len() - j,
        {
            let stat = src.files[j];
            let p = &walked.paths[stat.file.0 as usize];
            let ghost pkey = p@;
            let ghost ptbl0 = path_views(paths@);
            let ghost prefix = record_path_keys(wr.take(i as int), wp) + fk.take(j as int);
            proof {
                assert(pkey == fk[j as int]);
                assert(record_path_keys(wr.take(i as int), wp) + fk.take(j + 1) =~= prefix.push(pkey));
                lemma_new_keys_push(pv0, prefix, pkey);
                lemma_path_keys_upto_prefix(wr, wp, i as int, j + 1);
                lemma_new_keys_prefix(pv0, prefix.push(pkey), rpk);
            }
            let file_id = match path_map.get(p.as_str()) {
                Some(id) => *id,
                None => {
                    let id = paths.len() as u32;
                    let ghost old_records = records@;
                    let ghost old_files = files@;
                    paths.push(p.clone());
                    path_map.insert(p.clone(), id);
                    proof {
                        assert(path_views(paths@) =~= ptbl0.push(pkey));
                        lemma_last_index_of_push(ptbl0, pkey, pkey);
                        assert forall|q: int| 0 <= q < i implies #[trigger] remapped(
                            records@[q],
                            wr[q],
                            author_keys(authors@),
                            path_views(paths@),
                            wa,
                            wp,
                        ) by {
                            lemma_remapped_push_path(records@[q], wr[q], author_keys(authors@), ptbl0, pkey, wa, wp);
                        }
                        assert forall|q: int| 0 <= q < j implies #[trigger] file_remapped(
                            files@[q],
                            src.files@[q],
                            path_views(paths@),
                            wp,
                        ) by {
                            lemma_file_remapped_push(files@[q], src.files@[q], ptbl0, pkey, wp);
                        }
                        assert forall|q: Seq<char>| #[trigger] path_map@.contains_key(q) <==> path_views(paths@).contains(q) by {
                            lemma_last_index_of_found(ptbl0.push(pkey), q);
                            lemma_last_index_of_found(ptbl0, q);
                            lemma_last_index_of_push(ptbl0, pkey, q);
                        }
                        assert forall|q: Seq<char>| #[trigger] path_map@.contains_key(q) implies path_map@[q]
                            == last_index_of(path_views(paths@), q) by {
                            lemma_last_index_of_push(ptbl0, pkey, q);
                        }
                    }
                    id
                },
            };
            files.push(FileStat { file: FileId(file_id), adds: stat.adds, dels: stat.dels, binary: stat.binary });
            proof {
                assert(file_remapped(files@[j as int], src.files@[j as int], path_views(paths@), wp));
                assert forall|q: int| 0 <= q < j + 1 implies #[trigger] file_remapped(
                    files@[q],
                    src.files@[q],
                    path_views(paths@),
                    wp,
                ) by {}
            }
            j = j + 1;
        }
        proof {
            assert(fk.take(j as int) =~= fk);
            lemma_record_path_keys_step(wr, wp, i as int);
        }
        records.push(CommitRecord {
            oid: src.oid,
            time: src.time,
            author: AuthorId(author_id),
            n_parents: src.n_parents,
            files,
        });
        proof {
            assert(remapped(records@[i as int], wr[i as int], author_keys(authors@), path_views(paths@), wa, wp));
            assert forall|q: int| 0 <= q < i + 1 implies #[trigger] remapped(
                records@[q],
                wr[q],
                author_keys(authors@),
                path_views(paths@),
                wa,
                wp,
            ) by {}
        }
        i = i + 1;
    }
    proof {
        assert(wr.take(i as int) =~= wr);
        assert(rak.take(i as int) =~= rak);
    }
    let ghost n = records@.len();
    let mut cached = cached;
    let mut tail = cached.split_off(splice_idx);
    records.append(&mut tail);
    let h = History { commits: records, authors, paths };
    proof {
        assert forall|q: int| 0 <= q < n implies #[trigger] remapped(
            h.commits@[q],
            wr[q],
            author_keys(h.authors@),
            path_views(h.paths@),
            wa,
            wp,
        ) by {}
    }
    h
}


// ------------------------------------------------------------------
// The decisions of a cached scan
// ------------------------------------------------------------------

/// What was done to produce the returned history.
#[derive(Debug, Clone, Copy, PartialEq, Eq, Structural)]
pub enum ScanSource {
    /// HEAD was cached: nothing parsed.
    Cache,
    /// A delta of this many new commits on top of the cached rest.
    Delta(usize),
    /// Full rebuild (first time, format mismatch or no splice point).
    Full,
}

#[derive(Debug)]
pub struct CacheOutcome {
    pub history: History,
    pub source: ScanSource,
}

/// Public view of the format for the contract test of the frozen version.
#[derive(Debug)]
pub struct CacheFileTest {
    pub format_version: u32,
    pub head_oid: String,
    pub commit_count: usize,
    pub authors: Vec<AuthorInfo>,
    pub paths: Vec<String>,
    pub records: Vec<CommitRecord>,
}

/// A cache file that passes the format checks: known version, a head
/// id of 40 bytes and a commit count that matches the records.
pub open spec fn cache_file_ok(cf: CacheFile) -> bool {
    &&& cf.format_version == CACHE_FORMAT_VERSION
    &&& encode_utf8(cf.head_oid@).len() == 40
    &&& cf.commit_count == cf.records@.len()
}

/// A parsed cache file kept only when it passes the format checks.
pub open spec fn validate_cache_spec(cf: CacheFile) -> Option<CacheFile> {
    if cache_file_ok(cf) {
        Some(cf)
    } else {
        None
    }
}

/// Keeps a parsed cache file only when it passes the format checks; any
/// other file is treated as absent (the caller rebuilds).
pub fn validate_cache(cf: CacheFile) -> (r: Option<CacheFile>)
    ensures
        r == validate_cache_spec(cf),
{
    if cf.format_version != CACHE_FORMAT_VERSION {
        return None;
    }
    if cf.head_oid.as_str().as_bytes().len() != 40 || cf.commit_count != cf.records.len() {
        return None;
    }
    Some(cf)
}

/// `cf` records `history` as the state at `head`.
pub open spec fn is_envelope_of(cf: CacheFile, head: Seq<u8>, history: History) -> bool {
    &&& cf.format_version == CACHE_FORMAT_VERSION
    &&& cf.head_oid@ == hex_of(head)
    &&& cf.commit_count == history.commits@.len()
    &&& cf.authors == history.authors
    &&& cf.paths == history.paths
    &&& cf.records == history.commits
}

/// The cache file that records `history` as the state at `head_oid`.
pub fn cache_envelope(head_oid: &Oid, history: History) -> (cf: CacheFile)
    ensures
        is_envelope_of(cf, head_oid@, history),
{
    let History { commits, authors, paths } = history;
    let n = commits.len();
    CacheFile {
        format_version: CACHE_FORMAT_VERSION,
        head_oid: oid_hex(head_oid),
        commit_count: n,
        authors,
        paths,
        records: commits,
    }
}

fn same_oid(a: &Oid, b: &Oid) -> (r: bool)
    ensures
        r == (a@ == b@),
{
    let mut i: usize = 0;
    while i < 20
        invariant
            i <= 20,
            forall|k: int| 0 <= k < i ==> a@[k] == b@[k],
        decreases 20 - i,
    {
        if a[i] != b[i] {
            return false;
        }
        i = i + 1;
    }
    assert(a@ =~= b@);
    true
}

/// The cached state is exactly HEAD: same format version and same head id.
pub fn cache_hit(cf: &CacheFile, head_oid: &Oid) -> (r: bool)
    ensures
        r == (cf.format_version == CACHE_FORMAT_VERSION && parse_oid_hex(encode_utf8(cf.head_oid@))
            == Some(head_oid@)),
{
    if cf.format_version != CACHE_FORMAT_VERSION {
        return false;
    }
    match hex_to_oid(cf.head_oid.as_str()) {
        Some(o) => same_oid(&o, head_oid),
        None => false,
    }
}

/// Object ids of the cached records: where an incremental walk stops.
pub fn cached_oids(cf: &CacheFile) -> (r: Vec<Oid>)
    ensures
        r@.len() == cf.records@.len(),
        forall|k: int| 0 <= k < r@.len() ==> #[trigger] r@[k] == cf.records@[k].oid,
{
    let mut r: Vec<Oid> = Vec::new();
    let mut k: usize = 0;
    while k < cf.records.len()
        invariant
            k <= cf.records@.len(),
            r@.len() == k,
            forall|q: int| 0 <= q < k ==> #[trigger] r@[q] == cf.records@[q].oid,
        decreases cf.records@.len() - k,
    {
        r.push(cf.records[k].oid);
        k = k + 1;
    }
    r
}

/// The walk spliced onto the newest cached commit (any splice further
/// down means rewritten history).
pub open spec fn splices_at_head(cf: CacheFile, w: ScanOutput) -> bool {
    match w.splice {
        Some(s) => cf.records@.len() > 0 && cf.records@[0].oid@ == s@,
        None => false,
    }
}

/// Finishes an incremental scan: when the walk stopped on the newest cached
/// commit, the delta is merged onto the whole cache and sorted newest
/// first, with the number of new commits; otherwise `None` (rebuild).
pub fn resolve_delta(cf: CacheFile, walked: ScanOutput) -> (r: Option<(History, usize)>)
    requires
        ids_in_range(walked),
        cf.authors@.len() + new_keys(
            author_keys(cf.authors@),
            record_author_keys(walked.records@, walked.authors@),
        ).len() <= u32::MAX + 1,
        cf.paths@.len() + new_keys(
            path_views(cf.paths@),
            record_path_keys(walked.records@, walked.paths@),
        ).len() <= u32::MAX + 1,
    ensures
        r is Some <==> splices_at_head(cf, walked),
        r matches Some((h, n)) ==> {
            &&& n == walked.records@.len()
            &&& exists|m: History|
                #[trigger] is_delta_merge(cf, 0, walked, m) && h.authors == m.authors && h.paths
                    == m.paths && newest_first_of(m.commits@, h.commits@)
        },
{
    let hit = match walked.splice {
        Some(sp) => cf.records.len() > 0 && same_oid(&cf.records[0].oid, &sp),
        None => false,
    };
    if !hit {
        return None;
    }
    let n = walked.records.len();
    let mut h = merge_delta(cf, 0, walked);
    let ghost m = h;
    sort_newest_first(&mut h);
    assert(is_delta_merge(cf, 0, walked, m));
    Some((h, n))
}


/// What is written is what is read back: the envelope of a history at some
/// HEAD passes the format checks, its head id can be read, it is a hit for
/// that HEAD and for no other, and it holds the history unchanged.
pub proof fn lemma_cache_round_trip(cf: CacheFile, head: Oid, history: History, other: Oid)
    requires
        is_envelope_of(cf, head@, history),
    ensures
        cache_file_ok(cf),
        (cf.format_version == CACHE_FORMAT_VERSION && parse_oid_hex(encode_utf8(cf.head_oid@)) == Some(other@))
            <==> other@ == head@,
        cf.records == history.commits && cf.authors == history.authors && cf.paths == history.paths,
{
    lemma_oid_hex_round_trip(head);
    assert(encode_utf8(hex_of(head@)).len() == 40);
}

/// A cached scan after a scan that saved its cache: at the same HEAD the
/// cache is used as it is, and it holds the history that was saved; at any
/// other HEAD the new commits are walked onto it. A file that fails the
/// checks counts as absent and gives a full scan that writes a new cache.
pub proof fn lemma_cached_scan_plans(cf: CacheFile, head: Oid, history: History, other: Oid, broken: CacheFile)
    requires
        is_envelope_of(cf, head@, history),
    ensures
        scan_plan(true, Some(cf), head@) == ScanPlan::UseCache,
        cf.records == history.commits && cf.authors == history.authors && cf.paths == history.paths,
        other@ != head@ ==> scan_plan(true, Some(cf), other@) == ScanPlan::WalkDelta,
        !cache_file_ok(broken) ==> scan_plan(true, validate_cache_spec(broken), other@) == (ScanPlan::Full {
            save: true,
        }),
{
    lemma_cache_round_trip(cf, head, history, other);
    lemma_cache_round_trip(cf, head, history, head);
}


proof fn lemma_permutation_onto(p: Seq<int>, n: nat)
    requires
        is_permutation(p, n),
    ensures
        forall|q: int| 0 <= q < n ==> p.contains(q),
{
    assert(p.no_duplicates()) by {
        assert forall|k: int, l: int| 0 <= k < p.len() && 0 <= l < p.len() && k != l implies p[k] != p[l] by {
            if k < l {
                assert(p[k] != p[l]);
            } else {
                assert(p[l] != p[k]);
            }
        }
    }
    p.unique_seq_to_set();
    lemma_int_range(0, n as int);
    assert(p.to_set().subset_of(set_int_range(0, n as int)));
    lemma_subset_equality(p.to_set(), set_int_range(0, n as int));
    assert forall|q: int| 0 <= q < n implies p.contains(q) by {
        assert(set_int_range(0, n as int).contains(q));
        assert(p.to_set().contains(q));
    }
}

/// A delta merge loses and invents no commit: the merged history, newest
/// first, holds each walked commit (ids moved into the merged tables) and
/// each cached commit, and nothing else.
pub proof fn lemma_delta_holds_all(cf: CacheFile, walked: ScanOutput, m: History, out: Seq<CommitRecord>)
    requires
        is_delta_merge(cf, 0, walked, m),
        newest_first_of(m.commits@, out),
    ensures
        out.len() == walked.records@.len() + cf.records@.len(),
        forall|i: int|
            0 <= i < walked.records@.len() ==> exists|k: int|
                0 <= k < out.len() && #[trigger] out[k].oid == (#[trigger] walked.records@[i]).oid && out[k].time
                    == walked.records@[i].time && out[k].n_parents == walked.records@[i].n_parents,
        forall|i: int| 0 <= i < cf.records@.len() ==> exists|k: int| 0 <= k < out.len() && #[trigger] out[k] == #[trigger] cf.records@[i],
        forall|k: int|
            0 <= k < out.len() ==> exists|i: int|
                0 <= i < m.commits@.len() && #[trigger] out[k] == #[trigger] m.commits@[i],
{
    let n = walked.records@.len();
    let mc = m.commits@;
    let p = choose|p: Seq<int>|
        #![trigger is_permutation(p, mc.len())]
        is_permutation(p, mc.len()) && out.len() == mc.len() && (forall|k: int|
            0 <= k < out.len() ==> #[trigger] out[k] == mc[p[k]]) && (forall|k: int, l: int|
            0 <= k < l < out.len() ==> #[trigger] mc[p[k]].time > #[trigger] mc[p[l]].time || (mc[p[k]].time
                == mc[p[l]].time && p[k] < p[l]));
    lemma_permutation_onto(p, mc.len());
    assert forall|i: int| 0 <= i < n implies exists|k: int|
        0 <= k < out.len() && #[trigger] out[k].oid == (#[trigger] walked.records@[i]).oid && out[k].time
            == walked.records@[i].time && out[k].n_parents == walked.records@[i].n_parents by {
        assert(p.contains(i));
        let k = choose|k: int| 0 <= k < p.len() && p[k] == i;
        assert(out[k] == mc[i]);
        let atbl = author_keys(m.authors@);
        let ptbl = path_views(m.paths@);
        assert(remapped(mc[i], walked.records@[i], atbl, ptbl, walked.authors@, walked.paths@));
    }
    assert forall|i: int| 0 <= i < cf.records@.len() implies exists|k: int|
        0 <= k < out.len() && #[trigger] out[k] == #[trigger] cf.records@[i] by {
        assert(mc[n + i] == cf.records@[i]);
        assert(p.contains(n + i));
        let k = choose|k: int| 0 <= k < p.len() && p[k] == n + i;
        assert(out[k] == mc[n + i]);
    }
    assert forall|k: int| 0 <= k < out.len() implies exists|i: int|
        0 <= i < m.commits@.len() && #[trigger] out[k] == #[trigger] m.commits@[i] by {
        assert(out[k] == mc[p[k]]);
    }
}

/// The first move of a cached scan, once HEAD is known and the cache file
/// (if any passed the checks) is read.
#[derive(Debug, Clone, Copy, PartialEq, Eq, Structural)]
pub enum ScanPlan {
    /// Walk the whole history; write the cache afterwards when `save`.
    Full { save: bool },
    /// The cache is HEAD: return its history.
    UseCache,
    /// Walk from HEAD until a cached commit, then `resolve_delta`.
    WalkDelta,
}

/// How to scan: without the cache, a full walk that writes nothing; with no
/// usable cache file, a full walk that writes one; a cache of HEAD itself is
/// used as it is; any other cache is extended by a walk of the new commits
/// (and rebuilt when that walk does not splice at its head, see
/// `resolve_delta`).
pub open spec fn scan_plan(use_cache: bool, cache: Option<CacheFile>, head: Seq<u8>) -> ScanPlan {
    if !use_cache {
        ScanPlan::Full { save: false }
    } else {
        match cache {
            None => ScanPlan::Full { save: true },
            Some(cf) => if cf.format_version == CACHE_FORMAT_VERSION && parse_oid_hex(encode_utf8(cf.head_oid@))
                == Some(head) {
                ScanPlan::UseCache
            } else {
                ScanPlan::WalkDelta
            },
        }
    }
}

/// Decides how to scan; see `scan_plan`.
pub fn plan_scan(use_cache: bool, cache: Option<&CacheFile>, head: &Oid) -> (plan: ScanPlan)
    ensures
        plan == scan_plan(use_cache, (match cache {
            Some(cf) => Some(*cf),
            None => None,
        }), head@),
{
    if !use_cache {
        return ScanPlan::Full { save: false };
    }
    match cache {
        None => ScanPlan::Full { save: true },
        Some(cf) => if cache_hit(cf, head) {
            ScanPlan::UseCache
        } else {
            ScanPlan::WalkDelta
        },
    }
}

} // verus!
