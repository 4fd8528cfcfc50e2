//! Line counts of blobs, and the binary-content heuristic.

use vstd::prelude::*;

verus! {

/// Number of `\n` bytes in `data`.
pub open spec fn newline_count(data: Seq<u8>) -> nat
    decreases data.len(),
{
    if data.len() == 0 {
        0
    } else {
        newline_count(data.drop_last()) + (if data.last() == 10 { 1nat } else { 0nat })
    }
}

/// Lines of `data`: one per newline, plus an unterminated last line.
pub open spec fn line_count(data: Seq<u8>) -> nat {
    if data.len() == 0 {
        0
    } else if data.last() == 10 {
        newline_count(data)
    } else {
        newline_count(data) + 1
    }
}

/// Git's binary heuristic: a NUL byte among the first 8000 bytes.
pub open spec fn is_binary(data: Seq<u8>) -> bool {
    exists|i: int| 0 <= i < data.len() && i < 8000 && data[i] == 0
}

proof fn lemma_newline_count_bound(data: Seq<u8>)
    ensures
        newline_count(data) <= data.len(),
    decreases data.len(),
{
    if data.len() > 0 {
        lemma_newline_count_bound(data.drop_last());
    }
}

/// Lines of `data` (a last line without a terminator counts).
pub fn count_lines(data: &[u8]) -> (n: u32)
    requires
        line_count(data@) <= u32::MAX,
    ensures
        n == line_count(data@),
{
    if data.len() == 0 {
        return 0;
    }
    let mut newlines: u32 = 0;
    let mut i: usize = 0;
    while i < data.len()
        invariant
            i <= data@.len(),
            newlines == newline_count(data@.take(i as int)),
            newline_count(data@) <= u32::MAX,
        decreases data@.len() - i,
    {
        proof {
            assert(data@.take(i + 1).drop_last() =~= data@.take(i as int));
            lemma_newline_prefix(data@, i as int + 1);
        }
        if data[i] == 10 {
            newlines = newlines + 1;
        }
        i = i + 1;
    }
    assert(data@.take(i as int) =~= data@);
    if data[data.len() - 1] == 10 {
        newlines
    } else {
        newlines + 1
    }
}

proof fn lemma_newline_prefix(data: Seq<u8>, n: int)
    requires
        0 <= n <= data.len(),
    ensures
        newline_count(data.take(n)) <= newline_count(data),
    decreases data.len() - n,
{
    if n < data.len() {
        assert(data.take(n + 1).drop_last() =~= data.take(n));
        lemma_newline_prefix(data, n + 1);
    } else {
        assert(data.take(n) =~= data);
    }
}

/// Whether `data` looks binary (a NUL among its first 8000 bytes).
pub fn looks_binary(data: &[u8]) -> (r: bool)
    ensures
        r == is_binary(data@),
{
    let mut i: usize = 0;
    while i < data.len() && i < 8000
        invariant
            i <= data@.len(),
            i <= 8000,
            forall|k: int| 0 <= k < i ==> data@[k] != 0,
        decreases data@.len() - i,
    {
        if data[i] == 0 {
            return true;
        }
        i = i + 1;
    }
    false
}

/// Lines of a blob as stored at HEAD: binary content counts as no lines.
pub fn blob_loc(data: &[u8]) -> (n: u32)
    requires
        !is_binary(data@) ==> line_count(data@) <= u32::MAX,
    ensures
        n == if is_binary(data@) { 0 } else { line_count(data@) },
{
    if looks_binary(data) {
        0
    } else {
        count_lines(data)
    }
}

} // verus!
