//! Small text helpers: building strings one character at a time,
//! decimal and hexadecimal digits, substring search.

use vstd::prelude::*;
use vstd::utf8::{decode_utf8, encode_utf8, encode_utf8_decode_utf8};

verus! {

/// Appends `c` to `s`.
/// Calls `String::push`, which appends one character; the contract claims
/// exactly that of the string's characters.
#[verifier::external_body]
pub(crate) fn push_char(s: &mut String, c: char)
    ensures
        final(s)@ == old(s)@.push(c),
{
    s.push(c);
}

/// The character of a hexadecimal digit (lower case).
pub open spec fn hex_digit_char(d: u8) -> char {
    if d < 10 {
        (48 + d) as char
    } else {
        (87 + d) as char
    }
}

/// The character of a decimal digit.
pub open spec fn digit_char(d: nat) -> char {
    (48 + d) as char
}

/// Decimal representation of `n`, without leading zeros.
pub open spec fn decimal(n: nat) -> Seq<char>
    decreases n,
{
    if n < 10 {
        seq![digit_char(n)]
    } else {
        decimal(n / 10).push(digit_char(n % 10))
    }
}

pub fn hex_char(d: u8) -> (c: char)
    requires
        d < 16,
    ensures
        c == hex_digit_char(d),
{
    match d {
        0 => '0',
        1 => '1',
        2 => '2',
        3 => '3',
        4 => '4',
        5 => '5',
        6 => '6',
        7 => '7',
        8 => '8',
        9 => '9',
        10 => 'a',
        11 => 'b',
        12 => 'c',
        13 => 'd',
        14 => 'e',
        _ => 'f',
    }
}

pub fn dec_char(d: u32) -> (c: char)
    requires
        d < 10,
    ensures
        c == digit_char(d as nat),
{
    match d {
        0 => '0',
        1 => '1',
        2 => '2',
        3 => '3',
        4 => '4',
        5 => '5',
        6 => '6',
        7 => '7',
        8 => '8',
        _ => '9',
    }
}

/// Appends the decimal digits of `n` to `s`.
pub fn push_decimal(s: &mut String, n: u32)
    ensures
        final(s)@ == old(s)@ + decimal(n as nat),
    decreases n,
{
    if n >= 10 {
        push_decimal(s, n / 10);
    }
    push_char(s, dec_char(n % 10));
    assert(n < 10 ==> decimal(n as nat) == seq![digit_char(n as nat)]);
    assert(s@ =~= old(s)@ + decimal(n as nat));
}


/// `needle` occurs as a contiguous run of `hay`.
pub open spec fn occurs_in(needle: Seq<u8>, hay: Seq<u8>) -> bool {
    exists|i: int| 0 <= i <= hay.len() - needle.len() && #[trigger] hay.subrange(i, i + needle.len()) == needle
}

/// `needle` is a substring of `hay`: its UTF-8 bytes occur in those of `hay`
/// (what `str::contains` answers for a string pattern).
pub open spec fn contains_str(hay: Seq<char>, needle: Seq<char>) -> bool {
    occurs_in(encode_utf8(needle), encode_utf8(hay))
}

/// Whether `needle` is a substring of `hay`.
pub fn str_contains(hay: &str, needle: &str) -> (r: bool)
    ensures
        r == contains_str(hay@, needle@),
{
    let h = hay.as_bytes();
    let n = needle.as_bytes();
    let ghost hs = h@;
    let ghost ns = n@;
    if n.len() > h.len() {
        proof {
            assert(hs == encode_utf8(hay@));
            assert(ns == encode_utf8(needle@));
        }
        return false;
    }
    let hl = h.len();
    let last = hl - n.len();
    proof {
        assert(hs == encode_utf8(hay@));
        assert(ns == encode_utf8(needle@));
    }
    let mut i: usize = 0;
    loop
        invariant
            hs == h@,
            ns == n@,
            hs == encode_utf8(hay@),
            ns == encode_utf8(needle@),
            n@.len() <= h@.len(),
            last == h@.len() - n@.len(),
            h@.len() == hl,
            i <= last,
            forall|k: int| 0 <= k < i ==> #[trigger] hs.subrange(k, k + ns.len()) != ns,
        decreases last - i,
    {
        let mut j: usize = 0;
        let mut same = true;
        while j < n.len() && same
            invariant
                hs == h@,
                ns == n@,
                n@.len() <= h@.len(),
                i <= last,
                last == h@.len() - n@.len(),
                j <= ns.len(),
                same ==> forall|t: int| 0 <= t < j ==> hs[i + t] == ns[t],
                !same ==> j < ns.len() && hs[i + j] != ns[j as int],
                h@.len() == hl,
            decreases ns.len() - j + if same { 1int } else { 0int },
        {
            if h[i + j] != n[j] {
                same = false;
            } else {
                j = j + 1;
            }
        }
        if same {
            proof {
                assert(hs.subrange(i as int, i + ns.len()) =~= ns);
            }
            return true;
        }
        proof {
            assert(hs.subrange(i as int, i + ns.len())[j as int] != ns[j as int]);
        }
        if i == last {
            proof {
                assert forall|k: int| 0 <= k <= hs.len() - ns.len() implies #[trigger] hs.subrange(k, k + ns.len()) != ns by {
                }
            }
            return false;
        }
        i = i + 1;
    }
}


/// `hay` ends with `tail`, byte for byte.
pub open spec fn ends_with_str(hay: Seq<char>, tail: Seq<char>) -> bool {
    encode_utf8(tail).is_suffix_of(encode_utf8(hay))
}

/// Whether `hay` ends with `tail`.
pub fn str_ends_with(hay: &str, tail: &str) -> (r: bool)
    ensures
        r == ends_with_str(hay@, tail@),
{
    let h = hay.as_bytes();
    let t = tail.as_bytes();
    proof {
        assert(h@ == encode_utf8(hay@));
        assert(t@ == encode_utf8(tail@));
    }
    if t.len() > h.len() {
        return false;
    }
    let hl = h.len();
    let off = hl - t.len();
    let mut j: usize = 0;
    while j < t.len()
        invariant
            h@ == encode_utf8(hay@),
            t@ == encode_utf8(tail@),
            t@.len() <= h@.len(),
            off == h@.len() - t@.len(),
            h@.len() == hl,
            j <= t@.len(),
            forall|k: int| 0 <= k < j ==> h@[off + k] == t@[k],
        decreases t@.len() - j,
    {
        if h[off + j] != t[j] {
            proof {
                assert(h@.subrange(off as int, h@.len() as int)[j as int] != t@[j as int]);
            }
            return false;
        }
        j = j + 1;
    }
    proof {
        assert(h@.subrange(off as int, h@.len() as int) =~= t@);
    }
    true
}

/// Whether `a` and `b` are the same string.
pub fn str_eq(a: &str, b: &str) -> (r: bool)
    ensures
        r == (a@ == b@),
{
    let x = a.as_bytes();
    let y = b.as_bytes();
    proof {
        assert(x@ == encode_utf8(a@));
        assert(y@ == encode_utf8(b@));
        encode_utf8_decode_utf8(a@);
        encode_utf8_decode_utf8(b@);
    }
    if x.len() != y.len() {
        return false;
    }
    let mut i: usize = 0;
    while i < x.len()
        invariant
            x@ == encode_utf8(a@),
            y@ == encode_utf8(b@),
            x@.len() == y@.len(),
            i <= x@.len(),
            forall|t: int| 0 <= t < i ==> x@[t] == y@[t],
        decreases x@.len() - i,
    {
        if x[i] != y[i] {
            return false;
        }
        i = i + 1;
    }
    proof {
        assert(x@ =~= y@);
    }
    true
}

} // verus!
