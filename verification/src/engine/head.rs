//! What `.git/HEAD` names: the branch and the commit it points to, read
//! from the text of HEAD, of the branch's loose ref and of `packed-refs`.
//! Reading the files is the caller's business.

use vstd::prelude::*;
use vstd::utf8::{decode_utf8, encode_utf8, encode_utf8_decode_utf8, is_char_boundary};
use vstd::std_specs::iter::IteratorSpec;
use vstd::string::StringSliceAdditionalSpecFns;
use crate::text::push_char;

verus! {

broadcast use vstd::string::group_string_axioms;

/// The characters of `s`.
pub fn chars_of(s: &str) -> (v: Vec<char>)
    ensures
        v@ == s@,
{
    let mut v: Vec<char> = Vec::new();
    for c in iter: s.chars()
        invariant
            v@.len() == iter.index(),
            forall|k: int| 0 <= k < v@.len() ==> v@[k] == iter.seq()[k],
            iter.seq() == s@,
    {
        v.push(c);
    }
    assert(v@ =~= s@);
    v
}

/// Unicode White_Space, what `char::is_whitespace` answers.
pub open spec fn is_space(c: char) -> bool {
    let v = c as u32;
    ||| 9 <= v <= 13
    ||| v == 32
    ||| v == 0x85
    ||| v == 0xA0
    ||| v == 0x1680
    ||| 0x2000 <= v <= 0x200A
    ||| v == 0x2028
    ||| v == 0x2029
    ||| v == 0x202F
    ||| v == 0x205F
    ||| v == 0x3000
}

fn char_is_space(c: char) -> (r: bool)
    ensures
        r == is_space(c),
{
    let v = c as u32;
    (9 <= v && v <= 13) || v == 32 || v == 0x85 || v == 0xA0 || v == 0x1680 || (0x2000 <= v && v <= 0x200A) || v
        == 0x2028 || v == 0x2029 || v == 0x202F || v == 0x205F || v == 0x3000
}

/// `s` without its leading white space.
pub open spec fn trim_start_spaces(s: Seq<char>) -> Seq<char>
    decreases s.len(),
{
    if s.len() > 0 && is_space(s[0]) {
        trim_start_spaces(s.drop_first())
    } else {
        s
    }
}

/// `s` without its trailing white space.
pub open spec fn trim_end_spaces(s: Seq<char>) -> Seq<char>
    decreases s.len(),
{
    if s.len() > 0 && is_space(s.last()) {
        trim_end_spaces(s.drop_last())
    } else {
        s
    }
}

/// `s` without leading and trailing white space (`str::trim`).
pub open spec fn trim_spaces(s: Seq<char>) -> Seq<char> {
    trim_end_spaces(trim_start_spaces(s))
}

proof fn lemma_trim_start(s: Seq<char>, a: int)
    requires
        0 <= a <= s.len(),
        forall|i: int| 0 <= i < a ==> is_space(#[trigger] s[i]),
        a == s.len() || !is_space(s[a]),
    ensures
        trim_start_spaces(s) == s.skip(a),
    decreases a,
{
    if a == 0 {
        assert(s.skip(0) =~= s);
    } else {
        let t = s.drop_first();
        assert forall|i: int| 0 <= i < a - 1 implies is_space(#[trigger] t[i]) by {
            assert(t[i] == s[i + 1]);
        }
        if a - 1 < t.len() {
            assert(t[a - 1] == s[a]);
        }
        lemma_trim_start(t, a - 1);
        assert(t.skip(a - 1) =~= s.skip(a));
    }
}

proof fn lemma_trim_end(s: Seq<char>, b: int)
    requires
        0 <= b <= s.len(),
        forall|i: int| b <= i < s.len() ==> is_space(#[trigger] s[i]),
        b == 0 || !is_space(s[b - 1]),
    ensures
        trim_end_spaces(s) == s.take(b),
    decreases s.len() - b,
{
    if b == s.len() {
        assert(s.take(b) =~= s);
    } else {
        let t = s.drop_last();
        assert forall|i: int| b <= i < t.len() implies is_space(#[trigger] t[i]) by {
            assert(t[i] == s[i]);
        }
        if b > 0 {
            assert(t[b - 1] == s[b - 1]);
        }
        assert(is_space(s[s.len() - 1]));
        lemma_trim_end(t, b);
        assert(t.take(b) =~= s.take(b));
    }
}

/// `s` without leading and trailing white space.
pub fn trim_chars(s: &Vec<char>) -> (t: Vec<char>)
    ensures
        t@ == trim_spaces(s@),
{
    let n = s.len();
    let mut a: usize = 0;
    while a < n && char_is_space(s[a])
        invariant
            n == s@.len(),
            a <= n,
            forall|i: int| 0 <= i < a ==> is_space(#[trigger] s@[i]),
        decreases n - a,
    {
        a = a + 1;
    }
    proof {
        lemma_trim_start(s@, a as int);
    }
    let mut b: usize = n;
    while b > a && char_is_space(s[b - 1])
        invariant
            n == s@.len(),
            a <= b <= n,
            forall|i: int| b <= i < n ==> is_space(#[trigger] s@[i]),
        decreases b - a,
    {
        b = b - 1;
    }
    let mut t: Vec<char> = Vec::new();
    let mut k: usize = a;
    while k < b
        invariant
            a <= k <= b <= n,
            n == s@.len(),
            t@ == s@.subrange(a as int, k as int),
        decreases b - k,
    {
        t.push(s[k]);
        k = k + 1;
    }
    proof {
        let u = s@.skip(a as int);
        assert forall|i: int| b - a <= i < u.len() implies is_space(#[trigger] u[i]) by {
            assert(u[i] == s@[a + i]);
        }
        if b > a {
            assert(u[b - a - 1] == s@[b - 1]);
        }
        lemma_trim_end(u, (b - a) as int);
        assert(u.take((b - a) as int) =~= s@.subrange(a as int, b as int));
    }
    t
}

/// A string with the characters of `v`.
pub fn string_of(v: &Vec<char>) -> (s: String)
    ensures
        s@ == v@,
{
    let mut s = String::new();
    let mut k: usize = 0;
    while k < v.len()
        invariant
            k <= v@.len(),
            s@ == v@.take(k as int),
        decreases v@.len() - k,
    {
        push_char(&mut s, v[k]);
        assert(v@.take(k + 1) =~= v@.take(k as int).push(v@[k as int]));
        k = k + 1;
    }
    assert(v@.take(k as int) =~= v@);
    s
}

fn starts_with(s: &Vec<char>, p: &Vec<char>) -> (r: bool)
    ensures
        r == p@.is_prefix_of(s@),
{
    if p.len() > s.len() {
        return false;
    }
    let mut k: usize = 0;
    while k < p.len()
        invariant
            p@.len() <= s@.len(),
            k <= p@.len(),
            forall|i: int| 0 <= i < k ==> p@[i] == s@[i],
        decreases p@.len() - k,
    {
        if p[k] != s[k] {
            assert(p@[k as int] != s@.subrange(0, p@.len() as int)[k as int]);
            return false;
        }
        k = k + 1;
    }
    assert(p@ =~= s@.subrange(0, p@.len() as int));
    true
}

fn skip_chars(s: &Vec<char>, from: usize) -> (t: Vec<char>)
    requires
        from <= s@.len(),
    ensures
        t@ == s@.skip(from as int),
{
    let mut t: Vec<char> = Vec::new();
    let mut k: usize = from;
    while k < s.len()
        invariant
            from <= k <= s@.len(),
            t@ == s@.subrange(from as int, k as int),
        decreases s@.len() - k,
    {
        t.push(s[k]);
        k = k + 1;
    }
    assert(t@ =~= s@.skip(from as int));
    t
}

/// `s` without the prefix `p`, if it starts with it (`str::strip_prefix`).
pub open spec fn strip_prefix_spec(s: Seq<char>, p: Seq<char>) -> Option<Seq<char>> {
    if p.is_prefix_of(s) {
        Some(s.skip(p.len() as int))
    } else {
        None
    }
}

/// `s` without every repetition of the non-empty `p` at its start
/// (`str::trim_start_matches`).
pub open spec fn trim_start_matches_spec(s: Seq<char>, p: Seq<char>) -> Seq<char>
    decreases s.len(),
{
    if p.len() > 0 && p.is_prefix_of(s) {
        trim_start_matches_spec(s.skip(p.len() as int), p)
    } else {
        s
    }
}

fn trim_start_matches(s: &Vec<char>, p: &Vec<char>) -> (t: Vec<char>)
    requires
        p@.len() > 0,
    ensures
        t@ == trim_start_matches_spec(s@, p@),
{
    let mut cur: Vec<char> = skip_chars(s, 0);
    assert(s@.skip(0) =~= s@);
    while starts_with(&cur, p)
        invariant
            p@.len() > 0,
            trim_start_matches_spec(cur@, p@) == trim_start_matches_spec(s@, p@),
        decreases cur@.len(),
    {
        cur = skip_chars(&cur, p.len());
    }
    cur
}

/// The first `n` bytes of the UTF-8 text `s` (all of it when shorter),
/// read back as text; `None` when they end inside a character (where
/// slicing a `str` panics).
pub open spec fn byte_prefix_spec(s: Seq<char>, n: nat) -> Option<Seq<char>> {
    let b = encode_utf8(s);
    let m = if b.len() < n {
        b.len() as int
    } else {
        n as int
    };
    if is_char_boundary(b, m) {
        Some(decode_utf8(b.take(m)))
    } else {
        None
    }
}

fn byte_prefix(s: &Vec<char>, n: usize) -> (r: Option<Vec<char>>)
    ensures
        match r {
            Some(t) => byte_prefix_spec(s@, n as nat) == Some(t@),
            None => byte_prefix_spec(s@, n as nat) is None,
        },
{
    let text = string_of(s);
    let st = text.as_str();
    let len = st.as_bytes().len();
    assert(st@ == s@);
    assert(len == encode_utf8(s@).len());
    let m = if len < n {
        len
    } else {
        n
    };
    if st.is_char_boundary(m) {
        let (head, _rest) = st.split_at(m);
        let t = chars_of(head);
        proof {
            assert(st@ == s@);
            encode_utf8_decode_utf8(head@);
            assert(head.spec_bytes() =~= encode_utf8(s@).take(m as int));
            assert(encode_utf8(head@) == encode_utf8(s@).take(m as int));
            assert(t@ == decode_utf8(encode_utf8(s@).take(m as int)));
        }
        Some(t)
    } else {
        None
    }
}

/// Position of the first `c` in `s`, or -1.
pub open spec fn first_of(s: Seq<char>, c: char) -> int
    decreases s.len(),
{
    if s.len() == 0 {
        -1
    } else if s[0] == c {
        0
    } else {
        let r = first_of(s.drop_first(), c);
        if r < 0 {
            -1
        } else {
            r + 1
        }
    }
}

/// One line without its `\r\n` ending.
pub open spec fn without_cr(line: Seq<char>) -> Seq<char> {
    if line.len() > 0 && line.last() == '\r' {
        line.drop_last()
    } else {
        line
    }
}

/// The lines of `s` as `str::lines` splits them: at `\n` or `\r\n`, the
/// last line ending optional.
pub open spec fn lines_of(s: Seq<char>) -> Seq<Seq<char>>
    decreases s.len(),
{
    if s.len() == 0 {
        Seq::empty()
    } else {
        let k = first_of(s, '\n');
        proof {
            lemma_first_of_range(s, '\n');
        }
        if k < 0 {
            seq![s]
        } else {
            seq![without_cr(s.take(k))] + lines_of(s.skip(k + 1))
        }
    }
}

/// A found position lies inside the text.
pub proof fn lemma_first_of_range(s: Seq<char>, c: char)
    ensures
        -1 <= first_of(s, c) < s.len(),
    decreases s.len(),
{
    if s.len() > 0 {
        lemma_first_of_range(s.drop_first(), c);
    }
}

proof fn lemma_first_of(s: Seq<char>, c: char, k: int)
    requires
        0 <= k <= s.len(),
        forall|i: int| 0 <= i < k ==> #[trigger] s[i] != c,
    ensures
        k < s.len() && s[k] == c ==> first_of(s, c) == k,
        k == s.len() ==> first_of(s, c) == -1,
    decreases k,
{
    if k > 0 {
        let t = s.drop_first();
        assert forall|i: int| 0 <= i < k - 1 implies #[trigger] t[i] != c by {
            assert(t[i] == s[i + 1]);
        }
        if k < s.len() {
            assert(t[k - 1] == s[k]);
        }
        lemma_first_of(t, c, k - 1);
    }
}

/// The lines of `s`.
fn lines_of_chars(s: &Vec<char>) -> (ls: Vec<Vec<char>>)
    ensures
        ls@.len() == lines_of(s@).len(),
        forall|i: int| 0 <= i < ls@.len() ==> (#[trigger] ls@[i])@ == lines_of(s@)[i],
{
    let mut ls: Vec<Vec<char>> = Vec::new();
    let ghost mut done: Seq<Seq<char>> = Seq::empty();
    let mut line: Vec<char> = Vec::new();
    let mut start: usize = 0;
    let mut k: usize = 0;
    assert(s@.skip(0) =~= s@);
    while k < s.len()
        invariant
            start <= k <= s@.len(),
            line@ == s@.subrange(start as int, k as int),
            forall|i: int| start <= i < k ==> #[trigger] s@[i] != '\n',
            ls@.len() == done.len(),
            forall|i: int| 0 <= i < ls@.len() ==> (#[trigger] ls@[i])@ == done[i],
            lines_of(s@) == done + lines_of(s@.skip(start as int)),
        decreases s@.len() - k,
    {
        let c = s[k];
        if c == '\n' {
            let mut l = line;
            proof {
                let rest = s@.skip(start as int);
                assert forall|i: int| 0 <= i < k - start implies #[trigger] rest[i] != '\n' by {
                    assert(rest[i] == s@[start + i]);
                }
                assert(rest[k - start] == '\n');
                lemma_first_of(rest, '\n', k - start);
                assert(rest.take(k - start) =~= s@.subrange(start as int, k as int));
                assert(rest.skip(k - start + 1) =~= s@.skip(k + 1));
            }
            if l.len() > 0 && l[l.len() - 1] == '\r' {
                l.pop();
            }
            proof {
                assert(l@ == without_cr(s@.subrange(start as int, k as int)));
                done = done.push(l@);
            }
            ls.push(l);
            line = Vec::new();
            start = k + 1;
            proof {
                assert(ls@[ls@.len() - 1]@ == done[done.len() - 1]);
            }
        } else {
            line.push(c);
        }
        k = k + 1;
    }
    proof {
        let rest = s@.skip(start as int);
        assert forall|i: int| 0 <= i < rest.len() implies #[trigger] rest[i] != '\n' by {
            assert(rest[i] == s@[start + i]);
        }
        lemma_first_of(rest, '\n', rest.len() as int);
        assert(rest =~= s@.subrange(start as int, k as int));
    }
    if start < s.len() {
        proof {
            done = done.push(line@);
        }
        ls.push(line);
    } else {
        proof {
            assert(s@.skip(start as int) =~= Seq::<char>::empty());
        }
    }
    proof {
        assert(lines_of(s@) =~= done);
    }
    ls
}

fn take_chars(s: &Vec<char>, n: usize) -> (t: Vec<char>)
    requires
        n <= s@.len(),
    ensures
        t@ == s@.take(n as int),
{
    let mut t: Vec<char> = Vec::new();
    let mut k: usize = 0;
    while k < n
        invariant
            n <= s@.len(),
            k <= n,
            t@ == s@.take(k as int),
        decreases n - k,
    {
        t.push(s[k]);
        assert(s@.take(k + 1) =~= s@.take(k as int).push(s@[k as int]));
        k = k + 1;
    }
    t
}

fn eq_chars(a: &Vec<char>, b: &Vec<char>) -> (r: bool)
    ensures
        r == (a@ == b@),
{
    if a.len() != b.len() {
        return false;
    }
    let mut k: usize = 0;
    while k < a.len()
        invariant
            a@.len() == b@.len(),
            k <= a@.len(),
            forall|i: int| 0 <= i < k ==> a@[i] == b@[i],
        decreases a@.len() - k,
    {
        if a[k] != b[k] {
            return false;
        }
        k = k + 1;
    }
    assert(a@ =~= b@);
    true
}

fn find_char(s: &Vec<char>, c: char) -> (r: Option<usize>)
    ensures
        match r {
            Some(k) => first_of(s@, c) == k && k < s@.len() && s@[k as int] == c,
            None => first_of(s@, c) == -1,
        },
{
    let mut k: usize = 0;
    while k < s.len()
        invariant
            k <= s@.len(),
            forall|i: int| 0 <= i < k ==> #[trigger] s@[i] != c,
        decreases s@.len() - k,
    {
        if s[k] == c {
            proof {
                lemma_first_of(s@, c, k as int);
            }
            return Some(k);
        }
        k = k + 1;
    }
    proof {
        lemma_first_of(s@, c, k as int);
    }
    None
}

/// The object id of a `packed-refs` line `<oid> <name>` for ref `name`.
pub open spec fn packed_line_oid(line: Seq<char>, name: Seq<char>) -> Option<Seq<char>> {
    let k = first_of(line, ' ');
    if k >= 0 && trim_spaces(line.skip(k + 1)) == name {
        Some(line.take(k))
    } else {
        None
    }
}

/// The object id of the first line of `ls` that names `name`.
pub open spec fn first_packed(ls: Seq<Seq<char>>, name: Seq<char>) -> Option<Seq<char>>
    decreases ls.len(),
{
    if ls.len() == 0 {
        None
    } else {
        match packed_line_oid(ls[0], name) {
            Some(o) => Some(o),
            None => first_packed(ls.drop_first(), name),
        }
    }
}

/// The object id `packed-refs` records for ref `name`.
pub open spec fn packed_ref_spec(packed: Seq<char>, name: Seq<char>) -> Option<Seq<char>> {
    first_packed(lines_of(packed), name)
}

fn packed_ref(packed: &Vec<char>, name: &Vec<char>) -> (r: Option<Vec<char>>)
    ensures
        match r {
            Some(o) => packed_ref_spec(packed@, name@) == Some(o@),
            None => packed_ref_spec(packed@, name@) is None,
        },
{
    let ls = lines_of_chars(packed);
    let ghost all = lines_of(packed@);
    assert(all.skip(0) =~= all);
    let mut i: usize = 0;
    while i < ls.len()
        invariant
            ls@.len() == all.len(),
            forall|q: int| 0 <= q < ls@.len() ==> (#[trigger] ls@[q])@ == all[q],
            i <= all.len(),
            all == lines_of(packed@),
            first_packed(all, name@) == first_packed(all.skip(i as int), name@),
        decreases all.len() - i,
    {
        let line = &ls[i];
        let ghost rest = all.skip(i as int);
        assert(rest[0] == line@);
        assert(rest.drop_first() =~= all.skip(i + 1));
        match find_char(line, ' ') {
            Some(k) => {
                let after = skip_chars(line, k + 1);
                let t = trim_chars(&after);
                if eq_chars(&t, name) {
                    let o = take_chars(line, k);
                    return Some(o);
                }
            },
            None => {},
        }
        i = i + 1;
    }
    None
}

/// The ref HEAD names (`ref: <name>`), or `None` when HEAD is detached.
pub open spec fn head_ref_spec(head: Seq<char>) -> Option<Seq<char>> {
    match strip_prefix_spec(trim_spaces(head), "ref: "@) {
        Some(r) => Some(trim_spaces(r)),
        None => None,
    }
}

/// The ref HEAD names, or `None` when HEAD is detached.
pub fn head_ref(head: &str) -> (r: Option<String>)
    ensures
        match r {
            Some(n) => head_ref_spec(head@) == Some(n@),
            None => head_ref_spec(head@) is None,
        },
{
    let h = trim_chars(&chars_of(head));
    let prefix = chars_of("ref: ");
    if starts_with(&h, &prefix) {
        let rest = skip_chars(&h, prefix.len());
        Some(string_of(&trim_chars(&rest)))
    } else {
        None
    }
}

/// The object id a ref points to: its loose file's text when that is not
/// blank, else the `packed-refs` entry (`None` for a file that is absent).
pub open spec fn resolve_ref_spec(loose: Option<Seq<char>>, packed: Option<Seq<char>>, name: Seq<char>) -> Option<
    Seq<char>,
> {
    match loose {
        Some(c) if trim_spaces(c).len() > 0 => Some(trim_spaces(c)),
        _ => match packed {
            Some(p) => packed_ref_spec(p, name),
            None => None,
        },
    }
}

/// The object id ref `name` points to, from the texts of its loose file
/// and of `packed-refs` (each `None` when the file cannot be read).
pub fn resolve_ref(loose: Option<&str>, packed: Option<&str>, name: &str) -> (r: Option<String>)
    ensures
        match r {
            Some(o) => resolve_ref_spec(
                match loose {
                    Some(c) => Some(c@),
                    None => None,
                },
                match packed {
                    Some(p) => Some(p@),
                    None => None,
                },
                name@,
            ) == Some(o@),
            None => resolve_ref_spec(
                match loose {
                    Some(c) => Some(c@),
                    None => None,
                },
                match packed {
                    Some(p) => Some(p@),
                    None => None,
                },
                name@,
            ) is None,
        },
{
    if let Some(c) = loose {
        let t = trim_chars(&chars_of(c));
        if t.len() > 0 {
            return Some(string_of(&t));
        }
    }
    match packed {
        Some(p) => match packed_ref(&chars_of(p), &chars_of(name)) {
            Some(o) => Some(string_of(&o)),
            None => None,
        },
        None => None,
    }
}

/// The HEAD label: `<branch> @ <short id>`, `<branch> @ (sin commits)`
/// when the branch has no commit yet, or the first ten bytes of a detached
/// HEAD; `None` where a cut falls inside a character.
pub open spec fn head_label_spec(head: Seq<char>, oid: Seq<char>) -> Option<Seq<char>> {
    match head_ref_spec(head) {
        Some(r) => {
            let label = trim_start_matches_spec(r, "refs/heads/"@);
            if oid.len() == 0 {
                Some(label + " @ (sin commits)"@)
            } else {
                match byte_prefix_spec(oid, 7) {
                    Some(p) => Some(label + " @ "@ + p),
                    None => None,
                }
            }
        },
        None => byte_prefix_spec(trim_spaces(head), 10),
    }
}

/// The HEAD label for HEAD's text `head` and the object id `oid` its ref
/// resolved to (empty when none).
pub fn head_label(head: &str, oid: &str) -> (r: Option<String>)
    ensures
        match r {
            Some(l) => head_label_spec(head@, oid@) == Some(l@),
            None => head_label_spec(head@, oid@) is None,
        },
{
    match head_ref(head) {
        Some(name) => {
            let n = chars_of(name.as_str());
            let branches = chars_of("refs/heads/");
            proof {
                reveal_strlit("refs/heads/");
            }
            let label = trim_start_matches(&n, &branches);
            let o = chars_of(oid);
            let mut out = string_of(&label);
            if o.len() == 0 {
                out.append(" @ (sin commits)");
                Some(out)
            } else {
                match byte_prefix(&o, 7) {
                    Some(p) => {
                        out.append(" @ ");
                        let ps = string_of(&p);
                        out.append(ps.as_str());
                        Some(out)
                    },
                    None => None,
                }
            }
        },
        None => {
            let t = trim_chars(&chars_of(head));
            match byte_prefix(&t, 10) {
                Some(p) => Some(string_of(&p)),
                None => None,
            }
        },
    }
}


/// A loose ref that holds text decides: its trimmed text is the answer,
/// whatever `packed-refs` says. A blank or missing loose ref leaves the
/// answer to `packed-refs`.
pub proof fn lemma_loose_ref_wins(c: Seq<char>, packed: Option<Seq<char>>, name: Seq<char>)
    ensures
        trim_spaces(c).len() > 0 ==> resolve_ref_spec(Some(c), packed, name) == Some(trim_spaces(c)),
        trim_spaces(c).len() > 0 ==> resolve_ref_spec(Some(c), packed, name) == resolve_ref_spec(Some(c), None, name),
        trim_spaces(c).len() == 0 ==> resolve_ref_spec(Some(c), packed, name) == resolve_ref_spec(None, packed, name),
{
}

} // verus!
