//! Data model of the engine: commits reduced to what the metrics read.
//! Authors and paths are interned to `u32` ids over parallel tables.

use vstd::prelude::*;
use vstd::hash_map::StringHashMap;

verus! {

/// Raw SHA-1 object id (20 bytes). On disk it is written as hex.
pub type Oid = [u8; 20];

/// Version of the cache encoding: raising it forces a rebuild.
pub const CACHE_FORMAT_VERSION: u32 = 1;

#[derive(Debug, Clone, PartialEq, Eq, Hash)]
pub struct AuthorInfo {
    pub name: String,
    pub email: String,
}

#[derive(Debug, Clone, Copy, PartialEq, Eq, Hash, Structural)]
pub struct AuthorId(pub u32);

#[derive(Debug, Clone, Copy, PartialEq, Eq, Hash, Structural)]
pub struct FileId(pub u32);

/// Change that one commit introduced on one path.
#[derive(Debug, Clone, Copy, PartialEq, Eq, Structural)]
pub struct FileStat {
    pub file: FileId,
    pub adds: u32,
    pub dels: u32,
    /// Binary file: no line counts, only a touch.
    pub binary: bool,
}

/// A commit reduced to what the metrics consume.
#[derive(Debug, Clone, PartialEq, Eq)]
pub struct CommitRecord {
    pub oid: Oid,
    /// Author epoch seconds.
    pub time: i64,
    pub author: AuthorId,
    /// 0 = root, 1 = normal, 2 or more = merge.
    pub n_parents: u8,
    /// Empty for merges: merge diffs are skipped.
    pub files: Vec<FileStat>,
}

/// Parsed history: the single input of every metric.
#[derive(Debug, Clone, Default, PartialEq, Eq)]
pub struct History {
    pub commits: Vec<CommitRecord>,
    pub authors: Vec<AuthorInfo>,
    /// Table of interned paths.
    pub paths: Vec<String>,
}

/// The (name, email) pair that identifies an author.
pub open spec fn author_key(a: AuthorInfo) -> (Seq<char>, Seq<char>) {
    (a.name@, a.email@)
}

/// Number of merge commits (two or more parents) in `commits`.
pub open spec fn merge_count(commits: Seq<CommitRecord>) -> nat
    decreases commits.len(),
{
    if commits.len() == 0 {
        0
    } else {
        merge_count(commits.drop_last()) + (if commits.last().n_parents > 1 { 1nat } else { 0nat })
    }
}

/// Number of commits of `commits` written by author `a`.
pub open spec fn author_count(commits: Seq<CommitRecord>, a: u32) -> nat
    decreases commits.len(),
{
    if commits.len() == 0 {
        0
    } else {
        author_count(commits.drop_last(), a) + (if commits.last().author.0 == a { 1nat } else { 0nat })
    }
}

/// `a` has the most commits; ties go to the smallest id.
pub open spec fn is_top_author(commits: Seq<CommitRecord>, a: u32) -> bool {
    &&& author_count(commits, a) > 0
    &&& forall|b: u32|
        #![trigger author_count(commits, b)]
        author_count(commits, b) < author_count(commits, a) || (author_count(commits, b)
            == author_count(commits, a) && a <= b)
}

/// The author with the most commits (meaningful when there is a commit).
pub open spec fn top_author_id(commits: Seq<CommitRecord>) -> u32 {
    choose|a: u32| is_top_author(commits, a)
}

proof fn lemma_author_count_bound(commits: Seq<CommitRecord>, a: u32)
    ensures
        author_count(commits, a) <= commits.len(),
    decreases commits.len(),
{
    if commits.len() > 0 {
        lemma_author_count_bound(commits.drop_last(), a);
    }
}

proof fn lemma_author_count_positive(commits: Seq<CommitRecord>, i: int)
    requires
        0 <= i < commits.len(),
    ensures
        author_count(commits, commits[i].author.0) > 0,
    decreases commits.len(),
{
    if i < commits.len() - 1 {
        lemma_author_count_positive(commits.drop_last(), i);
    }
}

proof fn lemma_author_count_absent(commits: Seq<CommitRecord>, a: u32)
    requires
        forall|i: int| 0 <= i < commits.len() ==> commits[i].author.0 != a,
    ensures
        author_count(commits, a) == 0,
    decreases commits.len(),
{
    if commits.len() > 0 {
        lemma_author_count_absent(commits.drop_last(), a);
    }
}

/// Two top authors are the same author.
proof fn lemma_top_author_unique(commits: Seq<CommitRecord>, a: u32, b: u32)
    requires
        is_top_author(commits, a),
        is_top_author(commits, b),
    ensures
        a == b,
{
    assert(author_count(commits, b) == author_count(commits, a));
}

impl History {
    /// Number of merge commits.
    pub fn n_merges(&self) -> (n: usize)
        ensures
            n == merge_count(self.commits@),
    {
        let mut n: usize = 0;
        let mut i: usize = 0;
        while i < self.commits.len()
            invariant
                i <= self.commits.len(),
                n == merge_count(self.commits@.take(i as int)),
                n <= i,
            decreases self.commits.len() - i,
        {
            assert(self.commits@.take(i + 1).drop_last() =~= self.commits@.take(i as int));
            if self.commits[i].n_parents > 1 {
                n = n + 1;
            }
            i = i + 1;
        }
        assert(self.commits@.take(i as int) =~= self.commits@);
        n
    }

    /// Author with the most commits, with its commit count (ties: the
    /// smallest id, that is the first one interned). `None` when there
    /// are no commits or the top id has no entry in the author table.
    pub fn top_author(&self) -> (r: Option<(usize, &AuthorInfo)>)
        ensures
            match r {
                None => self.commits@.len() == 0 || top_author_id(self.commits@)
                    >= self.authors@.len(),
                Some((n, info)) => {
                    &&& self.commits@.len() > 0
                    &&& top_author_id(self.commits@) < self.authors@.len()
                    &&& n == author_count(self.commits@, top_author_id(self.commits@))
                    &&& *info == self.authors@[top_author_id(self.commits@) as int]
                },
            },
    {
        let ghost cs = self.commits@;
        // (author id, commits so far), ids pairwise distinct
        let mut counts: Vec<(u32, usize)> = Vec::new();
        let mut i: usize = 0;
        while i < self.commits.len()
            invariant
                cs == self.commits@,
                i <= cs.len(),
                forall|k: int, l: int|
                    0 <= k < l < counts@.len() ==> counts@[k].0 != counts@[l].0,
                forall|k: int|
                    0 <= k < counts@.len() ==> #[trigger] counts@[k].1 == author_count(
                        cs.take(i as int),
                        counts@[k].0,
                    ) && counts@[k].1 > 0,
                forall|a: u32|
                    author_count(cs.take(i as int), a) > 0 ==> exists|k: int|
                        0 <= k < counts@.len() && #[trigger] counts@[k].0 == a,
            decreases cs.len() - i,
        {
            let a = self.commits[i].author.0;
            let ghost pre = cs.take(i as int);
            let ghost post = cs.take(i + 1);
            assert(post.drop_last() =~= pre);
            proof {
                lemma_author_count_bound(pre, a);
            }
            let mut j: usize = 0;
            while j < counts.len() && counts[j].0 != a
                invariant
                    j <= counts@.len(),
                    forall|k: int| 0 <= k < j ==> counts@[k].0 != a,
                decreases counts@.len() - j,
            {
                j = j + 1;
            }
            let found = j < counts.len();
            let ghost old_counts = counts@;
            if found {
                let c = counts[j].1;
                counts.set(j, (a, c + 1));
            } else {
                counts.push((a, 1));
            }
            assert forall|k: int|
                0 <= k < counts@.len() implies #[trigger] counts@[k].1 == author_count(
                post,
                counts@[k].0,
            ) && counts@[k].1 > 0 by {}
            assert forall|b: u32| author_count(post, b) > 0 implies exists|k: int|
                0 <= k < counts@.len() && #[trigger] counts@[k].0 == b by {
                if b != a {
                    assert(author_count(pre, b) > 0);
                    let k = choose|k: int|
                        0 <= k < old_counts.len() && #[trigger] old_counts[k].0 == b;
                    assert(counts@[k].0 == b);
                } else {
                    if found {
                        assert(counts@[j as int].0 == b);
                    } else {
                        assert(counts@[counts@.len() - 1].0 == b);
                    }
                }
            }
            i = i + 1;
        }
        assert(cs.take(i as int) =~= cs);
        if counts.len() == 0 {
            proof {
                if cs.len() > 0 {
                    lemma_author_count_positive(cs, 0);
                }
            }
            return None;
        }
        let mut best: usize = 0;
        let mut k: usize = 1;
        while k < counts.len()
            invariant
                0 < counts@.len(),
                forall|l: int| 0 <= l < counts@.len() ==> #[trigger] counts@[l].1 > 0,
                best < counts@.len(),
                k <= counts@.len(),
                forall|l: int|
                    0 <= l < k ==> counts@[l].1 < counts@[best as int].1 || (counts@[l].1
                        == counts@[best as int].1 && counts@[best as int].0 <= counts@[l].0),
            decreases counts@.len() - k,
        {
            let (ka, kn) = counts[k];
            let (ba, bn) = counts[best];
            if kn > bn || (kn == bn && ka < ba) {
                best = k;
            }
            k = k + 1;
        }
        let (top, n) = counts[best];
        proof {
            assert(counts@[0].1 == author_count(cs, counts@[0].0));
            assert forall|b: u32|
                #![trigger author_count(cs, b)]
                author_count(cs, b) < author_count(cs, top) || (author_count(cs, b)
                    == author_count(cs, top) && top <= b) by {
                if author_count(cs, b) > 0 {
                    let l = choose|l: int| 0 <= l < counts@.len() && #[trigger] counts@[l].0 == b;
                    assert(counts@[l].1 == author_count(cs, b));
                } else {
                    assert(counts@[best as int].1 == author_count(cs, top));
                }
            }
            assert(counts@[best as int].1 == author_count(cs, top));
            assert(is_top_author(cs, top));
            lemma_top_author_unique(cs, top, top_author_id(cs));
        }
        if (top as usize) < self.authors.len() {
            Some((n, &self.authors[top as usize]))
        } else {
            None
        }
    }
}


/// The views of a table of paths.
pub open spec fn path_views(paths: Seq<String>) -> Seq<Seq<char>> {
    paths.map_values(|p: String| p@)
}

/// The keys of a table of authors.
pub open spec fn author_keys(authors: Seq<AuthorInfo>) -> Seq<(Seq<char>, Seq<char>)> {
    authors.map_values(|a: AuthorInfo| author_key(a))
}

pub(crate) fn same_author(a: &AuthorInfo, name: &String, email: &String) -> (r: bool)
    ensures
        r == (author_key(*a) == (name@, email@)),
{
    let same_name = a.name == *name;
    let same_email = a.email == *email;
    same_name && same_email
}

/// Assigns a dense `u32` id to each distinct author, in order of first sight.
#[derive(Debug)]
pub struct AuthorInterner {
    list: Vec<AuthorInfo>,
}

impl AuthorInterner {
    /// The keys interned so far; the id of a key is its position.
    pub closed spec fn keys(&self) -> Seq<(Seq<char>, Seq<char>)> {
        author_keys(self.list@)
    }

    /// No key is interned twice.
    pub closed spec fn wf(&self) -> bool {
        &&& self.keys().no_duplicates()
        &&& self.keys().len() <= u32::MAX + 1
    }

    pub fn new() -> (r: Self)
        ensures
            r.wf(),
            r.keys() == Seq::<(Seq<char>, Seq<char>)>::empty(),
    {
        let r = AuthorInterner { list: Vec::new() };
        assert(r.keys() =~= Seq::<(Seq<char>, Seq<char>)>::empty());
        r
    }

    /// Id of (`name`, `email`): its existing id, or the next one after
    /// appending the pair.
    pub fn intern(&mut self, name: String, email: String) -> (id: AuthorId)
        requires
            old(self).wf(),
            old(self).keys().len() <= u32::MAX || old(self).keys().contains((name@, email@)),
        ensures
            final(self).wf(),
            old(self).keys().contains((name@, email@)) ==> final(self).keys() == old(self).keys(),
            !old(self).keys().contains((name@, email@)) ==> final(self).keys() == old(
                self,
            ).keys().push((name@, email@)),
            id.0 < final(self).keys().len(),
            final(self).keys()[id.0 as int] == (name@, email@),
    {
        let ghost k = (name@, email@);
        let mut i: usize = 0;
        let mut found = false;
        while i < self.list.len() && !found
            invariant
                k == (name@, email@),
                i <= self.list@.len(),
                found ==> i < self.list@.len() && self.keys()[i as int] == k,
                forall|j: int| 0 <= j < i ==> self.keys()[j] != k,
                self.keys().len() == self.list@.len(),
                forall|j: int|
                    0 <= j < self.list@.len() ==> #[trigger] self.keys()[j] == author_key(
                        self.list@[j],
                    ),
            decreases self.list@.len() - i + (if found { 0int } else { 1int }),
        {
            if same_author(&self.list[i], &name, &email) {
                found = true;
            } else {
                i = i + 1;
            }
        }
        if found {
            AuthorId(i as u32)
        } else {
            let next = self.list.len() as u32;
            assert(!self.keys().contains(k));
            self.list.push(AuthorInfo { name, email });
            assert(self.keys() =~= old(self).keys().push(k));
            AuthorId(next)
        }
    }

    /// The interned authors, in id order.
    pub fn into_list(self) -> (r: Vec<AuthorInfo>)
        ensures
            author_keys(r@) == self.keys(),
    {
        self.list
    }
}

impl Default for AuthorInterner {
    fn default() -> (r: Self)
        ensures
            r.wf(),
            r.keys() == Seq::<(Seq<char>, Seq<char>)>::empty(),
    {
        AuthorInterner::new()
    }
}

/// Assigns a dense `u32` id to each distinct path, in order of first sight.
pub struct PathInterner {
    map: StringHashMap<u32>,
    list: Vec<String>,
}

impl PathInterner {
    /// The paths interned so far; the id of a path is its position.
    pub closed spec fn paths(&self) -> Seq<Seq<char>> {
        path_views(self.list@)
    }

    /// The index agrees with the list, and no path is interned twice.
    pub closed spec fn wf(&self) -> bool {
        &&& self.list@.len() <= u32::MAX + 1
        &&& forall|p: Seq<char>|
            #[trigger] self.map@.contains_key(p) ==> self.map@[p] < self.list@.len()
                && self.list@[self.map@[p] as int]@ == p
        &&& forall|i: int|
            0 <= i < self.list@.len() ==> #[trigger] self.map@.contains_key(self.list@[i]@)
                && self.map@[self.list@[i]@] == i
    }

    pub fn new() -> (r: Self)
        ensures
            r.wf(),
            r.paths() == Seq::<Seq<char>>::empty(),
    {
        let r = PathInterner { map: StringHashMap::new(), list: Vec::new() };
        assert(r.paths() =~= Seq::<Seq<char>>::empty());
        r
    }

    proof fn lemma_no_duplicates(&self)
        requires
            self.wf(),
        ensures
            self.paths().no_duplicates(),
    {
        assert forall|i: int, j: int|
            0 <= i < self.paths().len() && 0 <= j < self.paths().len() && i != j implies self.paths()[i]
            != self.paths()[j] by {
            assert(self.paths()[i] == self.list@[i]@);
            assert(self.paths()[j] == self.list@[j]@);
            assert(self.map@.contains_key(self.list@[i]@));
            assert(self.map@.contains_key(self.list@[j]@));
        }
    }

    /// Id of `path`: its existing id, or the next one after appending it.
    pub fn intern(&mut self, path: &str) -> (id: FileId)
        requires
            old(self).wf(),
            old(self).paths().len() <= u32::MAX || old(self).paths().contains(path@),
        ensures
            final(self).wf(),
            final(self).paths().no_duplicates(),
            old(self).paths().contains(path@) ==> final(self).paths() == old(self).paths(),
            !old(self).paths().contains(path@) ==> final(self).paths() == old(self).paths().push(
                path@,
            ),
            id.0 < final(self).paths().len(),
            final(self).paths()[id.0 as int] == path@,
    {
        match self.map.get(path) {
            Some(id) => {
                let id = *id;
                proof {
                    self.lemma_no_duplicates();
                    assert(self.map@.contains_key(path@));
                    assert(self.paths()[id as int] == path@);
                }
                FileId(id)
            },
            None => {
                let next = self.list.len() as u32;
                assert(!self.paths().contains(path@)) by {
                    if self.paths().contains(path@) {
                        let i = choose|i: int| 0 <= i < self.paths().len() && self.paths()[i] == path@;
                        assert(self.map@.contains_key(self.list@[i]@));
                    }
                }
                let owned = path.to_owned();
                self.list.push(owned.clone());
                self.map.insert(owned, next);
                assert(self.paths() =~= old(self).paths().push(path@));
                assert(self.wf());
                proof {
                    self.lemma_no_duplicates();
                }
                FileId(next)
            },
        }
    }

    /// The interned paths, in id order.
    pub fn into_list(self) -> (r: Vec<String>)
        ensures
            path_views(r@) == self.paths(),
    {
        self.list
    }
}

impl Default for PathInterner {
    fn default() -> (r: Self)
        ensures
            r.wf(),
            r.paths() == Seq::<Seq<char>>::empty(),
    {
        PathInterner::new()
    }
}


// ------------------------------------------------------------------
// Tables that grow by appending the keys they have not seen
// ------------------------------------------------------------------

/// Position of the last occurrence of `x` in `s`, or -1.
pub open spec fn last_index_of<K>(s: Seq<K>, x: K) -> int
    decreases s.len(),
{
    if s.len() == 0 {
        -1
    } else if s.last() == x {
        s.len() - 1
    } else {
        last_index_of(s.drop_last(), x)
    }
}

/// The keys of `keys` that are neither in `known` nor seen before, in order
/// of first occurrence.
pub open spec fn new_keys<K>(known: Seq<K>, keys: Seq<K>) -> Seq<K>
    decreases keys.len(),
{
    if keys.len() == 0 {
        Seq::empty()
    } else {
        let prev = new_keys(known, keys.drop_last());
        if (known + prev).contains(keys.last()) {
            prev
        } else {
            prev.push(keys.last())
        }
    }
}

pub proof fn lemma_last_index_of_push<K>(s: Seq<K>, y: K, x: K)
    ensures
        last_index_of(s.push(y), x) == if x == y {
            s.len() as int
        } else {
            last_index_of(s, x)
        },
{
    assert(s.push(y).drop_last() =~= s);
}

pub proof fn lemma_last_index_of_found<K>(s: Seq<K>, x: K)
    ensures
        -1 <= last_index_of(s, x) < s.len(),
        last_index_of(s, x) >= 0 <==> s.contains(x),
        last_index_of(s, x) >= 0 ==> s[last_index_of(s, x)] == x,
        forall|k: int| last_index_of(s, x) < k < s.len() ==> s[k] != x,
    decreases s.len(),
{
    if s.len() > 0 {
        lemma_last_index_of_found(s.drop_last(), x);
        if s.last() != x {
            if s.contains(x) {
                let k = choose|k: int| 0 <= k < s.len() && s[k] == x;
                assert(s.drop_last()[k] == x);
            }
            assert forall|k: int| last_index_of(s, x) < k < s.len() implies s[k] != x by {
                if k < s.len() - 1 {
                    assert(s[k] == s.drop_last()[k]);
                }
            }
            if last_index_of(s, x) >= 0 {
                assert(s.drop_last()[last_index_of(s, x)] == x);
            }
        } else {
            assert(s[s.len() - 1] == x);
        }
    }
}

pub proof fn lemma_new_keys_push<K>(known: Seq<K>, keys: Seq<K>, k: K)
    ensures
        new_keys(known, keys.push(k)) == if (known + new_keys(known, keys)).contains(k) {
            new_keys(known, keys)
        } else {
            new_keys(known, keys).push(k)
        },
{
    assert(keys.push(k).drop_last() =~= keys);
}

/// Over a longer run of keys, no fewer new keys are found.
pub proof fn lemma_new_keys_prefix_len<K>(known: Seq<K>, keys: Seq<K>, n: int)
    requires
        0 <= n <= keys.len(),
    ensures
        new_keys(known, keys.take(n)).len() <= new_keys(known, keys).len(),
    decreases keys.len() - n,
{
    if n < keys.len() {
        assert(keys.take(n + 1).drop_last() =~= keys.take(n));
        lemma_new_keys_prefix_len(known, keys, n + 1);
    } else {
        assert(keys.take(n) =~= keys);
    }
}


/// Ids are stable: in a table that only grows at the end and holds no key
/// twice, a key keeps the id it got first, so interning it again gives the
/// same id.
pub proof fn lemma_id_stable<K>(before: Seq<K>, after: Seq<K>, i: int, j: int)
    requires
        after.no_duplicates(),
        before.len() <= after.len(),
        before == after.take(before.len() as int),
        0 <= i < before.len(),
        0 <= j < after.len(),
        before[i] == after[j],
    ensures
        i == j,
{
    assert(after[i] == before[i]);
}

} // verus!
