//! A verified merge sort over any strict order.
//!
//! The metrics sort rows by composite keys (churn then file id, time then
//! input position, ...). Each key is a `StrictOrder`; a sequence whose
//! elements are pairwise comparable has exactly one strictly sorted
//! arrangement, and `sort_strict` returns it.

use vstd::prelude::*;

verus! {

/// A strict order: irreflexive and transitive.
pub trait StrictOrder: Sized {
    spec fn before(self, other: Self) -> bool;

    fn is_before(&self, other: &Self) -> (r: bool)
        ensures
            r == self.before(*other),
    ;

    proof fn lemma_strict(a: Self, b: Self, c: Self)
        ensures
            !a.before(a),
            a.before(b) && b.before(c) ==> a.before(c),
    ;
}

/// Every element comes strictly before every later one.
pub open spec fn sorted_strict<T: StrictOrder>(s: Seq<T>) -> bool {
    forall|i: int, j: int| 0 <= i < j < s.len() ==> #[trigger] s[i].before(#[trigger] s[j])
}

/// Any two elements at different positions are ordered one way or the other.
pub open spec fn pairwise_ordered<T: StrictOrder>(s: Seq<T>) -> bool {
    forall|i: int, j: int|
        0 <= i < s.len() && 0 <= j < s.len() && i != j ==> #[trigger] s[i].before(s[j])
            || #[trigger] s[j].before(s[i])
}

/// Every element of `a` is ordered against every element of `b`.
pub open spec fn cross_ordered<T: StrictOrder>(a: Seq<T>, b: Seq<T>) -> bool {
    forall|i: int, j: int|
        0 <= i < a.len() && 0 <= j < b.len() ==> #[trigger] a[i].before(#[trigger] b[j])
            || b[j].before(a[i])
}

/// Every element of `a` comes before every element of `b`.
pub open spec fn all_before<T: StrictOrder>(a: Seq<T>, b: Seq<T>) -> bool {
    forall|i: int, j: int| 0 <= i < a.len() && 0 <= j < b.len() ==> #[trigger] a[i].before(#[trigger] b[j])
}

/// `s` and `t` hold the same elements.
pub open spec fn same_elements<T>(s: Seq<T>, t: Seq<T>) -> bool {
    &&& s.len() == t.len()
    &&& forall|x: T| s.contains(x) <==> t.contains(x)
}

proof fn lemma_pop<T>(s: Seq<T>)
    requires
        s.len() > 0,
    ensures
        s =~= s.drop_last().push(s.last()),
        forall|x: T| #[trigger] s.contains(x) <==> (s.drop_last().contains(x) || x == s.last()),
{
    assert(s =~= s.drop_last().push(s.last()));
    assert forall|x: T| s.contains(x) implies (s.drop_last().contains(x) || x == s.last()) by {
        let i = choose|i: int| 0 <= i < s.len() && s[i] == x;
        if i < s.len() - 1 {
            assert(s.drop_last()[i] == x);
        }
    }
    assert forall|x: T| s.drop_last().contains(x) implies s.contains(x) by {
        let i = choose|i: int| 0 <= i < s.drop_last().len() && s.drop_last()[i] == x;
        assert(s[i] == x);
    }
    assert(s[s.len() - 1] == s.last());
}

proof fn lemma_push<T>(s: Seq<T>, y: T)
    ensures
        forall|x: T| #[trigger] s.push(y).contains(x) <==> (s.contains(x) || x == y),
{
    lemma_pop(s.push(y));
    assert(s.push(y).drop_last() =~= s);
}

/// Merges two strictly sorted vectors whose elements are ordered against each other.
fn merge<T: StrictOrder>(a: Vec<T>, b: Vec<T>) -> (r: Vec<T>)
    requires
        sorted_strict(a@),
        sorted_strict(b@),
        cross_ordered(a@, b@),
    ensures
        sorted_strict(r@),
        r@.len() == a@.len() + b@.len(),
        forall|x: T| r@.contains(x) <==> (a@.contains(x) || b@.contains(x)),
{
    let ghost a0 = a@;
    let ghost b0 = b@;
    let mut a = a;
    let mut b = b;
    // `rev` holds the largest elements taken so far, in decreasing order
    let mut rev: Vec<T> = Vec::new();
    while a.len() > 0 || b.len() > 0
        invariant
            sorted_strict(a@),
            sorted_strict(b@),
            cross_ordered(a@, b@),
            forall|i: int, j: int| 0 <= i < j < rev@.len() ==> #[trigger] rev@[j].before(#[trigger] rev@[i]),
            all_before(a@, rev@),
            all_before(b@, rev@),
            a@.len() + b@.len() + rev@.len() == a0.len() + b0.len(),
            forall|x: T|
                (a@.contains(x) || b@.contains(x) || rev@.contains(x)) <==> (a0.contains(x)
                    || b0.contains(x)),
        decreases a@.len() + b@.len(),
    {
        let ghost a1 = a@;
        let ghost b1 = b@;
        let ghost rev1 = rev@;
        let take_a = if a.len() == 0 {
            false
        } else if b.len() == 0 {
            true
        } else {
            b[b.len() - 1].is_before(&a[a.len() - 1])
        };
        if take_a {
            let x = a.pop().unwrap();
            let ghost gx = x;
            proof {
                lemma_pop(a1);
                lemma_push(rev1, x);
                assert(x == a1[a1.len() - 1]);
                // everything left is before x
                assert forall|i: int| 0 <= i < a@.len() implies #[trigger] a@[i].before(x) by {
                    assert(a@[i] == a1[i]);
                }
                assert forall|i: int| 0 <= i < b@.len() implies #[trigger] b@[i].before(x) by {
                    let lb = b1[b1.len() - 1];
                    if i < b1.len() - 1 {
                        T::lemma_strict(b@[i], lb, x);
                    }
                }
            }
            rev.push(x);
            proof {
                assert(a@ =~= a1.drop_last());
                assert(rev@ =~= rev1.push(gx));
                assert(gx == a1.last());
                assert forall|z: T|
                    (a@.contains(z) || b@.contains(z) || rev@.contains(z)) <==> (a1.contains(z)
                        || b1.contains(z) || rev1.contains(z)) by {
                    assert(a1.contains(z) <==> (a1.drop_last().contains(z) || z == a1.last()));
                    lemma_push(rev1, gx);
                    lemma_pop(a1);
                }
                assert forall|i: int, j: int| 0 <= i < j < rev@.len() implies #[trigger] rev@[j].before(
                    #[trigger] rev@[i],
                ) by {
                    if j == rev@.len() - 1 {
                        assert(rev@[i] == rev1[i]);
                        assert(a1[a1.len() - 1].before(rev1[i]));
                    } else {
                        assert(rev@[i] == rev1[i] && rev@[j] == rev1[j]);
                    }
                }
                assert forall|i: int, j: int| 0 <= i < a@.len() && 0 <= j < rev@.len() implies #[trigger] a@[i].before(
                    #[trigger] rev@[j],
                ) by {
                    assert(a@[i] == a1[i]);
                    if j < rev1.len() {
                        assert(rev@[j] == rev1[j]);
                    }
                }
                assert forall|i: int, j: int| 0 <= i < b@.len() && 0 <= j < rev@.len() implies #[trigger] b@[i].before(
                    #[trigger] rev@[j],
                ) by {
                    if j < rev1.len() {
                        assert(rev@[j] == rev1[j]);
                    }
                }
                assert forall|i: int, j: int| 0 <= i < a@.len() && 0 <= j < b@.len() implies #[trigger] a@[i].before(
                    #[trigger] b@[j],
                ) || b@[j].before(a@[i]) by {
                    assert(a@[i] == a1[i]);
                }
            }
        } else {
            let y = b.pop().unwrap();
            let ghost gy = y;
            proof {
                lemma_pop(b1);
                lemma_push(rev1, y);
                assert(y == b1[b1.len() - 1]);
                if a1.len() > 0 {
                    let la = a1[a1.len() - 1];
                    assert(la.before(y) || y.before(la));
                    assert(la.before(y));
                }
                assert forall|i: int| 0 <= i < b@.len() implies #[trigger] b@[i].before(y) by {
                    assert(b@[i] == b1[i]);
                }
                assert forall|i: int| 0 <= i < a@.len() implies #[trigger] a@[i].before(y) by {
                    let la = a1[a1.len() - 1];
                    if i < a1.len() - 1 {
                        T::lemma_strict(a@[i], la, y);
                    }
                }
            }
            rev.push(y);
            proof {
                assert(b@ =~= b1.drop_last());
                assert(rev@ =~= rev1.push(gy));
                assert(gy == b1.last());
                assert forall|z: T|
                    (a@.contains(z) || b@.contains(z) || rev@.contains(z)) <==> (a1.contains(z)
                        || b1.contains(z) || rev1.contains(z)) by {
                    assert(b1.contains(z) <==> (b1.drop_last().contains(z) || z == b1.last()));
                    lemma_push(rev1, gy);
                    lemma_pop(b1);
                }
                assert forall|i: int, j: int| 0 <= i < j < rev@.len() implies #[trigger] rev@[j].before(
                    #[trigger] rev@[i],
                ) by {
                    if j == rev@.len() - 1 {
                        assert(rev@[i] == rev1[i]);
                        assert(b1[b1.len() - 1].before(rev1[i]));
                    } else {
                        assert(rev@[i] == rev1[i] && rev@[j] == rev1[j]);
                    }
                }
                assert forall|i: int, j: int| 0 <= i < a@.len() && 0 <= j < rev@.len() implies #[trigger] a@[i].before(
                    #[trigger] rev@[j],
                ) by {
                    if j < rev1.len() {
                        assert(rev@[j] == rev1[j]);
                    }
                }
                assert forall|i: int, j: int| 0 <= i < b@.len() && 0 <= j < rev@.len() implies #[trigger] b@[i].before(
                    #[trigger] rev@[j],
                ) by {
                    assert(b@[i] == b1[i]);
                    if j < rev1.len() {
                        assert(rev@[j] == rev1[j]);
                    }
                }
                assert forall|i: int, j: int| 0 <= i < a@.len() && 0 <= j < b@.len() implies #[trigger] a@[i].before(
                    #[trigger] b@[j],
                ) || b@[j].before(a@[i]) by {
                    assert(b@[j] == b1[j]);
                }
            }
        }
    }
    // `rev` is decreasing: popping it yields the increasing order
    let ghost full = rev@;
    let mut out: Vec<T> = Vec::new();
    while rev.len() > 0
        invariant
            forall|i: int, j: int| 0 <= i < j < rev@.len() ==> #[trigger] rev@[j].before(#[trigger] rev@[i]),
            sorted_strict(out@),
            all_before(out@, rev@),
            out@.len() + rev@.len() == a0.len() + b0.len(),
            forall|x: T| (out@.contains(x) || rev@.contains(x)) <==> (a0.contains(x) || b0.contains(x)),
        decreases rev@.len(),
    {
        let ghost rev1 = rev@;
        let ghost out1 = out@;
        let x = rev.pop().unwrap();
        proof {
            lemma_pop(rev1);
            lemma_push(out1, x);
        }
        out.push(x);
        proof {
            assert(rev@ =~= rev1.drop_last());
            assert(out@ =~= out1.push(x));
            assert forall|i: int, j: int| 0 <= i < j < out@.len() implies #[trigger] out@[i].before(
                #[trigger] out@[j],
            ) by {
                if j == out@.len() - 1 {
                    assert(out@[i] == out1[i]);
                    assert(out1[i].before(rev1[rev1.len() - 1]));
                } else {
                    assert(out@[i] == out1[i] && out@[j] == out1[j]);
                }
            }
            assert forall|i: int, j: int| 0 <= i < out@.len() && 0 <= j < rev@.len() implies #[trigger] out@[i].before(
                #[trigger] rev@[j],
            ) by {
                assert(rev@[j] == rev1[j]);
                if i < out1.len() {
                    assert(out@[i] == out1[i]);
                } else {
                    assert(rev1[rev1.len() - 1].before(rev1[j]));
                }
            }
        }
    }
    out
}

/// Sorts `v` into the unique strictly increasing arrangement of its elements.
pub fn sort_strict<T: StrictOrder>(v: Vec<T>) -> (r: Vec<T>)
    requires
        pairwise_ordered(v@),
    ensures
        sorted_strict(r@),
        same_elements(r@, v@),
    decreases v@.len(),
{
    if v.len() <= 1 {
        proof {
            assert(same_elements(v@, v@));
        }
        return v;
    }
    let ghost v0 = v@;
    let mut left = v;
    let mid = left.len() / 2;
    let right = left.split_off(mid);
    proof {
        assert(v0 =~= left@ + right@);
        assert forall|i: int, j: int|
            0 <= i < left@.len() && 0 <= j < left@.len() && i != j implies #[trigger] left@[i].before(left@[j])
            || #[trigger] left@[j].before(left@[i]) by {
            assert(left@[i] == v0[i] && left@[j] == v0[j]);
        }
        assert forall|i: int, j: int|
            0 <= i < right@.len() && 0 <= j < right@.len() && i != j implies #[trigger] right@[i].before(right@[j])
            || #[trigger] right@[j].before(right@[i]) by {
            assert(right@[i] == v0[mid + i] && right@[j] == v0[mid + j]);
        }
    }
    let ghost l0 = left@;
    let ghost r0 = right@;
    let ls = sort_strict(left);
    let rs = sort_strict(right);
    proof {
        assert forall|i: int, j: int| 0 <= i < ls@.len() && 0 <= j < rs@.len() implies #[trigger] ls@[i].before(
            #[trigger] rs@[j],
        ) || rs@[j].before(ls@[i]) by {
            assert(ls@.contains(ls@[i]));
            assert(rs@.contains(rs@[j]));
            let p = choose|p: int| 0 <= p < l0.len() && l0[p] == ls@[i];
            let q = choose|q: int| 0 <= q < r0.len() && r0[q] == rs@[j];
            assert(v0[p] == ls@[i]);
            assert(v0[mid + q] == rs@[j]);
        }
    }
    let r = merge(ls, rs);
    proof {
        assert forall|x: T| r@.contains(x) <==> v0.contains(x) by {
            if v0.contains(x) {
                let p = choose|p: int| 0 <= p < v0.len() && v0[p] == x;
                if p < mid {
                    assert(l0[p] == x);
                } else {
                    assert(r0[p - mid] == x);
                }
            }
            if l0.contains(x) {
                let p = choose|p: int| 0 <= p < l0.len() && l0[p] == x;
                assert(v0[p] == x);
            }
            if r0.contains(x) {
                let p = choose|p: int| 0 <= p < r0.len() && r0[p] == x;
                assert(v0[mid + p] == x);
            }
        }
    }
    r
}

/// Plain integers go by their value.
impl StrictOrder for u32 {
    open spec fn before(self, other: Self) -> bool {
        self < other
    }

    fn is_before(&self, other: &Self) -> (r: bool) {
        *self < *other
    }

    proof fn lemma_strict(a: Self, b: Self, c: Self) {
    }
}

/// Two strictly sorted sequences with the same elements are equal: a
/// strict order leaves one arrangement only.
pub proof fn lemma_sorted_unique<T: StrictOrder>(a: Seq<T>, b: Seq<T>)
    requires
        sorted_strict(a),
        sorted_strict(b),
        forall|x: T| a.contains(x) <==> b.contains(x),
    ensures
        a == b,
    decreases a.len(),
{
    if a.len() == 0 {
        if b.len() > 0 {
            assert(b.contains(b[0]));
        }
        assert(a =~= b);
    } else {
        assert(a.contains(a[0]));
        assert(b.len() > 0);
        assert(b.contains(b[0]));
        let i = choose|i: int| 0 <= i < a.len() && a[i] == b[0];
        let j = choose|j: int| 0 <= j < b.len() && b[j] == a[0];
        if i > 0 && j > 0 {
            assert(a[0].before(a[i]));
            assert(b[0].before(b[j]));
            T::lemma_strict(a[0], b[0], a[0]);
        }
        assert(a[0] == b[0]);
        let a2 = a.drop_first();
        let b2 = b.drop_first();
        assert forall|x: T| a2.contains(x) <==> b2.contains(x) by {
            if a2.contains(x) {
                let p = choose|p: int| 0 <= p < a2.len() && a2[p] == x;
                assert(a[p + 1] == x);
                assert(a[0].before(a[p + 1]));
                T::lemma_strict(x, x, x);
                assert(b.contains(x));
                let q = choose|q: int| 0 <= q < b.len() && b[q] == x;
                assert(q != 0);
                assert(b2[q - 1] == x);
            }
            if b2.contains(x) {
                let p = choose|p: int| 0 <= p < b2.len() && b2[p] == x;
                assert(b[p + 1] == x);
                assert(b[0].before(b[p + 1]));
                T::lemma_strict(x, x, x);
                assert(a.contains(x));
                let q = choose|q: int| 0 <= q < a.len() && a[q] == x;
                assert(q != 0);
                assert(a2[q - 1] == x);
            }
        }
        assert forall|p: int, q: int| 0 <= p < q < a2.len() implies #[trigger] a2[p].before(#[trigger] a2[q]) by {
            assert(a[p + 1].before(a[q + 1]));
        }
        assert forall|p: int, q: int| 0 <= p < q < b2.len() implies #[trigger] b2[p].before(#[trigger] b2[q]) by {
            assert(b[p + 1].before(b[q + 1]));
        }
        lemma_sorted_unique(a2, b2);
        assert(a =~= b) by {
            assert forall|k: int| 0 <= k < a.len() implies a[k] == b[k] by {
                if k > 0 {
                    assert(a[k] == a2[k - 1]);
                    assert(b[k] == b2[k - 1]);
                }
            }
        }
    }
}

} // verus!
