//! Canonical form of a signatory set.
//!
//! A set of account identifiers is handed in as a plain vector; the registry
//! keeps it as a strictly sorted vector, which removes duplicates and gives
//! every set exactly one stored representation.  The sorted form is what the
//! deterministic address derivation consumes.

use vstd::prelude::*;

verus! {

/// Every element is strictly smaller than the ones after it; in particular
/// the sequence holds no duplicates.
pub open spec fn strictly_sorted(s: Seq<u64>) -> bool {
    forall|i: int, j: int| 0 <= i < j < s.len() ==> s[i] < s[j]
}

/// The canonical form of `s` with one more element `x`: `s` unchanged when
/// `x` is already present, otherwise `x` standing at its sorted position.
pub open spec fn insert_sorted(s: Seq<u64>, x: u64) -> Seq<u64>
    decreases s.len(),
{
    if s.len() == 0 {
        seq![x]
    } else if x < s[0] {
        seq![x] + s
    } else if x == s[0] {
        s
    } else {
        seq![s[0]] + insert_sorted(s.drop_first(), x)
    }
}

/// The canonical (strictly sorted, duplicate-free) form of a sequence.
/// Its length is the cardinality of the set of elements of `s`.
pub open spec fn canon_of(s: Seq<u64>) -> Seq<u64>
    decreases s.len(),
{
    if s.len() == 0 {
        Seq::empty()
    } else {
        insert_sorted(canon_of(s.drop_last()), s.last())
    }
}

pub proof fn lemma_insert_sorted_props(s: Seq<u64>, x: u64)
    requires
        strictly_sorted(s),
    ensures
        strictly_sorted(insert_sorted(s, x)),
        forall|z: u64|
            #![trigger insert_sorted(s, x).contains(z)]
            insert_sorted(s, x).contains(z) <==> s.contains(z) || z == x,
    decreases s.len(),
{
    let r = insert_sorted(s, x);
    if s.len() == 0 {
        assert forall|z: u64| r.contains(z) <==> s.contains(z) || z == x by {
            if z == x {
                assert(r[0] == x);
                assert(r.contains(z));
            }
        }
    } else if x < s[0] {
        assert forall|z: u64| r.contains(z) <==> s.contains(z) || z == x by {
            if z == x {
                assert(r[0] == x);
                assert(r.contains(z));
            }
            if s.contains(z) {
                let i = choose|i: int| 0 <= i < s.len() && s[i] == z;
                assert(r[i + 1] == z);
                assert(r.contains(z));
            }
            if r.contains(z) && z != x {
                let i = choose|i: int| 0 <= i < r.len() && r[i] == z;
                assert(i != 0);
                assert(s[i - 1] == z);
                assert(s.contains(z));
            }
        }
        assert forall|i: int, j: int| 0 <= i < j < r.len() implies r[i] < r[j] by {
            if i == 0 {
                assert(r[j] == s[j - 1]);
                if j - 1 > 0 {
                    assert(s[0] < s[j - 1]);
                }
            } else {
                assert(r[i] == s[i - 1] && r[j] == s[j - 1]);
            }
        }
    } else if x == s[0] {
        assert forall|z: u64| r.contains(z) <==> s.contains(z) || z == x by {
            if z == x {
                assert(s[0] == z);
                assert(s.contains(z));
            }
        }
    } else {
        let tail = s.drop_first();
        assert(strictly_sorted(tail)) by {
            assert forall|i: int, j: int| 0 <= i < j < tail.len() implies tail[i] < tail[j] by {
                assert(tail[i] == s[i + 1] && tail[j] == s[j + 1]);
            }
        }
        lemma_insert_sorted_props(tail, x);
        let rt = insert_sorted(tail, x);
        assert(r == seq![s[0]] + rt);
        assert forall|z: u64| r.contains(z) <==> s.contains(z) || z == x by {
            if r.contains(z) {
                let i = choose|i: int| 0 <= i < r.len() && r[i] == z;
                if i == 0 {
                    assert(s[0] == z);
                    assert(s.contains(z));
                } else {
                    assert(rt[i - 1] == z);
                    assert(rt.contains(z));
                    if z != x {
                        assert(tail.contains(z));
                        let k = choose|k: int| 0 <= k < tail.len() && tail[k] == z;
                        assert(s[k + 1] == z);
                        assert(s.contains(z));
                    }
                }
            }
            if s.contains(z) {
                let i = choose|i: int| 0 <= i < s.len() && s[i] == z;
                if i == 0 {
                    assert(r[0] == z);
                } else {
                    assert(tail[i - 1] == z);
                    assert(tail.contains(z));
                    assert(rt.contains(z));
                    let k = choose|k: int| 0 <= k < rt.len() && rt[k] == z;
                    assert(r[k + 1] == z);
                }
                assert(r.contains(z));
            }
            if z == x {
                assert(insert_sorted(tail, x).contains(z));
                assert(rt.contains(z));
                let k = choose|k: int| 0 <= k < rt.len() && rt[k] == z;
                assert(r[k + 1] == z);
                assert(r.contains(z));
            }
        }
        // every element of the new tail is above s[0]
        assert forall|k: int| 0 <= k < rt.len() implies s[0] < rt[k] by {
            assert(rt.contains(rt[k]));
            if rt[k] == x {
            } else {
                assert(tail.contains(rt[k]));
                let t = choose|t: int| 0 <= t < tail.len() && tail[t] == rt[k];
                assert(s[t + 1] == rt[k]);
                assert(s[0] < s[t + 1]);
            }
        }
        assert forall|i: int, j: int| 0 <= i < j < r.len() implies r[i] < r[j] by {
            if i == 0 {
                assert(r[j] == rt[j - 1]);
            } else {
                assert(r[i] == rt[i - 1] && r[j] == rt[j - 1]);
            }
        }
    }
}

pub proof fn lemma_canon_of_props(s: Seq<u64>)
    ensures
        strictly_sorted(canon_of(s)),
        forall|z: u64| #![trigger canon_of(s).contains(z)] canon_of(s).contains(z) <==> s.contains(
            z,
        ),
    decreases s.len(),
{
    if s.len() == 0 {
    } else {
        let head = s.drop_last();
        lemma_canon_of_props(head);
        lemma_insert_sorted_props(canon_of(head), s.last());
        assert forall|z: u64| canon_of(s).contains(z) <==> s.contains(z) by {
            if canon_of(s).contains(z) {
                if z == s.last() {
                    assert(s[s.len() - 1] == z);
                    assert(s.contains(z));
                } else {
                    assert(head.contains(z));
                    let i = choose|i: int| 0 <= i < head.len() && head[i] == z;
                    assert(s[i] == z);
                    assert(s.contains(z));
                }
            }
            if s.contains(z) {
                let i = choose|i: int| 0 <= i < s.len() && s[i] == z;
                if i == s.len() - 1 {
                    assert(z == s.last());
                } else {
                    assert(head[i] == z);
                    assert(head.contains(z));
                }
                assert(insert_sorted(canon_of(head), s.last()).contains(z));
                assert(canon_of(s).contains(z));
            }
        }
    }
}

/// Two strictly sorted sequences with the same elements are the same
/// sequence: a set of identifiers has exactly one canonical form.
pub proof fn lemma_sorted_same_elems_equal(a: Seq<u64>, b: Seq<u64>)
    requires
        strictly_sorted(a),
        strictly_sorted(b),
        forall|z: u64| a.contains(z) <==> b.contains(z),
    ensures
        a == b,
    decreases a.len(),
{
    if a.len() == 0 {
        if b.len() > 0 {
            assert(b.contains(b[0]));
            assert(a.contains(b[0]));
        }
        assert(a =~= b);
    } else {
        assert(a.contains(a.last())) by {
            assert(a[a.len() - 1] == a.last());
        }
        assert(b.len() > 0) by {
            assert(b.contains(a.last()));
        }
        let x = a.last();
        let y = b.last();
        // both last elements are the maximum of the common element set
        assert(b.contains(x));
        let i = choose|i: int| 0 <= i < b.len() && b[i] == x;
        assert(x <= y) by {
            if i < b.len() - 1 {
                assert(b[i] < b[b.len() - 1]);
            }
        }
        assert(b.contains(y)) by {
            assert(b[b.len() - 1] == y);
        }
        assert(a.contains(y));
        let j = choose|j: int| 0 <= j < a.len() && a[j] == y;
        assert(y <= x) by {
            if j < a.len() - 1 {
                assert(a[j] < a[a.len() - 1]);
            }
        }
        assert(x == y);
        let ah = a.drop_last();
        let bh = b.drop_last();
        assert forall|z: u64| ah.contains(z) <==> bh.contains(z) by {
            if ah.contains(z) {
                let k = choose|k: int| 0 <= k < ah.len() && ah[k] == z;
                assert(a[k] == z);
                assert(z < x) by {
                    assert(a[k] < a[a.len() - 1]);
                }
                assert(a.contains(z));
                assert(b.contains(z));
                let t = choose|t: int| 0 <= t < b.len() && b[t] == z;
                assert(t != b.len() - 1);
                assert(bh[t] == z);
                assert(bh.contains(z));
            }
            if bh.contains(z) {
                let k = choose|k: int| 0 <= k < bh.len() && bh[k] == z;
                assert(b[k] == z);
                assert(z < y) by {
                    assert(b[k] < b[b.len() - 1]);
                }
                assert(b.contains(z));
                assert(a.contains(z));
                let t = choose|t: int| 0 <= t < a.len() && a[t] == z;
                assert(t != a.len() - 1);
                assert(ah[t] == z);
                assert(ah.contains(z));
            }
        }
        lemma_sorted_same_elems_equal(ah, bh);
        assert(a =~= b) by {
            assert forall|k: int| 0 <= k < a.len() implies a[k] == b[k] by {
                if k < a.len() - 1 {
                    assert(ah[k] == bh[k]);
                }
            }
        }
    }
}

/// Whether `x` occurs in `v`.
pub fn vec_contains(v: &Vec<u64>, x: u64) -> (r: bool)
    ensures
        r == v@.contains(x),
{
    let mut i: usize = 0;
    while i < v.len()
        invariant
            i <= v@.len(),
            forall|k: int| 0 <= k < i ==> v@[k] != x,
        decreases v@.len() - i,
    {
        if v[i] == x {
            return true;
        }
        i += 1;
    }
    false
}

/// Whether every element of `a` also occurs in `b`.
pub fn vec_subset_of(a: &Vec<u64>, b: &Vec<u64>) -> (r: bool)
    ensures
        r == (forall|x: u64| a@.contains(x) ==> b@.contains(x)),
{
    let mut i: usize = 0;
    while i < a.len()
        invariant
            i <= a@.len(),
            forall|k: int| 0 <= k < i ==> b@.contains(#[trigger] a@[k]),
        decreases a@.len() - i,
    {
        if !vec_contains(b, a[i]) {
            assert(a@.contains(a@[i as int]));
            return false;
        }
        i += 1;
    }
    assert forall|x: u64| a@.contains(x) implies b@.contains(x) by {
        let k = choose|k: int| 0 <= k < a@.len() && a@[k] == x;
        assert(b@.contains(a@[k]));
    }
    true
}

/// Builds the canonical form of `input`: strictly sorted, with every
/// duplicate dropped.
pub fn canonicalize(input: &Vec<u64>) -> (r: Vec<u64>)
    ensures
        r@ == canon_of(input@),
        strictly_sorted(r@),
{
    let mut out: Vec<u64> = Vec::new();
    let mut i: usize = 0;
    while i < input.len()
        invariant
            i <= input@.len(),
            strictly_sorted(out@),
            forall|z: u64| out@.contains(z) <==> input@.take(i as int).contains(z),
        decreases input@.len() - i,
    {
        let x = input[i];
        let ghost prefix = input@.take(i as int);
        insert_unique_sorted(&mut out, x);
        proof {
            let longer = input@.take(i + 1);
            assert(longer.drop_last() =~= prefix);
            assert forall|z: u64| out@.contains(z) <==> longer.contains(z) by {
                if out@.contains(z) {
                    if z == x {
                        assert(longer[i as int] == x);
                        assert(longer.contains(z));
                    } else {
                        assert(prefix.contains(z));
                        let k = choose|k: int| 0 <= k < prefix.len() && prefix[k] == z;
                        assert(longer[k] == z);
                        assert(longer.contains(z));
                    }
                }
                if longer.contains(z) {
                    let k = choose|k: int| 0 <= k < longer.len() && longer[k] == z;
                    if k == i {
                        assert(z == x);
                    } else {
                        assert(prefix[k] == z);
                        assert(prefix.contains(z));
                    }
                    assert(out@.contains(z));
                }
            }
        }
        i += 1;
    }
    proof {
        assert(input@.take(input@.len() as int) =~= input@);
        lemma_canon_of_props(input@);
        lemma_sorted_same_elems_equal(out@, canon_of(input@));
    }
    out
}

/// Inserts `x` into the strictly sorted vector `v`, keeping it strictly
/// sorted; a value already present is left alone.
fn insert_unique_sorted(v: &mut Vec<u64>, x: u64)
    requires
        strictly_sorted(old(v)@),
    ensures
        strictly_sorted(final(v)@),
        forall|z: u64| final(v)@.contains(z) <==> old(v)@.contains(z) || z == x,
{
    let mut j: usize = 0;
    while j < v.len() && v[j] < x
        invariant
            j <= v@.len(),
            v@ == old(v)@,
            forall|k: int| 0 <= k < j ==> v@[k] < x,
        decreases v@.len() - j,
    {
        j += 1;
    }
    if j < v.len() && v[j] == x {
        assert(v@.contains(x));
        return;
    }
    let ghost pre = v@;
    v.insert(j, x);
    proof {
        pre.insert_ensures(j as int, x);
        assert forall|a: int, b: int| 0 <= a < b < v@.len() implies v@[a] < v@[b] by {
            if b < j {
                assert(v@[a] == pre[a] && v@[b] == pre[b]);
            } else if a < j && b == j {
                assert(v@[a] == pre[a] && v@[b] == x);
            } else if a < j && b > j {
                assert(v@[a] == pre[a] && v@[b] == pre[b - 1]);
                if b - 1 == j {
                    // pre[j] > x > pre[a] when pre[j] != x
                    assert(pre[a] < x);
                    assert(x <= pre[j as int]);
                } else {
                    assert(pre[a] < pre[b - 1]);
                }
            } else if a == j {
                assert(v@[a] == x && v@[b] == pre[b - 1]);
                assert(j < pre.len());
                assert(x <= pre[j as int]);
                if b - 1 > j {
                    assert(pre[j as int] < pre[b - 1]);
                }
            } else {
                assert(v@[a] == pre[a - 1] && v@[b] == pre[b - 1]);
            }
        }
        assert forall|z: u64| v@.contains(z) <==> pre.contains(z) || z == x by {
            if v@.contains(z) {
                let k = choose|k: int| 0 <= k < v@.len() && v@[k] == z;
                if k < j {
                    assert(pre[k] == z);
                    assert(pre.contains(z));
                } else if k == j {
                    assert(z == x);
                } else {
                    assert(pre[k - 1] == z);
                    assert(pre.contains(z));
                }
            }
            if pre.contains(z) {
                let k = choose|k: int| 0 <= k < pre.len() && pre[k] == z;
                if k < j {
                    assert(v@[k] == z);
                } else {
                    assert(v@[k + 1] == z);
                }
                assert(v@.contains(z));
            }
            if z == x {
                assert(v@[j as int] == x);
                assert(v@.contains(z));
            }
        }
    }
}

} // verus!
