//! Canonicalization of coordinate keys: the strictly sorted sequence of
//! the distinct keys occurring in a sequence, and lookup of a key's
//! position in it.  The position of a vertex's qubit key in the sorted
//! table is its canonical qubit index; the sorted table of row keys fixes
//! the order in which time rows are visited.

use vstd::prelude::*;

verus! {

/// `t` is strictly ascending (hence duplicate-free).
pub open spec fn strictly_sorted(t: Seq<u64>) -> bool {
    forall|i: int, j: int| 0 <= i < j < t.len() ==> t[i] < t[j]
}

/// Inserts `k` into the strictly sorted sequence `t`, keeping it strictly
/// sorted; a key already present is left alone.
pub open spec fn spec_insert_key(t: Seq<u64>, k: u64) -> Seq<u64>
    decreases t.len(),
{
    if t.len() == 0 {
        seq![k]
    } else if t.last() == k {
        t
    } else if t.last() < k {
        t.push(k)
    } else {
        spec_insert_key(t.drop_last(), k).push(t.last())
    }
}

/// The strictly sorted sequence of the distinct keys of `s`.
pub open spec fn spec_sorted_keys(s: Seq<u64>) -> Seq<u64>
    decreases s.len(),
{
    if s.len() == 0 {
        Seq::empty()
    } else {
        spec_insert_key(spec_sorted_keys(s.drop_last()), s.last())
    }
}

/// Inserting preserves strict sortedness and adds exactly `k` to the
/// members.
pub proof fn lemma_insert_key_props(t: Seq<u64>, k: u64)
    requires
        strictly_sorted(t),
    ensures
        strictly_sorted(spec_insert_key(t, k)),
        forall|x: u64| #[trigger] spec_insert_key(t, k).contains(x) <==> (t.contains(x) || x == k),
        spec_insert_key(t, k).len() <= t.len() + 1,
    decreases t.len(),
{
    let r = spec_insert_key(t, k);
    if t.len() == 0 {
        assert forall|x: u64| #[trigger] r.contains(x) implies (t.contains(x) || x == k) by {}
        assert(r.contains(k)) by {
            assert(r[0] == k);
        }
    } else if t.last() == k {
        assert(t.contains(k)) by {
            assert(t[t.len() - 1] == k);
        }
    } else if t.last() < k {
        assert forall|x: u64| t.contains(x) || x == k implies #[trigger] r.contains(x) by {
            if x == k {
                assert(r[r.len() - 1] == x);
            } else {
                let i = choose|i: int| 0 <= i < t.len() && t[i] == x;
                assert(r[i] == x);
            }
        }
        assert forall|x: u64| #[trigger] r.contains(x) implies (t.contains(x) || x == k) by {
            let i = choose|i: int| 0 <= i < r.len() && r[i] == x;
            if i < t.len() {
                assert(t[i] == x);
            }
        }
    } else {
        let rest = t.drop_last();
        assert(strictly_sorted(rest));
        lemma_insert_key_props(rest, k);
        let rr = spec_insert_key(rest, k);
        // every member of rr is below t.last(), so pushing t.last() keeps order
        assert forall|i: int, j: int| 0 <= i < j < r.len() implies r[i] < r[j] by {
            if j < r.len() - 1 {
                assert(rr[i] < rr[j]);
            } else {
                assert(r.last() == t.last());
                assert(rr.contains(rr[i]));
                assert(rest.contains(rr[i]) || rr[i] == k);
                if rest.contains(rr[i]) {
                    let m = choose|m: int| 0 <= m < rest.len() && rest[m] == rr[i];
                    assert(t[m] < t.last());
                }
            }
        }
        assert forall|x: u64| #[trigger] r.contains(x) implies (t.contains(x) || x == k) by {
            let i = choose|i: int| 0 <= i < r.len() && r[i] == x;
            if i < r.len() - 1 {
                assert(rr[i] == x);
                assert(rr.contains(x));
                if rest.contains(x) {
                    let m = choose|m: int| 0 <= m < rest.len() && rest[m] == x;
                    assert(t[m] == x);
                }
            } else {
                assert(t[t.len() - 1] == x);
            }
        }
        assert forall|x: u64| t.contains(x) || x == k implies #[trigger] r.contains(x) by {
            if x == k {
                assert(rr.contains(x));
                let m = choose|m: int| 0 <= m < rr.len() && rr[m] == x;
                assert(r[m] == x);
            } else {
                let i = choose|i: int| 0 <= i < t.len() && t[i] == x;
                if i < t.len() - 1 {
                    assert(rest[i] == x);
                    assert(rest.contains(x));
                    assert(rr.contains(x));
                    let m = choose|m: int| 0 <= m < rr.len() && rr[m] == x;
                    assert(r[m] == x);
                } else {
                    assert(r[r.len() - 1] == x);
                }
            }
        }
    }
}

/// The sorted key table is strictly sorted and holds exactly the members
/// of `s`.
pub proof fn lemma_sorted_keys_props(s: Seq<u64>)
    ensures
        strictly_sorted(spec_sorted_keys(s)),
        forall|x: u64| #[trigger] spec_sorted_keys(s).contains(x) <==> s.contains(x),
        spec_sorted_keys(s).len() <= s.len(),
    decreases s.len(),
{
    if s.len() > 0 {
        let rest = s.drop_last();
        lemma_sorted_keys_props(rest);
        lemma_insert_key_props(spec_sorted_keys(rest), s.last());
        assert forall|x: u64| #[trigger] spec_sorted_keys(s).contains(x) implies s.contains(x) by {
            if rest.contains(x) {
                let i = choose|i: int| 0 <= i < rest.len() && rest[i] == x;
                assert(s[i] == x);
            } else {
                assert(s[s.len() - 1] == x);
            }
        }
        assert forall|x: u64| s.contains(x) implies #[trigger] spec_sorted_keys(s).contains(x) by {
            let i = choose|i: int| 0 <= i < s.len() && s[i] == x;
            if i < s.len() - 1 {
                assert(rest[i] == x);
            }
        }
    }
}

/// The position of the first occurrence of `k` in `t`.
pub open spec fn key_index(t: Seq<u64>, k: u64) -> int
    decreases t.len(),
{
    if t.len() == 0 {
        0
    } else if t[0] == k {
        0
    } else {
        1 + key_index(t.drop_first(), k)
    }
}

/// When `k` occurs in `t`, `key_index` is its first occurrence.
pub proof fn lemma_key_index_first(t: Seq<u64>, k: u64)
    requires
        t.contains(k),
    ensures
        0 <= key_index(t, k) < t.len(),
        t[key_index(t, k)] == k,
        forall|j: int| 0 <= j < key_index(t, k) ==> t[j] != k,
    decreases t.len(),
{
    if t[0] != k {
        let rest = t.drop_first();
        assert(rest.contains(k)) by {
            let i = choose|i: int| 0 <= i < t.len() && t[i] == k;
            assert(rest[i - 1] == k);
        }
        lemma_key_index_first(rest, k);
        assert forall|j: int| 0 <= j < key_index(t, k) implies t[j] != k by {
            if j > 0 {
                assert(rest[j - 1] == t[j]);
                assert(rest[j - 1] != k);
            }
        }
    }
}

/// Inserts `k` into the strictly sorted vector `t`, keeping it strictly
/// sorted; equal to the spec-level insertion.
pub fn insert_key(t: Vec<u64>, k: u64) -> (r: Vec<u64>)
    ensures
        r@ == spec_insert_key(t@, k),
    decreases t@.len(),
{
    if t.len() == 0 {
        let mut r: Vec<u64> = Vec::new();
        r.push(k);
        assert(r@ =~= seq![k]);
        r
    } else {
        let last = t[t.len() - 1];
        if last == k {
            t
        } else if last < k {
            let mut r = t;
            r.push(k);
            r
        } else {
            let mut t2 = t;
            let popped = t2.pop();
            assert(t2@ =~= t@.drop_last());
            let mut r = insert_key(t2, k);
            r.push(last);
            r
        }
    }
}

/// Finds the position of `k` in `t` by linear search.
pub fn find_key(t: &Vec<u64>, k: u64) -> (i: usize)
    requires
        t@.contains(k),
    ensures
        i as int == key_index(t@, k),
        i < t@.len(),
        t@[i as int] == k,
{
    let n = t.len();
    let mut i: usize = 0;
    loop
        invariant
            n == t@.len(),
            t@.contains(k),
            i <= t@.len(),
            forall|j: int| 0 <= j < i ==> t@[j] != k,
        decreases t@.len() - i,
    {
        proof {
            lemma_key_index_first(t@, k);
            let ki = key_index(t@, k);
            if ki < i {
                assert(t@[ki] == k);
                assert(false);
            }
            assert(i < t@.len());
        }
        if t[i] == k {
            proof {
                let ki = key_index(t@, k);
                if ki > i {
                    assert(t@[i as int] != k);
                    assert(false);
                }
            }
            return i;
        }
        i = i + 1;
    }
}

} // verus!
