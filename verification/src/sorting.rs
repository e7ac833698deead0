//! Stable ordering of a sequence by an integer key.
//!
//! The model is insertion from the back: an element is placed behind every
//! element whose key is not larger than its own, so elements with equal keys
//! keep the order in which they arrived.

use vstd::prelude::*;

verus! {

/// `s` is in ascending key order.
pub open spec fn ascending<T>(s: Seq<T>, key: spec_fn(T) -> int) -> bool {
    forall|i: int, j: int| 0 <= i <= j < s.len() ==> key(s[i]) <= key(s[j])
}

/// The predicate "has key `k`".
pub open spec fn keyed<T>(key: spec_fn(T) -> int, k: int) -> spec_fn(T) -> bool {
    |x: T| key(x) == k
}

/// `x` placed behind the last element of `s` whose key is at most `key(x)`.
pub open spec fn stable_insert<T>(s: Seq<T>, x: T, key: spec_fn(T) -> int) -> Seq<T>
    decreases s.len(),
{
    if s.len() == 0 {
        seq![x]
    } else if key(s.last()) <= key(x) {
        s.push(x)
    } else {
        stable_insert(s.drop_last(), x, key).push(s.last())
    }
}

/// The elements of `s` in ascending key order, ties in the order in which
/// they stood.
pub open spec fn stable_sort<T>(s: Seq<T>, key: spec_fn(T) -> int) -> Seq<T>
    decreases s.len(),
{
    if s.len() == 0 {
        Seq::empty()
    } else {
        stable_insert(stable_sort(s.drop_last(), key), s.last(), key)
    }
}

/// Where `stable_insert` puts `x`: at the one position that has no larger key
/// before it and only larger keys from it on.
pub proof fn lemma_stable_insert_at<T>(s: Seq<T>, x: T, key: spec_fn(T) -> int, pos: int)
    requires
        0 <= pos <= s.len(),
        forall|j: int| pos <= j < s.len() ==> key(#[trigger] s[j]) > key(x),
        pos > 0 ==> key(s[pos - 1]) <= key(x),
    ensures
        stable_insert(s, x, key) == s.insert(pos, x),
    decreases s.len(),
{
    if s.len() == 0 {
        assert(s.insert(pos, x) =~= seq![x]);
    } else if pos == s.len() {
        assert(s.insert(pos, x) =~= s.push(x));
    } else {
        assert(key(s[s.len() - 1]) > key(x));
        let t = s.drop_last();
        assert forall|j: int| pos <= j < t.len() implies key(#[trigger] t[j]) > key(x) by {
            assert(t[j] == s[j]);
        }
        if pos > 0 {
            assert(t[pos - 1] == s[pos - 1]);
        }
        lemma_stable_insert_at(t, x, key, pos);
        assert(t.insert(pos, x).push(s.last()) =~= s.insert(pos, x));
    }
}

/// Inserting keeps every element and adds `x`.
pub proof fn lemma_stable_insert_multiset<T>(s: Seq<T>, x: T, key: spec_fn(T) -> int)
    ensures
        stable_insert(s, x, key).to_multiset() == s.to_multiset().insert(x),
        stable_insert(s, x, key).len() == s.len() + 1,
    decreases s.len(),
{
    broadcast use vstd::seq_lib::to_multiset_build;
    if s.len() == 0 {
        assert(seq![x] =~= Seq::<T>::empty().push(x));
        assert(s =~= Seq::<T>::empty());
    } else if key(s.last()) <= key(x) {
    } else {
        let t = s.drop_last();
        lemma_stable_insert_multiset(t, x, key);
        assert(s =~= t.push(s.last()));
        assert(stable_insert(s, x, key).to_multiset() =~= s.to_multiset().insert(x));
    }
}

/// Inserting into an ascending sequence leaves it ascending.
pub proof fn lemma_stable_insert_ascending<T>(s: Seq<T>, x: T, key: spec_fn(T) -> int)
    requires
        ascending(s, key),
    ensures
        ascending(stable_insert(s, x, key), key),
        forall|i: int| 0 <= i < stable_insert(s, x, key).len() ==> 
            (#[trigger] stable_insert(s, x, key)[i] == x
            || s.contains(stable_insert(s, x, key)[i])),
    decreases s.len(),
{
    let r = stable_insert(s, x, key);
    if s.len() == 0 {
    } else if key(s.last()) <= key(x) {
        assert forall|i: int, j: int| 0 <= i <= j < r.len() implies key(r[i]) <= key(r[j]) by {
            if j == s.len() && i < s.len() {
                assert(key(s[i]) <= key(s[s.len() - 1]));
            }
        }
        assert forall|i: int| 0 <= i < r.len() implies (#[trigger] r[i] == x || s.contains(r[i])) by {
            if i < s.len() {
                assert(s[i] == r[i]);
            }
        }
    } else {
        let t = s.drop_last();
        assert(ascending(t, key)) by {
            assert forall|i: int, j: int| 0 <= i <= j < t.len() implies key(t[i]) <= key(t[j]) by {
                assert(t[i] == s[i] && t[j] == s[j]);
            }
        }
        lemma_stable_insert_ascending(t, x, key);
        lemma_stable_insert_multiset(t, x, key);
        let u = stable_insert(t, x, key);
        assert forall|i: int| 0 <= i < u.len() implies key(#[trigger] u[i]) <= key(s.last()) by {
            if u[i] == x {
            } else {
                assert(t.contains(u[i]));
                let k = choose|k: int| 0 <= k < t.len() && t[k] == u[i];
                assert(key(s[k]) <= key(s[s.len() - 1]));
            }
        }
        assert forall|i: int, j: int| 0 <= i <= j < r.len() implies key(r[i]) <= key(r[j]) by {
            if j < u.len() {
                assert(r[i] == u[i] && r[j] == u[j]);
            } else if i < u.len() {
                assert(r[i] == u[i]);
            }
        }
        assert forall|i: int| 0 <= i < r.len() implies (#[trigger] r[i] == x || s.contains(r[i])) by {
            if i < u.len() {
                assert(r[i] == u[i]);
                if u[i] != x {
                    let k = choose|k: int| 0 <= k < t.len() && t[k] == u[i];
                    assert(s[k] == u[i]);
                }
            } else {
                assert(r[i] == s[s.len() - 1]);
            }
        }
    }
}

/// Inserting `x` appends it to the elements that share its key and leaves the
/// elements of every other key as they were.
pub proof fn lemma_stable_insert_ties<T>(s: Seq<T>, x: T, key: spec_fn(T) -> int, k: int)
    ensures
        stable_insert(s, x, key).filter(keyed(key, k)) == if key(x) == k {
            s.filter(keyed(key, k)).push(x)
        } else {
            s.filter(keyed(key, k))
        },
    decreases s.len(),
{
    broadcast use Seq::lemma_filter_push;
    let p = keyed(key, k);
    if s.len() == 0 {
        assert(seq![x] =~= Seq::<T>::empty().push(x));
        assert(s =~= Seq::<T>::empty());
        assert(Seq::<T>::empty().filter(p) =~= Seq::<T>::empty()) by {
            reveal(Seq::filter);
        }
    } else if key(s.last()) <= key(x) {
    } else {
        let t = s.drop_last();
        lemma_stable_insert_ties(t, x, key, k);
        assert(s =~= t.push(s.last()));
        assert(!(p(x) && p(s.last())));
    }
}

/// A stably sorted sequence is ascending, holds exactly the elements it was
/// made from, and keeps the elements of each key in the order in which they stood.
pub proof fn lemma_stable_sort<T>(s: Seq<T>, key: spec_fn(T) -> int)
    ensures
        ascending(stable_sort(s, key), key),
        stable_sort(s, key).to_multiset() == s.to_multiset(),
        stable_sort(s, key).len() == s.len(),
        forall|k: int| #[trigger] stable_sort(s, key).filter(keyed(key, k)) == s.filter(keyed(key, k)),
    decreases s.len(),
{
    broadcast use vstd::seq_lib::to_multiset_build;
    broadcast use Seq::lemma_filter_push;
    if s.len() == 0 {
        assert(s =~= Seq::<T>::empty());
    } else {
        let t = s.drop_last();
        lemma_stable_sort(t, key);
        lemma_stable_insert_ascending(stable_sort(t, key), s.last(), key);
        lemma_stable_insert_multiset(stable_sort(t, key), s.last(), key);
        assert(s =~= t.push(s.last()));
        assert forall|k: int| #[trigger] stable_sort(s, key).filter(keyed(key, k)) == s.filter(keyed(key, k)) by {
            lemma_stable_insert_ties(stable_sort(t, key), s.last(), key, k);
            assert(stable_sort(t, key).filter(keyed(key, k)) == t.filter(keyed(key, k)));
        }
    }
}

/// Sorting an ascending sequence changes nothing.
pub proof fn lemma_stable_sort_of_ascending<T>(s: Seq<T>, key: spec_fn(T) -> int)
    requires
        ascending(s, key),
    ensures
        stable_sort(s, key) == s,
    decreases s.len(),
{
    if s.len() == 0 {
        assert(s =~= Seq::<T>::empty());
    } else {
        let t = s.drop_last();
        assert(ascending(t, key)) by {
            assert forall|i: int, j: int| 0 <= i <= j < t.len() implies key(t[i]) <= key(t[j]) by {
                assert(t[i] == s[i] && t[j] == s[j]);
            }
        }
        lemma_stable_sort_of_ascending(t, key);
        if t.len() > 0 {
            assert(key(s[t.len() - 1]) <= key(s[s.len() - 1]));
            assert(t.last() == s[t.len() - 1]);
        }
        assert(t.push(s.last()) =~= s);
    }
}

} // verus!
