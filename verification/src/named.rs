//! Tables of named items, kept in strictly ascending name order so that a
//! name is found by bisection and occurs at most once.

use vstd::prelude::*;
use crate::text::{rank, text_lt, Rank, lemma_text_lt_transitive, lemma_text_lt_irreflexive,
    lemma_text_lt_total, lemma_text_lt_asymmetric};

verus! {

/// An item that is known by a name.
pub trait Named {
    /// The item's name.
    spec fn name_text(&self) -> Seq<char>;

    /// The item's name.
    fn name_str(&self) -> (s: &str)
        ensures
            s@ == self.name_text(),
    ;
}

/// The names of `s` are strictly ascending.
pub open spec fn names_ascending<T: Named>(s: Seq<T>) -> bool {
    forall|i: int, j: int|
        0 <= i < j < s.len() ==> text_lt((#[trigger] s[i]).name_text(), (#[trigger] s[j]).name_text())
}

/// Some item of `s` is called `name`.
pub open spec fn has_name<T: Named>(s: Seq<T>, name: Seq<char>) -> bool {
    exists|i: int| 0 <= i < s.len() && (#[trigger] s[i]).name_text() == name
}

/// Where `name` stands in `s`: at `Ok(i)` if item `i` carries it, else before
/// item `i` of `Err(i)` and behind all items before that.
pub open spec fn stands_at<T: Named>(s: Seq<T>, name: Seq<char>, at: Result<usize, usize>) -> bool {
    match at {
        Ok(i) => i < s.len() && s[i as int].name_text() == name,
        Err(i) => {
            &&& i <= s.len()
            &&& forall|j: int| 0 <= j < i ==> text_lt((#[trigger] s[j]).name_text(), name)
            &&& forall|j: int| i <= j < s.len() ==> text_lt(name, (#[trigger] s[j]).name_text())
        },
    }
}

/// In an ascending table a name is carried by at most one item.
pub proof fn lemma_names_unique<T: Named>(s: Seq<T>, i: int, j: int)
    requires
        names_ascending(s),
        0 <= i < s.len(),
        0 <= j < s.len(),
        s[i].name_text() == s[j].name_text(),
    ensures
        i == j,
{
    lemma_text_lt_irreflexive(s[i].name_text());
    if i < j {
        assert(text_lt(s[i].name_text(), s[j].name_text()));
    } else if j < i {
        assert(text_lt(s[j].name_text(), s[i].name_text()));
    }
}

/// A name with a place to be inserted at is not in the table.
pub proof fn lemma_absent<T: Named>(s: Seq<T>, name: Seq<char>, at: usize)
    requires
        stands_at(s, name, Err(at)),
    ensures
        !has_name(s, name),
{
    lemma_text_lt_irreflexive(name);
    if has_name(s, name) {
        let i = choose|i: int| 0 <= i < s.len() && (#[trigger] s[i]).name_text() == name;
        if i < at {
            assert(text_lt(s[i].name_text(), name));
        } else {
            assert(text_lt(name, s[i].name_text()));
        }
    }
}

/// Inserting an item at the place where its name stands keeps the table
/// ascending.
pub proof fn lemma_insert_ascending<T: Named>(s: Seq<T>, item: T, at: usize)
    requires
        names_ascending(s),
        stands_at(s, item.name_text(), Err(at)),
    ensures
        names_ascending(s.insert(at as int, item)),
        forall|name: Seq<char>|
            has_name(s.insert(at as int, item), name) <==> has_name(s, name) || name
                == item.name_text(),
{
    let r = s.insert(at as int, item);
    assert forall|i: int, j: int| 0 <= i < j < r.len() implies text_lt(
        (#[trigger] r[i]).name_text(),
        (#[trigger] r[j]).name_text(),
    ) by {
        if i < at {
            assert(r[i] == s[i]);
        } else if i > at {
            assert(r[i] == s[i - 1]);
        }
        if j < at {
            assert(r[j] == s[j]);
        } else if j > at {
            assert(r[j] == s[j - 1]);
        }
    }
    assert forall|name: Seq<char>| has_name(r, name) <==> has_name(s, name) || name
        == item.name_text() by {
        if has_name(r, name) {
            let i = choose|i: int| 0 <= i < r.len() && (#[trigger] r[i]).name_text() == name;
            if i < at {
                assert(s[i] == r[i]);
            } else if i > at {
                assert(s[i - 1] == r[i]);
            }
        }
        if has_name(s, name) {
            let i = choose|i: int| 0 <= i < s.len() && (#[trigger] s[i]).name_text() == name;
            if i < at {
                assert(r[i] == s[i]);
            } else {
                assert(r[i + 1] == s[i]);
            }
        }
        if name == item.name_text() {
            assert(r[at as int] == item);
        }
    }
}

/// Two ascending tables that carry the same names carry them at the same
/// places.
pub proof fn lemma_same_names_same_places<T: Named, U: Named>(a: Seq<T>, b: Seq<U>)
    requires
        names_ascending(a),
        names_ascending(b),
        forall|name: Seq<char>| has_name(a, name) <==> has_name(b, name),
    ensures
        a.len() == b.len(),
        forall|i: int| 0 <= i < a.len() ==> (#[trigger] a[i]).name_text() == b[i].name_text(),
    decreases a.len() + b.len(),
{
    if a.len() == 0 || b.len() == 0 {
        if a.len() > 0 {
            assert(has_name(a, a[0].name_text()));
        }
        if b.len() > 0 {
            assert(has_name(b, b[0].name_text()));
        }
    } else {
        let x = a.last().name_text();
        let y = b.last().name_text();
        // The last name of each table is its greatest, and is in the other.
        assert(has_name(a, x));
        assert(has_name(b, y));
        let j = choose|j: int| 0 <= j < b.len() && (#[trigger] b[j]).name_text() == x;
        let i = choose|i: int| 0 <= i < a.len() && (#[trigger] a[i]).name_text() == y;
        lemma_text_lt_asymmetric(x, y);
        if j < b.len() - 1 {
            assert(text_lt(b[j].name_text(), b[b.len() - 1].name_text()));
        }
        if i < a.len() - 1 {
            assert(text_lt(a[i].name_text(), a[a.len() - 1].name_text()));
        }
        assert(x == y);
        let af = a.drop_last();
        let bf = b.drop_last();
        assert(names_ascending(af)) by {
            assert forall|i: int, j: int| 0 <= i < j < af.len() implies text_lt(
                (#[trigger] af[i]).name_text(),
                (#[trigger] af[j]).name_text(),
            ) by {
                assert(af[i] == a[i] && af[j] == a[j]);
            }
        }
        assert(names_ascending(bf)) by {
            assert forall|i: int, j: int| 0 <= i < j < bf.len() implies text_lt(
                (#[trigger] bf[i]).name_text(),
                (#[trigger] bf[j]).name_text(),
            ) by {
                assert(bf[i] == b[i] && bf[j] == b[j]);
            }
        }
        lemma_text_lt_irreflexive(x);
        assert forall|name: Seq<char>| has_name(af, name) <==> has_name(bf, name) by {
            if has_name(af, name) {
                let k = choose|k: int| 0 <= k < af.len() && (#[trigger] af[k]).name_text() == name;
                assert(af[k] == a[k]);
                assert(text_lt(a[k].name_text(), a[a.len() - 1].name_text()));
                assert(has_name(a, name));
                let m = choose|m: int| 0 <= m < b.len() && (#[trigger] b[m]).name_text() == name;
                assert(m < b.len() - 1);
                assert(bf[m] == b[m]);
            }
            if has_name(bf, name) {
                let k = choose|k: int| 0 <= k < bf.len() && (#[trigger] bf[k]).name_text() == name;
                assert(bf[k] == b[k]);
                assert(text_lt(b[k].name_text(), b[b.len() - 1].name_text()));
                assert(has_name(b, name));
                let m = choose|m: int| 0 <= m < a.len() && (#[trigger] a[m]).name_text() == name;
                assert(m < a.len() - 1);
                assert(af[m] == a[m]);
            }
        }
        lemma_same_names_same_places(af, bf);
        assert forall|i: int| 0 <= i < a.len() implies (#[trigger] a[i]).name_text()
            == b[i].name_text() by {
            if i < af.len() {
                assert(af[i] == a[i] && bf[i] == b[i]);
            }
        }
    }
}

/// Finds where `name` stands in an ascending table.
pub fn find_by_name<T: Named>(items: &Vec<T>, name: &str) -> (at: Result<usize, usize>)
    requires
        names_ascending(items@),
    ensures
        stands_at(items@, name@, at),
        at is Ok <==> has_name(items@, name@),
{
    let mut lo: usize = 0;
    let mut hi: usize = items.len();
    while lo < hi
        invariant
            0 <= lo <= hi <= items.len(),
            names_ascending(items@),
            forall|j: int| 0 <= j < lo ==> text_lt((#[trigger] items@[j]).name_text(), name@),
            forall|j: int| hi <= j < items.len() ==> text_lt(name@, (#[trigger] items@[j]).name_text()),
        decreases hi - lo,
    {
        let mid: usize = lo + (hi - lo) / 2;
        let r = rank(items[mid].name_str(), name);
        let ghost here = items@[mid as int].name_text();
        proof {
            lemma_text_lt_total(here, name@);
        }
        match r {
            Rank::Same => {
                return Ok(mid);
            },
            Rank::Before => {
                proof {
                    assert forall|j: int| 0 <= j < mid + 1 implies text_lt(
                        (#[trigger] items@[j]).name_text(),
                        name@,
                    ) by {
                        if j < mid {
                            assert(text_lt(items@[j].name_text(), items@[mid as int].name_text()));
                            lemma_text_lt_transitive(items@[j].name_text(), here, name@);
                        }
                    }
                }
                lo = mid + 1;
            },
            Rank::After => {
                proof {
                    assert forall|j: int| mid <= j < items.len() implies text_lt(
                        name@,
                        (#[trigger] items@[j]).name_text(),
                    ) by {
                        if j > mid {
                            assert(text_lt(items@[mid as int].name_text(), items@[j].name_text()));
                            lemma_text_lt_transitive(name@, here, items@[j].name_text());
                        }
                    }
                }
                hi = mid;
            },
        }
    }
    proof {
        lemma_absent(items@, name@, lo);
    }
    Err(lo)
}

} // verus!

verus! {

impl Named for String {
    open spec fn name_text(&self) -> Seq<char> {
        self@
    }

    fn name_str(&self) -> (s: &str) {
        self.as_str()
    }
}

/// The names of a table of plain names.
pub open spec fn texts(s: Seq<String>) -> Seq<Seq<char>> {
    Seq::new(s.len(), |i: int| s[i]@)
}

} // verus!

verus! {

/// Whether the names of a table are strictly ascending.
pub fn names_in_order<T: Named>(items: &Vec<T>) -> (r: bool)
    ensures
        r == names_ascending(items@),
{
    if items.len() < 2 {
        return true;
    }
    let mut k: usize = 0;
    while k + 1 < items.len()
        invariant
            0 <= k < items.len(),
            forall|a: int, b: int|
                0 <= a < b <= k ==> text_lt(
                    (#[trigger] items@[a]).name_text(),
                    (#[trigger] items@[b]).name_text(),
                ),
        decreases items.len() - k,
    {
        let r = rank(items[k].name_str(), items[k + 1].name_str());
        if r != Rank::Before {
            proof {
                lemma_text_lt_irreflexive(items@[k as int].name_text());
                assert(!text_lt(items@[k as int].name_text(), items@[k + 1].name_text()));
            }
            return false;
        }
        proof {
            lemma_text_lt_irreflexive(items@[k as int].name_text());
            assert forall|a: int, b: int| 0 <= a < b <= k + 1 implies text_lt(
                (#[trigger] items@[a]).name_text(),
                (#[trigger] items@[b]).name_text(),
            ) by {
                if b == k + 1 && a < k {
                    assert(text_lt(items@[a].name_text(), items@[k as int].name_text()));
                    lemma_text_lt_transitive(
                        items@[a].name_text(),
                        items@[k as int].name_text(),
                        items@[k + 1].name_text(),
                    );
                }
            }
        }
        k = k + 1;
    }
    true
}

/// Whether two lists hold the same names in the same order.
pub fn same_names(a: &Vec<String>, b: &Vec<String>) -> (r: bool)
    ensures
        r == (texts(a@) == texts(b@)),
{
    if a.len() != b.len() {
        proof {
            assert(texts(a@).len() != texts(b@).len());
        }
        return false;
    }
    let mut k: usize = 0;
    while k < a.len()
        invariant
            0 <= k <= a.len(),
            a.len() == b.len(),
            forall|i: int| 0 <= i < k ==> a@[i]@ == b@[i]@,
        decreases a.len() - k,
    {
        if a[k] != b[k] {
            proof {
                assert(texts(a@)[k as int] == a@[k as int]@);
                assert(texts(b@)[k as int] == b@[k as int]@);
            }
            return false;
        }
        k = k + 1;
    }
    proof {
        assert(texts(a@) =~= texts(b@));
    }
    true
}

} // verus!
