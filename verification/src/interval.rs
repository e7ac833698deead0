//! Intervals during which a signal is on, and their merging into the
//! minimal sorted, non-touching form.

use vstd::prelude::*;
use crate::sorting::{ascending, stable_sort, lemma_stable_sort, lemma_stable_insert_at,
    lemma_stable_sort_of_ascending};

verus! {

/// A closed span of time, in milliseconds, during which a signal is on.
#[derive(Clone, Copy, Debug, PartialEq, Eq, Structural)]
pub struct Interval {
    pub start: i64,
    pub end: i64,
}

impl Interval {
    /// An interval does not end before it starts.
    pub open spec fn wf(self) -> bool {
        self.start <= self.end
    }

    /// The half-millisecond position `h` lies in this interval. Position `2 * t`
    /// is the instant `t`; position `2 * t + 1` is the open gap between `t` and
    /// `t + 1`, which tells two touching intervals from two that are a
    /// millisecond apart.
    pub open spec fn covers(self, h: int) -> bool {
        2 * self.start <= h <= 2 * self.end
    }

    /// This interval lies inside `outer`.
    pub open spec fn within(self, outer: Interval) -> bool {
        outer.start <= self.start && self.end <= outer.end
    }
}

/// Every interval of `s` is well-formed.
pub open spec fn all_wf(s: Seq<Interval>) -> bool {
    forall|i: int| 0 <= i < s.len() ==> (#[trigger] s[i]).wf()
}

/// Some interval of `s` covers the half-millisecond position `h`.
pub open spec fn covers(s: Seq<Interval>, h: int) -> bool {
    exists|i: int| 0 <= i < s.len() && (#[trigger] s[i]).covers(h)
}

/// Some interval of `s` holds all of `iv`.
pub open spec fn holds(s: Seq<Interval>, iv: Interval) -> bool {
    exists|j: int| 0 <= j < s.len() && iv.within(#[trigger] s[j])
}

/// The minimal form: well-formed intervals in ascending order, each ending
/// strictly before the next one starts.
pub open spec fn is_merged(s: Seq<Interval>) -> bool {
    &&& all_wf(s)
    &&& forall|i: int, j: int| 0 <= i < j < s.len() ==> (#[trigger] s[i]).end < (#[trigger] s[j]).start
}

/// The key by which intervals are ordered: the start.
pub open spec fn start_key() -> spec_fn(Interval) -> int {
    |iv: Interval| iv.start as int
}

/// One step of the sweep: `iv` is fused into the tail of `acc` when it starts
/// no later than the tail ends, and opens a new tail otherwise.
pub open spec fn fuse(acc: Seq<Interval>, iv: Interval) -> Seq<Interval> {
    if acc.len() > 0 && iv.start <= acc.last().end {
        if iv.end > acc.last().end {
            acc.drop_last().push(Interval { start: acc.last().start, end: iv.end })
        } else {
            acc
        }
    } else {
        acc.push(iv)
    }
}

/// The left-to-right sweep over intervals in start order.
pub open spec fn sweep(s: Seq<Interval>) -> Seq<Interval>
    decreases s.len(),
{
    if s.len() == 0 {
        Seq::empty()
    } else {
        fuse(sweep(s.drop_last()), s.last())
    }
}

/// The merged form of a raw interval list: stable sort by start, then sweep.
pub open spec fn merged(s: Seq<Interval>) -> Seq<Interval> {
    sweep(stable_sort(s, start_key()))
}

proof fn lemma_covers_push(s: Seq<Interval>, x: Interval, h: int)
    ensures
        covers(s.push(x), h) <==> covers(s, h) || x.covers(h),
{
    let r = s.push(x);
    if covers(r, h) {
        let i = choose|i: int| 0 <= i < r.len() && (#[trigger] r[i]).covers(h);
        if i < s.len() {
            assert(s[i].covers(h));
        }
    }
    if covers(s, h) {
        let i = choose|i: int| 0 <= i < s.len() && (#[trigger] s[i]).covers(h);
        assert(r[i].covers(h));
    }
    if x.covers(h) {
        assert(r[s.len() as int].covers(h));
    }
}

proof fn lemma_holds_push(s: Seq<Interval>, x: Interval, iv: Interval)
    ensures
        holds(s.push(x), iv) <==> holds(s, iv) || iv.within(x),
{
    let r = s.push(x);
    if holds(r, iv) {
        let j = choose|j: int| 0 <= j < r.len() && iv.within(#[trigger] r[j]);
        if j < s.len() {
            assert(iv.within(s[j]));
        }
    }
    if holds(s, iv) {
        let j = choose|j: int| 0 <= j < s.len() && iv.within(#[trigger] s[j]);
        assert(iv.within(r[j]));
    }
    if iv.within(x) {
        assert(iv.within(r[s.len() as int]));
    }
}

/// What the sweep makes of well-formed intervals in start order.
proof fn lemma_sweep(s: Seq<Interval>)
    requires
        all_wf(s),
        ascending(s, start_key()),
    ensures
        is_merged(sweep(s)),
        forall|h: int| covers(sweep(s), h) <==> covers(s, h),
        forall|i: int| 0 <= i < s.len() ==> holds(sweep(s), #[trigger] s[i]),
        s.len() > 0 ==> sweep(s).len() > 0 && sweep(s).last().start <= s.last().start,
        sweep(s).len() <= s.len(),
    decreases s.len(),
{
    if s.len() == 0 {
        assert forall|h: int| covers(sweep(s), h) <==> covers(s, h) by {}
    } else {
        let t = s.drop_last();
        let iv = s.last();
        let acc = sweep(t);
        let r = fuse(acc, iv);
        assert(s =~= t.push(iv));
        assert(all_wf(t)) by {
            assert forall|i: int| 0 <= i < t.len() implies (#[trigger] t[i]).wf() by {
                assert(t[i] == s[i]);
            }
        }
        assert(ascending(t, start_key())) by {
            assert forall|i: int, j: int| 0 <= i <= j < t.len() implies start_key()(t[i])
                <= start_key()(t[j]) by {
                assert(t[i] == s[i] && t[j] == s[j]);
            }
        }
        lemma_sweep(t);
        assert(iv.wf());
        if t.len() > 0 {
            assert(start_key()(s[t.len() - 1]) <= start_key()(s[s.len() - 1]));
            assert(t.last() == s[t.len() - 1]);
            assert(acc.last().start <= iv.start);
        }
        if acc.len() > 0 && iv.start <= acc.last().end {
            let tail = acc.last();
            let front = acc.drop_last();
            assert(acc =~= front.push(tail));
            if iv.end > tail.end {
                let grown = Interval { start: tail.start, end: iv.end };
                assert(r == front.push(grown));
                assert(is_merged(r)) by {
                    assert forall|i: int| 0 <= i < r.len() implies (#[trigger] r[i]).wf() by {
                        if i < front.len() {
                            assert(r[i] == acc[i]);
                        }
                    }
                    assert forall|i: int, j: int| 0 <= i < j < r.len() implies (#[trigger] r[i]).end
                        < (#[trigger] r[j]).start by {
                        assert(r[i] == acc[i]);
                        if j < front.len() {
                            assert(r[j] == acc[j]);
                        } else {
                            assert(acc[i].end < acc[j].start);
                        }
                    }
                }
                assert forall|h: int| covers(r, h) <==> covers(s, h) by {
                    lemma_covers_push(front, grown, h);
                    lemma_covers_push(front, tail, h);
                    lemma_covers_push(t, iv, h);
                    assert(grown.covers(h) <==> tail.covers(h) || iv.covers(h));
                }
                assert forall|i: int| 0 <= i < s.len() implies holds(r, #[trigger] s[i]) by {
                    lemma_holds_push(front, grown, s[i]);
                    lemma_holds_push(front, tail, s[i]);
                    if i < t.len() {
                        assert(t[i] == s[i]);
                        assert(holds(acc, t[i]));
                    }
                }
            } else {
                assert forall|h: int| covers(r, h) <==> covers(s, h) by {
                    lemma_covers_push(front, tail, h);
                    lemma_covers_push(t, iv, h);
                }
                assert forall|i: int| 0 <= i < s.len() implies holds(r, #[trigger] s[i]) by {
                    lemma_holds_push(front, tail, s[i]);
                    if i < t.len() {
                        assert(t[i] == s[i]);
                        assert(holds(acc, t[i]));
                    }
                }
            }
        } else {
            assert(r == acc.push(iv));
            assert(is_merged(r)) by {
                assert forall|i: int| 0 <= i < r.len() implies (#[trigger] r[i]).wf() by {
                    if i < acc.len() {
                        assert(r[i] == acc[i]);
                    }
                }
                assert forall|i: int, j: int| 0 <= i < j < r.len() implies (#[trigger] r[i]).end
                    < (#[trigger] r[j]).start by {
                    assert(r[i] == acc[i]);
                    if j < acc.len() {
                        assert(r[j] == acc[j]);
                    } else {
                        assert(acc[i].wf());
                        if i < acc.len() - 1 {
                            assert(acc[i].end < acc[acc.len() - 1].start);
                            assert(acc[acc.len() - 1].wf());
                        }
                    }
                }
            }
            assert forall|h: int| covers(r, h) <==> covers(s, h) by {
                lemma_covers_push(acc, iv, h);
                lemma_covers_push(t, iv, h);
            }
            assert forall|i: int| 0 <= i < s.len() implies holds(r, #[trigger] s[i]) by {
                lemma_holds_push(acc, iv, s[i]);
                if i < t.len() {
                    assert(t[i] == s[i]);
                    assert(holds(acc, t[i]));
                }
            }
        }
    }
}

/// Two minimal forms that cover the same positions are the same list.
proof fn lemma_merged_unique(a: Seq<Interval>, b: Seq<Interval>)
    requires
        is_merged(a),
        is_merged(b),
        forall|h: int| covers(a, h) <==> covers(b, h),
    ensures
        a == b,
    decreases a.len() + b.len(),
{
    if a.len() == 0 || b.len() == 0 {
        if a.len() > 0 {
            assert(a[0].covers(2 * a[0].start));
            assert(covers(a, 2 * a[0].start));
        }
        if b.len() > 0 {
            assert(b[0].covers(2 * b[0].start));
            assert(covers(b, 2 * b[0].start));
        }
        assert(a =~= b);
    } else {
        let x = a.last();
        let y = b.last();
        lemma_last_of_merged(a, b);
        lemma_last_of_merged(b, a);
        assert(x == y);
        let af = a.drop_last();
        let bf = b.drop_last();
        lemma_front_of_merged(a);
        lemma_front_of_merged(b);
        assert forall|h: int| covers(af, h) <==> covers(bf, h) by {
            assert(covers(a, h) <==> covers(b, h));
        }
        lemma_merged_unique(af, bf);
        assert(a =~= af.push(x));
        assert(b =~= bf.push(y));
    }
}

/// The last interval of a minimal form reaches at least as far, at both ends,
/// as that of any minimal form covering the same positions.
proof fn lemma_last_of_merged(a: Seq<Interval>, b: Seq<Interval>)
    requires
        is_merged(a),
        is_merged(b),
        a.len() > 0,
        b.len() > 0,
        forall|h: int| covers(a, h) <==> covers(b, h),
    ensures
        a.last().end <= b.last().end,
        a.last().start >= b.last().start,
{
    let x = a.last();
    let y = b.last();
    assert(a[a.len() - 1].wf() && b[b.len() - 1].wf());
    // The end of x is covered, so some interval of b reaches it.
    assert(a[a.len() - 1].covers(2 * x.end));
    assert(covers(b, 2 * x.end));
    let j = choose|j: int| 0 <= j < b.len() && (#[trigger] b[j]).covers(2 * x.end);
    if j < b.len() - 1 {
        assert(b[j].end < b[b.len() - 1].start);
    }
    assert(x.end <= y.end);
    // The same from b to a gives equal ends.
    assert(b[b.len() - 1].covers(2 * y.end));
    assert(covers(a, 2 * y.end));
    let i = choose|i: int| 0 <= i < a.len() && (#[trigger] a[i]).covers(2 * y.end);
    if i < a.len() - 1 {
        assert(a[i].end < a[a.len() - 1].start);
    }
    assert(y.end <= x.end);
    if x.start < y.start {
        // Just before y starts, a is on and b is off.
        let h = 2 * y.start - 1;
        assert(a[a.len() - 1].covers(h));
        assert(covers(b, h));
        let k = choose|k: int| 0 <= k < b.len() && (#[trigger] b[k]).covers(h);
        if k < b.len() - 1 {
            assert(b[k].end < b[b.len() - 1].start);
        }
        assert(false);
    }
}

/// Dropping the last interval of a minimal form leaves a minimal form that
/// covers what lay before that interval.
proof fn lemma_front_of_merged(a: Seq<Interval>)
    requires
        is_merged(a),
        a.len() > 0,
    ensures
        is_merged(a.drop_last()),
        forall|h: int| covers(a.drop_last(), h) <==> covers(a, h) && h < 2 * a.last().start,
{
    let f = a.drop_last();
    assert forall|i: int| 0 <= i < f.len() implies (#[trigger] f[i]).wf() by {
        assert(f[i] == a[i]);
    }
    assert forall|i: int, j: int| 0 <= i < j < f.len() implies (#[trigger] f[i]).end
        < (#[trigger] f[j]).start by {
        assert(f[i] == a[i] && f[j] == a[j]);
    }
    assert(a =~= f.push(a.last()));
    assert forall|h: int| covers(f, h) <==> covers(a, h) && h < 2 * a.last().start by {
        lemma_covers_push(f, a.last(), h);
        if covers(f, h) {
            let i = choose|i: int| 0 <= i < f.len() && (#[trigger] f[i]).covers(h);
            assert(f[i] == a[i]);
            assert(a[i].end < a[a.len() - 1].start);
        }
    }
}

/// Lists with the same intervals, in whatever order, cover the same positions.
proof fn lemma_covers_permutation(a: Seq<Interval>, b: Seq<Interval>, h: int)
    requires
        a.to_multiset() == b.to_multiset(),
    ensures
        covers(a, h) <==> covers(b, h),
{
    broadcast use vstd::seq_lib::to_multiset_contains;
    if covers(a, h) {
        let i = choose|i: int| 0 <= i < a.len() && (#[trigger] a[i]).covers(h);
        assert(a.contains(a[i]));
        assert(b.to_multiset().count(a[i]) > 0);
        assert(b.contains(a[i]));
        let j = choose|j: int| 0 <= j < b.len() && b[j] == a[i];
        assert(b[j].covers(h));
    }
    if covers(b, h) {
        let i = choose|i: int| 0 <= i < b.len() && (#[trigger] b[i]).covers(h);
        assert(b.contains(b[i]));
        assert(a.to_multiset().count(b[i]) > 0);
        assert(a.contains(b[i]));
        let j = choose|j: int| 0 <= j < a.len() && a[j] == b[i];
        assert(a[j].covers(h));
    }
}

proof fn lemma_all_wf_permutation(a: Seq<Interval>, b: Seq<Interval>)
    requires
        a.to_multiset() == b.to_multiset(),
        all_wf(a),
    ensures
        all_wf(b),
{
    broadcast use vstd::seq_lib::to_multiset_contains;
    assert forall|i: int| 0 <= i < b.len() implies (#[trigger] b[i]).wf() by {
        assert(b.contains(b[i]));
        assert(a.to_multiset().count(b[i]) > 0);
        assert(a.contains(b[i]));
        let j = choose|j: int| 0 <= j < a.len() && a[j] == b[i];
        assert(a[j].wf());
    }
}

/// Merging well-formed intervals gives the minimal form of what they cover:
/// every input interval lies inside one interval of the result, the result
/// covers nothing that the input does not, and no two intervals of the result
/// overlap or touch.
pub proof fn lemma_merged_covers(s: Seq<Interval>)
    requires
        all_wf(s),
    ensures
        is_merged(merged(s)),
        forall|i: int| 0 <= i < s.len() ==> holds(merged(s), #[trigger] s[i]),
        forall|h: int| covers(merged(s), h) <==> covers(s, h),
        forall|i: int|
            0 <= i < merged(s).len() - 1 ==> (#[trigger] merged(s)[i]).end < merged(s)[i + 1].start,
        merged(s).len() <= s.len(),
{
    broadcast use vstd::seq_lib::to_multiset_contains;
    let t = stable_sort(s, start_key());
    lemma_stable_sort(s, start_key());
    lemma_all_wf_permutation(s, t);
    lemma_sweep(t);
    assert forall|h: int| covers(merged(s), h) <==> covers(s, h) by {
        lemma_covers_permutation(s, t, h);
    }
    assert forall|i: int| 0 <= i < s.len() implies holds(merged(s), #[trigger] s[i]) by {
        assert(s.contains(s[i]));
        assert(t.to_multiset().count(s[i]) > 0);
        assert(t.contains(s[i]));
        let j = choose|j: int| 0 <= j < t.len() && t[j] == s[i];
        assert(holds(sweep(t), t[j]));
    }
}

/// Merging a list that is already in minimal form returns it unchanged.
pub proof fn lemma_merge_idempotent(s: Seq<Interval>)
    requires
        is_merged(s),
    ensures
        merged(s) == s,
{
    lemma_merged_covers(s);
    lemma_merged_unique(merged(s), s);
}

/// Merging twice is merging once.
pub proof fn lemma_merge_twice(s: Seq<Interval>)
    requires
        all_wf(s),
    ensures
        merged(merged(s)) == merged(s),
{
    lemma_merged_covers(s);
    lemma_merge_idempotent(merged(s));
}

/// The merged form does not depend on the order of the raw intervals.
pub proof fn lemma_merge_order_independent(a: Seq<Interval>, b: Seq<Interval>)
    requires
        all_wf(a),
        a.to_multiset() == b.to_multiset(),
    ensures
        merged(a) == merged(b),
{
    lemma_all_wf_permutation(a, b);
    lemma_merged_covers(a);
    lemma_merged_covers(b);
    assert forall|h: int| covers(merged(a), h) <==> covers(merged(b), h) by {
        lemma_covers_permutation(a, b, h);
    }
    lemma_merged_unique(merged(a), merged(b));
}

/// The intervals of `v` in ascending start order; intervals that start
/// together keep their order.
pub fn sort_by_start(v: &Vec<Interval>) -> (out: Vec<Interval>)
    ensures
        out@ == stable_sort(v@, start_key()),
        ascending(out@, start_key()),
        out@.to_multiset() == v@.to_multiset(),
        ascending(v@, start_key()) ==> out@ == v@,
{
    let mut out: Vec<Interval> = Vec::new();
    let mut k: usize = 0;
    while k < v.len()
        invariant
            0 <= k <= v.len(),
            out@ == stable_sort(v@.take(k as int), start_key()),
        decreases v.len() - k,
    {
        let iv = v[k];
        let mut pos: usize = out.len();
        proof {
            lemma_stable_sort(v@.take(k as int), start_key());
        }
        while pos > 0 && out[pos - 1].start > iv.start
            invariant
                0 <= pos <= out.len(),
                forall|j: int| pos <= j < out.len() ==> start_key()(#[trigger] out@[j]) > start_key()(iv),
            decreases pos,
        {
            pos = pos - 1;
        }
        proof {
            lemma_stable_insert_at(out@, iv, start_key(), pos as int);
            assert(v@.take(k + 1).drop_last() =~= v@.take(k as int));
            assert(v@.take(k + 1).last() == iv);
        }
        out.insert(pos, iv);
        k = k + 1;
    }
    proof {
        assert(v@.take(v.len() as int) =~= v@);
        lemma_stable_sort(v@, start_key());
        if ascending(v@, start_key()) {
            lemma_stable_sort_of_ascending(v@, start_key());
        }
    }
    out
}

/// The sweep over intervals that are already in start order.
pub fn sweep_sorted(v: &Vec<Interval>) -> (out: Vec<Interval>)
    ensures
        out@ == sweep(v@),
{
    let mut out: Vec<Interval> = Vec::new();
    let mut k: usize = 0;
    while k < v.len()
        invariant
            0 <= k <= v.len(),
            out@ == sweep(v@.take(k as int)),
        decreases v.len() - k,
    {
        let iv = v[k];
        proof {
            assert(v@.take(k + 1).drop_last() =~= v@.take(k as int));
            assert(v@.take(k + 1).last() == iv);
        }
        let n: usize = out.len();
        if n > 0 && iv.start <= out[n - 1].end {
            let tail = out[n - 1];
            if iv.end > tail.end {
                let ghost before = out@;
                out.set(n - 1, Interval { start: tail.start, end: iv.end });
                proof {
                    assert(out@ =~= before.drop_last().push(
                        Interval { start: tail.start, end: iv.end },
                    ));
                }
            }
        } else {
            out.push(iv);
        }
        k = k + 1;
    }
    proof {
        assert(v@.take(v.len() as int) =~= v@);
    }
    out
}

/// Collapses a raw interval list into its merged form: sorted by start, with
/// every run of overlapping or touching intervals fused into one.
pub fn merge_intervals(raw: &Vec<Interval>) -> (out: Vec<Interval>)
    ensures
        out@ == merged(raw@),
        all_wf(raw@) ==> is_merged(out@),
        all_wf(raw@) ==> forall|i: int| 0 <= i < raw.len() ==> holds(out@, #[trigger] raw@[i]),
        all_wf(raw@) ==> forall|h: int| covers(out@, h) <==> covers(raw@, h),
{
    let sorted = sort_by_start(raw);
    let out = sweep_sorted(&sorted);
    proof {
        if all_wf(raw@) {
            lemma_merged_covers(raw@);
        }
    }
    out
}

} // verus!
