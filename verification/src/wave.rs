//! The step-function polyline of a signal: low at the baseline while the
//! signal is off, one unit higher while it is on.

use vstd::prelude::*;
use crate::interval::Interval;

verus! {

/// A corner of a waveform.
#[derive(Clone, Copy, Debug, PartialEq, Eq, Structural)]
pub struct WavePoint {
    /// Time, in milliseconds.
    pub x: i64,
    /// Height: the baseline, or one above it.
    pub y: u64,
}

/// Where the line stands after the intervals `ivs`: at the end of the last
/// one, or at the start of the time range.
pub open spec fn cursor_after(ivs: Seq<Interval>, min_t: i64) -> i64 {
    if ivs.len() == 0 {
        min_t
    } else {
        ivs.last().end
    }
}

/// The line up to the end of the last interval. It starts at the baseline at
/// `min_t`; each interval adds a baseline point at its start if the line
/// stands before it, then the rise, the fall and the drop to the baseline.
pub open spec fn wave_through(ivs: Seq<Interval>, min_t: i64, offset: u64) -> Seq<WavePoint>
    decreases ivs.len(),
{
    if ivs.len() == 0 {
        seq![WavePoint { x: min_t, y: offset }]
    } else {
        let iv = ivs.last();
        let before = wave_through(ivs.drop_last(), min_t, offset);
        let high = (offset + 1) as u64;
        let lead = if iv.start > cursor_after(ivs.drop_last(), min_t) {
            before.push(WavePoint { x: iv.start, y: offset })
        } else {
            before
        };
        lead.push(WavePoint { x: iv.start, y: high }).push(WavePoint { x: iv.end, y: high }).push(
            WavePoint { x: iv.end, y: offset },
        )
    }
}

/// The whole line: through the intervals, then on to `max_t` along the
/// baseline if the line stands before it.
pub open spec fn wave_of(ivs: Seq<Interval>, min_t: i64, max_t: i64, offset: u64) -> Seq<WavePoint> {
    if cursor_after(ivs, min_t) < max_t {
        wave_through(ivs, min_t, offset).push(WavePoint { x: max_t, y: offset })
    } else {
        wave_through(ivs, min_t, offset)
    }
}

/// The shape of a waveform: it starts at the baseline at `min_t`, ends at the
/// baseline, and every point lies on the baseline or one above it.
pub proof fn lemma_wave_shape(ivs: Seq<Interval>, min_t: i64, max_t: i64, offset: u64)
    requires
        offset < u64::MAX,
    ensures
        wave_of(ivs, min_t, max_t, offset).len() >= 1,
        wave_of(ivs, min_t, max_t, offset).first() == (WavePoint { x: min_t, y: offset }),
        wave_of(ivs, min_t, max_t, offset).last().y == offset,
        forall|i: int|
            0 <= i < wave_of(ivs, min_t, max_t, offset).len() ==> {
                let p = #[trigger] wave_of(ivs, min_t, max_t, offset)[i];
                p.y == offset || p.y == offset + 1
            },
        wave_of(ivs, min_t, max_t, offset).len() <= 4 * ivs.len() + 2,
{
    lemma_wave_through_shape(ivs, min_t, offset);
}

proof fn lemma_wave_through_shape(ivs: Seq<Interval>, min_t: i64, offset: u64)
    requires
        offset < u64::MAX,
    ensures
        1 <= wave_through(ivs, min_t, offset).len() <= 4 * ivs.len() + 1,
        wave_through(ivs, min_t, offset).first() == (WavePoint { x: min_t, y: offset }),
        wave_through(ivs, min_t, offset).last() == (WavePoint {
            x: cursor_after(ivs, min_t),
            y: offset,
        }),
        forall|i: int|
            0 <= i < wave_through(ivs, min_t, offset).len() ==> {
                let p = #[trigger] wave_through(ivs, min_t, offset)[i];
                p.y == offset || p.y == offset + 1
            },
    decreases ivs.len(),
{
    if ivs.len() > 0 {
        lemma_wave_through_shape(ivs.drop_last(), min_t, offset);
        let w = wave_through(ivs, min_t, offset);
        let before = wave_through(ivs.drop_last(), min_t, offset);
        assert forall|i: int| 0 <= i < w.len() implies {
            let p = #[trigger] w[i];
            p.y == offset || p.y == offset + 1
        } by {
            if i < before.len() {
                assert(w[i] == before[i]);
            }
        }
        assert(w[0] == before[0]);
    }
}

/// Draws a signal's merged intervals as a step function over the time range
/// from `min_t` to `max_t`, with `offset` as the baseline.
pub fn build_digital_wave(on_intervals: &Vec<Interval>, min_t: i64, max_t: i64, offset: u64) -> (points: Vec<WavePoint>)
    requires
        offset < u64::MAX,
    ensures
        points@ == wave_of(on_intervals@, min_t, max_t, offset),
{
    let mut points: Vec<WavePoint> = Vec::new();
    let mut current_x: i64 = min_t;
    points.push(WavePoint { x: current_x, y: offset });
    let mut k: usize = 0;
    proof {
        assert(on_intervals@.take(0) =~= Seq::<Interval>::empty());
        assert(points@ =~= seq![WavePoint { x: min_t, y: offset }]);
    }
    while k < on_intervals.len()
        invariant
            0 <= k <= on_intervals.len(),
            offset < u64::MAX,
            points@ == wave_through(on_intervals@.take(k as int), min_t, offset),
            current_x == cursor_after(on_intervals@.take(k as int), min_t),
        decreases on_intervals.len() - k,
    {
        let iv = on_intervals[k];
        proof {
            assert(on_intervals@.take(k + 1).drop_last() =~= on_intervals@.take(k as int));
            assert(on_intervals@.take(k + 1).last() == iv);
        }
        if iv.start > current_x {
            points.push(WavePoint { x: iv.start, y: offset });
        }
        points.push(WavePoint { x: iv.start, y: offset + 1 });
        points.push(WavePoint { x: iv.end, y: offset + 1 });
        points.push(WavePoint { x: iv.end, y: offset });
        current_x = iv.end;
        k = k + 1;
    }
    proof {
        assert(on_intervals@.take(on_intervals.len() as int) =~= on_intervals@);
    }
    if current_x < max_t {
        points.push(WavePoint { x: max_t, y: offset });
    }
    points
}

} // verus!

verus! {

/// The points of `w` go from left to right: no point lies before an earlier
/// one.
pub open spec fn advances(w: Seq<WavePoint>) -> bool {
    forall|i: int, j: int| 0 <= i <= j < w.len() ==> (#[trigger] w[i]).x <= (#[trigger] w[j]).x
}

proof fn lemma_wave_through_advances(ivs: Seq<Interval>, min_t: i64, offset: u64)
    requires
        crate::interval::is_merged(ivs),
        ivs.len() > 0 ==> min_t <= ivs[0].start,
    ensures
        advances(wave_through(ivs, min_t, offset)),
        forall|i: int|
            0 <= i < wave_through(ivs, min_t, offset).len() ==> (#[trigger] wave_through(
                ivs,
                min_t,
                offset,
            )[i]).x <= cursor_after(ivs, min_t),
    decreases ivs.len(),
{
    if ivs.len() > 0 {
        let front = ivs.drop_last();
        let iv = ivs.last();
        assert(crate::interval::is_merged(front)) by {
            assert forall|i: int| 0 <= i < front.len() implies (#[trigger] front[i]).wf() by {
                assert(front[i] == ivs[i]);
            }
            assert forall|i: int, j: int| 0 <= i < j < front.len() implies (#[trigger] front[i]).end
                < (#[trigger] front[j]).start by {
                assert(front[i] == ivs[i] && front[j] == ivs[j]);
            }
        }
        if front.len() > 0 {
            assert(front[0] == ivs[0]);
            assert(front.last() == ivs[front.len() - 1]);
            assert(ivs[front.len() - 1].end < ivs[ivs.len() - 1].start);
        }
        lemma_wave_through_advances(front, min_t, offset);
        assert(ivs[ivs.len() - 1].wf());
        let before = wave_through(front, min_t, offset);
        let w = wave_through(ivs, min_t, offset);
        let c = cursor_after(front, min_t);
        assert(c <= iv.start);
        let lead = if iv.start > c {
            before.push(WavePoint { x: iv.start, y: offset })
        } else {
            before
        };
        assert forall|i: int| 0 <= i < lead.len() implies (#[trigger] lead[i]).x <= iv.start by {
            if i < before.len() {
                assert(lead[i] == before[i]);
            }
        }
        assert(advances(lead)) by {
            assert forall|i: int, j: int| 0 <= i <= j < lead.len() implies (#[trigger] lead[i]).x
                <= (#[trigger] lead[j]).x by {
                if j < before.len() {
                    assert(lead[i] == before[i] && lead[j] == before[j]);
                }
            }
        }
        assert forall|i: int, j: int| 0 <= i <= j < w.len() implies (#[trigger] w[i]).x
            <= (#[trigger] w[j]).x by {
            if i < lead.len() {
                assert(w[i] == lead[i]);
            }
            if j < lead.len() {
                assert(w[j] == lead[j]);
            }
        }
        assert forall|i: int| 0 <= i < w.len() implies (#[trigger] w[i]).x <= iv.end by {
            if i < lead.len() {
                assert(w[i] == lead[i]);
            }
        }
    }
}

/// Over merged intervals that lie inside the time range, the waveform goes
/// from left to right.
pub proof fn lemma_wave_advances(ivs: Seq<Interval>, min_t: i64, max_t: i64, offset: u64)
    requires
        crate::interval::is_merged(ivs),
        ivs.len() > 0 ==> min_t <= ivs[0].start,
    ensures
        advances(wave_of(ivs, min_t, max_t, offset)),
{
    lemma_wave_through_advances(ivs, min_t, offset);
    let t = wave_through(ivs, min_t, offset);
    let w = wave_of(ivs, min_t, max_t, offset);
    assert forall|i: int, j: int| 0 <= i <= j < w.len() implies (#[trigger] w[i]).x <= (#[trigger] w[j]).x by {
        if i < t.len() {
            assert(w[i] == t[i]);
        }
        if j < t.len() {
            assert(w[j] == t[j]);
        }
    }
}

} // verus!
