//! Signals and the reading of events into their on-intervals.

use vstd::prelude::*;
use crate::event::{text_of, Event, EventKind, EventValue, lemma_tags_differ};
use crate::interval::{merge_intervals, merged, Interval};
use crate::named::{find_by_name, names_ascending, Named, lemma_names_unique};
use crate::text::same_text;
use crate::timestamp::{ARROW_WIDTH_MS, PULSE_WIDTH_MS};

verus! {

/// A named timeline of on-intervals.
#[derive(Clone, Debug, PartialEq, Eq)]
pub struct SignalData {
    pub name: String,
    /// The group that the signal belongs to, if any.
    pub group: Option<String>,
    pub on_intervals: Vec<Interval>,
    /// The time of an `ON` that still waits for its `OFF`.
    pub open_start: Option<i64>,
    pub visible: bool,
}

/// A signal as a value of the model.
pub struct SignalView {
    pub name: Seq<char>,
    pub group: Option<Seq<char>>,
    pub on_intervals: Seq<Interval>,
    pub open_start: Option<i64>,
    pub visible: bool,
}

impl View for SignalData {
    type V = SignalView;

    open spec fn view(&self) -> SignalView {
        SignalView {
            name: self.name@,
            group: text_of(self.group),
            on_intervals: self.on_intervals@,
            open_start: self.open_start,
            visible: self.visible,
        }
    }
}

impl Named for SignalData {
    open spec fn name_text(&self) -> Seq<char> {
        self.name@
    }

    fn name_str(&self) -> (s: &str) {
        self.name.as_str()
    }
}

/// The event's value is the text `word`.
pub open spec fn says(e: Event, word: Seq<char>) -> bool {
    match e.value {
        EventValue::Text(t) => t@ == word,
        _ => false,
    }
}

/// The interval that an event adds to a signal whose pending `ON`, if any,
/// came at `open`.
///
/// - on/off: an `OFF` closes a pending `ON` into the interval between the two;
///   without a pending `ON` it adds nothing, and neither does any other value;
/// - pulse: a number gives an interval of the pulse width from the event's
///   time on, whatever the number; any other value gives nothing;
/// - arrow, or any other kind: an interval of the arrow width from the
///   event's time on.
pub open spec fn emitted(open: Option<i64>, e: Event) -> Option<Interval> {
    match e.kind {
        EventKind::OnOff => match open {
            Some(start) => if says(e, "OFF"@) {
                Some(Interval { start, end: e.time })
            } else {
                None
            },
            None => None,
        },
        EventKind::Pulse => match e.value {
            EventValue::Number(_) => Some(
                Interval { start: e.time, end: (e.time + PULSE_WIDTH_MS) as i64 },
            ),
            _ => None,
        },
        _ => Some(Interval { start: e.time, end: (e.time + ARROW_WIDTH_MS) as i64 }),
    }
}

/// The pending `ON` of a signal after an event: an `ON` sets it to the
/// event's time, replacing an earlier one; an `OFF` clears it; nothing else
/// touches it.
pub open spec fn pending(open: Option<i64>, e: Event) -> Option<i64> {
    match e.kind {
        EventKind::OnOff => if says(e, "ON"@) {
            Some(e.time)
        } else if says(e, "OFF"@) {
            None
        } else {
            open
        },
        _ => open,
    }
}

/// A signal after one of its events.
pub open spec fn applied(s: SignalView, e: Event) -> SignalView {
    SignalView {
        on_intervals: match emitted(s.open_start, e) {
            Some(iv) => s.on_intervals.push(iv),
            None => s.on_intervals,
        },
        open_start: pending(s.open_start, e),
        ..s
    }
}

/// A signal after those of `events` that carry its name, in their order.
pub open spec fn replayed(s: SignalView, events: Seq<Event>) -> SignalView
    decreases events.len(),
{
    if events.len() == 0 {
        s
    } else if events.last().name@ == s.name {
        applied(replayed(s, events.drop_last()), events.last())
    } else {
        replayed(s, events.drop_last())
    }
}

/// A signal with its raw intervals merged.
pub open spec fn settled(s: SignalView) -> SignalView {
    SignalView { on_intervals: merged(s.on_intervals), ..s }
}

/// The table `s` with each signal as a value of the model.
pub open spec fn signal_views(s: Seq<SignalData>) -> Seq<SignalView> {
    Seq::new(s.len(), |i: int| s[i]@)
}

/// Replaying events changes neither name, group nor visibility.
pub proof fn lemma_replayed_keeps(s: SignalView, events: Seq<Event>)
    ensures
        replayed(s, events).name == s.name,
        replayed(s, events).group == s.group,
        replayed(s, events).visible == s.visible,
    decreases events.len(),
{
    if events.len() > 0 {
        lemma_replayed_keeps(s, events.drop_last());
    }
}

impl SignalData {
    /// A signal that has seen no event: no intervals, nothing pending.
    pub fn new(name: String, group: Option<String>, visible: bool) -> (s: SignalData)
        ensures
            s@ == (SignalView {
                name: name@,
                group: text_of(group),
                on_intervals: Seq::empty(),
                open_start: None,
                visible,
            }),
    {
        SignalData { name, group, on_intervals: Vec::new(), open_start: None, visible }
    }

    /// Reads one event into this signal, whatever name the event carries.
    pub fn apply(&mut self, event: &Event)
        requires
            event.wf(),
        ensures
            final(self)@ == applied(old(self)@, *event),
    {
        proof {
            lemma_tags_differ();
        }
        let time = event.time;
        match &event.kind {
            EventKind::OnOff => {
                match &event.value {
                    EventValue::Text(word) => {
                        if same_text(word.as_str(), "ON") {
                            self.open_start = Some(time);
                        } else if same_text(word.as_str(), "OFF") {
                            match self.open_start {
                                Some(start) => {
                                    self.on_intervals.push(Interval { start, end: time });
                                    self.open_start = None;
                                },
                                None => {},
                            }
                        }
                    },
                    _ => {},
                }
            },
            EventKind::Pulse => {
                match &event.value {
                    EventValue::Number(_) => {
                        self.on_intervals.push(
                            Interval { start: time, end: time + PULSE_WIDTH_MS },
                        );
                    },
                    _ => {},
                }
            },
            _ => {
                self.on_intervals.push(Interval { start: time, end: time + ARROW_WIDTH_MS });
            },
        }
    }
}

/// Reads one event into the signal that carries its name. An event that names
/// no signal of the table changes nothing.
pub fn update_signal_data(signals: &mut Vec<SignalData>, event: &Event)
    requires
        names_ascending(old(signals)@),
        event.wf(),
    ensures
        final(signals)@.len() == old(signals)@.len(),
        forall|i: int|
            0 <= i < old(signals)@.len() ==> (#[trigger] final(signals)@[i])@ == if old(
                signals,
            )@[i].name@ == event.name@ {
                applied(old(signals)@[i]@, *event)
            } else {
                old(signals)@[i]@
            },
        names_ascending(final(signals)@),
{
    match find_by_name(signals, event.name.as_str()) {
        Ok(at) => {
            signals[at].apply(event);
            proof {
                let before = old(signals)@;
                let after = signals@;
                assert forall|i: int| 0 <= i < before.len() implies (#[trigger] after[i])@
                    == if before[i].name@ == event.name@ {
                    applied(before[i]@, *event)
                } else {
                    before[i]@
                } by {
                    if before[i].name@ == event.name@ {
                        lemma_names_unique(before, i, at as int);
                    }
                }
                assert forall|i: int, j: int| 0 <= i < j < after.len() implies crate::text::text_lt(
                    (#[trigger] after[i]).name_text(),
                    (#[trigger] after[j]).name_text(),
                ) by {
                    assert(after[i].name_text() == before[i].name_text());
                    assert(after[j].name_text() == before[j].name_text());
                }
            }
        },
        Err(_) => {
            proof {
                let before = old(signals)@;
                assert forall|i: int| 0 <= i < before.len() implies before[i].name@
                    != event.name@ by {
                    if before[i].name@ == event.name@ {
                        assert(before[i].name_text() == event.name@);
                    }
                }
            }
        },
    }
}

/// Replaces a signal's raw intervals by their merged form.
pub fn merge_on_intervals(sig: &mut SignalData)
    ensures
        final(sig)@ == settled(old(sig)@),
{
    let merged_list = merge_intervals(&sig.on_intervals);
    sig.on_intervals = merged_list;
}

} // verus!

verus! {

/// Events in time order give well-formed intervals: every `OFF` comes no
/// earlier than the `ON` it closes. What is still pending came no later than
/// the last event.
pub proof fn lemma_replayed_in_time_order(s: SignalView, events: Seq<Event>)
    requires
        crate::sorting::ascending(events, crate::event::time_key()),
        crate::event::all_events_wf(events),
        crate::interval::all_wf(s.on_intervals),
        s.open_start is None,
    ensures
        crate::interval::all_wf(replayed(s, events).on_intervals),
        replayed(s, events).open_start is Some ==> events.len() > 0 && replayed(
            s,
            events,
        ).open_start->0 <= events.last().time,
    decreases events.len(),
{
    if events.len() > 0 {
        let front = events.drop_last();
        let e = events.last();
        assert(crate::sorting::ascending(front, crate::event::time_key())) by {
            assert forall|i: int, j: int| 0 <= i <= j < front.len() implies crate::event::time_key()(
                front[i],
            ) <= crate::event::time_key()(front[j]) by {
                assert(front[i] == events[i] && front[j] == events[j]);
                assert(crate::event::time_key()(events[i]) <= crate::event::time_key()(events[j]));
            }
        }
        assert(crate::event::all_events_wf(front)) by {
            assert forall|i: int| 0 <= i < front.len() implies (#[trigger] front[i]).wf() by {
                assert(front[i] == events[i]);
            }
        }
        lemma_replayed_in_time_order(s, front);
        let r = replayed(s, front);
        assert(events[events.len() - 1].wf());
        if front.len() > 0 {
            assert(front.last() == events[front.len() - 1]);
            assert(crate::event::time_key()(events[front.len() - 1]) <= crate::event::time_key()(
                events[events.len() - 1],
            ));
        }
        if e.name@ == s.name {
            match emitted(r.open_start, e) {
                Some(iv) => {
                    assert(iv.wf());
                    let grown = r.on_intervals.push(iv);
                    assert forall|i: int| 0 <= i < grown.len() implies (#[trigger] grown[i]).wf() by {
                        if i < r.on_intervals.len() {
                            assert(grown[i] == r.on_intervals[i]);
                        }
                    }
                },
                None => {},
            }
        }
    }
}

} // verus!
