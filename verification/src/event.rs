//! Events: the records of a dataset file and the canonical events made from
//! them.

use vstd::prelude::*;
use crate::text::same_text;
use crate::timestamp::{parse_timestamp_to_millis, timestamp_millis, LATEST_TIME_MS};
use crate::sorting::{ascending, stable_sort, lemma_stable_sort, lemma_stable_insert_at};

verus! {

/// How an event is to be read.
#[derive(Clone, Debug, PartialEq, Eq)]
pub enum EventKind {
    /// A level change: the value says `ON` or `OFF`.
    OnOff,
    /// A short pulse: the value is a number.
    Pulse,
    /// A marker.
    Arrow,
    /// Any other tag, kept as it was written.
    Other(String),
}

/// What an event carries.
#[derive(Clone, Debug, PartialEq, Eq)]
pub enum EventValue {
    Text(String),
    /// A number, rounded to a whole one. Its size is accepted and not used.
    Number(i64),
    Other,
}

/// One record of a dataset file, as written.
#[derive(Clone, Debug, PartialEq, Eq)]
pub struct LogEntry {
    pub timestamp: String,
    pub kind: String,
    pub name: String,
    pub group: Option<String>,
    pub value: EventValue,
    pub comment: Option<String>,
}

/// One canonical event: a record with its time and kind worked out.
#[derive(Clone, Debug, PartialEq, Eq)]
pub struct Event {
    /// Milliseconds since the Unix epoch.
    pub time: i64,
    pub kind: EventKind,
    /// The signal that the event belongs to.
    pub name: String,
    pub group: Option<String>,
    pub value: EventValue,
    pub comment: Option<String>,
}

/// One entry of a dataset's default visibility table.
#[derive(Clone, Debug, PartialEq, Eq)]
pub struct VisibilityEntry {
    pub group: String,
    pub name: String,
    pub visible: bool,
}

/// A dataset file.
#[derive(Clone, Debug, PartialEq, Eq)]
pub struct DataFile {
    pub logs: Vec<LogEntry>,
    pub default_visibility: Option<Vec<VisibilityEntry>>,
}

/// The text of an optional string.
pub open spec fn text_of(s: Option<String>) -> Option<Seq<char>> {
    match s {
        Some(t) => Some(t@),
        None => None,
    }
}

impl EventKind {
    /// The kind that a tag names: `kind` is the reading of `tag`.
    pub open spec fn reads(self, tag: Seq<char>) -> bool {
        match self {
            EventKind::OnOff => tag == "ONOFF"@,
            EventKind::Pulse => tag == "PULSE"@,
            EventKind::Arrow => tag == "ARROW"@,
            EventKind::Other(t) => t@ == tag && tag != "ONOFF"@ && tag != "PULSE"@ && tag
                != "ARROW"@,
        }
    }

    /// Reads a tag: `ONOFF`, `PULSE` and `ARROW` name their kinds, any other
    /// tag is kept as `Other`.
    pub fn from_tag(tag: String) -> (kind: EventKind)
        ensures
            kind.reads(tag@),
    {
        proof {
            lemma_tags_differ();
        }
        if same_text(tag.as_str(), "ONOFF") {
            EventKind::OnOff
        } else if same_text(tag.as_str(), "PULSE") {
            EventKind::Pulse
        } else if same_text(tag.as_str(), "ARROW") {
            EventKind::Arrow
        } else {
            EventKind::Other(tag)
        }
    }
}

/// The three known tags are three different texts, so a tag has one reading.
pub proof fn lemma_tags_differ()
    ensures
        "ONOFF"@ != "PULSE"@,
        "ONOFF"@ != "ARROW"@,
        "PULSE"@ != "ARROW"@,
        "ON"@ != "OFF"@,
{
    reveal_strlit("ONOFF");
    reveal_strlit("PULSE");
    reveal_strlit("ARROW");
    reveal_strlit("ON");
    reveal_strlit("OFF");
    assert("ONOFF"@[0] == 'O' && "PULSE"@[0] == 'P' && "ARROW"@[0] == 'A');
    assert("ON"@.len() == 2 && "OFF"@.len() == 3);
}

/// A tag has exactly one reading, up to the text kept in `Other`.
pub proof fn lemma_reading_unique(a: EventKind, b: EventKind, tag: Seq<char>)
    requires
        a.reads(tag),
        b.reads(tag),
    ensures
        a is OnOff <==> b is OnOff,
        a is Pulse <==> b is Pulse,
        a is Arrow <==> b is Arrow,
        a is Other <==> b is Other,
        a is Other ==> a->Other_0@ == b->Other_0@,
{
    lemma_tags_differ();
}

impl Event {
    /// The event's time leaves room for the widest interval that an event
    /// stands for.
    pub open spec fn wf(&self) -> bool {
        self.time <= LATEST_TIME_MS
    }

    /// The group that the event names, if it names one: an empty group field
    /// names none.
    pub open spec fn group_text(&self) -> Option<Seq<char>> {
        match self.group {
            Some(g) => if g@.len() > 0 { Some(g@) } else { None },
            None => None,
        }
    }

    /// This event is the record `entry` with its timestamp and tag read.
    pub open spec fn is_reading_of(&self, entry: LogEntry) -> bool {
        &&& self.time == timestamp_millis(entry.timestamp@)
        &&& self.kind.reads(entry.kind@)
        &&& self.name == entry.name
        &&& self.group == entry.group
        &&& self.value == entry.value
        &&& self.comment == entry.comment
    }

    /// Works out a record's time and kind.
    pub fn from_entry(entry: LogEntry) -> (event: Event)
        ensures
            event.is_reading_of(entry),
            event.wf(),
    {
        let time = parse_timestamp_to_millis(entry.timestamp.as_str());
        let kind = EventKind::from_tag(entry.kind);
        Event {
            time,
            kind,
            name: entry.name,
            group: entry.group,
            value: entry.value,
            comment: entry.comment,
        }
    }
}

/// Every event of `events` is well-formed.
pub open spec fn all_events_wf(events: Seq<Event>) -> bool {
    forall|i: int| 0 <= i < events.len() ==> (#[trigger] events[i]).wf()
}

/// The key by which events are ordered: the time.
pub open spec fn time_key() -> spec_fn(Event) -> int {
    |e: Event| e.time as int
}

/// The events in ascending time order; events of one time keep their order.
pub open spec fn in_time_order(events: Seq<Event>) -> Seq<Event> {
    stable_sort(events, time_key())
}

/// Puts events in ascending time order. Events that share a time stay in the
/// order in which they came.
pub fn sort_events(events: Vec<Event>) -> (out: Vec<Event>)
    ensures
        out@ == in_time_order(events@),
        ascending(out@, time_key()),
        out@.to_multiset() == events@.to_multiset(),
        forall|t: int| #[trigger]
            out@.filter(crate::sorting::keyed(time_key(), t)) == events@.filter(
                crate::sorting::keyed(time_key(), t),
            ),
        all_events_wf(events@) ==> all_events_wf(out@),
        ascending(events@, time_key()) ==> out@ == events@,
{
    let mut out: Vec<Event> = Vec::new();
    let ghost all = events@;
    proof {
        assert(all.take(0) =~= Seq::<Event>::empty());
    }
    for e in it: events
        invariant
            it.seq() == all,
            out@ == stable_sort(all.take(it.index() as int), time_key()),
    {
        let ghost k = it.index() as int;
        let mut pos: usize = out.len();
        proof {
            lemma_stable_sort(all.take(k), time_key());
        }
        while pos > 0 && out[pos - 1].time > e.time
            invariant
                0 <= pos <= out.len(),
                forall|j: int| pos <= j < out.len() ==> time_key()(#[trigger] out@[j]) > time_key()(e),
            decreases pos,
        {
            pos = pos - 1;
        }
        proof {
            lemma_stable_insert_at(out@, e, time_key(), pos as int);
            assert(all.take(k + 1).drop_last() =~= all.take(k));
            assert(all.take(k + 1).last() == e);
        }
        out.insert(pos, e);
    }
    proof {
        assert(all.take(all.len() as int) =~= all);
        lemma_stable_sort(all, time_key());
        if ascending(all, time_key()) {
            crate::sorting::lemma_stable_sort_of_ascending(all, time_key());
        }
        if all_events_wf(all) {
            broadcast use vstd::seq_lib::to_multiset_contains;
            assert forall|i: int| 0 <= i < out@.len() implies (#[trigger] out@[i]).wf() by {
                assert(out@.contains(out@[i]));
                assert(all.to_multiset().count(out@[i]) > 0);
                assert(all.contains(out@[i]));
                let j = choose|j: int| 0 <= j < all.len() && all[j] == out@[i];
                assert(all[j].wf());
            }
        }
    }
    out
}

} // verus!
