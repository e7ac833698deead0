//! A loaded dataset: its events in time order and everything derived from
//! them. Nothing is patched in place: whenever the events change, signals,
//! groups and time bounds are made anew from the whole list.

use vstd::prelude::*;
use crate::event::{all_events_wf, in_time_order, sort_events, DataFile, Event, LogEntry,
    VisibilityEntry};
use crate::group::{fresh, group_of, is_group_table_of, members_of, names_signal, resolve_groups,
    GroupData};
use crate::named::{has_name, names_ascending, Named};
use crate::signal::{merge_on_intervals, replayed, settled, update_signal_data, SignalData,
    SignalView, lemma_replayed_keeps};
use crate::text::{same_text, text_lt};

verus! {

/// The start of the time range of a dataset without events.
pub const EMPTY_MIN_TIME_MS: i64 = 0;

/// The end of the time range of a dataset without events.
pub const EMPTY_MAX_TIME_MS: i64 = 10_000;

/// One dataset and what is derived from it.
#[derive(Clone, Debug, PartialEq, Eq)]
pub struct FileData {
    /// What the dataset is called on screen.
    pub file_name: String,
    /// The events, in ascending time order.
    pub logs: Vec<Event>,
    /// The signals, in ascending name order.
    pub signals: Vec<SignalData>,
    /// The groups, in ascending name order.
    pub groups: Vec<GroupData>,
    /// The dataset's default visibility table; a later entry for the same
    /// group and name overrides an earlier one.
    pub visibility_defaults: Vec<VisibilityEntry>,
    pub min_time: i64,
    pub max_time: i64,
}

/// What the default visibility table says of the signal `name` in `group`:
/// the last matching entry decides, and without one the signal is hidden.
pub open spec fn default_visible(entries: Seq<VisibilityEntry>, group: Seq<char>, name: Seq<char>) -> bool
    decreases entries.len(),
{
    if entries.len() == 0 {
        false
    } else if entries.last().group@ == group && entries.last().name@ == name {
        entries.last().visible
    } else {
        default_visible(entries.drop_last(), group, name)
    }
}

/// Whether a signal starts out visible: a signal in no group never does.
pub open spec fn shown_by_default(
    entries: Seq<VisibilityEntry>,
    group: Option<Seq<char>>,
    name: Seq<char>,
) -> bool {
    match group {
        Some(g) => default_visible(entries, g, name),
        None => false,
    }
}

/// The signal `name` of a dataset: its group, its default visibility, and its
/// events read into intervals and merged.
pub open spec fn signal_of(events: Seq<Event>, entries: Seq<VisibilityEntry>, name: Seq<char>) -> SignalView {
    let group = group_of(events, name);
    settled(replayed(fresh(name, group, shown_by_default(entries, group, name)), events))
}

/// The time of the first event, or the fallback.
pub open spec fn first_time(events: Seq<Event>) -> i64 {
    if events.len() > 0 {
        events.first().time
    } else {
        EMPTY_MIN_TIME_MS
    }
}

/// The time of the last event, or the fallback.
pub open spec fn last_time(events: Seq<Event>) -> i64 {
    if events.len() > 0 {
        events.last().time
    } else {
        EMPTY_MAX_TIME_MS
    }
}

/// `events[i]` is the reading of `entries[i]`, for every `i`.
pub open spec fn are_readings_of(events: Seq<Event>, entries: Seq<LogEntry>) -> bool {
    &&& events.len() == entries.len()
    &&& forall|i: int| 0 <= i < events.len() ==> (#[trigger] events[i]).is_reading_of(entries[i])
}

/// The entries of an optional visibility table.
pub open spec fn entries_of(table: Option<Vec<VisibilityEntry>>) -> Seq<VisibilityEntry> {
    match table {
        Some(v) => v@,
        None => Seq::empty(),
    }
}

impl FileData {
    /// The tables fit together: signals and groups are in ascending name
    /// order, and the members of each group are the signals that carry the
    /// group's name, in that order.
    pub open spec fn wf(&self) -> bool {
        &&& names_ascending(self.signals@)
        &&& names_ascending(self.groups@)
        &&& forall|i: int|
            0 <= i < self.groups@.len() ==> (#[trigger] self.groups@[i])@.signals == members_of(
                self.signals@,
                self.groups@[i].name@,
            )
    }

    /// Every signal's intervals are in merged form: well-formed, ascending,
    /// and apart from one another.
    pub open spec fn intervals_merged(&self) -> bool {
        forall|i: int|
            0 <= i < self.signals@.len() ==> crate::interval::is_merged(
                (#[trigger] self.signals@[i]).on_intervals@,
            )
    }

    /// Everything derived is what `events` and `entries` give.
    pub open spec fn is_built_from(&self, events: Seq<Event>, entries: Seq<VisibilityEntry>) -> bool {
        &&& self.logs@ == events
        &&& self.visibility_defaults@ == entries
        &&& self.min_time == first_time(events)
        &&& self.max_time == last_time(events)
        &&& names_ascending(self.signals@)
        &&& forall|name: Seq<char>| has_name(self.signals@, name) <==> names_signal(events, name)
        &&& forall|i: int|
            0 <= i < self.signals@.len() ==> (#[trigger] self.signals@[i])@ == signal_of(
                events,
                entries,
                self.signals@[i].name@,
            )
        &&& is_group_table_of(self.groups@, events)
        &&& self.wf()
    }
}

/// Looks a signal up in the default visibility table.
pub fn lookup_default(entries: &Vec<VisibilityEntry>, group: &str, name: &str) -> (visible: bool)
    ensures
        visible == default_visible(entries@, group@, name@),
{
    let mut k: usize = entries.len();
    proof {
        assert(entries@.take(k as int) =~= entries@);
    }
    while k > 0
        invariant
            0 <= k <= entries.len(),
            default_visible(entries@, group@, name@) == default_visible(
                entries@.take(k as int),
                group@,
                name@,
            ),
        decreases k,
    {
        let entry = &entries[k - 1];
        proof {
            assert(entries@.take(k as int).last() == *entry);
            assert(entries@.take(k as int).drop_last() =~= entries@.take(k - 1));
        }
        if same_text(entry.group.as_str(), group) && same_text(entry.name.as_str(), name) {
            return entry.visible;
        }
        k = k - 1;
    }
    false
}

/// The signals of two tables carry the same names and groups, place by place.
pub open spec fn same_membership(a: Seq<SignalData>, b: Seq<SignalData>) -> bool {
    &&& a.len() == b.len()
    &&& forall|i: int|
        0 <= i < a.len() ==> (#[trigger] a[i])@.name == b[i]@.name && a[i]@.group == b[i]@.group
}

/// Names and groups alone decide the order of a table and who is a member
/// of which group.
pub proof fn lemma_same_membership(a: Seq<SignalData>, b: Seq<SignalData>, g: Seq<char>)
    requires
        same_membership(a, b),
    ensures
        members_of(a, g) == members_of(b, g),
        names_ascending(a) ==> names_ascending(b),
        forall|name: Seq<char>| has_name(a, name) ==> has_name(b, name),
    decreases a.len(),
{
    if a.len() > 0 {
        let af = a.drop_last();
        let bf = b.drop_last();
        assert(same_membership(af, bf)) by {
            assert forall|i: int| 0 <= i < af.len() implies (#[trigger] af[i])@.name == bf[i]@.name
                && af[i]@.group == bf[i]@.group by {
                assert(af[i] == a[i] && bf[i] == b[i]);
            }
        }
        lemma_same_membership(af, bf, g);
        assert(a[a.len() - 1]@.name == b[a.len() - 1]@.name);
    }
    if names_ascending(a) {
        assert forall|i: int, j: int| 0 <= i < j < b.len() implies text_lt(
            (#[trigger] b[i]).name_text(),
            (#[trigger] b[j]).name_text(),
        ) by {
            assert(a[i]@.name == b[i]@.name && a[j]@.name == b[j]@.name);
            assert(text_lt(a[i].name_text(), a[j].name_text()));
        }
    }
    assert forall|name: Seq<char>| has_name(a, name) implies has_name(b, name) by {
        let i = choose|i: int| 0 <= i < a.len() && (#[trigger] a[i]).name_text() == name;
        assert(a[i]@.name == b[i]@.name);
        assert(b[i].name_text() == name);
    }
}

/// Gives every signal its default visibility.
pub fn assign_default_visibility(signals: &mut Vec<SignalData>, entries: &Vec<VisibilityEntry>)
    ensures
        final(signals)@.len() == old(signals)@.len(),
        forall|i: int|
            0 <= i < final(signals)@.len() ==> (#[trigger] final(signals)@[i])@ == (SignalView {
                visible: shown_by_default(entries@, old(signals)@[i]@.group, old(signals)@[i]@.name),
                ..old(signals)@[i]@
            }),
{
    let mut k: usize = 0;
    while k < signals.len()
        invariant
            0 <= k <= signals.len(),
            signals@.len() == old(signals)@.len(),
            forall|i: int|
                0 <= i < k ==> (#[trigger] signals@[i])@ == (SignalView {
                    visible: shown_by_default(
                        entries@,
                        old(signals)@[i]@.group,
                        old(signals)@[i]@.name,
                    ),
                    ..old(signals)@[i]@
                }),
            forall|i: int| k <= i < signals@.len() ==> signals@[i] == old(signals)@[i],
        decreases signals.len() - k,
    {
        let visible = match &signals[k].group {
            Some(g) => lookup_default(entries, g.as_str(), signals[k].name.as_str()),
            None => false,
        };
        signals[k].visible = visible;
        k = k + 1;
    }
}

/// Reads every record of a dataset file into an event.
pub fn read_entries(entries: Vec<LogEntry>) -> (events: Vec<Event>)
    ensures
        are_readings_of(events@, entries@),
        all_events_wf(events@),
{
    let mut events: Vec<Event> = Vec::new();
    let ghost all = entries@;
    for entry in it: entries
        invariant
            it.seq() == all,
            events@.len() == it.index(),
            forall|i: int| 0 <= i < events@.len() ==> (#[trigger] events@[i]).is_reading_of(all[i]),
            all_events_wf(events@),
    {
        let event = Event::from_entry(entry);
        events.push(event);
    }
    events
}

impl FileData {
    /// Makes signals, groups and time bounds anew from the events and the
    /// default visibility table.
    pub fn recalc(&mut self)
        requires
            all_events_wf(old(self).logs@),
        ensures
            final(self).file_name == old(self).file_name,
            final(self).is_built_from(old(self).logs@, old(self).visibility_defaults@),
            crate::sorting::ascending(old(self).logs@, crate::event::time_key())
                ==> final(self).intervals_merged(),
    {
        let n: usize = self.logs.len();
        if n > 0 {
            self.min_time = self.logs[0].time;
            self.max_time = self.logs[n - 1].time;
        } else {
            self.min_time = EMPTY_MIN_TIME_MS;
            self.max_time = EMPTY_MAX_TIME_MS;
        }
        let ghost events = self.logs@;
        let ghost entries = self.visibility_defaults@;
        let (mut signals, groups) = resolve_groups(&self.logs);
        let ghost table = signals@;
        assign_default_visibility(&mut signals, &self.visibility_defaults);
        let ghost base = signals@;
        proof {
            assert(same_membership(table, base));
            lemma_same_membership(table, base, Seq::empty());
            assert forall|i: int| 0 <= i < base.len() implies (#[trigger] base[i])@ == fresh(
                base[i].name@,
                group_of(events, base[i].name@),
                shown_by_default(entries, group_of(events, base[i].name@), base[i].name@),
            ) by {
                assert(table[i]@ == fresh(table[i].name@, group_of(events, table[i].name@), false));
            }
            assert(events.take(0) =~= Seq::<Event>::empty());
        }
        let mut k: usize = 0;
        while k < n
            invariant
                0 <= k <= n,
                n == self.logs@.len(),
                self.logs@ == events,
                all_events_wf(events),
                signals@.len() == base.len(),
                names_ascending(signals@),
                forall|i: int|
                    0 <= i < signals@.len() ==> (#[trigger] signals@[i])@ == replayed(
                        base[i]@,
                        events.take(k as int),
                    ),
            decreases n - k,
        {
            let ghost before = signals@;
            update_signal_data(&mut signals, &self.logs[k]);
            proof {
                let e = events[k as int];
                assert(events.take(k + 1).drop_last() =~= events.take(k as int));
                assert(events.take(k + 1).last() == e);
                assert forall|i: int| 0 <= i < signals@.len() implies (#[trigger] signals@[i])@
                    == replayed(base[i]@, events.take(k + 1)) by {
                    lemma_replayed_keeps(base[i]@, events.take(k as int));
                    assert(before[i]@ == replayed(base[i]@, events.take(k as int)));
                }
            }
            k = k + 1;
        }
        proof {
            assert(events.take(n as int) =~= events);
        }
        let ghost raw = signals@;
        let mut j: usize = 0;
        while j < signals.len()
            invariant
                0 <= j <= signals.len(),
                signals@.len() == raw.len(),
                forall|i: int| 0 <= i < j ==> (#[trigger] signals@[i])@ == settled(raw[i]@),
                forall|i: int| j <= i < signals@.len() ==> signals@[i] == raw[i],
            decreases signals.len() - j,
        {
            merge_on_intervals(&mut signals[j]);
            j = j + 1;
        }
        proof {
            let done = signals@;
            assert forall|i: int| 0 <= i < done.len() implies (#[trigger] done[i])@ == signal_of(
                events,
                entries,
                done[i].name@,
            ) && done[i]@.name == table[i]@.name && done[i]@.group == table[i]@.group by {
                lemma_replayed_keeps(base[i]@, events);
                assert(raw[i]@ == replayed(base[i]@, events));
                assert(done[i]@ == settled(raw[i]@));
                assert(table[i]@ == fresh(table[i].name@, group_of(events, table[i].name@), false));
            }
            assert(same_membership(table, done));
            lemma_same_membership(table, done, Seq::empty());
            assert(same_membership(done, table));
            lemma_same_membership(done, table, Seq::empty());
            assert forall|i: int| 0 <= i < groups@.len() implies (#[trigger] groups@[i])@.signals
                == members_of(done, groups@[i].name@) by {
                lemma_same_membership(table, done, groups@[i].name@);
            }
            if crate::sorting::ascending(events, crate::event::time_key()) {
                assert forall|i: int| 0 <= i < done.len() implies crate::interval::is_merged(
                    (#[trigger] done[i]).on_intervals@,
                ) by {
                    assert(raw[i]@ == replayed(base[i]@, events));
                    assert(done[i]@ == settled(raw[i]@));
                    crate::signal::lemma_replayed_in_time_order(base[i]@, events);
                    crate::interval::lemma_merged_covers(raw[i]@.on_intervals);
                }
            }
        }
        self.signals = signals;
        self.groups = groups;
    }

    /// A dataset made from events and a default visibility table. The events
    /// are put in time order first; events of one time keep their order.
    pub fn from_events(file_name: String, events: Vec<Event>, entries: Vec<VisibilityEntry>) -> (data: FileData)
        requires
            all_events_wf(events@),
        ensures
            data.file_name == file_name,
            data.is_built_from(in_time_order(events@), entries@),
            data.intervals_merged(),
    {
        let logs = sort_events(events);
        let mut data = FileData {
            file_name,
            logs,
            signals: Vec::new(),
            groups: Vec::new(),
            visibility_defaults: entries,
            min_time: EMPTY_MIN_TIME_MS,
            max_time: EMPTY_MAX_TIME_MS,
        };
        data.recalc();
        data
    }

    /// A dataset made from a dataset file: every record is read into an
    /// event, the events are put in time order, and the rest is derived.
    pub fn from_data_file(data_file: DataFile, file_name: String) -> (data: FileData)
        ensures
            data.file_name == file_name,
            exists|events: Seq<Event>|
                are_readings_of(events, data_file.logs@) && #[trigger] data.is_built_from(
                    in_time_order(events),
                    entries_of(data_file.default_visibility),
                ),
            data.intervals_merged(),
    {
        let events = read_entries(data_file.logs);
        let entries = match data_file.default_visibility {
            Some(v) => v,
            None => Vec::new(),
        };
        let ghost read = events@;
        let data = FileData::from_events(file_name, events, entries);
        proof {
            assert(are_readings_of(read, data_file.logs@) && data.is_built_from(
                in_time_order(read),
                entries_of(data_file.default_visibility),
            ));
        }
        data
    }
}

} // verus!

verus! {

impl FileData {
    /// Whether the tables fit together. A dataset made by this library does;
    /// one put together by hand need not.
    pub fn check_wf(&self) -> (ok: bool)
        ensures
            ok == self.wf(),
    {
        if !crate::named::names_in_order(&self.signals) {
            return false;
        }
        if !crate::named::names_in_order(&self.groups) {
            return false;
        }
        let mut k: usize = 0;
        while k < self.groups.len()
            invariant
                0 <= k <= self.groups.len(),
                forall|i: int|
                    0 <= i < k ==> (#[trigger] self.groups@[i])@.signals == members_of(
                        self.signals@,
                        self.groups@[i].name@,
                    ),
            decreases self.groups.len() - k,
        {
            let expected = crate::group::members_in(&self.signals, self.groups[k].name.as_str());
            if !crate::named::same_names(&self.groups[k].signals, &expected) {
                proof {
                    assert(self.groups@[k as int]@.signals != members_of(
                        self.signals@,
                        self.groups@[k as int].name@,
                    ));
                }
                return false;
            }
            k = k + 1;
        }
        true
    }
}

} // verus!

verus! {

/// A dataset is fixed by its events and its default visibility table: two
/// datasets derived from the same events and the same table have the same
/// signals, the same groups and the same time range. Deriving a dataset
/// again therefore changes nothing.
pub proof fn lemma_dataset_determined(
    a: FileData,
    b: FileData,
    events: Seq<Event>,
    entries: Seq<VisibilityEntry>,
)
    requires
        a.is_built_from(events, entries),
        b.is_built_from(events, entries),
    ensures
        crate::signal::signal_views(a.signals@) == crate::signal::signal_views(b.signals@),
        crate::group::group_views(a.groups@) == crate::group::group_views(b.groups@),
        a.min_time == b.min_time,
        a.max_time == b.max_time,
{
    assert forall|name: Seq<char>| has_name(a.signals@, name) <==> has_name(b.signals@, name) by {
        assert(has_name(a.signals@, name) <==> names_signal(events, name));
        assert(has_name(b.signals@, name) <==> names_signal(events, name));
    }
    crate::named::lemma_same_names_same_places(a.signals@, b.signals@);
    assert forall|i: int| 0 <= i < a.signals@.len() implies (#[trigger] a.signals@[i])@
        == b.signals@[i]@ by {
        assert(a.signals@[i].name_text() == b.signals@[i].name_text());
        assert(b.signals@[i]@ == signal_of(events, entries, b.signals@[i].name@));
    }
    assert(crate::signal::signal_views(a.signals@) =~= crate::signal::signal_views(b.signals@));
    crate::group::lemma_group_table_determined(a.groups@, events, b.groups@, events);
}

} // verus!
