//! Visibility: showing and hiding single signals, whole groups and whole
//! datasets, and the time range that the datasets on screen span.

use vstd::prelude::*;
use crate::dataset::{same_membership, FileData, lemma_same_membership, EMPTY_MAX_TIME_MS,
    EMPTY_MIN_TIME_MS};
use crate::group::{members_of, GroupData};
use crate::named::{find_by_name, has_name, names_ascending, Named, lemma_names_unique};
use crate::signal::{SignalData, SignalView};

verus! {

/// Every signal of the table is visible.
pub open spec fn all_shown(signals: Seq<SignalData>) -> bool {
    forall|i: int| 0 <= i < signals.len() ==> (#[trigger] signals[i]).visible
}

/// Every signal of the table whose name is among `members` is visible.
pub open spec fn members_shown(signals: Seq<SignalData>, members: Seq<String>) -> bool {
    forall|i: int|
        0 <= i < signals.len() && has_name(members, (#[trigger] signals[i]).name@) ==> signals[i].visible
}

/// The table `after` is `before` with the visibility of each signal whose
/// name is among `members` set to `visible`, and nothing else changed.
pub open spec fn is_toggle_of(
    after: Seq<SignalData>,
    before: Seq<SignalData>,
    members: Seq<String>,
    visible: bool,
) -> bool {
    &&& after.len() == before.len()
    &&& forall|i: int|
        0 <= i < after.len() ==> (#[trigger] after[i])@ == (SignalView {
            visible: if has_name(members, before[i].name@) {
                visible
            } else {
                before[i].visible
            },
            ..before[i]@
        })
}

/// The members of the group `group` of a table, or none if there is no such
/// group.
pub open spec fn members_named(groups: Seq<GroupData>, group: Seq<char>) -> Seq<String>
    decreases groups.len(),
{
    if groups.len() == 0 {
        Seq::empty()
    } else if groups.last().name@ == group {
        groups.last().signals@
    } else {
        members_named(groups.drop_last(), group)
    }
}

proof fn lemma_members_named(groups: Seq<GroupData>, group: Seq<char>, at: int)
    requires
        names_ascending(groups),
        0 <= at < groups.len(),
        groups[at].name@ == group,
    ensures
        members_named(groups, group) == groups[at].signals@,
    decreases groups.len(),
{
    if groups.last().name@ == group {
        lemma_names_unique(groups, at, groups.len() - 1);
    } else {
        let front = groups.drop_last();
        assert(names_ascending(front)) by {
            assert forall|i: int, j: int| 0 <= i < j < front.len() implies crate::text::text_lt(
                (#[trigger] front[i]).name_text(),
                (#[trigger] front[j]).name_text(),
            ) by {
                assert(front[i] == groups[i] && front[j] == groups[j]);
            }
        }
        assert(front[at] == groups[at]);
        lemma_members_named(front, group, at);
    }
}

proof fn lemma_members_named_absent(groups: Seq<GroupData>, group: Seq<char>)
    requires
        !has_name(groups, group),
    ensures
        members_named(groups, group) == Seq::<String>::empty(),
    decreases groups.len(),
{
    if groups.len() > 0 {
        assert(groups[groups.len() - 1].name_text() != group);
        let front = groups.drop_last();
        if has_name(front, group) {
            let i = choose|i: int| 0 <= i < front.len() && (#[trigger] front[i]).name_text() == group;
            assert(groups[i] == front[i]);
        }
        lemma_members_named_absent(front, group);
    }
}

proof fn lemma_has_name_push(s: Seq<String>, x: String, name: Seq<char>)
    ensures
        has_name(s.push(x), name) <==> has_name(s, name) || x@ == name,
{
    let r = s.push(x);
    if has_name(r, name) {
        let i = choose|i: int| 0 <= i < r.len() && (#[trigger] r[i]).name_text() == name;
        if i < s.len() {
            assert(s[i].name_text() == name);
        }
    }
    if has_name(s, name) {
        let i = choose|i: int| 0 <= i < s.len() && (#[trigger] s[i]).name_text() == name;
        assert(r[i].name_text() == name);
    }
    if x@ == name {
        assert(r[s.len() as int].name_text() == name);
    }
}

/// Sets the visibility of the signals named by `members`.
pub fn set_members_visible(signals: &mut Vec<SignalData>, members: &Vec<String>, visible: bool)
    requires
        names_ascending(old(signals)@),
    ensures
        is_toggle_of(final(signals)@, old(signals)@, members@, visible),
        same_membership(old(signals)@, final(signals)@),
        names_ascending(final(signals)@),
{
    let mut m: usize = 0;
    proof {
        assert(members@.take(0) =~= Seq::<String>::empty());
    }
    while m < members.len()
        invariant
            0 <= m <= members.len(),
            names_ascending(signals@),
            is_toggle_of(signals@, old(signals)@, members@.take(m as int), visible),
        decreases members.len() - m,
    {
        let member = &members[m];
        let ghost before = signals@;
        let ghost seen = members@.take(m as int);
        proof {
            assert(members@.take(m + 1) =~= seen.push(*member));
        }
        match find_by_name(signals, member.as_str()) {
            Ok(at) => {
                signals[at].visible = visible;
                proof {
                    let after = signals@;
                    assert forall|i: int| 0 <= i < after.len() implies (#[trigger] after[i])@
                        == (SignalView {
                        visible: if has_name(seen.push(*member), old(signals)@[i].name@) {
                            visible
                        } else {
                            old(signals)@[i].visible
                        },
                        ..old(signals)@[i]@
                    }) by {
                        lemma_has_name_push(seen, *member, old(signals)@[i].name@);
                        assert(before[i]@.name == old(signals)@[i]@.name);
                        if i != at {
                            assert(after[i] == before[i]);
                            if before[i].name@ == member@ {
                                lemma_names_unique(before, i, at as int);
                            }
                        }
                    }
                    assert forall|i: int, j: int| 0 <= i < j < after.len() implies crate::text::text_lt(
                        (#[trigger] after[i]).name_text(),
                        (#[trigger] after[j]).name_text(),
                    ) by {
                        assert(after[i]@.name == before[i]@.name && after[j]@.name == before[j]@.name);
                        assert(crate::text::text_lt(before[i].name_text(), before[j].name_text()));
                    }
                }
            },
            Err(_) => {
                proof {
                    assert forall|i: int| 0 <= i < before.len() implies (#[trigger] before[i])@
                        == (SignalView {
                        visible: if has_name(seen.push(*member), old(signals)@[i].name@) {
                            visible
                        } else {
                            old(signals)@[i].visible
                        },
                        ..old(signals)@[i]@
                    }) by {
                        lemma_has_name_push(seen, *member, old(signals)@[i].name@);
                        assert(before[i]@.name == old(signals)@[i]@.name);
                        if before[i].name@ == member@ {
                            assert(before[i].name_text() == member@);
                        }
                    }
                }
            },
        }
        m = m + 1;
    }
    proof {
        assert(members@.take(members.len() as int) =~= members@);
    }
}

/// Whether the signals named by `members` are all visible.
pub fn are_members_visible(signals: &Vec<SignalData>, members: &Vec<String>) -> (shown: bool)
    requires
        names_ascending(signals@),
    ensures
        shown == members_shown(signals@, members@),
{
    let mut m: usize = 0;
    proof {
        assert(members@.take(0) =~= Seq::<String>::empty());
        assert forall|i: int| 0 <= i < signals@.len() implies !has_name(
            members@.take(0),
            (#[trigger] signals@[i]).name@,
        ) by {}
    }
    while m < members.len()
        invariant
            0 <= m <= members.len(),
            names_ascending(signals@),
            members_shown(signals@, members@.take(m as int)),
        decreases members.len() - m,
    {
        let member = &members[m];
        let ghost seen = members@.take(m as int);
        proof {
            assert(members@.take(m + 1) =~= seen.push(*member));
        }
        match find_by_name(signals, member.as_str()) {
            Ok(at) => {
                if !signals[at].visible {
                    proof {
                        assert(members@[m as int].name_text() == signals@[at as int].name@);
                        assert(has_name(members@, signals@[at as int].name@));
                    }
                    return false;
                }
                proof {
                    assert forall|i: int|
                        0 <= i < signals@.len() && has_name(
                            seen.push(*member),
                            (#[trigger] signals@[i]).name@,
                        ) implies signals@[i].visible by {
                        lemma_has_name_push(seen, *member, signals@[i].name@);
                        if signals@[i].name@ == member@ {
                            lemma_names_unique(signals@, i, at as int);
                        }
                    }
                }
            },
            Err(_) => {
                proof {
                    assert forall|i: int|
                        0 <= i < signals@.len() && has_name(
                            seen.push(*member),
                            (#[trigger] signals@[i]).name@,
                        ) implies signals@[i].visible by {
                        lemma_has_name_push(seen, *member, signals@[i].name@);
                        if signals@[i].name@ == member@ {
                            assert(signals@[i].name_text() == member@);
                        }
                    }
                }
            },
        }
        m = m + 1;
    }
    proof {
        assert(members@.take(members.len() as int) =~= members@);
    }
    true
}

impl FileData {
    /// Whether every signal of the dataset is visible.
    pub fn all_visible(&self) -> (shown: bool)
        ensures
            shown == all_shown(self.signals@),
    {
        let mut k: usize = 0;
        while k < self.signals.len()
            invariant
                0 <= k <= self.signals.len(),
                forall|i: int| 0 <= i < k ==> (#[trigger] self.signals@[i]).visible,
            decreases self.signals.len() - k,
        {
            if !self.signals[k].visible {
                return false;
            }
            k = k + 1;
        }
        true
    }

    /// Shows or hides every signal of the dataset.
    pub fn set_all_visible(&mut self, visible: bool)
        requires
            old(self).wf(),
        ensures
            final(self).wf(),
            final(self).file_name == old(self).file_name,
            final(self).logs == old(self).logs,
            final(self).groups == old(self).groups,
            final(self).visibility_defaults == old(self).visibility_defaults,
            final(self).min_time == old(self).min_time,
            final(self).max_time == old(self).max_time,
            final(self).signals@.len() == old(self).signals@.len(),
            forall|i: int|
                0 <= i < final(self).signals@.len() ==> (#[trigger] final(self).signals@[i])@
                    == (SignalView { visible, ..old(self).signals@[i]@ }),
    {
        let mut k: usize = 0;
        while k < self.signals.len()
            invariant
                0 <= k <= self.signals.len(),
                self.file_name == old(self).file_name,
                self.logs == old(self).logs,
                self.groups == old(self).groups,
                self.visibility_defaults == old(self).visibility_defaults,
                self.min_time == old(self).min_time,
                self.max_time == old(self).max_time,
                self.signals@.len() == old(self).signals@.len(),
                forall|i: int|
                    0 <= i < k ==> (#[trigger] self.signals@[i])@ == (SignalView {
                        visible,
                        ..old(self).signals@[i]@
                    }),
                forall|i: int| k <= i < self.signals@.len() ==> self.signals@[i] == old(self).signals@[i],
            decreases self.signals.len() - k,
        {
            self.signals[k].visible = visible;
            k = k + 1;
        }
        proof {
            assert(same_membership(old(self).signals@, self.signals@));
            lemma_same_membership(old(self).signals@, self.signals@, Seq::empty());
            assert forall|i: int| 0 <= i < self.groups@.len() implies (#[trigger] self.groups@[i])@.signals
                == members_of(self.signals@, self.groups@[i].name@) by {
                lemma_same_membership(old(self).signals@, self.signals@, self.groups@[i].name@);
            }
        }
    }

    /// Whether every member of the group `group` is visible. Of a group that
    /// the dataset does not have, this holds.
    pub fn group_all_visible(&self, group: &str) -> (shown: bool)
        requires
            self.wf(),
        ensures
            shown == members_shown(self.signals@, members_named(self.groups@, group@)),
    {
        match find_by_name(&self.groups, group) {
            Ok(at) => {
                proof {
                    assert(self.groups@[at as int].name_text() == group@);
                    lemma_members_named(self.groups@, group@, at as int);
                }
                are_members_visible(&self.signals, &self.groups[at].signals)
            },
            Err(_) => {
                proof {
                    lemma_members_named_absent(self.groups@, group@);
                    assert forall|i: int| 0 <= i < self.signals@.len() implies !has_name(
                        Seq::<String>::empty(),
                        (#[trigger] self.signals@[i]).name@,
                    ) by {}
                }
                true
            },
        }
    }

    /// Shows or hides every member of the group `group`. Nothing changes if
    /// the dataset has no such group.
    pub fn set_group_visible(&mut self, group: &str, visible: bool)
        requires
            old(self).wf(),
        ensures
            final(self).wf(),
            final(self).file_name == old(self).file_name,
            final(self).logs == old(self).logs,
            final(self).groups == old(self).groups,
            final(self).visibility_defaults == old(self).visibility_defaults,
            final(self).min_time == old(self).min_time,
            final(self).max_time == old(self).max_time,
            is_toggle_of(
                final(self).signals@,
                old(self).signals@,
                members_named(old(self).groups@, group@),
                visible,
            ),
    {
        match find_by_name(&self.groups, group) {
            Ok(at) => {
                proof {
                    assert(self.groups@[at as int].name_text() == group@);
                    lemma_members_named(self.groups@, group@, at as int);
                }
                set_members_visible(&mut self.signals, &self.groups[at].signals, visible);
                proof {
                    lemma_same_membership(old(self).signals@, self.signals@, Seq::empty());
                    assert forall|i: int| 0 <= i < self.groups@.len() implies (#[trigger] self.groups@[i])@.signals
                        == members_of(self.signals@, self.groups@[i].name@) by {
                        lemma_same_membership(old(self).signals@, self.signals@, self.groups@[i].name@);
                    }
                }
            },
            Err(_) => {
                proof {
                    lemma_members_named_absent(self.groups@, group@);
                    assert forall|i: int| 0 <= i < self.signals@.len() implies !has_name(
                        Seq::<String>::empty(),
                        (#[trigger] self.signals@[i]).name@,
                    ) by {}
                }
            },
        }
    }

    /// Shows or hides the signal `name`. Nothing changes if the dataset has
    /// no such signal.
    pub fn set_signal_visible(&mut self, name: &str, visible: bool)
        requires
            old(self).wf(),
        ensures
            final(self).wf(),
            final(self).file_name == old(self).file_name,
            final(self).logs == old(self).logs,
            final(self).groups == old(self).groups,
            final(self).visibility_defaults == old(self).visibility_defaults,
            final(self).min_time == old(self).min_time,
            final(self).max_time == old(self).max_time,
            final(self).signals@.len() == old(self).signals@.len(),
            forall|i: int|
                0 <= i < final(self).signals@.len() ==> (#[trigger] final(self).signals@[i])@
                    == (SignalView {
                    visible: if old(self).signals@[i].name@ == name@ {
                        visible
                    } else {
                        old(self).signals@[i].visible
                    },
                    ..old(self).signals@[i]@
                }),
    {
        match find_by_name(&self.signals, name) {
            Ok(at) => {
                self.signals[at].visible = visible;
                proof {
                    assert forall|i: int| 0 <= i < self.signals@.len() implies (#[trigger] self.signals@[i])@
                        == (SignalView {
                        visible: if old(self).signals@[i].name@ == name@ {
                            visible
                        } else {
                            old(self).signals@[i].visible
                        },
                        ..old(self).signals@[i]@
                    }) by {
                        if i != at && old(self).signals@[i].name@ == name@ {
                            lemma_names_unique(old(self).signals@, i, at as int);
                        }
                    }
                    assert(same_membership(old(self).signals@, self.signals@));
                    lemma_same_membership(old(self).signals@, self.signals@, Seq::empty());
                    assert forall|i: int| 0 <= i < self.groups@.len() implies (#[trigger] self.groups@[i])@.signals
                        == members_of(self.signals@, self.groups@[i].name@) by {
                        lemma_same_membership(old(self).signals@, self.signals@, self.groups@[i].name@);
                    }
                }
            },
            Err(_) => {
                proof {
                    assert forall|i: int| 0 <= i < self.signals@.len() implies self.signals@[i].name@
                        != name@ by {
                        if self.signals@[i].name@ == name@ {
                            assert(self.signals@[i].name_text() == name@);
                        }
                    }
                }
            },
        }
    }
}

/// The earliest start among the datasets, if there is a dataset.
pub open spec fn earliest_start(files: Seq<FileData>) -> Option<i64>
    decreases files.len(),
{
    if files.len() == 0 {
        None
    } else {
        match earliest_start(files.drop_last()) {
            Some(t) => if files.last().min_time < t {
                Some(files.last().min_time)
            } else {
                Some(t)
            },
            None => Some(files.last().min_time),
        }
    }
}

/// The latest end among the datasets, and at least 0.
pub open spec fn latest_end(files: Seq<FileData>) -> i64
    decreases files.len(),
{
    if files.len() == 0 {
        0
    } else if files.last().max_time > latest_end(files.drop_last()) {
        files.last().max_time
    } else {
        latest_end(files.drop_last())
    }
}

/// The time range that the datasets on screen span: from the earliest start
/// to the latest end. Without datasets the range starts at the fallback
/// start, and a range that would end at 0 ends at the fallback end.
pub open spec fn time_range_of(files: Seq<FileData>) -> (i64, i64) {
    (
        match earliest_start(files) {
            Some(t) => t,
            None => EMPTY_MIN_TIME_MS,
        },
        if latest_end(files) == 0 {
            EMPTY_MAX_TIME_MS
        } else {
            latest_end(files)
        },
    )
}

/// The time range that the datasets on screen span.
pub fn global_time_range(files: &Vec<FileData>) -> (range: (i64, i64))
    ensures
        range == time_range_of(files@),
{
    let mut low: Option<i64> = None;
    let mut high: i64 = 0;
    let mut k: usize = 0;
    proof {
        assert(files@.take(0) =~= Seq::<FileData>::empty());
    }
    while k < files.len()
        invariant
            0 <= k <= files.len(),
            low == earliest_start(files@.take(k as int)),
            high == latest_end(files@.take(k as int)),
        decreases files.len() - k,
    {
        let file = &files[k];
        proof {
            assert(files@.take(k + 1).drop_last() =~= files@.take(k as int));
            assert(files@.take(k + 1).last() == *file);
        }
        low = match low {
            Some(t) => if file.min_time < t {
                Some(file.min_time)
            } else {
                Some(t)
            },
            None => Some(file.min_time),
        };
        if file.max_time > high {
            high = file.max_time;
        }
        k = k + 1;
    }
    proof {
        assert(files@.take(files.len() as int) =~= files@);
    }
    let start = match low {
        Some(t) => t,
        None => EMPTY_MIN_TIME_MS,
    };
    let end = if high == 0 {
        EMPTY_MAX_TIME_MS
    } else {
        high
    };
    (start, end)
}

} // verus!
