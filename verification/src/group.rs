//! Groups: which groups a list of events names, which signal belongs to
//! which group, and each group's members in name order.
//!
//! A signal belongs to the group of the first of its events that names one;
//! an empty group field names none. A signal whose events name no group is
//! in no group.

use vstd::prelude::*;
use crate::event::{text_of, Event};
use crate::named::{find_by_name, has_name, names_ascending, texts, Named, lemma_names_unique,
    lemma_insert_ascending, lemma_same_names_same_places};
use crate::signal::{SignalData, SignalView};
use crate::text::{text_lt};

verus! {

/// A named collection of signals.
#[derive(Clone, Debug, PartialEq, Eq)]
pub struct GroupData {
    pub name: String,
    /// The names of the member signals, ascending.
    pub signals: Vec<String>,
}

/// A group as a value of the model.
pub struct GroupView {
    pub name: Seq<char>,
    pub signals: Seq<Seq<char>>,
}

impl View for GroupData {
    type V = GroupView;

    open spec fn view(&self) -> GroupView {
        GroupView { name: self.name@, signals: texts(self.signals@) }
    }
}

impl Named for GroupData {
    open spec fn name_text(&self) -> Seq<char> {
        self.name@
    }

    fn name_str(&self) -> (s: &str) {
        self.name.as_str()
    }
}

/// The table `s` with each group as a value of the model.
pub open spec fn group_views(s: Seq<GroupData>) -> Seq<GroupView> {
    Seq::new(s.len(), |i: int| s[i]@)
}

/// Some event carries the signal name `name`.
pub open spec fn names_signal(events: Seq<Event>, name: Seq<char>) -> bool {
    exists|i: int| 0 <= i < events.len() && (#[trigger] events[i]).name@ == name
}

/// Some event names the group `g`.
pub open spec fn names_group(events: Seq<Event>, g: Seq<char>) -> bool {
    exists|i: int| 0 <= i < events.len() && (#[trigger] events[i]).group_text() == Some(g)
}

/// The group of the signal `name`: the one named by the first of its events
/// that names a group.
pub open spec fn group_of(events: Seq<Event>, name: Seq<char>) -> Option<Seq<char>>
    decreases events.len(),
{
    if events.len() == 0 {
        None
    } else {
        match group_of(events.drop_last(), name) {
            Some(g) => Some(g),
            None => if events.last().name@ == name {
                events.last().group_text()
            } else {
                None
            },
        }
    }
}

/// The names of those signals of a table that belong to the group `g`, in
/// the table's order.
pub open spec fn members_of(signals: Seq<SignalData>, g: Seq<char>) -> Seq<Seq<char>>
    decreases signals.len(),
{
    if signals.len() == 0 {
        Seq::empty()
    } else if text_of(signals.last().group) == Some(g) {
        members_of(signals.drop_last(), g).push(signals.last().name@)
    } else {
        members_of(signals.drop_last(), g)
    }
}

/// A signal that has seen no event.
pub open spec fn fresh(name: Seq<char>, group: Option<Seq<char>>, visible: bool) -> SignalView {
    SignalView { name, group, on_intervals: Seq::empty(), open_start: None, visible }
}

/// `signals` is the signal table of `events`: one fresh, hidden signal for
/// each signal name that occurs, in ascending name order, each with its group.
pub open spec fn is_signal_table_of(signals: Seq<SignalData>, events: Seq<Event>) -> bool {
    &&& names_ascending(signals)
    &&& forall|name: Seq<char>| has_name(signals, name) <==> names_signal(events, name)
    &&& forall|i: int|
        0 <= i < signals.len() ==> (#[trigger] signals[i])@ == fresh(
            signals[i].name@,
            group_of(events, signals[i].name@),
            false,
        )
}

/// `groups` is the group table of `events`: one group for each group name
/// that occurs, in ascending name order; the members of each are the signals
/// that belong to it, in ascending name order.
pub open spec fn is_group_table_of(groups: Seq<GroupData>, events: Seq<Event>) -> bool {
    &&& names_ascending(groups)
    &&& forall|g: Seq<char>| has_name(groups, g) <==> names_group(events, g)
    &&& forall|i: int| 0 <= i < groups.len() ==> names_ascending((#[trigger] groups[i]).signals@)
    &&& forall|i: int, name: Seq<char>|
        0 <= i < groups.len() ==> (has_name((#[trigger] groups[i]).signals@, name) <==> #[trigger] group_of(
            events,
            name,
        ) == Some(groups[i].name@))
}

proof fn lemma_names_signal_push(events: Seq<Event>, e: Event, name: Seq<char>)
    ensures
        names_signal(events.push(e), name) <==> names_signal(events, name) || e.name@ == name,
{
    let r = events.push(e);
    if names_signal(r, name) {
        let i = choose|i: int| 0 <= i < r.len() && (#[trigger] r[i]).name@ == name;
        if i < events.len() {
            assert(events[i].name@ == name);
        }
    }
    if names_signal(events, name) {
        let i = choose|i: int| 0 <= i < events.len() && (#[trigger] events[i]).name@ == name;
        assert(r[i].name@ == name);
    }
    if e.name@ == name {
        assert(r[events.len() as int].name@ == name);
    }
}

proof fn lemma_names_group_push(events: Seq<Event>, e: Event, g: Seq<char>)
    ensures
        names_group(events.push(e), g) <==> names_group(events, g) || e.group_text() == Some(g),
{
    let r = events.push(e);
    if names_group(r, g) {
        let i = choose|i: int| 0 <= i < r.len() && (#[trigger] r[i]).group_text() == Some(g);
        if i < events.len() {
            assert(events[i].group_text() == Some(g));
        }
    }
    if names_group(events, g) {
        let i = choose|i: int| 0 <= i < events.len() && (#[trigger] events[i]).group_text() == Some(g);
        assert(r[i].group_text() == Some(g));
    }
    if e.group_text() == Some(g) {
        assert(r[events.len() as int].group_text() == Some(g));
    }
}

/// A signal's group is named by one of its events; a signal without events
/// has none.
pub proof fn lemma_group_of_witness(events: Seq<Event>, name: Seq<char>)
    ensures
        match group_of(events, name) {
            Some(g) => exists|i: int|
                0 <= i < events.len() && (#[trigger] events[i]).name@ == name && events[i].group_text()
                    == Some(g),
            None => forall|i: int|
                0 <= i < events.len() && (#[trigger] events[i]).name@ == name
                    ==> events[i].group_text() is None,
        },
        !names_signal(events, name) ==> group_of(events, name) is None,
        group_of(events, name) is Some ==> names_group(events, group_of(events, name)->0),
    decreases events.len(),
{
    if events.len() > 0 {
        let front = events.drop_last();
        lemma_group_of_witness(front, name);
        assert(events =~= front.push(events.last()));
        lemma_names_signal_push(front, events.last(), name);
        match group_of(front, name) {
            Some(g) => {
                let i = choose|i: int|
                    0 <= i < front.len() && (#[trigger] front[i]).name@ == name && front[i].group_text()
                        == Some(g);
                assert(events[i] == front[i]);
            },
            None => {
                assert forall|i: int|
                    0 <= i < front.len() && (#[trigger] events[i]).name@ == name implies events[i].group_text() is None by {
                    assert(events[i] == front[i]);
                }
                if events.last().name@ == name && events.last().group_text() is Some {
                    assert(events[events.len() - 1].name@ == name);
                }
            },
        }
    }
}

/// The members of a group, drawn from an ascending signal table, are
/// ascending, and are exactly the signals of the table that belong to it.
pub proof fn lemma_members_of(signals: Seq<SignalData>, g: Seq<char>)
    requires
        names_ascending(signals),
    ensures
        forall|a: int, b: int|
            0 <= a < b < members_of(signals, g).len() ==> text_lt(
                #[trigger] members_of(signals, g)[a],
                #[trigger] members_of(signals, g)[b],
            ),
        forall|name: Seq<char>|
            members_of(signals, g).contains(name) <==> exists|i: int|
                0 <= i < signals.len() && (#[trigger] signals[i]).name@ == name && text_of(
                    signals[i].group,
                ) == Some(g),
    decreases signals.len(),
{
    let m = members_of(signals, g);
    if signals.len() == 0 {
    } else {
        let front = signals.drop_last();
        let last = signals.last();
        assert(names_ascending(front)) by {
            assert forall|i: int, j: int| 0 <= i < j < front.len() implies text_lt(
                (#[trigger] front[i]).name_text(),
                (#[trigger] front[j]).name_text(),
            ) by {
                assert(front[i] == signals[i] && front[j] == signals[j]);
            }
        }
        lemma_members_of(front, g);
        let fm = members_of(front, g);
        assert forall|name: Seq<char>| fm.contains(name) implies text_lt(name, last.name@) by {
            let i = choose|i: int|
                0 <= i < front.len() && (#[trigger] front[i]).name@ == name && text_of(front[i].group)
                    == Some(g);
            assert(front[i] == signals[i]);
            assert(text_lt(signals[i].name_text(), signals[signals.len() - 1].name_text()));
        }
        assert forall|a: int, b: int| 0 <= a < b < m.len() implies text_lt(
            #[trigger] m[a],
            #[trigger] m[b],
        ) by {
            if b < fm.len() {
                assert(m[a] == fm[a] && m[b] == fm[b]);
            } else {
                assert(m[a] == fm[a]);
                assert(fm.contains(fm[a]));
            }
        }
        assert forall|name: Seq<char>|
            m.contains(name) <==> exists|i: int|
                0 <= i < signals.len() && (#[trigger] signals[i]).name@ == name && text_of(
                    signals[i].group,
                ) == Some(g) by {
            if m.contains(name) {
                let a = choose|a: int| 0 <= a < m.len() && m[a] == name;
                if a < fm.len() {
                    assert(fm[a] == name);
                    assert(fm.contains(name));
                    let i = choose|i: int|
                        0 <= i < front.len() && (#[trigger] front[i]).name@ == name && text_of(
                            front[i].group,
                        ) == Some(g);
                    assert(signals[i] == front[i]);
                } else {
                    assert(signals[signals.len() - 1].name@ == name);
                }
            }
            if exists|i: int|
                0 <= i < signals.len() && (#[trigger] signals[i]).name@ == name && text_of(
                    signals[i].group,
                ) == Some(g) {
                let i = choose|i: int|
                    0 <= i < signals.len() && (#[trigger] signals[i]).name@ == name && text_of(
                        signals[i].group,
                    ) == Some(g);
                if i < front.len() {
                    assert(front[i] == signals[i]);
                    assert(fm.contains(name));
                    let a = choose|a: int| 0 <= a < fm.len() && fm[a] == name;
                    assert(m[a] == name);
                } else {
                    assert(m[m.len() - 1] == name);
                }
            }
        }
    }
}

} // verus!

verus! {

/// Makes sure the table has a signal called `name`, adding a fresh, hidden,
/// ungrouped one at its place if there is none. Returns where it stands.
pub fn ensure_signal(signals: &mut Vec<SignalData>, name: &String) -> (at: usize)
    requires
        names_ascending(old(signals)@),
    ensures
        names_ascending(final(signals)@),
        at < final(signals)@.len(),
        final(signals)@[at as int].name@ == name@,
        forall|n: Seq<char>| has_name(final(signals)@, n) <==> has_name(old(signals)@, n) || n == name@,
        has_name(old(signals)@, name@) ==> final(signals)@ == old(signals)@,
        !has_name(old(signals)@, name@) ==> {
            &&& at <= old(signals)@.len()
            &&& final(signals)@.len() == old(signals)@.len() + 1
            &&& final(signals)@ == old(signals)@.insert(at as int, final(signals)@[at as int])
            &&& final(signals)@[at as int]@ == fresh(name@, None, false)
        },
{
    match find_by_name(signals, name.as_str()) {
        Ok(i) => {
            proof {
                assert(signals@[i as int].name_text() == name@);
            }
            i
        },
        Err(i) => {
            let item = SignalData::new(name.clone(), None, false);
            proof {
                assert(item.name_text() == name@);
                lemma_insert_ascending(signals@, item, i);
            }
            signals.insert(i, item);
            i
        },
    }
}

/// Makes sure the table has a group called `name`, adding one without
/// members at its place if there is none.
pub fn ensure_group(groups: &mut Vec<GroupData>, name: &String)
    requires
        names_ascending(old(groups)@),
        forall|i: int| 0 <= i < old(groups)@.len() ==> (#[trigger] old(groups)@[i]).signals@.len() == 0,
    ensures
        names_ascending(final(groups)@),
        forall|n: Seq<char>| has_name(final(groups)@, n) <==> has_name(old(groups)@, n) || n == name@,
        forall|i: int| 0 <= i < final(groups)@.len() ==> (#[trigger] final(groups)@[i]).signals@.len() == 0,
{
    match find_by_name(groups, name.as_str()) {
        Ok(i) => {
            proof {
                assert(groups@[i as int].name_text() == name@);
            }
        },
        Err(i) => {
            let item = GroupData { name: name.clone(), signals: Vec::new() };
            proof {
                assert(item.name_text() == name@);
                lemma_insert_ascending(groups@, item, i);
            }
            let ghost before = groups@;
            groups.insert(i, item);
            proof {
                assert forall|j: int| 0 <= j < groups@.len() implies (#[trigger] groups@[j]).signals@.len()
                    == 0 by {
                    if j < i {
                        assert(groups@[j] == before[j]);
                    } else if j > i {
                        assert(groups@[j] == before[j - 1]);
                    }
                }
            }
        },
    }
}

/// The first pass over the events: the signal table, each signal with its
/// group, and the group table, still without members.
pub fn collect_names(events: &Vec<Event>) -> (out: (Vec<SignalData>, Vec<GroupData>))
    ensures
        is_signal_table_of(out.0@, events@),
        names_ascending(out.1@),
        forall|g: Seq<char>| has_name(out.1@, g) <==> names_group(events@, g),
        forall|i: int| 0 <= i < out.1@.len() ==> (#[trigger] out.1@[i]).signals@.len() == 0,
{
    let mut signals: Vec<SignalData> = Vec::new();
    let mut groups: Vec<GroupData> = Vec::new();
    let mut k: usize = 0;
    proof {
        assert(events@.take(0) =~= Seq::<Event>::empty());
    }
    while k < events.len()
        invariant
            0 <= k <= events.len(),
            is_signal_table_of(signals@, events@.take(k as int)),
            names_ascending(groups@),
            forall|g: Seq<char>| has_name(groups@, g) <==> names_group(events@.take(k as int), g),
            forall|i: int| 0 <= i < groups@.len() ==> (#[trigger] groups@[i]).signals@.len() == 0,
        decreases events.len() - k,
    {
        let e = &events[k];
        let ghost seen = events@.take(k as int);
        let ghost next = events@.take(k + 1);
        let ghost s0 = signals@;
        let ghost g0 = groups@;
        proof {
            assert(next =~= seen.push(*e));
            assert(next.drop_last() =~= seen);
            assert(next.last() == *e);
        }
        let at = ensure_signal(&mut signals, &e.name);
        let ghost s1 = signals@;
        proof {
            lemma_group_of_witness(seen, e.name@);
            assert forall|name: Seq<char>| has_name(s1, name) <==> names_signal(next, name) by {
                lemma_names_signal_push(seen, *e, name);
            }
            assert forall|i: int| 0 <= i < s1.len() implies (#[trigger] s1[i])@ == fresh(
                s1[i].name@,
                group_of(seen, s1[i].name@),
                false,
            ) by {
                if !has_name(s0, e.name@) {
                    if i < at {
                        assert(s1[i] == s0[i]);
                    } else if i > at {
                        assert(s1[i] == s0[i - 1]);
                    }
                }
            }
        }
        match &e.group {
            Some(g) => {
                if !g.as_str().is_empty() {
                    ensure_group(&mut groups, g);
                    if signals[at].group.is_none() {
                        signals[at].group = Some(g.clone());
                    }
                }
            },
            None => {},
        }
        proof {
            let s2 = signals@;
            assert(s2.len() == s1.len());
            assert forall|i: int| 0 <= i < s2.len() implies (#[trigger] s2[i]).name@ == s1[i].name@ by {}
            assert forall|i: int, j: int| 0 <= i < j < s2.len() implies text_lt(
                (#[trigger] s2[i]).name_text(),
                (#[trigger] s2[j]).name_text(),
            ) by {
                assert(s2[i].name@ == s1[i].name@ && s2[j].name@ == s1[j].name@);
                assert(text_lt(s1[i].name_text(), s1[j].name_text()));
            }
            assert forall|name: Seq<char>| has_name(s2, name) <==> names_signal(next, name) by {
                if has_name(s2, name) {
                    let i = choose|i: int| 0 <= i < s2.len() && (#[trigger] s2[i]).name_text() == name;
                    assert(s1[i].name_text() == name);
                }
                if has_name(s1, name) {
                    let i = choose|i: int| 0 <= i < s1.len() && (#[trigger] s1[i]).name_text() == name;
                    assert(s2[i].name_text() == name);
                }
            }
            assert forall|i: int| 0 <= i < s2.len() implies (#[trigger] s2[i])@ == fresh(
                s2[i].name@,
                group_of(next, s2[i].name@),
                false,
            ) by {
                assert(s1[i]@ == fresh(s1[i].name@, group_of(seen, s1[i].name@), false));
                if i != at {
                    assert(s2[i] == s1[i]);
                    if s1[i].name@ == e.name@ {
                        lemma_names_unique(s1, i, at as int);
                    }
                }
            }
            assert forall|g: Seq<char>| has_name(groups@, g) <==> names_group(next, g) by {
                lemma_names_group_push(seen, *e, g);
            }
        }
        k = k + 1;
    }
    proof {
        assert(events@.take(events.len() as int) =~= events@);
    }
    (signals, groups)
}

/// The second pass: every signal that belongs to a group of the table is
/// entered in that group's member list. Going through the signals in name
/// order leaves each list in name order.
pub fn fill_members(groups: &mut Vec<GroupData>, signals: &Vec<SignalData>)
    requires
        names_ascending(old(groups)@),
        forall|i: int| 0 <= i < old(groups)@.len() ==> (#[trigger] old(groups)@[i]).signals@.len() == 0,
    ensures
        final(groups)@.len() == old(groups)@.len(),
        forall|i: int|
            0 <= i < final(groups)@.len() ==> (#[trigger] final(groups)@[i])@ == (GroupView {
                name: old(groups)@[i].name@,
                signals: members_of(signals@, old(groups)@[i].name@),
            }),
        names_ascending(final(groups)@),
{
    let mut k: usize = 0;
    proof {
        assert(signals@.take(0) =~= Seq::<SignalData>::empty());
        assert forall|i: int| 0 <= i < groups@.len() implies (#[trigger] groups@[i])@ == (GroupView {
            name: old(groups)@[i].name@,
            signals: members_of(signals@.take(0), old(groups)@[i].name@),
        }) by {
            assert(texts(groups@[i].signals@) =~= Seq::<Seq<char>>::empty());
        }
    }
    while k < signals.len()
        invariant
            0 <= k <= signals.len(),
            groups@.len() == old(groups)@.len(),
            names_ascending(groups@),
            forall|i: int|
                0 <= i < groups@.len() ==> (#[trigger] groups@[i])@ == (GroupView {
                    name: old(groups)@[i].name@,
                    signals: members_of(signals@.take(k as int), old(groups)@[i].name@),
                }),
        decreases signals.len() - k,
    {
        let s = &signals[k];
        let ghost g1 = groups@;
        let ghost seen = signals@.take(k as int);
        let ghost next = signals@.take(k + 1);
        proof {
            assert(next.drop_last() =~= seen);
            assert(next.last() == *s);
        }
        match &s.group {
            Some(g) => {
                match find_by_name(groups, g.as_str()) {
                    Ok(j) => {
                        let ghost before = groups@[j as int].signals@;
                        groups[j].signals.push(s.name.clone());
                        proof {
                            let g2 = groups@;
                            assert(texts(g2[j as int].signals@) =~= texts(before).push(s.name@));
                            assert forall|i: int| 0 <= i < g2.len() implies (#[trigger] g2[i])@
                                == (GroupView {
                                name: old(groups)@[i].name@,
                                signals: members_of(next, old(groups)@[i].name@),
                            }) by {
                                assert(g1[i]@.name == old(groups)@[i].name@);
                                if i != j {
                                    assert(g2[i] == g1[i]);
                                    if g1[i].name@ == g@ {
                                        lemma_names_unique(g1, i, j as int);
                                    }
                                }
                            }
                            assert forall|a: int, b: int| 0 <= a < b < g2.len() implies text_lt(
                                (#[trigger] g2[a]).name_text(),
                                (#[trigger] g2[b]).name_text(),
                            ) by {
                                assert(g2[a]@.name == g1[a]@.name && g2[b]@.name == g1[b]@.name);
                                assert(text_lt(g1[a].name_text(), g1[b].name_text()));
                            }
                        }
                    },
                    Err(_) => {
                        proof {
                            assert forall|i: int| 0 <= i < g1.len() implies (#[trigger] g1[i])@
                                == (GroupView {
                                name: old(groups)@[i].name@,
                                signals: members_of(next, old(groups)@[i].name@),
                            }) by {
                                assert(g1[i]@.name == old(groups)@[i].name@);
                                if g1[i].name@ == g@ {
                                    assert(g1[i].name_text() == g@);
                                }
                            }
                        }
                    },
                }
            },
            None => {},
        }
        k = k + 1;
    }
    proof {
        assert(signals@.take(signals.len() as int) =~= signals@);
    }
}

/// The members that `fill_members` enters, read against the events that a
/// signal table was made from: a signal is a member of a group exactly if it
/// belongs to it.
pub proof fn lemma_members_belong(signals: Seq<SignalData>, events: Seq<Event>, g: Seq<char>)
    requires
        is_signal_table_of(signals, events),
    ensures
        forall|a: int, b: int|
            0 <= a < b < members_of(signals, g).len() ==> text_lt(
                #[trigger] members_of(signals, g)[a],
                #[trigger] members_of(signals, g)[b],
            ),
        forall|name: Seq<char>|
            members_of(signals, g).contains(name) <==> group_of(events, name) == Some(g),
{
    lemma_members_of(signals, g);
    assert forall|name: Seq<char>|
        members_of(signals, g).contains(name) <==> group_of(events, name) == Some(g) by {
        lemma_group_of_witness(events, name);
        if members_of(signals, g).contains(name) {
            let i = choose|i: int|
                0 <= i < signals.len() && (#[trigger] signals[i]).name@ == name && text_of(
                    signals[i].group,
                ) == Some(g);
            assert(signals[i]@ == fresh(signals[i].name@, group_of(events, signals[i].name@), false));
        }
        if group_of(events, name) == Some(g) {
            assert(names_signal(events, name));
            assert(has_name(signals, name));
            let i = choose|i: int| 0 <= i < signals.len() && (#[trigger] signals[i]).name_text() == name;
            assert(signals[i]@ == fresh(signals[i].name@, group_of(events, signals[i].name@), false));
            assert(text_of(signals[i].group) == Some(g));
        }
    }
}

/// Resolves the groups of a list of events: the signal table, each signal
/// with the group it belongs to, and the group table with each group's
/// members.
pub fn resolve_groups(events: &Vec<Event>) -> (out: (Vec<SignalData>, Vec<GroupData>))
    ensures
        is_signal_table_of(out.0@, events@),
        is_group_table_of(out.1@, events@),
        forall|i: int|
            0 <= i < out.1@.len() ==> (#[trigger] out.1@[i])@.signals == members_of(
                out.0@,
                out.1@[i].name@,
            ),
{
    let (signals, mut groups) = collect_names(events);
    let ghost g0 = groups@;
    fill_members(&mut groups, &signals);
    proof {
        let g1 = groups@;
        assert forall|g: Seq<char>| has_name(g1, g) <==> names_group(events@, g) by {
            if has_name(g1, g) {
                let i = choose|i: int| 0 <= i < g1.len() && (#[trigger] g1[i]).name_text() == g;
                assert(g1[i]@.name == g0[i].name@);
                assert(g0[i].name_text() == g);
            }
            if has_name(g0, g) {
                let i = choose|i: int| 0 <= i < g0.len() && (#[trigger] g0[i]).name_text() == g;
                assert(g1[i]@.name == g0[i].name@);
                assert(g1[i].name_text() == g);
            }
        }
        assert forall|i: int| 0 <= i < g1.len() implies names_ascending((#[trigger] g1[i]).signals@) by {
            lemma_members_belong(signals@, events@, g0[i].name@);
            let m = g1[i].signals@;
            assert(g1[i]@.signals == members_of(signals@, g0[i].name@));
            assert forall|a: int, b: int| 0 <= a < b < m.len() implies text_lt(
                (#[trigger] m[a]).name_text(),
                (#[trigger] m[b]).name_text(),
            ) by {
                assert(texts(m)[a] == m[a]@ && texts(m)[b] == m[b]@);
            }
        }
        assert forall|i: int, name: Seq<char>| 0 <= i < g1.len() implies (has_name(
            (#[trigger] g1[i]).signals@,
            name,
        ) <==> #[trigger] group_of(events@, name) == Some(g1[i].name@)) by {
            lemma_members_belong(signals@, events@, g0[i].name@);
            let m = g1[i].signals@;
            assert(g1[i]@.signals == members_of(signals@, g0[i].name@));
            assert(g1[i]@.name == g0[i].name@);
            if has_name(m, name) {
                let a = choose|a: int| 0 <= a < m.len() && (#[trigger] m[a]).name_text() == name;
                assert(texts(m)[a] == name);
                assert(texts(m).contains(name));
            }
            if texts(m).contains(name) {
                let a = choose|a: int| 0 <= a < texts(m).len() && texts(m)[a] == name;
                assert(m[a].name_text() == name);
            }
        }
        assert forall|i: int| 0 <= i < g1.len() implies (#[trigger] g1[i])@.signals == members_of(
            signals@,
            g1[i].name@,
        ) by {
            assert(g1[i]@.name == g0[i].name@);
        }
    }
    (signals, groups)
}

} // verus!

verus! {

/// Every signal is given at most one group: any two events of one signal that
/// name a group name the same one.
pub open spec fn one_group_per_signal(events: Seq<Event>) -> bool {
    forall|i: int, j: int|
        0 <= i < events.len() && 0 <= j < events.len() && (#[trigger] events[i]).name@
            == (#[trigger] events[j]).name@ && events[i].group_text() is Some
            && events[j].group_text() is Some ==> events[i].group_text() == events[j].group_text()
}

/// The group table is fixed by which groups the events name and which group
/// each signal belongs to: two tables made from event lists that agree on
/// both are the same, group by group and member by member.
pub proof fn lemma_group_table_determined(
    ga: Seq<GroupData>,
    a: Seq<Event>,
    gb: Seq<GroupData>,
    b: Seq<Event>,
)
    requires
        is_group_table_of(ga, a),
        is_group_table_of(gb, b),
        forall|g: Seq<char>| names_group(a, g) <==> names_group(b, g),
        forall|name: Seq<char>| group_of(a, name) == group_of(b, name),
    ensures
        group_views(ga) == group_views(gb),
{
    lemma_same_names_same_places(ga, gb);
    assert forall|i: int| 0 <= i < ga.len() implies (#[trigger] ga[i])@ == gb[i]@ by {
        let ma = ga[i].signals@;
        let mb = gb[i].signals@;
        assert(ga[i].name_text() == gb[i].name_text());
        assert forall|name: Seq<char>| has_name(ma, name) <==> has_name(mb, name) by {
            assert(has_name(ga[i].signals@, name) <==> group_of(a, name) == Some(ga[i].name@));
            assert(has_name(gb[i].signals@, name) <==> group_of(b, name) == Some(gb[i].name@));
        }
        lemma_same_names_same_places(ma, mb);
        assert(texts(ma) =~= texts(mb));
    }
    assert(group_views(ga) =~= group_views(gb));
}

proof fn lemma_permuted_event(a: Seq<Event>, b: Seq<Event>, i: int) -> (j: int)
    requires
        a.to_multiset() == b.to_multiset(),
        0 <= i < a.len(),
    ensures
        0 <= j < b.len(),
        b[j] == a[i],
{
    broadcast use vstd::seq_lib::to_multiset_contains;
    assert(a.contains(a[i]));
    assert(b.to_multiset().count(a[i]) > 0);
    assert(b.contains(a[i]));
    choose|j: int| 0 <= j < b.len() && b[j] == a[i]
}

/// Where every signal is given at most one group, a signal belongs to a
/// group exactly if one of its events names that group.
pub proof fn lemma_group_of_single(events: Seq<Event>, name: Seq<char>, g: Seq<char>)
    requires
        one_group_per_signal(events),
    ensures
        group_of(events, name) == Some(g) <==> exists|i: int|
            0 <= i < events.len() && (#[trigger] events[i]).name@ == name && events[i].group_text()
                == Some(g),
{
    lemma_group_of_witness(events, name);
    if exists|i: int|
        0 <= i < events.len() && (#[trigger] events[i]).name@ == name && events[i].group_text()
            == Some(g) {
        let i = choose|i: int|
            0 <= i < events.len() && (#[trigger] events[i]).name@ == name && events[i].group_text()
                == Some(g);
        match group_of(events, name) {
            Some(h) => {
                let j = choose|j: int|
                    0 <= j < events.len() && (#[trigger] events[j]).name@ == name
                        && events[j].group_text() == Some(h);
                assert(events[i].group_text() == events[j].group_text());
            },
            None => {
                assert(events[i].group_text() is None);
            },
        }
    }
}

/// Group resolution does not depend on the order of the events, as long as
/// every signal is given at most one group: the group tables of two
/// orderings of such a list are the same, group by group and member by
/// member.
pub proof fn lemma_groups_order_independent(
    ga: Seq<GroupData>,
    a: Seq<Event>,
    gb: Seq<GroupData>,
    b: Seq<Event>,
)
    requires
        is_group_table_of(ga, a),
        is_group_table_of(gb, b),
        a.to_multiset() == b.to_multiset(),
        one_group_per_signal(a),
    ensures
        group_views(ga) == group_views(gb),
{
    assert(one_group_per_signal(b)) by {
        assert forall|i: int, j: int|
            0 <= i < b.len() && 0 <= j < b.len() && (#[trigger] b[i]).name@ == (#[trigger] b[j]).name@
                && b[i].group_text() is Some && b[j].group_text() is Some implies b[i].group_text()
            == b[j].group_text() by {
            let x = lemma_permuted_event(b, a, i);
            let y = lemma_permuted_event(b, a, j);
            assert(a[x].name@ == a[y].name@);
        }
    }
    assert forall|g: Seq<char>| names_group(a, g) <==> names_group(b, g) by {
        if names_group(a, g) {
            let i = choose|i: int| 0 <= i < a.len() && (#[trigger] a[i]).group_text() == Some(g);
            let j = lemma_permuted_event(a, b, i);
            assert(b[j].group_text() == Some(g));
        }
        if names_group(b, g) {
            let i = choose|i: int| 0 <= i < b.len() && (#[trigger] b[i]).group_text() == Some(g);
            let j = lemma_permuted_event(b, a, i);
            assert(a[j].group_text() == Some(g));
        }
    }
    assert forall|name: Seq<char>| group_of(a, name) == group_of(b, name) by {
        match group_of(a, name) {
            Some(g) => {
                lemma_group_of_single(a, name, g);
                lemma_group_of_single(b, name, g);
                let i = choose|i: int|
                    0 <= i < a.len() && (#[trigger] a[i]).name@ == name && a[i].group_text() == Some(g);
                let j = lemma_permuted_event(a, b, i);
                assert(b[j].name@ == name && b[j].group_text() == Some(g));
            },
            None => {
                match group_of(b, name) {
                    Some(g) => {
                        lemma_group_of_single(a, name, g);
                        lemma_group_of_single(b, name, g);
                        let i = choose|i: int|
                            0 <= i < b.len() && (#[trigger] b[i]).name@ == name && b[i].group_text()
                                == Some(g);
                        let j = lemma_permuted_event(b, a, i);
                        assert(a[j].name@ == name && a[j].group_text() == Some(g));
                    },
                    None => {},
                }
            },
        }
    }
    lemma_group_table_determined(ga, a, gb, b);
}

} // verus!

verus! {

/// The names of those signals of a table that belong to the group `group`.
pub fn members_in(signals: &Vec<SignalData>, group: &str) -> (out: Vec<String>)
    ensures
        texts(out@) == members_of(signals@, group@),
{
    let mut out: Vec<String> = Vec::new();
    let mut k: usize = 0;
    proof {
        assert(signals@.take(0) =~= Seq::<SignalData>::empty());
        assert(texts(out@) =~= Seq::<Seq<char>>::empty());
    }
    while k < signals.len()
        invariant
            0 <= k <= signals.len(),
            texts(out@) == members_of(signals@.take(k as int), group@),
        decreases signals.len() - k,
    {
        let s = &signals[k];
        proof {
            assert(signals@.take(k + 1).drop_last() =~= signals@.take(k as int));
            assert(signals@.take(k + 1).last() == *s);
        }
        let belongs = match &s.group {
            Some(g) => crate::text::same_text(g.as_str(), group),
            None => false,
        };
        if belongs {
            let ghost before = texts(out@);
            out.push(s.name.clone());
            proof {
                assert(texts(out@) =~= before.push(s.name@));
            }
        }
        k = k + 1;
    }
    proof {
        assert(signals@.take(signals.len() as int) =~= signals@);
    }
    out
}

} // verus!
