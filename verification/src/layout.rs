//! Vertical layout: which signals are shown, in what order, and at which
//! offset each is drawn.
//!
//! Shown are the visible signals that belong to a group, taken dataset by
//! dataset, group by group in ascending group name, member by member in
//! ascending signal name. Of `n` shown signals the one at position `i` is
//! drawn at offset `2 * (n - i) - 1`: the first one topmost, each two units
//! apart from the next.

use vstd::prelude::*;
use vstd::string::StringExecFns;
use crate::dataset::FileData;
use crate::group::GroupData;
use crate::named::{find_by_name, names_ascending, texts, Named, lemma_names_unique};
use crate::signal::SignalData;

verus! {

/// The number of colours that shown signals go through in turn.
pub const PALETTE_SIZE: usize = 8;

/// The most signals that can be laid out: each takes two units of offset, and
/// every offset stays below 2^31.
pub const MAX_SLOTS: usize = 0x4000_0000;

/// A visible signal of one of the datasets on screen.
#[derive(Clone, Debug, PartialEq, Eq)]
pub struct ShownSignal {
    /// The dataset's position among the datasets on screen.
    pub file_index: usize,
    /// The signal's name.
    pub name: String,
    /// Dataset name and signal name, as the signal is labelled.
    pub label: String,
}

/// A shown signal as a value of the model.
pub struct ShownView {
    pub file_index: int,
    pub name: Seq<char>,
    pub label: Seq<char>,
}

impl View for ShownSignal {
    type V = ShownView;

    open spec fn view(&self) -> ShownView {
        ShownView { file_index: self.file_index as int, name: self.name@, label: self.label@ }
    }
}

/// The place of a shown signal in the layout.
#[derive(Clone, Debug, PartialEq, Eq)]
pub struct LayoutSlot {
    pub file_index: usize,
    pub name: String,
    pub label: String,
    /// Which colour of the palette the signal is drawn in.
    pub color_index: usize,
    /// The baseline of the signal's waveform.
    pub offset: u64,
}

/// A layout slot as a value of the model.
pub struct SlotView {
    pub file_index: int,
    pub name: Seq<char>,
    pub label: Seq<char>,
    pub color_index: int,
    pub offset: int,
}

impl View for LayoutSlot {
    type V = SlotView;

    open spec fn view(&self) -> SlotView {
        SlotView {
            file_index: self.file_index as int,
            name: self.name@,
            label: self.label@,
            color_index: self.color_index as int,
            offset: self.offset as int,
        }
    }
}

/// The signal `name` is in the table and visible.
pub open spec fn is_shown(signals: Seq<SignalData>, name: Seq<char>) -> bool {
    exists|i: int| 0 <= i < signals.len() && (#[trigger] signals[i]).name@ == name && signals[i].visible
}

/// Those of `members` that are shown, in their order.
pub open spec fn shown_members(signals: Seq<SignalData>, members: Seq<Seq<char>>) -> Seq<Seq<char>>
    decreases members.len(),
{
    if members.len() == 0 {
        Seq::empty()
    } else if is_shown(signals, members.last()) {
        shown_members(signals, members.drop_last()).push(members.last())
    } else {
        shown_members(signals, members.drop_last())
    }
}

/// The shown signals of a dataset: group after group, each group's shown
/// members in their order.
pub open spec fn shown_order(signals: Seq<SignalData>, groups: Seq<GroupData>) -> Seq<Seq<char>>
    decreases groups.len(),
{
    if groups.len() == 0 {
        Seq::empty()
    } else {
        shown_order(signals, groups.drop_last()) + shown_members(signals, groups.last()@.signals)
    }
}

/// The label of a signal: dataset name, a slash between spaces, signal name.
pub open spec fn label_of(file_name: Seq<char>, name: Seq<char>) -> Seq<char> {
    file_name + " / "@ + name
}

/// The shown signals of the dataset at position `index`.
pub open spec fn shown_in_file(file: FileData, index: int) -> Seq<ShownView> {
    let names = shown_order(file.signals@, file.groups@);
    Seq::new(
        names.len(),
        |j: int| ShownView { file_index: index, name: names[j], label: label_of(file.file_name@, names[j]) },
    )
}

/// The shown signals of all datasets on screen, dataset after dataset.
pub open spec fn shown_in_files(files: Seq<FileData>) -> Seq<ShownView>
    decreases files.len(),
{
    if files.len() == 0 {
        Seq::empty()
    } else {
        shown_in_files(files.drop_last()) + shown_in_file(files.last(), files.len() - 1)
    }
}

/// The views of a list of shown signals.
pub open spec fn shown_views(s: Seq<ShownSignal>) -> Seq<ShownView> {
    Seq::new(s.len(), |i: int| s[i]@)
}

/// The offset of the signal at position `i` of `total`.
pub open spec fn offset_of(total: int, i: int) -> int {
    2 * (total - i) - 1
}

/// The colour of the signal of dataset `file_index` at position `i`.
pub open spec fn color_of(file_index: int, i: int) -> int {
    (file_index + i) % (PALETTE_SIZE as int)
}

/// The slot of the shown signal `s` at position `i` of `total`.
pub open spec fn slot_of(s: ShownView, total: int, i: int) -> SlotView {
    SlotView {
        file_index: s.file_index,
        name: s.name,
        label: s.label,
        color_index: color_of(s.file_index, i),
        offset: offset_of(total, i),
    }
}

/// `slots` is the layout of `shown`.
pub open spec fn is_layout_of(slots: Seq<LayoutSlot>, shown: Seq<ShownView>) -> bool {
    &&& slots.len() == shown.len()
    &&& forall|i: int| 0 <= i < slots.len() ==> (#[trigger] slots[i])@ == slot_of(shown[i], shown.len() as int, i)
}

/// The offsets of a layout of `total` signals are the odd numbers from 1 to
/// `2 * total - 1`, each taken once: the first position gets the largest.
pub proof fn lemma_offsets_distinct(total: int, i: int, j: int)
    requires
        0 <= i < total,
        0 <= j < total,
    ensures
        1 <= offset_of(total, i) <= 2 * total - 1,
        offset_of(total, i) % 2 == 1,
        i != j ==> offset_of(total, i) != offset_of(total, j),
        i < j ==> offset_of(total, i) > offset_of(total, j),
        offset_of(total, 0) == 2 * total - 1,
{
}

/// Every odd number from 1 to `2 * total - 1` is the offset of one position.
pub proof fn lemma_offsets_onto(total: int, offset: int) -> (i: int)
    requires
        1 <= offset <= 2 * total - 1,
        offset % 2 == 1,
    ensures
        0 <= i < total,
        offset_of(total, i) == offset,
{
    total - (offset + 1) / 2
}

/// In a layout no two slots share an offset, and every offset is odd and lies
/// between 1 and twice the number of slots less one.
pub proof fn lemma_layout_unique(slots: Seq<LayoutSlot>, shown: Seq<ShownView>)
    requires
        is_layout_of(slots, shown),
    ensures
        forall|i: int|
            0 <= i < slots.len() ==> 1 <= (#[trigger] slots[i]).offset <= 2 * slots.len() - 1
                && slots[i].offset % 2 == 1,
        forall|i: int, j: int|
            0 <= i < slots.len() && 0 <= j < slots.len() && i != j ==> (#[trigger] slots[i]).offset
                != (#[trigger] slots[j]).offset,
{
    assert forall|i: int| 0 <= i < slots.len() implies 1 <= (#[trigger] slots[i]).offset <= 2
        * slots.len() - 1 && slots[i].offset % 2 == 1 by {
        assert(slots[i]@.offset == offset_of(shown.len() as int, i));
    }
    assert forall|i: int, j: int|
        0 <= i < slots.len() && 0 <= j < slots.len() && i != j implies (#[trigger] slots[i]).offset
        != (#[trigger] slots[j]).offset by {
        assert(slots[i]@.offset == offset_of(shown.len() as int, i));
        assert(slots[j]@.offset == offset_of(shown.len() as int, j));
    }
}

impl FileData {
    /// The names of the dataset's shown signals, in layout order.
    pub fn visible_order(&self) -> (names: Vec<String>)
        requires
            names_ascending(self.signals@),
        ensures
            texts(names@) == shown_order(self.signals@, self.groups@),
    {
        let mut names: Vec<String> = Vec::new();
        let mut g: usize = 0;
        proof {
            assert(self.groups@.take(0) =~= Seq::<GroupData>::empty());
            assert(texts(names@) =~= Seq::<Seq<char>>::empty());
        }
        while g < self.groups.len()
            invariant
                0 <= g <= self.groups.len(),
                names_ascending(self.signals@),
                texts(names@) == shown_order(self.signals@, self.groups@.take(g as int)),
            decreases self.groups.len() - g,
        {
            let group = &self.groups[g];
            let ghost members = group@.signals;
            let ghost head = texts(names@);
            let mut m: usize = 0;
            proof {
                assert(self.groups@.take(g + 1).drop_last() =~= self.groups@.take(g as int));
                assert(self.groups@.take(g + 1).last() == *group);
                assert(members.take(0) =~= Seq::<Seq<char>>::empty());
                assert(head + Seq::<Seq<char>>::empty() =~= head);
            }
            while m < group.signals.len()
                invariant
                    0 <= m <= group.signals.len(),
                    names_ascending(self.signals@),
                    members == group@.signals,
                    members.len() == group.signals.len(),
                    texts(names@) == head + shown_members(self.signals@, members.take(m as int)),
                decreases group.signals.len() - m,
            {
                let member = &group.signals[m];
                proof {
                    assert(members.take(m + 1).drop_last() =~= members.take(m as int));
                    assert(members.take(m + 1).last() == member@);
                }
                let ghost before = texts(names@);
                match find_by_name(&self.signals, member.as_str()) {
                    Ok(at) => {
                        proof {
                            if is_shown(self.signals@, member@) {
                                let i = choose|i: int|
                                    0 <= i < self.signals@.len() && (#[trigger] self.signals@[i]).name@
                                        == member@ && self.signals@[i].visible;
                                lemma_names_unique(self.signals@, i, at as int);
                            }
                        }
                        if self.signals[at].visible {
                            names.push(member.clone());
                            proof {
                                assert(self.signals@[at as int].name@ == member@);
                                assert(texts(names@) =~= before.push(member@));
                                assert(before.push(member@) =~= head + shown_members(
                                    self.signals@,
                                    members.take(m as int),
                                ).push(member@));
                            }
                        }
                    },
                    Err(_) => {
                        proof {
                            if is_shown(self.signals@, member@) {
                                let i = choose|i: int|
                                    0 <= i < self.signals@.len() && (#[trigger] self.signals@[i]).name@
                                        == member@ && self.signals@[i].visible;
                                assert(self.signals@[i].name_text() == member@);
                            }
                        }
                    },
                }
                m = m + 1;
            }
            proof {
                assert(members.take(members.len() as int) =~= members);
            }
            g = g + 1;
        }
        proof {
            assert(self.groups@.take(self.groups.len() as int) =~= self.groups@);
        }
        names
    }
}

/// The label under which a signal of a dataset is shown.
pub fn make_label(file_name: &String, name: &String) -> (label: String)
    ensures
        label@ == label_of(file_name@, name@),
{
    file_name.clone().concat(" / ").concat(name.as_str())
}

/// The shown signals of the datasets on screen, in layout order.
pub fn shown_signals(files: &Vec<FileData>) -> (shown: Vec<ShownSignal>)
    requires
        forall|i: int| 0 <= i < files@.len() ==> names_ascending((#[trigger] files@[i]).signals@),
    ensures
        shown_views(shown@) == shown_in_files(files@),
{
    let mut shown: Vec<ShownSignal> = Vec::new();
    let mut f: usize = 0;
    proof {
        assert(files@.take(0) =~= Seq::<FileData>::empty());
        assert(shown_views(shown@) =~= Seq::<ShownView>::empty());
    }
    while f < files.len()
        invariant
            0 <= f <= files.len(),
            forall|i: int| 0 <= i < files@.len() ==> names_ascending((#[trigger] files@[i]).signals@),
            shown_views(shown@) == shown_in_files(files@.take(f as int)),
        decreases files.len() - f,
    {
        let file = &files[f];
        let names = file.visible_order();
        let ghost head = shown_views(shown@);
        let ghost part = shown_in_file(*file, f as int);
        proof {
            assert(files@.take(f + 1).drop_last() =~= files@.take(f as int));
            assert(files@.take(f + 1).last() == *file);
            assert(files@.take(f + 1).len() - 1 == f);
            assert(head + part.take(0) =~= head);
            assert(texts(names@).len() == names@.len());
        }
        let mut j: usize = 0;
        while j < names.len()
            invariant
                0 <= j <= names.len(),
                texts(names@) == shown_order(file.signals@, file.groups@),
                part == shown_in_file(*file, f as int),
                part.len() == names.len(),
                shown_views(shown@) == head + part.take(j as int),
            decreases names.len() - j,
        {
            let name = &names[j];
            let label = make_label(&file.file_name, name);
            let ghost before = shown_views(shown@);
            shown.push(ShownSignal { file_index: f, name: name.clone(), label });
            proof {
                assert(texts(names@)[j as int] == name@);
                assert(shown_views(shown@) =~= before.push(part[j as int]));
                assert(before.push(part[j as int]) =~= head + part.take(j + 1));
            }
            j = j + 1;
        }
        proof {
            assert(part.take(part.len() as int) =~= part);
        }
        f = f + 1;
    }
    proof {
        assert(files@.take(files.len() as int) =~= files@);
    }
    shown
}

/// Gives each shown signal its slot: its colour and its offset.
pub fn assign_layout(shown: Vec<ShownSignal>) -> (slots: Vec<LayoutSlot>)
    requires
        shown@.len() <= MAX_SLOTS,
    ensures
        is_layout_of(slots@, shown_views(shown@)),
        forall|i: int|
            0 <= i < slots@.len() ==> 1 <= (#[trigger] slots@[i]).offset <= 2 * slots@.len() - 1
                && slots@[i].offset % 2 == 1,
        forall|i: int, j: int|
            0 <= i < slots@.len() && 0 <= j < slots@.len() && i != j ==> (#[trigger] slots@[i]).offset
                != (#[trigger] slots@[j]).offset,
{
    let total: usize = shown.len();
    let ghost all = shown@;
    let mut slots: Vec<LayoutSlot> = Vec::new();
    for s in it: shown
        invariant
            it.seq() == all,
            total == all.len(),
            total <= MAX_SLOTS,
            slots@.len() == it.index(),
            forall|i: int|
                0 <= i < slots@.len() ==> (#[trigger] slots@[i])@ == slot_of(all[i]@, total as int, i),
    {
        let i: usize = slots.len();
        let color_index: usize = (s.file_index % PALETTE_SIZE + i % PALETTE_SIZE) % PALETTE_SIZE;
        let offset: u64 = ((total - i) as u64) * 2 - 1;
        slots.push(
            LayoutSlot { file_index: s.file_index, name: s.name, label: s.label, color_index, offset },
        );
    }
    proof {
        lemma_layout_unique(slots@, shown_views(all));
    }
    slots
}

/// The label of the slot drawn at `offset`, if there is one: the lookup that
/// an axis uses to name its marks.
pub fn label_at(slots: &Vec<LayoutSlot>, offset: i64) -> (label: Option<String>)
    ensures
        match label {
            Some(l) => exists|i: int|
                0 <= i < slots@.len() && (#[trigger] slots@[i]).offset == offset && slots@[i].label@
                    == l@ && forall|j: int| 0 <= j < i ==> (#[trigger] slots@[j]).offset != offset,
            None => forall|i: int| 0 <= i < slots@.len() ==> (#[trigger] slots@[i]).offset != offset,
        },
{
    if offset < 0 {
        return None;
    }
    let wanted: u64 = offset as u64;
    let mut k: usize = 0;
    while k < slots.len()
        invariant
            0 <= k <= slots.len(),
            wanted == offset,
            forall|j: int| 0 <= j < k ==> (#[trigger] slots@[j]).offset != offset,
        decreases slots.len() - k,
    {
        if slots[k].offset == wanted {
            return Some(slots[k].label.clone());
        }
        k = k + 1;
    }
    None
}

} // verus!
