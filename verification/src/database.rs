//! Disks as stored rows: what is written for a disk, and what a row that was read
//! stands for. Reading and writing the store itself is left to the caller.

use vstd::prelude::*;
use vstd::string::StringExecFns;
use crate::disk::{
    affix_view, is_listed, lemma_kind_names_differ, Affix, AffixValueType, AffixView, Disk,
    DiskView, FIRST_SLOT, LAST_SLOT,
};
use crate::source::{DISK_AFFIX_NAMES, DISK_SETS};
use crate::text::{decimal, decimal_text, joined};

verus! {

/// The three cells that hold one affix, as they were read: the name, the number and the
/// word for the kind.
pub struct AffixCells<V> {
    pub name: String,
    pub value: V,
    pub value_type: String,
}

/// The cells of one affix as a mathematical value.
pub struct AffixCellsView<V> {
    pub name: Seq<char>,
    pub value: V,
    pub value_type: Seq<char>,
}

impl<V> View for AffixCells<V> {
    type V = AffixCellsView<V>;

    open spec fn view(&self) -> AffixCellsView<V> {
        AffixCellsView { name: self.name@, value: self.value, value_type: self.value_type@ }
    }
}

/// The cells of an affix that may be absent, as a mathematical value.
pub open spec fn cells_view<V>(cells: Option<AffixCells<V>>) -> Option<AffixCellsView<V>> {
    match cells {
        Some(c) => Some(c@),
        None => None,
    }
}

/// One stored row: the set, the slot, the cells of the primary affix and those of the
/// four secondary affixes. The cells of an affix are absent where any of the three is
/// empty or cannot be read.
pub struct DiskRow<V> {
    pub set: String,
    pub slot: i64,
    pub primary_affix: Option<AffixCells<V>>,
    pub secondary_affixes: [Option<AffixCells<V>>; 4],
}

/// A stored row as a mathematical value.
pub struct DiskRowView<V> {
    pub set: Seq<char>,
    pub slot: i64,
    pub primary_affix: Option<AffixCellsView<V>>,
    pub secondary_affixes: Seq<Option<AffixCellsView<V>>>,
}

impl<V> View for DiskRow<V> {
    type V = DiskRowView<V>;

    open spec fn view(&self) -> DiskRowView<V> {
        DiskRowView {
            set: self.set@,
            slot: self.slot,
            primary_affix: cells_view(self.primary_affix),
            secondary_affixes: self.secondary_affixes@.map_values(
                |c: Option<AffixCells<V>>| cells_view(c),
            ),
        }
    }
}

/// The cells that are written for an affix.
pub open spec fn cells_of<V>(affix: AffixView<V>) -> AffixCellsView<V> {
    AffixCellsView { name: affix.name, value: affix.value, value_type: affix.value_type.name() }
}

/// The row that is written for a disk: an absent secondary affix leaves its cells empty.
pub open spec fn row_of<V>(disk: DiskView<V>) -> DiskRowView<V> {
    DiskRowView {
        set: disk.set,
        slot: disk.slot as i64,
        primary_affix: Some(cells_of(disk.primary_affix)),
        secondary_affixes: disk.secondary_affixes.map_values(
            |a: Option<AffixView<V>>|
                match a {
                    Some(affix) => Some(cells_of(affix)),
                    None => None,
                },
        ),
    }
}

/// The cells that are written for an affix.
fn affix_cells<V: Copy>(affix: &Affix<V>) -> (cells: AffixCells<V>)
    ensures
        cells@ == cells_of(affix@),
{
    AffixCells {
        name: String::from_str(affix.name),
        value: affix.value,
        value_type: affix.value_type.to_string(),
    }
}

/// The cells that are written for a secondary affix.
fn optional_cells<V: Copy>(affix: &Option<Affix<V>>) -> (cells: Option<AffixCells<V>>)
    ensures
        cells_view(cells) == match affix_view(*affix) {
            Some(a) => Some(cells_of(a)),
            None => None,
        },
{
    match affix {
        Some(a) => Some(affix_cells(a)),
        None => None,
    }
}

/// The row that is written for a disk.
pub fn disk_row<V: Copy>(disk: &Disk<V>) -> (row: DiskRow<V>)
    ensures
        row@ == row_of(disk@),
{
    let secondary_affixes = [
        optional_cells(&disk.secondary_affixes[0]),
        optional_cells(&disk.secondary_affixes[1]),
        optional_cells(&disk.secondary_affixes[2]),
        optional_cells(&disk.secondary_affixes[3]),
    ];
    let row = DiskRow {
        set: String::from_str(disk.set),
        slot: disk.slot as i64,
        primary_affix: Some(affix_cells(&disk.primary_affix)),
        secondary_affixes,
    };
    proof {
        assert(row@.secondary_affixes =~= row_of(disk@).secondary_affixes);
    }
    row
}

/// The kind that a word names; any word but `percentage` is taken for `flat`.
pub open spec fn kind_named(word: Seq<char>) -> AffixValueType {
    if word == "percentage"@ {
        AffixValueType::Percentage
    } else {
        AffixValueType::Flat
    }
}

/// The affix that the cells stand for. The word for the kind is checked first, then the
/// name.
pub open spec fn affix_of<V>(cells: AffixCellsView<V>) -> Result<AffixView<V>, Seq<char>> {
    if cells.value_type != "flat"@ && cells.value_type != "percentage"@ {
        Err("Invalid affix value type: "@ + cells.value_type)
    } else if !is_listed(DISK_AFFIX_NAMES@, cells.name) {
        Err("Invalid affix name: "@ + cells.name)
    } else {
        Ok(AffixView { name: cells.name, value: cells.value, value_type: kind_named(cells.value_type) })
    }
}

/// The secondary affixes that the cells from position `from` on stand for: the affixes
/// up to the first absent one. What follows an absent affix is not looked at.
pub open spec fn affixes_of<V>(cells: Seq<Option<AffixCellsView<V>>>, from: int) -> Result<
    Seq<AffixView<V>>,
    Seq<char>,
>
    decreases cells.len() - from,
{
    if from < 0 || from >= cells.len() {
        Ok(Seq::empty())
    } else {
        match cells[from] {
            None => Ok(Seq::empty()),
            Some(c) => match affix_of(c) {
                Err(message) => Err(message),
                Ok(affix) => match affixes_of(cells, from + 1) {
                    Err(message) => Err(message),
                    Ok(rest) => Ok(seq![affix] + rest),
                },
            },
        }
    }
}

/// `affixes`, followed by absent affixes up to the number `len`.
pub open spec fn padded<V>(affixes: Seq<AffixView<V>>, len: nat) -> Seq<Option<AffixView<V>>> {
    Seq::new(
        len,
        |i: int|
            if i < affixes.len() {
                Some(affixes[i])
            } else {
                None
            },
    )
}

/// The disk that a row stands for. The set is checked first, then the slot, then the
/// primary affix, then the secondary affixes in their order.
pub open spec fn disk_of<V>(row: DiskRowView<V>) -> Result<DiskView<V>, Seq<char>> {
    if !is_listed(DISK_SETS@, row.set) {
        Err("Invalid disk set: "@ + row.set)
    } else if !(FIRST_SLOT <= row.slot <= LAST_SLOT) {
        Err("Invalid slot: "@ + decimal(row.slot as int))
    } else {
        match row.primary_affix {
            None => Err("Failed to read primary affix"@),
            Some(c) => match affix_of(c) {
                Err(message) => Err(message),
                Ok(primary_affix) => match affixes_of(row.secondary_affixes, 0) {
                    Err(message) => Err(message),
                    Ok(affixes) => Ok(
                        DiskView {
                            set: row.set,
                            slot: row.slot as u8,
                            primary_affix,
                            secondary_affixes: padded(affixes, row.secondary_affixes.len()),
                        },
                    ),
                },
            },
        }
    }
}

/// What was found before position `at` and what the cells from `at` on stand for make
/// up what all the cells stand for.
spec fn continues<V>(
    cells: Seq<Option<AffixCellsView<V>>>,
    found: Seq<AffixView<V>>,
    at: int,
) -> bool {
    affixes_of(cells, 0) == match affixes_of(cells, at) {
        Ok(rest) => Ok::<Seq<AffixView<V>>, Seq<char>>(found + rest),
        Err(message) => Err(message),
    }
}

/// The affix that the cells stand for, or why they stand for none.
fn affix_from_cells<V: Copy>(cells: &AffixCells<V>) -> (read: Result<Affix<V>, String>)
    ensures
        match read {
            Ok(affix) => affix_of(cells@) == Ok::<AffixView<V>, Seq<char>>(affix@),
            Err(message) => affix_of(cells@) == Err::<AffixView<V>, Seq<char>>(message@),
        },
{
    proof {
        lemma_kind_names_differ();
    }
    Affix::try_from((cells.name.as_str(), cells.value, cells.value_type.as_str()))
}

/// The disk that a row stands for, or why it stands for none.
///
/// The set has to be a set name, the slot one of the six slots and every affix that is
/// read a valid affix. The primary affix has to be there. Of the secondary affixes those
/// before the first absent one are read.
#[verifier::loop_isolation(false)]
pub fn disk_from_row<V: Copy>(row: &DiskRow<V>) -> (read: Result<Disk<V>, String>)
    ensures
        match read {
            Ok(disk) => disk_of(row@) == Ok::<DiskView<V>, Seq<char>>(disk@),
            Err(message) => disk_of(row@) == Err::<DiskView<V>, Seq<char>>(message@),
        },
{
    let set: &'static str = match Disk::<V>::get_static_set_name(row.set.as_str()) {
        Some(listed) => listed,
        None => { return Err(joined("Invalid disk set: ", row.set.as_str())) },
    };
    if row.slot < FIRST_SLOT as i64 || row.slot > LAST_SLOT as i64 {
        let number = decimal_text(row.slot);
        return Err(joined("Invalid slot: ", number.as_str()));
    }
    let slot = row.slot as u8;
    let primary_affix = match &row.primary_affix {
        Some(cells) => match affix_from_cells(cells) {
            Ok(affix) => affix,
            Err(message) => { return Err(message) },
        },
        None => { return Err(String::from_str("Failed to read primary affix")) },
    };
    let ghost cells = row@.secondary_affixes;
    let mut secondary_affixes: [Option<Affix<V>>; 4] = [None, None, None, None];
    let ghost mut found: Seq<AffixView<V>> = Seq::empty();
    let mut more = true;
    let mut i: usize = 0;
    proof {
        assert(match affixes_of(cells, 0) {
            Ok(rest) => Seq::<AffixView<V>>::empty() + rest =~= rest,
            Err(message) => true,
        });
        assert(secondary_affixes@.map_values(|a: Option<Affix<V>>| affix_view(a)) =~= padded(
            found,
            4,
        ));
    }
    while i < 4 && more
        invariant
            i <= 4,
            cells == row@.secondary_affixes,
            cells.len() == 4,
            found.len() <= i,
            more ==> found.len() == i && continues(cells, found, i as int),
            !more ==> affixes_of(cells, 0) == Ok::<Seq<AffixView<V>>, Seq<char>>(found),
            secondary_affixes@.map_values(|a: Option<Affix<V>>| affix_view(a)) == padded(found, 4),
        decreases 4 - i + if more { 1int } else { 0int },
    {
        assert(cells[i as int] == cells_view(row.secondary_affixes@[i as int]));
        match &row.secondary_affixes[i] {
            None => {
                more = false;
                proof {
                    assert(found + Seq::<AffixView<V>>::empty() =~= found);
                }
            },
            Some(c) => {
                let affix = match affix_from_cells(c) {
                    Ok(affix) => affix,
                    Err(message) => { return Err(message) },
                };
                let ghost had = secondary_affixes@;
                proof {
                    let grown = found.push(affix@);
                    assert(match affixes_of(cells, i + 1) {
                        Ok(rest) => found + (seq![affix@] + rest) =~= grown + rest,
                        Err(message) => true,
                    });
                    found = grown;
                }
                secondary_affixes[i] = Some(affix);
                proof {
                    let now = secondary_affixes@.map_values(|a: Option<Affix<V>>| affix_view(a));
                    let was = had.map_values(|a: Option<Affix<V>>| affix_view(a));
                    assert(secondary_affixes@ == had.update(i as int, Some(affix)));
                    assert forall|j: int| 0 <= j < 4 implies now[j] == padded(found, 4)[j] by {
                        if j != i {
                            assert(now[j] == was[j]);
                        }
                    }
                    assert(now =~= padded(found, 4));
                }
                i += 1;
            },
        }
    }
    proof {
        if more {
            assert(found + Seq::<AffixView<V>>::empty() =~= found);
        }
    }
    Ok(Disk { set, slot, primary_affix, secondary_affixes })
}

/// The names of the disk are names of the vocabulary, its slot is one of the six slots
/// and it has room for four secondary affixes.
pub open spec fn is_valid_disk<V>(disk: DiskView<V>) -> bool {
    &&& is_listed(DISK_SETS@, disk.set)
    &&& FIRST_SLOT <= disk.slot <= LAST_SLOT
    &&& is_listed(DISK_AFFIX_NAMES@, disk.primary_affix.name)
    &&& disk.secondary_affixes.len() == 4
    &&& forall|i: int|
        0 <= i < 4 ==> (#[trigger] disk.secondary_affixes[i] matches Some(a) ==> is_listed(
            DISK_AFFIX_NAMES@,
            a.name,
        ))
}

/// No secondary affix follows an absent one.
pub open spec fn has_no_gap<V>(disk: DiskView<V>) -> bool {
    forall|i: int, j: int|
        0 <= i < j < disk.secondary_affixes.len() && (
        #[trigger] disk.secondary_affixes[i]) is None ==> (
        #[trigger] disk.secondary_affixes[j]) is None
}

/// The cells written for a valid affix stand for that affix.
pub proof fn lemma_cells_round_trip<V>(affix: AffixView<V>)
    requires
        is_listed(DISK_AFFIX_NAMES@, affix.name),
    ensures
        affix_of(cells_of(affix)) == Ok::<AffixView<V>, Seq<char>>(affix),
{
    lemma_kind_names_differ();
}

/// What the cells written for a disk stand for, from position `from` on: the affixes
/// from there up to the first absent one.
proof fn lemma_written_affixes<V>(disk: DiskView<V>, from: int)
    requires
        is_valid_disk(disk),
        0 <= from <= 4,
    ensures
        affixes_of(row_of(disk).secondary_affixes, from) matches Ok(rest) && rest.len() <= 4 - from
            && (forall|k: int|
            0 <= k < rest.len() ==> disk.secondary_affixes[from + k] == Some(#[trigger] rest[k]))
            && (from + rest.len() < 4 ==> disk.secondary_affixes[from + rest.len()] is None),
    decreases 4 - from,
{
    let cells = row_of(disk).secondary_affixes;
    if from < 4 {
        match disk.secondary_affixes[from] {
            None => {},
            Some(affix) => {
                lemma_cells_round_trip(affix);
                lemma_written_affixes(disk, from + 1);
                assert(cells[from] == Some(cells_of(affix)));
            },
        }
    }
}

/// A valid disk in which no secondary affix follows an absent one is read back from its
/// row as it was written.
pub proof fn lemma_row_round_trip<V>(disk: DiskView<V>)
    requires
        is_valid_disk(disk),
        has_no_gap(disk),
    ensures
        disk_of(row_of(disk)) == Ok::<DiskView<V>, Seq<char>>(disk),
{
    lemma_cells_round_trip(disk.primary_affix);
    lemma_written_affixes(disk, 0);
    let rest = affixes_of(row_of(disk).secondary_affixes, 0)->Ok_0;
    assert(padded(rest, 4) =~= disk.secondary_affixes) by {
        assert forall|i: int| 0 <= i < 4 implies padded(rest, 4)[i] == disk.secondary_affixes[i] by {
            if i >= rest.len() {
                assert(disk.secondary_affixes[rest.len() as int] is None);
            }
        }
    }
}

} // verus!
