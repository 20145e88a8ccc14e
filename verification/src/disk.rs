//! Disks and their affixes: records whose names are checked against the vocabulary.
//!
//! The number an affix carries is of a type `V` that the caller chooses; nothing here
//! computes with it.

use vstd::prelude::*;
use vstd::std_specs::cmp::PartialEqSpec;
use vstd::string::StringExecFns;
use crate::source::{DISK_AFFIX_NAMES, DISK_SETS};
use crate::text::{decimal, decimal_text, joined, position_of, same_text};

verus! {

/// How the number of an affix is to be read.
#[derive(Copy, Clone, PartialEq, Eq, Structural)]
pub enum AffixValueType {
    Flat,
    Percentage,
}

impl AffixValueType {
    /// The word that stands for this kind.
    pub open spec fn name(self) -> Seq<char> {
        match self {
            AffixValueType::Flat => "flat"@,
            AffixValueType::Percentage => "percentage"@,
        }
    }

    /// The kind that `value` names: `flat` or `percentage`. Any other text is refused.
    pub fn try_from(value: &str) -> (kind: Result<Self, String>)
        ensures
            match kind {
                Ok(k) => k.name() == value@,
                Err(message) => value@ != "flat"@ && value@ != "percentage"@ && message@
                    == "Invalid affix value type: "@ + value@,
            },
    {
        if same_text(value, "flat") {
            Ok(AffixValueType::Flat)
        } else if same_text(value, "percentage") {
            Ok(AffixValueType::Percentage)
        } else {
            Err(joined("Invalid affix value type: ", value))
        }
    }

    /// The word that stands for this kind.
    pub fn to_string(&self) -> (text: String)
        ensures
            text@ == self.name(),
    {
        match self {
            AffixValueType::Flat => String::from_str("flat"),
            AffixValueType::Percentage => String::from_str("percentage"),
        }
    }
}

/// The two names of kinds are different words.
pub proof fn lemma_kind_names_differ()
    ensures
        "flat"@ != "percentage"@,
{
    reveal_strlit("flat");
    reveal_strlit("percentage");
    assert("flat"@.len() != "percentage"@.len());
}

/// `name` is one of the words of `names`.
pub open spec fn is_listed(names: Seq<&'static str>, name: Seq<char>) -> bool {
    exists|i: int| 0 <= i < names.len() && (#[trigger] names[i])@ == name
}

/// The first word of `names` with the text of `name`, if there is one.
fn listed_name(names: &[&'static str], name: &str) -> (found: Option<&'static str>)
    ensures
        match found {
            Some(listed) => listed@ == name@ && is_listed(names@, name@),
            None => !is_listed(names@, name@),
        },
{
    match position_of(names, name) {
        Some(i) => Some(names[i]),
        None => None,
    }
}

/// One property of a disk: a known affix name, a number, and how the number is read.
#[derive(Clone)]
pub struct Affix<V> {
    pub name: &'static str,
    pub value: V,
    pub value_type: AffixValueType,
}

impl<V> Affix<V> {
    /// An affix with the given name, number and kind. A name that is not an affix name
    /// is refused.
    pub fn new(name: &str, value: V, value_type: AffixValueType) -> (made: Result<Self, String>)
        ensures
            match made {
                Ok(affix) => is_listed(DISK_AFFIX_NAMES@, name@) && affix.name@ == name@
                    && affix.value == value && affix.value_type == value_type,
                Err(message) => !is_listed(DISK_AFFIX_NAMES@, name@) && message@
                    == "Invalid affix name: "@ + name@,
            },
    {
        let name: &'static str = match listed_name(DISK_AFFIX_NAMES.as_slice(), name) {
            Some(listed) => listed,
            None => { return Err(joined("Invalid affix name: ", name)) },
        };
        Ok(Affix { name, value, value_type })
    }

    /// An affix whose number is read as it stands.
    pub fn new_simple(name: &str, value: V) -> (made: Result<Self, String>)
        ensures
            match made {
                Ok(affix) => is_listed(DISK_AFFIX_NAMES@, name@) && affix.name@ == name@
                    && affix.value == value && affix.value_type == AffixValueType::Flat,
                Err(message) => !is_listed(DISK_AFFIX_NAMES@, name@) && message@
                    == "Invalid affix name: "@ + name@,
            },
    {
        Self::new(name, value, AffixValueType::Flat)
    }

    /// An affix from a name, a number and the word for the kind. The kind is checked
    /// first, then the name.
    pub fn try_from(value: (&str, V, &str)) -> (made: Result<Self, String>)
        ensures
            match made {
                Ok(affix) => is_listed(DISK_AFFIX_NAMES@, value.0@) && affix.name@ == value.0@
                    && affix.value == value.1 && affix.value_type.name() == value.2@,
                Err(message) => if value.2@ != "flat"@ && value.2@ != "percentage"@ {
                    message@ == "Invalid affix value type: "@ + value.2@
                } else {
                    !is_listed(DISK_AFFIX_NAMES@, value.0@) && message@ == "Invalid affix name: "@
                        + value.0@
                },
            },
    {
        let (name, value, value_type) = value;
        let value_type = match AffixValueType::try_from(value_type) {
            Ok(kind) => kind,
            Err(message) => { return Err(message) },
        };
        Self::new(name, value, value_type)
    }
}

impl<V: PartialEq> PartialEq for Affix<V> {
    /// Two affixes are equal when their names, numbers and kinds are.
    fn eq(&self, other: &Self) -> (same: bool) {
        same_text(self.name, other.name) && self.value == other.value && self.value_type
            == other.value_type
    }
}

impl<V: PartialEq> vstd::std_specs::cmp::PartialEqSpecImpl for Affix<V> {
    open spec fn obeys_eq_spec() -> bool {
        V::obeys_eq_spec()
    }

    open spec fn eq_spec(&self, other: &Self) -> bool {
        self.name@ == other.name@ && self.value.eq_spec(&other.value) && self.value_type
            == other.value_type
    }
}

/// An affix as a mathematical value: the text of its name, its number and its kind.
pub struct AffixView<V> {
    pub name: Seq<char>,
    pub value: V,
    pub value_type: AffixValueType,
}

impl<V> View for Affix<V> {
    type V = AffixView<V>;

    open spec fn view(&self) -> AffixView<V> {
        AffixView { name: self.name@, value: self.value, value_type: self.value_type }
    }
}

/// An optional affix as a mathematical value.
pub open spec fn affix_view<V>(affix: Option<Affix<V>>) -> Option<AffixView<V>> {
    match affix {
        Some(a) => Some(a@),
        None => None,
    }
}

/// The lowest slot a disk can sit in.
pub const FIRST_SLOT: u8 = 1;

/// The highest slot a disk can sit in.
pub const LAST_SLOT: u8 = 6;

/// A disk: the set it belongs to, its slot, its primary affix and up to four secondary
/// affixes.
pub struct Disk<V> {
    pub set: &'static str,
    pub slot: u8,
    pub primary_affix: Affix<V>,
    pub secondary_affixes: [Option<Affix<V>>; 4],
}

/// A disk as a mathematical value: the texts of its names, its slot and its affixes.
pub struct DiskView<V> {
    pub set: Seq<char>,
    pub slot: u8,
    pub primary_affix: AffixView<V>,
    pub secondary_affixes: Seq<Option<AffixView<V>>>,
}

impl<V> View for Disk<V> {
    type V = DiskView<V>;

    open spec fn view(&self) -> DiskView<V> {
        DiskView {
            set: self.set@,
            slot: self.slot,
            primary_affix: self.primary_affix@,
            secondary_affixes: self.secondary_affixes@.map_values(
                |a: Option<Affix<V>>| affix_view(a),
            ),
        }
    }
}

/// Whether two optional affixes are both absent or both present and equal.
pub open spec fn same_affix_spec<V: PartialEq>(a: Option<Affix<V>>, b: Option<Affix<V>>) -> bool {
    match (a, b) {
        (Some(x), Some(y)) => x.eq_spec(&y),
        (None, None) => true,
        _ => false,
    }
}

/// Whether two optional affixes are both absent or both present and equal.
fn same_affix<V: PartialEq>(a: &Option<Affix<V>>, b: &Option<Affix<V>>) -> (same: bool)
    ensures
        V::obeys_eq_spec() ==> same == same_affix_spec(*a, *b),
{
    match (a, b) {
        (Some(x), Some(y)) => x == y,
        (None, None) => true,
        _ => false,
    }
}

impl<V> Disk<V> {
    /// A disk of the given set in the given slot. A set that is not a set name is
    /// refused, and so is a slot outside the six slots.
    pub fn new(
        set: &str,
        slot: u8,
        primary_affix: Affix<V>,
        secondary_affix_1: Option<Affix<V>>,
        secondary_affix_2: Option<Affix<V>>,
        secondary_affix_3: Option<Affix<V>>,
        secondary_affix_4: Option<Affix<V>>,
    ) -> (made: Result<Self, String>)
        ensures
            match made {
                Ok(disk) => is_listed(DISK_SETS@, set@) && FIRST_SLOT <= slot <= LAST_SLOT
                    && disk.set@ == set@ && disk.slot == slot && disk.primary_affix
                    == primary_affix && disk.secondary_affixes@ == seq![
                    secondary_affix_1,
                    secondary_affix_2,
                    secondary_affix_3,
                    secondary_affix_4,
                ],
                Err(message) => if !is_listed(DISK_SETS@, set@) {
                    message@ == "Invalid disk set: "@ + set@
                } else {
                    !(FIRST_SLOT <= slot <= LAST_SLOT) && message@ == "Invalid slot: "@ + decimal(
                        slot as int,
                    )
                },
            },
    {
        let set: &'static str = match listed_name(DISK_SETS.as_slice(), set) {
            Some(listed) => listed,
            None => { return Err(joined("Invalid disk set: ", set)) },
        };
        if slot < FIRST_SLOT || slot > LAST_SLOT {
            let number = decimal_text(slot as i64);
            return Err(joined("Invalid slot: ", number.as_str()));
        }
        let secondary_affixes = [
            secondary_affix_1,
            secondary_affix_2,
            secondary_affix_3,
            secondary_affix_4,
        ];
        proof {
            assert(secondary_affixes@ =~= seq![
                secondary_affix_1,
                secondary_affix_2,
                secondary_affix_3,
                secondary_affix_4,
            ]);
        }
        Ok(Disk { set, slot, primary_affix, secondary_affixes })
    }

    /// A disk with three secondary affixes.
    pub fn new_simple(
        set: &str,
        slot: u8,
        primary_affix: Affix<V>,
        secondary_affix_1: Affix<V>,
        secondary_affix_2: Affix<V>,
        secondary_affix_3: Affix<V>,
    ) -> (made: Result<Self, String>)
        ensures
            match made {
                Ok(disk) => is_listed(DISK_SETS@, set@) && FIRST_SLOT <= slot <= LAST_SLOT
                    && disk.set@ == set@ && disk.slot == slot && disk.primary_affix
                    == primary_affix && disk.secondary_affixes@ == seq![
                    Some(secondary_affix_1),
                    Some(secondary_affix_2),
                    Some(secondary_affix_3),
                    None,
                ],
                Err(message) => if !is_listed(DISK_SETS@, set@) {
                    message@ == "Invalid disk set: "@ + set@
                } else {
                    !(FIRST_SLOT <= slot <= LAST_SLOT) && message@ == "Invalid slot: "@ + decimal(
                        slot as int,
                    )
                },
            },
    {
        Self::new(
            set,
            slot,
            primary_affix,
            Some(secondary_affix_1),
            Some(secondary_affix_2),
            Some(secondary_affix_3),
            None,
        )
    }

    /// The set name with the text of `set`, if there is one.
    pub fn get_static_set_name(set: &str) -> (found: Option<&'static str>)
        ensures
            match found {
                Some(listed) => listed@ == set@ && is_listed(DISK_SETS@, set@),
                None => !is_listed(DISK_SETS@, set@),
            },
    {
        listed_name(DISK_SETS.as_slice(), set)
    }

    /// The affix name with the text of `name`, if there is one.
    pub fn get_static_affix_name(name: &str) -> (found: Option<&'static str>)
        ensures
            match found {
                Some(listed) => listed@ == name@ && is_listed(DISK_AFFIX_NAMES@, name@),
                None => !is_listed(DISK_AFFIX_NAMES@, name@),
            },
    {
        listed_name(DISK_AFFIX_NAMES.as_slice(), name)
    }
}

impl<V: PartialEq> Disk<V> {
    /// Two disks have the same set, slot and affixes, field by field.
    pub open spec fn same_fields(&self, other: &Self) -> bool {
        &&& self.set@ == other.set@
        &&& self.slot == other.slot
        &&& self.primary_affix.eq_spec(&other.primary_affix)
        &&& forall|i: int|
            0 <= i < 4 ==> same_affix_spec(
                #[trigger] self.secondary_affixes@[i],
                other.secondary_affixes@[i],
            )
    }

    /// Whether two disks could be the same disk: whether their fields are equal. Whether
    /// they are one and the same record is a different question, which this does not ask.
    pub fn potential_eq(&self, other: &Self) -> (same: bool)
        ensures
            V::obeys_eq_spec() ==> same == self.same_fields(other),
    {
        same_text(self.set, other.set) && self.slot == other.slot && self.primary_affix
            == other.primary_affix && same_affix(
            &self.secondary_affixes[0],
            &other.secondary_affixes[0],
        ) && same_affix(&self.secondary_affixes[1], &other.secondary_affixes[1]) && same_affix(
            &self.secondary_affixes[2],
            &other.secondary_affixes[2],
        ) && same_affix(&self.secondary_affixes[3], &other.secondary_affixes[3])
    }
}

} // verus!
