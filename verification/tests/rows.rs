use disk_lexicon::database::{disk_from_row, disk_row, AffixCells, DiskRow};
use disk_lexicon::disk::{Affix, AffixValueType, Disk};

fn cells(name: &str, value: f64, value_type: &str) -> Option<AffixCells<f64>> {
    Some(AffixCells { name: name.to_string(), value, value_type: value_type.to_string() })
}

fn row(set: &str, slot: i64) -> DiskRow<f64> {
    DiskRow {
        set: set.to_string(),
        slot,
        primary_affix: cells("生命值", 2200.0, "flat"),
        secondary_affixes: [None, None, None, None],
    }
}

fn affix(name: &str, value: f64, value_type: AffixValueType) -> Affix<f64> {
    Affix::new(name, value, value_type).unwrap()
}

#[test]
fn row_of_a_disk_holds_its_fields() {
    let disk = Disk::new(
        "原始朋克",
        3,
        affix("生命值", 2200.0, AffixValueType::Flat),
        Some(affix("暴击率", 2.4, AffixValueType::Percentage)),
        None,
        None,
        None,
    )
    .unwrap();
    let written = disk_row(&disk);
    assert_eq!(written.set, "原始朋克");
    assert_eq!(written.slot, 3);
    let primary = written.primary_affix.unwrap();
    assert_eq!(primary.name, "生命值");
    assert_eq!(primary.value, 2200.0);
    assert_eq!(primary.value_type, "flat");
    let [first, second, third, fourth] = written.secondary_affixes;
    let first = first.unwrap();
    assert_eq!(first.name, "暴击率");
    assert_eq!(first.value, 2.4);
    assert_eq!(first.value_type, "percentage");
    assert!(second.is_none() && third.is_none() && fourth.is_none());
}

#[test]
fn disk_is_read_back_as_it_was_written() {
    let disk = Disk::new(
        "折枝剑歌",
        3,
        affix("攻击力", 316.0, AffixValueType::Flat),
        None,
        None,
        None,
        None,
    )
    .unwrap();
    let read = disk_from_row(&disk_row(&disk)).unwrap();
    assert!(read.potential_eq(&disk));
    let disk = Disk::new(
        "獠牙重金属",
        6,
        affix("物理伤害加成", 30.0, AffixValueType::Percentage),
        Some(affix("攻击力", 19.0, AffixValueType::Flat)),
        Some(affix("攻击力", 3.0, AffixValueType::Percentage)),
        Some(affix("穿透值", 9.0, AffixValueType::Flat)),
        Some(affix("暴击伤害", 4.8, AffixValueType::Percentage)),
    )
    .unwrap();
    let read = disk_from_row(&disk_row(&disk)).unwrap();
    assert!(read.potential_eq(&disk));
}

#[test]
fn affixes_after_an_absent_one_are_not_read() {
    let mut stored = row("河豚电音", 1);
    stored.secondary_affixes[0] = cells("攻击力", 19.0, "flat");
    stored.secondary_affixes[2] = cells("防御力", 15.0, "flat");
    stored.secondary_affixes[3] = cells("no such affix", 15.0, "neither");
    let disk = disk_from_row(&stored).unwrap();
    assert!(disk.secondary_affixes[0] == Some(affix("攻击力", 19.0, AffixValueType::Flat)));
    for i in 1..4 {
        assert!(disk.secondary_affixes[i].is_none());
    }
}

#[test]
fn row_with_four_secondary_affixes_is_read() {
    let mut stored = row("河豚电音", 6);
    for i in 0..4 {
        stored.secondary_affixes[i] = cells("防御力", 15.0 + i as f64, "flat");
    }
    let disk = disk_from_row(&stored).unwrap();
    assert_eq!(disk.slot, 6);
    for i in 0..4 {
        assert!(
            disk.secondary_affixes[i]
                == Some(affix("防御力", 15.0 + i as f64, AffixValueType::Flat))
        );
    }
}

#[test]
fn row_with_unknown_set_is_refused() {
    let read = disk_from_row(&row("河豚", 3));
    assert_eq!(read.err(), Some("Invalid disk set: 河豚".to_string()));
}

#[test]
fn row_with_slot_outside_the_six_slots_is_refused() {
    assert_eq!(disk_from_row(&row("河豚电音", 0)).err(), Some("Invalid slot: 0".to_string()));
    assert_eq!(disk_from_row(&row("河豚电音", 7)).err(), Some("Invalid slot: 7".to_string()));
    assert_eq!(disk_from_row(&row("河豚电音", -3)).err(), Some("Invalid slot: -3".to_string()));
    assert_eq!(disk_from_row(&row("河豚电音", 300)).err(), Some("Invalid slot: 300".to_string()));
    assert_eq!(disk_from_row(&row("河豚", 300)).err(), Some("Invalid disk set: 河豚".to_string()));
    for slot in 1..=6 {
        assert_eq!(disk_from_row(&row("河豚电音", slot)).unwrap().slot as i64, slot);
    }
}

#[test]
fn row_without_primary_affix_is_refused() {
    let mut stored = row("河豚电音", 3);
    stored.primary_affix = None;
    assert_eq!(disk_from_row(&stored).err(), Some("Failed to read primary affix".to_string()));
}

#[test]
fn row_with_invalid_affix_is_refused() {
    let mut stored = row("河豚电音", 3);
    stored.primary_affix = cells("生命", 1.0, "flat");
    assert_eq!(disk_from_row(&stored).err(), Some("Invalid affix name: 生命".to_string()));
    let mut stored = row("河豚电音", 3);
    stored.primary_affix = cells("生命值", 1.0, "flatly");
    assert_eq!(disk_from_row(&stored).err(), Some("Invalid affix value type: flatly".to_string()));
    let mut stored = row("河豚电音", 3);
    stored.secondary_affixes[0] = cells("攻击力", 19.0, "flat");
    stored.secondary_affixes[1] = cells("攻击", 19.0, "flat");
    assert_eq!(disk_from_row(&stored).err(), Some("Invalid affix name: 攻击".to_string()));
    let mut stored = row("河豚电音", 3);
    stored.secondary_affixes[0] = cells("攻击", 19.0, "percent");
    assert_eq!(disk_from_row(&stored).err(), Some("Invalid affix value type: percent".to_string()));
}
