use disk_lexicon::disk::{Affix, AffixValueType, Disk};
use disk_lexicon::text::{char_count, chars_of, decimal_text, joined, position_of, same_text};

fn attack(value: f64) -> Affix<f64> {
    Affix::new("攻击力", value, AffixValueType::Flat).unwrap()
}

#[test]
fn value_kind_is_read_from_its_word() {
    assert!(AffixValueType::try_from("flat") == Ok(AffixValueType::Flat));
    assert!(AffixValueType::try_from("percentage") == Ok(AffixValueType::Percentage));
}

#[test]
fn unknown_value_kind_is_refused() {
    assert!(AffixValueType::try_from("Flat") == Err("Invalid affix value type: Flat".to_string()));
    assert!(AffixValueType::try_from("") == Err("Invalid affix value type: ".to_string()));
}

#[test]
fn value_kind_is_written_as_its_word() {
    assert_eq!(AffixValueType::Flat.to_string(), "flat");
    assert_eq!(AffixValueType::Percentage.to_string(), "percentage");
    let kinds = [AffixValueType::Flat, AffixValueType::Percentage];
    for kind in kinds {
        assert!(AffixValueType::try_from(&kind.to_string()) == Ok(kind));
    }
}

#[test]
fn affix_keeps_its_fields() {
    let affix = Affix::new("暴击率", 4.8, AffixValueType::Percentage).unwrap();
    assert_eq!(affix.name, "暴击率");
    assert_eq!(affix.value, 4.8);
    assert!(affix.value_type == AffixValueType::Percentage);
}

#[test]
fn simple_affix_is_flat() {
    let affix = Affix::new_simple("生命值", 550.0).unwrap();
    assert_eq!(affix.name, "生命值");
    assert_eq!(affix.value, 550.0);
    assert!(affix.value_type == AffixValueType::Flat);
}

#[test]
fn unknown_affix_name_is_refused() {
    let made = Affix::new("攻击", 1.0, AffixValueType::Flat);
    assert_eq!(made.err(), Some("Invalid affix name: 攻击".to_string()));
    let made = Affix::new_simple("折枝剑歌", 1.0);
    assert_eq!(made.err(), Some("Invalid affix name: 折枝剑歌".to_string()));
}

#[test]
fn affix_from_words_checks_the_kind_first() {
    let affix = Affix::try_from(("穿透值", 9.0, "flat")).unwrap();
    assert_eq!(affix.name, "穿透值");
    assert!(affix.value_type == AffixValueType::Flat);
    let affix = Affix::try_from(("穿透率", 9.0, "percentage")).unwrap();
    assert!(affix.value_type == AffixValueType::Percentage);
    let made = Affix::try_from(("nothing", 9.0, "percent"));
    assert_eq!(made.err(), Some("Invalid affix value type: percent".to_string()));
    let made = Affix::try_from(("nothing", 9.0, "flat"));
    assert_eq!(made.err(), Some("Invalid affix name: nothing".to_string()));
}

#[test]
fn affixes_are_equal_field_by_field() {
    assert!(attack(19.0) == attack(19.0));
    assert!(attack(19.0) != attack(20.0));
    assert!(attack(19.0) != Affix::new("防御力", 19.0, AffixValueType::Flat).unwrap());
    assert!(attack(19.0) != Affix::new("攻击力", 19.0, AffixValueType::Percentage).unwrap());
    let copy = attack(3.0).clone();
    assert!(copy == attack(3.0));
}

#[test]
fn disk_keeps_its_fields() {
    let disk = Disk::new("河豚电音", 3, attack(316.0), Some(attack(19.0)), None, None, None).unwrap();
    assert_eq!(disk.set, "河豚电音");
    assert_eq!(disk.slot, 3);
    assert!(disk.primary_affix == attack(316.0));
    assert!(disk.secondary_affixes[0] == Some(attack(19.0)));
    for i in 1..4 {
        assert!(disk.secondary_affixes[i].is_none());
    }
}

#[test]
fn simple_disk_has_three_secondary_affixes() {
    let disk =
        Disk::new_simple("自由蓝调", 6, attack(1.0), attack(2.0), attack(3.0), attack(4.0)).unwrap();
    assert!(disk.secondary_affixes[0] == Some(attack(2.0)));
    assert!(disk.secondary_affixes[1] == Some(attack(3.0)));
    assert!(disk.secondary_affixes[2] == Some(attack(4.0)));
    assert!(disk.secondary_affixes[3].is_none());
}

#[test]
fn unknown_set_is_refused() {
    let made = Disk::new("攻击力", 3, attack(1.0), None, None, None, None);
    assert_eq!(made.err(), Some("Invalid disk set: 攻击力".to_string()));
    let made = Disk::new_simple("", 0, attack(1.0), attack(2.0), attack(3.0), attack(4.0));
    assert_eq!(made.err(), Some("Invalid disk set: ".to_string()));
}

#[test]
fn slot_outside_the_six_slots_is_refused() {
    let made = Disk::new("河豚电音", 0, attack(1.0), None, None, None, None);
    assert_eq!(made.err(), Some("Invalid slot: 0".to_string()));
    let made = Disk::new("河豚电音", 7, attack(1.0), None, None, None, None);
    assert_eq!(made.err(), Some("Invalid slot: 7".to_string()));
    let made = Disk::new("河豚电音", 255, attack(1.0), None, None, None, None);
    assert_eq!(made.err(), Some("Invalid slot: 255".to_string()));
    for slot in 1..=6 {
        assert!(Disk::new("河豚电音", slot, attack(1.0), None, None, None, None).is_ok());
    }
}

#[test]
fn static_names_are_found_by_their_text() {
    let typed = String::from("震星迪斯科");
    assert_eq!(Disk::<f64>::get_static_set_name(&typed), Some("震星迪斯科"));
    assert_eq!(Disk::<f64>::get_static_set_name("震星"), None);
    assert_eq!(Disk::<f64>::get_static_set_name("异常掌控"), None);
    assert_eq!(Disk::<f64>::get_static_affix_name("异常掌控"), Some("异常掌控"));
    assert_eq!(Disk::<f64>::get_static_affix_name("主属性"), None);
}

#[test]
fn disks_with_equal_fields_are_potentially_equal() {
    let make = || {
        Disk::new("灵魂摇滚", 2, attack(5.0), Some(attack(1.0)), Some(attack(2.0)), None, None)
            .unwrap()
    };
    assert!(make().potential_eq(&make()));
    let mut other = make();
    other.slot = 3;
    assert!(!make().potential_eq(&other));
    let mut other = make();
    other.set = "摇摆爵士";
    assert!(!make().potential_eq(&other));
    let mut other = make();
    other.primary_affix = attack(6.0);
    assert!(!make().potential_eq(&other));
    for i in 0..4 {
        let mut other = make();
        other.secondary_affixes[i] = Some(attack(9.0));
        assert!(!make().potential_eq(&other));
    }
    let mut other = make();
    other.secondary_affixes[1] = None;
    assert!(!make().potential_eq(&other));
}

#[test]
fn characters_are_counted_and_compared() {
    assert_eq!(chars_of("暴击率"), vec!['暴', '击', '率']);
    assert_eq!(char_count("暴击率"), 3);
    assert_eq!(char_count(""), 0);
    assert!(same_text("暴击率", "暴击率"));
    assert!(!same_text("暴击率", "暴击"));
    assert!(!same_text("ab", "ba"));
    assert_eq!(position_of(&["a", "b", "a"], "a"), Some(0));
    assert_eq!(position_of(&["a", "b", "a"], "b"), Some(1));
    assert_eq!(position_of(&["a", "b", "a"], "c"), None);
    assert_eq!(joined("Invalid slot: ", "7"), "Invalid slot: 7");
}

#[test]
fn numbers_are_written_in_decimal() {
    assert_eq!(decimal_text(0), "0");
    assert_eq!(decimal_text(7), "7");
    assert_eq!(decimal_text(10), "10");
    assert_eq!(decimal_text(255), "255");
    assert_eq!(decimal_text(-1), "-1");
    assert_eq!(decimal_text(-120), "-120");
    assert_eq!(decimal_text(1234567890), "1234567890");
    assert_eq!(decimal_text(i64::MAX), "9223372036854775807");
    assert_eq!(decimal_text(i64::MIN), "-9223372036854775808");
}
