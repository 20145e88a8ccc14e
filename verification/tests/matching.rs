use disk_lexicon::match_closest::{match_closest_word, select_close_words};
use disk_lexicon::source::{
    get_close_word_groups, get_close_words, get_possible_words, partition_by_length,
    vocabulary_words, DISK_AFFIX_NAMES, DISK_SETS, FIXED_WORDS,
};

fn sorted_texts(words: &Vec<&'static str>) -> Vec<&'static str> {
    let mut copy = words.clone();
    copy.sort();
    copy
}

#[test]
fn vocabulary_lists_sets_then_affixes_then_labels() {
    let words = vocabulary_words();
    assert_eq!(words.len(), 34);
    assert_eq!(&words[0..16], &DISK_SETS[..]);
    assert_eq!(&words[16..32], &DISK_AFFIX_NAMES[..]);
    assert_eq!(&words[32..34], &FIXED_WORDS[..]);
}

#[test]
fn partition_keeps_order_and_drops_long_and_empty_words() {
    let words = vec!["BB", "A", "", "CCC", "DD", "EEEEEEEE", "FFFFFFFFF", "G"];
    let parts = partition_by_length(&words);
    assert_eq!(parts.len(), 8);
    assert_eq!(parts[0], vec!["A", "G"]);
    assert_eq!(parts[1], vec!["BB", "DD"]);
    assert_eq!(parts[2], vec!["CCC"]);
    assert_eq!(parts[7], vec!["EEEEEEEE"]);
    for l in 3..7 {
        assert!(parts[l].is_empty());
    }
}

#[test]
fn possible_words_are_the_vocabulary_by_character_count() {
    let parts = get_possible_words();
    assert_eq!(parts.len(), 8);
    assert!(parts[0].is_empty());
    assert!(parts[1].is_empty());
    assert_eq!(
        parts[2],
        vec!["生命值", "攻击力", "防御力", "暴击率", "穿透率", "冲击力", "穿透值", "主属性", "副属性"]
    );
    assert_eq!(parts[4][0], "啄木鸟电音");
    let total: usize = parts.iter().map(|p| p.len()).sum();
    assert_eq!(total, 34);
    for (l, part) in parts.iter().enumerate() {
        for word in part {
            assert_eq!(word.chars().count(), l + 1);
        }
    }
}

#[test]
fn groups_hold_words_of_one_length_only() {
    let parts = get_possible_words();
    let groups = get_close_word_groups(&parts);
    for group in groups.iter() {
        for a in group {
            for b in group {
                assert_eq!(a.chars().count(), b.chars().count());
            }
        }
    }
    let groups: Vec<Vec<&'static str>> = groups.iter().map(sorted_texts).collect();
    assert!(groups.contains(&sorted_texts(&vec!["主属性", "副属性"])));
    assert!(groups.contains(&sorted_texts(&vec!["穿透率", "穿透值"])));
    assert!(groups.contains(&sorted_texts(&vec!["暴击率", "穿透率"])) == false);
}

#[test]
fn index_lists_the_other_words_of_every_shared_group() {
    let parts = partition_by_length(&vec!["AAA", "AAB", "ABB", "XYZ", "QQ"]);
    let groups = get_close_word_groups(&parts);
    let index = get_close_words(&parts, &groups);
    assert_eq!(sorted_texts(index.get("AAB").unwrap()), vec!["AAA", "ABB"]);
    assert_eq!(sorted_texts(index.get("AAA").unwrap()), vec!["AAB"]);
    assert_eq!(sorted_texts(index.get("ABB").unwrap()), vec!["AAB"]);
    assert!(index.get("XYZ").unwrap().is_empty());
    assert!(index.get("QQ").unwrap().is_empty());
    assert!(index.get("ZZZ").is_none());
}

#[test]
fn index_is_symmetric_over_the_vocabulary() {
    let parts = get_possible_words();
    let groups = get_close_word_groups(&parts);
    let index = get_close_words(&parts, &groups);
    let words = vocabulary_words();
    for a in words.iter() {
        for b in words.iter() {
            let a_lists_b = index.get(a).unwrap().contains(b);
            let b_lists_a = index.get(b).unwrap().contains(a);
            assert_eq!(a_lists_b, b_lists_a);
        }
        assert!(!index.get(a).unwrap().contains(a));
    }
    assert_eq!(index.get("穿透率").unwrap(), &vec!["穿透值"]);
    assert_eq!(index.get("主属性").unwrap(), &vec!["副属性"]);
    assert!(index.get("暴击率").unwrap().is_empty());
}

#[test]
fn index_over_no_groups_lists_nothing() {
    let parts = partition_by_length(&vec!["AB", "AC"]);
    let index = get_close_words(&parts, &vec![]);
    assert!(index.get("AB").unwrap().is_empty());
    assert!(index.get("AC").unwrap().is_empty());
}

#[test]
fn index_keeps_one_entry_for_a_repeated_word() {
    let parts = vec![vec![], vec!["AB", "AB", "AC"]];
    let groups = get_close_word_groups(&parts);
    let index = get_close_words(&parts, &groups);
    assert_eq!(index.get("AB").unwrap(), &vec!["AC"]);
    assert_eq!(index.get("AC").unwrap(), &vec!["AB"]);
}

#[test]
fn first_word_is_selected() {
    assert_eq!(select_close_words("ABX", &vec!["ABC", "ABD"]), "ABC");
    assert_eq!(select_close_words("", &vec!["Q"]), "Q");
}

#[test]
fn nearest_word_is_matched() {
    let parts = partition_by_length(&vec!["ABC", "XYZ"]);
    let groups = get_close_word_groups(&parts);
    let index = get_close_words(&parts, &groups);
    assert_eq!(match_closest_word("ABX", &parts, &index), Some("ABC"));
    assert_eq!(match_closest_word("XYC", &parts, &index), Some("XYZ"));
}

#[test]
fn token_of_unknown_length_has_no_match() {
    let parts = partition_by_length(&vec!["ABC", "XYZ"]);
    let groups = get_close_word_groups(&parts);
    let index = get_close_words(&parts, &groups);
    assert_eq!(match_closest_word("ABCDE", &parts, &index), None);
    assert_eq!(match_closest_word("", &parts, &index), None);
    assert_eq!(match_closest_word("ABCDEFGHI", &parts, &index), None);
}

#[test]
fn first_of_equally_near_words_is_matched() {
    let parts = partition_by_length(&vec!["ABC", "ABD", "XYZ"]);
    let index = get_close_words(&parts, &vec![]);
    assert_eq!(match_closest_word("ABX", &parts, &index), Some("ABC"));
    let parts = partition_by_length(&vec!["ABD", "ABC", "XYZ"]);
    let index = get_close_words(&parts, &vec![]);
    assert_eq!(match_closest_word("ABX", &parts, &index), Some("ABD"));
}

#[test]
fn indexed_token_is_matched_to_its_first_close_word() {
    let parts = partition_by_length(&vec!["ABC", "ABD", "XYZ"]);
    let groups = get_close_word_groups(&parts);
    let index = get_close_words(&parts, &groups);
    assert_eq!(match_closest_word("ABC", &parts, &index), Some("ABD"));
    assert_eq!(match_closest_word("ABD", &parts, &index), Some("ABC"));
    assert_eq!(match_closest_word("XYZ", &parts, &index), Some("XYZ"));
}

#[test]
fn distance_counts_characters() {
    let parts = get_possible_words();
    let groups = get_close_word_groups(&parts);
    let index = get_close_words(&parts, &groups);
    assert_eq!(match_closest_word("生命直", &parts, &index), Some("生命值"));
    assert_eq!(match_closest_word("啄木乌电音", &parts, &index), Some("啄木鸟电音"));
    assert_eq!(match_closest_word("以大伤害加成", &parts, &index), Some("以太伤害加成"));
    assert_eq!(match_closest_word("能量自动回复加成", &parts, &index), None);
}

#[test]
fn insertions_and_deletions_count_as_one_edit() {
    let parts = vec![vec![], vec![], vec![], vec!["BCDA", "ABCE"]];
    let index = get_close_words(&parts, &vec![]);
    assert_eq!(match_closest_word("ABCD", &parts, &index), Some("ABCE"));
    let parts = vec![vec![], vec![], vec![], vec!["AXYD", "BCDA"]];
    let index = get_close_words(&parts, &vec![]);
    assert_eq!(match_closest_word("ABCD", &parts, &index), Some("AXYD"));
    let parts = vec![vec![], vec![], vec![], vec!["WXYZ", "BCDA"]];
    let index = get_close_words(&parts, &vec![]);
    assert_eq!(match_closest_word("ABCD", &parts, &index), Some("BCDA"));
}

fn distance_by_definition(a: &[char], b: &[char]) -> usize {
    if a.is_empty() {
        return b.len();
    }
    if b.is_empty() {
        return a.len();
    }
    let (front_a, last_a) = (&a[..a.len() - 1], a[a.len() - 1]);
    let (front_b, last_b) = (&b[..b.len() - 1], b[b.len() - 1]);
    let substituted = if last_a == last_b { 0 } else { 1 };
    let by_substitution = distance_by_definition(front_a, front_b) + substituted;
    let by_deletion = distance_by_definition(front_a, b) + 1;
    let by_insertion = distance_by_definition(a, front_b) + 1;
    by_substitution.min(by_deletion).min(by_insertion)
}

#[test]
fn matched_word_is_the_first_of_the_nearest_by_definition() {
    let pool = vec!["暴击率", "穿透率", "穿透值", "ABCA", "BCAB", "CABC", "率暴击", "AABB", "击率暴"];
    let tokens = ["ABCB", "BBBB", "CCAB", "暴击值", "穿率透", "率击暴", "ABAB", "XXXX", "击暴率", "透穿值"];
    for count in [3usize, 4] {
        let words: Vec<&'static str> =
            pool.iter().copied().filter(|w| w.chars().count() == count).collect();
        let parts = partition_by_length(&words);
        let index = get_close_words(&parts, &vec![]);
        for token in tokens.iter().filter(|t| t.chars().count() == count) {
            let typed: Vec<char> = token.chars().collect();
            let mut expected = words[0];
            let mut least = usize::MAX;
            for word in words.iter() {
                let letters: Vec<char> = word.chars().collect();
                let distance = distance_by_definition(&typed, &letters);
                if distance < least {
                    least = distance;
                    expected = word;
                }
            }
            assert_eq!(match_closest_word(token, &parts, &index), Some(expected));
        }
    }
}
