use disk_lexicon::word_groups::{
    bron_kerbosch, get_close_word_groups, get_maximal_cliques, is_word_close,
};
use std::collections::HashSet;

fn set_of(items: &[usize]) -> HashSet<usize> {
    let mut set = HashSet::new();
    for item in items {
        set.insert(*item);
    }
    set
}

fn sorted(group: &Vec<&'static str>) -> Vec<&'static str> {
    let mut copy = group.clone();
    copy.sort();
    copy
}

#[test]
fn one_substitution_is_close() {
    assert!(is_word_close("ABC", "ABD"));
}

#[test]
fn identical_words_are_not_close() {
    assert!(!is_word_close("ABC", "ABC"));
}

#[test]
fn two_substitutions_are_not_close() {
    assert!(!is_word_close("ABC", "AXD"));
}

#[test]
fn different_lengths_are_not_close() {
    assert!(!is_word_close("ABC", "ABCD"));
    assert!(!is_word_close("ABCD", "ABC"));
    assert!(!is_word_close("ABC", "ABDE"));
}

#[test]
fn empty_words_are_not_close() {
    assert!(!is_word_close("", ""));
    assert!(!is_word_close("", "A"));
}

#[test]
fn closeness_is_symmetric() {
    let words = ["ABC", "ABD", "AXD", "XYZ", "ABCD", "暴击率", "穿透率", "穿透值"];
    for a in words {
        for b in words {
            assert_eq!(is_word_close(a, b), is_word_close(b, a));
        }
        assert!(!is_word_close(a, a));
    }
}

#[test]
fn closeness_counts_characters_not_bytes() {
    assert!(is_word_close("穿透率", "穿透值"));
    assert!(is_word_close("暴击率", "穿透率") == false);
    assert!(is_word_close("主属性", "副属性"));
}

#[test]
fn triangle_and_isolated_vertex() {
    let edges = vec![(0, 1), (0, 2), (1, 2)];
    let cliques = get_maximal_cliques(4, &edges);
    assert_eq!(cliques.len(), 2);
    assert!(cliques.contains(&set_of(&[0, 1, 2])));
    assert!(cliques.contains(&set_of(&[3])));
}

#[test]
fn graph_without_vertices_has_the_empty_clique() {
    let cliques = get_maximal_cliques(0, &vec![]);
    assert_eq!(cliques, vec![HashSet::new()]);
}

#[test]
fn graph_without_edges_has_singleton_cliques() {
    let cliques = get_maximal_cliques(3, &vec![]);
    assert_eq!(cliques.len(), 3);
    for v in 0..3 {
        assert!(cliques.contains(&set_of(&[v])));
    }
}

#[test]
fn path_has_one_clique_per_edge() {
    let edges = vec![(0, 1), (1, 2), (2, 3)];
    let cliques = get_maximal_cliques(4, &edges);
    assert_eq!(cliques.len(), 3);
    assert!(cliques.contains(&set_of(&[0, 1])));
    assert!(cliques.contains(&set_of(&[1, 2])));
    assert!(cliques.contains(&set_of(&[2, 3])));
}

#[test]
fn repeated_and_reversed_edges_change_nothing() {
    let edges = vec![(0, 1), (1, 0), (0, 1), (2, 1)];
    let cliques = get_maximal_cliques(3, &edges);
    assert_eq!(cliques.len(), 2);
    assert!(cliques.contains(&set_of(&[0, 1])));
    assert!(cliques.contains(&set_of(&[1, 2])));
}

#[test]
fn two_triangles_sharing_an_edge() {
    let edges = vec![(0, 1), (0, 2), (1, 2), (1, 3), (2, 3)];
    let cliques = get_maximal_cliques(4, &edges);
    assert_eq!(cliques.len(), 2);
    assert!(cliques.contains(&set_of(&[0, 1, 2])));
    assert!(cliques.contains(&set_of(&[1, 2, 3])));
}

#[test]
fn no_clique_is_part_of_another() {
    let edges = vec![(0, 1), (0, 2), (1, 2), (2, 3), (3, 4), (4, 5), (3, 5), (1, 5)];
    let cliques = get_maximal_cliques(7, &edges);
    for (i, a) in cliques.iter().enumerate() {
        for (j, b) in cliques.iter().enumerate() {
            if i != j {
                assert!(!a.is_subset(b));
            }
        }
    }
    assert_eq!(cliques.len(), 5);
    assert!(cliques.contains(&set_of(&[3, 4, 5])));
    assert!(cliques.contains(&set_of(&[1, 5])));
    assert!(cliques.contains(&set_of(&[6])));
}

#[test]
fn search_moves_candidates_to_excluded() {
    let graph = vec![set_of(&[1]), set_of(&[0]), set_of(&[])];
    let mut r = HashSet::new();
    let mut p = set_of(&[0, 1, 2]);
    let mut x = HashSet::new();
    let mut result = vec![set_of(&[9])];
    bron_kerbosch(&mut r, &mut p, &mut x, &graph, &mut result);
    assert!(r.is_empty());
    assert!(p.is_empty());
    assert_eq!(x, set_of(&[0, 1, 2]));
    assert_eq!(result.len(), 3);
    assert_eq!(result[0], set_of(&[9]));
    assert!(result.contains(&set_of(&[0, 1])));
    assert!(result.contains(&set_of(&[2])));
}

#[test]
fn search_skips_cliques_with_an_excluded_neighbour() {
    let graph = vec![set_of(&[1, 2]), set_of(&[0, 2]), set_of(&[0, 1])];
    let mut r = set_of(&[0]);
    let mut p = set_of(&[1]);
    let mut x = set_of(&[2]);
    let mut result = Vec::new();
    bron_kerbosch(&mut r, &mut p, &mut x, &graph, &mut result);
    assert!(result.is_empty());
    assert_eq!(r, set_of(&[0]));
    assert!(p.is_empty());
    assert_eq!(x, set_of(&[1, 2]));
}

#[test]
fn close_words_form_one_group_and_the_isolated_word_stays_alone() {
    let words = vec!["ABC", "ABD", "ABE", "XYZ"];
    let groups = get_close_word_groups(&words);
    let groups: Vec<Vec<&'static str>> = groups.iter().map(sorted).collect();
    assert_eq!(groups.len(), 2);
    assert_eq!(groups.iter().filter(|g| **g == vec!["ABC", "ABD", "ABE"]).count(), 1);
    for group in groups.iter() {
        if group.contains(&"XYZ") {
            assert_eq!(group.len(), 1);
        }
    }
    for (i, a) in groups.iter().enumerate() {
        for (j, b) in groups.iter().enumerate() {
            if i != j {
                assert!(!a.iter().all(|w| b.contains(w)));
            }
        }
    }
}

#[test]
fn no_words_give_one_empty_group() {
    let groups = get_close_word_groups(&vec![]);
    assert_eq!(groups, vec![Vec::<&'static str>::new()]);
}

#[test]
fn overlapping_groups_are_both_found() {
    let words = vec!["AAA", "AAB", "ABB"];
    let groups = get_close_word_groups(&words);
    let groups: Vec<Vec<&'static str>> = groups.iter().map(sorted).collect();
    assert_eq!(groups.len(), 2);
    assert!(groups.contains(&vec!["AAA", "AAB"]));
    assert!(groups.contains(&vec!["AAB", "ABB"]));
}
