//! The fixed vocabulary, its partition by word length, and the index of close words.

use vstd::prelude::*;
use crate::text::{char_count, group_texts, position_of, same_text, texts};
use crate::word_groups::{groups_list_cliques, lists_clique, spells};

verus! {

/// The names of the disk sets.
pub const DISK_SETS: [&'static str; 16] = [
    "折枝剑歌",
    "静听嘉音",
    "混沌爵士",
    "原始朋克",
    "啄木鸟电音",
    "河豚电音",
    "震星迪斯科",
    "自由蓝调",
    "激素朋克",
    "灵魂摇滚",
    "摇摆爵士",
    "炎狱重金属",
    "混沌重金属",
    "雷暴重金属",
    "极地重金属",
    "獠牙重金属",
];

/// The names of the affixes a disk can carry.
pub const DISK_AFFIX_NAMES: [&'static str; 16] = [
    "生命值",
    "攻击力",
    "防御力",
    "暴击率",
    "暴击伤害",
    "异常精通",
    "穿透率",
    "物理伤害加成",
    "火属性伤害加成",
    "冰属性伤害加成",
    "电属性伤害加成",
    "以太伤害加成",
    "异常掌控",
    "冲击力",
    "能量自动回复",
    "穿透值",
];

/// The two category labels that stand beside the names.
pub const FIXED_WORDS: [&'static str; 2] = ["主属性", "副属性"];

/// The longest word, in characters, that takes part in matching.
pub const MAX_WORD_LENGTH: usize = 8;

/// Every word of the vocabulary: the set names, the affix names, then the labels.
pub open spec fn vocabulary() -> Seq<&'static str> {
    DISK_SETS@ + DISK_AFFIX_NAMES@ + FIXED_WORDS@
}

/// The words of `words` that have `length` characters, in the order of `words`.
pub open spec fn words_of_length(words: Seq<&'static str>, length: nat) -> Seq<&'static str> {
    words.filter(|w: &'static str| w@.len() == length)
}

/// `parts` holds, at position `l`, the words of `l + 1` characters, for every length
/// up to the longest that takes part in matching.
pub open spec fn is_partition(parts: Seq<Vec<&'static str>>, words: Seq<&'static str>) -> bool {
    &&& parts.len() == MAX_WORD_LENGTH
    &&& forall|l: int|
        0 <= l < MAX_WORD_LENGTH ==> (#[trigger] parts[l])@ == words_of_length(words, (l + 1) as nat)
}

/// The words of the vocabulary as a list.
pub fn vocabulary_words() -> (words: Vec<&'static str>)
    ensures
        words@ == vocabulary(),
{
    let mut words: Vec<&'static str> = Vec::new();
    let mut i: usize = 0;
    while i < 16
        invariant
            i <= 16,
            words@ == DISK_SETS@.take(i as int),
        decreases 16 - i,
    {
        words.push(DISK_SETS[i]);
        assert(DISK_SETS@.take(i + 1) =~= DISK_SETS@.take(i as int).push(DISK_SETS@[i as int]));
        i += 1;
    }
    assert(DISK_SETS@.take(16) =~= DISK_SETS@);
    let mut i: usize = 0;
    while i < 16
        invariant
            i <= 16,
            words@ == DISK_SETS@ + DISK_AFFIX_NAMES@.take(i as int),
        decreases 16 - i,
    {
        words.push(DISK_AFFIX_NAMES[i]);
        assert(DISK_SETS@ + DISK_AFFIX_NAMES@.take(i + 1) =~= (DISK_SETS@ + DISK_AFFIX_NAMES@.take(
            i as int,
        )).push(DISK_AFFIX_NAMES@[i as int]));
        i += 1;
    }
    assert(DISK_AFFIX_NAMES@.take(16) =~= DISK_AFFIX_NAMES@);
    let mut i: usize = 0;
    while i < 2
        invariant
            i <= 2,
            words@ == DISK_SETS@ + DISK_AFFIX_NAMES@ + FIXED_WORDS@.take(i as int),
        decreases 2 - i,
    {
        words.push(FIXED_WORDS[i]);
        assert(DISK_SETS@ + DISK_AFFIX_NAMES@ + FIXED_WORDS@.take(i + 1) =~= (DISK_SETS@
            + DISK_AFFIX_NAMES@ + FIXED_WORDS@.take(i as int)).push(FIXED_WORDS@[i as int]));
        i += 1;
    }
    assert(FIXED_WORDS@.take(2) =~= FIXED_WORDS@);
    words
}

/// The words of `words` by length: position `l` of the result holds the words of `l + 1`
/// characters, in the order in which `words` lists them. Empty words and words longer
/// than the longest matched length are left out.
pub fn partition_by_length(words: &Vec<&'static str>) -> (parts: Vec<Vec<&'static str>>)
    ensures
        is_partition(parts@, words@),
{
    let mut parts: Vec<Vec<&'static str>> = Vec::new();
    let mut l: usize = 0;
    while l < MAX_WORD_LENGTH
        invariant
            l <= MAX_WORD_LENGTH,
            parts.len() == l,
            forall|k: int| 0 <= k < l ==> (#[trigger] parts[k])@ == Seq::<&'static str>::empty(),
        decreases MAX_WORD_LENGTH - l,
    {
        parts.push(Vec::new());
        l += 1;
    }
    proof {
        reveal(Seq::filter);
        assert(words@.take(0) =~= Seq::<&'static str>::empty());
    }
    let mut i: usize = 0;
    while i < words.len()
        invariant
            i <= words.len(),
            is_partition(parts@, words@.take(i as int)),
        decreases words.len() - i,
    {
        let word = words[i];
        let length = char_count(word);
        let ghost had = parts@;
        if 1 <= length && length <= MAX_WORD_LENGTH {
            parts[length - 1].push(word);
        }
        proof {
            let seen = words@.take(i as int);
            assert(words@.take(i + 1) =~= seen.push(word));
            assert forall|k: int| 0 <= k < MAX_WORD_LENGTH implies (#[trigger] parts@[k])@
                == words_of_length(seen.push(word), (k + 1) as nat) by {
                seen.lemma_filter_push(word, |w: &'static str| w@.len() == (k + 1) as nat);
                assert(had[k]@ == words_of_length(seen, (k + 1) as nat));
            }
        }
        i += 1;
    }
    assert(words@.take(words.len() as int) =~= words@);
    parts
}

/// The vocabulary by word length.
pub fn get_possible_words() -> (parts: Vec<Vec<&'static str>>)
    ensures
        is_partition(parts@, vocabulary()),
{
    let words = vocabulary_words();
    partition_by_length(&words)
}

/// The texts of all the words that the parts hold.
pub open spec fn part_texts(parts: Seq<Vec<&'static str>>) -> Set<Seq<char>> {
    Set::new(
        |w: Seq<char>|
            exists|l: int, k: int|
                0 <= l < parts.len() && 0 <= k < parts[l].len() && #[trigger] parts[l]@[k]@ == w,
    )
}

/// Some group holds both `a` and `b`.
pub open spec fn share_group(groups: Seq<Seq<Seq<char>>>, a: Seq<char>, b: Seq<char>) -> bool {
    exists|g: int|
        0 <= g < groups.len() && (#[trigger] groups[g]).contains(a) && groups[g].contains(b)
}

/// The index of close words: every word of `vocab` is mapped to the other words that
/// share a group with it.
pub open spec fn close_word_index(vocab: Set<Seq<char>>, groups: Seq<Seq<Seq<char>>>) -> Map<
    Seq<char>,
    Set<Seq<char>>,
> {
    Map::new(
        |w: Seq<char>| vocab.contains(w),
        |w: Seq<char>| Set::new(|v: Seq<char>| v != w && share_group(groups, w, v)),
    )
}

/// The index is symmetric: one word is listed for another exactly when the other is
/// listed for it.
pub proof fn lemma_close_word_index_symmetric(
    vocab: Set<Seq<char>>,
    groups: Seq<Seq<Seq<char>>>,
    a: Seq<char>,
    b: Seq<char>,
)
    requires
        vocab.contains(a),
        vocab.contains(b),
    ensures
        close_word_index(vocab, groups)[a].contains(b) <==> close_word_index(vocab, groups)[b].contains(
            a,
        ),
{
    if share_group(groups, a, b) {
        let g = choose|g: int|
            0 <= g < groups.len() && (#[trigger] groups[g]).contains(a) && groups[g].contains(b);
        assert(groups[g].contains(b) && groups[g].contains(a));
    }
    if share_group(groups, b, a) {
        let g = choose|g: int|
            0 <= g < groups.len() && (#[trigger] groups[g]).contains(b) && groups[g].contains(a);
        assert(groups[g].contains(a) && groups[g].contains(b));
    }
}

/// For every word of a vocabulary, the words close to it.
pub struct CloseWords {
    words: Vec<&'static str>,
    close: Vec<Vec<&'static str>>,
}

impl CloseWords {
    /// The texts of the indexed words, in the order in which they are stored.
    pub closed spec fn keys(&self) -> Seq<Seq<char>> {
        texts(self.words@)
    }

    /// For each indexed word, in the same order, the texts of the words close to it.
    pub closed spec fn lists(&self) -> Seq<Seq<Seq<char>>> {
        group_texts(self.close@)
    }

    /// No word is indexed twice and no word is listed twice for another.
    #[verifier::type_invariant]
    pub closed spec fn wf(&self) -> bool {
        &&& self.keys().len() == self.lists().len()
        &&& self.keys().no_duplicates()
        &&& forall|i: int| 0 <= i < self.lists().len() ==> (#[trigger] self.lists()[i]).no_duplicates()
    }

    /// The indexed words.
    pub open spec fn dom(&self) -> Set<Seq<char>> {
        self.keys().to_set()
    }

    /// The words close to `word`, in the order in which they are stored.
    pub open spec fn group(&self, word: Seq<char>) -> Seq<Seq<char>> {
        self.lists()[self.keys().index_of(word)]
    }

    /// The index as a map from each indexed word to the set of words close to it.
    pub open spec fn view(&self) -> Map<Seq<char>, Set<Seq<char>>> {
        Map::new(|w: Seq<char>| self.dom().contains(w), |w: Seq<char>| self.group(w).to_set())
    }

    /// The words close to `word`, or nothing where `word` is not indexed.
    pub fn get(&self, word: &str) -> (found: Option<&Vec<&'static str>>)
        ensures
            match found {
                Some(list) => self.dom().contains(word@) && texts(list@) == self.group(word@)
                    && texts(list@).no_duplicates(),
                None => !self.dom().contains(word@),
            },
    {
        proof {
            use_type_invariant(self);
        }
        match position_of(self.words.as_slice(), word) {
            Some(i) => {
                proof {
                    assert(self.keys()[i as int] == word@);
                    assert(self.keys().contains(word@));
                    assert(self.lists()[i as int] == texts(self.close@[i as int]@));
                }
                Some(&self.close[i])
            },
            None => {
                proof {
                    assert forall|j: int| 0 <= j < self.keys().len() implies self.keys()[j]
                        != word@ by {
                        assert(self.words@[j]@ != word@);
                    }
                }
                None
            },
        }
    }
}

/// Adds to `list` every word of `group` whose text differs from `word` and which the
/// list does not hold yet.
fn add_all_but(list: &mut Vec<&'static str>, group: &Vec<&'static str>, word: &str)
    requires
        texts(old(list)@).no_duplicates(),
    ensures
        texts(final(list)@).no_duplicates(),
        forall|v: Seq<char>|
            #![trigger texts(final(list)@).contains(v)]
            texts(final(list)@).contains(v) <==> texts(old(list)@).contains(v) || (texts(
                group@,
            ).contains(v) && v != word@),
{
    let ghost first = texts(list@);
    let ghost members = texts(group@);
    let mut o: usize = 0;
    while o < group.len()
        invariant
            o <= group.len(),
            first == texts(old(list)@),
            members == texts(group@),
            texts(list@).no_duplicates(),
            forall|v: Seq<char>|
                #![trigger texts(list@).contains(v)]
                texts(list@).contains(v) <==> first.contains(v) || (members.take(o as int).contains(
                    v,
                ) && v != word@),
        decreases group.len() - o,
    {
        let other = group[o];
        let ghost had = texts(list@);
        let mut added = false;
        if !same_text(other, word) {
            if position_of(list.as_slice(), other).is_none() {
                list.push(other);
                added = true;
            }
        }
        proof {
            let now = texts(list@);
            let seen = members.take(o as int);
            let next = members.take(o + 1);
            assert(next =~= seen.push(other@));
            assert(members[o as int] == other@);
            if added {
                assert(now =~= had.push(other@));
                assert(!had.contains(other@)) by {
                    if had.contains(other@) {
                        let j = choose|j: int| 0 <= j < had.len() && had[j] == other@;
                        assert(list@[j]@ == other@);
                    }
                }
                assert forall|a: int, b: int|
                    0 <= a < now.len() && 0 <= b < now.len() && a != b implies now[a] != now[b] by {
                    if a < had.len() {
                        assert(had.contains(had[a]));
                    }
                    if b < had.len() {
                        assert(had.contains(had[b]));
                    }
                }
            } else {
                assert(now =~= had);
            }
            assert forall|v: Seq<char>|
                #![trigger now.contains(v)]
                now.contains(v) <==> first.contains(v) || (next.contains(v) && v != word@) by {
                if now.contains(v) {
                    let j = choose|j: int| 0 <= j < now.len() && now[j] == v;
                    if j < had.len() {
                        assert(had[j] == v);
                        assert(had.contains(v));
                        if seen.contains(v) {
                            let q = choose|q: int| 0 <= q < seen.len() && seen[q] == v;
                            assert(next[q] == v);
                        }
                    } else {
                        assert(v == other@);
                        assert(next[o as int] == v);
                    }
                }
                if first.contains(v) {
                    assert(had.contains(v));
                    let j = choose|j: int| 0 <= j < had.len() && had[j] == v;
                    assert(now[j] == v);
                }
                if next.contains(v) && v != word@ {
                    let q = choose|q: int| 0 <= q < next.len() && next[q] == v;
                    if q < o {
                        assert(seen[q] == v);
                        assert(seen.contains(v));
                        assert(had.contains(v));
                        let j = choose|j: int| 0 <= j < had.len() && had[j] == v;
                        assert(now[j] == v);
                    } else {
                        assert(v == other@);
                        if added {
                            assert(now[had.len() as int] == v);
                        } else {
                            assert(had.contains(v)) by {
                                let j = choose|j: int|
                                    0 <= j < list@.len() && list@[j]@ == other@;
                                assert(had[j] == v);
                            }
                        }
                    }
                }
            }
        }
        o += 1;
    }
    proof {
        assert(members.take(group.len() as int) =~= members);
    }
}

/// `groups` is made of one run of groups for each pool, the runs in the order of the
/// pools, and the run of a pool lists the maximal cliques that `cliques` holds for it.
pub open spec fn groups_by_pool(
    groups: Seq<Seq<Seq<char>>>,
    pools: Seq<Seq<Seq<char>>>,
    cliques: Seq<Seq<Set<usize>>>,
) -> bool
    decreases pools.len(),
{
    if pools.len() == 0 {
        groups.len() == 0 && cliques.len() == 0
    } else {
        &&& cliques.len() == pools.len()
        &&& cliques.last().len() <= groups.len()
        &&& groups_list_cliques(
            groups.skip(groups.len() - cliques.last().len()),
            pools.last(),
            cliques.last(),
        )
        &&& groups_by_pool(
            groups.take(groups.len() - cliques.last().len()),
            pools.drop_last(),
            cliques.drop_last(),
        )
    }
}

/// The groups of mutually close words of every pool, pool after pool. Only words of one
/// pool are ever grouped together, and every word of a group is a word of its pool.
pub fn get_close_word_groups(possible_words: &Vec<Vec<&'static str>>) -> (result: Vec<
    Vec<&'static str>,
>)
    ensures
        exists|cliques: Seq<Seq<Set<usize>>>|
            groups_by_pool(group_texts(result@), group_texts(possible_words@), cliques),
        forall|g: int, m: int|
            0 <= g < result.len() && 0 <= m < result[g].len() ==> part_texts(
                possible_words@,
            ).contains(#[trigger] result[g]@[m]@),
{
    let ghost pools = group_texts(possible_words@);
    let mut result: Vec<Vec<&'static str>> = Vec::new();
    let ghost mut cliques: Seq<Seq<Set<usize>>> = Seq::empty();
    let mut l: usize = 0;
    proof {
        assert(pools.take(0) =~= Seq::<Seq<Seq<char>>>::empty());
    }
    while l < possible_words.len()
        invariant
            l <= possible_words.len(),
            pools == group_texts(possible_words@),
            groups_by_pool(group_texts(result@), pools.take(l as int), cliques),
            forall|g: int, m: int|
                0 <= g < result.len() && 0 <= m < result[g].len() ==> part_texts(
                    possible_words@,
                ).contains(#[trigger] result[g]@[m]@),
        decreases possible_words.len() - l,
    {
        let pool = &possible_words[l];
        let mut found = crate::word_groups::get_close_word_groups(pool);
        let ghost had = result@;
        let ghost run = found@;
        let ghost c = choose|c: Seq<Set<usize>>|
            groups_list_cliques(group_texts(found@), texts(pool@), c);
        result.append(&mut found);
        proof {
            let now = group_texts(result@);
            let grown = cliques.push(c);
            let upto = pools.take(l + 1);
            assert(upto.last() == texts(pool@));
            assert(upto.drop_last() =~= pools.take(l as int));
            assert(grown.last() == c);
            assert(grown.drop_last() =~= cliques);
            assert(now.skip(now.len() - c.len()) =~= group_texts(run));
            assert(now.take(now.len() - c.len()) =~= group_texts(had));
            assert(groups_by_pool(now, upto, grown));
            assert forall|g: int, m: int|
                0 <= g < result.len() && 0 <= m < result[g].len() implies part_texts(
                possible_words@,
            ).contains(#[trigger] result[g]@[m]@) by {
                if g >= had.len() {
                    let h = g - had.len();
                    assert(result[g] == run[h]);
                    assert(lists_clique(group_texts(run)[h], texts(pool@), c[h]));
                    let order = choose|order: Seq<usize>|
                        order.no_duplicates() && order.to_set() == c[h] && spells(
                            group_texts(run)[h],
                            texts(pool@),
                            order,
                        );
                    assert(order[m] < pool.len());
                    assert(group_texts(run)[h][m] == texts(pool@)[order[m] as int]);
                    assert(possible_words@[l as int]@[order[m] as int]@ == result[g]@[m]@);
                } else {
                    assert(result[g] == had[g]);
                }
            }
            cliques = grown;
        }
        l += 1;
    }
    proof {
        assert(pools.take(possible_words.len() as int) =~= pools);
    }
    result
}

/// `a` and `b` differ and share one of the first `g` groups, or `a` is among the first
/// `m` words of group `g` and `b` is in that group too.
spec fn linked(groups: Seq<Seq<Seq<char>>>, g: int, m: int, a: Seq<char>, b: Seq<char>) -> bool {
    a != b && (share_group(groups.take(g), a, b) || (0 <= g < groups.len() && groups[g].take(
        m,
    ).contains(a) && groups[g].contains(b)))
}

/// Passing the word at position `m` of group `g` links that word to the rest of its group.
proof fn lemma_linked_next_word(
    groups: Seq<Seq<Seq<char>>>,
    g: int,
    m: int,
    a: Seq<char>,
    b: Seq<char>,
)
    requires
        0 <= g < groups.len(),
        0 <= m < groups[g].len(),
    ensures
        linked(groups, g, m + 1, a, b) <==> linked(groups, g, m, a, b) || (a == groups[g][m]
            && groups[g].contains(b) && b != a),
{
    let group = groups[g];
    let seen = group.take(m);
    let next = group.take(m + 1);
    assert(next =~= seen.push(group[m]));
    if next.contains(a) {
        let j = choose|j: int| 0 <= j < next.len() && next[j] == a;
        if j < m {
            assert(seen[j] == a);
        }
    }
    if seen.contains(a) {
        let j = choose|j: int| 0 <= j < seen.len() && seen[j] == a;
        assert(next[j] == a);
    }
    assert(next[m] == group[m]);
}

/// Passing the last word of group `g` is the same as starting on the next group.
proof fn lemma_linked_next_group(groups: Seq<Seq<Seq<char>>>, g: int, a: Seq<char>, b: Seq<char>)
    requires
        0 <= g < groups.len(),
    ensures
        linked(groups, g, groups[g].len() as int, a, b) <==> linked(groups, g + 1, 0, a, b),
{
    let group = groups[g];
    assert(group.take(group.len() as int) =~= group);
    let was = groups.take(g);
    let now = groups.take(g + 1);
    if share_group(was, a, b) {
        let h = choose|h: int|
            0 <= h < was.len() && (#[trigger] was[h]).contains(a) && was[h].contains(b);
        assert(now[h] == was[h]);
    }
    if group.contains(a) && group.contains(b) {
        assert(now[g] == group);
    }
    if share_group(now, a, b) {
        let h = choose|h: int|
            0 <= h < now.len() && (#[trigger] now[h]).contains(a) && now[h].contains(b);
        if h < g {
            assert(was[h] == now[h]);
        }
    }
    if g + 1 < groups.len() {
        assert(groups[g + 1].take(0) =~= Seq::<Seq<char>>::empty());
    }
}

/// The index of close words over the words of `possible_words`: every such word is
/// indexed, with the words that share one of `close_word_groups` with it, itself left
/// out. A word that shares no group is indexed with nothing.
///
/// Every word of a group has to be one of the possible words.
pub fn get_close_words(
    possible_words: &Vec<Vec<&'static str>>,
    close_word_groups: &Vec<Vec<&'static str>>,
) -> (index: CloseWords)
    requires
        forall|g: int, m: int|
            0 <= g < close_word_groups.len() && 0 <= m < close_word_groups[g].len()
                ==> part_texts(possible_words@).contains(#[trigger] close_word_groups[g]@[m]@),
    ensures
        index@ == close_word_index(part_texts(possible_words@), group_texts(close_word_groups@)),
{
    let ghost vocab = part_texts(possible_words@);
    let ghost groups = group_texts(close_word_groups@);
    let mut words: Vec<&'static str> = Vec::new();
    let mut close: Vec<Vec<&'static str>> = Vec::new();
    let mut l: usize = 0;
    while l < possible_words.len()
        invariant
            l <= possible_words.len(),
            words.len() == close.len(),
            texts(words@).no_duplicates(),
            forall|i: int| 0 <= i < close.len() ==> (#[trigger] close[i])@.len() == 0,
            forall|w: Seq<char>|
                #![trigger texts(words@).contains(w)]
                texts(words@).contains(w) <==> part_texts(possible_words@.take(l as int)).contains(
                    w,
                ),
        decreases possible_words.len() - l,
    {
        let pool = &possible_words[l];
        let ghost before = part_texts(possible_words@.take(l as int));
        let mut k: usize = 0;
        while k < pool.len()
            invariant
                l < possible_words.len(),
                pool == &possible_words[l as int],
                before == part_texts(possible_words@.take(l as int)),
                k <= pool.len(),
                words.len() == close.len(),
                texts(words@).no_duplicates(),
                forall|i: int| 0 <= i < close.len() ==> (#[trigger] close[i])@.len() == 0,
                forall|w: Seq<char>|
                    #![trigger texts(words@).contains(w)]
                    texts(words@).contains(w) <==> before.contains(w) || texts(pool@).take(
                        k as int,
                    ).contains(w),
            decreases pool.len() - k,
        {
            let word = pool[k];
            let ghost had = texts(words@);
            let ghost seen = texts(pool@).take(k as int);
            let found = position_of(words.as_slice(), word);
            if found.is_none() {
                words.push(word);
                close.push(Vec::new());
            }
            proof {
                let now = texts(words@);
                let next = texts(pool@).take(k + 1);
                assert(next =~= seen.push(word@));
                if found.is_none() {
                    assert(now =~= had.push(word@));
                    assert forall|a: int, b: int|
                        0 <= a < now.len() && 0 <= b < now.len() && a != b implies now[a]
                        != now[b] by {
                        if a < had.len() && b == had.len() {
                            assert(words@[a]@ != word@);
                        }
                        if b < had.len() && a == had.len() {
                            assert(words@[b]@ != word@);
                        }
                    }
                } else {
                    assert(now =~= had);
                    assert(had[found.unwrap() as int] == word@);
                }
                assert forall|w: Seq<char>|
                    #![trigger now.contains(w)]
                    now.contains(w) <==> before.contains(w) || next.contains(w) by {
                    if now.contains(w) {
                        let j = choose|j: int| 0 <= j < now.len() && now[j] == w;
                        if j < had.len() {
                            assert(had[j] == w);
                            assert(had.contains(w));
                            if seen.contains(w) {
                                let q = choose|q: int| 0 <= q < seen.len() && seen[q] == w;
                                assert(next[q] == w);
                            }
                        } else {
                            assert(next[k as int] == w);
                        }
                    }
                    if before.contains(w) {
                        assert(had.contains(w));
                        let j = choose|j: int| 0 <= j < had.len() && had[j] == w;
                        assert(now[j] == w);
                    }
                    if next.contains(w) {
                        let q = choose|q: int| 0 <= q < next.len() && next[q] == w;
                        if q < k {
                            assert(seen[q] == w);
                            assert(seen.contains(w));
                            assert(had.contains(w));
                            let j = choose|j: int| 0 <= j < had.len() && had[j] == w;
                            assert(now[j] == w);
                        } else {
                            assert(w == word@);
                            if found.is_none() {
                                assert(now[had.len() as int] == w);
                            } else {
                                assert(now[found.unwrap() as int] == w);
                            }
                        }
                    }
                }
            }
            k += 1;
        }
        proof {
            let was = possible_words@.take(l as int);
            let now = possible_words@.take(l + 1);
            assert(texts(pool@).take(pool.len() as int) =~= texts(pool@));
            assert forall|w: Seq<char>| part_texts(now).contains(w) <==> before.contains(w)
                || texts(pool@).contains(w) by {
                if part_texts(now).contains(w) {
                    let (a, b) = choose|a: int, b: int|
                        0 <= a < now.len() && 0 <= b < now[a].len() && #[trigger] now[a]@[b]@ == w;
                    if a < l {
                        assert(was[a]@[b]@ == w);
                    } else {
                        assert(texts(pool@)[b] == w);
                    }
                }
                if before.contains(w) {
                    let (a, b) = choose|a: int, b: int|
                        0 <= a < was.len() && 0 <= b < was[a].len() && #[trigger] was[a]@[b]@ == w;
                    assert(now[a]@[b]@ == w);
                }
                if texts(pool@).contains(w) {
                    let b = choose|b: int| 0 <= b < pool@.len() && texts(pool@)[b] == w;
                    assert(now[l as int]@[b]@ == w);
                }
            }
        }
        l += 1;
    }
    proof {
        assert(possible_words@.take(possible_words.len() as int) =~= possible_words@);
        assert forall|i: int, v: Seq<char>|
            0 <= i < close.len() implies !(#[trigger] group_texts(close@)[i].contains(v)) by {}
        assert forall|a: Seq<char>, b: Seq<char>| !linked(groups, 0, 0, a, b) by {
            assert(groups.take(0) =~= Seq::<Seq<Seq<char>>>::empty());
            if groups.len() > 0 {
                assert(groups[0].take(0) =~= Seq::<Seq<char>>::empty());
            }
        }
    }
    let ghost keys = texts(words@);
    let mut g: usize = 0;
    while g < close_word_groups.len()
        invariant
            g <= close_word_groups.len(),
            vocab == part_texts(possible_words@),
            groups == group_texts(close_word_groups@),
            keys == texts(words@),
            words.len() == close.len(),
            keys.no_duplicates(),
            forall|w: Seq<char>| #![trigger keys.contains(w)] keys.contains(w) <==> vocab.contains(w),
            forall|h: int, m: int|
                0 <= h < close_word_groups.len() && 0 <= m < close_word_groups[h].len()
                    ==> vocab.contains(#[trigger] close_word_groups[h]@[m]@),
            forall|i: int|
                0 <= i < close.len() ==> (#[trigger] group_texts(close@)[i]).no_duplicates(),
            forall|i: int, v: Seq<char>|
                0 <= i < close.len() ==> (#[trigger] group_texts(close@)[i].contains(v) <==> linked(
                    groups,
                    g as int,
                    0,
                    keys[i],
                    v,
                )),
        decreases close_word_groups.len() - g,
    {
        let group = &close_word_groups[g];
        let mut m: usize = 0;
        while m < group.len()
            invariant
                g < close_word_groups.len(),
                group == &close_word_groups[g as int],
                m <= group.len(),
                vocab == part_texts(possible_words@),
                groups == group_texts(close_word_groups@),
                keys == texts(words@),
                words.len() == close.len(),
                keys.no_duplicates(),
                forall|w: Seq<char>|
                    #![trigger keys.contains(w)]
                    keys.contains(w) <==> vocab.contains(w),
                forall|h: int, m: int|
                    0 <= h < close_word_groups.len() && 0 <= m < close_word_groups[h].len()
                        ==> vocab.contains(#[trigger] close_word_groups[h]@[m]@),
                forall|i: int|
                    0 <= i < close.len() ==> (#[trigger] group_texts(close@)[i]).no_duplicates(),
                forall|i: int, v: Seq<char>|
                    0 <= i < close.len() ==> (#[trigger] group_texts(close@)[i].contains(v)
                        <==> linked(groups, g as int, m as int, keys[i], v)),
            decreases group.len() - m,
        {
            let word = group[m];
            let ghost had = group_texts(close@);
            proof {
                assert(vocab.contains(close_word_groups[g as int]@[m as int]@));
                assert(keys.contains(word@));
                assert(groups[g as int] == texts(group@));
                assert(groups[g as int][m as int] == word@);
            }
            match position_of(words.as_slice(), word) {
                Some(at) => {
                    proof {
                        assert(had[at as int].no_duplicates());
                        assert(had[at as int] == texts(close@[at as int]@));
                        assert(keys[at as int] == word@);
                    }
                    add_all_but(&mut close[at], group, word);
                    proof {
                        let now = group_texts(close@);
                        assert(now[at as int] == texts(close@[at as int]@));
                        assert forall|i: int| 0 <= i < close.len() && i != at implies now[i]
                            == had[i] by {}
                        assert forall|i: int|
                            0 <= i < close.len() implies (#[trigger] now[i]).no_duplicates() by {
                            if i != at {
                                assert(had[i].no_duplicates());
                            }
                        }
                        assert forall|i: int, v: Seq<char>| 0 <= i < close.len() implies (
                        #[trigger] now[i].contains(v) <==> linked(
                            groups,
                            g as int,
                            m + 1,
                            keys[i],
                            v,
                        )) by {
                            lemma_linked_next_word(groups, g as int, m as int, keys[i], v);
                            assert(had[i].contains(v) <==> linked(
                                groups,
                                g as int,
                                m as int,
                                keys[i],
                                v,
                            ));
                            if i == at {
                                assert(now[at as int].contains(v) <==> had[at as int].contains(v)
                                    || (texts(group@).contains(v) && v != word@));
                            } else {
                                assert(keys[i] != keys[at as int]);
                            }
                        }
                    }
                },
                None => {
                    proof {
                        let j = choose|j: int| 0 <= j < keys.len() && keys[j] == word@;
                        assert(words@[j]@ == word@);
                    }
                },
            }
            m += 1;
        }
        proof {
            assert(groups[g as int] == texts(group@));
            assert forall|i: int, v: Seq<char>| 0 <= i < close.len() implies (#[trigger] group_texts(
                close@,
            )[i].contains(v) <==> linked(groups, g + 1, 0, keys[i], v)) by {
                lemma_linked_next_group(groups, g as int, keys[i], v);
            }
        }
        g += 1;
    }
    proof {
        assert(texts(words@).len() == group_texts(close@).len());
    }
    let index = CloseWords { words, close };
    proof {
        assert(groups.take(groups.len() as int) =~= groups);
        assert(index.dom() =~= vocab);
        assert forall|w: Seq<char>| vocab.contains(w) implies #[trigger] index@[w]
            =~= close_word_index(vocab, groups)[w] by {
            assert(keys.contains(w));
            let i = keys.index_of(w);
            assert forall|v: Seq<char>| index.group(w).contains(v) <==> (v != w && share_group(
                groups,
                w,
                v,
            )) by {
                assert(group_texts(close@)[i].contains(v) <==> linked(
                    groups,
                    groups.len() as int,
                    0,
                    keys[i],
                    v,
                ));
            }
        }
        assert(index@ =~= close_word_index(vocab, groups));
    }
    index
}

} // verus!
