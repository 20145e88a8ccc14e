//! The closest vocabulary word to a noisy token.

use levenshtein::levenshtein;
use vstd::prelude::*;
use crate::source::CloseWords;
use crate::text::{char_count, texts};

verus! {

/// The smaller of two numbers.
pub open spec fn least(a: nat, b: nat) -> nat {
    if a <= b {
        a
    } else {
        b
    }
}

/// The Levenshtein distance between two character sequences: the least number of
/// single-character insertions, deletions and substitutions that turn one into the other.
pub open spec fn edit_distance(a: Seq<char>, b: Seq<char>) -> nat
    decreases a.len() + b.len(),
{
    if a.len() == 0 {
        b.len()
    } else if b.len() == 0 {
        a.len()
    } else {
        let substituted: nat = if a.last() == b.last() {
            0
        } else {
            1
        };
        least(
            edit_distance(a.drop_last(), b.drop_last()) + substituted,
            least(edit_distance(a.drop_last(), b) + 1, edit_distance(a, b.drop_last()) + 1),
        )
    }
}

/// `levenshtein::levenshtein` is taken to return the Levenshtein distance between the
/// characters of its two arguments. This is not proved here: the function is not verified.
pub assume_specification[ levenshtein::levenshtein ](a: &str, b: &str) -> (distance: usize)
    ensures
        distance == edit_distance(a@, b@),
;

/// The word at position `k` of `pool` is as near to `word` as any word of the pool, and
/// nearer than every word before it.
pub open spec fn is_first_closest(word: Seq<char>, pool: Seq<Seq<char>>, k: int) -> bool {
    &&& 0 <= k < pool.len()
    &&& forall|j: int|
        0 <= j < pool.len() ==> edit_distance(word, pool[k]) <= edit_distance(word, #[trigger] pool[j])
    &&& forall|j: int|
        0 <= j < k ==> edit_distance(word, pool[k]) < edit_distance(word, #[trigger] pool[j])
}

/// The position of the first word of `pool` among those nearest to `word`.
pub open spec fn closest_position(word: Seq<char>, pool: Seq<Seq<char>>) -> int {
    choose|k: int| is_first_closest(word, pool, k)
}

/// Only one position of a pool is the first among the nearest.
pub proof fn lemma_first_closest_unique(word: Seq<char>, pool: Seq<Seq<char>>, k: int)
    requires
        is_first_closest(word, pool, k),
    ensures
        closest_position(word, pool) == k,
{
    let c = closest_position(word, pool);
    assert(is_first_closest(word, pool, c));
    if c < k {
        assert(edit_distance(word, pool[k]) < edit_distance(word, pool[c]));
        assert(edit_distance(word, pool[c]) <= edit_distance(word, pool[k]));
    }
    if k < c {
        assert(edit_distance(word, pool[c]) < edit_distance(word, pool[k]));
        assert(edit_distance(word, pool[k]) <= edit_distance(word, pool[c]));
    }
}

/// The word of `pool` nearest to `word`, the first of them where several are equally
/// near; nothing for an empty pool.
pub open spec fn closest_in(word: Seq<char>, pool: Seq<&'static str>) -> Option<&'static str> {
    if pool.len() == 0 {
        None
    } else {
        Some(pool[closest_position(word, texts(pool))])
    }
}

/// Picks one of several close words for a token.
///
/// The rule by which a token should be told apart from the words close to it is still
/// open. Until it is settled this takes the first word, whatever the token is.
pub fn select_close_words<'a>(source: &str, words: &Vec<&'a str>) -> (chosen: &'a str)
    requires
        words.len() > 0,
    ensures
        chosen == words[0],
{
    words[0]
}

/// What `match_closest_word` answers for a token with the text `word`.
///
/// The pool is the part for the token's length; without such a part there is no match.
/// A token that is itself indexed with a non-empty list of close words gets the word
/// that `select_close_words` picks from that list. Any other token gets the nearest
/// word of the pool.
pub open spec fn is_match(
    word: Seq<char>,
    parts: Seq<Vec<&'static str>>,
    index: CloseWords,
    best: Option<&'static str>,
) -> bool {
    if word.len() == 0 || word.len() > parts.len() {
        best is None
    } else if index.dom().contains(word) && index.group(word).len() > 0 {
        best matches Some(w) && w@ == index.group(word)[0]
    } else {
        best == closest_in(word, parts[word.len() - 1]@)
    }
}

/// The vocabulary word that stands for a noisy token, if there is one.
///
/// `possible_words` holds the vocabulary by length, the words of `l + 1` characters at
/// position `l`, and `close_words` is the index of close words.
pub fn match_closest_word(
    word: &str,
    possible_words: &Vec<Vec<&'static str>>,
    close_words: &CloseWords,
) -> (best: Option<&'static str>)
    ensures
        is_match(word@, possible_words@, *close_words, best),
{
    let count = char_count(word);
    if count == 0 || count > possible_words.len() {
        return None;
    }
    let pool = &possible_words[count - 1];
    let ghost names = texts(pool@);
    let mut best_candidate: Option<&'static str> = None;
    let mut best_distance: usize = usize::MAX;
    let ghost mut at: int = 0;
    let mut k: usize = 0;
    while k < pool.len()
        invariant
            k <= pool.len(),
            names == texts(pool@),
            k == 0 ==> best_candidate is None,
            k > 0 ==> is_first_closest(word@, names.take(k as int), at) && best_candidate == Some(
                pool[at],
            ) && best_distance == edit_distance(word@, names[at]),
        decreases pool.len() - k,
    {
        let possible_word = pool[k];
        let distance = levenshtein(word, possible_word);
        proof {
            let seen = names.take(k as int);
            let next = names.take(k + 1);
            assert(names[k as int] == possible_word@);
            assert forall|j: int| 0 <= j < k implies #[trigger] next[j] == seen[j] by {}
            if k > 0 {
                assert(next[at] == seen[at]);
            }
        }
        if best_candidate.is_none() || distance < best_distance {
            best_candidate = Some(possible_word);
            best_distance = distance;
            proof {
                let seen = names.take(k as int);
                let next = names.take(k + 1);
                assert forall|j: int| 0 <= j < k implies edit_distance(word@, next[k as int])
                    < edit_distance(word@, #[trigger] next[j]) by {
                    assert(edit_distance(word@, seen[at]) <= edit_distance(word@, seen[j]));
                }
                at = k as int;
            }
        } else {
            proof {
                let seen = names.take(k as int);
                let next = names.take(k + 1);
                assert forall|j: int| 0 <= j < next.len() implies edit_distance(word@, next[at])
                    <= edit_distance(word@, #[trigger] next[j]) by {
                    if j < k {
                        assert(edit_distance(word@, seen[at]) <= edit_distance(word@, seen[j]));
                    }
                }
                assert forall|j: int| 0 <= j < at implies edit_distance(word@, next[at])
                    < edit_distance(word@, #[trigger] next[j]) by {
                    assert(edit_distance(word@, seen[at]) < edit_distance(word@, seen[j]));
                }
            }
        }
        k += 1;
    }
    proof {
        assert(names.take(pool.len() as int) =~= names);
        if pool.len() > 0 {
            lemma_first_closest_unique(word@, names, at);
        }
    }
    match close_words.get(word) {
        Some(close) => {
            if close.len() > 0 {
                best_candidate = Some(select_close_words(word, close));
            }
        },
        None => {},
    }
    best_candidate
}

/// A token finds no match where no part stands for its length, and where that part is
/// empty and the token is not indexed.
pub proof fn lemma_no_candidate_no_match(
    word: Seq<char>,
    parts: Seq<Vec<&'static str>>,
    index: CloseWords,
    best: Option<&'static str>,
)
    requires
        is_match(word, parts, index, best),
        word.len() == 0 || word.len() > parts.len() || (parts[word.len() - 1]@.len() == 0
            && !index.dom().contains(word)),
    ensures
        best is None,
{
}

/// A token that is not indexed with close words is matched to the word of its part
/// that is nearer to it than every other word of the part, where there is such a word.
pub proof fn lemma_single_nearest_is_matched(
    word: Seq<char>,
    parts: Seq<Vec<&'static str>>,
    index: CloseWords,
    best: Option<&'static str>,
    k: int,
)
    requires
        is_match(word, parts, index, best),
        0 < word.len() <= parts.len(),
        !index.dom().contains(word) || index.group(word).len() == 0,
        0 <= k < parts[word.len() - 1]@.len(),
        forall|j: int|
            0 <= j < parts[word.len() - 1]@.len() && j != k ==> edit_distance(
                word,
                parts[word.len() - 1]@[k]@,
            ) < edit_distance(word, #[trigger] parts[word.len() - 1]@[j]@),
    ensures
        best == Some(parts[word.len() - 1]@[k]),
{
    let pool = parts[word.len() - 1]@;
    let names = texts(pool);
    assert forall|j: int| 0 <= j < names.len() implies edit_distance(word, names[k])
        <= edit_distance(word, #[trigger] names[j]) by {
        if j != k {
            assert(edit_distance(word, pool[k]@) < edit_distance(word, pool[j]@));
        }
    }
    assert forall|j: int| 0 <= j < k implies edit_distance(word, names[k]) < edit_distance(
        word,
        #[trigger] names[j],
    ) by {
        assert(edit_distance(word, pool[k]@) < edit_distance(word, pool[j]@));
    }
    lemma_first_closest_unique(word, names, k);
}

} // verus!
