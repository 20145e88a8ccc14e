//! Character-level access to string slices.

use vstd::prelude::*;
use vstd::string::StringExecFns;

verus! {

/// The character sequences of a list of words.
pub open spec fn texts(words: Seq<&'static str>) -> Seq<Seq<char>> {
    words.map_values(|w: &'static str| w@)
}

/// The character sequences of a list of groups of words.
pub open spec fn group_texts(groups: Seq<Vec<&'static str>>) -> Seq<Seq<Seq<char>>> {
    groups.map_values(|g: Vec<&'static str>| texts(g@))
}

/// The characters of `s`, in order.
pub fn chars_of(s: &str) -> (out: Vec<char>)
    ensures
        out@ == s@,
{
    let mut out: Vec<char> = Vec::new();
    for c in it: s.chars()
        invariant
            out@ == it.seq().take(it.index() as int),
    {
        out.push(c);
    }
    out
}

/// The number of characters of `s`.
pub fn char_count(s: &str) -> (count: usize)
    ensures
        count == s@.len(),
{
    chars_of(s).len()
}

/// Whether `a` and `b` hold the same characters.
pub fn same_text(a: &str, b: &str) -> (same: bool)
    ensures
        same == (a@ == b@),
{
    let x = chars_of(a);
    let y = chars_of(b);
    if x.len() != y.len() {
        return false;
    }
    let mut i: usize = 0;
    while i < x.len()
        invariant
            x@ == a@,
            y@ == b@,
            x.len() == y.len(),
            i <= x.len(),
            forall|j: int| 0 <= j < i ==> x[j] == y[j],
        decreases x.len() - i,
    {
        if x[i] != y[i] {
            return false;
        }
        i += 1;
    }
    assert(a@ =~= b@);
    true
}

/// The first position at which `words` holds the text of `word`, if it holds it at all.
pub fn position_of(words: &[&'static str], word: &str) -> (found: Option<usize>)
    ensures
        match found {
            Some(i) => i < words.len() && words[i as int]@ == word@ && forall|j: int|
                0 <= j < i ==> (#[trigger] words[j])@ != word@,
            None => forall|j: int| 0 <= j < words.len() ==> (#[trigger] words[j])@ != word@,
        },
{
    let mut i: usize = 0;
    while i < words.len()
        invariant
            i <= words.len(),
            forall|j: int| 0 <= j < i ==> (#[trigger] words[j])@ != word@,
        decreases words.len() - i,
    {
        if same_text(words[i], word) {
            return Some(i);
        }
        i += 1;
    }
    None
}

/// `head` followed by `tail`, as one string.
pub fn joined(head: &str, tail: &str) -> (whole: String)
    ensures
        whole@ == head@ + tail@,
{
    String::from_str(head).concat(tail)
}

/// The character that writes the decimal digit `d`.
pub open spec fn digit(d: int) -> char {
    if d == 0 {
        '0'
    } else if d == 1 {
        '1'
    } else if d == 2 {
        '2'
    } else if d == 3 {
        '3'
    } else if d == 4 {
        '4'
    } else if d == 5 {
        '5'
    } else if d == 6 {
        '6'
    } else if d == 7 {
        '7'
    } else if d == 8 {
        '8'
    } else {
        '9'
    }
}

/// The decimal digits of `n`, the most significant first, without leading zeros.
pub open spec fn decimal_digits(n: nat) -> Seq<char>
    decreases n,
{
    if n < 10 {
        seq![digit(n as int)]
    } else {
        decimal_digits(n / 10).push(digit((n % 10) as int))
    }
}

/// The decimal notation of `n`, with a minus sign in front of a negative number.
pub open spec fn decimal(n: int) -> Seq<char> {
    if n < 0 {
        seq!['-'] + decimal_digits((-n) as nat)
    } else {
        decimal_digits(n as nat)
    }
}

/// The decimal digit `d` as a string of one character.
fn digit_text(d: u64) -> (text: &'static str)
    requires
        d < 10,
    ensures
        text@ == seq![digit(d as int)],
{
    proof {
        reveal_strlit("0");
        reveal_strlit("1");
        reveal_strlit("2");
        reveal_strlit("3");
        reveal_strlit("4");
        reveal_strlit("5");
        reveal_strlit("6");
        reveal_strlit("7");
        reveal_strlit("8");
        reveal_strlit("9");
    }
    let text = if d == 0 {
        "0"
    } else if d == 1 {
        "1"
    } else if d == 2 {
        "2"
    } else if d == 3 {
        "3"
    } else if d == 4 {
        "4"
    } else if d == 5 {
        "5"
    } else if d == 6 {
        "6"
    } else if d == 7 {
        "7"
    } else if d == 8 {
        "8"
    } else {
        "9"
    };
    assert(text@ =~= seq![digit(d as int)]);
    text
}

/// The decimal notation of `n`.
pub fn decimal_text(n: i64) -> (text: String)
    ensures
        text@ == decimal(n as int),
{
    let magnitude: u64 = if n < 0 {
        ((-(n + 1)) as u64) + 1
    } else {
        n as u64
    };
    let mut low: Vec<&'static str> = Vec::new();
    let mut rest: u64 = magnitude;
    let ghost mut tail: Seq<char> = Seq::empty();
    while rest >= 10
        invariant
            decimal_digits(magnitude as nat) == decimal_digits(rest as nat) + tail,
            tail.len() == low.len(),
            forall|i: int|
                0 <= i < low.len() ==> (#[trigger] low[i])@ == seq![tail[tail.len() - 1 - i]],
        decreases rest,
    {
        let d = rest % 10;
        let text = digit_text(d);
        proof {
            let grown = seq![digit(d as int)] + tail;
            assert(decimal_digits(rest as nat) == decimal_digits((rest / 10) as nat).push(
                digit(d as int),
            ));
            assert(decimal_digits(rest as nat) + tail =~= decimal_digits((rest / 10) as nat)
                + grown);
            tail = grown;
        }
        low.push(text);
        rest = rest / 10;
    }
    let mut text = if n < 0 {
        String::from_str("-")
    } else {
        String::from_str("")
    };
    proof {
        reveal_strlit("-");
        reveal_strlit("");
        assert(decimal_digits(rest as nat) =~= seq![digit(rest as int)]);
    }
    text.append(digit_text(rest));
    let ghost sign = if n < 0 {
        seq!['-']
    } else {
        Seq::<char>::empty()
    };
    let mut i: usize = low.len();
    while i > 0
        invariant
            i <= low.len(),
            tail.len() == low.len(),
            forall|i: int|
                0 <= i < low.len() ==> (#[trigger] low[i])@ == seq![tail[tail.len() - 1 - i]],
            text@ == sign + decimal_digits(rest as nat) + tail.take(low.len() - i),
        decreases i,
    {
        i -= 1;
        proof {
            let done = tail.take(low.len() - i - 1);
            let next = tail.take(low.len() - i);
            assert(next =~= done + low[i as int]@);
            assert(sign + decimal_digits(rest as nat) + done + low[i as int]@ =~= sign
                + decimal_digits(rest as nat) + next);
        }
        text.append(low[i]);
    }
    proof {
        assert(tail.take(low.len() as int) =~= tail);
        assert(sign + decimal_digits(rest as nat) + tail =~= sign + (decimal_digits(rest as nat)
            + tail));
        assert(Seq::<char>::empty() + decimal_digits(magnitude as nat) =~= decimal_digits(
            magnitude as nat,
        ));
    }
    text
}

} // verus!
