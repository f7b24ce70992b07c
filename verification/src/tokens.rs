//! The units one line of text contributes, by counting mode.
//!
//! In `Char` mode every character of the line is a unit; in `Word` mode every
//! maximal run of word characters is one; in `Line` mode the line itself is
//! the single unit. A word character is a Unicode alphanumeric character or
//! the underscore.

use crate::options::CountOption;
use vstd::prelude::*;
use vstd::string::{StrSliceExecFns, StringExecFns};

verus! {

/// What `char::is_alphanumeric` returns for a character; the result depends
/// on the character alone.
pub uninterp spec fn alphanumeric(c: char) -> bool;

/// Relies on `char::is_alphanumeric`, which answers by the Unicode character
/// tables; [`alphanumeric`] names its result.
pub assume_specification[ char::is_alphanumeric ](c: char) -> (r: bool)
    ensures
        r == alphanumeric(c),
;

/// A word character: alphanumeric or the underscore.
pub open spec fn is_word_char(c: char) -> bool {
    alphanumeric(c) || c == '_'
}

/// Executable word-character test.
pub fn check_word_char(c: char) -> (r: bool)
    ensures
        r == is_word_char(c),
{
    c.is_alphanumeric() || c == '_'
}

/// Length of the maximal word-character prefix of `s`.
pub open spec fn word_run(s: Seq<char>) -> int
    decreases s.len(),
{
    if s.len() == 0 || !is_word_char(s[0]) {
        0
    } else {
        1 + word_run(s.drop_first())
    }
}

/// `word_run` is at most the length, and positive exactly on a leading word
/// character.
pub proof fn lemma_word_run_bounds(s: Seq<char>)
    ensures
        0 <= word_run(s) <= s.len(),
        s.len() > 0 && is_word_char(s[0]) ==> 1 <= word_run(s),
    decreases s.len(),
{
    if s.len() == 0 || !is_word_char(s[0]) {
    } else {
        lemma_word_run_bounds(s.drop_first());
    }
}

/// Any bound of an all-word-character prefix whose end is the string's end or
/// a non-word character is `word_run`.
pub proof fn lemma_word_run_at(s: Seq<char>, k: int)
    requires
        0 <= k <= s.len(),
        forall|j: int| 0 <= j < k ==> is_word_char(s[j]),
        k < s.len() ==> !is_word_char(s[k]),
    ensures
        word_run(s) == k,
    decreases s.len(),
{
    if s.len() == 0 {
    } else if !is_word_char(s[0]) {
        assert(k == 0);
    } else {
        assert(k >= 1);
        let rest = s.drop_first();
        assert(forall|j: int| 0 <= j < k - 1 ==> rest[j] == s[j + 1] && is_word_char(rest[j]));
        lemma_word_run_at(rest, k - 1);
    }
}

/// The word tokens of a line: its maximal runs of word characters, from left
/// to right.
pub open spec fn word_tokens(s: Seq<char>) -> Seq<Seq<char>>
    decreases s.len(),
    via word_tokens_decreases
{
    if s.len() == 0 {
        seq![]
    } else if !is_word_char(s[0]) {
        word_tokens(s.drop_first())
    } else {
        let k = word_run(s);
        seq![s.subrange(0, k)] + word_tokens(s.subrange(k, s.len() as int))
    }
}

#[via_fn]
proof fn word_tokens_decreases(s: Seq<char>) {
    lemma_word_run_bounds(s);
}

/// A line has at most as many word tokens as characters.
pub proof fn lemma_word_tokens_len(s: Seq<char>)
    ensures
        0 <= word_tokens(s).len() <= s.len(),
    decreases s.len(),
{
    if s.len() == 0 {
    } else if !is_word_char(s[0]) {
        lemma_word_tokens_len(s.drop_first());
    } else {
        lemma_word_run_bounds(s);
        lemma_word_tokens_len(s.subrange(word_run(s), s.len() as int));
    }
}

/// The units one line contributes: each of its characters, each of its word
/// tokens, or the line itself, by mode.
pub open spec fn line_units(s: Seq<char>, option: CountOption) -> Seq<Seq<char>> {
    match option {
        CountOption::Char => s.map_values(|c: char| seq![c]),
        CountOption::Word => word_tokens(s),
        CountOption::Line => seq![s],
    }
}

/// A line contributes at most `max(len, 1)` units in any mode.
pub proof fn lemma_line_units_len(s: Seq<char>, option: CountOption)
    ensures
        line_units(s, option).len() <= s.len() + 1,
        option != CountOption::Line ==> line_units(s, option).len() <= s.len(),
{
    match option {
        CountOption::Char => {},
        CountOption::Word => {
            lemma_word_tokens_len(s);
        },
        CountOption::Line => {},
    }
}

/// First index at or after `i` where the run of word characters ends: every
/// character from `i` up to it is a word character, and it sits at the line's
/// end or on a non-word character.
fn run_end(line: &str, n: usize, i: usize) -> (j: usize)
    requires
        n == line@.len(),
        i <= n,
    ensures
        i <= j <= n,
        forall|t: int| i <= t < j ==> is_word_char(line@[t]),
        j < n ==> !is_word_char(line@[j as int]),
{
    let mut j: usize = i;
    while j < n
        invariant
            i <= j <= n,
            n == line@.len(),
            forall|t: int| i <= t < j ==> is_word_char(line@[t]),
        decreases n - j,
    {
        let c = line.get_char(j);
        if !check_word_char(c) {
            return j;
        }
        j = j + 1;
    }
    j
}

/// The units of one line by mode, exactly as [`line_units`] lists them.
pub fn units_of_line(line: &str, option: CountOption) -> (r: Vec<String>)
    ensures
        r.deep_view() == line_units(line@, option),
{
    let n = line.unicode_len();
    match option {
        CountOption::Char => {
            let mut out: Vec<String> = Vec::new();
            let mut i: usize = 0;
            while i < n
                invariant
                    i <= n,
                    n == line@.len(),
                    out.deep_view() == line@.subrange(0, i as int).map_values(
                        |c: char| seq![c],
                    ),
                decreases n - i,
            {
                let ghost prev = out.deep_view();
                let u = line.substring_char(i, i + 1);
                out.push(String::from_str(u));
                proof {
                    assert(u@ =~= seq![line@[i as int]]);
                    assert(out.deep_view() =~~= prev.push(u@));
                    assert(line@.subrange(0, i + 1).map_values(|c: char| seq![c]) =~~= prev.push(
                        seq![line@[i as int]],
                    ));
                }
                i = i + 1;
            }
            proof {
                assert(line@.subrange(0, n as int) =~= line@);
            }
            out
        },
        CountOption::Word => {
            let mut out: Vec<String> = Vec::new();
            let mut i: usize = 0;
            proof {
                assert(line@.subrange(0, n as int) =~= line@);
                assert(out.deep_view() + word_tokens(line@) =~~= word_tokens(line@));
            }
            while i < n
                invariant
                    i <= n,
                    n == line@.len(),
                    word_tokens(line@) == out.deep_view() + word_tokens(
                        line@.subrange(i as int, n as int),
                    ),
                decreases n - i,
            {
                let ghost prev = out.deep_view();
                let ghost tail = line@.subrange(i as int, n as int);
                let c = line.get_char(i);
                if !check_word_char(c) {
                    proof {
                        assert(tail[0] == line@[i as int]);
                        assert(tail.drop_first() =~= line@.subrange(i + 1, n as int));
                    }
                    i = i + 1;
                } else {
                    let j = run_end(line, n, i);
                    proof {
                        assert(forall|t: int| 0 <= t < j - i ==> tail[t] == line@[i + t]);
                        lemma_word_run_at(tail, j - i);
                        assert(tail.subrange(0, j - i) =~= line@.subrange(i as int, j as int));
                        assert(tail.subrange(j - i, tail.len() as int) =~= line@.subrange(
                            j as int,
                            n as int,
                        ));
                    }
                    let tok = line.substring_char(i, j);
                    out.push(String::from_str(tok));
                    proof {
                        assert(out.deep_view() =~~= prev.push(tok@));
                        assert(prev + (seq![tok@] + word_tokens(line@.subrange(j as int, n as int)))
                            =~~= prev.push(tok@) + word_tokens(line@.subrange(j as int, n as int)));
                    }
                    i = j;
                }
            }
            proof {
                assert(line@.subrange(n as int, n as int) =~= Seq::<char>::empty());
                assert(word_tokens(Seq::<char>::empty()) =~= Seq::<Seq<char>>::empty());
                assert(out.deep_view() + Seq::<Seq<char>>::empty() =~~= out.deep_view());
            }
            out
        },
        CountOption::Line => {
            let mut out: Vec<String> = Vec::new();
            out.push(String::from_str(line));
            proof {
                assert(out.deep_view() =~~= seq![line@]);
            }
            out
        },
    }
}

} // verus!
