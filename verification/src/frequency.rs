//! Counts how often each word occurs in a text, ignoring a configurable set
//! of stop words, and sorts the counts.

use crate::tokenizer::{
    char_is_whitespace,
    collect_chars,
    is_alphabetic_char,
    is_whitespace_char,
    lemma_next_position_advances,
    numeric_run_ok,
    numeric_runs_parseable_from,
    remaining_numeric_runs_ok,
    spec_next_position,
    word_end,
    Token,
    TokenError,
    Tokenizer,
};
use vstd::prelude::*;

verus! {

/// Whether the token produced at position `p` is the word `w`.
pub open spec fn is_word_token_at(input: Seq<char>, p: int, join: bool, w: Seq<char>) -> bool {
    &&& 0 <= p < input.len()
    &&& !is_whitespace_char(input[p])
    &&& is_alphabetic_char(input[p])
    &&& input.subrange(p, word_end(input, p, join)) == w
}

/// How many times the word `w` is produced when tokenizing `input` from
/// position `p` to the end.
pub open spec fn word_occurrences(input: Seq<char>, p: int, w: Seq<char>, join: bool) -> nat
    decreases input.len() - p,
{
    if !(0 <= p < input.len()) {
        0
    } else {
        let np = spec_next_position(input, p, join);
        let npc = if p < np && np <= input.len() {
            np
        } else {
            p + 1
        };
        (if is_word_token_at(input, p, join, w) {
            1nat
        } else {
            0nat
        }) + word_occurrences(input, npc, w, join)
    }
}

/// Producing one token splits the occurrence count into the token itself
/// and the occurrences in the rest of the input.
pub proof fn lemma_word_occurrences_step(input: Seq<char>, p: int, w: Seq<char>, join: bool)
    requires
        0 <= p < input.len(),
    ensures
        word_occurrences(input, p, w, join) == (if is_word_token_at(input, p, join, w) {
            1nat
        } else {
            0nat
        }) + word_occurrences(input, spec_next_position(input, p, join), w, join),
{
    lemma_next_position_advances(input, p, join);
}

/// A word cannot occur more often than there are chars left.
pub proof fn lemma_word_occurrences_bound(input: Seq<char>, p: int, w: Seq<char>, join: bool)
    requires
        0 <= p <= input.len(),
    ensures
        word_occurrences(input, p, w, join) <= input.len() - p,
    decreases input.len() - p,
{
    if p < input.len() {
        let np = spec_next_position(input, p, join);
        let npc = if p < np && np <= input.len() {
            np
        } else {
            p + 1
        };
        lemma_word_occurrences_bound(input, npc, w, join);
    }
}

/// Whether `w` is one of the listed words.
pub open spec fn seq_contains_word(words: Seq<Seq<char>>, w: Seq<char>) -> bool {
    exists|i: int| 0 <= i < words.len() && words[i] == w
}

/// The count stored for the word `w` in a list of (word, count) entries,
/// or zero if no entry holds it.
pub open spec fn assoc_count(entries: Seq<(String, usize)>, w: Seq<char>) -> nat
    decreases entries.len(),
{
    if entries.len() == 0 {
        0
    } else if entries.last().0@ == w {
        entries.last().1 as nat
    } else {
        assoc_count(entries.drop_last(), w)
    }
}

proof fn lemma_assoc_count_absent(entries: Seq<(String, usize)>, w: Seq<char>)
    requires
        forall|i: int| 0 <= i < entries.len() ==> (#[trigger] entries[i]).0@ != w,
    ensures
        assoc_count(entries, w) == 0,
    decreases entries.len(),
{
    if entries.len() > 0 {
        assert(entries.last() == entries[entries.len() - 1]);
        assert forall|i: int| 0 <= i < entries.len() - 1 implies (#[trigger] entries.drop_last()[
            i
        ]).0@ != w by {
            assert(entries.drop_last()[i] == entries[i]);
        }
        lemma_assoc_count_absent(entries.drop_last(), w);
    }
}

proof fn lemma_assoc_count_push(entries: Seq<(String, usize)>, e: (String, usize), w: Seq<char>)
    ensures
        assoc_count(entries.push(e), w) == (if e.0@ == w {
            e.1 as nat
        } else {
            assoc_count(entries, w)
        }),
{
    assert(entries.push(e).drop_last() =~= entries);
    assert(entries.push(e).last() == e);
}

proof fn lemma_assoc_count_update(
    entries: Seq<(String, usize)>,
    idx: int,
    e: (String, usize),
    w: Seq<char>,
)
    requires
        0 <= idx < entries.len(),
        e.0@ == entries[idx].0@,
        forall|i: int, j: int| 0 <= i < j < entries.len() ==> entries[i].0@ != entries[j].0@,
    ensures
        assoc_count(entries.update(idx, e), w) == (if entries[idx].0@ == w {
            e.1 as nat
        } else {
            assoc_count(entries, w)
        }),
    decreases entries.len(),
{
    let n = entries.len() as int;
    let updated = entries.update(idx, e);
    assert(updated.last() == updated[n - 1]);
    assert(entries.last() == entries[n - 1]);
    if idx == n - 1 {
        assert(updated.drop_last() =~= entries.drop_last());
    } else {
        assert(updated[n - 1] == entries[n - 1]);
        if entries[n - 1].0@ == w {
        } else {
            assert(updated.drop_last() =~= entries.drop_last().update(idx, e));
            assert forall|i: int, j: int|
                0 <= i < j < entries.len() - 1 implies (entries.drop_last())[i].0@ != (
            entries.drop_last())[j].0@ by {
                assert(entries.drop_last()[i] == entries[i]);
                assert(entries.drop_last()[j] == entries[j]);
            }
            assert(entries.drop_last()[idx] == entries[idx]);
            lemma_assoc_count_update(entries.drop_last(), idx, e, w);
        }
    }
}

proof fn lemma_assoc_count_at(entries: Seq<(String, usize)>, idx: int, w: Seq<char>)
    requires
        0 <= idx < entries.len(),
        entries[idx].0@ == w,
        forall|i: int, j: int| 0 <= i < j < entries.len() ==> entries[i].0@ != entries[j].0@,
    ensures
        assoc_count(entries, w) == entries[idx].1 as nat,
    decreases entries.len(),
{
    let n = entries.len() as int;
    assert(entries.last() == entries[n - 1]);
    if idx == n - 1 {
    } else {
        assert forall|i: int, j: int|
            0 <= i < j < entries.len() - 1 implies (entries.drop_last())[i].0@ != (
        entries.drop_last())[j].0@ by {
            assert(entries.drop_last()[i] == entries[i]);
            assert(entries.drop_last()[j] == entries[j]);
        }
        assert(entries.drop_last()[idx] == entries[idx]);
        lemma_assoc_count_at(entries.drop_last(), idx, w);
    }
}

/// The index of the first comma in `s`, or `s.len()` if there is none.
pub open spec fn first_comma(s: Seq<char>) -> int
    decreases s.len(),
{
    if s.len() == 0 {
        0
    } else if s[0] == ',' {
        0
    } else {
        1 + first_comma(s.drop_first())
    }
}

proof fn lemma_first_comma_is(s: Seq<char>, i: int)
    requires
        0 <= i <= s.len(),
        forall|k: int| 0 <= k < i ==> s[k] != ',',
        i < s.len() ==> s[i] == ',',
    ensures
        first_comma(s) == i,
    decreases s.len(),
{
    if s.len() == 0 {
    } else if s[0] == ',' {
        assert(i == 0);
    } else {
        assert(i > 0);
        assert forall|k: int| 0 <= k < i - 1 implies s.drop_first()[k] != ',' by {
            assert(s.drop_first()[k] == s[k + 1]);
        }
        if i - 1 < s.len() - 1 {
            assert(s.drop_first()[i - 1] == s[i]);
        }
        lemma_first_comma_is(s.drop_first(), i - 1);
    }
}

/// `s` split at every comma: one piece per comma-separated stretch, in
/// order; a text without commas is one piece, and so is the empty text.
pub open spec fn split_commas(s: Seq<char>) -> Seq<Seq<char>>
    decreases s.len(),
{
    let i = first_comma(s);
    if 0 <= i && i < s.len() {
        seq![s.subrange(0, i)] + split_commas(s.subrange(i + 1, s.len() as int))
    } else {
        seq![s]
    }
}

/// `s` without its leading whitespace.
pub open spec fn trim_start(s: Seq<char>) -> Seq<char>
    decreases s.len(),
{
    if s.len() > 0 && is_whitespace_char(s[0]) {
        trim_start(s.drop_first())
    } else {
        s
    }
}

/// `s` without its trailing whitespace.
pub open spec fn trim_end(s: Seq<char>) -> Seq<char>
    decreases s.len(),
{
    if s.len() > 0 && is_whitespace_char(s.last()) {
        trim_end(s.drop_last())
    } else {
        s
    }
}

/// `s` without leading and trailing whitespace.
pub open spec fn spec_trim(s: Seq<char>) -> Seq<char> {
    trim_end(trim_start(s))
}

/// Builds the chars of `chars[from..to]` with surrounding whitespace
/// removed into a fresh string.
fn trimmed_string(chars: &Vec<char>, from: usize, to: usize) -> (r: String)
    requires
        from <= to <= chars@.len(),
    ensures
        r@ == spec_trim(chars@.subrange(from as int, to as int)),
{
    let mut a = from;
    let mut b = to;
    while a < b && char_is_whitespace(chars[a])
        invariant
            from <= a <= b <= chars@.len(),
            b == to,
            trim_start(chars@.subrange(from as int, to as int)) == trim_start(
                chars@.subrange(a as int, to as int),
            ),
        decreases b - a,
    {
        proof {
            assert(chars@.subrange(a as int, to as int).drop_first() =~= chars@.subrange(
                a as int + 1,
                to as int,
            ));
        }
        a += 1;
    }
    proof {
        assert(trim_start(chars@.subrange(from as int, to as int)) == chars@.subrange(
            a as int,
            to as int,
        ));
    }
    while b > a && char_is_whitespace(chars[b - 1])
        invariant
            from <= a <= b <= chars@.len(),
            trim_end(chars@.subrange(a as int, to as int)) == trim_end(
                chars@.subrange(a as int, b as int),
            ),
        decreases b - a,
    {
        proof {
            assert(chars@.subrange(a as int, b as int).drop_last() =~= chars@.subrange(
                a as int,
                b as int - 1,
            ));
        }
        b -= 1;
    }
    proof {
        assert(trim_end(chars@.subrange(a as int, b as int)) == chars@.subrange(
            a as int,
            b as int,
        ));
    }
    let mut word = String::new();
    let mut i = a;
    while i < b
        invariant
            a <= i <= b <= chars@.len(),
            word@ == chars@.subrange(a as int, i as int),
        decreases b - i,
    {
        crate::tokenizer::push_char_into(&mut word, chars[i]);
        proof {
            assert(word@ =~= chars@.subrange(a as int, i + 1));
        }
        i += 1;
    }
    proof {
        assert(word@ =~= chars@.subrange(a as int, b as int));
    }
    word
}

/// Counts word occurrences, with a configurable stop-word list.
pub struct FrequencyCounter {
    tokenizer: Tokenizer,
    stop_words: Vec<String>,
}

impl FrequencyCounter {
    /// The text being counted.
    pub closed spec fn spec_input(self) -> Seq<char> {
        self.tokenizer.input@
    }

    /// The position counting has reached.
    pub closed spec fn spec_position(self) -> int {
        self.tokenizer.position as int
    }

    /// Whether apostrophes between letters keep a word together.
    pub closed spec fn spec_join(self) -> bool {
        self.tokenizer.join_apostrophed_words
    }

    /// The stop words, as char sequences.
    pub closed spec fn spec_stop_words(self) -> Seq<Seq<char>> {
        self.stop_words@.map_values(|s: String| s@)
    }

    /// The counting position never lies beyond the end of the text.
    pub open spec fn wf(self) -> bool {
        self.spec_position() <= self.spec_input().len()
    }

    /// A counter over the given text, with no stop words.
    pub fn new(input: &str) -> (r: Self)
        ensures
            r.wf(),
            r.spec_input() == input@,
            r.spec_position() == 0,
            !r.spec_join(),
            r.spec_stop_words() == Seq::<Seq<char>>::empty(),
    {
        let r = FrequencyCounter { tokenizer: Tokenizer::new(input), stop_words: Vec::new() };
        proof {
            assert(r.spec_stop_words() =~= Seq::<Seq<char>>::empty());
        }
        r
    }

    /// Whether `word` is one of the stop words.
    fn contains_stop_word(&self, word: &String) -> (r: bool)
        ensures
            r == seq_contains_word(self.spec_stop_words(), word@),
    {
        let mut i: usize = 0;
        while i < self.stop_words.len()
            invariant
                i <= self.stop_words@.len(),
                forall|j: int| 0 <= j < i ==> self.spec_stop_words()[j] != word@,
            decreases self.stop_words@.len() - i,
        {
            if self.stop_words[i] == *word {
                assert(self.spec_stop_words()[i as int] == word@);
                return true;
            }
            i += 1;
        }
        false
    }

    /// Counts how often each word occurs from the current position to the
    /// end of the text, skipping stop words. Returns one entry per distinct
    /// word, with its exact occurrence count; stop words get no entry.
    pub fn count_frequencies(&mut self) -> (r: Vec<(String, usize)>)
        requires
            old(self).wf(),
            remaining_numeric_runs_ok(old(self).spec_input(), old(self).spec_position()),
        ensures
            final(self).wf(),
            final(self).spec_input() == old(self).spec_input(),
            final(self).spec_join() == old(self).spec_join(),
            final(self).spec_stop_words() == old(self).spec_stop_words(),
            final(self).spec_position() == final(self).spec_input().len(),
            forall|w: Seq<char>|
                #[trigger] assoc_count(r@, w) == (if seq_contains_word(
                    old(self).spec_stop_words(),
                    w,
                ) {
                    0nat
                } else {
                    word_occurrences(
                        old(self).spec_input(),
                        old(self).spec_position(),
                        w,
                        old(self).spec_join(),
                    )
                }),
            forall|i: int, j: int| 0 <= i < j < r@.len() ==> r@[i].0@ != r@[j].0@,
            forall|i: int| 0 <= i < r@.len() ==> (#[trigger] r@[i]).1 >= 1,
    {
        let ghost input0 = self.tokenizer.input@;
        let ghost join0 = self.tokenizer.join_apostrophed_words;
        let ghost pos0 = self.tokenizer.position as int;
        let ghost stop0 = self.spec_stop_words();
        let mut entries: Vec<(String, usize)> = Vec::new();
        proof {
            assert(self.tokenizer.input@.len() == self.tokenizer.input.len());
        }
        loop
            invariant
                self.tokenizer.input@ == input0,
                self.tokenizer.join_apostrophed_words == join0,
                self.spec_stop_words() == stop0,
                input0.len() <= usize::MAX,
                0 <= pos0,
                pos0 <= self.tokenizer.position as int <= input0.len(),
                remaining_numeric_runs_ok(input0, pos0),
                forall|w: Seq<char>|
                    !seq_contains_word(stop0, w) ==> #[trigger] assoc_count(entries@, w)
                        + word_occurrences(input0, self.tokenizer.position as int, w, join0)
                        == word_occurrences(input0, pos0, w, join0),
                forall|w: Seq<char>|
                    seq_contains_word(stop0, w) ==> #[trigger] assoc_count(entries@, w) == 0,
                forall|i: int, j: int|
                    0 <= i < j < entries@.len() ==> entries@[i].0@ != entries@[j].0@,
                forall|i: int| 0 <= i < entries@.len() ==> (#[trigger] entries@[i]).1 >= 1,
                forall|i: int|
                    0 <= i < entries@.len() ==> !seq_contains_word(
                        stop0,
                        (#[trigger] entries@[i]).0@,
                    ),
            ensures
                self.tokenizer.input@ == input0,
                self.tokenizer.join_apostrophed_words == join0,
                self.spec_stop_words() == stop0,
                self.tokenizer.position as int == input0.len(),
                forall|w: Seq<char>|
                    !seq_contains_word(stop0, w) ==> #[trigger] assoc_count(entries@, w)
                        + word_occurrences(input0, self.tokenizer.position as int, w, join0)
                        == word_occurrences(input0, pos0, w, join0),
                forall|w: Seq<char>|
                    seq_contains_word(stop0, w) ==> #[trigger] assoc_count(entries@, w) == 0,
                forall|i: int, j: int|
                    0 <= i < j < entries@.len() ==> entries@[i].0@ != entries@[j].0@,
                forall|i: int| 0 <= i < entries@.len() ==> (#[trigger] entries@[i]).1 >= 1,
            decreases input0.len() - self.tokenizer.position,
        {
            let ghost prepos = self.tokenizer.position as int;
            proof {
                assert(numeric_run_ok(input0, prepos));
            }
            let token = match self.tokenizer.next_token() {
                None => {
                    break ;
                },
                Some(t) => t,
            };
            let ghost newpos = self.tokenizer.position as int;
            proof {
                lemma_next_position_advances(input0, prepos, join0);
                assert forall|w: Seq<char>|
                    word_occurrences(input0, prepos, w, join0) == (if is_word_token_at(
                        input0,
                        prepos,
                        join0,
                        w,
                    ) {
                        1nat
                    } else {
                        0nat
                    }) + word_occurrences(input0, newpos, w, join0) by {
                    lemma_word_occurrences_step(input0, prepos, w, join0);
                }
            }
            match token {
                Token::Word(word) => {
                    proof {
                        assert(is_word_token_at(input0, prepos, join0, word@));
                        assert forall|w: Seq<char>|
                            w != word@ implies !is_word_token_at(input0, prepos, join0, w) by {}
                    }
                    if !self.contains_stop_word(&word) {
                        let idx_opt = Self::find_entry(&entries, &word);
                        match idx_opt {
                            Some(idx) => {
                                proof {
                                    lemma_word_occurrences_bound(input0, pos0, word@, join0);
                                    lemma_assoc_count_at(entries@, idx as int, word@);
                                }
                                let c = entries[idx].1;
                                let ghost pre_entries = entries@;
                                entries[idx].1 = c + 1;
                                proof {
                                    assert(entries@ == pre_entries.update(
                                        idx as int,
                                        (pre_entries[idx as int].0, (c + 1) as usize),
                                    ));
                                    assert forall|w: Seq<char>|
                                        #[trigger] assoc_count(entries@, w) == (if pre_entries[
                                            idx as int
                                        ].0@ == w {
                                            (c + 1) as nat
                                        } else {
                                            assoc_count(pre_entries, w)
                                        }) by {
                                        lemma_assoc_count_update(
                                            pre_entries,
                                            idx as int,
                                            (pre_entries[idx as int].0, (c + 1) as usize),
                                            w,
                                        );
                                    }
                                }
                            },
                            None => {
                                proof {
                                    lemma_assoc_count_absent(entries@, word@);
                                    let ghost pre_entries = entries@;
                                    assert forall|w: Seq<char>|
                                        #[trigger] assoc_count(pre_entries.push((word, 1usize)), w)
                                            == (if word@ == w {
                                            1nat
                                        } else {
                                            assoc_count(pre_entries, w)
                                        }) by {
                                        lemma_assoc_count_push(pre_entries, (word, 1usize), w);
                                    }
                                }
                                entries.push((word, 1));
                            },
                        }
                    }
                },
                _ => {
                    proof {
                        assert forall|w: Seq<char>|
                            !is_word_token_at(input0, prepos, join0, w) by {}
                    }
                },
            }
        }
        entries
    }


    /// Replaces the stop words with the comma-separated words in `contents`,
    /// each trimmed of surrounding whitespace.
    pub fn read_stop_words(&mut self, contents: &str)
        ensures
            final(self).wf() == old(self).wf(),
            final(self).spec_input() == old(self).spec_input(),
            final(self).spec_position() == old(self).spec_position(),
            final(self).spec_join() == old(self).spec_join(),
            final(self).spec_stop_words() == split_commas(contents@).map_values(
                |p: Seq<char>| spec_trim(p),
            ),
    {
        let chars = collect_chars(contents);
        let n = chars.len();
        let ghost total = split_commas(chars@).map_values(|p: Seq<char>| spec_trim(p));
        let mut words: Vec<String> = Vec::new();
        let mut piece_start: usize = 0;
        let mut i: usize = 0;
        proof {
            assert(chars@.subrange(0, n as int) =~= chars@);
            assert(words@.map_values(|w: String| w@) + split_commas(chars@).map_values(
                |p: Seq<char>| spec_trim(p),
            ) =~= total);
        }
        while i < n
            invariant
                n == chars@.len(),
                chars@ == contents@,
                piece_start <= i <= n,
                total == split_commas(chars@).map_values(|p: Seq<char>| spec_trim(p)),
                forall|k: int| piece_start <= k < i ==> chars@[k] != ',',
                words@.map_values(|w: String| w@) + split_commas(
                    chars@.subrange(piece_start as int, n as int),
                ).map_values(|p: Seq<char>| spec_trim(p)) == total,
            decreases n - i,
        {
            if chars[i] == ',' {
                let ghost rest = chars@.subrange(piece_start as int, n as int);
                proof {
                    assert forall|k: int| 0 <= k < i - piece_start implies rest[k] != ',' by {
                        assert(rest[k] == chars@[piece_start + k]);
                    }
                    assert(rest[i - piece_start] == chars@[i as int]);
                    lemma_first_comma_is(rest, i - piece_start);
                    assert(rest.subrange(0, i - piece_start) =~= chars@.subrange(
                        piece_start as int,
                        i as int,
                    ));
                    assert(rest.subrange(i - piece_start + 1, rest.len() as int) =~= chars@.subrange(
                        i as int + 1,
                        n as int,
                    ));
                }
                let w = trimmed_string(&chars, piece_start, i);
                let ghost old_words = words@;
                words.push(w);
                proof {
                    assert(words@.map_values(|w: String| w@) =~= old_words.map_values(
                        |w: String| w@,
                    ).push(spec_trim(chars@.subrange(piece_start as int, i as int))));
                    assert(split_commas(rest).map_values(|p: Seq<char>| spec_trim(p)) =~= seq![
                        spec_trim(chars@.subrange(piece_start as int, i as int)),
                    ] + split_commas(chars@.subrange(i as int + 1, n as int)).map_values(
                        |p: Seq<char>| spec_trim(p),
                    ));
                    assert(words@.map_values(|w: String| w@) + split_commas(
                        chars@.subrange(i as int + 1, n as int),
                    ).map_values(|p: Seq<char>| spec_trim(p)) =~= total);
                }
                piece_start = i + 1;
            }
            i += 1;
        }
        let ghost rest = chars@.subrange(piece_start as int, n as int);
        proof {
            assert forall|k: int| 0 <= k < rest.len() implies rest[k] != ',' by {
                assert(rest[k] == chars@[piece_start + k]);
            }
            lemma_first_comma_is(rest, rest.len() as int);
        }
        let w = trimmed_string(&chars, piece_start, n);
        let ghost old_words = words@;
        words.push(w);
        proof {
            assert(words@.map_values(|w: String| w@) =~= old_words.map_values(|w: String| w@).push(
                spec_trim(rest),
            ));
            assert(split_commas(rest).map_values(|p: Seq<char>| spec_trim(p)) =~= seq![
                spec_trim(rest),
            ]);
            assert(words@.map_values(|w: String| w@) =~= total);
        }
        self.stop_words = words;
    }

    /// The index of the entry holding `word`, if any.
    fn find_entry(entries: &Vec<(String, usize)>, word: &String) -> (r: Option<usize>)
        ensures
            (r matches Some(i) ==> (i as int) < entries@.len() && entries@[i as int].0@ == word@),
            (r is None ==> forall|i: int|
                0 <= i < entries@.len() ==> (#[trigger] entries@[i]).0@ != word@),
    {
        let mut i: usize = 0;
        while i < entries.len()
            invariant
                i <= entries@.len(),
                forall|j: int| 0 <= j < i ==> (#[trigger] entries@[j]).0@ != word@,
            decreases entries@.len() - i,
        {
            if entries[i].0 == *word {
                return Some(i);
            }
            i += 1;
        }
        None
    }

    /// Like [`FrequencyCounter::count_frequencies`], but first checks that
    /// every numeric run left in the text can be tokenized; if one cannot,
    /// reports the error and changes nothing.
    pub fn try_count_frequencies(&mut self) -> (r: Result<Vec<(String, usize)>, TokenError>)
        requires
            old(self).wf(),
        ensures
            (r matches Err(_) ==> *final(self) == *old(self) && !remaining_numeric_runs_ok(
                old(self).spec_input(),
                old(self).spec_position(),
            )),
            (r matches Ok(v) ==> {
                &&& remaining_numeric_runs_ok(old(self).spec_input(), old(self).spec_position())
                &&& final(self).spec_input() == old(self).spec_input()
                &&& final(self).spec_join() == old(self).spec_join()
                &&& final(self).spec_stop_words() == old(self).spec_stop_words()
                &&& (forall|w: Seq<char>|
                    #[trigger] assoc_count(v@, w) == (if seq_contains_word(
                        old(self).spec_stop_words(),
                        w,
                    ) {
                        0nat
                    } else {
                        word_occurrences(
                            old(self).spec_input(),
                            old(self).spec_position(),
                            w,
                            old(self).spec_join(),
                        )
                    }))
                &&& (forall|i: int, j: int| 0 <= i < j < v@.len() ==> v@[i].0@ != v@[j].0@)
            }),
    {
        if !numeric_runs_parseable_from(&self.tokenizer.input, self.tokenizer.position) {
            return Err(TokenError::UnparsableNumber);
        }
        Ok(self.count_frequencies())
    }
}

/// A word together with its occurrence count.
#[derive(Debug, PartialEq, Eq, Clone)]
pub struct Count {
    pub word: String,
    pub count: usize,
}

impl Count {
    /// A count entry for the given word.
    pub fn new(word: &str, count: usize) -> (r: Self)
        ensures
            r.word@ == word@,
            r.count == count,
    {
        Count { word: word.to_owned(), count }
    }
}

/// Lexicographic order on char sequences, by scalar value.
pub open spec fn lex_le(x: Seq<char>, y: Seq<char>) -> bool
    decreases x.len(),
{
    if x.len() == 0 {
        true
    } else if y.len() == 0 {
        false
    } else if (x[0] as u32) < (y[0] as u32) {
        true
    } else if (x[0] as u32) > (y[0] as u32) {
        false
    } else {
        lex_le(x.drop_first(), y.drop_first())
    }
}

/// The sort order on counts: larger counts first; equal counts are ordered
/// by word, lexicographically.
pub open spec fn count_le(a: Count, b: Count) -> bool {
    b.count < a.count || (a.count == b.count && lex_le(a.word@, b.word@))
}

proof fn lemma_lex_le_total(x: Seq<char>, y: Seq<char>)
    ensures
        lex_le(x, y) || lex_le(y, x),
    decreases x.len(),
{
    if x.len() > 0 && y.len() > 0 && (x[0] as u32) == (y[0] as u32) {
        lemma_lex_le_total(x.drop_first(), y.drop_first());
    }
}

proof fn lemma_lex_le_trans(x: Seq<char>, y: Seq<char>, z: Seq<char>)
    requires
        lex_le(x, y),
        lex_le(y, z),
    ensures
        lex_le(x, z),
    decreases x.len(),
{
    if x.len() > 0 && y.len() > 0 && z.len() > 0 && (x[0] as u32) == (y[0] as u32) && (y[0]
        as u32) == (z[0] as u32) {
        lemma_lex_le_trans(x.drop_first(), y.drop_first(), z.drop_first());
    }
}

proof fn lemma_count_le_total(a: Count, b: Count)
    ensures
        count_le(a, b) || count_le(b, a),
{
    lemma_lex_le_total(a.word@, b.word@);
}

proof fn lemma_count_le_trans(a: Count, b: Count, c: Count)
    requires
        count_le(a, b),
        count_le(b, c),
    ensures
        count_le(a, c),
{
    if a.count == b.count && b.count == c.count {
        lemma_lex_le_trans(a.word@, b.word@, c.word@);
    }
}

/// Whether `a` comes no later than `b` in the sort order.
fn count_le_exec(a: &Count, b: &Count) -> (r: bool)
    ensures
        r == count_le(*a, *b),
{
    if b.count < a.count {
        true
    } else if a.count == b.count {
        str_lex_le(a.word.as_str(), b.word.as_str())
    } else {
        false
    }
}

/// Whether `x` comes no later than `y` lexicographically.
fn str_lex_le(x: &str, y: &str) -> (r: bool)
    ensures
        r == lex_le(x@, y@),
{
    let xn = x.unicode_len();
    let yn = y.unicode_len();
    let mut i: usize = 0;
    proof {
        assert(x@.skip(0) =~= x@);
        assert(y@.skip(0) =~= y@);
    }
    while i < xn && i < yn
        invariant
            xn == x@.len(),
            yn == y@.len(),
            i <= xn,
            i <= yn,
            lex_le(x@, y@) == lex_le(x@.skip(i as int), y@.skip(i as int)),
        decreases xn - i,
    {
        let cx = x.get_char(i);
        let cy = y.get_char(i);
        proof {
            assert(x@.skip(i as int)[0] == x@[i as int]);
            assert(y@.skip(i as int)[0] == y@[i as int]);
        }
        if (cx as u32) < (cy as u32) {
            return true;
        }
        if (cx as u32) > (cy as u32) {
            return false;
        }
        proof {
            assert(x@.skip(i as int).drop_first() =~= x@.skip(i as int + 1));
            assert(y@.skip(i as int).drop_first() =~= y@.skip(i as int + 1));
        }
        i += 1;
    }
    if i >= xn {
        true
    } else {
        false
    }
}

/// The entries sorted by [`count_le`]: descending by count, and for equal
/// counts ascending by word.
pub open spec fn sorted_counts(s: Seq<Count>) -> bool {
    forall|i: int, j: int| 0 <= i <= j < s.len() ==> count_le(#[trigger] s[i], #[trigger] s[j])
}

/// The count entry for a (word, count) pair.
pub open spec fn pair_to_count(e: (String, usize)) -> Count {
    Count { word: e.0, count: e.1 }
}

/// The count entries for a sequence of (word, count) pairs.
pub open spec fn pairs_to_counts(s: Seq<(String, usize)>) -> Seq<Count> {
    s.map_values(|e: (String, usize)| pair_to_count(e))
}


impl FrequencyCounter {
    /// Sorts (word, count) entries into [`Count`] values, largest count first
    /// and ties broken by word order; the result holds exactly the given
    /// entries.
    pub fn sort_frequencies(word_frequencies: &Vec<(String, usize)>) -> (r: Vec<Count>)
        ensures
            r@.len() == word_frequencies@.len(),
            sorted_counts(r@),
            r@.to_multiset() == pairs_to_counts(word_frequencies@).to_multiset(),
    {
        broadcast use vstd::seq_lib::group_to_multiset_ensures, vstd::seq_lib::to_multiset_insert;

        let mut out: Vec<Count> = Vec::new();
        let mut idx: usize = 0;
        proof {
            assert(pairs_to_counts(word_frequencies@.subrange(0, 0)) =~= Seq::<Count>::empty());
            assert(out@.to_multiset() =~= Seq::<Count>::empty().to_multiset());
        }
        while idx < word_frequencies.len()
            invariant
                idx <= word_frequencies@.len(),
                out@.len() == idx,
                sorted_counts(out@),
                out@.to_multiset() == pairs_to_counts(
                    word_frequencies@.subrange(0, idx as int),
                ).to_multiset(),
            decreases word_frequencies@.len() - idx,
        {
            let word = word_frequencies[idx].0.clone();
            let count = word_frequencies[idx].1;
            let c = Count { word, count };
            assert(c == pair_to_count(word_frequencies@[idx as int]));
            let mut k: usize = 0;
            while k < out.len() && count_le_exec(&out[k], &c)
                invariant
                    k <= out@.len(),
                    forall|j: int| 0 <= j < k ==> count_le(#[trigger] out@[j], c),
                decreases out@.len() - k,
            {
                k += 1;
            }
            let ghost pre = out@;
            proof {
                if k < pre.len() {
                    lemma_count_le_total(pre[k as int], c);
                }
            }
            out.insert(k, c);
            proof {
                lemma_count_le_total(c, c);
                assert(out@ == pre.insert(k as int, c));
                assert forall|i: int, j: int|
                    0 <= i <= j < out@.len() implies count_le(#[trigger] out@[i], #[trigger] out@[j]) by {
                    let ki = k as int;
                    if i < ki {
                        assert(out@[i] == pre[i]);
                    }
                    if j < ki {
                        assert(out@[j] == pre[j]);
                    }
                    if i > ki {
                        assert(out@[i] == pre[i - 1]);
                    }
                    if j > ki {
                        assert(out@[j] == pre[j - 1]);
                    }
                    if i == ki && j > ki {
                        lemma_count_le_trans(c, pre[ki], pre[j - 1]);
                    }
                }
                let sub_old = pairs_to_counts(word_frequencies@.subrange(0, idx as int));
                let sub_new = pairs_to_counts(word_frequencies@.subrange(0, idx + 1));
                assert(sub_new =~= sub_old.push(c));
                vstd::seq_lib::to_multiset_insert(pre, k as int, c);
                vstd::seq_lib::to_multiset_build(sub_old, c);
                assert(out@.to_multiset() == pre.to_multiset().insert(c));
                assert(sub_old.push(c).to_multiset() == sub_old.to_multiset().insert(c));
                assert(out@.to_multiset() == sub_new.to_multiset());
            }
            idx += 1;
        }
        proof {
            assert(word_frequencies@.subrange(0, word_frequencies@.len() as int) =~= word_frequencies@);
        }
        out
    }

}

} // verus!
