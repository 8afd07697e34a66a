//! A character tokenizer: splits text into words, numbers, whitespace and
//! punctuation, one token per call.

use vstd::prelude::*;
use vstd::string::StrSliceExecFns;

verus! {

/// Whether a char beyond ASCII has the White_Space property.
pub uninterp spec fn unicode_whitespace(c: char) -> bool;

/// Whether a char beyond ASCII has the Alphabetic property.
pub uninterp spec fn unicode_alphabetic(c: char) -> bool;

/// Whether a char beyond ASCII is in one of the numeric categories.
pub uninterp spec fn unicode_numeric(c: char) -> bool;

/// Whitespace: on ASCII exactly tab, line feed, vertical tab, form feed,
/// carriage return and space; beyond ASCII the White_Space property.
pub open spec fn is_whitespace_char(c: char) -> bool {
    if (c as u32) < 128 {
        (9 <= c as u32 && c as u32 <= 13) || c as u32 == 32
    } else {
        unicode_whitespace(c)
    }
}

/// Alphabetic: on ASCII exactly the letters; beyond ASCII the Alphabetic
/// property.
pub open spec fn is_alphabetic_char(c: char) -> bool {
    if (c as u32) < 128 {
        (97 <= c as u32 && c as u32 <= 122) || (65 <= c as u32 && c as u32 <= 90)
    } else {
        unicode_alphabetic(c)
    }
}

/// Numeric: on ASCII exactly the ten digits; beyond ASCII the numeric
/// categories.
pub open spec fn is_numeric_char(c: char) -> bool {
    if (c as u32) < 128 {
        48 <= c as u32 && c as u32 <= 57
    } else {
        unicode_numeric(c)
    }
}

/// Relies on char::is_whitespace: true exactly of chars with the White_Space
/// property, which on ASCII are tab, line feed, vertical tab, form feed,
/// carriage return and space.
#[verifier::external_body]
pub(crate) fn char_is_whitespace(c: char) -> (r: bool)
    ensures
        r == is_whitespace_char(c),
        (c as u32) >= 128 ==> r == unicode_whitespace(c),
{
    c.is_whitespace()
}

/// Relies on char::is_alphabetic: true exactly of chars with the Alphabetic
/// property, which on ASCII are the letters a-z and A-Z.
#[verifier::external_body]
pub(crate) fn char_is_alphabetic(c: char) -> (r: bool)
    ensures
        r == is_alphabetic_char(c),
        (c as u32) >= 128 ==> r == unicode_alphabetic(c),
{
    c.is_alphabetic()
}

/// Relies on char::is_numeric: true exactly of chars in a numeric general
/// category, which on ASCII are the ten digits 0-9.
#[verifier::external_body]
pub(crate) fn char_is_numeric(c: char) -> (r: bool)
    ensures
        r == is_numeric_char(c),
        (c as u32) >= 128 ==> r == unicode_numeric(c),
{
    c.is_numeric()
}

/// Relies on String::push: appends one char at the end.
#[verifier::external_body]
pub(crate) fn push_char_into(s: &mut String, c: char)
    ensures
        final(s)@ == old(s)@.push(c),
{
    s.push(c);
}

/// One token of the input text.
#[derive(Debug, PartialEq, Eq, Clone)]
pub enum Token {
    Word(String),
    Number(i64),
    Whitespace,
    Punctuation(char),
}

/// Why a token could not be produced.
#[derive(Debug, Clone, Copy, PartialEq, Eq, Structural)]
pub enum TokenError {
    /// The numeric run at the current position is not a plain decimal
    /// number that fits a number token: it holds a numeric char that is no
    /// ASCII digit, or its value exceeds the token's range.
    UnparsableNumber,
}

/// Where the word starting at `p` ends: the first position after `p` that
/// does not continue the word. A word is a run of alphabetic chars; when
/// `join` is set, an apostrophe directly followed by an alphabetic char
/// continues the word as well.
pub open spec fn word_end(input: Seq<char>, p: int, join: bool) -> int
    decreases input.len() - p,
{
    if 0 <= p < input.len() && is_alphabetic_char(input[p]) {
        word_end(input, p + 1, join)
    } else if 0 <= p < input.len() && join && input[p] == '\'' && p + 1 < input.len()
        && is_alphabetic_char(input[p + 1]) {
        word_end(input, p + 2, join)
    } else {
        p
    }
}

/// Where the numeric run starting at `p` ends.
pub open spec fn number_end(input: Seq<char>, p: int) -> int
    decreases input.len() - p,
{
    if 0 <= p < input.len() && is_numeric_char(input[p]) {
        number_end(input, p + 1)
    } else {
        p
    }
}

pub proof fn lemma_word_end_bounds(input: Seq<char>, p: int, join: bool)
    requires
        0 <= p <= input.len(),
    ensures
        p <= word_end(input, p, join) <= input.len(),
    decreases input.len() - p,
{
    if p < input.len() && is_alphabetic_char(input[p]) {
        lemma_word_end_bounds(input, p + 1, join);
    } else if p < input.len() && join && input[p] == '\'' && p + 1 < input.len()
        && is_alphabetic_char(input[p + 1]) {
        lemma_word_end_bounds(input, p + 2, join);
    }
}

pub proof fn lemma_number_end_bounds(input: Seq<char>, p: int)
    requires
        0 <= p <= input.len(),
    ensures
        p <= number_end(input, p) <= input.len(),
    decreases input.len() - p,
{
    if p < input.len() && is_numeric_char(input[p]) {
        lemma_number_end_bounds(input, p + 1);
    }
}

/// An ASCII digit 0-9.
pub open spec fn is_ascii_digit(c: char) -> bool {
    48 <= c as u32 && c as u32 <= 57
}

pub open spec fn all_ascii_digits(s: Seq<char>) -> bool {
    forall|i: int| 0 <= i < s.len() ==> is_ascii_digit(#[trigger] s[i])
}

/// The value of a run of ASCII digits read as a decimal number.
pub open spec fn digits_value(s: Seq<char>) -> int
    decreases s.len(),
{
    if s.len() == 0 {
        0
    } else {
        10 * digits_value(s.drop_last()) + (s.last() as u32 - 48)
    }
}

proof fn lemma_digits_value_nonneg(s: Seq<char>)
    requires
        all_ascii_digits(s),
    ensures
        digits_value(s) >= 0,
    decreases s.len(),
{
    if s.len() > 0 {
        assert(all_ascii_digits(s.drop_last())) by {
            assert forall|i: int| 0 <= i < s.len() - 1 implies is_ascii_digit(
                #[trigger] s.drop_last()[i],
            ) by {
                assert(s.drop_last()[i] == s[i]);
            }
        }
        lemma_digits_value_nonneg(s.drop_last());
    }
}

/// A shorter prefix of a run of ASCII digits has a value no larger than a
/// longer one.
proof fn lemma_digits_prefix_le(input: Seq<char>, start: int, i: int, e: int)
    requires
        0 <= start <= i <= e <= input.len(),
        all_ascii_digits(input.subrange(start, e)),
    ensures
        digits_value(input.subrange(start, i)) <= digits_value(input.subrange(start, e)),
    decreases e - i,
{
    if i < e {
        lemma_digits_prefix_le(input, start, i + 1, e);
        let shorter = input.subrange(start, i);
        let longer = input.subrange(start, i + 1);
        assert(longer.drop_last() =~= shorter);
        assert(all_ascii_digits(shorter)) by {
            assert forall|k: int| 0 <= k < shorter.len() implies is_ascii_digit(
                #[trigger] shorter[k],
            ) by {
                assert(shorter[k] == input.subrange(start, e)[k]);
            }
        }
        lemma_digits_value_nonneg(shorter);
        assert(is_ascii_digit(longer.last())) by {
            assert(longer.last() == input.subrange(start, e)[i - start]);
        }
    }
}

/// If the tokenizer would read a number at `p`, the numeric run there is
/// all ASCII digits and its decimal value fits a number token.
pub open spec fn numeric_run_ok(input: Seq<char>, p: int) -> bool {
    (0 <= p < input.len() && !is_whitespace_char(input[p]) && !is_alphabetic_char(input[p])
        && is_numeric_char(input[p])) ==> {
        let e = number_end(input, p);
        all_ascii_digits(input.subrange(p, e)) && digits_value(input.subrange(p, e)) <= i64::MAX
    }
}

/// Whether the numeric run at position `p` of `input` (if a number token
/// starts there at all) is all ASCII digits with a value that fits a number
/// token.
pub fn numeric_run_parseable_at(input: &Vec<char>, p: usize) -> (r: bool)
    ensures
        r == numeric_run_ok(input@, p as int),
{
    let ghost inp = input@;
    if p >= input.len() {
        return true;
    }
    let c0 = input[p];
    if char_is_whitespace(c0) || char_is_alphabetic(c0) || !char_is_numeric(c0) {
        return true;
    }
    proof {
        lemma_number_end_bounds(inp, p as int);
    }
    let ghost e = number_end(inp, p as int);
    let mut i: usize = p;
    let mut value: i64 = 0;
    loop
        invariant
            inp == input@,
            0 <= p < inp.len(),
            !is_whitespace_char(inp[p as int]),
            !is_alphabetic_char(inp[p as int]),
            is_numeric_char(inp[p as int]),
            p <= i <= inp.len(),
            e == number_end(inp, p as int),
            number_end(inp, i as int) == e,
            all_ascii_digits(inp.subrange(p as int, i as int)),
            value == digits_value(inp.subrange(p as int, i as int)),
            0 <= value <= i64::MAX,
        ensures
            i as int == e,
            all_ascii_digits(inp.subrange(p as int, e)),
            digits_value(inp.subrange(p as int, e)) <= i64::MAX,
        decreases inp.len() - i,
    {
        if i >= input.len() {
            break;
        }
        let c = input[i];
        if !char_is_numeric(c) {
            break;
        }
        proof {
            lemma_number_end_bounds(inp, i as int + 1);
        }
        let cu = c as u32;
        if cu < 48 || cu > 57 {
            proof {
                assert(inp.subrange(p as int, e)[i - p] == inp[i as int]);
            }
            return false;
        }
        let d = (cu - 48) as i64;
        let wide: i128 = (value as i128) * 10 + (d as i128);
        proof {
            let shorter = inp.subrange(p as int, i as int);
            let longer = inp.subrange(p as int, i + 1);
            assert(longer.drop_last() =~= shorter);
            assert(longer.last() == inp[i as int]);
            assert(digits_value(longer) == wide);
            assert(all_ascii_digits(longer)) by {
                assert forall|k: int| 0 <= k < longer.len() implies is_ascii_digit(
                    #[trigger] longer[k],
                ) by {
                    if k < longer.len() - 1 {
                        assert(longer[k] == shorter[k]);
                    }
                }
            }
        }
        if wide > i64::MAX as i128 {
            proof {
                if all_ascii_digits(inp.subrange(p as int, e)) {
                    lemma_digits_prefix_le(inp, p as int, i + 1, e);
                }
            }
            return false;
        }
        value = wide as i64;
        i += 1;
    }
    true
}


/// Every numeric run at or after `from` can be turned into a number token.
pub open spec fn remaining_numeric_runs_ok(input: Seq<char>, from: int) -> bool {
    forall|p: int| from <= p ==> #[trigger] numeric_run_ok(input, p)
}

/// Whether every numeric run at or after position `from` can be turned into
/// a number token.
pub fn numeric_runs_parseable_from(input: &Vec<char>, from: usize) -> (r: bool)
    ensures
        r == remaining_numeric_runs_ok(input@, from as int),
{
    let n = input.len();
    let mut p = from;
    while p < n
        invariant
            n == input@.len(),
            from <= p,
            p <= n || from >= n,
            forall|q: int| from <= q < p ==> #[trigger] numeric_run_ok(input@, q),
        decreases n - p,
    {
        if !numeric_run_parseable_at(input, p) {
            return false;
        }
        p += 1;
    }
    proof {
        assert forall|q: int| from as int <= q implies #[trigger] numeric_run_ok(input@, q) by {
            if q < input@.len() {
            }
        }
    }
    true
}

/// The token produced at position `p`, by the first matching class of the
/// char there: whitespace, then word, then number, then punctuation.
pub open spec fn spec_token_at(input: Seq<char>, p: int, join: bool, t: Token) -> bool {
    let c = input[p];
    if is_whitespace_char(c) {
        t == Token::Whitespace
    } else if is_alphabetic_char(c) {
        t matches Token::Word(w) && w@ == input.subrange(p, word_end(input, p, join))
    } else if is_numeric_char(c) {
        t matches Token::Number(v) && v == digits_value(input.subrange(p, number_end(input, p)))
    } else {
        t == Token::Punctuation(c)
    }
}

/// The position after producing the token at `p`.
pub open spec fn spec_next_position(input: Seq<char>, p: int, join: bool) -> int {
    let c = input[p];
    if is_whitespace_char(c) {
        p + 1
    } else if is_alphabetic_char(c) {
        word_end(input, p, join)
    } else if is_numeric_char(c) {
        number_end(input, p)
    } else {
        p + 1
    }
}

/// Producing a token always consumes at least one char and never runs past
/// the end of the input.
pub proof fn lemma_next_position_advances(input: Seq<char>, p: int, join: bool)
    requires
        0 <= p < input.len(),
    ensures
        p < spec_next_position(input, p, join) <= input.len(),
{
    if !is_whitespace_char(input[p]) && is_alphabetic_char(input[p]) {
        lemma_word_end_bounds(input, p + 1, join);
    }
    if !is_whitespace_char(input[p]) && !is_alphabetic_char(input[p]) && is_numeric_char(
        input[p],
    ) {
        lemma_number_end_bounds(input, p + 1);
    }
}

/// How one call that produces a token relates the tokenizer's state before
/// (`pre`) and after (`post`) to the produced token.
pub open spec fn spec_tokenize_step(pre: Tokenizer, post: Tokenizer, r: Option<Token>) -> bool {
    &&& post.input@ == pre.input@
    &&& post.join_apostrophed_words == pre.join_apostrophed_words
    &&& ((pre.position as int) >= pre.input@.len() ==> r is None && post.position == pre.position)
    &&& ((pre.position as int) < pre.input@.len() ==> {
        &&& post.position as int == spec_next_position(
            pre.input@,
            pre.position as int,
            pre.join_apostrophed_words,
        )
        &&& (r matches Some(t) && spec_token_at(
            pre.input@,
            pre.position as int,
            pre.join_apostrophed_words,
            t,
        ))
    })
}

/// Splits text into [`Token`]s, one per call.
pub struct Tokenizer {
    pub input: Vec<char>,
    pub position: usize,
    /// Whether an apostrophe between letters continues a word instead of
    /// splitting it.
    pub join_apostrophed_words: bool,
}

pub(crate) fn collect_chars(input: &str) -> (r: Vec<char>)
    ensures
        r@ == input@,
{
    let n = input.unicode_len();
    let mut chars: Vec<char> = Vec::new();
    let mut i: usize = 0;
    while i < n
        invariant
            n == input@.len(),
            i <= n,
            chars@ == input@.subrange(0, i as int),
        decreases n - i,
    {
        chars.push(input.get_char(i));
        proof {
            assert(chars@ =~= input@.subrange(0, i + 1));
        }
        i += 1;
    }
    proof {
        assert(chars@ =~= input@);
    }
    chars
}

impl Tokenizer {
    /// A tokenizer over the given text, starting at its first char, with
    /// apostrophes splitting words.
    pub fn new(input: &str) -> (r: Self)
        ensures
            r.input@ == input@,
            r.position == 0,
            !r.join_apostrophed_words,
    {
        Tokenizer { input: collect_chars(input), position: 0, join_apostrophed_words: false }
    }

    /// A tokenizer over the given text that treats an apostrophe between
    /// letters as part of one word.
    pub fn new_joining_apostrophes(input: &str) -> (r: Self)
        ensures
            r.input@ == input@,
            r.position == 0,
            r.join_apostrophed_words,
    {
        Tokenizer { input: collect_chars(input), position: 0, join_apostrophed_words: true }
    }

    /// The char at the current position, if any; the position does not move.
    pub fn peek_char(&self) -> (r: Option<char>)
        ensures
            r == (if (self.position as int) < self.input@.len() {
                Some(self.input@[self.position as int])
            } else {
                Option::<char>::None
            }),
    {
        if self.position >= self.input.len() {
            return None;
        }
        Some(self.input[self.position])
    }

    /// The char one past the current position, if any.
    pub fn peek_next_char(&self) -> (r: Option<char>)
        ensures
            r == (if (self.position as int) + 1 < self.input@.len() {
                Some(self.input@[self.position as int + 1])
            } else {
                Option::<char>::None
            }),
    {
        let n = self.input.len();
        if self.position >= n || self.position + 1 >= n {
            return None;
        }
        Some(self.input[self.position + 1])
    }

    /// Produces the next token, or `None` at the end of the input. The char
    /// class at the current position decides the token: whitespace, then
    /// word, then number, then punctuation.
    pub fn next_token(&mut self) -> (r: Option<Token>)
        requires
            numeric_run_ok(old(self).input@, old(self).position as int),
        ensures
            spec_tokenize_step(*old(self), *final(self), r),
    {
        let c = match self.peek_char() {
            None => {
                return None;
            },
            Some(c) => c,
        };
        if char_is_whitespace(c) {
            self.read_whitespace()
        } else if char_is_alphabetic(c) {
            self.read_word()
        } else if char_is_numeric(c) {
            self.read_number()
        } else {
            self.read_punctuation(c)
        }
    }

    /// Like [`Tokenizer::next_token`], but first checks that the numeric run
    /// at the current position can be turned into a token; if it cannot,
    /// reports the error and leaves the position unchanged.
    pub fn try_next_token(&mut self) -> (r: Result<Option<Token>, TokenError>)
        ensures
            (r matches Err(_) ==> *final(self) == *old(self) && !numeric_run_ok(
                old(self).input@,
                old(self).position as int,
            )),
            (r matches Ok(t) ==> numeric_run_ok(old(self).input@, old(self).position as int)
                && spec_tokenize_step(*old(self), *final(self), t)),
    {
        if !self.numeric_run_parseable() {
            return Err(TokenError::UnparsableNumber);
        }
        Ok(self.next_token())
    }

    /// Whether the numeric run at the current position (if the next token is
    /// a number at all) is all ASCII digits with a value that fits a number
    /// token.
    pub fn numeric_run_parseable(&self) -> (r: bool)
        ensures
            r == numeric_run_ok(self.input@, self.position as int),
    {
        numeric_run_parseable_at(&self.input, self.position)
    }

    fn read_whitespace(&mut self) -> (r: Option<Token>)
        requires
            (old(self).position as int) < old(self).input@.len(),
        ensures
            final(self).input@ == old(self).input@,
            final(self).join_apostrophed_words == old(self).join_apostrophed_words,
            final(self).position == old(self).position + 1,
            r == Some(Token::Whitespace),
    {
        proof {
            assert(self.input@.len() == self.input.len());
        }
        self.position += 1;
        Some(Token::Whitespace)
    }

    fn read_word(&mut self) -> (r: Option<Token>)
        requires
            (old(self).position as int) < old(self).input@.len(),
            is_alphabetic_char(old(self).input@[old(self).position as int]),
        ensures
            final(self).input@ == old(self).input@,
            final(self).join_apostrophed_words == old(self).join_apostrophed_words,
            final(self).position as int == word_end(
                old(self).input@,
                old(self).position as int,
                old(self).join_apostrophed_words,
            ),
            (r matches Some(t) && t matches Token::Word(w) && w@ == old(self).input@.subrange(
                old(self).position as int,
                final(self).position as int,
            )),
    {
        let start = self.position;
        let ghost input0 = self.input@;
        let ghost join0 = self.join_apostrophed_words;
        proof {
            lemma_word_end_bounds(input0, start as int, join0);
        }
        loop
            invariant
                self.input@ == input0,
                self.join_apostrophed_words == join0,
                start <= self.position <= input0.len(),
                word_end(input0, self.position as int, join0) == word_end(
                    input0,
                    start as int,
                    join0,
                ),
            ensures
                self.input@ == input0,
                self.join_apostrophed_words == join0,
                start <= self.position <= input0.len(),
                self.position as int == word_end(input0, start as int, join0),
            decreases input0.len() - self.position,
        {
            if self.position >= self.input.len() {
                break;
            }
            let ch = self.input[self.position];
            if char_is_alphabetic(ch) {
                proof {
                    lemma_word_end_bounds(input0, self.position as int + 1, join0);
                }
                self.position += 1;
            } else if ch == '\'' && self.should_continue_reading_apostrophed_word() {
            } else {
                break;
            }
        }
        let mut word = String::new();
        let mut i = start;
        while i < self.position
            invariant
                self.input@ == input0,
                start <= i <= self.position <= input0.len(),
                word@ == input0.subrange(start as int, i as int),
            decreases self.position - i,
        {
            push_char_into(&mut word, self.input[i]);
            proof {
                assert(word@ =~= input0.subrange(start as int, i + 1));
            }
            i += 1;
        }
        Some(Token::Word(word))
    }

    fn should_continue_reading_apostrophed_word(&mut self) -> (r: bool)
        ensures
            final(self).input@ == old(self).input@,
            final(self).join_apostrophed_words == old(self).join_apostrophed_words,
            (if old(self).join_apostrophed_words && (old(self).position as int) + 1 < old(
                self,
            ).input@.len() && is_alphabetic_char(
                old(self).input@[old(self).position as int + 1],
            ) {
                r && final(self).position == old(self).position + 2
            } else {
                !r && final(self).position == old(self).position
            }),
    {
        if !self.join_apostrophed_words {
            return false;
        }
        if let Some(next_ch) = self.peek_next_char() {
            if char_is_alphabetic(next_ch) {
                proof {
                    assert(self.input@.len() == self.input.len());
                }
                self.position += 1;  // consume the apostrophe
                self.position += 1;  // consume the following alphabetic char
                true
            } else {
                false
            }
        } else {
            false
        }
    }

    fn read_number(&mut self) -> (r: Option<Token>)
        requires
            (old(self).position as int) < old(self).input@.len(),
            is_numeric_char(old(self).input@[old(self).position as int]),
            all_ascii_digits(
                old(self).input@.subrange(
                    old(self).position as int,
                    number_end(old(self).input@, old(self).position as int),
                ),
            ),
            digits_value(
                old(self).input@.subrange(
                    old(self).position as int,
                    number_end(old(self).input@, old(self).position as int),
                ),
            ) <= i64::MAX,
        ensures
            final(self).input@ == old(self).input@,
            final(self).join_apostrophed_words == old(self).join_apostrophed_words,
            final(self).position as int == number_end(old(self).input@, old(self).position as int),
            (r matches Some(t) && t matches Token::Number(v) && v == digits_value(
                old(self).input@.subrange(
                    old(self).position as int,
                    final(self).position as int,
                ),
            )),
    {
        let start = self.position;
        let ghost input0 = self.input@;
        let ghost e = number_end(input0, start as int);
        proof {
            lemma_number_end_bounds(input0, start as int);
        }
        let mut value: i64 = 0;
        loop
            invariant
                self.input@ == input0,
                self.join_apostrophed_words == old(self).join_apostrophed_words,
                start <= self.position <= input0.len(),
                e == number_end(input0, start as int),
                number_end(input0, self.position as int) == e,
                start as int <= e <= input0.len(),
                all_ascii_digits(input0.subrange(start as int, e)),
                digits_value(input0.subrange(start as int, e)) <= i64::MAX,
                value == digits_value(input0.subrange(start as int, self.position as int)),
                0 <= value <= i64::MAX,
            ensures
                self.input@ == input0,
                self.join_apostrophed_words == old(self).join_apostrophed_words,
                self.position as int == e,
                value == digits_value(input0.subrange(start as int, e)),
            decreases input0.len() - self.position,
        {
            if self.position >= self.input.len() {
                break;
            }
            let c = self.input[self.position];
            if !char_is_numeric(c) {
                break;
            }
            proof {
                lemma_number_end_bounds(input0, self.position as int + 1);
                let shorter = input0.subrange(start as int, self.position as int);
                let longer = input0.subrange(start as int, self.position as int + 1);
                assert(longer.drop_last() =~= shorter);
                assert(longer.last() == input0.subrange(start as int, e)[self.position - start]);
                lemma_digits_prefix_le(input0, start as int, self.position as int + 1, e);
            }
            let d = ((c as u32) - 48) as i64;
            value = value * 10 + d;
            self.position += 1;
        }
        Some(Token::Number(value))
    }

    fn read_punctuation(&mut self, c: char) -> (r: Option<Token>)
        requires
            (old(self).position as int) < old(self).input@.len(),
        ensures
            final(self).input@ == old(self).input@,
            final(self).join_apostrophed_words == old(self).join_apostrophed_words,
            final(self).position == old(self).position + 1,
            r == Some(Token::Punctuation(c)),
    {
        proof {
            assert(self.input@.len() == self.input.len());
        }
        self.position += 1;
        Some(Token::Punctuation(c))
    }
}

} // verus!
