//! The tokenizer: turns a sequence of characters into a stream of tokens.
//!
//! A token is a word (a letter followed by letters and numeric characters),
//! a number (a run of numeric characters) or a single other character.
//! White space separates tokens and belongs to none.

use vstd::prelude::*;
use vstd::slice::slice_subrange;
use crate::chars::{alphabetic, alphanumeric, numeric, white_space};

verus! {

/// The classes of characters that a run is made of.
pub enum CharClass {
    Whitespace,
    Alphanumeric,
    Numeric,
}

/// Whether `c` belongs to `class`.
pub open spec fn in_class(class: CharClass, c: char) -> bool {
    match class {
        CharClass::Whitespace => white_space(c),
        CharClass::Alphanumeric => alphanumeric(c),
        CharClass::Numeric => numeric(c),
    }
}

/// `n` is the length of the longest prefix of `s` made of `class` only.
pub open spec fn is_run(s: Seq<char>, class: CharClass, n: int) -> bool {
    &&& 0 <= n <= s.len()
    &&& forall|i: int| 0 <= i < n ==> in_class(class, #[trigger] s[i])
    &&& n < s.len() ==> !in_class(class, s[n])
}

/// The length of the longest prefix of `s` made of `class` only.
pub open spec fn run_len(s: Seq<char>, class: CharClass) -> nat
    decreases s.len(),
{
    if s.len() > 0 && in_class(class, s[0]) {
        1 + run_len(s.drop_first(), class)
    } else {
        0
    }
}

/// `s` without its leading white space.
pub open spec fn skip_whitespace(s: Seq<char>) -> Seq<char> {
    s.skip(run_len(s, CharClass::Whitespace) as int)
}

/// The length of the token that a non-empty `s` starts with, where `s[0]`
/// is no white space.
pub open spec fn token_len(s: Seq<char>) -> nat
    recommends
        s.len() > 0,
{
    if alphabetic(s[0]) {
        run_len(s, CharClass::Alphanumeric)
    } else if numeric(s[0]) {
        run_len(s, CharClass::Numeric)
    } else {
        1
    }
}

/// The first token of `s` and what follows it, or `None` where `s` holds
/// white space only.
pub open spec fn first_token(s: Seq<char>) -> Option<(Seq<char>, Seq<char>)> {
    let t = skip_whitespace(s);
    if t.len() == 0 {
        None
    } else {
        Some((t.take(token_len(t) as int), t.skip(token_len(t) as int)))
    }
}

/// All tokens of `s`, in order.
pub open spec fn tokenize(s: Seq<char>) -> Seq<Seq<char>>
    decreases s.len(),
    via tokenize_decreases
{
    match first_token(s) {
        None => Seq::empty(),
        Some((token, rest)) => seq![token] + tokenize(rest),
    }
}

#[via_fn]
proof fn tokenize_decreases(s: Seq<char>) {
    lemma_first_token(s);
}

/// `run_len` is the one length that `is_run` accepts.
pub proof fn lemma_run_len(s: Seq<char>, class: CharClass)
    ensures
        is_run(s, class, run_len(s, class) as int),
        forall|n: int| is_run(s, class, n) ==> n == run_len(s, class),
    decreases s.len(),
{
    if s.len() > 0 && in_class(class, s[0]) {
        let t = s.drop_first();
        lemma_run_len(t, class);
        let m = run_len(t, class) as int;
        assert forall|i: int| 0 <= i < m + 1 implies in_class(class, #[trigger] s[i]) by {
            if i > 0 {
                assert(s[i] == t[i - 1]);
            }
        }
        if m + 1 < s.len() {
            assert(s[m + 1] == t[m]);
        }
        assert forall|n: int| is_run(s, class, n) implies n == run_len(s, class) by {
            assert(n > 0);
            assert forall|i: int| 0 <= i < n - 1 implies in_class(class, #[trigger] t[i]) by {
                assert(t[i] == s[i + 1]);
            }
            if n - 1 < t.len() {
                assert(t[n - 1] == s[n]);
            }
            assert(is_run(t, class, n - 1));
        }
    } else {
        assert forall|n: int| is_run(s, class, n) implies n == 0 by {
            if n > 0 {
                assert(in_class(class, s[0]));
            }
        }
    }
}

/// Where `s` has no token, it holds white space only. Else its first token
/// is not empty and starts with no white space, the token and what follows
/// it make up `s` without its leading white space, and what follows the
/// token is shorter than `s`.
pub proof fn lemma_first_token(s: Seq<char>)
    ensures
        match first_token(s) {
            None => forall|i: int| 0 <= i < s.len() ==> white_space(#[trigger] s[i]),
            Some((token, rest)) => {
                &&& token.len() > 0
                &&& !white_space(token[0])
                &&& rest.len() < s.len()
                &&& skip_whitespace(s) == token + rest
            },
        },
{
    lemma_run_len(s, CharClass::Whitespace);
    let t = skip_whitespace(s);
    if t.len() > 0 {
        lemma_run_len(t, CharClass::Alphanumeric);
        lemma_run_len(t, CharClass::Numeric);
        let n = token_len(t) as int;
        assert(t[0] == s[run_len(s, CharClass::Whitespace) as int]);
        assert(1 <= n <= t.len()) by {
            if alphabetic(t[0]) {
                if run_len(t, CharClass::Alphanumeric) == 0 {
                    assert(!in_class(CharClass::Alphanumeric, t[0]));
                }
            } else if numeric(t[0]) {
                if run_len(t, CharClass::Numeric) == 0 {
                    assert(!in_class(CharClass::Numeric, t[0]));
                }
            }
        }
        assert(t =~= t.take(n) + t.skip(n));
    }
}

/// `t` is a token: cut from an input that holds `t` alone, it comes out
/// whole.
pub open spec fn is_token(t: Seq<char>) -> bool {
    &&& t.len() > 0
    &&& !white_space(t[0])
    &&& token_len(t) == t.len()
}

/// Whether the character `c`, standing right behind the token `t`, would be
/// taken into `t`.
pub open spec fn extends_token(t: Seq<char>, c: char) -> bool {
    if alphabetic(t[0]) {
        alphanumeric(c)
    } else if numeric(t[0]) {
        numeric(c)
    } else {
        false
    }
}

/// No token of `tokens` would take in the first character of the next.
pub open spec fn no_adjacent_merge(tokens: Seq<Seq<char>>) -> bool {
    forall|i: int|
        0 <= i < tokens.len() - 1 ==> !extends_token(#[trigger] tokens[i], tokens[i + 1][0])
}

/// The empty input has no token.
pub proof fn lemma_tokenize_empty()
    ensures
        tokenize(Seq::<char>::empty()) == Seq::<Seq<char>>::empty(),
{
    lemma_first_token(Seq::<char>::empty());
}

/// A token followed by text that does not extend it is cut off unchanged.
pub proof fn lemma_token_then(token: Seq<char>, rest: Seq<char>)
    requires
        is_token(token),
        rest.len() > 0 ==> !extends_token(token, rest[0]),
    ensures
        first_token(token + rest) == Some((token, rest)),
        tokenize(token + rest) == seq![token] + tokenize(rest),
{
    let s = token + rest;
    let n = token.len() as int;
    assert(s[0] == token[0]);
    lemma_run_len(s, CharClass::Whitespace);
    assert(is_run(s, CharClass::Whitespace, 0));
    assert(skip_whitespace(s) =~= s);
    assert forall|i: int| 0 <= i < n implies s[i] == token[i] by {}
    if rest.len() > 0 {
        assert(s[n] == rest[0]);
    }
    if alphabetic(token[0]) {
        lemma_class_run(token, s, CharClass::Alphanumeric);
    } else if numeric(token[0]) {
        lemma_class_run(token, s, CharClass::Numeric);
    }
    assert(token_len(s) == n);
    assert(s.take(n) =~= token);
    assert(s.skip(n) =~= rest);
}

/// Where a run fills the whole of `token`, and `s` goes on behind `token`
/// with a character outside the class, the run of `s` is `token`.
proof fn lemma_class_run(token: Seq<char>, s: Seq<char>, class: CharClass)
    requires
        run_len(token, class) == token.len(),
        token.len() <= s.len(),
        forall|i: int| 0 <= i < token.len() ==> s[i] == token[i],
        token.len() < s.len() ==> !in_class(class, s[token.len() as int]),
    ensures
        run_len(s, class) == token.len(),
{
    lemma_run_len(token, class);
    lemma_run_len(s, class);
    assert forall|i: int| 0 <= i < token.len() implies in_class(class, #[trigger] s[i]) by {
        assert(in_class(class, token[i]));
    }
    assert(is_run(s, class, token.len() as int));
}

/// What the tokenizer cuts off is a token, and it does not take in the
/// character that follows it in the input.
pub proof fn lemma_first_token_is_token(s: Seq<char>)
    ensures
        match first_token(s) {
            None => true,
            Some((token, rest)) => {
                &&& is_token(token)
                &&& rest.len() > 0 ==> !extends_token(token, rest[0])
            },
        },
{
    lemma_first_token(s);
    let t = skip_whitespace(s);
    if t.len() > 0 {
        let n = token_len(t) as int;
        let token = t.take(n);
        let rest = t.skip(n);
        lemma_run_len(t, CharClass::Alphanumeric);
        lemma_run_len(t, CharClass::Numeric);
        lemma_run_len(token, CharClass::Alphanumeric);
        lemma_run_len(token, CharClass::Numeric);
        assert(token[0] == t[0]);
        if rest.len() > 0 {
            assert(rest[0] == t[n]);
        }
        if alphabetic(t[0]) {
            assert forall|i: int| 0 <= i < n implies in_class(
                CharClass::Alphanumeric,
                #[trigger] token[i],
            ) by {
                assert(token[i] == t[i]);
            }
            assert(is_run(token, CharClass::Alphanumeric, n));
        } else if numeric(t[0]) {
            assert forall|i: int| 0 <= i < n implies in_class(
                CharClass::Numeric,
                #[trigger] token[i],
            ) by {
                assert(token[i] == t[i]);
            }
            assert(is_run(token, CharClass::Numeric, n));
        }
    }
}

/// Every element of `tokenize(s)` is a token.
pub proof fn lemma_tokens_are_tokens(s: Seq<char>)
    ensures
        forall|i: int| 0 <= i < tokenize(s).len() ==> is_token(#[trigger] tokenize(s)[i]),
    decreases s.len(),
{
    lemma_first_token(s);
    lemma_first_token_is_token(s);
    match first_token(s) {
        None => {},
        Some((token, rest)) => {
            lemma_tokens_are_tokens(rest);
            assert forall|i: int| 0 <= i < tokenize(s).len() implies is_token(
                #[trigger] tokenize(s)[i],
            ) by {
                if i > 0 {
                    assert(tokenize(s)[i] == tokenize(rest)[i - 1]);
                }
            }
        },
    }
}

/// Tokens written one behind the other, none of which would take in the
/// first character of the next, are read back as they were written.
pub proof fn lemma_tokenize_flatten(tokens: Seq<Seq<char>>)
    requires
        forall|i: int| 0 <= i < tokens.len() ==> is_token(#[trigger] tokens[i]),
        no_adjacent_merge(tokens),
    ensures
        tokenize(tokens.flatten()) == tokens,
    decreases tokens.len(),
{
    if tokens.len() == 0 {
        lemma_tokenize_empty();
        assert(tokens.flatten() =~= Seq::<char>::empty());
        assert(tokens =~= Seq::<Seq<char>>::empty());
    } else {
        let head = tokens[0];
        let tail = tokens.drop_first();
        assert forall|i: int| 0 <= i < tail.len() implies is_token(#[trigger] tail[i]) by {
            assert(tail[i] == tokens[i + 1]);
        }
        assert forall|i: int| 0 <= i < tail.len() - 1 implies !extends_token(
            #[trigger] tail[i],
            tail[i + 1][0],
        ) by {
            assert(tail[i] == tokens[i + 1]);
            assert(tail[i + 1] == tokens[i + 2]);
        }
        lemma_tokenize_flatten(tail);
        let rest = tail.flatten();
        assert(tokens.flatten() == head + rest);
        if rest.len() > 0 {
            assert(tail.len() > 0) by {
                if tail.len() == 0 {
                    assert(tail.flatten() =~= Seq::<char>::empty());
                }
            }
            assert(tail.flatten() == tail[0] + tail.drop_first().flatten());
            assert(tail[0] == tokens[1]);
            assert(rest[0] == tokens[1][0]);
        }
        lemma_token_then(head, rest);
        assert(tokens =~= seq![head] + tail);
    }
}

/// A non-empty sequence of letters, the first of which is no white space, is
/// one token: the whole sequence.
pub proof fn lemma_letters_are_one_token(s: Seq<char>)
    requires
        s.len() > 0,
        forall|i: int| 0 <= i < s.len() ==> alphabetic(#[trigger] s[i]),
        !white_space(s[0]),
    ensures
        tokenize(s) == seq![s],
{
    lemma_run_len(s, CharClass::Alphanumeric);
    assert(is_run(s, CharClass::Alphanumeric, s.len() as int));
    lemma_token_then(s, Seq::empty());
    lemma_tokenize_empty();
    assert(s + Seq::<char>::empty() =~= s);
}

/// Whether `c` is one of the letters `a` to `z` and `A` to `Z`.
pub open spec fn is_ascii_letter(c: char) -> bool {
    'a' <= c <= 'z' || 'A' <= c <= 'Z'
}

/// A non-empty sequence of the letters `a` to `z` and `A` to `Z` is one
/// token: the whole sequence.
pub proof fn lemma_ascii_letters_are_one_token(s: Seq<char>)
    requires
        s.len() > 0,
        forall|i: int| 0 <= i < s.len() ==> is_ascii_letter(#[trigger] s[i]),
    ensures
        tokenize(s) == seq![s],
{
    assert(is_ascii_letter(s[0]));
    assert forall|i: int| 0 <= i < s.len() implies alphabetic(#[trigger] s[i]) by {
        assert(is_ascii_letter(s[i]));
    }
    lemma_letters_are_one_token(s);
}

/// Whether `c` is one of the ten decimal digits `0` to `9`.
pub open spec fn is_decimal_digit(c: char) -> bool {
    '0' <= c <= '9'
}

/// A run of decimal digits is a token that takes in no full stop.
proof fn lemma_digits_are_token(digits: Seq<char>)
    requires
        digits.len() > 0,
        forall|i: int| 0 <= i < digits.len() ==> is_decimal_digit(#[trigger] digits[i]),
    ensures
        is_token(digits),
        !extends_token(digits, '.'),
{
    lemma_run_len(digits, CharClass::Numeric);
    assert(is_decimal_digit(digits[0]));
    assert forall|i: int| 0 <= i < digits.len() implies in_class(
        CharClass::Numeric,
        #[trigger] digits[i],
    ) by {
        assert(is_decimal_digit(digits[i]));
    }
    assert(is_run(digits, CharClass::Numeric, digits.len() as int));
}

/// Decimal digits, a full stop and decimal digits are three tokens: the
/// integer part, the full stop and the fractional part.
pub proof fn lemma_decimal_is_three_tokens(integer: Seq<char>, fraction: Seq<char>)
    requires
        integer.len() > 0,
        fraction.len() > 0,
        forall|i: int| 0 <= i < integer.len() ==> is_decimal_digit(#[trigger] integer[i]),
        forall|i: int| 0 <= i < fraction.len() ==> is_decimal_digit(#[trigger] fraction[i]),
    ensures
        tokenize(integer + seq!['.'] + fraction) == seq![integer, seq!['.'], fraction],
{
    let stop = seq!['.'];
    lemma_digits_are_token(integer);
    lemma_digits_are_token(fraction);
    assert(is_decimal_digit(fraction[0]));
    assert(is_token(stop));
    assert((stop + fraction)[0] == '.');
    lemma_token_then(integer, stop + fraction);
    lemma_token_then(stop, fraction);
    lemma_token_then(fraction, Seq::empty());
    lemma_tokenize_empty();
    assert(fraction + Seq::<char>::empty() =~= fraction);
    assert(integer + stop + fraction =~= integer + (stop + fraction));
    assert(seq![integer] + (seq![stop] + (seq![fraction] + Seq::<Seq<char>>::empty())) =~= seq![
        integer,
        stop,
        fraction,
    ]);
}

/// Tokenizing again what the tokens of `s` spell, written one behind the
/// other without separators, gives the tokens of `s`, provided that no token
/// would take in the first character of the next.
pub proof fn lemma_retokenize(s: Seq<char>)
    requires
        no_adjacent_merge(tokenize(s)),
    ensures
        tokenize(tokenize(s).flatten()) == tokenize(s),
{
    lemma_tokens_are_tokens(s);
    lemma_tokenize_flatten(tokenize(s));
}

/// A tokenizer over a borrowed sequence of characters.
pub struct Lexer<'s> {
    character_stream: &'s [char],
}

impl<'s> View for Lexer<'s> {
    type V = Seq<char>;

    /// The characters that have not been consumed yet.
    closed spec fn view(&self) -> Seq<char> {
        self.character_stream@
    }
}

impl<'s> Lexer<'s> {
    /// A tokenizer at the start of `character_stream`.
    pub fn new(character_stream: &'s [char]) -> (lexer: Self)
        ensures
            lexer@ == character_stream@,
    {
        Self { character_stream }
    }

    /// Drops the leading white space.
    fn trim_whitespace(&mut self)
        ensures
            final(self)@ == skip_whitespace(old(self)@),
    {
        let mut n: usize = 0;
        while n < self.character_stream.len() && self.character_stream[n].is_whitespace()
            invariant
                n <= self.character_stream@.len(),
                forall|i: int| 0 <= i < n ==> white_space(#[trigger] self.character_stream@[i]),
            decreases self.character_stream@.len() - n,
        {
            n += 1;
        }
        proof {
            lemma_run_len(self@, CharClass::Whitespace);
            assert(is_run(self@, CharClass::Whitespace, n as int));
        }
        self.character_stream = slice_subrange(self.character_stream, n, self.character_stream.len());
        assert(self@ =~= skip_whitespace(old(self)@));
    }

    /// Cuts the first `n` characters off and returns them.
    fn truncate(&mut self, n: usize) -> (token: &'s [char])
        requires
            n <= old(self)@.len(),
        ensures
            token@ == old(self)@.take(n as int),
            final(self)@ == old(self)@.skip(n as int),
    {
        let token = slice_subrange(self.character_stream, 0, n);
        self.character_stream = slice_subrange(self.character_stream, n, self.character_stream.len());
        assert(token@ =~= old(self)@.take(n as int));
        assert(self@ =~= old(self)@.skip(n as int));
        token
    }

    /// Cuts off and returns the longest prefix whose characters all satisfy
    /// `predicate`.
    fn truncate_while<F: Fn(&char) -> bool>(&mut self, predicate: F) -> (token: &'s [char])
        requires
            forall|c: char| call_requires(predicate, (&c,)),
        ensures
            token@.len() <= old(self)@.len(),
            token@ == old(self)@.take(token@.len() as int),
            final(self)@ == old(self)@.skip(token@.len() as int),
            forall|i: int| 0 <= i < token@.len() ==> call_ensures(predicate, (&#[trigger] old(self)@[i],), true),
            token@.len() < old(self)@.len() ==> call_ensures(
                predicate,
                (&old(self)@[token@.len() as int],),
                false,
            ),
    {
        let mut n: usize = 0;
        while self.character_stream.len() > n && predicate(&self.character_stream[n])
            invariant
                n <= self.character_stream@.len(),
                forall|c: char| call_requires(predicate, (&c,)),
                forall|i: int| 0 <= i < n ==> call_ensures(predicate, (&#[trigger] self.character_stream@[i],), true),
            decreases self.character_stream@.len() - n,
        {
            n += 1;
        }
        self.truncate(n)
    }

    /// The next token, or `None` when only white space is left. A token is
    /// never empty.
    pub fn next_token(&mut self) -> (token: Option<String>)
        ensures
            match first_token(old(self)@) {
                None => token is None && final(self)@.len() == 0,
                Some((first, rest)) => token is Some && token->0@ == first && final(self)@ == rest,
            },
            token is Some ==> token->0@.len() > 0,
    {
        proof {
            lemma_first_token(self@);
        }
        self.trim_whitespace();
        if self.character_stream.len() == 0 {
            return None;
        }
        proof {
            lemma_run_len(self@, CharClass::Alphanumeric);
            lemma_run_len(self@, CharClass::Numeric);
        }
        let ghost trimmed = self@;

        if self.character_stream[0].is_alphabetic() {
            let word = self.truncate_while(continues_word);
            assert(is_run(trimmed, CharClass::Alphanumeric, word@.len() as int));
            return Some(string_from_chars(word));
        }
        if self.character_stream[0].is_numeric() {
            let number = self.truncate_while(continues_number);
            assert(is_run(trimmed, CharClass::Numeric, number@.len() as int));
            return Some(string_from_chars(number));
        }
        Some(string_from_chars(self.truncate(1)))
    }

    /// The next token; another name for [`Lexer::next_token`], so that a lexer
    /// is driven as an iterator is.
    pub fn next(&mut self) -> (token: Option<String>)
        ensures
            match first_token(old(self)@) {
                None => token is None && final(self)@.len() == 0,
                Some((first, rest)) => token is Some && token->0@ == first && final(self)@ == rest,
            },
            token is Some ==> token->0@.len() > 0,
    {
        self.next_token()
    }

    /// All tokens that are left, in order; the lexer is exhausted afterwards.
    pub fn tokens(&mut self) -> (tokens: Vec<String>)
        ensures
            token_views(tokens@) == tokenize(old(self)@),
            final(self)@.len() == 0,
    {
        let mut tokens: Vec<String> = Vec::new();
        assert(token_views(tokens@) + tokenize(self@) =~= tokenize(old(self)@));
        loop
            invariant
                token_views(tokens@) + tokenize(self@) == tokenize(old(self)@),
            ensures
                token_views(tokens@) == tokenize(old(self)@),
                self@.len() == 0,
            decreases self@.len(),
        {
            proof {
                lemma_first_token(self@);
            }
            let ghost before = self@;
            let ghost collected = tokens@;
            match self.next_token() {
                None => {
                    assert(tokenize(before) =~= Seq::<Seq<char>>::empty());
                    assert(token_views(tokens@) + tokenize(before) =~= token_views(tokens@));
                    break ;
                },
                Some(token) => {
                    tokens.push(token);
                    assert(token_views(tokens@) =~= token_views(collected) + seq![token@]);
                    assert(token_views(tokens@) + tokenize(self@) =~= token_views(collected)
                        + tokenize(before));
                },
            }
        }
        tokens
    }
}

/// The characters of each string of `strings`.
pub open spec fn token_views(strings: Seq<String>) -> Seq<Seq<char>> {
    Seq::new(strings.len(), |i: int| strings[i]@)
}

/// The characters of `text`, in order.
pub fn chars_of(text: &str) -> (chars: Vec<char>)
    ensures
        chars@ == text@,
{
    let mut chars: Vec<char> = Vec::new();
    for c in it: text.chars()
        invariant
            chars@ == it.seq().take(it.index() as int),
            it.seq() == text@,
    {
        chars.push(c);
    }
    assert(chars@ =~= text@);
    chars
}

/// The tokens of `text`, in order.
pub fn tokens_of(text: &str) -> (tokens: Vec<String>)
    ensures
        token_views(tokens@) == tokenize(text@),
{
    let chars = chars_of(text);
    let mut lexer = Lexer::new(chars.as_slice());
    lexer.tokens()
}

/// Whether `c` may stand in a word behind its first letter.
fn continues_word(c: &char) -> (r: bool)
    ensures
        r == alphanumeric(*c),
{
    c.is_alphanumeric()
}

/// Whether `c` may stand in a number.
fn continues_number(c: &char) -> (r: bool)
    ensures
        r == numeric(*c),
{
    c.is_numeric()
}

/// Calls `Iterator::collect` on the characters of a slice, for a `String`:
/// the string made of those characters, in order.
#[verifier::external_body]
pub(crate) fn string_from_chars(chars: &[char]) -> (s: String)
    ensures
        s@ == chars@,
{
    chars.iter().collect()
}

} // verus!
