//! The command line: what the arguments ask for.
//!
//! The first argument after the program's name is the command: `index` with
//! the path of the corpus, `serve`, or `help`. Options may follow it.

use vstd::prelude::*;
use vstd::slice::slice_subrange;
use crate::lexical_analysis::{chars_of, string_from_chars, token_views};

verus! {

/// Where the reading of the arguments has come to.
#[derive(Clone, Copy, Debug, PartialEq, Eq, Structural)]
pub struct ArgCursor {
    pub cursor: usize,
}

impl ArgCursor {
    /// A cursor at the first argument.
    pub fn new() -> (cursor: Self)
        ensures
            cursor.cursor == 0,
    {
        Self { cursor: 0 }
    }
}

/// The arguments as they were given.
pub struct RawArgs {
    items: Vec<String>,
}

impl View for RawArgs {
    type V = Seq<Seq<char>>;

    closed spec fn view(&self) -> Seq<Seq<char>> {
        token_views(self.items@)
    }
}

/// One argument.
pub struct ParsedArg {
    inner: Vec<char>,
}

impl View for ParsedArg {
    type V = Seq<char>;

    closed spec fn view(&self) -> Seq<char> {
        self.inner@
    }
}

/// The flags of one argument such as `-dp`, from the next one on.
pub struct ShortFlags {
    flags: Vec<char>,
    next: usize,
}

impl View for ShortFlags {
    type V = Seq<char>;

    /// The flags that have not been handed out yet.
    closed spec fn view(&self) -> Seq<char> {
        if self.next <= self.flags@.len() {
            self.flags@.skip(self.next as int)
        } else {
            Seq::empty()
        }
    }
}

/// How many characters of `text` stand before the first `mark`: all of them
/// where there is no `mark`.
pub open spec fn until(text: Seq<char>, mark: char) -> nat
    decreases text.len(),
{
    if text.len() == 0 || text[0] == mark {
        0
    } else {
        1 + until(text.drop_first(), mark)
    }
}

/// `until` counts the characters before the first `mark`.
pub proof fn lemma_until(text: Seq<char>, mark: char)
    ensures
        until(text, mark) <= text.len(),
        forall|i: int| 0 <= i < until(text, mark) ==> text[i] != mark,
        until(text, mark) < text.len() ==> text[until(text, mark) as int] == mark,
    decreases text.len(),
{
    if text.len() > 0 && text[0] != mark {
        let rest = text.drop_first();
        lemma_until(rest, mark);
        assert forall|i: int| 0 <= i < until(text, mark) implies text[i] != mark by {
            if i > 0 {
                assert(text[i] == rest[i - 1]);
            }
        }
        if until(text, mark) < text.len() {
            assert(text[until(text, mark) as int] == rest[until(rest, mark) as int]);
        }
    }
}

/// The long option that `arg` is, if it is one: what follows its two
/// hyphens up to the first `=`, and what follows that `=` where there is
/// one. Two hyphens alone are no option.
pub open spec fn long_of(arg: Seq<char>) -> Option<(Seq<char>, Option<Seq<char>>)> {
    if arg.len() > 2 && arg[0] == '-' && arg[1] == '-' {
        let rest = arg.skip(2);
        let cut = until(rest, '=') as int;
        if cut < rest.len() {
            Some((rest.take(cut), Some(rest.skip(cut + 1))))
        } else {
            Some((rest, None))
        }
    } else {
        None
    }
}

/// The short flags that `arg` holds, if it holds any: what follows its one
/// hyphen. One hyphen alone holds none, and neither does an argument that
/// begins with two.
pub open spec fn short_of(arg: Seq<char>) -> Option<Seq<char>> {
    if arg.len() > 1 && arg[0] == '-' && arg[1] != '-' {
        Some(arg.skip(1))
    } else {
        None
    }
}

/// The mathematical value of a long option.
pub open spec fn long_view(long: Option<(String, Option<String>)>) -> Option<(Seq<char>, Option<Seq<char>>)> {
    match long {
        Some((name, value)) => Some(
            (
                name@,
                match value {
                    Some(value) => Some(value@),
                    None => None,
                },
            ),
        ),
        None => None,
    }
}

/// Whether `chars` spell `text`.
fn spells(chars: &Vec<char>, text: &str) -> (same: bool)
    ensures
        same == (chars@ == text@),
{
    let other = chars_of(text);
    if chars.len() != other.len() {
        return false;
    }
    let mut i: usize = 0;
    while i < chars.len()
        invariant
            i <= chars@.len(),
            chars@.len() == other@.len(),
            other@ == text@,
            forall|k: int| 0 <= k < i ==> chars@[k] == other@[k],
        decreases chars@.len() - i,
    {
        if chars[i] != other[i] {
            assert(chars@[i as int] != text@[i as int]);
            return false;
        }
        i += 1;
    }
    assert(chars@ =~= other@);
    true
}

/// The characters of `chars` from `from` up to `to`, as a string.
fn text_between(chars: &Vec<char>, from: usize, to: usize) -> (text: String)
    requires
        from <= to <= chars@.len(),
    ensures
        text@ == chars@.subrange(from as int, to as int),
{
    string_from_chars(slice_subrange(chars.as_slice(), from, to))
}

impl RawArgs {
    /// The arguments `items`, in order.
    pub fn new(items: Vec<String>) -> (args: Self)
        ensures
            args@ == token_views(items@),
    {
        Self { items }
    }

    /// A cursor at the first argument.
    pub fn cursor(&self) -> (cursor: ArgCursor)
        ensures
            cursor.cursor == 0,
    {
        ArgCursor::new()
    }

    /// The argument at the cursor, if there is one, and moves the cursor on.
    pub fn next(&self, cursor: &mut ArgCursor) -> (arg: Option<ParsedArg>)
        ensures
            old(cursor).cursor < self@.len() ==> arg is Some && arg->0@ == self@[old(cursor).cursor as int],
            old(cursor).cursor >= self@.len() ==> arg is None,
            final(cursor).cursor == if old(cursor).cursor < usize::MAX {
                (old(cursor).cursor + 1) as usize
            } else {
                usize::MAX
            },
    {
        let at = cursor.cursor;
        if at < usize::MAX {
            cursor.cursor = at + 1;
        }
        if at < self.items.len() {
            Some(ParsedArg::new(self.items[at].as_str()))
        } else {
            None
        }
    }
}

impl ParsedArg {
    /// The argument `inner`.
    pub fn new(inner: &str) -> (arg: Self)
        ensures
            arg@ == inner@,
    {
        Self { inner: chars_of(inner) }
    }

    /// Whether the argument is the one hyphen that stands for the standard
    /// streams.
    pub fn is_stdio(&self) -> (stdio: bool)
        ensures
            stdio == (self@ == "-"@),
    {
        spells(&self.inner, "-")
    }

    /// Whether the argument is the two hyphens that end the options.
    pub fn is_escape(&self) -> (escape: bool)
        ensures
            escape == (self@ == "--"@),
    {
        spells(&self.inner, "--")
    }

    /// The argument as a long option: its name and, where an `=` follows
    /// the name, its value.
    pub fn to_long(&self) -> (long: Option<(String, Option<String>)>)
        ensures
            long_view(long) == long_of(self@),
    {
        let length = self.inner.len();
        if !(length > 2 && self.inner[0] == '-' && self.inner[1] == '-') {
            return None;
        }
        let ghost rest = self@.skip(2);
        let mut cut: usize = 2;
        while cut < length && self.inner[cut] != '='
            invariant
                2 <= cut <= length,
                length == self.inner@.len(),
                rest == self.inner@.skip(2),
                forall|i: int| 0 <= i < cut - 2 ==> rest[i] != '=',
            decreases length - cut,
        {
            cut += 1;
        }
        proof {
            lemma_until(rest, '=');
            if cut < length {
                assert(rest[cut - 2] == '=');
            }
            assert(until(rest, '=') == cut - 2) by {
                let found = until(rest, '=') as int;
                if found < cut - 2 {
                    assert(rest[found] != '=');
                }
                if found > cut - 2 {
                    assert(rest[cut - 2] != '=');
                }
            }
            assert(rest.take(cut - 2) =~= self.inner@.subrange(2, cut as int));
            if cut < length {
                assert(rest.skip(cut - 2 + 1) =~= self.inner@.subrange(cut + 1, length as int));
            } else {
                assert(rest =~= self.inner@.subrange(2, length as int));
            }
        }
        let name = text_between(&self.inner, 2, cut);
        if cut < length {
            Some((name, Some(text_between(&self.inner, cut + 1, length))))
        } else {
            Some((name, None))
        }
    }

    /// The argument as a run of short flags.
    pub fn to_short(&self) -> (short: Option<ShortFlags>)
        ensures
            match short_of(self@) {
                Some(flags) => short is Some && short->0@ == flags,
                None => short is None,
            },
    {
        if self.inner.len() > 1 && self.inner[0] == '-' && self.inner[1] != '-' {
            Some(ShortFlags { flags: self.inner.clone(), next: 1 })
        } else {
            None
        }
    }
}

impl ShortFlags {
    /// The next flag, if one is left.
    pub fn next_flag(&mut self) -> (flag: Option<char>)
        ensures
            old(self)@.len() > 0 ==> flag == Some(old(self)@[0]) && final(self)@ == old(self)@.drop_first(),
            old(self)@.len() == 0 ==> flag is None && final(self)@ == old(self)@,
    {
        if self.next < self.flags.len() {
            let flag = self.flags[self.next];
            self.next = self.next + 1;
            assert(self@ =~= old(self)@.drop_first());
            Some(flag)
        } else {
            None
        }
    }
}

} // verus!
