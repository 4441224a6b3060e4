//! Splitting an input line into its sub-commands.
//!
//! A line is split at each `;` that stands outside quotes and is not
//! escaped. A piece that holds nothing but white space is no sub-command.

use vstd::prelude::*;
use crate::text::{chars_of, lemma_texts_push, string_of, texts};

verus! {

/// Where in the quoting of a line a character stands.
#[derive(Clone, Copy, Debug, PartialEq, Eq, Structural)]
pub enum Quoting {
    /// Outside quotes.
    Bare,
    /// Outside quotes, directly after a backslash.
    Escaped,
    /// Between single quotes.
    Single,
    /// Between double quotes.
    Double,
    /// Between double quotes, directly after a backslash.
    DoubleEscaped,
}

/// The quoting after the character `c` is read in the quoting `q`.
pub open spec fn quoting_step(q: Quoting, c: char) -> Quoting {
    match q {
        Quoting::Bare => if c == '\\' {
            Quoting::Escaped
        } else if c == '\'' {
            Quoting::Single
        } else if c == '"' {
            Quoting::Double
        } else {
            Quoting::Bare
        },
        Quoting::Escaped => Quoting::Bare,
        Quoting::Single => if c == '\'' {
            Quoting::Bare
        } else {
            Quoting::Single
        },
        Quoting::Double => if c == '\\' {
            Quoting::DoubleEscaped
        } else if c == '"' {
            Quoting::Bare
        } else {
            Quoting::Double
        },
        Quoting::DoubleEscaped => Quoting::Double,
    }
}

/// The quoting at the end of the text `s`, read from outside quotes.
pub open spec fn quoting_after(s: Seq<char>) -> Quoting
    decreases s.len(),
{
    if s.len() == 0 {
        Quoting::Bare
    } else {
        quoting_step(quoting_after(s.drop_last()), s.last())
    }
}

/// Whether the line `s` is split at index `i`: a `;` stands there, outside
/// quotes and not escaped.
pub open spec fn splits_at(s: Seq<char>, i: int) -> bool {
    0 <= i < s.len() && s[i] == ';' && quoting_after(s.take(i)) == Quoting::Bare
}

/// Where the piece that begins at `from` ends: at the first index at or
/// after `from` where the line is split, or at the end of the line.
pub open spec fn piece_end(s: Seq<char>, from: int) -> int
    decreases s.len() - from,
{
    if from >= s.len() {
        s.len() as int
    } else if splits_at(s, from) {
        from
    } else {
        piece_end(s, from + 1)
    }
}

/// The white space that may surround a sub-command.
pub open spec fn is_space(c: char) -> bool {
    c == ' ' || c == '\t' || c == '\n' || c == '\r'
}

/// Whether the text `s` holds nothing but white space.
pub open spec fn is_blank(s: Seq<char>) -> bool {
    forall|i: int| 0 <= i < s.len() ==> is_space(#[trigger] s[i])
}

/// The sub-commands of the part of the line `s` that begins at `from`: its
/// pieces, in order, without the blank ones.
pub open spec fn sub_commands_from(s: Seq<char>, from: int) -> Seq<Seq<char>>
    decreases s.len() - from,
{
    if from > s.len() || from < 0 {
        Seq::empty()
    } else {
        let end = piece_end(s, from);
        let piece = s.subrange(from, end);
        let rest = if from <= end < s.len() {
            sub_commands_from(s, end + 1)
        } else {
            Seq::empty()
        };
        if is_blank(piece) {
            rest
        } else {
            seq![piece] + rest
        }
    }
}

/// The sub-commands of the line `s`.
pub open spec fn sub_commands(s: Seq<char>) -> Seq<Seq<char>> {
    sub_commands_from(s, 0)
}

/// A piece ends within the line, holds no split, and is followed by one
/// unless it is the last.
pub proof fn lemma_piece_end(s: Seq<char>, from: int)
    requires
        0 <= from <= s.len(),
    ensures
        from <= piece_end(s, from) <= s.len(),
        forall|i: int| from <= i < piece_end(s, from) ==> !splits_at(s, i),
        piece_end(s, from) < s.len() ==> splits_at(s, piece_end(s, from)),
    decreases s.len() - from,
{
    if from < s.len() && !splits_at(s, from) {
        lemma_piece_end(s, from + 1);
    }
}

/// No sub-command is blank: each holds a character that is no white space.
pub proof fn lemma_sub_commands_not_blank(s: Seq<char>, from: int)
    requires
        0 <= from <= s.len(),
    ensures
        forall|k: int|
            0 <= k < sub_commands_from(s, from).len() ==> !is_blank(
                #[trigger] sub_commands_from(s, from)[k],
            ),
    decreases s.len() - from,
{
    let end = piece_end(s, from);
    lemma_piece_end(s, from);
    let piece = s.subrange(from, end);
    let rest = if end < s.len() {
        sub_commands_from(s, end + 1)
    } else {
        Seq::empty()
    };
    if end < s.len() {
        lemma_sub_commands_not_blank(s, end + 1);
    }
    let all = sub_commands_from(s, from);
    assert forall|k: int| 0 <= k < all.len() implies !is_blank(#[trigger] all[k]) by {
        if is_blank(piece) {
            assert(all[k] == rest[k]);
        } else if k > 0 {
            assert(all[k] == rest[k - 1]);
        }
    }
}

/// A line of white space alone has no sub-command.
pub proof fn lemma_blank_line_is_empty(s: Seq<char>)
    requires
        is_blank(s),
    ensures
        sub_commands(s).len() == 0,
{
    lemma_no_split_in_blank(s, 0);
    assert(s.subrange(0, s.len() as int) == s);
}

/// A line of white space alone is split nowhere.
proof fn lemma_no_split_in_blank(s: Seq<char>, from: int)
    requires
        is_blank(s),
        0 <= from <= s.len(),
    ensures
        piece_end(s, from) == s.len(),
    decreases s.len() - from,
{
    if from < s.len() {
        assert(is_space(s[from]));
        lemma_no_split_in_blank(s, from + 1);
    }
}

/// The quoting after `c` is read in the quoting `q`.
fn next_quoting(q: Quoting, c: char) -> (out: Quoting)
    ensures
        out == quoting_step(q, c),
{
    match q {
        Quoting::Bare => if c == '\\' {
            Quoting::Escaped
        } else if c == '\'' {
            Quoting::Single
        } else if c == '"' {
            Quoting::Double
        } else {
            Quoting::Bare
        },
        Quoting::Escaped => Quoting::Bare,
        Quoting::Single => if c == '\'' {
            Quoting::Bare
        } else {
            Quoting::Single
        },
        Quoting::Double => if c == '\\' {
            Quoting::DoubleEscaped
        } else if c == '"' {
            Quoting::Bare
        } else {
            Quoting::Double
        },
        Quoting::DoubleEscaped => Quoting::Double,
    }
}

/// Whether `chars[from..to]` holds nothing but white space.
fn blank(chars: &Vec<char>, from: usize, to: usize) -> (out: bool)
    requires
        from <= to <= chars.len(),
    ensures
        out == is_blank(chars@.subrange(from as int, to as int)),
{
    let ghost piece = chars@.subrange(from as int, to as int);
    let mut i: usize = from;
    while i < to
        invariant
            from <= i <= to <= chars.len(),
            piece == chars@.subrange(from as int, to as int),
            forall|j: int| 0 <= j < i - from ==> is_space(#[trigger] piece[j]),
        decreases to - i,
    {
        let c: char = chars[i];
        if !(c == ' ' || c == '\t' || c == '\n' || c == '\r') {
            assert(!is_space(piece[i - from]));
            return false;
        }
        i += 1;
    }
    true
}

/// Splits an input line into its sub-commands, in order.
///
/// The line is split at each `;` outside quotes; pieces of white space
/// alone are left out, so a line may have no sub-command at all.
pub fn split_line(line: &str) -> (out: Vec<String>)
    ensures
        texts(out@) == sub_commands(line@),
{
    let chars = chars_of(line);
    let mut out: Vec<String> = Vec::new();
    let mut start: usize = 0;
    let mut i: usize = 0;
    let mut quoting = Quoting::Bare;
    assert(chars@.take(0) == Seq::<char>::empty());
    assert(texts(out@) + sub_commands_from(chars@, 0) == sub_commands(chars@));
    while i < chars.len()
        invariant
            start <= i <= chars.len(),
            quoting == quoting_after(chars@.take(i as int)),
            piece_end(chars@, start as int) == piece_end(chars@, i as int),
            texts(out@) + sub_commands_from(chars@, start as int) == sub_commands(chars@),
        decreases chars.len() - i,
    {
        let c: char = chars[i];
        assert(chars@.take(i + 1).drop_last() == chars@.take(i as int));
        if c == ';' && quoting == Quoting::Bare {
            assert(splits_at(chars@, i as int));
            assert(piece_end(chars@, start as int) == i);
            let ghost before = out@;
            if !blank(&chars, start, i) {
                out.push(string_of(&chars, start, i));
                proof {
                    lemma_texts_push(before, out@.last());
                    assert(texts(out@) + sub_commands_from(chars@, i + 1) == texts(before) + (
                    seq![chars@.subrange(start as int, i as int)] + sub_commands_from(
                        chars@,
                        i + 1,
                    )));
                }
            }
            start = i + 1;
        } else {
            assert(!splits_at(chars@, i as int));
        }
        quoting = next_quoting(quoting, c);
        i += 1;
    }
    assert(piece_end(chars@, start as int) == chars.len());
    let ghost before = out@;
    if !blank(&chars, start, chars.len()) {
        out.push(string_of(&chars, start, chars.len()));
        proof {
            lemma_texts_push(before, out@.last());
        }
    }
    assert(texts(out@) == texts(before) + sub_commands_from(chars@, start as int));
    out
}

} // verus!
