//! The lines of a document: the text before the cursor on its line, and the
//! column at which the parser finds the cursor.

use crate::chars::{first_of, lemma_first_of, to_chars};
use vstd::prelude::*;
use vstd::string::*;
use vstd::utf8::*;

verus! {

/// A line as it remains when its line ending is left out: without the
/// carriage return before the line feed that ended it, if there was one.
pub open spec fn without_ending(line: Seq<char>, ended: bool) -> Seq<char> {
    if ended && line.len() > 0 && line.last() == '\r' {
        line.drop_last()
    } else {
        line
    }
}

/// Line `n` of `text`, counted from 0. Lines end at a line feed, or at a
/// carriage return followed by a line feed; the line ending is no part of
/// the line, and no line follows the last line ending. There is no line `n`
/// where `text` has `n` lines or fewer.
pub open spec fn nth_line(text: Seq<char>, n: nat) -> Option<Seq<char>>
    decreases n,
{
    let k = first_of(text, '\n') as int;
    if text.len() == 0 {
        None
    } else if n == 0 {
        Some(without_ending(text.take(k), k < text.len()))
    } else if k < text.len() {
        nth_line(text.skip(k + 1), (n - 1) as nat)
    } else {
        None
    }
}

/// What stands on line `line` of `text` before column `column`: the line up
/// to that column, the whole line where it is shorter, and nothing where
/// `text` has no such line.
pub open spec fn line_prefix_of(text: Seq<char>, line: nat, column: nat) -> Seq<char> {
    match nth_line(text, line) {
        Some(content) => if column <= content.len() {
            content.take(column as int)
        } else {
            content
        },
        None => Seq::empty(),
    }
}

/// The column that the parser, which counts a column for every byte, has
/// for column `column` of line `line`, where columns count characters. A
/// column past the end of the line stays as far past it; the largest number
/// stands for every one that is larger.
pub open spec fn point_column(text: Seq<char>, line: nat, column: nat) -> usize {
    let typed = line_prefix_of(text, line, column);
    let bytes = encode_utf8(typed).len() + (column - typed.len());
    if bytes <= usize::MAX {
        bytes as usize
    } else {
        usize::MAX
    }
}

/// The text before a column is never longer than the column says.
pub proof fn lemma_line_prefix_is_short(text: Seq<char>, line: nat, column: nat)
    ensures
        line_prefix_of(text, line, column).len() <= column,
{
}

/// What stands on line `line` of `text` before column `column`.
pub fn line_prefix(text: &str, line: usize, column: usize) -> (typed: String)
    ensures
        typed@ == line_prefix_of(text@, line as nat, column as nat),
{
    let chars = to_chars(text);
    let n = chars.len();
    let mut start: usize = 0;
    let mut skipped: usize = 0;
    assert(chars@.skip(0) == chars@);
    while skipped < line
        invariant
            chars@ == text@,
            n == chars@.len(),
            start <= n,
            skipped <= line,
            nth_line(chars@, line as nat) == nth_line(
                chars@.skip(start as int),
                (line - skipped) as nat,
            ),
        decreases line - skipped,
    {
        let end = line_end(&chars, start);
        if end >= n {
            assert(nth_line(chars@.skip(start as int), (line - skipped) as nat) is None);
            return String::new();
        }
        assert(chars@.skip(start as int).skip(end - start + 1) == chars@.skip(end + 1));
        start = end + 1;
        skipped += 1;
    }
    if start >= n {
        return String::new();
    }
    let end = line_end(&chars, start);
    let ghost rest = chars@.skip(start as int);
    assert(rest.take(end - start) == chars@.subrange(start as int, end as int));
    let stop = if end < n && end > start && chars[end - 1] == '\r' {
        end - 1
    } else {
        end
    };
    assert(chars@.subrange(start as int, stop as int) == without_ending(
        rest.take(end - start),
        end < n,
    ));
    let upto = if column <= stop - start {
        start + column
    } else {
        stop
    };
    assert(chars@.subrange(start as int, upto as int) == chars@.subrange(
        start as int,
        stop as int,
    ).take(upto - start));
    String::from_str(text.substring_char(start, upto))
}

/// Where the line that starts at `start` ends: at the next line feed, or at
/// the end of `chars`.
fn line_end(chars: &Vec<char>, start: usize) -> (end: usize)
    requires
        start <= chars@.len(),
    ensures
        start <= end <= chars@.len(),
        end - start == first_of(chars@.skip(start as int), '\n'),
{
    let mut end: usize = start;
    while end < chars.len() && chars[end] != '\n'
        invariant
            start <= end <= chars@.len(),
            forall|i: int| start <= i < end ==> chars@[i] != '\n',
        decreases chars@.len() - end,
    {
        end += 1;
    }
    proof {
        let rest = chars@.skip(start as int);
        assert forall|i: int| 0 <= i < end - start implies #[trigger] rest[i] != '\n' by {
            assert(rest[i] == chars@[start + i]);
        }
        lemma_first_of(rest, '\n', end - start);
    }
    end
}

/// The column that the parser has for column `column` of line `line`.
pub fn byte_column(text: &str, line: usize, column: usize) -> (bytes: usize)
    ensures
        bytes == point_column(text@, line as nat, column as nat),
{
    let typed = line_prefix(text, line, column);
    let width = typed.as_str().as_bytes().len();
    let length = typed.as_str().unicode_len();
    proof {
        lemma_line_prefix_is_short(text@, line as nat, column as nat);
    }
    let beyond = column - length;
    if beyond > usize::MAX - width {
        usize::MAX
    } else {
        width + beyond
    }
}

} // verus!
