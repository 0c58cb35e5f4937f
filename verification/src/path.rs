//! The path parser: what has been typed on the current line before the
//! cursor, read as a dotted path followed by a word in progress.

use crate::chars::{
    first_of, leading_whitespace, lemma_first_of, lemma_first_of_bounds, lemma_leading_bounds,
    lemma_trailing_bounds, lemma_trim_has_no_outer_whitespace, to_chars, trailing_whitespace, trim,
    trim_bounds,
};
use regex::Regex;
use vstd::prelude::*;
use vstd::string::*;

verus! {

/// The dotted path typed on `line`: the line is cut at every `.`, the piece
/// after the last `.` is left out, and every other piece is trimmed. A line
/// without a `.` has the empty path.
pub open spec fn dotted_path(line: Seq<char>) -> Seq<Seq<char>>
    decreases line.len(),
{
    let k = first_of(line, '.') as int;
    if k >= line.len() {
        Seq::empty()
    } else {
        seq![trim(line.take(k))] + dotted_path(line.skip(k + 1))
    }
}

/// Whether the pattern written as `pattern` matches the text that consists
/// of `c` alone.
pub uninterp spec fn matches_char(pattern: Seq<char>, c: char) -> bool;

/// Whether `c` ends a word: whether it is no word character, which is what
/// the pattern `\W` matches.
pub open spec fn is_boundary(c: char) -> bool {
    matches_char(r"\W"@, c)
}

/// Where the word at the end of `s` starts: behind the last boundary
/// character of `s`, or at 0 if `s` has none.
pub open spec fn word_start(s: Seq<char>) -> nat
    decreases s.len(),
{
    if s.len() > 0 && !is_boundary(s.last()) {
        word_start(s.drop_last())
    } else {
        s.len()
    }
}

/// Where the last run of `false` at the end of `flags` starts: behind the
/// last `true`, or at 0 if there is none.
pub open spec fn last_run_start(flags: Seq<bool>) -> nat
    decreases flags.len(),
{
    if flags.len() > 0 && !flags.last() {
        last_run_start(flags.drop_last())
    } else {
        flags.len()
    }
}

/// For every character of `s`, whether it ends a word.
pub open spec fn boundaries(s: Seq<char>) -> Seq<bool> {
    s.map_values(|c: char| is_boundary(c))
}

/// The word in progress at the end of `s`: its longest tail without a
/// boundary character.
pub open spec fn trailing_word(s: Seq<char>) -> Seq<char> {
    s.skip(word_start(s) as int)
}

/// The word at the end of `s` starts at `k` as soon as no boundary character
/// stands at or after `k` and one stands just before `k`, if `k` is not 0.
pub proof fn lemma_word_start(s: Seq<char>, k: int)
    requires
        0 <= k <= s.len(),
        forall|i: int| k <= i < s.len() ==> !is_boundary(#[trigger] s[i]),
        k > 0 ==> is_boundary(s[k - 1]),
    ensures
        word_start(s) == k,
    decreases s.len() - k,
{
    if k < s.len() {
        let rest = s.drop_last();
        assert forall|i: int| k <= i < rest.len() implies !is_boundary(#[trigger] rest[i]) by {
            assert(rest[i] == s[i]);
        }
        if k > 0 {
            assert(rest[k - 1] == s[k - 1]);
        }
        lemma_word_start(rest, k);
    }
}

/// The word at the end of a text starts where the last run of characters
/// that end no word starts.
pub proof fn lemma_word_start_by_boundaries(s: Seq<char>)
    ensures
        word_start(s) == last_run_start(boundaries(s)),
    decreases s.len(),
{
    if s.len() > 0 && !is_boundary(s.last()) {
        assert(boundaries(s).drop_last() == boundaries(s.drop_last()));
        lemma_word_start_by_boundaries(s.drop_last());
    }
}

/// A line without a `.` has the empty dotted path.
pub proof fn lemma_no_dot_gives_empty_path(line: Seq<char>)
    requires
        forall|i: int| 0 <= i < line.len() ==> #[trigger] line[i] != '.',
    ensures
        dotted_path(line) == Seq::<Seq<char>>::empty(),
{
    lemma_first_of(line, '.', line.len() as int);
}

/// Every segment of a dotted path is trimmed and holds no `.`.
pub proof fn lemma_dotted_path_segments(line: Seq<char>, i: int)
    requires
        0 <= i < dotted_path(line).len(),
    ensures
        leading_whitespace(dotted_path(line)[i]) == 0,
        trailing_whitespace(dotted_path(line)[i]) == 0,
        forall|j: int| 0 <= j < dotted_path(line)[i].len() ==> dotted_path(line)[i][j] != '.',
    decreases line.len(),
{
    let k = first_of(line, '.') as int;
    lemma_first_of_bounds(line, '.');
    let piece = line.take(k);
    let rest = dotted_path(line.skip(k + 1));
    assert(dotted_path(line) == seq![trim(piece)] + rest);
    if i == 0 {
        lemma_trim_has_no_outer_whitespace(piece);
        lemma_leading_bounds(piece);
        let inner = piece.skip(leading_whitespace(piece) as int);
        lemma_trailing_bounds(inner);
        assert forall|j: int| 0 <= j < trim(piece).len() implies trim(piece)[j] != '.' by {
            assert(trim(piece)[j] == line[leading_whitespace(piece) + j]);
        }
    } else {
        assert(dotted_path(line)[i] == rest[i - 1]);
        lemma_dotted_path_segments(line.skip(k + 1), i - 1);
    }
}

/// Where no character of `s` ends a word, the word in progress is the whole
/// of `s`; the empty text has the empty word.
pub proof fn lemma_no_boundary_gives_whole_word(s: Seq<char>)
    requires
        forall|i: int| 0 <= i < s.len() ==> !is_boundary(#[trigger] s[i]),
    ensures
        trailing_word(s) == s,
        trailing_word(Seq::empty()) == Seq::<char>::empty(),
{
    lemma_word_start(s, 0);
    assert(s.skip(0) == s);
}

/// The word in progress is a tail of the text, holds no boundary character,
/// and cannot be made longer: the character before it, if any, ends a word.
pub proof fn lemma_trailing_word_is_longest(s: Seq<char>)
    ensures
        word_start(s) <= s.len(),
        forall|i: int| word_start(s) <= i < s.len() ==> !is_boundary(#[trigger] s[i]),
        word_start(s) > 0 ==> is_boundary(s[word_start(s) - 1]),
    decreases s.len(),
{
    if s.len() > 0 && !is_boundary(s.last()) {
        let rest = s.drop_last();
        lemma_trailing_word_is_longest(rest);
        assert forall|i: int| word_start(s) <= i < s.len() implies !is_boundary(
            #[trigger] s[i],
        ) by {
            if i < s.len() - 1 {
                assert(s[i] == rest[i]);
            }
        }
        if word_start(s) > 0 {
            assert(s[word_start(s) - 1] == rest[word_start(rest) - 1]);
        }
    }
}

/// `regex::Regex`, a compiled pattern; nothing inside it is read.
#[verifier::external_type_specification]
#[verifier::external_body]
pub struct ExRegex(Regex);

/// A pattern: the text in which it is written and, unless that text is no
/// pattern, what the `regex` crate compiles it to. Only `compile` makes one,
/// so the two always belong together.
struct Pattern {
    source: String,
    compiled: Option<Regex>,
}

impl Pattern {
    /// The text in which the pattern is written.
    closed spec fn source(self) -> Seq<char> {
        self.source@
    }
}

/// `Regex::new` on `source`, kept together with `source`. A text that is no
/// pattern is kept without a compiled form.
#[verifier::external_body]
fn compile(source: &str) -> (pattern: Pattern)
    ensures
        pattern.source() == source@,
{
    Pattern { source: source.to_string(), compiled: Regex::new(source).ok() }
}

/// `Regex::is_match` of the compiled pattern on the text that consists of
/// `c` alone. The answer depends on the pattern's text and on `c` only, so
/// it has a name. A pattern without a compiled form matches nothing.
#[verifier::external_body]
fn matches(pattern: &Pattern, c: char) -> (found: bool)
    ensures
        found == matches_char(pattern.source(), c),
{
    match &pattern.compiled {
        Some(regex) => regex.is_match(c.encode_utf8(&mut [0u8; 4])),
        None => false,
    }
}

/// The dotted path typed on `line`, which is the text of the current line up
/// to the cursor.
pub fn get_path(line: &str) -> (path: Vec<String>)
    ensures
        path.deep_view() == dotted_path(line@),
{
    let chars = to_chars(line);
    let mut path: Vec<String> = Vec::new();
    let mut start: usize = 0;
    let mut i: usize = 0;
    proof {
        assert(chars@.skip(0) == chars@);
        assert(path.deep_view() + dotted_path(chars@) == dotted_path(chars@));
    }
    while i < chars.len()
        invariant
            chars@ == line@,
            start <= i <= chars.len(),
            forall|j: int| start <= j < i ==> #[trigger] chars@[j] != '.',
            path.deep_view() + dotted_path(chars@.skip(start as int)) == dotted_path(chars@),
        decreases chars.len() - i,
    {
        if chars[i] == '.' {
            let (a, b) = trim_bounds(&chars, start, i);
            let piece = String::from_str(line.substring_char(a, b));
            proof {
                let rest = chars@.skip(start as int);
                assert forall|j: int| 0 <= j < i - start implies #[trigger] rest[j] != '.' by {
                    assert(rest[j] == chars@[start + j]);
                }
                lemma_first_of(rest, '.', i - start);
                assert(rest.take(i - start) == chars@.subrange(start as int, i as int));
                assert(rest.skip(i - start + 1) == chars@.skip(i + 1));
                assert(path.deep_view().push(piece@) + dotted_path(chars@.skip(i + 1))
                    == path.deep_view() + dotted_path(rest));
            }
            let ghost before = path.deep_view();
            path.push(piece);
            assert(path.deep_view() == before.push(piece@));
            start = i + 1;
        }
        i += 1;
    }
    proof {
        let rest = chars@.skip(start as int);
        assert forall|j: int| 0 <= j < rest.len() implies #[trigger] rest[j] != '.' by {
            assert(rest[j] == chars@[start + j]);
        }
        lemma_first_of(rest, '.', rest.len() as int);
        assert(dotted_path(rest) == Seq::<Seq<char>>::empty());
    }
    path
}

/// Where the word in progress starts, given for every character before
/// the cursor whether it ends a word: behind the last one that does, or at
/// 0 if none does.
pub fn word_start_by(boundary: &Vec<bool>) -> (k: usize)
    ensures
        k == last_run_start(boundary@),
        k <= boundary@.len(),
{
    let mut k: usize = boundary.len();
    assert(boundary@.take(k as int) == boundary@);
    while k > 0 && !boundary[k - 1]
        invariant
            k <= boundary.len(),
            last_run_start(boundary@) == last_run_start(boundary@.take(k as int)),
        decreases k,
    {
        assert(boundary@.take(k as int).drop_last() == boundary@.take(k - 1));
        k -= 1;
    }
    k
}

/// The word in progress just before the cursor: the longest tail of `line`
/// without a boundary character. It is the whole of `line` where `line` has
/// no boundary character, and empty where `line` is empty or ends in one.
pub fn partial_word(line: &str) -> (word: String)
    ensures
        word@ == trailing_word(line@),
{
    let chars = to_chars(line);
    let pattern = compile(r"\W");
    let mut boundary: Vec<bool> = Vec::new();
    let mut i: usize = 0;
    while i < chars.len()
        invariant
            pattern.source() == r"\W"@,
            i <= chars.len(),
            boundary@ == boundaries(chars@.take(i as int)),
        decreases chars.len() - i,
    {
        boundary.push(matches(&pattern, chars[i]));
        assert(chars@.take(i + 1).drop_last() == chars@.take(i as int));
        assert(boundary@ == boundaries(chars@.take(i + 1)));
        i += 1;
    }
    let k = word_start_by(&boundary);
    proof {
        assert(chars@.take(chars@.len() as int) == chars@);
        lemma_word_start_by_boundaries(chars@);
        assert(chars@.skip(k as int) == chars@.subrange(k as int, chars@.len() as int));
    }
    String::from_str(line.substring_char(k, chars.len()))
}

} // verus!
