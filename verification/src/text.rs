//! Text as sequences of characters: runs, prefixes, lines.
//!
//! Everything the settings parser, the catalog and the patcher know about
//! text is stated here over `Seq<char>`, and computed over `[char]`.

use vstd::prelude::*;
use vstd::slice::{slice_subrange, slice_to_vec};

verus! {

/// Appending a character to a `String` (`String::push`) extends its view by
/// exactly that character.
pub assume_specification[ String::push ](s: &mut String, ch: char)
    ensures
        final(s)@ == old(s)@.push(ch),
;

/// Number of characters at the front of `s` that all satisfy `p`: the length
/// of the longest such prefix.
pub open spec fn leading_run(s: Seq<char>, p: spec_fn(char) -> bool) -> nat
    decreases s.len(),
{
    if s.len() > 0 && p(s[0]) {
        1 + leading_run(s.drop_first(), p)
    } else {
        0
    }
}

/// Number of characters at the back of `s` that all satisfy `p`: the length
/// of the longest such suffix.
pub open spec fn trailing_run(s: Seq<char>, p: spec_fn(char) -> bool) -> nat
    decreases s.len(),
{
    if s.len() > 0 && p(s.last()) {
        1 + trailing_run(s.drop_last(), p)
    } else {
        0
    }
}

/// A leading run ends at the first character that fails `p`, or at the end.
pub proof fn lemma_leading_run(s: Seq<char>, p: spec_fn(char) -> bool)
    ensures
        leading_run(s, p) <= s.len(),
        forall|j: int| 0 <= j < leading_run(s, p) ==> p(#[trigger] s[j]),
        leading_run(s, p) < s.len() ==> !p(s[leading_run(s, p) as int]),
    decreases s.len(),
{
    if s.len() > 0 && p(s[0]) {
        let rest = s.drop_first();
        lemma_leading_run(rest, p);
        assert forall|j: int| 0 <= j < leading_run(s, p) implies p(#[trigger] s[j]) by {
            if j > 0 {
                assert(s[j] == rest[j - 1]);
            }
        }
        if leading_run(s, p) < s.len() {
            assert(s[leading_run(s, p) as int] == rest[leading_run(rest, p) as int]);
        }
    }
}

/// The one `n` before which every character satisfies `p`, and at which the
/// text ends or `p` fails, is the leading run.
pub proof fn lemma_leading_run_is(s: Seq<char>, p: spec_fn(char) -> bool, n: int)
    requires
        0 <= n <= s.len(),
        forall|j: int| 0 <= j < n ==> p(#[trigger] s[j]),
        n < s.len() ==> !p(s[n]),
    ensures
        leading_run(s, p) == n,
    decreases s.len(),
{
    if n > 0 {
        let rest = s.drop_first();
        assert(p(s[0]));
        assert forall|j: int| 0 <= j < n - 1 implies p(#[trigger] rest[j]) by {
            assert(rest[j] == s[j + 1]);
        }
        lemma_leading_run_is(rest, p, n - 1);
    }
}

/// The one `n` such that the last `n` characters satisfy `p`, and before
/// them the text starts or `p` fails, is the trailing run.
pub proof fn lemma_trailing_run_is(s: Seq<char>, p: spec_fn(char) -> bool, n: int)
    requires
        0 <= n <= s.len(),
        forall|j: int| s.len() - n <= j < s.len() ==> p(#[trigger] s[j]),
        n < s.len() ==> !p(s[s.len() - n - 1]),
    ensures
        trailing_run(s, p) == n,
    decreases s.len(),
{
    if n > 0 {
        let rest = s.drop_last();
        assert(p(s[s.len() - 1]));
        assert forall|j: int| rest.len() - (n - 1) <= j < rest.len() implies p(
            #[trigger] rest[j],
        ) by {
            assert(rest[j] == s[j]);
        }
        lemma_trailing_run_is(rest, p, n - 1);
    }
}

/// The characters of a string slice, in order.
pub fn chars_of(s: &str) -> (chars: Vec<char>)
    ensures
        chars@ == s@,
{
    let mut chars: Vec<char> = Vec::new();
    for c in it: s.chars()
        invariant
            chars@ == it.seq().take(it.index()),
    {
        chars.push(c);
    }
    chars
}

/// The string made of the given characters, in order.
pub fn string_of(chars: &[char]) -> (s: String)
    ensures
        s@ == chars@,
{
    let mut s = String::new();
    let mut i: usize = 0;
    while i < chars.len()
        invariant
            i <= chars.len(),
            s@ == chars@.take(i as int),
        decreases chars.len() - i,
    {
        s.push(chars[i]);
        i += 1;
    }
    s
}

/// Whether `prefix` stands in `text` at position `at`.
pub fn has_prefix_at(text: &[char], at: usize, prefix: &[char]) -> (found: bool)
    requires
        at <= text.len(),
    ensures
        found == prefix@.is_prefix_of(text@.skip(at as int)),
{
    if prefix.len() > text.len() - at {
        return false;
    }
    let mut i: usize = 0;
    while i < prefix.len()
        invariant
            at <= text.len(),
            prefix.len() <= text.len() - at,
            i <= prefix.len(),
            forall|j: int| 0 <= j < i ==> prefix@[j] == text@[at + j],
        decreases prefix.len() - i,
    {
        if prefix[i] != text[at + i] {
            assert(text@.skip(at as int).subrange(0, prefix@.len() as int)[i as int] != prefix@[i as int]);
            return false;
        }
        i += 1;
    }
    assert(prefix@ =~= text@.skip(at as int).subrange(0, prefix@.len() as int));
    true
}

/// Where `word` ends in `text` if it stands there at position `at`.
pub fn word_end_at(text: &[char], at: usize, word: &str) -> (end: Option<usize>)
    requires
        at <= text.len(),
    ensures
        match end {
            Some(e) => word@.is_prefix_of(text@.skip(at as int)) && e == at + word@.len(),
            None => !word@.is_prefix_of(text@.skip(at as int)),
        },
{
    let mut i: usize = at;
    let mut same = true;
    let ghost rest = text@.skip(at as int);
    for c in it: word.chars()
        invariant
            at <= i <= text.len(),
            it.seq() == word@,
            rest == text@.skip(at as int),
            same ==> i == at + it.index() && forall|j: int|
                0 <= j < it.index() ==> rest[j] == word@[j],
            !same ==> !word@.is_prefix_of(rest),
    {
        if same {
            if i < text.len() && text[i] == c {
                i += 1;
            } else {
                same = false;
                assert(word@.len() <= rest.len() ==> rest.subrange(0, word@.len() as int)[i - at]
                    != word@[i - at]);
            }
        }
    }
    if same {
        assert(word@ =~= rest.subrange(0, word@.len() as int));
        Some(i)
    } else {
        None
    }
}

/// Whether `text`, from position `at` to its end, reads `word`.
pub fn reads_from(text: &[char], at: usize, word: &str) -> (same: bool)
    requires
        at <= text.len(),
    ensures
        same == (text@.skip(at as int) == word@),
{
    match word_end_at(text, at, word) {
        Some(end) => {
            assert(end == text.len() ==> text@.skip(at as int) =~= word@);
            end == text.len()
        },
        None => false,
    }
}

/// A copy of `text[from..to]`.
pub fn copy_range(text: &[char], from: usize, to: usize) -> (part: Vec<char>)
    requires
        from <= to <= text.len(),
    ensures
        part@ == text@.subrange(from as int, to as int),
{
    slice_to_vec(slice_subrange(text, from, to))
}

/// The characters that Unicode gives the property `White_Space`.
pub open spec fn white_space(c: char) -> bool {
    ||| '\u{9}' <= c <= '\u{d}'
    ||| c == ' '
    ||| c == '\u{85}'
    ||| c == '\u{a0}'
    ||| c == '\u{1680}'
    ||| '\u{2000}' <= c <= '\u{200a}'
    ||| c == '\u{2028}'
    ||| c == '\u{2029}'
    ||| c == '\u{202f}'
    ||| c == '\u{205f}'
    ||| c == '\u{3000}'
}

/// [`white_space`] as a predicate, for [`leading_run`].
pub open spec fn is_white_space() -> spec_fn(char) -> bool {
    |c: char| white_space(c)
}

/// `s` without the white space in front of it.
pub open spec fn trim_start(s: Seq<char>) -> Seq<char> {
    s.skip(leading_run(s, is_white_space()) as int)
}

/// Whether `c` is white space.
pub fn is_whitespace(c: char) -> (white: bool)
    ensures
        white == white_space(c),
{
    ('\u{9}' <= c && c <= '\u{d}') || c == ' ' || c == '\u{85}' || c == '\u{a0}' || c
        == '\u{1680}' || ('\u{2000}' <= c && c <= '\u{200a}') || c == '\u{2028}' || c
        == '\u{2029}' || c == '\u{202f}' || c == '\u{205f}' || c == '\u{3000}'
}

/// How many characters of white space `text` begins with.
pub fn leading_whitespace(text: &[char]) -> (n: usize)
    ensures
        n == leading_run(text@, is_white_space()),
        n <= text.len(),
{
    let mut n: usize = 0;
    while n < text.len() && is_whitespace(text[n])
        invariant
            n <= text.len(),
            forall|j: int| 0 <= j < n ==> white_space(#[trigger] text@[j]),
        decreases text.len() - n,
    {
        n += 1;
    }
    proof {
        lemma_leading_run_is(text@, is_white_space(), n as int);
    }
    n
}

/// Holds of every character but the line feed.
pub open spec fn is_not_line_feed() -> spec_fn(char) -> bool {
    |c: char| c != '\n'
}

/// Whether the last character of `line` is a carriage return.
pub open spec fn ends_in_carriage_return(line: Seq<char>) -> bool {
    line.len() > 0 && line.last() == '\r'
}

/// `line` without the carriage return at its end, if it has one.
pub open spec fn without_carriage_return(line: Seq<char>) -> Seq<char> {
    if ends_in_carriage_return(line) {
        line.drop_last()
    } else {
        line
    }
}

/// The lines of a text.
///
/// A line ends at a line feed, or at a carriage return directly followed by
/// a line feed; neither belongs to the line. The last line needs no line
/// ending, and a text that ends in one has no further, empty line after it.
/// A carriage return that no line feed follows is part of its line.
pub open spec fn lines_of(text: Seq<char>) -> Seq<Seq<char>>
    decreases text.len(),
{
    if text.len() == 0 {
        Seq::empty()
    } else {
        let n = leading_run(text, is_not_line_feed()) as int;
        if n >= text.len() {
            seq![text]
        } else {
            seq![without_carriage_return(text.take(n))] + lines_of(text.skip(n + 1))
        }
    }
}

/// The lines, with one line feed between each two of them and none at the
/// end.
pub open spec fn joined(lines: Seq<Seq<char>>) -> Seq<char>
    decreases lines.len(),
{
    if lines.len() == 0 {
        Seq::empty()
    } else if lines.len() == 1 {
        lines[0]
    } else {
        lines[0] + seq!['\n'] + joined(lines.drop_first())
    }
}

/// What each of the given lines holds.
pub open spec fn line_views(lines: Seq<Vec<char>>) -> Seq<Seq<char>> {
    lines.map_values(|line: Vec<char>| line@)
}

/// Joining one more line puts a line feed and that line at the end.
pub proof fn lemma_joined_push(lines: Seq<Seq<char>>, line: Seq<char>)
    ensures
        joined(lines.push(line)) == if lines.len() == 0 {
            line
        } else {
            joined(lines) + seq!['\n'] + line
        },
    decreases lines.len(),
{
    let more = lines.push(line);
    if lines.len() == 1 {
        assert(more.drop_first() =~= seq![line]);
        assert(joined(more.drop_first()) == line);
    } else if lines.len() >= 2 {
        let rest = lines.drop_first();
        lemma_joined_push(rest, line);
        assert(more.drop_first() =~= rest.push(line));
        assert(joined(more) =~= joined(lines) + seq!['\n'] + line);
    }
}

/// Splits a text into its lines.
pub fn split_lines(text: &[char]) -> (lines: Vec<Vec<char>>)
    ensures
        line_views(lines@) == lines_of(text@),
{
    let mut lines: Vec<Vec<char>> = Vec::new();
    let mut start: usize = 0;
    let mut i: usize = 0;
    assert(text@.skip(0) =~= text@);
    assert(line_views(lines@) + lines_of(text@) =~= lines_of(text@));
    while i < text.len()
        invariant
            start <= i <= text.len(),
            forall|j: int| start <= j < i ==> text@[j] != '\n',
            lines_of(text@) == line_views(lines@) + lines_of(text@.skip(start as int)),
        decreases text.len() - i,
    {
        if text[i] == '\n' {
            let end = if i > start && text[i - 1] == '\r' {
                i - 1
            } else {
                i
            };
            let line = copy_range(text, start, end);
            proof {
                let rest = text@.skip(start as int);
                let n = i - start;
                assert forall|j: int| 0 <= j < n implies is_not_line_feed()(#[trigger] rest[j]) by {
                    assert(rest[j] == text@[start + j]);
                }
                lemma_leading_run_is(rest, is_not_line_feed(), n);
                assert(rest.take(n) =~= text@.subrange(start as int, i as int));
                assert(rest.skip(n + 1) =~= text@.skip(i + 1));
                assert(line@ =~= without_carriage_return(rest.take(n)));
                assert(line_views(lines@.push(line)) =~= line_views(lines@).push(line@));
                assert(line_views(lines@).push(line@) + lines_of(text@.skip(i + 1))
                    =~= line_views(lines@) + lines_of(rest));
            }
            lines.push(line);
            start = i + 1;
        }
        i += 1;
    }
    if start < text.len() {
        let line = copy_range(text, start, text.len());
        proof {
            let rest = text@.skip(start as int);
            assert forall|j: int| 0 <= j < rest.len() implies is_not_line_feed()(
                #[trigger] rest[j],
            ) by {
                assert(rest[j] == text@[start + j]);
            }
            lemma_leading_run_is(rest, is_not_line_feed(), rest.len() as int);
            assert(line@ =~= rest);
            assert(line_views(lines@.push(line)) =~= line_views(lines@).push(line@));
            assert(line_views(lines@).push(line@) =~= line_views(lines@) + lines_of(rest));
        }
        lines.push(line);
    } else {
        assert(line_views(lines@) + lines_of(text@.skip(start as int)) =~= line_views(lines@));
    }
    lines
}

/// Joins lines into one text, with a line feed between each two of them.
pub fn join_lines(lines: &Vec<Vec<char>>) -> (text: Vec<char>)
    ensures
        text@ == joined(line_views(lines@)),
{
    let mut text: Vec<char> = Vec::new();
    let mut i: usize = 0;
    while i < lines.len()
        invariant
            i <= lines.len(),
            text@ == joined(line_views(lines@).take(i as int)),
        decreases lines.len() - i,
    {
        if i > 0 {
            text.push('\n');
        }
        text.extend_from_slice(lines[i].as_slice());
        proof {
            let done = line_views(lines@).take(i as int);
            lemma_joined_push(done, lines@[i as int]@);
            assert(line_views(lines@).take(i + 1) =~= done.push(lines@[i as int]@));
            assert(text@ =~= joined(done.push(lines@[i as int]@)));
        }
        i += 1;
    }
    assert(line_views(lines@).take(lines@.len() as int) =~= line_views(lines@));
    text
}

} // verus!
