//! The patch of the terminal's Lua configuration: the line that assigns the
//! wallpaper path is rewritten, every other line is kept.

use crate::text::{
    chars_of, ends_in_carriage_return, is_not_line_feed, joined, leading_whitespace,
    lemma_joined_push, lemma_leading_run_is, line_views, lines_of, split_lines, string_of,
    trim_start, word_end_at,
};
use vstd::prelude::*;

verus! {

/// What the line that assigns the wallpaper path starts with, after any
/// white space.
pub const TARGET: &'static str = "local image_path";

/// What the rewritten line holds before the image.
pub const ASSIGNMENT: &'static str = "local image_path = home .. '/";

/// What the rewritten line holds after the image.
pub const CLOSING: &'static str = "'";

/// Whether the line assigns the wallpaper path: without the white space in
/// front of it, it starts with [`TARGET`].
pub open spec fn targets_image_path(line: Seq<char>) -> bool {
    TARGET@.is_prefix_of(trim_start(line))
}

/// The line that assigns the given image: the image path as it is, in single
/// quotes behind a `/`, appended to the variable `home`.
pub open spec fn replacement_line(image: Seq<char>) -> Seq<char> {
    ASSIGNMENT@ + image + CLOSING@
}

/// A line after the patch: the replacement if the line assigns the
/// wallpaper path, the line itself if not.
pub open spec fn patched_line(line: Seq<char>, image: Seq<char>) -> Seq<char> {
    if targets_image_path(line) {
        replacement_line(image)
    } else {
        line
    }
}

/// The lines after the patch, each patched by itself.
pub open spec fn patched_lines(lines: Seq<Seq<char>>, image: Seq<char>) -> Seq<Seq<char>> {
    Seq::new(lines.len(), |i: int| patched_line(lines[i], image))
}

/// A configuration text after the patch: its lines, patched, joined by line
/// feeds.
pub open spec fn patched(text: Seq<char>, image: Seq<char>) -> Seq<char> {
    joined(patched_lines(lines_of(text), image))
}

/// Lines that come back as they are when they are joined and split again:
/// none holds a line feed, none but the last ends in a carriage return, and
/// the last is not empty.
pub open spec fn survives_joining(lines: Seq<Seq<char>>) -> bool {
    &&& forall|i: int, j: int|
        0 <= i < lines.len() && 0 <= j < lines[i].len() ==> #[trigger] lines[i][j] != '\n'
    &&& forall|i: int| 0 <= i < lines.len() - 1 ==> !ends_in_carriage_return(#[trigger] lines[i])
    &&& lines.len() > 0 ==> lines.last().len() > 0
}

/// Splitting what was joined gives the lines back, where they survive
/// joining.
pub proof fn lemma_split_joined(lines: Seq<Seq<char>>)
    requires
        survives_joining(lines),
    ensures
        lines_of(joined(lines)) == lines,
    decreases lines.len(),
{
    let feed_free = is_not_line_feed();
    if lines.len() == 1 {
        let line = lines[0];
        assert forall|j: int| 0 <= j < line.len() implies feed_free(#[trigger] line[j]) by {
            assert(lines[0][j] != '\n');
        }
        lemma_leading_run_is(line, feed_free, line.len() as int);
        assert(lines_of(line) =~= lines);
    } else if lines.len() >= 2 {
        let first = lines[0];
        let rest = lines.drop_first();
        let text = joined(lines);
        assert(text == first + seq!['\n'] + joined(rest));
        assert forall|j: int| 0 <= j < first.len() implies feed_free(#[trigger] text[j]) by {
            assert(text[j] == lines[0][j]);
        }
        assert(text[first.len() as int] == '\n');
        lemma_leading_run_is(text, feed_free, first.len() as int);
        assert(text.take(first.len() as int) =~= first);
        assert(text.skip(first.len() as int + 1) =~= joined(rest));
        assert(survives_joining(rest)) by {
            assert forall|i: int, j: int|
                0 <= i < rest.len() && 0 <= j < rest[i].len() implies #[trigger] rest[i][j]
                != '\n' by {
                assert(rest[i][j] == lines[i + 1][j]);
            }
            assert forall|i: int| 0 <= i < rest.len() - 1 implies !ends_in_carriage_return(
                #[trigger] rest[i],
            ) by {
                assert(rest[i] == lines[i + 1]);
            }
            assert(rest.last() == lines.last());
        }
        lemma_split_joined(rest);
        assert(!ends_in_carriage_return(lines[0]));
        assert(seq![first] + rest =~= lines);
    }
}

/// The patch changes the lines that assign the wallpaper path, and no
/// others: as many lines come out as went in, each line that assigns the
/// path is the replacement, and each other line is what it was.
pub proof fn lemma_patch_touches_targets_only(lines: Seq<Seq<char>>, image: Seq<char>)
    ensures
        patched_lines(lines, image).len() == lines.len(),
        forall|i: int|
            0 <= i < lines.len() && targets_image_path(lines[i]) ==> #[trigger] patched_lines(
                lines,
                image,
            )[i] == replacement_line(image),
        forall|i: int|
            0 <= i < lines.len() && !targets_image_path(lines[i]) ==> #[trigger] patched_lines(
                lines,
                image,
            )[i] == lines[i],
{
}

/// Where exactly one line assigns the wallpaper path, the patch replaces
/// that line and nothing else.
pub proof fn lemma_patch_replaces_the_one_target(lines: Seq<Seq<char>>, image: Seq<char>, at: int)
    requires
        0 <= at < lines.len(),
        targets_image_path(lines[at]),
        forall|i: int| 0 <= i < lines.len() && i != at ==> !targets_image_path(#[trigger] lines[i]),
    ensures
        patched_lines(lines, image) == lines.update(at, replacement_line(image)),
{
    assert(patched_lines(lines, image) =~= lines.update(at, replacement_line(image)));
}

/// Where no line assigns the wallpaper path, the patch leaves every line as
/// it is: the text that comes out is the lines of the text that went in,
/// joined.
pub proof fn lemma_patch_without_target(text: Seq<char>, image: Seq<char>)
    requires
        forall|i: int|
            0 <= i < lines_of(text).len() ==> !targets_image_path(#[trigger] lines_of(text)[i]),
    ensures
        patched_lines(lines_of(text), image) == lines_of(text),
        patched(text, image) == joined(lines_of(text)),
{
    assert(patched_lines(lines_of(text), image) =~= lines_of(text));
}

/// Patching lines that are patched already changes nothing.
pub proof fn lemma_patched_lines_are_settled(lines: Seq<Seq<char>>, image: Seq<char>)
    ensures
        patched_lines(patched_lines(lines, image), image) == patched_lines(lines, image),
{
    assert(patched_lines(patched_lines(lines, image), image) =~= patched_lines(lines, image));
}

/// A second patch with the same image changes nothing, where the lines that
/// the first patch wrote survive joining.
///
/// That leaves out what the joining loses: a line that ends in a carriage
/// return before its line ending, an empty last line, and an image path with
/// a line feed in it.
pub proof fn lemma_patch_is_idempotent(text: Seq<char>, image: Seq<char>)
    requires
        survives_joining(patched_lines(lines_of(text), image)),
    ensures
        patched(patched(text, image), image) == patched(text, image),
{
    let once = patched_lines(lines_of(text), image);
    lemma_split_joined(once);
    lemma_patched_lines_are_settled(lines_of(text), image);
}

/// The patch keeps lines fit for joining: where the lines of the text
/// survive joining and the image path holds no line feed, the patched lines
/// survive it too.
pub proof fn lemma_patch_keeps_lines_whole(text: Seq<char>, image: Seq<char>)
    requires
        survives_joining(lines_of(text)),
        forall|j: int| 0 <= j < image.len() ==> image[j] != '\n',
    ensures
        survives_joining(patched_lines(lines_of(text), image)),
{
    let lines = lines_of(text);
    let after = patched_lines(lines, image);
    let line = replacement_line(image);
    reveal_strlit("local image_path = home .. '/");
    reveal_strlit("'");
    assert(line.len() == ASSIGNMENT@.len() + image.len() + 1);
    assert(line.last() == '\'');
    assert forall|j: int| 0 <= j < line.len() implies #[trigger] line[j] != '\n' by {
        if j < ASSIGNMENT@.len() {
            assert(line[j] == ASSIGNMENT@[j]);
        } else if j < ASSIGNMENT@.len() + image.len() {
            assert(line[j] == image[j - ASSIGNMENT@.len()]);
        }
    }
    assert forall|i: int, j: int|
        0 <= i < after.len() && 0 <= j < after[i].len() implies #[trigger] after[i][j]
        != '\n' by {
        if !targets_image_path(lines[i]) {
            assert(lines[i][j] != '\n');
        }
    }
    assert forall|i: int| 0 <= i < after.len() - 1 implies !ends_in_carriage_return(
        #[trigger] after[i],
    ) by {
        if !targets_image_path(lines[i]) {
            assert(!ends_in_carriage_return(lines[i]));
        }
    }
}

/// Whether the line assigns the wallpaper path.
pub fn is_target(line: &[char]) -> (target: bool)
    ensures
        target == targets_image_path(line@),
{
    let start = leading_whitespace(line);
    word_end_at(line, start, TARGET).is_some()
}

/// The line that assigns the given image.
pub fn replacement(image: &[char]) -> (line: Vec<char>)
    ensures
        line@ == replacement_line(image@),
{
    let mut line = chars_of(ASSIGNMENT);
    line.extend_from_slice(image);
    let closing = chars_of(CLOSING);
    line.extend_from_slice(closing.as_slice());
    assert(line@ =~= ASSIGNMENT@ + image@ + CLOSING@);
    line
}

/// Patches the text of the terminal's configuration so that it assigns the
/// given image.
///
/// The text is read line by line. Every line that, after any white space,
/// starts with `local image_path` becomes
/// `local image_path = home .. '/<new_image>'`, with the image path taken as
/// it is; every other line stays as it is, in its place. The lines are
/// joined by single line feeds: whatever ended a line before, a line feed
/// separates it from the next now, and the text that comes out ends without
/// a line ending. A text without such a line comes out with its lines
/// unchanged; one with several has each of them rewritten.
pub fn update_config_file(contents: &str, new_image: &str) -> (updated: String)
    ensures
        updated@ == patched(contents@, new_image@),
{
    let text = chars_of(contents);
    let image = chars_of(new_image);
    let lines = split_lines(text.as_slice());
    let line = replacement(image.as_slice());
    let ghost after = patched_lines(lines_of(contents@), new_image@);
    let mut out: Vec<char> = Vec::new();
    let mut i: usize = 0;
    while i < lines.len()
        invariant
            i <= lines.len(),
            line_views(lines@) == lines_of(contents@),
            line@ == replacement_line(new_image@),
            after == patched_lines(lines_of(contents@), new_image@),
            out@ == joined(after.take(i as int)),
        decreases lines.len() - i,
    {
        if i > 0 {
            out.push('\n');
        }
        let ghost before = out@;
        if is_target(lines[i].as_slice()) {
            out.extend_from_slice(line.as_slice());
        } else {
            out.extend_from_slice(lines[i].as_slice());
        }
        proof {
            let done = after.take(i as int);
            assert(line_views(lines@)[i as int] == lines@[i as int]@);
            assert(out@ =~= before + after[i as int]);
            lemma_joined_push(done, after[i as int]);
            assert(after.take(i + 1) =~= done.push(after[i as int]));
        }
        i += 1;
    }
    assert(after.take(lines@.len() as int) =~= after);
    string_of(out.as_slice())
}

} // verus!
