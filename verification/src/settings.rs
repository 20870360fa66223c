//! The settings file: three `key = "value"` lines that say where the images,
//! the animations and the terminal's configuration file are.

use crate::paths::{expand, expand_tilde, expanded};
use crate::text::{
    chars_of, leading_run, lemma_leading_run_is, lemma_trailing_run_is, line_views, lines_of,
    split_lines, string_of, trailing_run, word_end_at,
};
use vstd::prelude::*;
use vstd::slice::slice_subrange;
use vstd::string::StringExecFns;

verus! {

/// Where the settings file lies, with `~` for the home directory.
pub const SETTINGS_FILE: &'static str = "~/.config/wezback";

/// The keys of the settings file. All three are required.
#[derive(Clone, Copy, Debug, PartialEq, Eq, Structural)]
pub enum Key {
    /// The directory of the still images.
    Images,
    /// The terminal's Lua configuration file.
    Wezlua,
    /// The directory of the animations.
    Animations,
}

/// The settings file gives no value to a required key.
#[derive(Clone, Copy, Debug, PartialEq, Eq, Structural)]
pub struct MissingConfigKey {
    /// The key that is missing.
    pub key: Key,
}

/// What the settings file says, every path with its home marker expanded.
pub struct Settings {
    /// The directory of the still images.
    pub images: String,
    /// The terminal's Lua configuration file.
    pub wezlua: String,
    /// The directory of the animations.
    pub animations: String,
}

/// The text of the three settings.
pub struct SettingsText {
    pub images: Seq<char>,
    pub wezlua: Seq<char>,
    pub animations: Seq<char>,
}

impl View for Settings {
    type V = SettingsText;

    open spec fn view(&self) -> SettingsText {
        SettingsText { images: self.images@, wezlua: self.wezlua@, animations: self.animations@ }
    }
}

/// The name of a key, as it is written in the settings file.
pub open spec fn key_name(key: Key) -> Seq<char> {
    match key {
        Key::Images => "images"@,
        Key::Wezlua => "wezlua"@,
        Key::Animations => "animations"@,
    }
}

/// What a line that sets the key starts with: the name, ` = `, and nothing
/// before the name.
pub open spec fn key_prefix(key: Key) -> Seq<char> {
    match key {
        Key::Images => "images = "@,
        Key::Wezlua => "wezlua = "@,
        Key::Animations => "animations = "@,
    }
}

/// Holds of the double quote alone.
pub open spec fn is_quote() -> spec_fn(char) -> bool {
    |c: char| c == '"'
}

/// `s` without the double quotes at its start and at its end, however many
/// there are.
pub open spec fn unquoted(s: Seq<char>) -> Seq<char> {
    let opened = s.skip(leading_run(s, is_quote()) as int);
    opened.take(opened.len() - trailing_run(opened, is_quote()))
}

/// The value that a line gives to the key, if the line sets it: what follows
/// the key's prefix, unquoted, with the home marker expanded.
pub open spec fn line_value(line: Seq<char>, key: Key, home: Seq<char>) -> Option<Seq<char>> {
    if key_prefix(key).is_prefix_of(line) {
        Some(expanded(unquoted(line.skip(key_prefix(key).len() as int)), home))
    } else {
        None
    }
}

/// The value that the lines give to the key: that of the last line that sets
/// it.
pub open spec fn setting(lines: Seq<Seq<char>>, key: Key, home: Seq<char>) -> Option<Seq<char>>
    decreases lines.len(),
{
    if lines.len() == 0 {
        None
    } else {
        match line_value(lines.last(), key, home) {
            Some(value) => Some(value),
            None => setting(lines.drop_last(), key, home),
        }
    }
}

/// What the text of a settings file means: the three settings, or the first
/// key that has no value, in the order images, wezlua, animations.
pub open spec fn parsed(text: Seq<char>, home: Seq<char>) -> Result<SettingsText, MissingConfigKey> {
    let lines = lines_of(text);
    match setting(lines, Key::Images, home) {
        None => Err(MissingConfigKey { key: Key::Images }),
        Some(images) => match setting(lines, Key::Wezlua, home) {
            None => Err(MissingConfigKey { key: Key::Wezlua }),
            Some(wezlua) => match setting(lines, Key::Animations, home) {
                None => Err(MissingConfigKey { key: Key::Animations }),
                Some(animations) => Ok(SettingsText { images, wezlua, animations }),
            },
        },
    }
}

/// Whether some line sets the key, that is, starts with the key's prefix.
pub open spec fn is_set(lines: Seq<Seq<char>>, key: Key) -> bool {
    exists|i: int| 0 <= i < lines.len() && key_prefix(key).is_prefix_of(#[trigger] lines[i])
}

/// A key has a value exactly when some line sets it.
pub proof fn lemma_setting_is_some(lines: Seq<Seq<char>>, key: Key, home: Seq<char>)
    ensures
        setting(lines, key, home) is Some <==> is_set(lines, key),
    decreases lines.len(),
{
    if lines.len() > 0 {
        let init = lines.drop_last();
        lemma_setting_is_some(init, key, home);
        if key_prefix(key).is_prefix_of(lines.last()) {
            assert(key_prefix(key).is_prefix_of(lines[lines.len() - 1]));
        } else if setting(init, key, home) is Some {
            let i = choose|i: int|
                0 <= i < init.len() && key_prefix(key).is_prefix_of(#[trigger] init[i]);
            assert(key_prefix(key).is_prefix_of(lines[i]));
        } else {
            assert forall|i: int| 0 <= i < lines.len() implies !key_prefix(key).is_prefix_of(
                #[trigger] lines[i],
            ) by {
                if i < init.len() {
                    assert(init[i] == lines[i]);
                }
            }
        }
    }
}

/// The settings are read exactly when all three keys are set, and the key
/// that is reported missing is the first that is not.
pub proof fn lemma_settings_need_all_keys(text: Seq<char>, home: Seq<char>)
    ensures
        parsed(text, home) is Ok <==> is_set(lines_of(text), Key::Images) && is_set(
            lines_of(text),
            Key::Wezlua,
        ) && is_set(lines_of(text), Key::Animations),
        parsed(text, home) matches Err(missing) ==> !is_set(lines_of(text), missing.key),
        parsed(text, home) matches Err(missing) ==> (missing.key != Key::Images ==> is_set(
            lines_of(text),
            Key::Images,
        )),
        parsed(text, home) matches Err(missing) ==> (missing.key == Key::Animations ==> is_set(
            lines_of(text),
            Key::Wezlua,
        )),
{
    let lines = lines_of(text);
    lemma_setting_is_some(lines, Key::Images, home);
    lemma_setting_is_some(lines, Key::Wezlua, home);
    lemma_setting_is_some(lines, Key::Animations, home);
}

/// The view of a value that may be absent.
pub open spec fn value_view(value: Option<Vec<char>>) -> Option<Seq<char>> {
    match value {
        Some(v) => Some(v@),
        None => None,
    }
}

impl Key {
    /// The name of the key.
    pub fn name(self) -> (name: &'static str)
        ensures
            name@ == key_name(self),
    {
        match self {
            Key::Images => "images",
            Key::Wezlua => "wezlua",
            Key::Animations => "animations",
        }
    }

    /// What a line that sets the key starts with.
    pub fn prefix(self) -> (prefix: &'static str)
        ensures
            prefix@ == key_prefix(self),
    {
        match self {
            Key::Images => "images = ",
            Key::Wezlua => "wezlua = ",
            Key::Animations => "animations = ",
        }
    }
}

impl MissingConfigKey {
    /// The error in words, naming the key.
    pub fn message(&self) -> (message: String)
        ensures
            message@ == "Missing '"@ + key_name(self.key) + "' key in config"@,
    {
        let mut message = "Missing '".to_owned();
        message.append(self.key.name());
        message.append("' key in config");
        message
    }
}

/// The path of the settings file under the given home directory.
pub fn settings_file(home: &str) -> (path: String)
    ensures
        path@ == expanded(SETTINGS_FILE@, home@),
{
    expand_tilde(SETTINGS_FILE, home)
}

/// The range of `text[from..]` that is left when the double quotes at both
/// of its ends are taken away.
pub fn unquote(text: &[char], from: usize) -> (range: (usize, usize))
    requires
        from <= text.len(),
    ensures
        from <= range.0 <= range.1 <= text.len(),
        text@.subrange(range.0 as int, range.1 as int) == unquoted(text@.skip(from as int)),
{
    let ghost s = text@.skip(from as int);
    let mut start: usize = from;
    while start < text.len() && text[start] == '"'
        invariant
            from <= start <= text.len(),
            forall|j: int| from <= j < start ==> text@[j] == '"',
        decreases text.len() - start,
    {
        start += 1;
    }
    proof {
        assert forall|j: int| 0 <= j < start - from implies is_quote()(#[trigger] s[j]) by {
            assert(s[j] == text@[from + j]);
        }
        if start < text.len() {
            assert(s[start - from] == text@[start as int]);
        }
        lemma_leading_run_is(s, is_quote(), start - from);
    }
    let ghost opened = s.skip(start - from);
    let mut end: usize = text.len();
    while end > start && text[end - 1] == '"'
        invariant
            start <= end <= text.len(),
            forall|j: int| end <= j < text.len() ==> text@[j] == '"',
        decreases end,
    {
        end -= 1;
    }
    proof {
        assert(opened =~= text@.skip(start as int));
        assert forall|j: int| opened.len() - (text.len() - end) <= j < opened.len() implies is_quote()(
            #[trigger] opened[j],
        ) by {
            assert(opened[j] == text@[start + j]);
        }
        if end > start {
            assert(opened[end - start - 1] == text@[end - 1]);
        }
        lemma_trailing_run_is(opened, is_quote(), text.len() - end);
        assert(text@.subrange(start as int, end as int) =~= opened.take(
            opened.len() - (text.len() - end),
        ));
    }
    (start, end)
}

/// The value that the line gives to the key, if the line sets it.
pub fn value_in_line(line: &[char], key: Key, home: &[char]) -> (value: Option<Vec<char>>)
    ensures
        value_view(value) == line_value(line@, key, home@),
{
    assert(line@.skip(0) =~= line@);
    match word_end_at(line, 0, key.prefix()) {
        Some(end) => {
            let (from, to) = unquote(line, end);
            Some(expand(slice_subrange(line, from, to), home))
        },
        None => None,
    }
}

/// Reads the settings from the text of the settings file.
///
/// A line sets a key when it starts with the key's name followed by ` = `;
/// its value is the rest of the line, without the double quotes around it and
/// with a leading `~` replaced by `home`. Where several lines set one key,
/// the last one counts. Every other line is passed over. Whether the paths
/// exist is not looked at.
///
/// All three keys must be set: the result is the settings if they are, and
/// otherwise names the first key that is not, in the order images, wezlua,
/// animations.
pub fn load_wezback_config(contents: &str, home: &str) -> (settings: Result<
    Settings,
    MissingConfigKey,
>)
    ensures
        match settings {
            Ok(s) => parsed(contents@, home@) == Ok::<SettingsText, MissingConfigKey>(s@),
            Err(e) => parsed(contents@, home@) == Err::<SettingsText, MissingConfigKey>(e),
        },
{
    let text = chars_of(contents);
    let home_chars = chars_of(home);
    let lines = split_lines(text.as_slice());
    let mut images: Option<Vec<char>> = None;
    let mut wezlua: Option<Vec<char>> = None;
    let mut animations: Option<Vec<char>> = None;
    let mut i: usize = 0;
    let ghost all = line_views(lines@);
    while i < lines.len()
        invariant
            i <= lines.len(),
            all == line_views(lines@),
            home_chars@ == home@,
            value_view(images) == setting(all.take(i as int), Key::Images, home@),
            value_view(wezlua) == setting(all.take(i as int), Key::Wezlua, home@),
            value_view(animations) == setting(all.take(i as int), Key::Animations, home@),
        decreases lines.len() - i,
    {
        let line = lines[i].as_slice();
        proof {
            let upto = all.take(i + 1);
            assert(upto.drop_last() =~= all.take(i as int));
            assert(upto.last() == line@);
        }
        match value_in_line(line, Key::Images, home_chars.as_slice()) {
            Some(value) => {
                images = Some(value);
            },
            None => {},
        }
        match value_in_line(line, Key::Wezlua, home_chars.as_slice()) {
            Some(value) => {
                wezlua = Some(value);
            },
            None => {},
        }
        match value_in_line(line, Key::Animations, home_chars.as_slice()) {
            Some(value) => {
                animations = Some(value);
            },
            None => {},
        }
        i += 1;
    }
    assert(all.take(lines@.len() as int) =~= all);
    match images {
        None => Err(MissingConfigKey { key: Key::Images }),
        Some(images) => match wezlua {
            None => Err(MissingConfigKey { key: Key::Wezlua }),
            Some(wezlua) => match animations {
                None => Err(MissingConfigKey { key: Key::Animations }),
                Some(animations) => Ok(
                    Settings {
                        images: string_of(images.as_slice()),
                        wezlua: string_of(wezlua.as_slice()),
                        animations: string_of(animations.as_slice()),
                    },
                ),
            },
        },
    }
}

} // verus!
