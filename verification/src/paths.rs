//! Paths as text: the home marker, file extensions, directories under the
//! home directory, and paths relative to it.
//!
//! A path is read as text in which `/` separates the components. Nothing
//! here touches the file system or the environment: the caller supplies the
//! home directory.

use crate::text::{
    chars_of, copy_range, has_prefix_at, leading_run, lemma_leading_run, lemma_leading_run_is,
    lemma_trailing_run_is, string_of, trailing_run,
};
use vstd::prelude::*;
use vstd::slice::slice_subrange;

verus! {

/// Holds of `/` alone.
pub open spec fn is_slash() -> spec_fn(char) -> bool {
    |c: char| c == '/'
}

/// Holds of every character but `/`.
pub open spec fn is_not_slash() -> spec_fn(char) -> bool {
    |c: char| c != '/'
}

/// Holds of every character but `.`.
pub open spec fn is_not_dot() -> spec_fn(char) -> bool {
    |c: char| c != '.'
}

/// `path` with a leading `~` replaced by `home`; any other path unchanged.
pub open spec fn expanded(path: Seq<char>, home: Seq<char>) -> Seq<char> {
    if path.len() > 0 && path[0] == '~' {
        home + path.skip(1)
    } else {
        path
    }
}

/// The file name of a path: what follows its last `/`, or all of it where it
/// has none.
pub open spec fn file_name(path: Seq<char>) -> Seq<char> {
    path.skip(path.len() - trailing_run(path, is_not_slash()))
}

/// The extension of a path's file name: what follows the last `.` of the
/// name, without the dot.
///
/// There is none where the name holds no `.`, where its only `.` is its first
/// character, and where the name is `..`.
pub open spec fn extension(path: Seq<char>) -> Option<Seq<char>> {
    let name = file_name(path);
    let after = trailing_run(name, is_not_dot());
    if after + 1 >= name.len() || name == seq!['.', '.'] {
        None
    } else {
        Some(name.skip(name.len() - after))
    }
}

/// Whether a component of a path names something: it is neither empty nor
/// `.`.
pub open spec fn is_named(part: Seq<char>) -> bool {
    part.len() > 0 && part != seq!['.']
}

/// The named components of a path, each behind a `/`: what is left of the
/// path when the components that name nothing are passed over.
pub open spec fn plain(path: Seq<char>) -> Seq<char>
    decreases path.len(),
{
    if path.len() == 0 {
        Seq::empty()
    } else {
        let n = leading_run(path, is_not_slash()) as int;
        let part = path.take(n);
        let rest = if n >= path.len() {
            Seq::empty()
        } else {
            plain(path.skip(n + 1))
        };
        if is_named(part) {
            seq!['/'] + part + rest
        } else {
            rest
        }
    }
}

/// The home directory written plainly: its named components with one `/`
/// between them, behind a `/` if the home directory starts with one, and
/// with no `/` at the end. `/home//ann/./` gives `/home/ann`; for the root
/// directory this is the empty text.
pub open spec fn home_stem(home: Seq<char>) -> Seq<char> {
    let named = plain(home);
    if named.len() == 0 || (home.len() > 0 && home[0] == '/') {
        named
    } else {
        named.skip(1)
    }
}

/// A directory as the settings name it, made a full path: a leading `~`
/// stands for the home directory, a path that starts with `/` is taken as it
/// is, and any other path lies under the home directory.
pub open spec fn resolved(dir: Seq<char>, home: Seq<char>) -> Seq<char> {
    if dir.len() > 0 && dir[0] == '~' {
        expanded(dir, home)
    } else if dir.len() > 0 && dir[0] == '/' {
        dir
    } else {
        home_stem(home) + seq!['/'] + dir
    }
}

/// `path` relative to the home directory, where it lies under it.
///
/// The path lies under the home directory when it is the home directory,
/// written plainly, followed by a `/` and the rest; the result is that rest,
/// without any further `/` in front. The home directory itself gives the
/// empty path. The path is taken as it is written: it is expected in the
/// form in which the file system gives the entries of a directory, without
/// empty components and without `.`.
pub open spec fn home_relative(path: Seq<char>, home: Seq<char>) -> Option<Seq<char>> {
    let stem = home_stem(home);
    if !stem.is_prefix_of(path) {
        None
    } else {
        let rest = path.skip(stem.len() as int);
        if rest.len() == 0 {
            Some(rest)
        } else if rest[0] == '/' {
            Some(rest.skip(leading_run(rest, is_slash()) as int))
        } else {
            None
        }
    }
}

/// A path that [`home_relative`] gives never starts with `/`, and is the end
/// of the path it came from.
pub proof fn lemma_home_relative_is_relative(path: Seq<char>, home: Seq<char>)
    ensures
        home_relative(path, home) matches Some(rel) ==> {
            &&& rel.len() > 0 ==> rel[0] != '/'
            &&& rel.is_suffix_of(path)
            &&& home_stem(home).is_prefix_of(path)
        },
{
    let stem = home_stem(home);
    if stem.is_prefix_of(path) {
        let rest = path.skip(stem.len() as int);
        if rest.len() > 0 && rest[0] == '/' {
            lemma_leading_run(rest, is_slash());
            let n = leading_run(rest, is_slash()) as int;
            let rel = rest.skip(n);
            assert(rel =~= path.skip(stem.len() + n));
            if rel.len() > 0 {
                assert(rel[0] == rest[n]);
            }
            assert(rel =~= path.subrange(path.len() - rel.len(), path.len() as int));
        } else if rest.len() == 0 {
            assert(rest =~= path.subrange(path.len() - rest.len(), path.len() as int));
        }
    }
}

/// A directory that the settings name without `~` and without `/` in front
/// lies under the home directory, and is itself its path relative to it.
pub proof fn lemma_resolved_lies_under_home(dir: Seq<char>, home: Seq<char>)
    requires
        dir.len() > 0,
        dir[0] != '~',
        dir[0] != '/',
    ensures
        home_relative(resolved(dir, home), home) == Some(dir),
{
    let stem = home_stem(home);
    let full = resolved(dir, home);
    assert(stem =~= full.subrange(0, stem.len() as int));
    let rest = full.skip(stem.len() as int);
    assert(rest =~= seq!['/'] + dir);
    assert(rest[1] == dir[0]);
    lemma_leading_run_is(rest, is_slash(), 1);
    assert(rest.skip(1) =~= dir);
}

/// Replaces a leading `~` by the home directory.
pub fn expand(path: &[char], home: &[char]) -> (full: Vec<char>)
    ensures
        full@ == expanded(path@, home@),
{
    if path.len() > 0 && path[0] == '~' {
        let mut full = copy_range(home, 0, home.len());
        full.extend_from_slice(slice_subrange(path, 1, path.len()));
        assert(home@.subrange(0, home@.len() as int) =~= home@);
        full
    } else {
        let full = copy_range(path, 0, path.len());
        assert(path@.subrange(0, path@.len() as int) =~= path@);
        full
    }
}

/// Replaces a leading `~` of `path` by the home directory `home`, and
/// returns any other path as it is.
///
/// Only the first character is looked at: `~user` becomes `home` followed by
/// `user`, and a `~` further on stays.
pub fn expand_tilde(path: &str, home: &str) -> (full: String)
    ensures
        full@ == expanded(path@, home@),
{
    let path_chars = chars_of(path);
    let home_chars = chars_of(home);
    let full = expand(path_chars.as_slice(), home_chars.as_slice());
    string_of(full.as_slice())
}

/// Where the file name of `path` starts.
pub fn file_name_start(path: &[char]) -> (start: usize)
    ensures
        start == path.len() - trailing_run(path@, is_not_slash()),
        start <= path.len(),
        path@.skip(start as int) == file_name(path@),
{
    let mut start: usize = path.len();
    while start > 0 && path[start - 1] != '/'
        invariant
            start <= path.len(),
            forall|j: int| start <= j < path.len() ==> path@[j] != '/',
        decreases start,
    {
        start -= 1;
    }
    proof {
        lemma_trailing_run_is(path@, is_not_slash(), path.len() - start);
    }
    start
}

/// Where the extension of `path` starts, if it has one: the position after
/// the last `.` of its file name.
pub fn extension_start(path: &[char]) -> (start: Option<usize>)
    ensures
        match start {
            Some(at) => at <= path.len() && extension(path@) == Some(path@.skip(at as int)),
            None => extension(path@) is None,
        },
{
    let name_start = file_name_start(path);
    let ghost name = file_name(path@);
    let mut at: usize = path.len();
    while at > name_start && path[at - 1] != '.'
        invariant
            name_start <= at <= path.len(),
            name == path@.skip(name_start as int),
            forall|j: int| at - name_start <= j < name.len() ==> name[j] != '.',
        decreases at,
    {
        at -= 1;
    }
    proof {
        lemma_trailing_run_is(name, is_not_dot(), path.len() - at);
    }
    let name_len = path.len() - name_start;
    let ghost after = path.len() - at;
    if at - name_start <= 1 {
        return None;
    }
    if name_len == 2 && path[name_start] == '.' && path[name_start + 1] == '.' {
        assert(name =~= seq!['.', '.']);
        return None;
    }
    proof {
        if name == seq!['.', '.'] {
            assert(name[0] == '.');
            assert(name[1] == '.');
            assert(name.len() == 2);
        }
        assert(path@.skip(at as int) =~= name.skip(name.len() - after));
    }
    Some(at)
}

/// Appends `/` and `home[from..to]` to `named` if that component names
/// something.
fn push_component(named: &mut Vec<char>, home: &[char], from: usize, to: usize)
    requires
        from <= to <= home.len(),
    ensures
        final(named)@ == if is_named(home@.subrange(from as int, to as int)) {
            old(named)@ + seq!['/'] + home@.subrange(from as int, to as int)
        } else {
            old(named)@
        },
{
    let ghost part = home@.subrange(from as int, to as int);
    if to > from && !(to - from == 1 && home[from] == '.') {
        proof {
            if part == seq!['.'] {
                assert(part.len() == 1);
                assert(part[0] == '.');
            }
        }
        let ghost before = named@;
        named.push('/');
        named.extend_from_slice(slice_subrange(home, from, to));
        assert(named@ =~= before + seq!['/'] + part);
    } else {
        if to > from {
            assert(part =~= seq!['.']);
        }
    }
}

/// The home directory written plainly.
pub fn stem_of(home: &[char]) -> (stem: Vec<char>)
    ensures
        stem@ == home_stem(home@),
{
    let mut named: Vec<char> = Vec::new();
    let mut start: usize = 0;
    let mut i: usize = 0;
    assert(home@.skip(0) =~= home@);
    assert(named@ + plain(home@) =~= plain(home@));
    while i < home.len()
        invariant
            start <= i <= home.len(),
            forall|j: int| start <= j < i ==> home@[j] != '/',
            plain(home@) == named@ + plain(home@.skip(start as int)),
        decreases home.len() - i,
    {
        if home[i] == '/' {
            let ghost before = named@;
            push_component(&mut named, home, start, i);
            proof {
                let rest = home@.skip(start as int);
                let n = i - start;
                assert forall|j: int| 0 <= j < n implies is_not_slash()(#[trigger] rest[j]) by {
                    assert(rest[j] == home@[start + j]);
                }
                assert(rest[n] == home@[i as int]);
                lemma_leading_run_is(rest, is_not_slash(), n);
                assert(rest.take(n) =~= home@.subrange(start as int, i as int));
                assert(rest.skip(n + 1) =~= home@.skip(i + 1));
                assert(named@ + plain(home@.skip(i + 1)) =~= before + plain(rest));
            }
            start = i + 1;
        }
        i += 1;
    }
    if start < home.len() {
        let ghost before = named@;
        push_component(&mut named, home, start, home.len());
        proof {
            let rest = home@.skip(start as int);
            assert forall|j: int| 0 <= j < rest.len() implies is_not_slash()(
                #[trigger] rest[j],
            ) by {
                assert(rest[j] == home@[start + j]);
            }
            lemma_leading_run_is(rest, is_not_slash(), rest.len() as int);
            assert(rest.take(rest.len() as int) =~= home@.subrange(
                start as int,
                home.len() as int,
            ));
            assert(named@ =~= before + plain(rest));
        }
    } else {
        assert(named@ + plain(home@.skip(start as int)) =~= named@);
    }
    if named.len() == 0 || (home.len() > 0 && home[0] == '/') {
        named
    } else {
        copy_range(named.as_slice(), 1, named.len())
    }
}

/// Makes a directory, as the settings name it, a full path.
pub fn resolve(dir: &str, home: &str) -> (full: String)
    ensures
        full@ == resolved(dir@, home@),
{
    let dir_chars = chars_of(dir);
    let home_chars = chars_of(home);
    if dir_chars.len() > 0 && dir_chars[0] == '~' {
        let full = expand(dir_chars.as_slice(), home_chars.as_slice());
        string_of(full.as_slice())
    } else if dir_chars.len() > 0 && dir_chars[0] == '/' {
        string_of(dir_chars.as_slice())
    } else {
        let mut full = stem_of(home_chars.as_slice());
        full.push('/');
        full.extend_from_slice(dir_chars.as_slice());
        assert(full@ =~= home_stem(home@) + seq!['/'] + dir@);
        string_of(full.as_slice())
    }
}

/// The path relative to the home directory, if it lies under it.
pub fn relative_to_home(path: &[char], home: &[char]) -> (rel: Option<Vec<char>>)
    ensures
        match rel {
            Some(r) => home_relative(path@, home@) == Some(r@),
            None => home_relative(path@, home@) is None,
        },
{
    let stem_chars = stem_of(home);
    let stem = stem_chars.as_slice();
    let stem_len = stem.len();
    assert(path@.skip(0) =~= path@);
    if !has_prefix_at(path, 0, stem) {
        return None;
    }
    let ghost rest = path@.skip(stem_len as int);
    if stem_len == path.len() {
        return Some(Vec::new());
    }
    if path[stem_len] != '/' {
        assert(rest[0] == path@[stem_len as int]);
        return None;
    }
    let mut at: usize = stem_len;
    while at < path.len() && path[at] == '/'
        invariant
            stem_len <= at <= path.len(),
            forall|j: int| stem_len <= j < at ==> path@[j] == '/',
        decreases path.len() - at,
    {
        at += 1;
    }
    proof {
        assert(rest[0] == path@[stem_len as int]);
        assert forall|j: int| 0 <= j < at - stem_len implies is_slash()(#[trigger] rest[j]) by {
            assert(rest[j] == path@[stem_len + j]);
        }
        if at < path.len() {
            assert(rest[at - stem_len] == path@[at as int]);
        }
        lemma_leading_run_is(rest, is_slash(), at - stem_len);
        assert(rest.skip(at - stem_len) =~= path@.subrange(at as int, path.len() as int));
    }
    Some(copy_range(path, at, path.len()))
}

} // verus!
