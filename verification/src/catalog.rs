//! The catalog of a directory: which of its entries are images, and how
//! each is named relative to the home directory.

use crate::paths::{
    extension, extension_start, home_relative, lemma_home_relative_is_relative, relative_to_home,
};
use crate::text::{chars_of, reads_from, string_of};
use vstd::prelude::*;

verus! {

/// The extensions that mark a file as an image or an animation. Case
/// matters: `PNG` is none of them.
pub open spec fn is_image_extension(ext: Seq<char>) -> bool {
    ||| ext == "jpeg"@
    ||| ext == "jpg"@
    ||| ext == "png"@
    ||| ext == "gif"@
    ||| ext == "bmp"@
    ||| ext == "ico"@
    ||| ext == "webp"@
    ||| ext == "tiff"@
    ||| ext == "pnm"@
    ||| ext == "dds"@
    ||| ext == "tga"@
    ||| ext == "farbfeld"@
}

/// Whether the path names an image: its file name has an extension, and the
/// extension is one of the image extensions.
pub open spec fn is_image(path: Seq<char>) -> bool {
    extension(path) matches Some(ext) && is_image_extension(ext)
}

/// An entry of a directory: its path, and whether it is a regular file.
pub struct Entry {
    /// The path of the entry.
    pub path: String,
    /// Whether the entry is a regular file, and not a directory or anything
    /// else.
    pub is_file: bool,
}

/// What an [`Entry`] holds.
pub struct EntryText {
    pub path: Seq<char>,
    pub is_file: bool,
}

impl DeepView for Entry {
    type V = EntryText;

    open spec fn deep_view(&self) -> EntryText {
        EntryText { path: self.path@, is_file: self.is_file }
    }
}

/// What a directory entry contributes to the catalog: its path relative to
/// the home directory if it is a regular file, is an image and lies under
/// the home directory, nothing otherwise.
pub open spec fn candidate(entry: EntryText, home: Seq<char>) -> Option<Seq<char>> {
    if entry.is_file && is_image(entry.path) {
        home_relative(entry.path, home)
    } else {
        None
    }
}

/// The catalog of the given directory entries: the candidates that the
/// entries contribute, in the order of the entries.
pub open spec fn catalog(entries: Seq<EntryText>, home: Seq<char>) -> Seq<Seq<char>>
    decreases entries.len(),
{
    if entries.len() == 0 {
        Seq::empty()
    } else {
        let before = catalog(entries.drop_last(), home);
        match candidate(entries.last(), home) {
            Some(c) => before.push(c),
            None => before,
        }
    }
}

/// The catalog holds a path exactly when some entry contributes it: an
/// entry that is an image under the home directory is in the catalog by its
/// relative path, and nothing else is.
pub proof fn lemma_catalog_members(entries: Seq<EntryText>, home: Seq<char>)
    ensures
        forall|c: Seq<char>| #[trigger]
            catalog(entries, home).contains(c) <==> exists|i: int|
                0 <= i < entries.len() && candidate(#[trigger] entries[i], home) == Some(c),
    decreases entries.len(),
{
    if entries.len() > 0 {
        let init = entries.drop_last();
        let before = catalog(init, home);
        let last = entries.len() - 1;
        lemma_catalog_members(init, home);
        assert forall|c: Seq<char>| #[trigger]
            catalog(entries, home).contains(c) <==> exists|i: int|
                0 <= i < entries.len() && candidate(#[trigger] entries[i], home) == Some(
                    c,
                ) by {
            if catalog(entries, home).contains(c) {
                let k = choose|k: int|
                    0 <= k < catalog(entries, home).len() && catalog(entries, home)[k] == c;
                if k < before.len() {
                    assert(before[k] == c);
                    assert(before.contains(c));
                    let i = choose|i: int|
                        0 <= i < init.len() && candidate(#[trigger] init[i], home) == Some(c);
                    assert(entries[i] == init[i]);
                } else {
                    assert(candidate(entries[last], home) == Some(c));
                }
            }
            if exists|i: int|
                0 <= i < entries.len() && candidate(#[trigger] entries[i], home) == Some(c) {
                let i = choose|i: int|
                    0 <= i < entries.len() && candidate(#[trigger] entries[i], home) == Some(c);
                if i < last {
                    assert(init[i] == entries[i]);
                    assert(before.contains(c));
                    let k = choose|k: int| 0 <= k < before.len() && before[k] == c;
                    assert(catalog(entries, home)[k] == c);
                } else {
                    assert(catalog(entries, home)[before.len() as int] == c);
                }
            }
        }
    }
}

/// Every path in the catalog is relative: it does not start with `/`, and it
/// is the end of the path of an entry that is a regular file and an image.
pub proof fn lemma_catalog_paths_are_relative(entries: Seq<EntryText>, home: Seq<char>)
    ensures
        forall|c: Seq<char>| #[trigger]
            catalog(entries, home).contains(c) ==> {
                &&& c.len() > 0 ==> c[0] != '/'
                &&& exists|i: int|
                    0 <= i < entries.len() && (#[trigger] entries[i]).is_file && is_image(
                        entries[i].path,
                    ) && c.is_suffix_of(entries[i].path)
            },
{
    lemma_catalog_members(entries, home);
    assert forall|c: Seq<char>| #[trigger] catalog(entries, home).contains(c) implies {
        &&& c.len() > 0 ==> c[0] != '/'
        &&& exists|i: int|
            0 <= i < entries.len() && (#[trigger] entries[i]).is_file && is_image(
                entries[i].path,
            ) && c.is_suffix_of(entries[i].path)
    } by {
        let i = choose|i: int|
            0 <= i < entries.len() && candidate(#[trigger] entries[i], home) == Some(c);
        lemma_home_relative_is_relative(entries[i].path, home);
    }
}

/// Where every entry is a regular file and an image under the home
/// directory, the catalog names them all, one for one and in their order.
pub proof fn lemma_catalog_of_images(entries: Seq<EntryText>, home: Seq<char>)
    requires
        forall|i: int| 0 <= i < entries.len() ==> candidate(#[trigger] entries[i], home) is Some,
    ensures
        catalog(entries, home).len() == entries.len(),
        forall|i: int|
            0 <= i < entries.len() ==> candidate(#[trigger] entries[i], home) == Some(
                catalog(entries, home)[i],
            ),
    decreases entries.len(),
{
    if entries.len() > 0 {
        let init = entries.drop_last();
        assert forall|i: int| 0 <= i < init.len() implies candidate(
            #[trigger] init[i],
            home,
        ) is Some by {
            assert(init[i] == entries[i]);
        }
        lemma_catalog_of_images(init, home);
        assert forall|i: int| 0 <= i < entries.len() implies candidate(
            #[trigger] entries[i],
            home,
        ) == Some(catalog(entries, home)[i]) by {
            if i < init.len() {
                assert(init[i] == entries[i]);
            }
        }
    }
}

/// Where no entry is both a regular file and an image, the catalog is empty.
pub proof fn lemma_catalog_without_images(entries: Seq<EntryText>, home: Seq<char>)
    requires
        forall|i: int|
            0 <= i < entries.len() ==> !((#[trigger] entries[i]).is_file && is_image(
                entries[i].path,
            )),
    ensures
        catalog(entries, home).len() == 0,
    decreases entries.len(),
{
    if entries.len() > 0 {
        let init = entries.drop_last();
        assert forall|i: int| 0 <= i < init.len() implies !((#[trigger] init[i]).is_file
            && is_image(init[i].path)) by {
            assert(init[i] == entries[i]);
        }
        lemma_catalog_without_images(init, home);
    }
}

/// Whether the path names an image.
pub fn has_image_extension(path: &[char]) -> (image: bool)
    ensures
        image == is_image(path@),
{
    match extension_start(path) {
        Some(at) => {
            reads_from(path, at, "jpeg") || reads_from(path, at, "jpg") || reads_from(
                path,
                at,
                "png",
            ) || reads_from(path, at, "gif") || reads_from(path, at, "bmp") || reads_from(
                path,
                at,
                "ico",
            ) || reads_from(path, at, "webp") || reads_from(path, at, "tiff") || reads_from(
                path,
                at,
                "pnm",
            ) || reads_from(path, at, "dds") || reads_from(path, at, "tga") || reads_from(
                path,
                at,
                "farbfeld",
            )
        },
        None => false,
    }
}

/// Builds the catalog of a directory from its entries.
///
/// `entries` holds each entry of the directory, in the order in which the
/// directory was read, and `home` the home directory. An entry stays if it
/// is a regular file, is an image and lies under the home directory; it is
/// then named by its path relative to the home directory. Every other entry
/// is passed over, a directory with an image's name too. The order of the
/// entries is kept, and nothing is removed for occurring twice.
///
/// The paths of the entries are taken as they are written, so they are
/// expected as the file system gives them for a directory whose own path is
/// canonical. The home directory may be written with empty components, with
/// `.` and with a `/` at its end.
pub fn load_list_of_images(entries: &Vec<Entry>, home: &str) -> (images: Vec<String>)
    ensures
        images.deep_view() == catalog(entries.deep_view(), home@),
{
    let home_chars = chars_of(home);
    let mut images: Vec<String> = Vec::new();
    let mut i: usize = 0;
    assert(images.deep_view() =~= catalog(entries.deep_view().take(0), home@));
    while i < entries.len()
        invariant
            i <= entries.len(),
            home_chars@ == home@,
            images.deep_view() == catalog(entries.deep_view().take(i as int), home@),
        decreases entries.len() - i,
    {
        let ghost before = images.deep_view();
        proof {
            let upto = entries.deep_view().take(i + 1);
            assert(upto.drop_last() =~= entries.deep_view().take(i as int));
            assert(upto.last() == entries@[i as int].deep_view());
        }
        if entries[i].is_file {
            let path = chars_of(entries[i].path.as_str());
            if has_image_extension(path.as_slice()) {
                match relative_to_home(path.as_slice(), home_chars.as_slice()) {
                    Some(rel) => {
                        let name = string_of(rel.as_slice());
                        images.push(name);
                        assert(images.deep_view() =~= before.push(rel@));
                    },
                    None => {},
                }
            }
        }
        i += 1;
    }
    assert(entries.deep_view().take(entries@.len() as int) =~= entries.deep_view());
    images
}

} // verus!
