//! The choice of the next wallpaper: one candidate, drawn at random.

use rand::rngs::ThreadRng;
use rand::seq::IndexedRandom;
use vstd::prelude::*;

verus! {

/// The handle to the thread's random number generator, `rand::rngs::ThreadRng`.
/// Nothing is known of what it holds.
#[verifier::external_type_specification]
#[verifier::external_body]
pub struct ExThreadRng(ThreadRng);

/// `rand::rng` hands out the handle to the thread's generator. Nothing is
/// claimed of it. The generator is seeded from the operating system when a
/// thread first asks for it, and `rand` panics if that fails.
pub assume_specification[ rand::rng ]() -> (rng: ThreadRng)
;

/// `IndexedRandom::choose` on the slice of the candidates: it returns nothing
/// for an empty slice, and for any other a reference to one of its elements.
/// Which one depends on the generator; each is meant to be as likely as any
/// other, and nothing here says so.
#[verifier::external_body]
fn choose_from<'a>(images: &'a [String], rng: &mut ThreadRng) -> (picked: Option<&'a String>)
    ensures
        images@.len() == 0 ==> picked is None,
        images@.len() > 0 ==> picked is Some && images@.contains(*picked->0),
{
    images.choose(rng)
}

/// The image that a pick stands for: a copy of the candidate that was
/// picked, and none where none was.
pub fn picked_image(picked: Option<&String>) -> (image: Option<String>)
    ensures
        match picked {
            Some(candidate) => image is Some && image->0@ == candidate@,
            None => image is None,
        },
{
    match picked {
        Some(candidate) => Some(candidate.clone()),
        None => None,
    }
}

/// Picks one of the candidates at random.
///
/// There is no pick from an empty catalog. From any other, one of its
/// candidates is returned; calls do not remember each other, so the same
/// candidate may come twice in a row.
///
/// # Panics
///
/// The draw comes from the thread's generator of `rand`, which the operating
/// system seeds. If the system gives no entropy, when the generator is first
/// asked for or when it reseeds itself, `rand` panics, and so does this
/// function.
pub fn select_random_wallpaper(images: &Vec<String>) -> (image: Option<String>)
    ensures
        image is None <==> images@.len() == 0,
        image matches Some(chosen) ==> images.deep_view().contains(chosen@),
{
    let mut rng = rand::rng();
    let picked = choose_from(images.as_slice(), &mut rng);
    proof {
        if let Some(candidate) = picked {
            let i = choose|i: int| 0 <= i < images@.len() && images@[i] == *candidate;
            assert(images.deep_view()[i] == candidate@);
        }
    }
    picked_image(picked)
}

} // verus!
