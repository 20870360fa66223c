//! What a run does, and which catalogs it draws from. The loop itself, the
//! prompt and the files belong to the program around this library.

use vstd::prelude::*;

verus! {

/// The catalogs that the wallpaper is drawn from.
#[derive(Clone, Copy, Debug, PartialEq, Eq, Structural)]
pub enum Pool {
    /// The still images alone.
    Images,
    /// The still images, then the animations.
    All,
    /// The animations alone.
    Animations,
}

/// What a run of the program does once the settings and the still images
/// are loaded.
#[derive(Clone, Copy, Debug, PartialEq, Eq, Structural)]
pub enum Run {
    /// Change the wallpaper once, to a still image, and stop.
    Once,
    /// Explain the settings file and stop.
    ConfigHelp,
    /// Change the wallpaper whenever asked, drawing from the pool.
    Rotate(Pool),
}

/// The candidates of a pool, given the catalog of the still images and that
/// of the animations.
pub open spec fn pooled(pool: Pool, images: Seq<Seq<char>>, animations: Seq<Seq<char>>) -> Seq<
    Seq<char>,
> {
    match pool {
        Pool::Images => images,
        Pool::All => images + animations,
        Pool::Animations => animations,
    }
}

impl Pool {
    /// The pool that the two switches ask for. Where both are set, `all`
    /// wins.
    pub fn from_switches(all: bool, no_static: bool) -> (pool: Pool)
        ensures
            all ==> pool == Pool::All,
            !all && no_static ==> pool == Pool::Animations,
            !all && !no_static ==> pool == Pool::Images,
    {
        if all {
            Pool::All
        } else if no_static {
            Pool::Animations
        } else {
            Pool::Images
        }
    }

    /// Whether the pool draws from the animations, so that their directory
    /// has to be read.
    pub fn needs_animations(self) -> (needed: bool)
        ensures
            needed == (self != Pool::Images),
    {
        match self {
            Pool::Images => false,
            Pool::All => true,
            Pool::Animations => true,
        }
    }
}

/// What the run does, given the four switches of the command line: `once`
/// goes before `config_help`, and both go before the rotation, whose pool
/// the other two switches name.
pub fn plan(once: bool, config_help: bool, all: bool, no_static: bool) -> (run: Run)
    ensures
        once ==> run == Run::Once,
        !once && config_help ==> run == Run::ConfigHelp,
        !once && !config_help && all ==> run == Run::Rotate(Pool::All),
        !once && !config_help && !all && no_static ==> run == Run::Rotate(Pool::Animations),
        !once && !config_help && !all && !no_static ==> run == Run::Rotate(Pool::Images),
{
    if once {
        Run::Once
    } else if config_help {
        Run::ConfigHelp
    } else {
        Run::Rotate(Pool::from_switches(all, no_static))
    }
}

/// Puts the candidates of a pool together from the two catalogs. For
/// [`Pool::Images`] the catalog of the animations is not looked at, and for
/// [`Pool::Animations`] that of the still images is not.
pub fn pool_candidates(pool: Pool, images: Vec<String>, animations: Vec<String>) -> (candidates:
    Vec<String>)
    ensures
        candidates.deep_view() == pooled(pool, images.deep_view(), animations.deep_view()),
{
    match pool {
        Pool::Images => images,
        Pool::Animations => animations,
        Pool::All => {
            let mut candidates = images;
            let mut rest = animations;
            candidates.append(&mut rest);
            assert(candidates.deep_view() =~= images.deep_view() + animations.deep_view());
            candidates
        },
    }
}

} // verus!
