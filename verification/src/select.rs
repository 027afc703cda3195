//! The draw of one file among those that a walk found.

use rand::rngs::ThreadRng;
use rand::seq::SliceRandom;
use vstd::prelude::*;
use crate::collect::get_files;
use crate::entry::{Failure, WalkError};
use crate::tree::{Tree, collect};

verus! {

/// The generator of random numbers that `rand` keeps for each thread.
#[verifier::external_type_specification]
#[verifier::external_body]
pub struct ExThreadRng(ThreadRng);

/// `rand::thread_rng` hands out the generator of the calling thread. Nothing
/// is claimed of it.
pub assume_specification[ rand::thread_rng ]() -> (rng: ThreadRng)
;

/// Draws with `rand::seq::SliceRandom::choose`. The contract claims what the
/// method documents: an empty list gives nothing, any other list gives a
/// reference to one of its elements. Which element is left open, and nothing
/// is claimed of how often each one comes.
#[verifier::external_body]
fn draw<'a>(files: &'a Vec<String>, rng: &mut ThreadRng) -> (chosen: Option<&'a String>)
    ensures
        files@.len() == 0 ==> chosen is None,
        files@.len() > 0 ==> chosen is Some && files@.contains(*chosen->0),
{
    files.choose(rng)
}

/// Whether `picked` is a draw from `files`: nothing where there are no files,
/// else one of them.
pub open spec fn is_draw(files: Seq<Seq<char>>, picked: Option<Seq<char>>) -> bool {
    match picked {
        None => files.len() == 0,
        Some(path) => files.contains(path),
    }
}

/// Draws one of `files` at random, each with the same chance. Without files
/// there is nothing to draw, which is no failure.
pub fn pick_one(files: Vec<String>) -> (picked: Option<String>)
    ensures
        is_draw(files.deep_view(), picked.deep_view()),
{
    let mut rng = rand::thread_rng();
    match draw(&files, &mut rng) {
        None => None,
        Some(path) => {
            proof {
                let i = choose|i: int| 0 <= i < files@.len() && files@[i] == *path;
                assert(files.deep_view()[i] == path@);
            }
            Some(path.clone())
        },
    }
}

/// Whether `picked` is what walking a tree and drawing among its files may
/// give, where `walked` is what the walk yields: the failure of the walk, or
/// a draw from the files it found.
pub open spec fn is_pick(
    walked: Result<Seq<Seq<char>>, Failure>,
    picked: Result<Option<Seq<char>>, Failure>,
) -> bool {
    match walked {
        Err(e) => picked == Err::<Option<Seq<char>>, Failure>(e),
        Ok(files) => match picked {
            Ok(drawn) => is_draw(files, drawn),
            Err(_) => false,
        },
    }
}

/// A pick as contracts see it.
pub open spec fn pick_view(picked: Result<Option<String>, WalkError>) -> Result<
    Option<Seq<char>>,
    Failure,
> {
    match picked {
        Ok(drawn) => Ok(drawn.deep_view()),
        Err(e) => Err(e@),
    }
}

/// Walks the tree `root` and draws one of the files under it that the filter
/// admits. A tree without such a file gives `Ok(None)`; a walk that fails
/// gives its failure.
pub fn random_pick(root: &Tree, filter: &Option<Vec<String>>) -> (picked: Result<
    Option<String>,
    WalkError,
>)
    ensures
        is_pick(collect(root@, filter.deep_view()), pick_view(picked)),
{
    match get_files(root, filter) {
        Ok(files) => Ok(pick_one(files)),
        Err(e) => Err(e),
    }
}

} // verus!
