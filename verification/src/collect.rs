//! The walk of a tree held in memory.

use vstd::prelude::*;
use crate::entry::outcome_view;
use crate::entry::{Failure, WalkError};
use crate::filter::admits;
use crate::tree::{Tree, TreeView};
use crate::tree::{collect, gather, in_turn, lemma_view_of_directory};
use crate::walk::{Pending, Walk, WalkView};

verus! {

/// The walk `walk` after one part of it yielded `part`: it goes on with the
/// files of the part added to what it found, or gives up as the part did.
pub open spec fn resume(walk: WalkView, part: Result<Seq<Seq<char>>, Failure>) -> WalkView {
    match part {
        Ok(files) => WalkView { found: walk.found + files, ..walk }.settle(),
        Err(e) => walk.failed(e),
    }
}

/// Answers the walk's wish for the listing of `dir`, and every wish that
/// follows for a directory under `dir`, from the tree. A walk that gave up
/// has no more wishes.
fn answer(walk: &mut Walk, dir: &Tree)
    requires
        dir@ is Directory,
        old(walk)@.awaited() == Some(dir@.path()),
    ensures
        final(walk)@ == resume(old(walk)@.passed(), gather(dir@, 0, old(walk)@.filter)),
    decreases dir,
{
    let ghost before = walk@;
    let ghost filter = before.filter;
    let ghost rest = before.passed();
    let ghost goal = resume(rest, gather(dir@, 0, filter));
    let ghost listed = WalkView::listed(dir@.path(), dir@.listing());
    walk.feed(dir.listing());
    match dir {
        Tree::Directory { entries, .. } => {
            let ghost mut cur = WalkView { pending: listed + rest.pending, ..before };
            let mut i: usize = 0;
            proof {
                lemma_view_of_directory(*dir);
            }
            assert(listed.skip(0) =~= listed);
            assert(rest.found + Seq::<Seq<char>>::empty() =~= rest.found);
            while i < entries.len()
                invariant
                    i <= entries.len(),
                    dir is Directory,
                    dir->entries == *entries,
                    dir@ is Directory,
                    dir@->entries.len() == entries.len(),
                    forall|j: int| 0 <= j < entries.len() ==> dir@->entries[j] == (#[trigger] entries[j])@,
                    listed == WalkView::listed(dir@.path(), dir@.listing()),
                    rest.failure is None,
                    rest.filter == filter,
                    walk@ == cur.settle(),
                    cur.filter == filter,
                    cur.failure is None ==> cur.pending == listed.skip(i as int) + rest.pending,
                    cur.failure is None ==> goal == resume(
                        WalkView { found: cur.found, ..rest },
                        gather(dir@, i as int, filter),
                    ),
                    cur.failure is Some ==> goal == cur,
                decreases entries.len() - i,
            {
                let child = &entries[i];
                let ghost part = gather(child@, 0, filter);
                let ghost after = gather(dir@, i + 1, filter);
                let ghost was = cur;
                proof {
                    assert(gather(dir@, i as int, filter) == in_turn(part, after));
                    if cur.failure is None {
                        assert(cur.pending[0] == listed[i as int]);
                        assert(listed[i as int] == Pending::Entry(child@.entry()));
                        assert(cur.passed().pending =~= listed.skip(i + 1) + rest.pending);
                    }
                }
                match child {
                    Tree::Directory { .. } => {
                        if walk.wanted().is_some() {
                            answer(walk, child);
                            proof {
                                cur =
                                match part {
                                    Ok(files) => WalkView {
                                        found: was.found + files,
                                        ..was.passed()
                                    },
                                    Err(e) => was.passed().failed(e),
                                };
                            }
                        }
                    },
                    Tree::Symlink { .. } => {
                        proof {
                            if cur.failure is None {
                                cur = was.passed();
                                assert(cur.found + Seq::<Seq<char>>::empty() =~= cur.found);
                            }
                        }
                    },
                    Tree::File { path } => {
                        proof {
                            if cur.failure is None {
                                if admits(filter, path@) {
                                    cur = was.passed().kept(path@);
                                    assert(cur.found =~= was.found + seq![path@]);
                                } else {
                                    cur = was.passed();
                                    assert(cur.found + Seq::<Seq<char>>::empty() =~= cur.found);
                                }
                            }
                        }
                    },
                    Tree::Other { path } => {
                        proof {
                            if cur.failure is None {
                                cur = was.failed(Failure::UnsupportedEntryKind { path: path@ });
                            }
                        }
                    },
                }
                proof {
                    if was.failure is None {
                        match part {
                            Ok(files) => {
                                match after {
                                    Ok(more) => {
                                        assert(was.found + (files + more) =~= (was.found + files)
                                            + more);
                                    },
                                    Err(_) => {},
                                }
                            },
                            Err(_) => {},
                        }
                    }
                }
                i += 1;
            }
            proof {
                if cur.failure is None {
                    assert(listed.skip(i as int) =~= if dir@.listing().complete {
                        Seq::<Pending>::empty()
                    } else {
                        seq![Pending::Broken { dir: dir@.path() }]
                    });
                    if dir@.listing().complete {
                        assert(cur.pending =~= rest.pending);
                        assert(cur.found + Seq::<Seq<char>>::empty() =~= cur.found);
                    } else {
                        assert(cur.pending[0] == Pending::Broken { dir: dir@.path() });
                    }
                }
            }
        },
        _ => {},
    }
}

/// Walks the tree `root` and gives the files under it that the filter admits,
/// in the order in which the listings of the tree give them, or the first
/// failure that the walk meets.
pub fn get_files(root: &Tree, allowd_extensions: &Option<Vec<String>>) -> (files: Result<
    Vec<String>,
    WalkError,
>)
    ensures
        outcome_view(files) == collect(root@, allowd_extensions.deep_view()),
{
    let mut walk = Walk::new(root.path().clone(), allowd_extensions);
    match root {
        Tree::Directory { .. } => {
            answer(&mut walk, root);
        },
        _ => {
            walk.feed(root.listing());
        },
    }
    walk.finish()
}

} // verus!
