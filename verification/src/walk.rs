//! A walk of a directory tree, one listing at a time.
//!
//! The walk reads nothing itself. It says which directory it wants listed
//! next, takes the listing, and goes through the entries in their order:
//! files are kept or passed over, symbolic links are passed over, and the next
//! directory that comes up is the one it wants listed next. The entries of a
//! directory are gone through before the entries that follow the directory
//! in its parent's listing.

use vstd::prelude::*;
use crate::entry::{EntryKind, EntryView, Failure, Listing, ListingView, PathEntry, WalkError};
use crate::entry::outcome_view;
use crate::filter::{admits, is_admitted};

verus! {

/// One thing that a walk has still before it.
pub enum Pending {
    /// An entry that was listed and not looked at yet.
    Entry(EntryView),
    /// The place where the listing of the directory `dir` broke off.
    Broken { dir: Seq<char> },
}

/// The state of a walk as contracts see it.
pub struct WalkView {
    /// The extensions that are wanted, if only some are.
    pub filter: Option<Seq<Seq<char>>>,
    /// What is still to be gone through, the next thing first.
    pub pending: Seq<Pending>,
    /// The files kept so far, in the order in which they were met.
    pub found: Seq<Seq<char>>,
    /// Why the walk gave up, if it did.
    pub failure: Option<Failure>,
}

impl WalkView {
    /// The walk of the directory `root` before anything was listed.
    pub open spec fn start(root: Seq<char>, filter: Option<Seq<Seq<char>>>) -> WalkView {
        WalkView {
            filter,
            pending: seq![Pending::Entry(EntryView { path: root, kind: EntryKind::Directory })],
            found: Seq::empty(),
            failure: None,
        }
    }

    /// The walk after it gave up for the reason `e`: nothing is pending and
    /// what was found is dropped.
    pub open spec fn failed(self, e: Failure) -> WalkView {
        WalkView { filter: self.filter, pending: Seq::empty(), found: Seq::empty(), failure: Some(e) }
    }

    /// The walk with the first pending thing taken off.
    pub open spec fn passed(self) -> WalkView {
        WalkView { pending: self.pending.drop_first(), ..self }
    }

    /// The walk with `path` added to what was found.
    pub open spec fn kept(self, path: Seq<char>) -> WalkView {
        WalkView { found: self.found.push(path), ..self }
    }

    /// The directory whose listing the walk waits for, if it waits for one.
    pub open spec fn awaited(self) -> Option<Seq<char>> {
        if self.failure is None && self.pending.len() > 0 {
            match self.pending[0] {
                Pending::Entry(e) => if e.kind == EntryKind::Directory {
                    Some(e.path)
                } else {
                    None
                },
                Pending::Broken { .. } => None,
            }
        } else {
            None
        }
    }

    /// The walk after it went through what is pending up to the next
    /// directory: files that the filter admits are kept, other files and
    /// symbolic links are passed over, and anything else, or the place where
    /// a listing broke off, makes the walk give up.
    pub open spec fn settle(self) -> WalkView
        decreases self.pending.len(),
    {
        if self.failure is Some || self.pending.len() == 0 {
            self
        } else {
            match self.pending[0] {
                Pending::Broken { dir } => self.failed(Failure::Io { dir }),
                Pending::Entry(e) => match e.kind {
                    EntryKind::Directory => self,
                    EntryKind::Symlink => self.passed().settle(),
                    EntryKind::File => if admits(self.filter, e.path) {
                        self.passed().kept(e.path).settle()
                    } else {
                        self.passed().settle()
                    },
                    EntryKind::Other => self.failed(Failure::UnsupportedEntryKind { path: e.path }),
                },
            }
        }
    }

    /// What a listing puts before a walk: its entries in their order and,
    /// where it is not complete, the mark that the listing of `dir` broke off.
    pub open spec fn listed(dir: Seq<char>, listing: ListingView) -> Seq<Pending> {
        listing.entries.map_values(|e: EntryView| Pending::Entry(e)) + if listing.complete {
            Seq::<Pending>::empty()
        } else {
            seq![Pending::Broken { dir }]
        }
    }

    /// The walk after it was given `listing` for the directory it waits for.
    /// A walk that waits for none stays as it is.
    pub open spec fn feed(self, listing: ListingView) -> WalkView {
        match self.awaited() {
            None => self,
            Some(dir) => WalkView {
                pending: Self::listed(dir, listing) + self.pending.drop_first(),
                ..self
            }.settle(),
        }
    }

    /// Whether the walk is at rest: it gave up and holds nothing, or nothing
    /// is pending, or it waits for a directory.
    pub open spec fn at_rest(self) -> bool {
        if self.failure is Some {
            self.pending.len() == 0 && self.found.len() == 0
        } else {
            self.pending.len() == 0 || self.awaited() is Some
        }
    }

    /// How the walk ends if nothing more is listed: with the reason for which
    /// it gave up; with a failure to read the directory it still waits for;
    /// else with what it found.
    pub open spec fn outcome(self) -> Result<Seq<Seq<char>>, Failure> {
        match self.failure {
            Some(e) => Err(e),
            None => match self.awaited() {
                Some(dir) => Err(Failure::Io { dir }),
                None => Ok(self.found),
            },
        }
    }
}

/// A walk that did not give up is at rest once it went through what is
/// pending up to the next directory.
pub proof fn lemma_settle_rests(walk: WalkView)
    requires
        walk.failure is None,
    ensures
        walk.settle().at_rest(),
    decreases walk.pending.len(),
{
    if walk.pending.len() > 0 {
        match walk.pending[0] {
            Pending::Entry(e) => match e.kind {
                EntryKind::Symlink => lemma_settle_rests(walk.passed()),
                EntryKind::File => if admits(walk.filter, e.path) {
                    lemma_settle_rests(walk.passed().kept(e.path))
                } else {
                    lemma_settle_rests(walk.passed())
                },
                _ => {},
            },
            _ => {},
        }
    }
}

/// A walk is at rest when it begins and stays so with every listing. One
/// that is at rest and waits for no directory has ended: with its failure,
/// or with what it found.
pub proof fn lemma_walk_rests(
    root: Seq<char>,
    filter: Option<Seq<Seq<char>>>,
    walk: WalkView,
    listing: ListingView,
)
    requires
        walk.at_rest(),
    ensures
        WalkView::start(root, filter).at_rest(),
        walk.feed(listing).at_rest(),
        walk.awaited() is None ==> walk.outcome() == match walk.failure {
            Some(e) => Err::<Seq<Seq<char>>, Failure>(e),
            None => Ok::<Seq<Seq<char>>, Failure>(walk.found),
        },
        walk.awaited() is None ==> walk.pending.len() == 0,
{
    match walk.awaited() {
        Some(dir) => {
            lemma_settle_rests(
                WalkView {
                    pending: WalkView::listed(dir, listing) + walk.pending.drop_first(),
                    ..walk
                },
            );
        },
        None => {},
    }
}

enum Item {
    Entry(PathEntry),
    Broken { dir: String },
}

impl View for Item {
    type V = Pending;

    closed spec fn view(&self) -> Pending {
        match self {
            Item::Entry(e) => Pending::Entry(e@),
            Item::Broken { dir } => Pending::Broken { dir: dir@ },
        }
    }
}

/// The entries of a listing as things pending, in their order.
spec fn as_pending(entries: Seq<PathEntry>) -> Seq<Pending> {
    entries.map_values(|e: PathEntry| Pending::Entry(e@))
}

/// A walk in progress.
pub struct Walk<'a> {
    filter: &'a Option<Vec<String>>,
    /// What is pending, the next thing last.
    stack: Vec<Item>,
    found: Vec<String>,
    failure: Option<WalkError>,
}

impl<'a> View for Walk<'a> {
    type V = WalkView;

    closed spec fn view(&self) -> WalkView {
        WalkView {
            filter: self.filter.deep_view(),
            pending: Seq::new(self.stack@.len(), |i: int| self.stack@[self.stack@.len() - 1 - i]@),
            found: self.found.deep_view(),
            failure: match self.failure {
                Some(e) => Some(e@),
                None => None,
            },
        }
    }
}

impl<'a> Walk<'a> {
    /// Begins the walk of the directory `root`, which waits for the listing of
    /// `root`.
    pub fn new(root: String, filter: &'a Option<Vec<String>>) -> (walk: Walk<'a>)
        ensures
            walk@ == WalkView::start(root@, filter.deep_view()),
    {
        let mut stack: Vec<Item> = Vec::new();
        stack.push(Item::Entry(PathEntry { path: root, kind: EntryKind::Directory }));
        let walk = Walk { filter, stack, found: Vec::new(), failure: None };
        assert(walk@.pending =~= WalkView::start(root@, filter.deep_view()).pending);
        assert(walk@.found =~= Seq::empty());
        walk
    }

    /// The directory that is to be listed next, if the walk waits for one.
    pub fn wanted(&self) -> (dir: Option<&String>)
        ensures
            dir.deep_view() == self@.awaited(),
    {
        if self.failure.is_some() || self.stack.len() == 0 {
            return None;
        }
        match &self.stack[self.stack.len() - 1] {
            Item::Entry(e) => match e.kind {
                EntryKind::Directory => Some(&e.path),
                _ => None,
            },
            Item::Broken { .. } => None,
        }
    }

    /// Takes the listing of the directory that the walk waits for, and goes
    /// on up to the next directory. A walk that waits for none ignores the
    /// listing.
    pub fn feed(&mut self, listing: Listing)
        ensures
            final(self)@ == old(self)@.feed(listing@),
    {
        if self.wanted().is_none() {
            return;
        }
        let ghost before = self@;
        match self.stack.pop() {
            Some(Item::Entry(awaited)) => {
                let Listing { entries, complete } = listing;
                let mut entries = entries;
                let ghost target = WalkView::listed(awaited.path@, listing@)
                    + before.pending.drop_first();
                if !complete {
                    self.stack.push(Item::Broken { dir: awaited.path });
                }
                assert(as_pending(entries@) + self@.pending =~= target);
                while entries.len() > 0
                    invariant
                        as_pending(entries@) + self@.pending =~= target,
                        self@.filter == before.filter,
                        self@.found == before.found,
                        self@.failure == before.failure,
                    decreases entries.len(),
                {
                    let ghost pending = self@.pending;
                    let ghost listed = entries@;
                    let last = entries.pop().unwrap();
                    self.stack.push(Item::Entry(last));
                    assert(self@.pending =~= seq![Pending::Entry(last@)] + pending);
                    assert(as_pending(listed) =~= as_pending(entries@) + seq![
                        Pending::Entry(last@),
                    ]);
                }
                assert(self@.pending =~= target);
                assert(self@ == WalkView { pending: target, ..before });
                self.settle();
            },
            _ => {},
        }
    }

    /// Goes through what is pending up to the next directory.
    fn settle(&mut self)
        ensures
            final(self)@ == old(self)@.settle(),
    {
        let ghost start = self@;
        loop
            invariant
                self@.settle() == start.settle(),
                start == old(self)@,
            decreases self.stack.len(),
        {
            if self.failure.is_some() {
                return;
            }
            let ghost now = self@;
            match self.stack.pop() {
                None => {
                    return;
                },
                Some(Item::Broken { dir }) => {
                    self.fail(WalkError::Io { dir });
                    assert(self@ == now.failed(Failure::Io { dir: dir@ }));
                    return;
                },
                Some(Item::Entry(e)) => {
                    assert(self@.pending =~= now.pending.drop_first());
                    assert(now.pending[0] == Pending::Entry(e@));
                    match e.kind {
                        EntryKind::Directory => {
                            self.stack.push(Item::Entry(e));
                            assert(self@.pending =~= now.pending);
                            return;
                        },
                        EntryKind::Symlink => {},
                        EntryKind::File => {
                            if is_admitted(self.filter, &e.path) {
                                self.found.push(e.path);
                                assert(self@.found =~= now.found.push(e.path@));
                            }
                        },
                        EntryKind::Other => {
                            self.fail(WalkError::UnsupportedEntryKind { path: e.path });
                            return;
                        },
                    }
                },
            }
        }
    }

    /// Gives up for the reason `e`.
    fn fail(&mut self, e: WalkError)
        ensures
            final(self)@ == old(self)@.failed(e@),
    {
        self.stack = Vec::new();
        self.found = Vec::new();
        self.failure = Some(e);
        assert(self@.pending =~= Seq::empty());
        assert(self@.found =~= Seq::empty());
    }

    /// Ends the walk. It gives what was found, or the reason for which the
    /// walk gave up. A directory that the walk still waits for counts as one
    /// that could not be read.
    pub fn finish(self) -> (outcome: Result<Vec<String>, WalkError>)
        ensures
            outcome_view(outcome) == self@.outcome(),
    {
        if self.failure.is_none() && self.stack.len() > 0 {
            let mut stack = self.stack;
            match stack.pop() {
                Some(Item::Entry(e)) => match e.kind {
                    EntryKind::Directory => {
                        return Err(WalkError::Io { dir: e.path });
                    },
                    _ => {},
                },
                _ => {},
            }
            return Ok(self.found);
        }
        match self.failure {
            Some(e) => Err(e),
            None => Ok(self.found),
        }
    }
}

} // verus!
