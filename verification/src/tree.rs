//! Directory trees held in memory, and what a walk of one yields.

use vstd::prelude::*;
use crate::entry::{EntryKind, EntryView, Failure, Listing, ListingView, PathEntry};
use crate::filter::admits;

verus! {

/// A directory tree as a walk meets it.
#[derive(Debug, PartialEq, Eq)]
pub enum Tree {
    /// A regular file.
    File { path: String },
    /// A symbolic link. Where it points is no part of the tree.
    Symlink { path: String },
    /// Something that is neither file, directory nor symbolic link.
    Other { path: String },
    /// A directory with what listing it gives: `entries` in the order in
    /// which they are read. Where `complete` is false, reading fails after
    /// them.
    Directory { path: String, entries: Vec<Tree>, complete: bool },
}

/// A [`Tree`] as contracts see it.
pub enum TreeView {
    File { path: Seq<char> },
    Symlink { path: Seq<char> },
    Other { path: Seq<char> },
    Directory { path: Seq<char>, entries: Seq<TreeView>, complete: bool },
}

impl View for Tree {
    type V = TreeView;

    open spec fn view(&self) -> TreeView {
        tree_view(*self)
    }
}

/// The view of a tree: the same tree with each path as a sequence of
/// characters and each listing as a sequence of trees.
pub open spec fn tree_view(tree: Tree) -> TreeView
    decreases tree, 0nat,
{
    match tree {
        Tree::File { path } => TreeView::File { path: path@ },
        Tree::Symlink { path } => TreeView::Symlink { path: path@ },
        Tree::Other { path } => TreeView::Other { path: path@ },
        Tree::Directory { path, entries, complete } => TreeView::Directory {
            path: path@,
            entries: forest_view(entries, entries.len() as nat),
            complete,
        },
    }
}

/// The views of the first `count` trees of `entries`, in their order.
pub open spec fn forest_view(entries: Vec<Tree>, count: nat) -> Seq<TreeView>
    decreases entries, count,
{
    if count == 0 || count > entries.len() {
        Seq::empty()
    } else {
        forest_view(entries, (count - 1) as nat).push(tree_view(entries[count - 1]))
    }
}

/// The view of a forest holds the view of each of its trees at the tree's
/// place.
pub proof fn lemma_forest_view(entries: Vec<Tree>, count: nat)
    requires
        count <= entries.len(),
    ensures
        forest_view(entries, count).len() == count,
        forall|i: int| 0 <= i < count ==> forest_view(entries, count)[i] == (#[trigger] entries[i])@,
    decreases count,
{
    if count > 0 {
        lemma_forest_view(entries, (count - 1) as nat);
    }
}

impl Tree {
    /// The path of the tree's root.
    pub fn path(&self) -> (path: &String)
        ensures
            path@ == self@.path(),
    {
        match self {
            Tree::File { path } => path,
            Tree::Symlink { path } => path,
            Tree::Other { path } => path,
            Tree::Directory { path, .. } => path,
        }
    }

    /// The kind of the tree's root.
    pub fn kind(&self) -> (kind: EntryKind)
        ensures
            kind == self@.entry().kind,
    {
        match self {
            Tree::File { .. } => EntryKind::File,
            Tree::Symlink { .. } => EntryKind::Symlink,
            Tree::Other { .. } => EntryKind::Other,
            Tree::Directory { .. } => EntryKind::Directory,
        }
    }

    /// The root of the tree as an entry of the directory that holds it.
    pub fn entry(&self) -> (entry: PathEntry)
        ensures
            entry@ == self@.entry(),
    {
        PathEntry { path: self.path().clone(), kind: self.kind() }
    }

    /// What listing the tree's root gives.
    pub fn listing(&self) -> (listing: Listing)
        ensures
            listing@ == self@.listing(),
    {
        match self {
            Tree::Directory { entries, complete, .. } => {
                let mut listed: Vec<PathEntry> = Vec::new();
                let mut i: usize = 0;
                while i < entries.len()
                    invariant
                        i <= entries.len(),
                        listed@.len() == i,
                        forall|j: int| 0 <= j < i ==> listed@[j]@ == (#[trigger] entries@[j])@.entry(),
                    decreases entries.len() - i,
                {
                    listed.push(entries[i].entry());
                    i += 1;
                }
                let listing = Listing { entries: listed, complete: *complete };
                proof {
                    lemma_view_of_directory(*self);
                    assert forall|j: int| 0 <= j < entries.len() implies listing@.entries[j]
                        == self@.listing().entries[j] by {
                        assert(listed@[j]@ == entries@[j]@.entry());
                        assert(self@->entries[j] == entries[j]@);
                    }
                }
                assert(listing@.entries =~= self@.listing().entries);
                listing
            },
            _ => {
                let listing = Listing { entries: Vec::new(), complete: false };
                assert(listing@.entries =~= self@.listing().entries);
                listing
            },
        }
    }
}

/// The view of a directory holds the views of its entries, in their order.
pub proof fn lemma_view_of_directory(tree: Tree)
    requires
        tree is Directory,
    ensures
        tree@ is Directory,
        tree@.path() == tree->Directory_path@,
        tree@->complete == tree->complete,
        tree@->entries.len() == tree->entries.len(),
        forall|i: int| 0 <= i < tree->entries.len() ==> tree@->entries[i] == (#[trigger] tree->entries[i])@,
{
    lemma_forest_view(tree->entries, tree->entries.len() as nat);
}

impl TreeView {
    /// The path of the tree's root.
    pub open spec fn path(self) -> Seq<char> {
        match self {
            TreeView::File { path } => path,
            TreeView::Symlink { path } => path,
            TreeView::Other { path } => path,
            TreeView::Directory { path, .. } => path,
        }
    }

    /// The root of the tree as an entry of the directory that holds it.
    pub open spec fn entry(self) -> EntryView {
        EntryView {
            path: self.path(),
            kind: match self {
                TreeView::File { .. } => EntryKind::File,
                TreeView::Symlink { .. } => EntryKind::Symlink,
                TreeView::Other { .. } => EntryKind::Other,
                TreeView::Directory { .. } => EntryKind::Directory,
            },
        }
    }

    /// What listing the tree's root gives, if it is a directory. Anything
    /// else cannot be read as a directory.
    pub open spec fn listing(self) -> ListingView {
        match self {
            TreeView::Directory { entries, complete, .. } => ListingView {
                entries: entries.map_values(|t: TreeView| t.entry()),
                complete,
            },
            _ => ListingView { entries: Seq::empty(), complete: false },
        }
    }
}

/// Whether `tree` holds the regular file `path`: the tree is that file, or it
/// is a directory of which an entry holds the file. What a symbolic link
/// points to is not held.
pub open spec fn holds_file(tree: TreeView, path: Seq<char>) -> bool
    decreases tree,
{
    match tree {
        TreeView::File { path: p } => p == path,
        TreeView::Directory { entries, .. } => exists|i: int|
            0 <= i < entries.len() && holds_file(#[trigger] entries[i], path),
        _ => false,
    }
}

/// What two parts of a walk yield one after the other: the failure of the
/// first, else the failure of the second, else the files of both.
pub open spec fn in_turn(
    first: Result<Seq<Seq<char>>, Failure>,
    second: Result<Seq<Seq<char>>, Failure>,
) -> Result<Seq<Seq<char>>, Failure> {
    match first {
        Err(e) => Err(e),
        Ok(a) => match second {
            Err(e) => Err(e),
            Ok(b) => Ok(a + b),
        },
    }
}

/// What a walk yields for `tree` as an entry of a directory that it goes
/// through. For a directory, `from` is the place in its listing at which the
/// walk stands: the entries before it are left out. A file yields itself if
/// the filter admits it, a symbolic link yields nothing, and a directory
/// yields what its entries yield in turn. The walk fails at the first thing of
/// another kind, and at the end of a listing that is not complete.
pub open spec fn gather(tree: TreeView, from: int, filter: Option<Seq<Seq<char>>>) -> Result<
    Seq<Seq<char>>,
    Failure,
>
    decreases tree, (if tree is Directory { tree->entries.len() - from } else { 0 }),
{
    match tree {
        TreeView::File { path } => Ok(
            if admits(filter, path) {
                seq![path]
            } else {
                Seq::empty()
            },
        ),
        TreeView::Symlink { .. } => Ok(Seq::empty()),
        TreeView::Other { path } => Err(Failure::UnsupportedEntryKind { path }),
        TreeView::Directory { path, entries, complete } => if 0 <= from < entries.len() {
            in_turn(gather(entries[from], 0, filter), gather(tree, from + 1, filter))
        } else if complete {
            Ok(Seq::empty())
        } else {
            Err(Failure::Io { dir: path })
        },
    }
}

/// What the walk of the directory `root` yields: the files under it that the
/// filter admits, in the order in which the listings give them, or the first
/// failure. A root that is no directory cannot be listed.
pub open spec fn collect(root: TreeView, filter: Option<Seq<Seq<char>>>) -> Result<
    Seq<Seq<char>>,
    Failure,
> {
    if root is Directory {
        gather(root, 0, filter)
    } else {
        Err(Failure::Io { dir: root.path() })
    }
}

} // verus!
