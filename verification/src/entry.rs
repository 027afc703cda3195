//! What a directory holds, as whoever lists it reports it.

use vstd::prelude::*;

verus! {

/// What kind of thing a path names.
#[derive(Clone, Copy, Debug, PartialEq, Eq, Structural)]
pub enum EntryKind {
    /// A regular file.
    File,
    /// A directory.
    Directory,
    /// A symbolic link, whatever it points to.
    Symlink,
    /// Anything else: a device, a socket, a pipe.
    Other,
}

/// One entry of a directory: its path and its kind.
#[derive(Clone, Debug, PartialEq, Eq)]
pub struct PathEntry {
    pub path: String,
    pub kind: EntryKind,
}

/// A [`PathEntry`] as contracts see it.
pub struct EntryView {
    pub path: Seq<char>,
    pub kind: EntryKind,
}

impl View for PathEntry {
    type V = EntryView;

    open spec fn view(&self) -> EntryView {
        EntryView { path: self.path@, kind: self.kind }
    }
}

/// What listing one directory gave: its entries in the order in which they
/// were read. Where reading failed, `complete` is false and `entries` holds
/// what was read before the failure, which is nothing if the directory could
/// not be opened at all.
#[derive(Clone, Debug, PartialEq, Eq)]
pub struct Listing {
    pub entries: Vec<PathEntry>,
    pub complete: bool,
}

/// A [`Listing`] as contracts see it.
pub struct ListingView {
    pub entries: Seq<EntryView>,
    pub complete: bool,
}

impl View for Listing {
    type V = ListingView;

    open spec fn view(&self) -> ListingView {
        ListingView {
            entries: self.entries@.map_values(|e: PathEntry| e@),
            complete: self.complete,
        }
    }
}

/// Why a walk gave up.
#[derive(Clone, Debug, PartialEq, Eq)]
pub enum WalkError {
    /// The directory `dir` could not be read, or not to its end.
    Io { dir: String },
    /// `path` names something that is neither a regular file, nor a
    /// directory, nor a symbolic link.
    UnsupportedEntryKind { path: String },
}

/// A [`WalkError`] as contracts see it.
pub enum Failure {
    Io { dir: Seq<char> },
    UnsupportedEntryKind { path: Seq<char> },
}

impl View for WalkError {
    type V = Failure;

    open spec fn view(&self) -> Failure {
        match self {
            WalkError::Io { dir } => Failure::Io { dir: dir@ },
            WalkError::UnsupportedEntryKind { path } => Failure::UnsupportedEntryKind {
                path: path@,
            },
        }
    }
}

/// The outcome of a walk as contracts see it.
pub open spec fn outcome_view(outcome: Result<Vec<String>, WalkError>) -> Result<
    Seq<Seq<char>>,
    Failure,
> {
    match outcome {
        Ok(files) => Ok(files.deep_view()),
        Err(e) => Err(e@),
    }
}

} // verus!
