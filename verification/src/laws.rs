//! What holds of every walk and of every filter.

use vstd::prelude::*;
use crate::filter::{admits, extension, is_extension_dot, lemma_extension_dot_unique};
use crate::filter::{asked_extensions, configured, extension_flag};
use crate::entry::Failure;
use crate::tree::TreeView;
use crate::tree::{collect, gather, holds_file, in_turn};

verus! {

/// Whether `tree` holds the regular file `path` in an entry at or after the
/// place `from` of its listing. For a file the place does not count.
pub open spec fn holds_file_from(tree: TreeView, from: int, path: Seq<char>) -> bool {
    match tree {
        TreeView::File { path: p } => p == path,
        TreeView::Directory { entries, .. } => exists|i: int|
            from <= i < entries.len() && holds_file(#[trigger] entries[i], path),
        _ => false,
    }
}

/// To hold a file from the first place on is to hold it.
pub proof fn lemma_holds_from_start(tree: TreeView, path: Seq<char>)
    ensures
        holds_file_from(tree, 0, path) == holds_file(tree, path),
{
    match tree {
        TreeView::Directory { entries, .. } => {
            if holds_file(tree, path) {
                let i = choose|i: int|
                    0 <= i < entries.len() && holds_file(#[trigger] entries[i], path);
                assert(holds_file(entries[i], path));
            }
            if holds_file_from(tree, 0, path) {
                let i = choose|i: int|
                    0 <= i < entries.len() && holds_file(#[trigger] entries[i], path);
                assert(holds_file(entries[i], path));
            }
        },
        _ => {},
    }
}

/// Where going through a tree from the place `from` on succeeds, it yields
/// the files that the tree holds from there on and that the filter admits,
/// and no others.
pub proof fn lemma_gather_exact(
    tree: TreeView,
    from: int,
    filter: Option<Seq<Seq<char>>>,
    path: Seq<char>,
)
    requires
        0 <= from,
        gather(tree, from, filter) is Ok,
    ensures
        gather(tree, from, filter)->Ok_0.contains(path) <==> holds_file_from(tree, from, path)
            && admits(filter, path),
    decreases tree, (if tree is Directory { tree->entries.len() - from } else { 0 }),
{
    match tree {
        TreeView::File { path: p } => {
            if admits(filter, p) {
                assert(seq![p][0] == p);
            }
        },
        TreeView::Directory { entries, .. } => {
            if from < entries.len() {
                let first = gather(entries[from], 0, filter);
                let rest = gather(tree, from + 1, filter);
                assert(gather(tree, from, filter) == in_turn(first, rest));
                let a = first->Ok_0;
                let b = rest->Ok_0;
                lemma_gather_exact(entries[from], 0, filter, path);
                lemma_gather_exact(tree, from + 1, filter, path);
                lemma_holds_from_start(entries[from], path);
                if (a + b).contains(path) {
                    let k = choose|k: int| 0 <= k < (a + b).len() && (a + b)[k] == path;
                    if k < a.len() {
                        assert(a[k] == path);
                    } else {
                        assert(b[k - a.len()] == path);
                    }
                }
                if a.contains(path) {
                    let k = choose|k: int| 0 <= k < a.len() && a[k] == path;
                    assert((a + b)[k] == path);
                }
                if b.contains(path) {
                    let k = choose|k: int| 0 <= k < b.len() && b[k] == path;
                    assert((a + b)[a.len() + k] == path);
                }
                if holds_file_from(tree, from, path) {
                    let i = choose|i: int|
                        from <= i < entries.len() && holds_file(#[trigger] entries[i], path);
                    if i > from {
                        assert(holds_file_from(tree, from + 1, path));
                    }
                }
            }
        },
        _ => {},
    }
}

/// The files that a walk yields are the regular files that the tree holds
/// and the filter admits, and no others. Only directories are descended
/// into, so what lies behind a symbolic link is not among them.
pub proof fn lemma_collect_exact(root: TreeView, filter: Option<Seq<Seq<char>>>, path: Seq<char>)
    requires
        collect(root, filter) is Ok,
    ensures
        collect(root, filter)->Ok_0.contains(path) <==> holds_file(root, path) && admits(
            filter,
            path,
        ),
{
    lemma_gather_exact(root, 0, filter, path);
    lemma_holds_from_start(root, path);
}

/// Without a filter a walk yields every regular file that the tree holds,
/// whatever its extension and whether it has one.
pub proof fn lemma_no_filter_keeps_all(root: TreeView, path: Seq<char>)
    requires
        collect(root, None) is Ok,
        holds_file(root, path),
    ensures
        collect(root, None)->Ok_0.contains(path),
{
    lemma_collect_exact(root, None, path);
}

/// A directory with its listing.
pub open spec fn directory(path: Seq<char>, entries: Seq<TreeView>, complete: bool) -> TreeView {
    TreeView::Directory { path, entries, complete }
}

/// Going through a listing from some place on, with or without a symbolic
/// link at the place `at`, yields the same.
proof fn lemma_symlink_passed(
    path: Seq<char>,
    entries: Seq<TreeView>,
    complete: bool,
    at: int,
    from: int,
    filter: Option<Seq<Seq<char>>>,
)
    requires
        0 <= at < entries.len(),
        entries[at] is Symlink,
        0 <= from,
    ensures
        gather(directory(path, entries, complete), from, filter) == gather(
            directory(path, entries.remove(at), complete),
            if from <= at {
                from
            } else {
                from - 1
            },
            filter,
        ),
    decreases entries.len() - from,
{
    let with = directory(path, entries, complete);
    let without = directory(path, entries.remove(at), complete);
    if from < entries.len() {
        lemma_symlink_passed(path, entries, complete, at, from + 1, filter);
        if from == at {
            let rest = gather(with, from + 1, filter);
            assert(gather(entries[from], 0, filter) == Ok::<Seq<Seq<char>>, Failure>(Seq::empty()));
            assert(gather(with, from, filter) == in_turn(Ok(Seq::empty()), rest));
            if rest is Ok {
                assert(Seq::<Seq<char>>::empty() + rest->Ok_0 =~= rest->Ok_0);
            }
        } else if from < at {
            assert(entries.remove(at)[from] == entries[from]);
        } else {
            assert(entries.remove(at)[from - 1] == entries[from]);
        }
    }
}

/// A symbolic link changes nothing: a directory yields the same with the
/// link among its entries as without it, whatever the link is called and
/// wherever it stands.
pub proof fn lemma_symlink_ignored(
    path: Seq<char>,
    entries: Seq<TreeView>,
    complete: bool,
    at: int,
    filter: Option<Seq<Seq<char>>>,
)
    requires
        0 <= at < entries.len(),
        entries[at] is Symlink,
    ensures
        collect(directory(path, entries, complete), filter) == collect(
            directory(path, entries.remove(at), complete),
            filter,
        ),
{
    lemma_symlink_passed(path, entries, complete, at, 0, filter);
}

/// Going through a listing from some place on yields the same when one
/// entry gives way to another that yields the same.
proof fn lemma_part_replaced(
    path: Seq<char>,
    entries: Seq<TreeView>,
    complete: bool,
    at: int,
    other: TreeView,
    from: int,
    filter: Option<Seq<Seq<char>>>,
)
    requires
        0 <= at < entries.len(),
        gather(entries[at], 0, filter) == gather(other, 0, filter),
        0 <= from,
    ensures
        gather(directory(path, entries, complete), from, filter) == gather(
            directory(path, entries.update(at, other), complete),
            from,
            filter,
        ),
    decreases entries.len() - from,
{
    if from < entries.len() {
        lemma_part_replaced(path, entries, complete, at, other, from + 1, filter);
        if from != at {
            assert(entries.update(at, other)[from] == entries[from]);
        }
    }
}

/// What a directory yields depends on an entry only through what the entry
/// yields: with the entry replaced by any tree that yields the same, the
/// directory yields the same. Level by level, this carries
/// [`lemma_symlink_ignored`] to a link at any depth.
pub proof fn lemma_same_parts_same_whole(
    path: Seq<char>,
    entries: Seq<TreeView>,
    complete: bool,
    at: int,
    other: TreeView,
    filter: Option<Seq<Seq<char>>>,
)
    requires
        0 <= at < entries.len(),
        gather(entries[at], 0, filter) == gather(other, 0, filter),
    ensures
        gather(directory(path, entries, complete), 0, filter) == gather(
            directory(path, entries.update(at, other), complete),
            0,
            filter,
        ),
{
    lemma_part_replaced(path, entries, complete, at, other, 0, filter);
}

/// Whether `path` ends with `suffix`.
pub open spec fn ends_with(path: Seq<char>, suffix: Seq<char>) -> bool {
    suffix.len() <= path.len() && path.skip(path.len() - suffix.len()) == suffix
}

/// A path with an extension ends with a dot and the extension.
pub proof fn lemma_extension_ends_path(path: Seq<char>)
    requires
        extension(path) is Some,
    ensures
        ends_with(path, seq!['.'] + extension(path)->0),
{
    let at = choose|at: int| is_extension_dot(path, at);
    let suffix = seq!['.'] + extension(path)->0;
    assert(path.skip(path.len() - suffix.len()) =~= suffix);
}

/// A path that ends with a dot and a word without `.` and `/` has the word
/// as its extension.
pub proof fn lemma_suffix_is_extension(path: Seq<char>, word: Seq<char>)
    requires
        forall|i: int| 0 <= i < word.len() ==> word[i] != '.' && word[i] != '/',
        ends_with(path, seq!['.'] + word),
    ensures
        extension(path) == Some(word),
{
    let suffix = seq!['.'] + word;
    let at = path.len() - suffix.len();
    let tail = path.skip(at);
    assert(path[at] == tail[0]);
    assert forall|j: int| at < j < path.len() implies path[j] != '.' && path[j] != '/' by {
        assert(path[j] == tail[j - at]);
        assert(suffix[j - at] == word[j - at - 1]);
    }
    assert(is_extension_dot(path, at));
    lemma_extension_dot_unique(path, at, choose|at: int| is_extension_dot(path, at));
    assert forall|k: int| 0 <= k < word.len() implies path.skip(at + 1)[k] == word[k] by {
        assert(path[at + 1 + k] == tail[k + 1]);
        assert(suffix[k + 1] == word[k]);
    }
    assert(path.skip(at + 1) =~= word);
}

/// The extension `md`.
pub open spec fn markdown() -> Seq<char> {
    seq!['m', 'd']
}

/// The filter that asks for `md` admits the paths that end with `.md`, and
/// no others.
pub proof fn lemma_markdown_filter(path: Seq<char>)
    ensures
        admits(Some(seq![markdown()]), path) <==> ends_with(path, seq!['.', 'm', 'd']),
{
    let wanted = seq![markdown()];
    assert(seq!['.'] + markdown() =~= seq!['.', 'm', 'd']);
    if ends_with(path, seq!['.', 'm', 'd']) {
        lemma_suffix_is_extension(path, markdown());
        assert(wanted[0] == markdown());
    }
    if admits(Some(wanted), path) {
        lemma_extension_ends_path(path);
    }
}

/// With a filter, every file that a walk yields ends with a dot and one of
/// the extensions asked for.
pub proof fn lemma_filter_keeps_only_asked(
    root: TreeView,
    extensions: Seq<Seq<char>>,
    path: Seq<char>,
)
    requires
        collect(root, Some(extensions)) is Ok,
        collect(root, Some(extensions))->Ok_0.contains(path),
    ensures
        exists|i: int|
            0 <= i < extensions.len() && ends_with(path, seq!['.'] + #[trigger] extensions[i]),
{
    lemma_collect_exact(root, Some(extensions), path);
    lemma_extension_ends_path(path);
    let e = extension(path)->0;
    let i = choose|i: int| 0 <= i < extensions.len() && extensions[i] == e;
    assert(ends_with(path, seq!['.'] + extensions[i]));
}

/// Whether the arguments ask for the extension `word` at the place `at`:
/// `-e` stands there and the word follows it.
pub open spec fn is_request(args: Seq<Seq<char>>, at: int, word: Seq<char>) -> bool {
    &&& 0 <= at
    &&& at + 1 < args.len()
    &&& args[at] == extension_flag()
    &&& args[at + 1] == word
}

/// The extensions asked for from the place `from` on are the words that a
/// `-e` announces at a place that an even number of arguments parts from
/// `from`, and no others.
pub proof fn lemma_asked_from(args: Seq<Seq<char>>, from: int, word: Seq<char>)
    requires
        0 <= from,
    ensures
        asked_extensions(args, from).contains(word) <==> exists|at: int|
            from <= at && (at - from) % 2 == 0 && #[trigger] is_request(args, at, word),
    decreases args.len() - from,
{
    if from + 1 < args.len() {
        let head = if args[from] == extension_flag() {
            seq![args[from + 1]]
        } else {
            Seq::empty()
        };
        let tail = asked_extensions(args, from + 2);
        assert(asked_extensions(args, from) =~= head + tail);
        lemma_asked_from(args, from + 2, word);
        if (head + tail).contains(word) {
            let k = choose|k: int| 0 <= k < (head + tail).len() && (head + tail)[k] == word;
            if k < head.len() {
                assert(is_request(args, from, word));
            } else {
                assert(tail[k - head.len()] == word);
                let at = choose|at: int|
                    from + 2 <= at && (at - (from + 2)) % 2 == 0 && #[trigger] is_request(
                        args,
                        at,
                        word,
                    );
                assert(is_request(args, at, word));
            }
        }
        if exists|at: int|
            from <= at && (at - from) % 2 == 0 && #[trigger] is_request(args, at, word) {
            let at = choose|at: int|
                from <= at && (at - from) % 2 == 0 && #[trigger] is_request(args, at, word);
            if at == from {
                assert((head + tail)[0] == word);
            } else {
                assert(is_request(args, at, word));
                assert(from + 2 <= at && (at - (from + 2)) % 2 == 0);
                let k = choose|k: int| 0 <= k < tail.len() && tail[k] == word;
                assert((head + tail)[head.len() + k] == word);
            }
        }
    }
}

/// The arguments of a program configure a filter where a `-e` stands at an
/// odd place with a word after it, the program's name standing at place 0.
/// The filter then holds the words so announced, and no others.
pub proof fn lemma_configured_exact(args: Seq<Seq<char>>, word: Seq<char>)
    ensures
        configured(args) is Some <==> exists|at: int, w: Seq<char>|
            at % 2 == 1 && #[trigger] is_request(args, at, w),
        configured(args) is Some ==> (configured(args)->0.contains(word) <==> exists|at: int|
            at % 2 == 1 && #[trigger] is_request(args, at, word)),
{
    let asked = asked_extensions(args, 1);
    lemma_asked_from(args, 1, word);
    if asked.contains(word) {
        let at = choose|at: int|
            1 <= at && (at - 1) % 2 == 0 && #[trigger] is_request(args, at, word);
        assert(at % 2 == 1 && is_request(args, at, word));
    }
    if exists|at: int| at % 2 == 1 && #[trigger] is_request(args, at, word) {
        let at = choose|at: int| at % 2 == 1 && #[trigger] is_request(args, at, word);
        assert(1 <= at && (at - 1) % 2 == 0 && is_request(args, at, word));
    }
    if asked.len() > 0 {
        let w = asked[0];
        lemma_asked_from(args, 1, w);
        let at = choose|at: int| 1 <= at && (at - 1) % 2 == 0 && #[trigger] is_request(args, at, w);
        assert(at % 2 == 1 && is_request(args, at, w));
    }
    if exists|at: int, w: Seq<char>| at % 2 == 1 && #[trigger] is_request(args, at, w) {
        let (at, w) = choose|at: int, w: Seq<char>|
            at % 2 == 1 && #[trigger] is_request(args, at, w);
        lemma_asked_from(args, 1, w);
        assert(1 <= at && (at - 1) % 2 == 0 && is_request(args, at, w));
        assert(asked.contains(w));
    }
}

} // verus!
