//! File extensions, and the filter that admits files by them.

use vstd::prelude::*;
use vstd::string::*;

verus! {

/// Whether `at` is where the extension of `path` begins: the place of a `.`
/// after which the path holds neither another `.` nor a `/`, so that the dot
/// is the last one of the file's name.
pub open spec fn is_extension_dot(path: Seq<char>, at: int) -> bool {
    &&& 0 <= at < path.len()
    &&& path[at] == '.'
    &&& forall|j: int| at < j < path.len() ==> path[j] != '.' && path[j] != '/'
}

/// The extension of the file that `path` names: what follows the last `.` of
/// the file's name. A name without a `.` has none.
pub open spec fn extension(path: Seq<char>) -> Option<Seq<char>> {
    if exists|at: int| is_extension_dot(path, at) {
        Some(path.skip((choose|at: int| is_extension_dot(path, at)) + 1))
    } else {
        None
    }
}

/// A path has at most one place where its extension begins.
pub proof fn lemma_extension_dot_unique(path: Seq<char>, a: int, b: int)
    requires
        is_extension_dot(path, a),
        is_extension_dot(path, b),
    ensures
        a == b,
{
    if a < b {
        assert(path[b] != '.');
    } else if b < a {
        assert(path[a] != '.');
    }
}

/// Whether a filter admits the file that `path` names. No filter admits every
/// file; a set of extensions admits the files whose extension is in the set.
pub open spec fn admits(filter: Option<Seq<Seq<char>>>, path: Seq<char>) -> bool {
    match filter {
        None => true,
        Some(extensions) => match extension(path) {
            Some(e) => extensions.contains(e),
            None => false,
        },
    }
}

/// Computes the extension of the file that `path` names.
pub fn extension_of(path: &String) -> (r: Option<String>)
    ensures
        r.deep_view() == extension(path@),
{
    let s = path.as_str();
    let len = s.unicode_len();
    let mut i: usize = len;
    while i > 0
        invariant
            i <= len,
            len == path@.len(),
            s@ == path@,
            forall|j: int| i <= j < len ==> path@[j] != '.' && path@[j] != '/',
        decreases i,
    {
        let c = s.get_char(i - 1);
        if c == '.' {
            let tail = s.substring_char(i, len);
            proof {
                assert(is_extension_dot(path@, i - 1));
                let at = choose|at: int| is_extension_dot(path@, at);
                lemma_extension_dot_unique(path@, at, i - 1);
                assert(path@.skip(i as int) =~= path@.subrange(i as int, len as int));
            }
            return Some(tail.to_owned());
        }
        if c == '/' {
            proof {
                assert forall|at: int| !is_extension_dot(path@, at) by {
                    if is_extension_dot(path@, at) {
                        if at < i - 1 {
                            assert(path@[i - 1] != '/');
                        }
                    }
                }
            }
            return None;
        }
        i -= 1;
    }
    None
}

/// Decides whether a filter admits the file that `path` names.
pub fn is_admitted(filter: &Option<Vec<String>>, path: &String) -> (r: bool)
    ensures
        r == admits(filter.deep_view(), path@),
{
    match filter {
        None => true,
        Some(extensions) => match extension_of(path) {
            None => false,
            Some(found) => {
                let ghost wanted = extensions.deep_view();
                let mut i: usize = 0;
                while i < extensions.len()
                    invariant
                        i <= extensions.len(),
                        wanted == extensions.deep_view(),
                        filter.deep_view() == Some(wanted),
                        extension(path@) == Some(found@),
                        forall|j: int| 0 <= j < i ==> wanted[j] != found@,
                    decreases extensions.len() - i,
                {
                    if extensions[i] == found {
                        assert(wanted[i as int] == found@);
                        return true;
                    }
                    i += 1;
                }
                false
            },
        },
    }
}

/// The argument that announces an extension: `-e`.
pub open spec fn extension_flag() -> Seq<char> {
    seq!['-', 'e']
}

/// The extensions that the arguments from the place `from` on ask for. The
/// arguments are taken two by two: a pair of `-e` and a word asks for the
/// word. Any other pair says nothing, and so does a last argument without a
/// partner.
pub open spec fn asked_extensions(args: Seq<Seq<char>>, from: int) -> Seq<Seq<char>>
    decreases args.len() - from,
{
    if from < 0 || from + 1 >= args.len() {
        Seq::empty()
    } else if args[from] == extension_flag() {
        seq![args[from + 1]] + asked_extensions(args, from + 2)
    } else {
        asked_extensions(args, from + 2)
    }
}

/// The filter that a program's arguments configure, the program's name being
/// the first of them: the extensions asked for after the name, or no filter
/// where none is asked for.
pub open spec fn configured(args: Seq<Seq<char>>) -> Option<Seq<Seq<char>>> {
    if asked_extensions(args, 1).len() == 0 {
        None
    } else {
        Some(asked_extensions(args, 1))
    }
}

/// Reads the filter from the arguments of a program, of which the first is
/// the program's name.
pub fn allowd_extensions_from_args(args: &Vec<String>) -> (filter: Option<Vec<String>>)
    ensures
        filter.deep_view() == configured(args.deep_view()),
{
    let flag = String::from_str("-e");
    proof {
        reveal_strlit("-e");
        assert(flag@ =~= extension_flag());
    }
    let ghost words = args.deep_view();
    let mut extensions: Vec<String> = Vec::new();
    let mut i: usize = 1;
    assert(extensions.deep_view() + asked_extensions(words, 1) =~= asked_extensions(words, 1));
    while i < args.len() && args.len() - i > 1
        invariant
            1 <= i,
            words == args.deep_view(),
            flag@ == extension_flag(),
            extensions.deep_view() + asked_extensions(words, i as int) == asked_extensions(words, 1),
        decreases args.len() - i,
    {
        let ghost so_far = extensions.deep_view();
        if args[i] == flag {
            extensions.push(args[i + 1].clone());
            assert(extensions.deep_view() =~= so_far + seq![words[i + 1]]);
            assert(extensions.deep_view() + asked_extensions(words, i + 2) =~= so_far
                + asked_extensions(words, i as int));
        } else {
            assert(words[i as int] == args[i as int]@);
        }
        i += 2;
    }
    assert(extensions.deep_view() =~= asked_extensions(words, 1));
    if extensions.len() == 0 {
        None
    } else {
        Some(extensions)
    }
}

} // verus!
