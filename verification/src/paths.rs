//! Paths as text, and the chain of folders between a file and the scan root.

use vstd::prelude::*;
use crate::model::texts;

verus! {

/// The parent that `std::path::Path::parent` gives for a path, as text.
pub uninterp spec fn parent_of(path: Seq<char>) -> Option<Seq<char>>;

/// Whether `std::path::Path::starts_with` finds `base` to be a prefix of
/// `path`, component by component.
pub uninterp spec fn has_path_prefix(path: Seq<char>, base: Seq<char>) -> bool;

/// Calls `std::path::Path::parent`. The result is the named parent of the
/// path; since it is the path without its final component, it is shorter than
/// the path.
#[verifier::external_body]
pub(crate) fn path_parent(path: &str) -> (parent: Option<String>)
    ensures
        parent is Some <==> parent_of(path@) is Some,
        parent matches Some(p) ==> parent_of(path@) == Some(p@) && p@.len() < path@.len(),
{
    match std::path::Path::new(path).parent() {
        Some(parent) => Some(parent.to_string_lossy().into_owned()),
        None => None,
    }
}

/// Calls `std::path::Path::starts_with`: whether `base` is a prefix of `path`
/// by whole components.
#[verifier::external_body]
pub(crate) fn path_starts_with(path: &str, base: &str) -> (within: bool)
    ensures
        within == has_path_prefix(path@, base@),
{
    std::path::Path::new(path).starts_with(base)
}

/// The folders from `current` upwards, as long as they lie within `root`.
pub open spec fn climb(root: Seq<char>, current: Seq<char>) -> Seq<Seq<char>>
    decreases current.len(),
{
    if !has_path_prefix(current, root) {
        Seq::empty()
    } else {
        match parent_of(current) {
            Some(parent) => if parent.len() < current.len() {
                seq![current] + climb(root, parent)
            } else {
                seq![current]
            },
            None => seq![current],
        }
    }
}

/// The folder a chain of ancestors starts from: the parent, or the empty
/// path where there is none.
pub open spec fn start_folder(path: Seq<char>) -> Seq<char> {
    match parent_of(path) {
        Some(parent) => parent,
        None => Seq::empty(),
    }
}

/// The folders that contain `path` and lie within `root`, nearest first.
pub open spec fn ancestors(root: Seq<char>, path: Seq<char>) -> Seq<Seq<char>> {
    climb(root, start_folder(path))
}

/// Whether `path` lies below `root`: the root is one of its ancestors.
pub open spec fn lies_under(root: Seq<char>, path: Seq<char>) -> bool {
    ancestors(root, path).contains(root)
}

/// Every folder of a chain is at most as long as the folder it starts from.
pub proof fn lemma_climb_lengths(root: Seq<char>, current: Seq<char>)
    ensures
        forall|i: int|
            0 <= i < climb(root, current).len() ==> (#[trigger] climb(root, current)[i]).len()
                <= current.len(),
        forall|i: int|
            1 <= i < climb(root, current).len() ==> (#[trigger] climb(root, current)[i]).len()
                < current.len(),
        climb(root, current).len() > 0 ==> climb(root, current)[0] == current,
    decreases current.len(),
{
    if has_path_prefix(current, root) {
        match parent_of(current) {
            Some(parent) => {
                if parent.len() < current.len() {
                    lemma_climb_lengths(root, parent);
                    let rest = climb(root, parent);
                    let chain = climb(root, current);
                    assert(chain == seq![current] + rest);
                    assert forall|i: int| 1 <= i < chain.len() implies (#[trigger] chain[i]).len()
                        < current.len() by {
                        assert(chain[i] == rest[i - 1]);
                    }
                }
            },
            None => {},
        }
    }
}

/// No folder occurs twice in a chain.
pub proof fn lemma_climb_distinct(root: Seq<char>, current: Seq<char>)
    ensures
        climb(root, current).no_duplicates(),
    decreases current.len(),
{
    if has_path_prefix(current, root) {
        match parent_of(current) {
            Some(parent) => {
                if parent.len() < current.len() {
                    lemma_climb_distinct(root, parent);
                    lemma_climb_lengths(root, parent);
                    let rest = climb(root, parent);
                    let chain = climb(root, current);
                    assert(chain == seq![current] + rest);
                    assert forall|i: int, j: int|
                        0 <= i < chain.len() && 0 <= j < chain.len() && i != j implies chain[i]
                        != chain[j] by {
                        if i > 0 {
                            assert(chain[i] == rest[i - 1]);
                        }
                        if j > 0 {
                            assert(chain[j] == rest[j - 1]);
                        }
                    }
                }
            },
            None => {},
        }
    }
}

/// The folders that contain `path` and lie within `root`, nearest first: the
/// parent of `path`, its parent, and so on, up to the last one that still has
/// `root` as a prefix.
pub fn ancestor_folders(root: &str, path: &str) -> (folders: Vec<String>)
    ensures
        texts(folders@) == ancestors(root@, path@),
{
    let mut folders: Vec<String> = Vec::new();
    let mut current: String = match path_parent(path) {
        Some(parent) => parent,
        None => String::new(),
    };
    let ghost start = current@;
    let mut climbing: bool = true;
    while climbing && path_starts_with(current.as_str(), root)
        invariant
            climbing ==> texts(folders@) + climb(root@, current@) == climb(root@, start),
            !climbing ==> texts(folders@) == climb(root@, start),
        decreases
            if climbing { 1 + current@.len() } else { 0 },
    {
        let ghost before = texts(folders@);
        let ghost here = current@;
        let next = path_parent(current.as_str());
        folders.push(current);
        assert(texts(folders@) =~= before + seq![here]);
        match next {
            Some(parent) => {
                current = parent;
                assert(before + (seq![here] + climb(root@, current@)) =~= (before + seq![here])
                    + climb(root@, current@));
            },
            None => {
                current = String::new();
                climbing = false;
            },
        }
    }
    proof {
        if climbing {
            assert(climb(root@, current@) =~= Seq::<Seq<char>>::empty());
            assert(texts(folders@) + Seq::<Seq<char>>::empty() =~= texts(folders@));
        }
    }
    folders
}

} // verus!
