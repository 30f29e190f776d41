//! The repository locator: classifies directories of a directory tree as
//! repository roots and walks the tree collecting them, counting every entry
//! it examines along the way.

use vstd::prelude::*;
use vstd::string::StringExecFns;
use crate::fs_tree::{Entry, Node, is_marker_dir, is_repo, marker_name};

verus! {

/// The error of a walk whose root is not a directory.
#[derive(Debug, PartialEq, Eq, Structural)]
pub enum LocateError {
    NotADirectory,
}

/// Whether one child entry is the repository marker.
fn is_marker_dir_entry(c: &Entry) -> (r: bool)
    ensures
        r == is_marker_dir(*c),
{
    match &c.node {
        Node::File => false,
        Node::Dir { .. } => {
            let m = String::from_str(".git");
            c.name == m
        },
    }
}

/// Whether `folder` is a repository root: a directory that directly contains
/// a sub-directory named by the marker. A plain file named like the marker
/// does not qualify, and neither does a directory whose listing could not be
/// enumerated.
pub fn is_repository(folder: &Entry) -> (r: bool)
    ensures
        r == is_repo(*folder),
{
    match &folder.node {
        Node::File => false,
        Node::Dir { entries } => match entries {
            Option::None => false,
            Option::Some(cs) => {
                let n = cs.len();
                let mut i: usize = 0;
                while i < n
                    invariant
                        n == cs.len(),
                        0 <= i <= n,
                        folder.children() == cs@,
                        forall|k: int| 0 <= k < i ==> !is_marker_dir(cs@[k]),
                    decreases n - i,
                {
                    if is_marker_dir_entry(&cs[i]) {
                        return true;
                    }
                    i = i + 1;
                }
                false
            },
        },
    }
}

/// How many entries a walk of `e` examines, beyond those already counted:
/// every immediate child of every directory actually descended into. A
/// repository's own contents are never examined, and without recursion only
/// the root's immediate children are.
pub open spec fn count_in(e: Entry, recursive: bool) -> nat
    decreases e, 0int,
{
    match e.node {
        Node::File => 0,
        Node::Dir { entries } => match entries {
            Option::None => 0,
            Option::Some(cs) => cs@.len() + count_children(cs@, recursive),
        },
    }
}

/// The entries examined below one child: a non-repository directory is
/// descended into when the walk is recursive; files, repositories and
/// unreadable listings contribute nothing further.
pub open spec fn count_of_entry(c: Entry, recursive: bool) -> nat
    decreases c, 1int,
{
    if c.node is Dir && !is_repo(c) && recursive {
        count_in(c, recursive)
    } else {
        0
    }
}

/// The entries examined below a sequence of children.
pub open spec fn count_children(cs: Seq<Entry>, recursive: bool) -> nat
    decreases cs, 2int,
{
    if cs.len() == 0 {
        0
    } else {
        count_children(cs.drop_last(), recursive) + count_of_entry(cs.last(), recursive)
    }
}

/// The repository paths found under `e`, each as its sequence of name
/// components relative to `e`, in discovery order.
pub open spec fn found_in(e: Entry, recursive: bool) -> Seq<Seq<Seq<char>>>
    decreases e, 0int,
{
    match e.node {
        Node::File => Seq::empty(),
        Node::Dir { entries } => match entries {
            Option::None => Seq::empty(),
            Option::Some(cs) => found_children(cs@, recursive),
        },
    }
}

/// Every path in `ps` with `name` prepended as its first component.
pub open spec fn prefix_paths(name: Seq<char>, ps: Seq<Seq<Seq<char>>>) -> Seq<Seq<Seq<char>>> {
    ps.map_values(|p: Seq<Seq<char>>| seq![name] + p)
}

/// The repository paths contributed by one child: a repository is reported by
/// its own name and not descended into; a non-repository directory is
/// descended into when the walk is recursive.
pub open spec fn found_of_entry(c: Entry, recursive: bool) -> Seq<Seq<Seq<char>>>
    decreases c, 1int,
{
    if !(c.node is Dir) {
        Seq::empty()
    } else if is_repo(c) {
        seq![seq![c.name@]]
    } else if recursive {
        prefix_paths(c.name@, found_in(c, recursive))
    } else {
        Seq::empty()
    }
}

/// The repository paths contributed by a sequence of children.
pub open spec fn found_children(cs: Seq<Entry>, recursive: bool) -> Seq<Seq<Seq<char>>>
    decreases cs, 2int,
{
    if cs.len() == 0 {
        Seq::empty()
    } else {
        found_children(cs.drop_last(), recursive) + found_of_entry(cs.last(), recursive)
    }
}

proof fn lemma_count_children_take_step(cs: Seq<Entry>, i: int, recursive: bool)
    requires
        0 <= i < cs.len(),
    ensures
        count_children(cs.take(i + 1), recursive) == count_children(cs.take(i), recursive)
            + count_of_entry(cs[i], recursive),
{
    assert(cs.take(i + 1).drop_last() =~= cs.take(i));
    assert(cs.take(i + 1).last() == cs[i]);
}

proof fn lemma_count_children_take_bound(cs: Seq<Entry>, i: int, recursive: bool)
    requires
        0 <= i <= cs.len(),
    ensures
        count_children(cs.take(i), recursive) <= count_children(cs, recursive),
    decreases cs.len() - i,
{
    if i == cs.len() {
        assert(cs.take(i) =~= cs);
    } else {
        lemma_count_children_take_step(cs, i, recursive);
        lemma_count_children_take_bound(cs, i + 1, recursive);
    }
}

proof fn lemma_found_children_take_step(cs: Seq<Entry>, i: int, recursive: bool)
    requires
        0 <= i < cs.len(),
    ensures
        found_children(cs.take(i + 1), recursive) == found_children(cs.take(i), recursive)
            + found_of_entry(cs[i], recursive),
{
    assert(cs.take(i + 1).drop_last() =~= cs.take(i));
    assert(cs.take(i + 1).last() == cs[i]);
}

proof fn lemma_prefix_paths_take_step(name: Seq<char>, ps: Seq<Seq<Seq<char>>>, j: int)
    requires
        0 <= j < ps.len(),
    ensures
        prefix_paths(name, ps.take(j + 1)) == prefix_paths(name, ps.take(j)).push(
            seq![name] + ps[j],
        ),
{
    assert(prefix_paths(name, ps.take(j + 1)) =~= prefix_paths(name, ps.take(j)).push(
        seq![name] + ps[j],
    ));
}

/// A copy of `path` with `name` prepended as its first component.
fn prepend_component(name: &String, path: &Vec<String>) -> (r: Vec<String>)
    ensures
        r.deep_view() == seq![name@] + path.deep_view(),
{
    let mut out: Vec<String> = Vec::new();
    out.push(name.clone());
    assert(out.deep_view() =~= seq![name@] + path.deep_view().take(0));
    let mut j: usize = 0;
    while j < path.len()
        invariant
            0 <= j <= path.len(),
            out@.len() == 1 + j,
            out.deep_view() == seq![name@] + path.deep_view().take(j as int),
        decreases path.len() - j,
    {
        let ghost prev = out@;
        let ghost prevdv = out.deep_view();
        out.push(path[j].clone());
        proof {
            let ghost target = seq![name@] + path.deep_view().take(j + 1);
            assert forall|k: int| 0 <= k < out@.len() implies #[trigger] out.deep_view()[k]
                == target[k] by {
                if k < prev.len() {
                    assert(out@[k] == prev[k]);
                    assert(prevdv[k] == prev[k].deep_view());
                } else {
                    assert(out@[k] == path@[j as int]);
                    assert(path.deep_view()[j as int] == path@[j as int].deep_view());
                }
            }
            assert(out.deep_view() =~= target);
        }
        j = j + 1;
    }
    assert(path.deep_view().take(path.len() as int) =~= path.deep_view());
    out
}

/// Walks the tree under `folder` and returns the discovered repository
/// paths, each as its name components relative to `folder`, incrementing
/// `count` once for every entry examined. A repository is never descended
/// into; without recursion only the root's immediate children are examined.
/// Fails exactly when `folder` is not a directory; a directory whose listing
/// could not be enumerated yields no repositories.
pub fn find_repositories(folder: &Entry, recursive: bool, count: &mut usize) -> (r: Result<
    Vec<Vec<String>>,
    LocateError,
>)
    requires
        *old(count) + count_in(*folder, recursive) <= usize::MAX,
    ensures
        *final(count) >= *old(count),
        (match r {
            Result::Ok(repos) => folder.is_dir() && repos.deep_view() == found_in(
                *folder,
                recursive,
            ) && *final(count) == *old(count) + count_in(*folder, recursive),
            Result::Err(e) => !folder.is_dir() && e == LocateError::NotADirectory && *final(count)
                == *old(count),
        }),
    decreases *folder,
{
    match &folder.node {
        Node::File => Err(LocateError::NotADirectory),
        Node::Dir { entries } => match entries {
            Option::None => {
                let repos: Vec<Vec<String>> = Vec::new();
                assert(repos.deep_view() =~= found_in(*folder, recursive));
                Ok(repos)
            },
            Option::Some(cs) => {
                let ghost cseq = cs@;
                let mut repos: Vec<Vec<String>> = Vec::new();
                let n = cs.len();
                let mut i: usize = 0;
                assert(repos.deep_view() =~= found_children(cseq.take(0), recursive));
                while i < n
                    invariant
                        n == cseq.len(),
                        0 <= i <= n,
                        cs@ == cseq,
                        folder.node == (Node::Dir { entries: Option::Some(*cs) }),
                        count_in(*folder, recursive) == cseq.len() + count_children(
                            cseq,
                            recursive,
                        ),
                        *old(count) + count_in(*folder, recursive) <= usize::MAX,
                        *count == *old(count) + i + count_children(cseq.take(i as int), recursive),
                        repos.deep_view() == found_children(cseq.take(i as int), recursive),
                    decreases n - i,
                {
                    proof {
                        lemma_count_children_take_step(cseq, i as int, recursive);
                        lemma_count_children_take_bound(cseq, i + 1 as int, recursive);
                        lemma_found_children_take_step(cseq, i as int, recursive);
                    }
                    *count = *count + 1;
                    let child = &cs[i];
                    match &child.node {
                        Node::File => {
                            assert(found_of_entry(cseq[i as int], recursive) =~= Seq::empty());
                            assert(repos.deep_view() =~= found_children(
                                cseq.take(i + 1 as int),
                                recursive,
                            ));
                        },
                        Node::Dir { .. } => {
                            if is_repository(child) {
                                let empty: Vec<String> = Vec::new();
                                let path = prepend_component(&child.name, &empty);
                                repos.push(path);
                                proof {
                                    assert(empty.deep_view() =~= Seq::<Seq<char>>::empty());
                                    assert(seq![child.name@] + Seq::<Seq<char>>::empty()
                                        =~= seq![child.name@]);
                                    assert(repos.deep_view() =~= found_children(
                                        cseq.take(i + 1 as int),
                                        recursive,
                                    ));
                                }
                            } else if recursive {
                                match find_repositories(child, true, count) {
                                    Result::Ok(sub) => {
                                        let ghost pseq = sub.deep_view();
                                        let m = sub.len();
                                        let mut j: usize = 0;
                                        assert(prefix_paths(child.name@, pseq.take(0)) =~= Seq::<
                                            Seq<Seq<char>>,
                                        >::empty());
                                        while j < m
                                            invariant
                                                m == sub.len(),
                                                0 <= j <= m,
                                                sub.deep_view() == pseq,
                                                repos.deep_view() == found_children(
                                                    cseq.take(i as int),
                                                    recursive,
                                                ) + prefix_paths(child.name@, pseq.take(j as int)),
                                            decreases m - j,
                                        {
                                            proof {
                                                lemma_prefix_paths_take_step(
                                                    child.name@,
                                                    pseq,
                                                    j as int,
                                                );
                                            }
                                            let p = prepend_component(&child.name, &sub[j]);
                                            let ghost rprev = repos@;
                                            let ghost rprevdv = repos.deep_view();
                                            repos.push(p);
                                            proof {
                                                let ghost target = found_children(
                                                    cseq.take(i as int),
                                                    recursive,
                                                ) + prefix_paths(child.name@, pseq.take(j + 1));
                                                assert(pseq[j as int] == sub@[j as int].deep_view());
                                                assert(target =~= rprevdv.push(
                                                    seq![child.name@] + pseq[j as int],
                                                ));
                                                assert forall|k: int|
                                                    0 <= k < repos@.len() implies #[trigger] repos.deep_view()[k] == target[k] by {
                                                    if k < rprev.len() {
                                                        assert(repos@[k] == rprev[k]);
                                                        assert(rprevdv[k] == rprev[k].deep_view());
                                                    } else {
                                                        assert(repos@[k] == p);
                                                    }
                                                }
                                                assert(repos.deep_view() =~= target);
                                            }
                                            j = j + 1;
                                        }
                                        proof {
                                            assert(pseq.take(m as int) =~= pseq);
                                            assert(found_of_entry(cseq[i as int], recursive)
                                                == prefix_paths(child.name@, pseq));
                                            assert(repos.deep_view() =~= found_children(
                                                cseq.take(i + 1 as int),
                                                recursive,
                                            ));
                                        }
                                    },
                                    Result::Err(_) => {
                                        // The walk never reaches this arm: the child is a
                                        // directory, and only a non-directory root fails.
                                        assert(false);
                                    },
                                }
                            } else {
                                assert(found_of_entry(cseq[i as int], recursive) =~= Seq::empty());
                                assert(repos.deep_view() =~= found_children(
                                    cseq.take(i + 1 as int),
                                    recursive,
                                ));
                            }
                        },
                    }
                    i = i + 1;
                }
                proof {
                    assert(cseq.take(n as int) =~= cseq);
                }
                Ok(repos)
            },
        },
    }
}

/// Traversal stops at a repository boundary: even with recursion enabled, a
/// repository entry contributes exactly its own name to the walk's result, so
/// a repository nested inside another repository is never reported.
pub proof fn lemma_repo_is_leaf(c: Entry, recursive: bool)
    requires
        is_repo(c),
    ensures
        found_of_entry(c, recursive) == seq![seq![c.name@]],
{
}

/// Whether `p` is the one-component path of a child of `cs` that is itself a
/// repository.
pub open spec fn names_top_level_repo(cs: Seq<Entry>, p: Seq<Seq<char>>) -> bool {
    exists|i: int| 0 <= i < cs.len() && is_repo(#[trigger] cs[i]) && p == seq![cs[i].name@]
}

/// A repository's internal contents are never examined: a repository entry
/// contributes nothing to the progress counter beyond itself, whether or not
/// the walk is recursive.
pub proof fn lemma_repo_contents_not_counted(c: Entry, recursive: bool)
    requires
        is_repo(c),
    ensures
        count_of_entry(c, recursive) == 0,
{
}

/// With recursion disabled, exactly the immediate children of the root that
/// qualify as repositories are found: every reported path is the single name
/// of such a child, and every such child is reported. In particular a
/// repository nested two levels deep is not found.
pub proof fn lemma_nonrecursive_finds_only_top_level(cs: Seq<Entry>)
    ensures
        forall|k: int|
            0 <= k < found_children(cs, false).len() ==> names_top_level_repo(
                cs,
                #[trigger] found_children(cs, false)[k],
            ),
        forall|i: int|
            0 <= i < cs.len() && is_repo(#[trigger] cs[i]) ==> found_children(cs, false).contains(
                seq![cs[i].name@],
            ),
    decreases cs.len(),
{
    if cs.len() == 0 {
    } else {
        let pre = cs.drop_last();
        let last = cs.last();
        lemma_nonrecursive_finds_only_top_level(pre);
        let f = found_children(cs, false);
        let fpre = found_children(pre, false);
        assert forall|k: int| 0 <= k < f.len() implies names_top_level_repo(cs, f[k]) by {
            if k < fpre.len() {
                assert(names_top_level_repo(pre, fpre[k]));
                let i = choose|i: int|
                    0 <= i < pre.len() && is_repo(#[trigger] pre[i]) && fpre[k] == seq![
                        pre[i].name@,
                    ];
                assert(pre[i] == cs[i]);
                assert(f[k] == fpre[k]);
                assert(is_repo(cs[i]) && f[k] == seq![cs[i].name@]);
            } else {
                assert(found_of_entry(last, false).len() > 0);
                assert(is_repo(last));
                let i = cs.len() - 1;
                assert(is_repo(cs[i]) && f[k] == seq![cs[i].name@]);
            }
        }
        assert forall|i: int| 0 <= i < cs.len() && is_repo(#[trigger] cs[i]) implies f.contains(
            seq![cs[i].name@],
        ) by {
            if i < cs.len() - 1 {
                assert(pre[i] == cs[i]);
                assert(fpre.contains(seq![cs[i].name@]));
                let k = choose|k: int| 0 <= k < fpre.len() && fpre[k] == seq![cs[i].name@];
                assert(f[k] == seq![cs[i].name@]);
            } else {
                assert(found_of_entry(last, false) == seq![seq![last.name@]]);
                assert(f[f.len() - 1] == seq![cs[i].name@]);
            }
        }
    }
}

/// A directory that directly contains a sub-directory named by the marker is
/// classified as a repository.
pub proof fn lemma_marker_dir_makes_repo(e: Entry, i: int)
    requires
        e.is_readable_dir(),
        0 <= i < e.children().len(),
        e.children()[i].node is Dir,
        e.children()[i].name@ == marker_name(),
    ensures
        is_repo(e),
{
    assert(is_marker_dir(e.children()[i]));
}

/// A directory whose only entries named by the marker are plain files is not
/// classified as a repository.
pub proof fn lemma_marker_file_is_no_repo(e: Entry)
    requires
        forall|i: int| 0 <= i < e.children().len() && e.children()[i].name@ == marker_name()
            ==> !(e.children()[i].node is Dir),
    ensures
        !is_repo(e),
{
}

} // verus!
