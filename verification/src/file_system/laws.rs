//! Laws of the tree operations: proved statements that relate the
//! operations to one another — what a create makes findable, what a remove
//! takes away, and that searching is deterministic.

use vstd::prelude::*;

use crate::file_system::dir::{
    empty_dir_idx, file_idx, has_child_named, is_empty_dir_named, is_file_named,
    lemma_empty_dir_idx, lemma_file_idx, lemma_route_idx, nv_name, route_idx, spec_get_file,
    spec_mk_dir, spec_new_file, spec_rm_dir, spec_rm_file, subtree_has_dir, DirV, NodeV,
};
use crate::file_system::file::{CustomError, FileV};
use crate::file_system::text::parent_of;
use crate::file_system::{fs_rm_file, strictly_sorted};
use crate::file_system::text::{
    lemma_str_lt_irreflexive, lemma_str_lt_transitive, str_lt,
};

verus! {

/// Number of nodes in the subtree rooted at `n`, the root included.
pub open spec fn node_count(n: NodeV) -> nat
    decreases n,
{
    match n {
        NodeV::File(_) => 1,
        NodeV::Dir(d) => 1 + count_list(d.children),
    }
}

/// Number of nodes across a list of sibling subtrees.
pub open spec fn count_list(children: Seq<NodeV>) -> nat
    decreases children,
{
    if children.len() == 0 {
        0
    } else {
        node_count(children[0]) + count_list(children.subrange(1, children.len() as int))
    }
}

proof fn lemma_count_list_update(s: Seq<NodeV>, i: int, x: NodeV)
    requires
        0 <= i < s.len(),
    ensures
        count_list(s.update(i, x)) + node_count(s[i]) == count_list(s) + node_count(x),
    decreases s.len(),
{
    let u = s.update(i, x);
    if i == 0 {
        assert(u[0] == x);
        assert(u.subrange(1, u.len() as int) =~= s.subrange(1, s.len() as int));
    } else {
        assert(u[0] == s[0]);
        assert(u.subrange(1, u.len() as int) =~= s.subrange(1, s.len() as int).update(i - 1, x));
        lemma_count_list_update(s.subrange(1, s.len() as int), i - 1, x);
    }
}

proof fn lemma_count_list_remove(s: Seq<NodeV>, i: int)
    requires
        0 <= i < s.len(),
    ensures
        count_list(s.remove(i)) + node_count(s[i]) == count_list(s),
    decreases s.len(),
{
    let u = s.remove(i);
    if i == 0 {
        assert(u =~= s.subrange(1, s.len() as int));
    } else {
        assert(u[0] == s[0]);
        assert(u.subrange(1, u.len() as int) =~= s.subrange(1, s.len() as int).remove(i - 1));
        lemma_count_list_remove(s.subrange(1, s.len() as int), i - 1);
    }
}

/// Children with pointwise-equal `subtree_has_dir` verdicts route to the
/// same index.
proof fn lemma_route_idx_congruent(a: Seq<NodeV>, b: Seq<NodeV>, target: Seq<char>)
    requires
        a.len() == b.len(),
        forall|j: int| 0 <= j < a.len() ==> subtree_has_dir(a[j], target) == subtree_has_dir(
            #[trigger] b[j],
            target,
        ),
    ensures
        route_idx(a, target) == route_idx(b, target),
    decreases a.len(),
{
    if a.len() > 0 {
        assert(subtree_has_dir(a[0], target) == subtree_has_dir(b[0], target));
        assert forall|j: int| 0 <= j < a.drop_first().len() implies subtree_has_dir(
            a.drop_first()[j],
            target,
        ) == subtree_has_dir(#[trigger] b.drop_first()[j], target) by {
            assert(a.drop_first()[j] == a[j + 1]);
            assert(b.drop_first()[j] == b[j + 1]);
        }
        lemma_route_idx_congruent(a.drop_first(), b.drop_first(), target);
    }
}

/// Creating a file changes no directory name anywhere in the tree: every
/// `subtree_has_dir` verdict is kept, and so is the root's own name.
proof fn lemma_new_file_keeps_dirs(d: DirV, path: Seq<char>, f: FileV, x: Seq<char>)
    requires
        spec_new_file(d, path, f) is Ok,
    ensures
        (spec_new_file(d, path, f)->Ok_0).name == d.name,
        subtree_has_dir(NodeV::Dir(spec_new_file(d, path, f)->Ok_0), x) == subtree_has_dir(
            NodeV::Dir(d),
            x,
        ),
    decreases d,
{
    let d2 = spec_new_file(d, path, f)->Ok_0;
    if d.name == parent_of(path) {
        let g = NodeV::File(FileV { name: path, ..f });
        assert(d2.children == d.children.push(g));
        if subtree_has_dir(NodeV::Dir(d2), x) && d2.name != x {
            let i = choose|i: int|
                0 <= i < d2.children.len() && subtree_has_dir(#[trigger] d2.children[i], x);
            assert(i < d.children.len() || !subtree_has_dir(d2.children[i], x));
            assert(subtree_has_dir(d.children[i], x));
        }
        if subtree_has_dir(NodeV::Dir(d), x) && d.name != x {
            let i = choose|i: int|
                0 <= i < d.children.len() && subtree_has_dir(#[trigger] d.children[i], x);
            assert(d2.children[i] == d.children[i]);
            assert(subtree_has_dir(d2.children[i], x));
        }
    } else {
        lemma_route_idx(d.children, parent_of(path));
        let i = route_idx(d.children, parent_of(path));
        if i < 0 {
        } else {
            match d.children[i] {
                NodeV::Dir(c) => {
                    assert(decreases_to!(d => d.children));
                    let nd = d.children[i];
                    match nd {
                        NodeV::Dir(cc) => {
                            assert(decreases_to!(nd => cc));
                            assert(cc == c);
                        },
                        NodeV::File(_) => {},
                    }
                    lemma_new_file_keeps_dirs(c, path, f, x);
                    let c2 = spec_new_file(c, path, f)->Ok_0;
                    assert(d2.children == d.children.update(i, NodeV::Dir(c2)));
                    assert(subtree_has_dir(NodeV::Dir(c2), x) == subtree_has_dir(
                        NodeV::Dir(c),
                        x,
                    ));
                    if subtree_has_dir(NodeV::Dir(d2), x) && d2.name != x {
                        let k = choose|k: int|
                            0 <= k < d2.children.len() && subtree_has_dir(
                                #[trigger] d2.children[k],
                                x,
                            );
                        if k == i {
                            assert(subtree_has_dir(d.children[i], x));
                        } else {
                            assert(d2.children[k] == d.children[k]);
                        }
                        assert(subtree_has_dir(NodeV::Dir(d), x));
                    }
                    if subtree_has_dir(NodeV::Dir(d), x) && d.name != x {
                        let k = choose|k: int|
                            0 <= k < d.children.len() && subtree_has_dir(
                                #[trigger] d.children[k],
                                x,
                            );
                        if k == i {
                            assert(subtree_has_dir(d2.children[i], x));
                        } else {
                            assert(d2.children[k] == d.children[k]);
                            assert(subtree_has_dir(d2.children[k], x));
                        }
                        assert(subtree_has_dir(NodeV::Dir(d2), x));
                    }
                },
                NodeV::File(_) => {},
            }
        }
    }
}

/// Creating a directory named `path` keeps every `subtree_has_dir` verdict
/// for any other name, and the root's own name.
proof fn lemma_mk_dir_keeps_dirs(d: DirV, path: Seq<char>, now: u64, x: Seq<char>)
    requires
        spec_mk_dir(d, path, now) is Ok,
        x != path,
    ensures
        (spec_mk_dir(d, path, now)->Ok_0).name == d.name,
        subtree_has_dir(NodeV::Dir(spec_mk_dir(d, path, now)->Ok_0), x) == subtree_has_dir(
            NodeV::Dir(d),
            x,
        ),
    decreases d,
{
    let d2 = spec_mk_dir(d, path, now)->Ok_0;
    if d.name == parent_of(path) {
        let g = NodeV::Dir(DirV { name: path, creation_time: now, children: Seq::empty() });
        assert(d2.children == d.children.push(g));
        assert(!subtree_has_dir(g, x));
        if subtree_has_dir(NodeV::Dir(d2), x) && d2.name != x {
            let i = choose|i: int|
                0 <= i < d2.children.len() && subtree_has_dir(#[trigger] d2.children[i], x);
            assert(i < d.children.len() || !subtree_has_dir(d2.children[i], x));
            assert(subtree_has_dir(d.children[i], x));
        }
        if subtree_has_dir(NodeV::Dir(d), x) && d.name != x {
            let i = choose|i: int|
                0 <= i < d.children.len() && subtree_has_dir(#[trigger] d.children[i], x);
            assert(d2.children[i] == d.children[i]);
            assert(subtree_has_dir(d2.children[i], x));
        }
    } else {
        lemma_route_idx(d.children, parent_of(path));
        let i = route_idx(d.children, parent_of(path));
        if i < 0 {
        } else {
            match d.children[i] {
                NodeV::Dir(c) => {
                    assert(decreases_to!(d => d.children));
                    let nd = d.children[i];
                    match nd {
                        NodeV::Dir(cc) => {
                            assert(decreases_to!(nd => cc));
                            assert(cc == c);
                        },
                        NodeV::File(_) => {},
                    }
                    lemma_mk_dir_keeps_dirs(c, path, now, x);
                    let c2 = spec_mk_dir(c, path, now)->Ok_0;
                    assert(d2.children == d.children.update(i, NodeV::Dir(c2)));
                    if subtree_has_dir(NodeV::Dir(d2), x) && d2.name != x {
                        let k = choose|k: int|
                            0 <= k < d2.children.len() && subtree_has_dir(
                                #[trigger] d2.children[k],
                                x,
                            );
                        if k == i {
                            assert(subtree_has_dir(d.children[i], x));
                        } else {
                            assert(d2.children[k] == d.children[k]);
                        }
                        assert(subtree_has_dir(NodeV::Dir(d), x));
                    }
                    if subtree_has_dir(NodeV::Dir(d), x) && d.name != x {
                        let k = choose|k: int|
                            0 <= k < d.children.len() && subtree_has_dir(
                                #[trigger] d.children[k],
                                x,
                            );
                        if k == i {
                            assert(subtree_has_dir(d2.children[i], x));
                        } else {
                            assert(d2.children[k] == d.children[k]);
                            assert(subtree_has_dir(d2.children[k], x));
                        }
                        assert(subtree_has_dir(NodeV::Dir(d2), x));
                    }
                },
                NodeV::File(_) => {},
            }
        }
    }
}

/// A removal that went through a resolved parent takes away exactly one
/// node.
pub proof fn lemma_rm_dir_removes_one(d: DirV, path: Seq<char>)
    requires
        subtree_has_dir(NodeV::Dir(d), parent_of(path)),
        spec_rm_dir(d, path) is Ok,
    ensures
        node_count(NodeV::Dir(spec_rm_dir(d, path)->Ok_0)) + 1 == node_count(NodeV::Dir(d)),
    decreases d,
{
    let d2 = spec_rm_dir(d, path)->Ok_0;
    if d.name == parent_of(path) {
        lemma_empty_dir_idx(d.children, path);
        let k = empty_dir_idx(d.children, path);
        assert(k >= 0);
        match d.children[k] {
            NodeV::Dir(c) => {
                assert(c.children.len() == 0);
                assert(count_list(c.children) == 0);
                assert(node_count(d.children[k]) == 1);
            },
            NodeV::File(_) => {
                assert(false);
            },
        }
        lemma_count_list_remove(d.children, k);
        assert(d2.children == d.children.remove(k));
    } else {
        lemma_route_idx(d.children, parent_of(path));
        let i = route_idx(d.children, parent_of(path));
        assert(i >= 0) by {
            if i < 0 {
                let w = choose|w: int|
                    0 <= w < d.children.len() && subtree_has_dir(
                        #[trigger] d.children[w],
                        parent_of(path),
                    );
                assert(!subtree_has_dir(d.children[w], parent_of(path)));
            }
        };
        match d.children[i] {
            NodeV::Dir(c) => {
                assert(decreases_to!(d => d.children));
                let nd = d.children[i];
                match nd {
                    NodeV::Dir(cc) => {
                        assert(decreases_to!(nd => cc));
                        assert(cc == c);
                    },
                    NodeV::File(_) => {},
                }
                lemma_rm_dir_removes_one(c, path);
                let c2 = spec_rm_dir(c, path)->Ok_0;
                lemma_count_list_update(d.children, i, NodeV::Dir(c2));
                assert(d2.children == d.children.update(i, NodeV::Dir(c2)));
            },
            NodeV::File(_) => {
                assert(false);
            },
        }
    }
}

/// At a directory that owns the target's parent, removing a directory
/// fails with `FileOrDirNameNotFound` whenever no child is an empty
/// directory named `path` — in particular when every directory so named is
/// non-empty.
pub proof fn lemma_rm_dir_nonempty_fails(d: DirV, path: Seq<char>)
    requires
        d.name == parent_of(path),
        forall|i: int| 0 <= i < d.children.len() ==> !is_empty_dir_named(
            #[trigger] d.children[i],
            path,
        ),
    ensures
        spec_rm_dir(d, path) == Err::<DirV, CustomError>(CustomError::FileOrDirNameNotFound),
{
    lemma_empty_dir_idx(d.children, path);
    let k = empty_dir_idx(d.children, path);
    if k >= 0 {
        assert(!is_empty_dir_named(d.children[k], path));
    }
}

/// At a directory that owns the target's parent, removing a directory
/// succeeds as soon as some child is an empty directory named `path`.
pub proof fn lemma_rm_dir_empty_succeeds(d: DirV, path: Seq<char>)
    requires
        d.name == parent_of(path),
        exists|i: int|
            0 <= i < d.children.len() && is_empty_dir_named(#[trigger] d.children[i], path),
    ensures
        spec_rm_dir(d, path) is Ok,
{
    lemma_empty_dir_idx(d.children, path);
    let k = empty_dir_idx(d.children, path);
    if k < 0 {
        let w = choose|w: int|
            0 <= w < d.children.len() && is_empty_dir_named(#[trigger] d.children[w], path);
        assert(!is_empty_dir_named(d.children[w], path));
    }
}

/// Removing a file from an empty tree always fails: the file system
/// reports `FileOrDirNameNotFound` outright, and a childless directory that
/// owns the parent path reports `FileNotFound`.
pub proof fn lemma_rm_file_empty_fails(d: DirV, path: Seq<char>)
    requires
        d.children.len() == 0,
    ensures
        fs_rm_file(d, path) == Err::<DirV, CustomError>(CustomError::FileOrDirNameNotFound),
        d.name == parent_of(path) ==> spec_rm_file(d, path) == Err::<DirV, CustomError>(
            CustomError::FileNotFound,
        ),
{
}


/// After a directory is successfully created through a resolved parent,
/// a traversal finds a directory at that exact path.
pub proof fn lemma_mk_dir_creates(d: DirV, path: Seq<char>, now: u64)
    requires
        subtree_has_dir(NodeV::Dir(d), parent_of(path)),
        spec_mk_dir(d, path, now) is Ok,
    ensures
        subtree_has_dir(NodeV::Dir(spec_mk_dir(d, path, now)->Ok_0), path),
    decreases d,
{
    let d2 = spec_mk_dir(d, path, now)->Ok_0;
    if d.name == parent_of(path) {
        let g = NodeV::Dir(DirV { name: path, creation_time: now, children: Seq::empty() });
        assert(d2.children == d.children.push(g));
        assert(d2.children[d.children.len() as int] == g);
        assert(subtree_has_dir(g, path));
    } else {
        lemma_route_idx(d.children, parent_of(path));
        let i = route_idx(d.children, parent_of(path));
        assert(i >= 0) by {
            if i < 0 {
                let w = choose|w: int|
                    0 <= w < d.children.len() && subtree_has_dir(
                        #[trigger] d.children[w],
                        parent_of(path),
                    );
                assert(!subtree_has_dir(d.children[w], parent_of(path)));
            }
        };
        match d.children[i] {
            NodeV::Dir(c) => {
                assert(decreases_to!(d => d.children));
                let nd = d.children[i];
                match nd {
                    NodeV::Dir(cc) => {
                        assert(decreases_to!(nd => cc));
                        assert(cc == c);
                    },
                    NodeV::File(_) => {},
                }
                lemma_mk_dir_creates(c, path, now);
                let c2 = spec_mk_dir(c, path, now)->Ok_0;
                assert(d2.children == d.children.update(i, NodeV::Dir(c2)));
                assert(d2.children[i] == NodeV::Dir(c2));
                assert(subtree_has_dir(d2.children[i], path));
            },
            NodeV::File(_) => {
                assert(false);
            },
        }
    }
}

/// Creating the same directory again fails with `DirOrFileAlreadyExists`.
/// The one path shape left out is a path equal to its own parent (the
/// empty path), whose fresh directory would itself capture the descent.
pub proof fn lemma_mk_dir_again_fails(d: DirV, path: Seq<char>, now: u64, now2: u64)
    requires
        subtree_has_dir(NodeV::Dir(d), parent_of(path)),
        spec_mk_dir(d, path, now) is Ok,
        path != parent_of(path),
    ensures
        spec_mk_dir(spec_mk_dir(d, path, now)->Ok_0, path, now2) == Err::<DirV, CustomError>(
            CustomError::DirOrFileAlreadyExists,
        ),
    decreases d,
{
    let d2 = spec_mk_dir(d, path, now)->Ok_0;
    if d.name == parent_of(path) {
        let g = NodeV::Dir(DirV { name: path, creation_time: now, children: Seq::empty() });
        assert(d2.children == d.children.push(g));
        assert(d2.name == d.name);
        assert(nv_name(d2.children[d.children.len() as int]) == path);
        assert(has_child_named(d2, path));
    } else {
        lemma_route_idx(d.children, parent_of(path));
        let i = route_idx(d.children, parent_of(path));
        assert(i >= 0) by {
            if i < 0 {
                let w = choose|w: int|
                    0 <= w < d.children.len() && subtree_has_dir(
                        #[trigger] d.children[w],
                        parent_of(path),
                    );
                assert(!subtree_has_dir(d.children[w], parent_of(path)));
            }
        };
        match d.children[i] {
            NodeV::Dir(c) => {
                assert(decreases_to!(d => d.children));
                let nd = d.children[i];
                match nd {
                    NodeV::Dir(cc) => {
                        assert(decreases_to!(nd => cc));
                        assert(cc == c);
                    },
                    NodeV::File(_) => {},
                }
                lemma_mk_dir_keeps_dirs(c, path, now, parent_of(path));
                let c2 = spec_mk_dir(c, path, now)->Ok_0;
                assert(d2.children == d.children.update(i, NodeV::Dir(c2)));
                assert forall|j: int| 0 <= j < d2.children.len() implies subtree_has_dir(
                    d.children[j],
                    parent_of(path),
                ) == subtree_has_dir(#[trigger] d2.children[j], parent_of(path)) by {
                    if j != i {
                        assert(d2.children[j] == d.children[j]);
                    }
                }
                lemma_route_idx_congruent(d2.children, d.children, parent_of(path));
                assert(route_idx(d2.children, parent_of(path)) == i);
                lemma_mk_dir_again_fails(c, path, now, now2);
            },
            NodeV::File(_) => {
                assert(false);
            },
        }
    }
}

/// Round trip: after a file is successfully created through a resolved
/// parent, looking the path up finds a file whose content, creation time
/// and kind are the template\'s, under the new full path.
pub proof fn lemma_create_then_get(d: DirV, path: Seq<char>, f: FileV)
    requires
        subtree_has_dir(NodeV::Dir(d), parent_of(path)),
        spec_new_file(d, path, f) is Ok,
    ensures
        spec_get_file(spec_new_file(d, path, f)->Ok_0, path) == Some(FileV { name: path, ..f }),
    decreases d,
{
    let d2 = spec_new_file(d, path, f)->Ok_0;
    let g = FileV { name: path, ..f };
    if d.name == parent_of(path) {
        assert(!has_child_named(d, path));
        assert(d2.children == d.children.push(NodeV::File(g)));
        assert(d2.name == d.name);
        let last = d.children.len() as int;
        assert(is_file_named(d2.children[last], path));
        lemma_file_idx(d2.children, path);
        let k = file_idx(d2.children, path);
        assert(k >= 0) by {
            if k < 0 {
                assert(!is_file_named(d2.children[last], path));
            }
        };
        assert(k == last) by {
            if k < last {
                assert(d2.children[k] == d.children[k]);
                assert(is_file_named(d.children[k], path));
                assert(nv_name(d.children[k]) == path);
            }
        };
        assert(spec_get_file(d2, path) == Some(g));
    } else {
        lemma_route_idx(d.children, parent_of(path));
        let i = route_idx(d.children, parent_of(path));
        assert(i >= 0) by {
            if i < 0 {
                let w = choose|w: int|
                    0 <= w < d.children.len() && subtree_has_dir(
                        #[trigger] d.children[w],
                        parent_of(path),
                    );
                assert(!subtree_has_dir(d.children[w], parent_of(path)));
            }
        };
        match d.children[i] {
            NodeV::Dir(c) => {
                assert(decreases_to!(d => d.children));
                let nd = d.children[i];
                match nd {
                    NodeV::Dir(cc) => {
                        assert(decreases_to!(nd => cc));
                        assert(cc == c);
                    },
                    NodeV::File(_) => {},
                }
                lemma_new_file_keeps_dirs(c, path, f, parent_of(path));
                let c2 = spec_new_file(c, path, f)->Ok_0;
                assert(d2.children == d.children.update(i, NodeV::Dir(c2)));
                assert(d2.name == d.name);
                assert forall|j: int| 0 <= j < d2.children.len() implies subtree_has_dir(
                    d.children[j],
                    parent_of(path),
                ) == subtree_has_dir(#[trigger] d2.children[j], parent_of(path)) by {
                    if j != i {
                        assert(d2.children[j] == d.children[j]);
                    }
                }
                lemma_route_idx_congruent(d2.children, d.children, parent_of(path));
                assert(route_idx(d2.children, parent_of(path)) == i);
                lemma_create_then_get(c, path, f);
                assert(spec_get_file(d2, path) == spec_get_file(c2, path));
            },
            NodeV::File(_) => {
                assert(false);
            },
        }
    }
}

/// Creating the same file again fails with `DirOrFileAlreadyExists`,
/// whatever template the second call carries.
pub proof fn lemma_create_again_fails(d: DirV, path: Seq<char>, f: FileV, f2: FileV)
    requires
        subtree_has_dir(NodeV::Dir(d), parent_of(path)),
        spec_new_file(d, path, f) is Ok,
    ensures
        spec_new_file(spec_new_file(d, path, f)->Ok_0, path, f2) == Err::<DirV, CustomError>(
            CustomError::DirOrFileAlreadyExists,
        ),
    decreases d,
{
    let d2 = spec_new_file(d, path, f)->Ok_0;
    if d.name == parent_of(path) {
        let g = FileV { name: path, ..f };
        assert(d2.children == d.children.push(NodeV::File(g)));
        assert(d2.name == d.name);
        assert(nv_name(d2.children[d.children.len() as int]) == path);
        assert(has_child_named(d2, path));
    } else {
        lemma_route_idx(d.children, parent_of(path));
        let i = route_idx(d.children, parent_of(path));
        assert(i >= 0) by {
            if i < 0 {
                let w = choose|w: int|
                    0 <= w < d.children.len() && subtree_has_dir(
                        #[trigger] d.children[w],
                        parent_of(path),
                    );
                assert(!subtree_has_dir(d.children[w], parent_of(path)));
            }
        };
        match d.children[i] {
            NodeV::Dir(c) => {
                assert(decreases_to!(d => d.children));
                let nd = d.children[i];
                match nd {
                    NodeV::Dir(cc) => {
                        assert(decreases_to!(nd => cc));
                        assert(cc == c);
                    },
                    NodeV::File(_) => {},
                }
                lemma_new_file_keeps_dirs(c, path, f, parent_of(path));
                let c2 = spec_new_file(c, path, f)->Ok_0;
                assert(d2.children == d.children.update(i, NodeV::Dir(c2)));
                assert forall|j: int| 0 <= j < d2.children.len() implies subtree_has_dir(
                    d.children[j],
                    parent_of(path),
                ) == subtree_has_dir(#[trigger] d2.children[j], parent_of(path)) by {
                    if j != i {
                        assert(d2.children[j] == d.children[j]);
                    }
                }
                lemma_route_idx_congruent(d2.children, d.children, parent_of(path));
                assert(route_idx(d2.children, parent_of(path)) == i);
                lemma_create_again_fails(c, path, f, f2);
            },
            NodeV::File(_) => {
                assert(false);
            },
        }
    }
}

proof fn lemma_drop_first_set(a: Seq<Seq<char>>)
    requires
        strictly_sorted(a),
        a.len() > 0,
    ensures
        strictly_sorted(a.drop_first()),
        a.drop_first().to_set() == a.to_set().remove(a[0]),
{
    let t = a.drop_first();
    assert forall|i: int, j: int| 0 <= i < j < t.len() implies str_lt(t[i], t[j]) by {
        assert(t[i] == a[i + 1]);
        assert(t[j] == a[j + 1]);
    }
    assert forall|x: Seq<char>| t.to_set().contains(x) implies a.to_set().remove(
        a[0],
    ).contains(x) by {
        let i = choose|i: int| 0 <= i < t.len() && t[i] == x;
        assert(a[i + 1] == x);
        assert(str_lt(a[0], a[i + 1]));
        lemma_str_lt_irreflexive(a[0], 0);
        assert(x != a[0]);
    }
    assert forall|x: Seq<char>| a.to_set().remove(a[0]).contains(x) implies t.to_set().contains(
        x,
    ) by {
        let i = choose|i: int| 0 <= i < a.len() && a[i] == x;
        assert(i != 0);
        assert(t[i - 1] == x);
    }
    assert(t.to_set() =~= a.to_set().remove(a[0]));
}

/// Two strictly sorted sequences that enumerate the same set are the same
/// sequence.
pub proof fn lemma_sorted_set_unique(a: Seq<Seq<char>>, b: Seq<Seq<char>>)
    requires
        strictly_sorted(a),
        strictly_sorted(b),
        a.to_set() == b.to_set(),
    ensures
        a == b,
    decreases a.len(),
{
    if a.len() == 0 {
        if b.len() > 0 {
            assert(b.to_set().contains(b[0]));
            let i = choose|i: int| 0 <= i < a.len() && a[i] == b[0];
            assert(false);
        }
        assert(a =~= b);
    } else {
        assert(a.to_set().contains(a[0]));
        if b.len() == 0 {
            let i = choose|i: int| 0 <= i < b.len() && b[i] == a[0];
            assert(false);
        }
        assert(b.to_set().contains(b[0]));
        let j = choose|j: int| 0 <= j < b.len() && b[j] == a[0];
        let i = choose|i: int| 0 <= i < a.len() && a[i] == b[0];
        assert(a[0] == b[0]) by {
            if a[0] != b[0] {
                assert(i != 0 && j != 0);
                assert(str_lt(a[0], a[i]));
                assert(str_lt(b[0], b[j]));
                lemma_str_lt_transitive(a[0], a[i], a[0], 0);
                lemma_str_lt_irreflexive(a[0], 0);
            }
        };
        lemma_drop_first_set(a);
        lemma_drop_first_set(b);
        assert(a.drop_first().to_set() =~= b.drop_first().to_set());
        lemma_sorted_set_unique(a.drop_first(), b.drop_first());
        assert(a =~= b) by {
            assert(forall|k: int| 1 <= k < a.len() ==> a[k] == a.drop_first()[k - 1]);
            assert(forall|k: int| 1 <= k < b.len() ==> b[k] == b.drop_first()[k - 1]);
        };
    }
}

/// Searching an unmodified tree twice with the same raw queries yields the
/// same result: the contract of `search` admits exactly one value for the
/// recorded names and one for the sorted distinct query strings.
pub proof fn lemma_search_deterministic(matched: Seq<Seq<char>>, q1: Seq<Seq<char>>, q2: Seq<Seq<char>>)
    requires
        strictly_sorted(q1),
        strictly_sorted(q2),
        q1.to_set() == matched.to_set(),
        q2.to_set() == matched.to_set(),
    ensures
        q1 == q2,
{
    lemma_sorted_set_unique(q1, q2);
}

} // verus!
