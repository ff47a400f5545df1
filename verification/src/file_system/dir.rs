//! Directories and tree nodes: the recursive tree, its mathematical model,
//! and the path-resolving mutators.
//!
//! Every operation takes a full target path, splits off its parent, and
//! resolves that parent against the tree: a directory whose own name equals
//! the parent path operates on its children directly; otherwise the
//! operation descends into the first child subtree that holds a directory so
//! named, and the result of that subtree decides.

use vstd::prelude::*;

use crate::file_system::file::{CustomError, File, FileType, FileV};
use crate::file_system::text::{eq_str, parent_of, parent_str};
use crate::file_system::{
    first_match, lemma_concat_to_set, lemma_first_match, lemma_search_list_snoc, queries_view,
    search_names, search_names_list, search_raws, search_raws_list, spec_match_node,
    strictly_sorted, MatchResult, Queries,
};

verus! {

/// A tree node: either a leaf [`File`] or a [`Dir`] with children.
pub enum Node {
    File(File),
    Dir(Dir),
}

/// A directory: full path name, creation time in seconds since the epoch,
/// and its children in insertion order.
pub struct Dir {
    name: String,
    creation_time: u64,
    children: Vec<Node>,
}

/// Mathematical model of a [`Node`].
#[verifier::ext_equal]
pub enum NodeV {
    File(FileV),
    Dir(DirV),
}

/// Mathematical model of a [`Dir`].
#[verifier::ext_equal]
pub struct DirV {
    pub name: Seq<char>,
    pub creation_time: u64,
    pub children: Seq<NodeV>,
}

/// Model of a node that stands in for an out-of-range index.
pub open spec fn null_node_v() -> NodeV {
    NodeV::File(
        FileV {
            name: Seq::<char>::empty(),
            content: Seq::<u8>::empty(),
            creation_time: 0u64,
            type_: FileType::Text,
        },
    )
}

pub closed spec fn node_view(n: Node) -> NodeV
    decreases n,
{
    match n {
        Node::File(f) => NodeV::File(f@),
        Node::Dir(d) => NodeV::Dir(
            DirV {
                name: d.name@,
                creation_time: d.creation_time,
                children: Seq::new(
                    d.children@.len(),
                    |i: int|
                        if 0 <= i < d.children@.len() {
                            node_view(d.children@[i])
                        } else {
                            null_node_v()
                        },
                ),
            },
        ),
    }
}

impl View for Node {
    type V = NodeV;

    closed spec fn view(&self) -> NodeV {
        node_view(*self)
    }
}

impl View for Dir {
    type V = DirV;

    closed spec fn view(&self) -> DirV {
        match node_view(Node::Dir(*self)) {
            NodeV::Dir(dv) => dv,
            NodeV::File(_) => DirV { name: Seq::empty(), creation_time: 0u64, children: Seq::empty() },
        }
    }
}

/// The name a node answers to, whichever kind it is.
pub open spec fn nv_name(n: NodeV) -> Seq<char> {
    match n {
        NodeV::File(f) => f.name,
        NodeV::Dir(d) => d.name,
    }
}

/// True when `d` has a child (of either kind) named `name`.
pub open spec fn has_child_named(d: DirV, name: Seq<char>) -> bool {
    exists|i: int| 0 <= i < d.children.len() && nv_name(#[trigger] d.children[i]) == name
}

/// True when the subtree rooted at `n` holds a directory named `name`,
/// counting `n` itself.
pub open spec fn subtree_has_dir(n: NodeV, name: Seq<char>) -> bool
    decreases n,
{
    match n {
        NodeV::File(_) => false,
        NodeV::Dir(d) => d.name == name || exists|i: int|
            0 <= i < d.children.len() && subtree_has_dir(#[trigger] d.children[i], name),
    }
}

/// Index of the first child whose subtree holds a directory named `target`,
/// or `-1` when none does: the child the resolution descends into.
pub open spec fn route_idx(children: Seq<NodeV>, target: Seq<char>) -> int
    decreases children.len(),
{
    if children.len() == 0 {
        -1
    } else if subtree_has_dir(children[0], target) {
        0
    } else {
        let r = route_idx(children.drop_first(), target);
        if r < 0 {
            -1
        } else {
            r + 1
        }
    }
}

pub proof fn lemma_route_idx(children: Seq<NodeV>, target: Seq<char>)
    ensures
        -1 <= route_idx(children, target) < children.len(),
        route_idx(children, target) >= 0 ==> subtree_has_dir(
            children[route_idx(children, target)],
            target,
        ) && children[route_idx(children, target)] is Dir,
        route_idx(children, target) >= 0 ==> forall|j: int|
            0 <= j < route_idx(children, target) ==> !subtree_has_dir(
                #[trigger] children[j],
                target,
            ),
        route_idx(children, target) < 0 ==> forall|j: int|
            0 <= j < children.len() ==> !subtree_has_dir(#[trigger] children[j], target),
    decreases children.len(),
{
    if children.len() > 0 && !subtree_has_dir(children[0], target) {
        lemma_route_idx(children.drop_first(), target);
        let r = route_idx(children, target);
        if r >= 0 {
            assert forall|j: int| 0 <= j < r implies !subtree_has_dir(
                #[trigger] children[j],
                target,
            ) by {
                if j > 0 {
                    assert(children.drop_first()[j - 1] == children[j]);
                }
            }
        } else {
            assert forall|j: int| 0 <= j < children.len() implies !subtree_has_dir(
                #[trigger] children[j],
                target,
            ) by {
                if j > 0 {
                    assert(children.drop_first()[j - 1] == children[j]);
                }
            }
        }
    }
}

/// True when `n` is an empty directory named `path`: the one shape
/// `rm_dir` removes.
pub open spec fn is_empty_dir_named(n: NodeV, path: Seq<char>) -> bool {
    match n {
        NodeV::Dir(d) => d.name == path && d.children.len() == 0,
        NodeV::File(_) => false,
    }
}

/// Index of the first empty directory child named `path`, or `-1`.
pub open spec fn empty_dir_idx(children: Seq<NodeV>, path: Seq<char>) -> int
    decreases children.len(),
{
    if children.len() == 0 {
        -1
    } else if is_empty_dir_named(children[0], path) {
        0
    } else {
        let r = empty_dir_idx(children.drop_first(), path);
        if r < 0 {
            -1
        } else {
            r + 1
        }
    }
}

pub proof fn lemma_empty_dir_idx(children: Seq<NodeV>, path: Seq<char>)
    ensures
        -1 <= empty_dir_idx(children, path) < children.len(),
        empty_dir_idx(children, path) >= 0 ==> is_empty_dir_named(
            children[empty_dir_idx(children, path)],
            path,
        ),
        empty_dir_idx(children, path) >= 0 ==> forall|j: int|
            0 <= j < empty_dir_idx(children, path) ==> !is_empty_dir_named(
                #[trigger] children[j],
                path,
            ),
        empty_dir_idx(children, path) < 0 ==> forall|j: int|
            0 <= j < children.len() ==> !is_empty_dir_named(#[trigger] children[j], path),
    decreases children.len(),
{
    if children.len() > 0 && !is_empty_dir_named(children[0], path) {
        lemma_empty_dir_idx(children.drop_first(), path);
        let r = empty_dir_idx(children, path);
        if r >= 0 {
            assert forall|j: int| 0 <= j < r implies !is_empty_dir_named(
                #[trigger] children[j],
                path,
            ) by {
                if j > 0 {
                    assert(children.drop_first()[j - 1] == children[j]);
                }
            }
        } else {
            assert forall|j: int| 0 <= j < children.len() implies !is_empty_dir_named(
                #[trigger] children[j],
                path,
            ) by {
                if j > 0 {
                    assert(children.drop_first()[j - 1] == children[j]);
                }
            }
        }
    }
}

/// True when `n` is a file named `path`.
pub open spec fn is_file_named(n: NodeV, path: Seq<char>) -> bool {
    match n {
        NodeV::File(f) => f.name == path,
        NodeV::Dir(_) => false,
    }
}

/// Index of the first file child named `path`, or `-1`.
pub open spec fn file_idx(children: Seq<NodeV>, path: Seq<char>) -> int
    decreases children.len(),
{
    if children.len() == 0 {
        -1
    } else if is_file_named(children[0], path) {
        0
    } else {
        let r = file_idx(children.drop_first(), path);
        if r < 0 {
            -1
        } else {
            r + 1
        }
    }
}

pub proof fn lemma_file_idx(children: Seq<NodeV>, path: Seq<char>)
    ensures
        -1 <= file_idx(children, path) < children.len(),
        file_idx(children, path) >= 0 ==> is_file_named(children[file_idx(children, path)], path),
        file_idx(children, path) >= 0 ==> forall|j: int|
            0 <= j < file_idx(children, path) ==> !is_file_named(#[trigger] children[j], path),
        file_idx(children, path) < 0 ==> forall|j: int|
            0 <= j < children.len() ==> !is_file_named(#[trigger] children[j], path),
    decreases children.len(),
{
    if children.len() > 0 && !is_file_named(children[0], path) {
        lemma_file_idx(children.drop_first(), path);
        let r = file_idx(children, path);
        if r >= 0 {
            assert forall|j: int| 0 <= j < r implies !is_file_named(
                #[trigger] children[j],
                path,
            ) by {
                if j > 0 {
                    assert(children.drop_first()[j - 1] == children[j]);
                }
            }
        } else {
            assert forall|j: int| 0 <= j < children.len() implies !is_file_named(
                #[trigger] children[j],
                path,
            ) by {
                if j > 0 {
                    assert(children.drop_first()[j - 1] == children[j]);
                }
            }
        }
    }
}

/// What `mk_dir` leaves of `d`: a new empty directory named `path`, stamped
/// `now`, under the directory that resolution finds for the parent of
/// `path`; `DirOrFileAlreadyExists` when that directory already has a child
/// named `path`. A path whose parent resolves nowhere leaves `d` unchanged.
pub open spec fn spec_mk_dir(d: DirV, path: Seq<char>, now: u64) -> Result<DirV, CustomError>
    decreases d,
    via spec_mk_dir_decreases
{
    if d.name == parent_of(path) {
        if has_child_named(d, path) {
            Err(CustomError::DirOrFileAlreadyExists)
        } else {
            Ok(
                DirV {
                    children: d.children.push(
                        NodeV::Dir(DirV { name: path, creation_time: now, children: Seq::empty() }),
                    ),
                    ..d
                },
            )
        }
    } else {
        let i = route_idx(d.children, parent_of(path));
        if i < 0 {
            Ok(d)
        } else {
            match d.children[i] {
                NodeV::Dir(c) => match spec_mk_dir(c, path, now) {
                    Ok(c2) => Ok(DirV { children: d.children.update(i, NodeV::Dir(c2)), ..d }),
                    Err(e) => Err(e),
                },
                NodeV::File(_) => Ok(d),
            }
        }
    }
}

#[via_fn]
proof fn spec_mk_dir_decreases(d: DirV, path: Seq<char>, now: u64) {
    lemma_route_idx(d.children, parent_of(path));
}

/// What `new_file` leaves of `d`: a copy of `file` renamed to `path` under
/// the directory that resolution finds for the parent of `path`;
/// `DirOrFileAlreadyExists` when that directory already has a child named
/// `path`. A path whose parent resolves nowhere leaves `d` unchanged.
pub open spec fn spec_new_file(d: DirV, path: Seq<char>, file: FileV) -> Result<
    DirV,
    CustomError,
>
    decreases d,
    via spec_new_file_decreases
{
    if d.name == parent_of(path) {
        if has_child_named(d, path) {
            Err(CustomError::DirOrFileAlreadyExists)
        } else {
            Ok(
                DirV {
                    children: d.children.push(NodeV::File(FileV { name: path, ..file })),
                    ..d
                },
            )
        }
    } else {
        let i = route_idx(d.children, parent_of(path));
        if i < 0 {
            Ok(d)
        } else {
            match d.children[i] {
                NodeV::Dir(c) => match spec_new_file(c, path, file) {
                    Ok(c2) => Ok(DirV { children: d.children.update(i, NodeV::Dir(c2)), ..d }),
                    Err(e) => Err(e),
                },
                NodeV::File(_) => Ok(d),
            }
        }
    }
}

#[via_fn]
proof fn spec_new_file_decreases(d: DirV, path: Seq<char>, file: FileV) {
    lemma_route_idx(d.children, parent_of(path));
}

/// What `rm_dir` leaves of `d`: the first empty directory child named
/// `path` removed from the directory that resolution finds for the parent
/// of `path`; `FileOrDirNameNotFound` when that directory has no such
/// child. A path whose parent resolves nowhere leaves `d` unchanged.
pub open spec fn spec_rm_dir(d: DirV, path: Seq<char>) -> Result<DirV, CustomError>
    decreases d,
    via spec_rm_dir_decreases
{
    if d.name == parent_of(path) {
        let k = empty_dir_idx(d.children, path);
        if k < 0 {
            Err(CustomError::FileOrDirNameNotFound)
        } else {
            Ok(DirV { children: d.children.remove(k), ..d })
        }
    } else {
        let i = route_idx(d.children, parent_of(path));
        if i < 0 {
            Ok(d)
        } else {
            match d.children[i] {
                NodeV::Dir(c) => match spec_rm_dir(c, path) {
                    Ok(c2) => Ok(DirV { children: d.children.update(i, NodeV::Dir(c2)), ..d }),
                    Err(e) => Err(e),
                },
                NodeV::File(_) => Ok(d),
            }
        }
    }
}

#[via_fn]
proof fn spec_rm_dir_decreases(d: DirV, path: Seq<char>) {
    lemma_route_idx(d.children, parent_of(path));
}

/// What `rm_file` leaves of `d`: the first file child named `path` removed
/// from the directory that resolution finds for the parent of `path`;
/// `FileNotFound` when that directory is empty, `FileOrDirNameNotFound`
/// when it has children but no such file. A path whose parent resolves
/// nowhere leaves `d` unchanged.
pub open spec fn spec_rm_file(d: DirV, path: Seq<char>) -> Result<DirV, CustomError>
    decreases d,
    via spec_rm_file_decreases
{
    if d.name == parent_of(path) {
        if d.children.len() == 0 {
            Err(CustomError::FileNotFound)
        } else {
            let k = file_idx(d.children, path);
            if k < 0 {
                Err(CustomError::FileOrDirNameNotFound)
            } else {
                Ok(DirV { children: d.children.remove(k), ..d })
            }
        }
    } else {
        let i = route_idx(d.children, parent_of(path));
        if i < 0 {
            Ok(d)
        } else {
            match d.children[i] {
                NodeV::Dir(c) => match spec_rm_file(c, path) {
                    Ok(c2) => Ok(DirV { children: d.children.update(i, NodeV::Dir(c2)), ..d }),
                    Err(e) => Err(e),
                },
                NodeV::File(_) => Ok(d),
            }
        }
    }
}

#[via_fn]
proof fn spec_rm_file_decreases(d: DirV, path: Seq<char>) {
    lemma_route_idx(d.children, parent_of(path));
}

/// What `get_file` finds in `d`: the first file child named `path` of the
/// directory that resolution finds for the parent of `path`, if any.
pub open spec fn spec_get_file(d: DirV, path: Seq<char>) -> Option<FileV>
    decreases d,
    via spec_get_file_decreases
{
    if d.name == parent_of(path) {
        let k = file_idx(d.children, path);
        if k < 0 {
            None
        } else {
            match d.children[k] {
                NodeV::File(f) => Some(f),
                NodeV::Dir(_) => None,
            }
        }
    } else {
        let i = route_idx(d.children, parent_of(path));
        if i < 0 {
            None
        } else {
            match d.children[i] {
                NodeV::Dir(c) => spec_get_file(c, path),
                NodeV::File(_) => None,
            }
        }
    }
}

#[via_fn]
proof fn spec_get_file_decreases(d: DirV, path: Seq<char>) {
    lemma_route_idx(d.children, parent_of(path));
    lemma_file_idx(d.children, path);
}

/// The tree after the file that [`spec_get_file`] finds is replaced by
/// `g`; a tree where nothing is found stays as it is.
pub open spec fn spec_set_file(d: DirV, path: Seq<char>, g: FileV) -> DirV
    decreases d,
    via spec_set_file_decreases
{
    if d.name == parent_of(path) {
        let k = file_idx(d.children, path);
        if k < 0 {
            d
        } else {
            DirV { children: d.children.update(k, NodeV::File(g)), ..d }
        }
    } else {
        let i = route_idx(d.children, parent_of(path));
        if i < 0 {
            d
        } else {
            match d.children[i] {
                NodeV::Dir(c) => DirV {
                    children: d.children.update(i, NodeV::Dir(spec_set_file(c, path, g))),
                    ..d
                },
                NodeV::File(_) => d,
            }
        }
    }
}

#[via_fn]
proof fn spec_set_file_decreases(d: DirV, path: Seq<char>, g: FileV) {
    lemma_route_idx(d.children, parent_of(path));
    lemma_file_idx(d.children, path);
}

pub proof fn lemma_node_dir_view(d: Dir)
    ensures
        (Node::Dir(d))@ == NodeV::Dir(d@),
{
}

pub proof fn lemma_node_file_view(f: File)
    ensures
        (Node::File(f))@ == NodeV::File(f@),
{
}

/// A directory's model lists exactly the models of its children.
proof fn lemma_dir_children(d: Dir)
    ensures
        d@.children.len() == d.children@.len(),
        forall|i: int| 0 <= i < d.children@.len() ==> d@.children[i] == (
        #[trigger] d.children@[i])@,
{
}

broadcast proof fn lemma_dir_children_ambient(d: Dir)
    ensures
        (#[trigger] d@).children.len() == d.children@.len(),
        forall|i: int| 0 <= i < d.children@.len() ==> d@.children[i] == (
        #[trigger] d.children@[i])@,
{
}

broadcast proof fn lemma_node_file_view_ambient(f: File)
    ensures
        #[trigger] (Node::File(f))@ == NodeV::File(f@),
{
}

broadcast proof fn lemma_node_dir_view_ambient(d: Dir)
    ensures
        #[trigger] (Node::Dir(d))@ == NodeV::Dir(d@),
{
}

proof fn lemma_remove_insert<A>(s: Seq<A>, i: int, a: A)
    requires
        0 <= i < s.len(),
    ensures
        s.remove(i).insert(i, a) =~= s.update(i, a),
{
    s.remove_ensures(i);
    s.remove(i).insert_ensures(i, a);
    assert forall|j: int| 0 <= j < s.len() implies s.remove(i).insert(i, a)[j] == s.update(
        i,
        a,
    )[j] by {
        if j < i {
        } else if j == i {
        } else {
        }
    }
}

/// The name a node answers to.
fn node_name(n: &Node) -> (r: &str)
    ensures
        r@ == nv_name(n@),
{
    match n {
        Node::File(f) => f.get_name(),
        Node::Dir(d) => d.name.as_str(),
    }
}

/// Whether the subtree rooted at `n` holds a directory named `name`.
fn node_has_dir(n: &Node, name: &str) -> (r: bool)
    ensures
        r == subtree_has_dir(n@, name@),
    decreases *n,
{
    match n {
        Node::File(_) => false,
        Node::Dir(d) => {
            if eq_str(d.name.as_str(), name) {
                proof {
                    lemma_node_dir_view(*d);
                }
                true
            } else {
                proof {
                    lemma_node_dir_view(*d);
                    lemma_dir_children(*d);
                }
                let count = d.children.len();
                let mut i: usize = 0;
                while i < count
                    invariant
                        i <= count,
                        count == d.children@.len(),
                        *n == Node::Dir(*d),
                        forall|j: int| 0 <= j < i ==> !subtree_has_dir(
                            (#[trigger] d.children@[j])@,
                            name@,
                        ),
                    decreases count - i,
                {
                    let c = &d.children[i];
                    proof {
                        let nv = *n;
                        match nv {
                            Node::Dir(dd) => {
                                assert(decreases_to!(nv => dd));
                                assert(dd == *d);
                            },
                            Node::File(_) => {},
                        }
                        assert(decreases_to!(*d => d.children));
                        assert(decreases_to!(d.children => d.children@));
                        assert(decreases_to!(d.children@ => d.children@[i as int]));
                    }
                    if node_has_dir(c, name) {
                        proof {
                            lemma_dir_children(*d);
                            assert(n@ == NodeV::Dir(d@));
                            assert(subtree_has_dir(d@.children[i as int], name@));
                            assert(subtree_has_dir(n@, name@));
                        }
                        return true;
                    }
                    i = i + 1;
                }
                proof {
                    lemma_dir_children(*d);
                    assert(forall|j: int|
                        0 <= j < d@.children.len() ==> !subtree_has_dir(
                            #[trigger] d@.children[j],
                            name@,
                        ));
                }
                false
            }
        },
    }
}

/// Whether some child, of either kind, is named `path`.
fn any_child_named(children: &Vec<Node>, path: &str) -> (r: bool)
    ensures
        r == exists|i: int|
            0 <= i < children@.len() && nv_name((#[trigger] children@[i])@) == path@,
{
    let count = children.len();
    let mut i: usize = 0;
    while i < count
        invariant
            i <= count,
            count == children@.len(),
            forall|j: int| 0 <= j < i ==> nv_name((#[trigger] children@[j])@) != path@,
        decreases count - i,
    {
        if eq_str(node_name(&children[i]), path) {
            return true;
        }
        i = i + 1;
    }
    false
}

/// Index of the first child whose subtree holds a directory named `target`.
fn find_route(children: &Vec<Node>, target: &str) -> (r: Option<usize>)
    ensures
        match r {
            Some(i) => i < children@.len() && subtree_has_dir(children@[i as int]@, target@)
                && forall|j: int|
                0 <= j < i ==> !subtree_has_dir((#[trigger] children@[j])@, target@),
            None => forall|j: int|
                0 <= j < children@.len() ==> !subtree_has_dir(
                    (#[trigger] children@[j])@,
                    target@,
                ),
        },
{
    let count = children.len();
    let mut i: usize = 0;
    while i < count
        invariant
            i <= count,
            count == children@.len(),
            forall|j: int| 0 <= j < i ==> !subtree_has_dir((#[trigger] children@[j])@, target@),
        decreases count - i,
    {
        if node_has_dir(&children[i], target) {
            return Some(i);
        }
        i = i + 1;
    }
    None
}

/// Index of the first empty directory child named `path`.
fn find_empty_dir(children: &Vec<Node>, path: &str) -> (r: Option<usize>)
    ensures
        match r {
            Some(i) => i < children@.len() && is_empty_dir_named(children@[i as int]@, path@)
                && forall|j: int|
                0 <= j < i ==> !is_empty_dir_named((#[trigger] children@[j])@, path@),
            None => forall|j: int|
                0 <= j < children@.len() ==> !is_empty_dir_named(
                    (#[trigger] children@[j])@,
                    path@,
                ),
        },
{
    let count = children.len();
    let mut i: usize = 0;
    while i < count
        invariant
            i <= count,
            count == children@.len(),
            forall|j: int| 0 <= j < i ==> !is_empty_dir_named((#[trigger] children@[j])@, path@),
        decreases count - i,
    {
        let hit = match &children[i] {
            Node::Dir(d) => {
                proof {
                    lemma_node_dir_view(*d);
                    lemma_dir_children(*d);
                }
                if d.children.len() == 0 {
                    eq_str(d.name.as_str(), path)
                } else {
                    false
                }
            },
            Node::File(_) => false,
        };
        if hit {
            return Some(i);
        }
        i = i + 1;
    }
    None
}

/// Index of the first file child named `path`.
fn find_file_named(children: &Vec<Node>, path: &str) -> (r: Option<usize>)
    ensures
        match r {
            Some(i) => i < children@.len() && is_file_named(children@[i as int]@, path@)
                && forall|j: int|
                0 <= j < i ==> !is_file_named((#[trigger] children@[j])@, path@),
            None => forall|j: int|
                0 <= j < children@.len() ==> !is_file_named((#[trigger] children@[j])@, path@),
        },
{
    let count = children.len();
    let mut i: usize = 0;
    while i < count
        invariant
            i <= count,
            count == children@.len(),
            forall|j: int| 0 <= j < i ==> !is_file_named((#[trigger] children@[j])@, path@),
        decreases count - i,
    {
        let hit = match &children[i] {
            Node::File(f) => eq_str(f.get_name(), path),
            Node::Dir(_) => false,
        };
        if hit {
            return Some(i);
        }
        i = i + 1;
    }
    None
}

impl Default for Dir {
    fn default() -> (d: Self)
        ensures
            d@ == (DirV {
                name: Seq::<char>::empty(),
                creation_time: 0u64,
                children: Seq::<NodeV>::empty(),
            }),
    {
        let d = Dir { name: String::new(), creation_time: 0, children: Vec::new() };
        proof {
            assert(d@.children =~= Seq::<NodeV>::empty());
            assert(d@ =~= (DirV {
                name: Seq::<char>::empty(),
                creation_time: 0u64,
                children: Seq::<NodeV>::empty(),
            }));
        }
        d
    }
}

impl Dir {
    /// An empty directory named `path`, stamped with `creation_time`.
    pub fn new_from_dir(path: &str, creation_time: u64) -> (d: Dir)
        ensures
            d@ == (DirV { name: path@, creation_time, children: Seq::<NodeV>::empty() }),
    {
        let d = Dir { name: path.to_owned(), creation_time, children: Vec::new() };
        proof {
            assert(d@.children =~= Seq::<NodeV>::empty());
            assert(d@ =~= (DirV { name: path@, creation_time, children: Seq::<NodeV>::empty() }));
        }
        d
    }

    pub fn is_empty(&self) -> (r: bool)
        ensures
            r == (self@.children.len() == 0),
    {
        proof {
            lemma_dir_children(*self);
        }
        self.children.len() == 0
    }

    pub fn get_name(&self) -> (r: &str)
        ensures
            r@ == self@.name,
    {
        self.name.as_str()
    }

    pub fn get_creation_time(&self) -> (r: u64)
        ensures
            r == self@.creation_time,
    {
        self.creation_time
    }

    /// The children, in insertion order; each child's model stands at the
    /// same position in this directory's model.
    pub fn get_children(&self) -> (r: &Vec<Node>)
        ensures
            r@.len() == self@.children.len(),
            forall|i: int| 0 <= i < r@.len() ==> (#[trigger] r@[i])@ == self@.children[i],
    {
        proof {
            lemma_dir_children(*self);
        }
        &self.children
    }

    /// Appends an empty directory named `path`, stamped `now`, to the
    /// directory that resolution finds for the parent of `path`; see
    /// [`spec_mk_dir`] for the outcome.
    pub fn mk_dir(&mut self, path: &str, now: u64) -> (r: Result<(), CustomError>)
        ensures
            match r {
                Ok(_) => spec_mk_dir(old(self)@, path@, now) == Ok::<DirV, CustomError>(
                    final(self)@,
                ),
                Err(e) => spec_mk_dir(old(self)@, path@, now) == Err::<DirV, CustomError>(e)
                    && final(self)@ == old(self)@,
            },
        decreases *old(self),
    {
        let parent = parent_str(path);
        proof {
            lemma_dir_children(*self);
        }
        if eq_str(parent.as_str(), self.name.as_str()) {
            if any_child_named(&self.children, path) {
                proof {
                    assert(has_child_named(self@, path@));
                }
                return Err(CustomError::DirOrFileAlreadyExists);
            }
            proof {
                assert(!has_child_named(self@, path@)) by {
                    if has_child_named(self@, path@) {
                        let i = choose|i: int|
                            0 <= i < self@.children.len() && nv_name(
                                #[trigger] self@.children[i],
                            ) == path@;
                        assert(nv_name((self.children@[i])@) == path@);
                    }
                };
            }
            let sub = Dir { name: path.to_owned(), creation_time: now, children: Vec::new() };
            let ghost subv = DirV { name: path@, creation_time: now, children: Seq::empty() };
            proof {
                assert(sub@.children =~= Seq::<NodeV>::empty());
                assert(sub@ =~= subv);
                lemma_node_dir_view(sub);
            }
            self.children.push(Node::Dir(sub));
            proof {
                lemma_dir_children(*self);
                lemma_dir_children(*old(self));
                assert(self@.children =~= old(self)@.children.push(NodeV::Dir(subv)));
                assert(self@ =~= (DirV {
                    children: old(self)@.children.push(NodeV::Dir(subv)),
                    ..old(self)@
                }));
            }
            Ok(())
        } else {
            match find_route(&self.children, parent.as_str()) {
                None => {
                    proof {
                        lemma_route_idx(old(self)@.children, parent_of(path@));
                        let ri = route_idx(old(self)@.children, parent_of(path@));
                        if ri >= 0 {
                            assert(!subtree_has_dir((self.children@[ri])@, parent_of(path@)));
                        }
                    }
                    Ok(())
                },
                Some(idx) => {
                    proof {
                        lemma_route_idx(old(self)@.children, parent_of(path@));
                        let ri = route_idx(old(self)@.children, parent_of(path@));
                        assert(subtree_has_dir(old(self)@.children[idx as int], parent_of(path@)));
                        if ri > idx {
                            assert(!subtree_has_dir(old(self)@.children[idx as int], parent_of(path@)));
                        }
                        if 0 <= ri < idx {
                            assert(!subtree_has_dir((self.children@[ri])@, parent_of(path@)));
                        }
                        assert(ri == idx);
                    }
                    let removed = self.children.remove(idx);
                    let ghost removed_v = removed@;
                    proof {
                        assert(removed_v == old(self)@.children[idx as int]);
                    }
                    match removed {
                        Node::Dir(mut dchild) => {
                            let ghost dv0 = dchild@;
                            proof {
                                lemma_node_dir_view(dchild);
                                assert(removed_v == NodeV::Dir(dv0));
                                let os = *old(self);
                                assert(decreases_to!(os => os.children));
                                assert(decreases_to!(os.children => os.children@));
                                assert(decreases_to!(os.children@ => os.children@[idx as int]));
                                let nd = os.children@[idx as int];
                                match nd {
                                    Node::Dir(dd) => {
                                        assert(decreases_to!(nd => dd));
                                        assert(dd == dchild);
                                    },
                                    Node::File(_) => {},
                                }
                            }
                            let r = dchild.mk_dir(path, now);
                            proof {
                                lemma_node_dir_view(dchild);
                            }
                            self.children.insert(idx, Node::Dir(dchild));
                            proof {
                                lemma_remove_insert(
                                    old(self).children@,
                                    idx as int,
                                    Node::Dir(dchild),
                                );
                                lemma_dir_children(*self);
                                lemma_dir_children(*old(self));
                                assert(self@.children =~= old(self)@.children.update(
                                    idx as int,
                                    NodeV::Dir(dchild@),
                                ));
                                if r is Err {
                                    assert(dchild@ == dv0);
                                    assert(self@.children =~= old(self)@.children);
                                    assert(self@ =~= old(self)@);
                                } else {
                                    assert(self@ =~= (DirV {
                                        children: old(self)@.children.update(
                                            idx as int,
                                            NodeV::Dir(dchild@),
                                        ),
                                        ..old(self)@
                                    }));
                                }
                            }
                            r
                        },
                        Node::File(f) => {
                            proof {
                                lemma_node_file_view(f);
                                assert(false);
                            }
                            self.children.insert(idx, Node::File(f));
                            Ok(())
                        },
                    }
                },
            }
        }
    }

    /// Appends a copy of `file` renamed to `path` to the directory that
    /// resolution finds for the parent of `path`; see [`spec_new_file`] for
    /// the outcome.
    pub fn new_file(&mut self, path: &str, file: &File) -> (r: Result<(), CustomError>)
        ensures
            match r {
                Ok(_) => spec_new_file(old(self)@, path@, file@) == Ok::<DirV, CustomError>(
                    final(self)@,
                ),
                Err(e) => spec_new_file(old(self)@, path@, file@) == Err::<DirV, CustomError>(e)
                    && final(self)@ == old(self)@,
            },
        decreases *old(self),
    {
        let parent = parent_str(path);
        proof {
            lemma_dir_children(*self);
        }
        if eq_str(parent.as_str(), self.name.as_str()) {
            if any_child_named(&self.children, path) {
                proof {
                    assert(has_child_named(self@, path@));
                }
                return Err(CustomError::DirOrFileAlreadyExists);
            }
            proof {
                assert(!has_child_named(self@, path@)) by {
                    if has_child_named(self@, path@) {
                        let i = choose|i: int|
                            0 <= i < self@.children.len() && nv_name(
                                #[trigger] self@.children[i],
                            ) == path@;
                        assert(nv_name((self.children@[i])@) == path@);
                    }
                };
            }
            let sub = File::new_from_file(path, file);
            let ghost subv = FileV { name: path@, ..file@ };
            proof {
                lemma_node_file_view(sub);
            }
            self.children.push(Node::File(sub));
            proof {
                lemma_dir_children(*self);
                lemma_dir_children(*old(self));
                assert(self@.children =~= old(self)@.children.push(NodeV::File(subv)));
                assert(self@ =~= (DirV {
                    children: old(self)@.children.push(NodeV::File(subv)),
                    ..old(self)@
                }));
            }
            Ok(())
        } else {
            match find_route(&self.children, parent.as_str()) {
                None => {
                    proof {
                        lemma_route_idx(old(self)@.children, parent_of(path@));
                        let ri = route_idx(old(self)@.children, parent_of(path@));
                        if ri >= 0 {
                            assert(!subtree_has_dir((self.children@[ri])@, parent_of(path@)));
                        }
                    }
                    Ok(())
                },
                Some(idx) => {
                    proof {
                        lemma_route_idx(old(self)@.children, parent_of(path@));
                        let ri = route_idx(old(self)@.children, parent_of(path@));
                        assert(subtree_has_dir(old(self)@.children[idx as int], parent_of(path@)));
                        if ri > idx {
                            assert(!subtree_has_dir(old(self)@.children[idx as int], parent_of(path@)));
                        }
                        if 0 <= ri < idx {
                            assert(!subtree_has_dir((self.children@[ri])@, parent_of(path@)));
                        }
                        assert(ri == idx);
                    }
                    let removed = self.children.remove(idx);
                    let ghost removed_v = removed@;
                    proof {
                        assert(removed_v == old(self)@.children[idx as int]);
                    }
                    match removed {
                        Node::Dir(mut dchild) => {
                            let ghost dv0 = dchild@;
                            proof {
                                lemma_node_dir_view(dchild);
                                assert(removed_v == NodeV::Dir(dv0));
                                let os = *old(self);
                                assert(decreases_to!(os => os.children));
                                assert(decreases_to!(os.children => os.children@));
                                assert(decreases_to!(os.children@ => os.children@[idx as int]));
                                let nd = os.children@[idx as int];
                                match nd {
                                    Node::Dir(dd) => {
                                        assert(decreases_to!(nd => dd));
                                        assert(dd == dchild);
                                    },
                                    Node::File(_) => {},
                                }
                            }
                            let r = dchild.new_file(path, file);
                            proof {
                                lemma_node_dir_view(dchild);
                            }
                            self.children.insert(idx, Node::Dir(dchild));
                            proof {
                                lemma_remove_insert(
                                    old(self).children@,
                                    idx as int,
                                    Node::Dir(dchild),
                                );
                                lemma_dir_children(*self);
                                lemma_dir_children(*old(self));
                                assert(self@.children =~= old(self)@.children.update(
                                    idx as int,
                                    NodeV::Dir(dchild@),
                                ));
                                if r is Err {
                                    assert(dchild@ == dv0);
                                    assert(self@.children =~= old(self)@.children);
                                    assert(self@ =~= old(self)@);
                                } else {
                                    assert(self@ =~= (DirV {
                                        children: old(self)@.children.update(
                                            idx as int,
                                            NodeV::Dir(dchild@),
                                        ),
                                        ..old(self)@
                                    }));
                                }
                            }
                            r
                        },
                        Node::File(f) => {
                            proof {
                                lemma_node_file_view(f);
                                assert(false);
                            }
                            self.children.insert(idx, Node::File(f));
                            Ok(())
                        },
                    }
                },
            }
        }
    }

    /// Removes the first empty directory child named `path` from the
    /// directory that resolution finds for the parent of `path`; see
    /// [`spec_rm_dir`] for the outcome.
    pub fn rm_dir(&mut self, path: &str) -> (r: Result<(), CustomError>)
        ensures
            match r {
                Ok(_) => spec_rm_dir(old(self)@, path@) == Ok::<DirV, CustomError>(final(self)@),
                Err(e) => spec_rm_dir(old(self)@, path@) == Err::<DirV, CustomError>(e)
                    && final(self)@ == old(self)@,
            },
        decreases *old(self),
    {
        let parent = parent_str(path);
        proof {
            lemma_dir_children(*self);
            lemma_empty_dir_idx(self@.children, path@);
        }
        if eq_str(parent.as_str(), self.name.as_str()) {
            match find_empty_dir(&self.children, path) {
                None => {
                    proof {
                        let k = empty_dir_idx(old(self)@.children, path@);
                        if k >= 0 {
                            assert(!is_empty_dir_named((self.children@[k])@, path@));
                        }
                    }
                    Err(CustomError::FileOrDirNameNotFound)
                },
                Some(k) => {
                    proof {
                        let sk = empty_dir_idx(old(self)@.children, path@);
                        assert(is_empty_dir_named(old(self)@.children[k as int], path@));
                        if sk > k {
                            assert(!is_empty_dir_named(old(self)@.children[k as int], path@));
                        }
                        if 0 <= sk < k {
                            assert(!is_empty_dir_named((self.children@[sk])@, path@));
                        }
                        assert(sk == k);
                    }
                    self.children.remove(k);
                    proof {
                        lemma_dir_children(*self);
                        lemma_dir_children(*old(self));
                        old(self).children@.remove_ensures(k as int);
                        old(self)@.children.remove_ensures(k as int);
                        assert(self@.children =~= old(self)@.children.remove(k as int));
                        assert(self@ =~= (DirV {
                            children: old(self)@.children.remove(k as int),
                            ..old(self)@
                        }));
                    }
                    Ok(())
                },
            }
        } else {
            match find_route(&self.children, parent.as_str()) {
                None => {
                    proof {
                        lemma_route_idx(old(self)@.children, parent_of(path@));
                        let ri = route_idx(old(self)@.children, parent_of(path@));
                        if ri >= 0 {
                            assert(!subtree_has_dir((self.children@[ri])@, parent_of(path@)));
                        }
                    }
                    Ok(())
                },
                Some(idx) => {
                    proof {
                        lemma_route_idx(old(self)@.children, parent_of(path@));
                        let ri = route_idx(old(self)@.children, parent_of(path@));
                        assert(subtree_has_dir(old(self)@.children[idx as int], parent_of(path@)));
                        if ri > idx {
                            assert(!subtree_has_dir(old(self)@.children[idx as int], parent_of(path@)));
                        }
                        if 0 <= ri < idx {
                            assert(!subtree_has_dir((self.children@[ri])@, parent_of(path@)));
                        }
                        assert(ri == idx);
                    }
                    let removed = self.children.remove(idx);
                    let ghost removed_v = removed@;
                    proof {
                        assert(removed_v == old(self)@.children[idx as int]);
                    }
                    match removed {
                        Node::Dir(mut dchild) => {
                            let ghost dv0 = dchild@;
                            proof {
                                lemma_node_dir_view(dchild);
                                assert(removed_v == NodeV::Dir(dv0));
                                let os = *old(self);
                                assert(decreases_to!(os => os.children));
                                assert(decreases_to!(os.children => os.children@));
                                assert(decreases_to!(os.children@ => os.children@[idx as int]));
                                let nd = os.children@[idx as int];
                                match nd {
                                    Node::Dir(dd) => {
                                        assert(decreases_to!(nd => dd));
                                        assert(dd == dchild);
                                    },
                                    Node::File(_) => {},
                                }
                            }
                            let r = dchild.rm_dir(path);
                            proof {
                                lemma_node_dir_view(dchild);
                            }
                            self.children.insert(idx, Node::Dir(dchild));
                            proof {
                                lemma_remove_insert(
                                    old(self).children@,
                                    idx as int,
                                    Node::Dir(dchild),
                                );
                                lemma_dir_children(*self);
                                lemma_dir_children(*old(self));
                                assert(self@.children =~= old(self)@.children.update(
                                    idx as int,
                                    NodeV::Dir(dchild@),
                                ));
                                if r is Err {
                                    assert(dchild@ == dv0);
                                    assert(self@.children =~= old(self)@.children);
                                    assert(self@ =~= old(self)@);
                                } else {
                                    assert(self@ =~= (DirV {
                                        children: old(self)@.children.update(
                                            idx as int,
                                            NodeV::Dir(dchild@),
                                        ),
                                        ..old(self)@
                                    }));
                                }
                            }
                            r
                        },
                        Node::File(f) => {
                            proof {
                                lemma_node_file_view(f);
                                assert(false);
                            }
                            self.children.insert(idx, Node::File(f));
                            Ok(())
                        },
                    }
                },
            }
        }
    }

    /// Removes the first file child named `path` from the directory that
    /// resolution finds for the parent of `path`; see [`spec_rm_file`] for
    /// the outcome.
    pub fn rm_file(&mut self, path: &str) -> (r: Result<(), CustomError>)
        ensures
            match r {
                Ok(_) => spec_rm_file(old(self)@, path@) == Ok::<DirV, CustomError>(final(self)@),
                Err(e) => spec_rm_file(old(self)@, path@) == Err::<DirV, CustomError>(e)
                    && final(self)@ == old(self)@,
            },
        decreases *old(self),
    {
        let parent = parent_str(path);
        proof {
            lemma_dir_children(*self);
            lemma_file_idx(self@.children, path@);
        }
        if eq_str(parent.as_str(), self.name.as_str()) {
            if self.children.len() == 0 {
                return Err(CustomError::FileNotFound);
            }
            match find_file_named(&self.children, path) {
                None => {
                    proof {
                        let k = file_idx(old(self)@.children, path@);
                        if k >= 0 {
                            assert(!is_file_named((self.children@[k])@, path@));
                        }
                    }
                    Err(CustomError::FileOrDirNameNotFound)
                },
                Some(k) => {
                    proof {
                        let sk = file_idx(old(self)@.children, path@);
                        assert(is_file_named(old(self)@.children[k as int], path@));
                        if sk > k {
                            assert(!is_file_named(old(self)@.children[k as int], path@));
                        }
                        if 0 <= sk < k {
                            assert(!is_file_named((self.children@[sk])@, path@));
                        }
                        assert(sk == k);
                    }
                    self.children.remove(k);
                    proof {
                        lemma_dir_children(*self);
                        lemma_dir_children(*old(self));
                        old(self).children@.remove_ensures(k as int);
                        old(self)@.children.remove_ensures(k as int);
                        assert(self@.children =~= old(self)@.children.remove(k as int));
                        assert(self@ =~= (DirV {
                            children: old(self)@.children.remove(k as int),
                            ..old(self)@
                        }));
                    }
                    Ok(())
                },
            }
        } else {
            match find_route(&self.children, parent.as_str()) {
                None => {
                    proof {
                        lemma_route_idx(old(self)@.children, parent_of(path@));
                        let ri = route_idx(old(self)@.children, parent_of(path@));
                        if ri >= 0 {
                            assert(!subtree_has_dir((self.children@[ri])@, parent_of(path@)));
                        }
                    }
                    Ok(())
                },
                Some(idx) => {
                    proof {
                        lemma_route_idx(old(self)@.children, parent_of(path@));
                        let ri = route_idx(old(self)@.children, parent_of(path@));
                        assert(subtree_has_dir(old(self)@.children[idx as int], parent_of(path@)));
                        if ri > idx {
                            assert(!subtree_has_dir(old(self)@.children[idx as int], parent_of(path@)));
                        }
                        if 0 <= ri < idx {
                            assert(!subtree_has_dir((self.children@[ri])@, parent_of(path@)));
                        }
                        assert(ri == idx);
                    }
                    let removed = self.children.remove(idx);
                    let ghost removed_v = removed@;
                    proof {
                        assert(removed_v == old(self)@.children[idx as int]);
                    }
                    match removed {
                        Node::Dir(mut dchild) => {
                            let ghost dv0 = dchild@;
                            proof {
                                lemma_node_dir_view(dchild);
                                assert(removed_v == NodeV::Dir(dv0));
                                let os = *old(self);
                                assert(decreases_to!(os => os.children));
                                assert(decreases_to!(os.children => os.children@));
                                assert(decreases_to!(os.children@ => os.children@[idx as int]));
                                let nd = os.children@[idx as int];
                                match nd {
                                    Node::Dir(dd) => {
                                        assert(decreases_to!(nd => dd));
                                        assert(dd == dchild);
                                    },
                                    Node::File(_) => {},
                                }
                            }
                            let r = dchild.rm_file(path);
                            proof {
                                lemma_node_dir_view(dchild);
                            }
                            self.children.insert(idx, Node::Dir(dchild));
                            proof {
                                lemma_remove_insert(
                                    old(self).children@,
                                    idx as int,
                                    Node::Dir(dchild),
                                );
                                lemma_dir_children(*self);
                                lemma_dir_children(*old(self));
                                assert(self@.children =~= old(self)@.children.update(
                                    idx as int,
                                    NodeV::Dir(dchild@),
                                ));
                                if r is Err {
                                    assert(dchild@ == dv0);
                                    assert(self@.children =~= old(self)@.children);
                                    assert(self@ =~= old(self)@);
                                } else {
                                    assert(self@ =~= (DirV {
                                        children: old(self)@.children.update(
                                            idx as int,
                                            NodeV::Dir(dchild@),
                                        ),
                                        ..old(self)@
                                    }));
                                }
                            }
                            r
                        },
                        Node::File(f) => {
                            proof {
                                lemma_node_file_view(f);
                                assert(false);
                            }
                            self.children.insert(idx, Node::File(f));
                            Ok(())
                        },
                    }
                },
            }
        }
    }

    /// The first file child named `path` of the directory that resolution
    /// finds for the parent of `path`, as a mutable handle; see
    /// [`spec_get_file`] for what is found and [`spec_set_file`] for how an
    /// edit through the handle lands in the tree.
    #[verifier::rlimit(100)]
    #[verifier::spinoff_prover]
    pub fn get_file(&mut self, path: &str) -> (r: Option<&mut File>)
        ensures
            match r {
                Some(f) => {
                    &&& spec_get_file(old(self)@, path@) == Some((*f)@)
                    &&& final(self)@.name =~= spec_set_file(old(self)@, path@, (*final(f))@).name
                    &&& final(self)@.creation_time == spec_set_file(
                        old(self)@,
                        path@,
                        (*final(f))@,
                    ).creation_time
                    &&& final(self)@.children =~= spec_set_file(
                        old(self)@,
                        path@,
                        (*final(f))@,
                    ).children
                    &&& final(self)@ =~= spec_set_file(old(self)@, path@, (*final(f))@)
                },
                None => {
                    &&& spec_get_file(old(self)@, path@) is None
                    &&& final(self)@.name =~= old(self)@.name
                    &&& final(self)@.creation_time == old(self)@.creation_time
                    &&& final(self)@.children =~= old(self)@.children
                    &&& final(self)@ =~= old(self)@
                },
            },
        decreases *old(self),
    {
        broadcast use lemma_dir_children_ambient, lemma_node_file_view_ambient, lemma_node_dir_view_ambient;

        let parent = parent_str(path);
        proof {
            lemma_dir_children(*self);
            lemma_file_idx(self@.children, path@);
        }
        if eq_str(parent.as_str(), self.name.as_str()) {
            match find_file_named(&self.children, path) {
                None => {
                    proof {
                        let k = file_idx(self@.children, path@);
                        if k >= 0 {
                            assert(!is_file_named((self.children@[k])@, path@));
                        }
                    }
                    None
                },
                Some(k) => {
                    proof {
                        let sk = file_idx(self@.children, path@);
                        assert(is_file_named(self@.children[k as int], path@));
                        if sk > k {
                            assert(!is_file_named(self@.children[k as int], path@));
                        }
                        if 0 <= sk < k {
                            assert(!is_file_named((self.children@[sk])@, path@));
                        }
                        assert(sk == k);
                    }
                    let node = &mut self.children[k];
                    match node {
                        Node::File(f) => Some(f),
                        Node::Dir(_) => {
                            proof {
                                assert(false);
                            }
                            None
                        },
                    }
                },
            }
        } else {
            match find_route(&self.children, parent.as_str()) {
                None => {
                    proof {
                        lemma_route_idx(self@.children, parent_of(path@));
                        let ri = route_idx(self@.children, parent_of(path@));
                        if ri >= 0 {
                            assert(!subtree_has_dir((self.children@[ri])@, parent_of(path@)));
                        }
                    }
                    None
                },
                Some(idx) => {
                    proof {
                        lemma_route_idx(self@.children, parent_of(path@));
                        let ri = route_idx(self@.children, parent_of(path@));
                        assert(subtree_has_dir(self@.children[idx as int], parent_of(path@)));
                        if ri > idx {
                            assert(!subtree_has_dir(self@.children[idx as int], parent_of(path@)));
                        }
                        if 0 <= ri < idx {
                            assert(!subtree_has_dir((self.children@[ri])@, parent_of(path@)));
                        }
                        assert(ri == idx);
                    }
                    let ghost oldv = self@;
                    let node = &mut self.children[idx];
                    match node {
                        Node::Dir(d) => {
                            proof {
                                lemma_node_dir_view(*d);
                                assert(oldv.children[idx as int] == NodeV::Dir((*d)@));
                                let os = *old(self);
                                assert(decreases_to!(os => os.children));
                                assert(decreases_to!(os.children => os.children@));
                                assert(decreases_to!(os.children@ => os.children@[idx as int]));
                                let nd = os.children@[idx as int];
                                match nd {
                                    Node::Dir(dd) => {
                                        assert(decreases_to!(nd => dd));
                                        assert(dd == *d);
                                    },
                                    Node::File(_) => {},
                                }
                            }
                            d.get_file(path)
                        },
                        Node::File(_) => {
                            proof {
                                assert(false);
                            }
                            None
                        },
                    }
                },
            }
        }
    }
}


impl Node {
    /// Depth-first search of this subtree: a file node records the first
    /// query it satisfies; a directory node searches its children and then
    /// normalizes the recorded query strings.
    pub fn search(&self, queries: &Vec<Queries>, result: MatchResult) -> (r: MatchResult)
        ensures
            r.nodes_view() == result.nodes_view() + search_names(
                self@,
                queries_view(queries@),
            ),
            r.queries_view().to_set() == result.queries_view().to_set() + search_raws(
                self@,
                queries_view(queries@),
            ).to_set(),
            self@ is File ==> r.queries_view() == result.queries_view() + search_raws(
                self@,
                queries_view(queries@),
            ),
            self@ is Dir ==> strictly_sorted(r.queries_view()),
        decreases *self,
    {
        let ghost qv = queries_view(queries@);
        match self {
            Node::File(f) => {
                proof {
                    lemma_node_file_view(*f);
                    lemma_first_match(qv, self@);
                }
                let mut res = result;
                let n = queries.len();
                let mut j: usize = 0;
                while j < n
                    invariant
                        j <= n,
                        n == queries@.len(),
                        qv == queries_view(queries@),
                        *self == Node::File(*f),
                        res.queries_view() == result.queries_view(),
                        res.nodes_view() == result.nodes_view(),
                        forall|k: int| 0 <= k < j ==> !spec_match_node(#[trigger] qv[k], self@),
                    decreases n - j,
                {
                    let q = &queries[j];
                    proof {
                        assert(qv[j as int] == queries@[j as int]@);
                    }
                    if q.matches(self) {
                        proof {
                            lemma_first_match(qv, self@);
                            let fm = first_match(qv, self@);
                            assert(spec_match_node(qv[j as int], self@));
                            assert(fm >= 0);
                            if fm > j {
                                assert(!spec_match_node(qv[j as int], self@));
                            }
                            if 0 <= fm < j {
                                assert(!spec_match_node(qv[fm], self@));
                            }
                            assert(fm == j);
                        }
                        let raw = q.to_str().to_owned();
                        let name = node_name(self).to_owned();
                        res.push_match(raw, name);
                        proof {
                            lemma_node_file_view(*f);
                            assert(res.queries_view() =~= result.queries_view() + search_raws(
                                self@,
                                qv,
                            ));
                            assert(res.nodes_view() =~= result.nodes_view() + search_names(
                                self@,
                                qv,
                            ));
                            lemma_concat_to_set(result.queries_view(), search_raws(self@, qv));
                        }
                        return res;
                    }
                    j = j + 1;
                }
                proof {
                    let fm = first_match(qv, self@);
                    if fm >= 0 {
                        assert(!spec_match_node(qv[fm], self@));
                    }
                    assert(search_names(self@, qv) =~= Seq::<Seq<char>>::empty());
                    assert(search_raws(self@, qv) =~= Seq::<Seq<char>>::empty());
                    assert(res.nodes_view() =~= result.nodes_view() + search_names(self@, qv));
                    assert(res.queries_view() =~= result.queries_view() + search_raws(self@, qv));
                    lemma_concat_to_set(result.queries_view(), search_raws(self@, qv));
                }
                res
            },
            Node::Dir(d) => {
                proof {
                    lemma_node_dir_view(*d);
                    let nv = *self;
                    match nv {
                        Node::Dir(dd) => {
                            assert(decreases_to!(nv => dd));
                            assert(dd == *d);
                        },
                        Node::File(_) => {},
                    }
                }
                d.search(queries, result)
            },
        }
    }
}

impl Dir {
    /// Searches every child subtree in order, then sorts the recorded query
    /// strings and drops duplicates.
    pub fn search(&self, queries: &Vec<Queries>, result: MatchResult) -> (r: MatchResult)
        ensures
            r.nodes_view() == result.nodes_view() + search_names_list(
                self@.children,
                queries_view(queries@),
            ),
            strictly_sorted(r.queries_view()),
            r.queries_view().to_set() == result.queries_view().to_set() + search_raws_list(
                self@.children,
                queries_view(queries@),
            ).to_set(),
        decreases *self,
    {
        let ghost qv = queries_view(queries@);
        proof {
            lemma_dir_children(*self);
            assert(self@.children.take(0) =~= Seq::<NodeV>::empty());
            assert(search_names_list(Seq::<NodeV>::empty(), qv) == Seq::<Seq<char>>::empty());
            assert(search_raws_list(Seq::<NodeV>::empty(), qv) == Seq::<Seq<char>>::empty());
        }
        let mut res = result;
        proof {
            assert(res.nodes_view() =~= result.nodes_view() + search_names_list(
                self@.children.take(0),
                qv,
            ));
            assert(search_raws_list(self@.children.take(0), qv).to_set() =~= Set::empty());
            assert(res.queries_view().to_set() =~= result.queries_view().to_set()
                + search_raws_list(self@.children.take(0), qv).to_set());
        }
        let n = self.children.len();
        let mut i: usize = 0;
        while i < n
            invariant
                i <= n,
                n == self.children@.len(),
                qv == queries_view(queries@),
                self@.children.len() == n,
                forall|k: int| 0 <= k < n ==> self@.children[k] == (#[trigger] self.children@[k])@,
                res.nodes_view() == result.nodes_view() + search_names_list(
                    self@.children.take(i as int),
                    qv,
                ),
                res.queries_view().to_set() == result.queries_view().to_set() + search_raws_list(
                    self@.children.take(i as int),
                    qv,
                ).to_set(),
            decreases n - i,
        {
            let c = &self.children[i];
            proof {
                let sv = *self;
                assert(decreases_to!(sv => sv.children));
                assert(decreases_to!(sv.children => sv.children@));
                assert(decreases_to!(sv.children@ => sv.children@[i as int]));
            }
            res = c.search(queries, res);
            proof {
                let pref = self@.children.take(i as int);
                let child = self@.children[i as int];
                assert(self@.children.take(i + 1) =~= pref.push(child));
                lemma_search_list_snoc(pref, child, qv);
                assert(res.nodes_view() =~= result.nodes_view() + search_names_list(
                    self@.children.take(i + 1),
                    qv,
                ));
                lemma_concat_to_set(search_raws_list(pref, qv), search_raws(child, qv));
                assert(res.queries_view().to_set() =~= result.queries_view().to_set()
                    + search_raws_list(self@.children.take(i + 1), qv).to_set());
            }
            i = i + 1;
        }
        proof {
            assert(self@.children.take(n as int) =~= self@.children);
        }
        res.normalize_queries();
        res
    }
}

} // verus!
