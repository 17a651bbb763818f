//! A directory tree as a mathematical value, and what each operation on it
//! does.
//!
//! A path is a sequence of names, the outermost directory first. The empty
//! path is the top of the tree, which is always a directory. A tree lists
//! every other directory and file once, in the order of creation.

use crate::assoc::{
    distinct_keys, has_key, lemma_to_map_push, lemma_to_map_remove, lemma_to_map_update, position,
    to_map,
};
use vstd::prelude::*;

verus! {

/// A path: the names from the top of the tree down to an entry.
pub type Path = Seq<Seq<char>>;

/// What stands at a path: a directory, or a file with its text.
pub ghost enum Node {
    Dir,
    File(Seq<char>),
}

/// A tree: its entries below the top, in the order of creation.
pub type Tree = Seq<(Path, Node)>;

/// Why an operation on a tree failed.
#[derive(Debug, PartialEq, Eq, Clone, Copy, Structural)]
pub enum FsError {
    /// Nothing stands at the path, or at its parent.
    NotFound,
    /// The path is taken.
    AlreadyExists,
    /// A file stands where a directory is needed.
    NotADirectory,
    /// A directory stands where a file is needed.
    IsADirectory,
}

/// The entries of `t` by path.
pub open spec fn nodes(t: Tree) -> Map<Path, Node> {
    to_map(t)
}

/// Something stands at `p`.
pub open spec fn present(t: Tree, p: Path) -> bool {
    p.len() == 0 || nodes(t).contains_key(p)
}

/// A directory stands at `p`.
pub open spec fn is_dir(t: Tree, p: Path) -> bool {
    p.len() == 0 || (nodes(t).contains_key(p) && nodes(t)[p] is Dir)
}

/// A file stands at `p`.
pub open spec fn is_file(t: Tree, p: Path) -> bool {
    nodes(t).contains_key(p) && nodes(t)[p] is File
}

/// Every entry has a name, stands in a directory of the tree, and is listed
/// once.
pub open spec fn tree_wf(t: Tree) -> bool {
    &&& distinct_keys(t)
    &&& forall|i: int|
        0 <= i < t.len() ==> (#[trigger] t[i]).0.len() > 0 && is_dir(t, t[i].0.drop_last())
}

/// `q` stands directly in the directory `p`.
pub open spec fn child_of(q: Path, p: Path) -> bool {
    q.len() == p.len() + 1 && q.drop_last() == p
}

/// The names of the entries that stand directly in `p`, in the order of
/// creation.
pub open spec fn listing(t: Tree, p: Path) -> Seq<Seq<char>>
    decreases t.len(),
{
    if t.len() == 0 {
        Seq::empty()
    } else if child_of(t.last().0, p) {
        listing(t.drop_last(), p).push(t.last().0.last())
    } else {
        listing(t.drop_last(), p)
    }
}

/// `p` with every directory on the way to it created where it was missing.
pub open spec fn with_dirs(t: Tree, p: Path) -> Tree
    decreases p.len(),
{
    if p.len() == 0 {
        t
    } else {
        let u = with_dirs(t, p.drop_last());
        if has_key(u, p) {
            u
        } else {
            u.push((p, Node::Dir))
        }
    }
}

/// A file stands at `p` or on the way to it.
pub open spec fn file_on_way(t: Tree, p: Path) -> bool {
    exists|k: int| 1 <= k <= p.len() && is_file(t, #[trigger] p.take(k))
}

/// Creating the directory `p`, whose parent must be there.
pub open spec fn create_dir(t: Tree, p: Path) -> Result<Tree, FsError> {
    if present(t, p) {
        Err(FsError::AlreadyExists)
    } else if !present(t, p.drop_last()) {
        Err(FsError::NotFound)
    } else if !is_dir(t, p.drop_last()) {
        Err(FsError::NotADirectory)
    } else {
        Ok(t.push((p, Node::Dir)))
    }
}

/// Creating the directory `p` and every missing directory on the way to it.
pub open spec fn create_dir_all(t: Tree, p: Path) -> Result<Tree, FsError> {
    if file_on_way(t, p) {
        Err(FsError::NotADirectory)
    } else {
        Ok(with_dirs(t, p))
    }
}

/// Writing `text` to the file `p`: a new file is created in its directory,
/// a file that is there keeps its place and takes the new text.
pub open spec fn write_file(t: Tree, p: Path, text: Seq<char>) -> Result<Tree, FsError> {
    if is_dir(t, p) {
        Err(FsError::IsADirectory)
    } else if !present(t, p.drop_last()) {
        Err(FsError::NotFound)
    } else if !is_dir(t, p.drop_last()) {
        Err(FsError::NotADirectory)
    } else if has_key(t, p) {
        Ok(t.update(position(t, p), (p, Node::File(text))))
    } else {
        Ok(t.push((p, Node::File(text))))
    }
}

/// Removing the file `p`.
pub open spec fn remove_file(t: Tree, p: Path) -> Result<Tree, FsError> {
    if !present(t, p) {
        Err(FsError::NotFound)
    } else if is_dir(t, p) {
        Err(FsError::IsADirectory)
    } else {
        Ok(t.remove(position(t, p)))
    }
}

/// Reading the text of the file `p`.
pub open spec fn read_to_string(t: Tree, p: Path) -> Result<Seq<char>, FsError> {
    if !present(t, p) {
        Err(FsError::NotFound)
    } else if is_dir(t, p) {
        Err(FsError::IsADirectory)
    } else {
        Ok(nodes(t)[p]->File_0)
    }
}

/// Listing the directory `p`.
pub open spec fn read_dir(t: Tree, p: Path) -> Result<Seq<Seq<char>>, FsError> {
    if !present(t, p) {
        Err(FsError::NotFound)
    } else if !is_dir(t, p) {
        Err(FsError::NotADirectory)
    } else {
        Ok(listing(t, p))
    }
}

/// The paths of a tree's entries are the keys of its sequence.
pub proof fn lemma_nodes_keys(t: Tree)
    ensures
        forall|p: Path| #[trigger] nodes(t).contains_key(p) <==> has_key(t, p),
{
    reveal(to_map);
}

/// Adding an entry under a new path, in a directory of the tree, keeps the
/// tree well formed and inserts the entry.
pub proof fn lemma_push_entry(t: Tree, p: Path, node: Node)
    requires
        tree_wf(t),
        p.len() > 0,
        !has_key(t, p),
        is_dir(t, p.drop_last()),
    ensures
        tree_wf(t.push((p, node))),
        nodes(t.push((p, node))) == nodes(t).insert(p, node),
{
    let u = t.push((p, node));
    lemma_to_map_push(t, p, node);
    lemma_nodes_keys(t);
    lemma_nodes_keys(u);
    assert forall|i: int| 0 <= i < u.len() implies (#[trigger] u[i]).0.len() > 0 && is_dir(
        u,
        u[i].0.drop_last(),
    ) by {
        if i < t.len() {
            assert(u[i] == t[i]);
            assert(is_dir(t, t[i].0.drop_last()));
        }
    }
}

/// Replacing the text of a file keeps the tree well formed and replaces the
/// entry.
pub proof fn lemma_update_file(t: Tree, p: Path, text: Seq<char>)
    requires
        tree_wf(t),
        is_file(t, p),
    ensures
        tree_wf(t.update(position(t, p), (p, Node::File(text)))),
        nodes(t.update(position(t, p), (p, Node::File(text)))) == nodes(t).insert(
            p,
            Node::File(text),
        ),
{
    let i = position(t, p);
    lemma_nodes_keys(t);
    assert(has_key(t, p));
    assert(0 <= i < t.len() && t[i].0 == p);
    let u = t.update(i, (p, Node::File(text)));
    lemma_to_map_update(t, i, Node::File(text));
    assert forall|j: int| 0 <= j < u.len() implies (#[trigger] u[j]).0.len() > 0 && is_dir(
        u,
        u[j].0.drop_last(),
    ) by {
        assert(u[j].0 == t[j].0);
        assert(is_dir(t, t[j].0.drop_last()));
    }
}

/// Removing a file keeps the tree well formed and removes the entry.
pub proof fn lemma_remove_entry(t: Tree, p: Path)
    requires
        tree_wf(t),
        is_file(t, p),
    ensures
        tree_wf(t.remove(position(t, p))),
        nodes(t.remove(position(t, p))) == nodes(t).remove(p),
{
    let i = position(t, p);
    lemma_nodes_keys(t);
    assert(has_key(t, p));
    assert(0 <= i < t.len() && t[i].0 == p);
    let u = t.remove(i);
    lemma_to_map_remove(t, i);
    assert forall|j: int| 0 <= j < u.len() implies (#[trigger] u[j]).0.len() > 0 && is_dir(
        u,
        u[j].0.drop_last(),
    ) by {
        let j0 = if j < i {
            j
        } else {
            j + 1
        };
        assert(u[j] == t[j0]);
        assert(is_dir(t, t[j0].0.drop_last()));
    }
}

/// What a successful `create_dir` leaves.
pub proof fn lemma_create_dir(t: Tree, p: Path)
    requires
        tree_wf(t),
        create_dir(t, p) is Ok,
    ensures
        tree_wf(create_dir(t, p)->Ok_0),
        nodes(create_dir(t, p)->Ok_0) == nodes(t).insert(p, Node::Dir),
{
    lemma_nodes_keys(t);
    lemma_push_entry(t, p, Node::Dir);
}

/// What a successful `write_file` leaves.
pub proof fn lemma_write_file(t: Tree, p: Path, text: Seq<char>)
    requires
        tree_wf(t),
        write_file(t, p, text) is Ok,
    ensures
        tree_wf(write_file(t, p, text)->Ok_0),
        nodes(write_file(t, p, text)->Ok_0) == nodes(t).insert(p, Node::File(text)),
{
    lemma_nodes_keys(t);
    if has_key(t, p) {
        lemma_update_file(t, p, text);
    } else {
        lemma_push_entry(t, p, Node::File(text));
    }
}

/// What a successful `remove_file` leaves.
pub proof fn lemma_remove_file(t: Tree, p: Path)
    requires
        tree_wf(t),
        remove_file(t, p) is Ok,
    ensures
        tree_wf(remove_file(t, p)->Ok_0),
        nodes(remove_file(t, p)->Ok_0) == nodes(t).remove(p),
{
    lemma_nodes_keys(t);
    lemma_remove_entry(t, p);
}

/// Where a directory stands, every directory on the way to it stands too:
/// there is nothing to create.
pub proof fn lemma_with_dirs_present(t: Tree, p: Path)
    requires
        tree_wf(t),
        is_dir(t, p),
    ensures
        with_dirs(t, p) == t,
    decreases p.len(),
{
    lemma_nodes_keys(t);
    if p.len() > 0 {
        let i = choose|i: int| 0 <= i < t.len() && (#[trigger] t[i]).0 == p;
        assert(is_dir(t, t[i].0.drop_last()));
        lemma_with_dirs_present(t, p.drop_last());
    }
}

/// Below a directory that stands, `create_dir_all` creates at most the last
/// directory of the path.
pub proof fn lemma_with_dirs_last(t: Tree, p: Path)
    requires
        tree_wf(t),
        p.len() > 0,
        is_dir(t, p.drop_last()),
    ensures
        with_dirs(t, p) == if has_key(t, p) {
            t
        } else {
            t.push((p, Node::Dir))
        },
{
    lemma_with_dirs_present(t, p.drop_last());
}

/// What a successful `create_dir_all` leaves: the old entries as they were,
/// and a directory at the path and at each place on the way to it.
pub proof fn lemma_with_dirs(t: Tree, p: Path)
    requires
        tree_wf(t),
        !file_on_way(t, p),
    ensures
        tree_wf(with_dirs(t, p)),
        is_dir(with_dirs(t, p), p),
        forall|q: Path| #[trigger]
            nodes(t).contains_key(q) ==> nodes(with_dirs(t, p)).contains_key(q) && nodes(
                with_dirs(t, p),
            )[q] == nodes(t)[q],
        forall|q: Path| #[trigger]
            nodes(with_dirs(t, p)).contains_key(q) ==> nodes(t).contains_key(q) || (exists|
                k: int,
            |
                1 <= k <= p.len() && q == #[trigger] p.take(k)),
    decreases p.len(),
{
    if p.len() > 0 {
        let d = p.drop_last();
        assert forall|k: int| 1 <= k <= d.len() implies !is_file(t, #[trigger] d.take(k)) by {
            assert(d.take(k) =~= p.take(k));
        }
        lemma_with_dirs(t, d);
        let u = with_dirs(t, d);
        lemma_nodes_keys(t);
        lemma_nodes_keys(u);
        lemma_nodes_keys(with_dirs(t, p));
        assert(p.take(p.len() as int) =~= p);
        assert(!is_file(t, p.take(p.len() as int)));
        assert forall|q: Path| #[trigger]
            nodes(with_dirs(t, p)).contains_key(q) implies nodes(t).contains_key(q) || (exists|
            k: int,
        |
            1 <= k <= p.len() && q == #[trigger] p.take(k)) by {
            if nodes(u).contains_key(q) {
                if !nodes(t).contains_key(q) {
                    let k = choose|k: int| 1 <= k <= d.len() && q == #[trigger] d.take(k);
                    assert(d.take(k) =~= p.take(k));
                }
            }
        }
        if has_key(u, p) {
            assert(nodes(u).contains_key(p));
            if !nodes(t).contains_key(p) {
                let k = choose|k: int| 1 <= k <= d.len() && p == #[trigger] d.take(k);
                assert(d.take(k).len() == k);
            }
        } else {
            lemma_push_entry(u, p, Node::Dir);
        }
    }
}

/// A name is listed in a directory exactly when an entry stands under that
/// name in it.
pub proof fn lemma_listing_contains(t: Tree, p: Path, name: Seq<char>)
    ensures
        listing(t, p).contains(name) <==> has_key(t, p.push(name)),
    decreases t.len(),
{
    if t.len() > 0 {
        let r = t.drop_last();
        let e = t.last();
        lemma_listing_contains(r, p, name);
        if has_key(r, p.push(name)) {
            let i = choose|i: int| 0 <= i < r.len() && (#[trigger] r[i]).0 == p.push(name);
            assert(t[i].0 == p.push(name));
        }
        if child_of(e.0, p) {
            let rest = listing(r, p);
            let all = rest.push(e.0.last());
            assert(listing(t, p) == all);
            if e.0.last() == name {
                assert(e.0 =~= p.push(name));
                assert(t[t.len() - 1].0 == p.push(name));
                assert(all[rest.len() as int] == name);
            }
            if all.contains(name) {
                let j = choose|j: int| 0 <= j < all.len() && all[j] == name;
                if j < rest.len() {
                    assert(rest[j] == name);
                }
            }
            if rest.contains(name) {
                let j = choose|j: int| 0 <= j < rest.len() && rest[j] == name;
                assert(all[j] == name);
            }
        }
        if has_key(t, p.push(name)) {
            let i = choose|i: int| 0 <= i < t.len() && (#[trigger] t[i]).0 == p.push(name);
            if i < r.len() {
                assert(r[i].0 == p.push(name));
            } else {
                assert(e.0 == p.push(name));
                assert(p.push(name).drop_last() =~= p);
                assert(child_of(e.0, p));
            }
        }
    }
}

/// Every place on the way to a directory of the tree is a directory.
pub proof fn lemma_ancestors(t: Tree, p: Path, k: int)
    requires
        tree_wf(t),
        is_dir(t, p),
        0 <= k <= p.len(),
    ensures
        is_dir(t, p.take(k)),
    decreases p.len() - k,
{
    if k == p.len() {
        assert(p.take(k) =~= p);
    } else {
        lemma_ancestors(t, p, k + 1);
        let q = p.take(k + 1);
        lemma_nodes_keys(t);
        let i = choose|i: int| 0 <= i < t.len() && (#[trigger] t[i]).0 == q;
        assert(is_dir(t, t[i].0.drop_last()));
        assert(q.drop_last() =~= p.take(k));
    }
}

/// Whatever stands in the tree stands in a directory of the tree.
pub proof fn lemma_parent(t: Tree, p: Path)
    requires
        tree_wf(t),
        nodes(t).contains_key(p),
    ensures
        p.len() > 0,
        is_dir(t, p.drop_last()),
{
    lemma_nodes_keys(t);
    let i = choose|i: int| 0 <= i < t.len() && (#[trigger] t[i]).0 == p;
    assert(is_dir(t, t[i].0.drop_last()));
}

/// Below a directory that stands, `create_dir_all` succeeds unless a file
/// has the name, and leaves a directory there.
pub proof fn lemma_create_dir_all_below(t: Tree, p: Path)
    requires
        tree_wf(t),
        p.len() > 0,
        is_dir(t, p.drop_last()),
        !is_file(t, p),
    ensures
        create_dir_all(t, p) is Ok,
        tree_wf(create_dir_all(t, p)->Ok_0),
        nodes(create_dir_all(t, p)->Ok_0) == nodes(t).insert(p, Node::Dir),
{
    let d = p.drop_last();
    assert forall|k: int| 1 <= k <= p.len() implies !is_file(t, #[trigger] p.take(k)) by {
        if k == p.len() {
            assert(p.take(k) =~= p);
        } else {
            lemma_ancestors(t, d, k);
            assert(d.take(k) =~= p.take(k));
        }
    }
    lemma_with_dirs_last(t, p);
    lemma_nodes_keys(t);
    if has_key(t, p) {
        assert(nodes(t).insert(p, Node::Dir) =~= nodes(t));
    } else {
        lemma_push_entry(t, p, Node::Dir);
    }
}

/// Below a directory that stands, `write_file` succeeds unless a directory
/// has the name, and leaves the file there.
pub proof fn lemma_write_file_below(t: Tree, p: Path, text: Seq<char>)
    requires
        tree_wf(t),
        p.len() > 0,
        is_dir(t, p.drop_last()),
        !is_dir(t, p),
    ensures
        write_file(t, p, text) is Ok,
        tree_wf(write_file(t, p, text)->Ok_0),
        nodes(write_file(t, p, text)->Ok_0) == nodes(t).insert(p, Node::File(text)),
{
    lemma_write_file(t, p, text);
}

/// In a directory that stands, `create_dir` succeeds where the name is
/// free, and leaves a directory there.
pub proof fn lemma_create_dir_below(t: Tree, p: Path)
    requires
        tree_wf(t),
        p.len() > 0,
        is_dir(t, p.drop_last()),
        !present(t, p),
    ensures
        create_dir(t, p) is Ok,
        tree_wf(create_dir(t, p)->Ok_0),
        nodes(create_dir(t, p)->Ok_0) == nodes(t).insert(p, Node::Dir),
{
    lemma_create_dir(t, p);
}

/// A name is listed in a directory exactly when the tree has an entry under
/// that name in it.
pub proof fn lemma_listed(t: Tree, p: Path, name: Seq<char>)
    ensures
        listing(t, p).contains(name) <==> nodes(t).contains_key(p.push(name)),
{
    lemma_listing_contains(t, p, name);
    crate::assoc::lemma_to_map_has(t, p.push(name));
}

/// A directory lists no name twice.
pub proof fn lemma_listing_distinct(t: Tree, p: Path)
    requires
        distinct_keys(t),
    ensures
        listing(t, p).no_duplicates(),
    decreases t.len(),
{
    if t.len() > 0 {
        let head = t.drop_last();
        let last = t.last();
        crate::assoc::lemma_to_map_last(t);
        lemma_listing_distinct(head, p);
        if child_of(last.0, p) {
            let name = last.0.last();
            lemma_listing_contains(head, p, name);
            assert(p.push(name) =~= last.0);
            let before = listing(head, p);
            let all = before.push(name);
            assert forall|i: int, j: int| 0 <= i < all.len() && 0 <= j < all.len() && i
                != j implies all[i] != all[j] by {
                if i < before.len() && j < before.len() {
                } else if i < before.len() {
                    assert(before.contains(before[i]));
                } else {
                    assert(before.contains(before[j]));
                }
            }
        }
    }
}

} // verus!
