//! The model of a filesystem: what exists at each path, and what each
//! operation makes of it.

use vstd::prelude::*;
use crate::error::Error;
use crate::path::Segments;

verus! {

/// What a filesystem holds at one path.
pub enum NodeView {
    /// A file with its content.
    File(Seq<char>),
    /// A directory. Its children are the entries whose paths extend its own.
    Directory,
    /// A symbolic link with the text of its target.
    Symlink(Seq<char>),
}

/// A filesystem as a mathematical value: what exists at each path, a path
/// being a sequence of segments.
pub type Tree = Map<Segments, NodeView>;

/// Something exists at `p`.
pub open spec fn exists_at(t: Tree, p: Segments) -> bool {
    t.dom().contains(p)
}

/// A file exists at `p`.
pub open spec fn is_file_at(t: Tree, p: Segments) -> bool {
    t.dom().contains(p) && t[p] is File
}

/// A directory exists at `p`.
pub open spec fn is_dir_at(t: Tree, p: Segments) -> bool {
    t.dom().contains(p) && t[p] is Directory
}

/// A symlink exists at `p`.
pub open spec fn is_symlink_at(t: Tree, p: Segments) -> bool {
    t.dom().contains(p) && t[p] is Symlink
}

/// What reading `p` gives.
pub open spec fn read_at(t: Tree, p: Segments) -> Result<Seq<char>, Error> {
    if !t.dom().contains(p) {
        Err(Error::NotFound)
    } else {
        match t[p] {
            NodeView::File(content) => Ok(content),
            _ => Err(Error::NotReadable),
        }
    }
}

/// The tree after `content` was written to `p`.
pub open spec fn with_file(t: Tree, p: Segments, content: Seq<char>) -> Tree {
    t.insert(p, NodeView::File(content))
}

/// `p` lies at or under `root`: the segments of `root` begin those of `p`.
pub open spec fn under(p: Segments, root: Segments) -> bool {
    root.is_prefix_of(p)
}

/// Some path from the root down to `p`, `p` included, holds a file or a
/// symlink, so that no chain of directories can lead to `p`.
pub open spec fn blocked(t: Tree, p: Segments) -> bool {
    exists|k: int| 0 <= k <= p.len() && #[trigger] t.dom().contains(p.take(k)) && !(t[p.take(
        k,
    )] is Directory)
}

/// The tree after every path from the root down to `p`, `p` included, was
/// made a directory.
pub open spec fn with_directories(t: Tree, p: Segments) -> Tree {
    Map::new(
        |q: Segments| t.dom().contains(q) || under(p, q),
        |q: Segments|
            if under(p, q) {
                NodeView::Directory
            } else {
                t[q]
            },
    )
}

/// The tree after `p` and everything under it was deleted.
pub open spec fn without_subtree(t: Tree, p: Segments) -> Tree {
    Map::new(|q: Segments| t.dom().contains(q) && !under(q, p), |q: Segments| t[q])
}

/// The path that `q`, which lies under `to`, is the copy of when `from` is
/// copied to `to`.
pub open spec fn source_of(q: Segments, from: Segments, to: Segments) -> Segments {
    from + q.skip(to.len() as int)
}

/// `q` receives a copy when the directory `from` is copied to `to`.
pub open spec fn copied_to(t: Tree, q: Segments, from: Segments, to: Segments) -> bool {
    under(q, to) && t.dom().contains(source_of(q, from, to))
}

/// The tree after `from` was copied to `to`. A directory is copied with
/// everything under it, each entry keeping its place relative to the
/// directory; what already exists at a path that receives a copy is replaced,
/// and everything else stays.
pub open spec fn with_copy(t: Tree, from: Segments, to: Segments) -> Tree {
    if t[from] is Directory {
        Map::new(
            |q: Segments| t.dom().contains(q) || copied_to(t, q, from, to),
            |q: Segments|
                if copied_to(t, q, from, to) {
                    t[source_of(q, from, to)]
                } else {
                    t[q]
                },
        )
    } else {
        t.insert(to, t[from])
    }
}

/// The tree after a symlink to `target` was created at `link`.
pub open spec fn with_symlink(t: Tree, target: Seq<char>, link: Segments) -> Tree {
    t.insert(link, NodeView::Symlink(target))
}

/// Making the directories down to `p` a second time finds nothing in the way
/// and changes nothing.
pub proof fn lemma_directories_twice(t: Tree, p: Segments)
    requires
        !blocked(t, p),
    ensures
        !blocked(with_directories(t, p), p),
        with_directories(with_directories(t, p), p) == with_directories(t, p),
{
    let made = with_directories(t, p);
    assert forall|k: int| 0 <= k <= p.len() implies made[#[trigger] p.take(k)] is Directory by {
        assert(p.take(k) =~= p.subrange(0, p.take(k).len() as int));
    }
    assert(with_directories(made, p) =~= made);
}

/// Where every path from the root down to `p` is a directory already, making
/// the directories down to `p` changes nothing.
pub proof fn lemma_directories_present(t: Tree, p: Segments)
    requires
        forall|k: int| 0 <= k <= p.len() ==> is_dir_at(t, #[trigger] p.take(k)),
    ensures
        !blocked(t, p),
        with_directories(t, p) == t,
{
    assert forall|q: Segments| under(p, q) implies is_dir_at(t, q) by {
        assert(q =~= p.take(q.len() as int));
    }
    assert(with_directories(t, p) =~= t);
}

/// A file or a symlink blocks the creation of every directory at or under
/// its path.
pub proof fn lemma_conflict_blocks(t: Tree, p: Segments, q: Segments)
    requires
        t.dom().contains(q),
        !(t[q] is Directory),
        under(p, q),
    ensures
        blocked(t, p),
{
    assert(p.take(q.len() as int) =~= q);
}

/// After the directories down to `p` were made, a directory exists at every
/// path from the root down to `p`, and every other path holds what it held.
pub proof fn lemma_directories_made(t: Tree, p: Segments, q: Segments)
    ensures
        under(p, q) ==> is_dir_at(with_directories(t, p), q),
        !under(p, q) ==> (exists_at(with_directories(t, p), q) <==> exists_at(t, q)),
        !under(p, q) && exists_at(t, q) ==> with_directories(t, p)[q] == t[q],
{
}

/// A copy of a directory preserves its structure: every entry under `from`
/// has a copy at the same place under `to`, with the same content.
pub proof fn lemma_copy_preserves_structure(
    t: Tree,
    from: Segments,
    to: Segments,
    k: Segments,
)
    requires
        is_dir_at(t, from),
        t.dom().contains(k),
        under(k, from),
    ensures
        with_copy(t, from, to).dom().contains(to + k.skip(from.len() as int)),
        with_copy(t, from, to)[to + k.skip(from.len() as int)] == t[k],
{
    let q = to + k.skip(from.len() as int);
    assert(q.subrange(0, to.len() as int) =~= to);
    assert(q.skip(to.len() as int) =~= k.skip(from.len() as int));
    assert(from + k.skip(from.len() as int) =~= k);
    assert(source_of(q, from, to) == k);
}

/// A copy adds nothing but copies: a path holds after the copy what its
/// source held if it received a copy, and what it held before if not.
pub proof fn lemma_copy_changes_only_copies(
    t: Tree,
    from: Segments,
    to: Segments,
    q: Segments,
)
    requires
        is_dir_at(t, from),
    ensures
        exists_at(with_copy(t, from, to), q) <==> exists_at(t, q) || copied_to(t, q, from, to),
        copied_to(t, q, from, to) ==> with_copy(t, from, to)[q] == t[source_of(q, from, to)],
        !copied_to(t, q, from, to) && exists_at(t, q) ==> with_copy(t, from, to)[q] == t[q],
{
}

/// A deletion removes exactly the subtree: what lies at or under `p` is gone,
/// and every other path holds what it held.
pub proof fn lemma_remove_exactly_subtree(t: Tree, p: Segments, q: Segments)
    ensures
        under(q, p) ==> !exists_at(without_subtree(t, p), q),
        !under(q, p) ==> (exists_at(without_subtree(t, p), q) <==> exists_at(t, q)),
        !under(q, p) && exists_at(t, q) ==> without_subtree(t, p)[q] == t[q],
{
}

/// Whether a path lies under another is decided by whole segments: a sibling
/// whose name differs from `name`, even if it begins with the same
/// characters, and everything under that sibling, is not under `name`.
pub proof fn lemma_sibling_not_under(
    parent: Segments,
    name: Seq<char>,
    sibling: Seq<char>,
    rest: Segments,
)
    requires
        name != sibling,
    ensures
        !under(parent.push(sibling) + rest, parent.push(name)),
{
    let q = parent.push(sibling) + rest;
    let p = parent.push(name);
    if under(q, p) {
        assert(q.subrange(0, p.len() as int)[parent.len() as int] == sibling);
        assert(p[parent.len() as int] == name);
    }
}

/// The tree is a hierarchy: whatever exists lies in a directory, which lies
/// in a directory, and so on up to the root.
pub open spec fn hierarchical(t: Tree) -> bool {
    forall|q: Segments, k: int|
        t.dom().contains(q) && 0 <= k < q.len() ==> is_dir_at(t, #[trigger] q.take(k))
}

/// In a hierarchy nothing lies under a file or a symlink, and nothing under a
/// path at which nothing exists.
pub proof fn lemma_hierarchy_below(t: Tree, p: Segments, q: Segments)
    requires
        hierarchical(t),
        t.dom().contains(q),
        under(q, p),
        q != p,
    ensures
        is_dir_at(t, p),
{
    if p.len() == q.len() {
        assert(q =~= p);
    }
    assert(q.take(p.len() as int) =~= p);
    assert(is_dir_at(t, q.take(p.len() as int)));
}

/// Making directories keeps a hierarchy a hierarchy.
pub proof fn lemma_directories_keep_hierarchy(t: Tree, p: Segments)
    requires
        hierarchical(t),
    ensures
        hierarchical(with_directories(t, p)),
{
    let made = with_directories(t, p);
    assert forall|q: Segments, k: int|
        made.dom().contains(q) && 0 <= k < q.len() implies is_dir_at(
        made,
        #[trigger] q.take(k),
    ) by {
        let r = q.take(k);
        if under(p, q) {
            assert(r =~= p.subrange(0, r.len() as int));
        } else {
            assert(is_dir_at(t, r));
        }
    }
}

/// A deletion keeps a hierarchy a hierarchy.
pub proof fn lemma_remove_keeps_hierarchy(t: Tree, p: Segments)
    requires
        hierarchical(t),
    ensures
        hierarchical(without_subtree(t, p)),
{
    let left = without_subtree(t, p);
    assert forall|q: Segments, k: int|
        left.dom().contains(q) && 0 <= k < q.len() implies is_dir_at(
        left,
        #[trigger] q.take(k),
    ) by {
        let r = q.take(k);
        assert(is_dir_at(t, r));
        if under(r, p) {
            assert(p =~= q.subrange(0, p.len() as int));
        }
    }
}

/// A symlink created in a directory, where nothing was or in the place of
/// what was deleted, keeps a hierarchy a hierarchy.
pub proof fn lemma_symlink_keeps_hierarchy(t: Tree, target: Seq<char>, link: Segments)
    requires
        hierarchical(t),
        link.len() > 0 ==> is_dir_at(t, link.drop_last()),
        !is_dir_at(t, link),
    ensures
        hierarchical(with_symlink(t, target, link)),
{
    let linked = with_symlink(t, target, link);
    assert forall|q: Segments, k: int|
        linked.dom().contains(q) && 0 <= k < q.len() implies is_dir_at(
        linked,
        #[trigger] q.take(k),
    ) by {
        let r = q.take(k);
        if q == link {
            let parent = link.drop_last();
            if k == link.len() - 1 {
                assert(r =~= parent);
            } else {
                assert(r =~= parent.take(k));
                assert(is_dir_at(t, parent.take(k)));
            }
        } else {
            assert(is_dir_at(t, r));
        }
    }
}

} // verus!
