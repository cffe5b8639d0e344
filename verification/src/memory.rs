//! A filesystem that lives in memory, for runs that must not touch real
//! storage. Each value is a filesystem of its own.

use vstd::prelude::*;
use vstd::string::*;
use crate::disk::Filesystem;
use crate::error::Error;
use crate::path::{segments, split_path, texts, Segments};
use crate::tree::{
    blocked, copied_to, exists_at, is_dir_at, is_file_at, is_symlink_at, read_at, source_of, under,
    with_copy, with_directories, with_file, with_symlink, without_subtree, NodeView, Tree,
};

verus! {

/// What the filesystem holds at one path.
enum Node {
    /// A file with its content.
    File(String),
    /// A directory. Its children are the entries whose paths extend its own.
    Directory,
    /// A symbolic link with the text of its target.
    Symlink(String),
}

impl Node {
    /// The mathematical value of this node.
    spec fn value(&self) -> NodeView {
        match self {
            Node::File(content) => NodeView::File(content@),
            Node::Directory => NodeView::Directory,
            Node::Symlink(target) => NodeView::Symlink(target@),
        }
    }

    /// A copy of this node.
    fn duplicate(&self) -> (r: Node)
        ensures
            r.value() == self.value(),
    {
        match self {
            Node::File(content) => Node::File(content.clone()),
            Node::Directory => Node::Directory,
            Node::Symlink(target) => Node::Symlink(target.clone()),
        }
    }
}

/// One path and what it holds.
struct Slot {
    path: Vec<String>,
    node: Node,
}

impl Slot {
    /// The path of this slot, as segments.
    spec fn key(&self) -> Segments {
        texts(self.path@)
    }

    /// What this slot holds.
    spec fn value(&self) -> NodeView {
        self.node.value()
    }

    /// A copy of this slot.
    fn duplicate(&self) -> (r: Slot)
        ensures
            r.key() == self.key(),
            r.value() == self.value(),
    {
        let path = leading(&self.path, self.path.len());
        assert(texts(self.path@).take(self.path.len() as int) =~= texts(self.path@));
        Slot { path, node: self.node.duplicate() }
    }
}

/// The tree that a list of slots stands for. Where a path occurs twice, the
/// later slot counts.
spec fn tree_of(slots: Seq<Slot>) -> Tree
    decreases slots.len(),
{
    if slots.len() == 0 {
        Map::empty()
    } else {
        tree_of(slots.drop_last()).insert(slots.last().key(), slots.last().value())
    }
}

/// A slot after which `key` does not occur again decides what the tree
/// holds at `key`.
proof fn lemma_last_occurrence(slots: Seq<Slot>, key: Segments, i: int)
    requires
        0 <= i < slots.len(),
        slots[i].key() == key,
        forall|j: int| i < j < slots.len() ==> slots[j].key() != key,
    ensures
        tree_of(slots).dom().contains(key),
        tree_of(slots)[key] == slots[i].value(),
    decreases slots.len(),
{
    if i < slots.len() - 1 {
        lemma_last_occurrence(slots.drop_last(), key, i);
    }
}

/// A path that no slot has is not in the tree.
proof fn lemma_no_occurrence(slots: Seq<Slot>, key: Segments)
    requires
        forall|j: int| 0 <= j < slots.len() ==> slots[j].key() != key,
    ensures
        !tree_of(slots).dom().contains(key),
    decreases slots.len(),
{
    if slots.len() > 0 {
        lemma_no_occurrence(slots.drop_last(), key);
    }
}

/// Replacing the last slot of a path by another slot of that path is an
/// insertion into the tree.
proof fn lemma_replace_last_occurrence(slots: Seq<Slot>, i: int, slot: Slot)
    requires
        0 <= i < slots.len(),
        slots[i].key() == slot.key(),
        forall|j: int| i < j < slots.len() ==> slots[j].key() != slot.key(),
    ensures
        tree_of(slots.update(i, slot)) == tree_of(slots).insert(slot.key(), slot.value()),
    decreases slots.len(),
{
    let changed = slots.update(i, slot);
    if i == slots.len() - 1 {
        assert(changed.drop_last() =~= slots.drop_last());
        assert(tree_of(changed) =~= tree_of(slots).insert(slot.key(), slot.value()));
    } else {
        lemma_replace_last_occurrence(slots.drop_last(), i, slot);
        assert(changed.drop_last() =~= slots.drop_last().update(i, slot));
        assert(changed.last() == slots.last());
        assert(tree_of(changed) =~= tree_of(slots).insert(slot.key(), slot.value()));
    }
}

/// Lists of slots that agree slot by slot stand for the same tree.
proof fn lemma_same_slots(a: Seq<Slot>, b: Seq<Slot>)
    requires
        a.len() == b.len(),
        forall|j: int|
            0 <= j < a.len() ==> a[j].key() == b[j].key() && a[j].value() == b[j].value(),
    ensures
        tree_of(a) == tree_of(b),
    decreases a.len(),
{
    if a.len() > 0 {
        lemma_same_slots(a.drop_last(), b.drop_last());
    }
}

/// The tree while the directory `from` is being copied to `to`: of the
/// entries of `t`, those that `part` holds have been copied so far.
spec fn copy_progress(t: Tree, part: Tree, from: Segments, to: Segments) -> Tree {
    Map::new(
        |q: Segments| t.dom().contains(q) || copied_to(part, q, from, to),
        |q: Segments|
            if copied_to(part, q, from, to) {
                part[source_of(q, from, to)]
            } else {
                t[q]
            },
    )
}

/// The path to which `k`, which lies under `from`, is copied when `from` is
/// copied to `to`.
spec fn target_of(k: Segments, from: Segments, to: Segments) -> Segments {
    to + k.skip(from.len() as int)
}

/// `target_of` and `source_of` undo each other.
proof fn lemma_target_source(
    k: Segments,
    q: Segments,
    from: Segments,
    to: Segments,
)
    ensures
        under(source_of(q, from, to), from),
        under(k, from) ==> under(target_of(k, from, to), to) && source_of(
            target_of(k, from, to),
            from,
            to,
        ) == k,
        under(q, to) && source_of(q, from, to) == k ==> q == target_of(k, from, to),
{
    assert(source_of(q, from, to).subrange(0, from.len() as int) =~= from);
    if under(k, from) {
        let target = target_of(k, from, to);
        assert(target.subrange(0, to.len() as int) =~= to);
        assert(target.skip(to.len() as int) =~= k.skip(from.len() as int));
        assert(from + k.skip(from.len() as int) =~= k);
    }
    if under(q, to) && source_of(q, from, to) == k {
        assert(k.skip(from.len() as int) =~= q.skip(to.len() as int));
        assert(to + q.skip(to.len() as int) =~= q);
    }
}

/// Copying one more slot of the source turns one state of a copy into the
/// next.
proof fn lemma_copy_step(
    t: Tree,
    part: Tree,
    from: Segments,
    to: Segments,
    k: Segments,
    v: NodeView,
)
    ensures
        under(k, from) ==> copy_progress(t, part.insert(k, v), from, to) == copy_progress(
            t,
            part,
            from,
            to,
        ).insert(target_of(k, from, to), v),
        !under(k, from) ==> copy_progress(t, part.insert(k, v), from, to) == copy_progress(
            t,
            part,
            from,
            to,
        ),
{
    let next = copy_progress(t, part.insert(k, v), from, to);
    let now = copy_progress(t, part, from, to);
    let wanted = if under(k, from) {
        now.insert(target_of(k, from, to), v)
    } else {
        now
    };
    assert forall|q: Segments|
        (#[trigger] next.dom().contains(q) <==> wanted.dom().contains(q)) && (next.dom().contains(
            q,
        ) ==> next[q] == wanted[q]) by {
        lemma_target_source(k, q, from, to);
    }
    assert(next =~= wanted);
}

/// The tree while the directories down to `p` are being made: those of
/// fewer than `n` segments are made so far.
spec fn directories_progress(t: Tree, p: Segments, n: int) -> Tree {
    Map::new(
        |q: Segments| t.dom().contains(q) || (under(p, q) && q.len() < n),
        |q: Segments|
            if under(p, q) && q.len() < n {
                NodeView::Directory
            } else {
                t[q]
            },
    )
}

/// Making the directory of `n` segments turns one state of a directory
/// creation into the next.
proof fn lemma_directories_step(t: Tree, p: Segments, n: int)
    requires
        0 <= n <= p.len(),
    ensures
        directories_progress(t, p, n + 1) == directories_progress(t, p, n).insert(
            p.take(n),
            NodeView::Directory,
        ),
{
    let next = directories_progress(t, p, n + 1);
    let now = directories_progress(t, p, n).insert(p.take(n), NodeView::Directory);
    assert(under(p, p.take(n))) by {
        assert(p.take(n) =~= p.subrange(0, p.take(n).len() as int));
    }
    assert forall|q: Segments| under(p, q) && q.len() == n implies q == p.take(n) by {
        assert(q =~= p.take(n));
    }
    assert(next =~= now);
}

/// Whether two paths have the same segments.
fn same_path(a: &Vec<String>, b: &Vec<String>) -> (r: bool)
    ensures
        r == (texts(a@) == texts(b@)),
{
    if a.len() != b.len() {
        return false;
    }
    let mut i: usize = 0;
    while i < a.len()
        invariant
            i <= a.len(),
            a.len() == b.len(),
            forall|j: int| 0 <= j < i ==> a[j]@ == b[j]@,
        decreases a.len() - i,
    {
        if a[i] != b[i] {
            assert(texts(a@)[i as int] != texts(b@)[i as int]);
            return false;
        }
        i += 1;
    }
    assert(texts(a@) =~= texts(b@));
    true
}

/// Whether `path` lies at or under `root`.
fn lies_under(path: &Vec<String>, root: &Vec<String>) -> (r: bool)
    ensures
        r == under(texts(path@), texts(root@)),
{
    if root.len() > path.len() {
        return false;
    }
    let mut i: usize = 0;
    while i < root.len()
        invariant
            i <= root.len() <= path.len(),
            forall|j: int| 0 <= j < i ==> path[j]@ == root[j]@,
        decreases root.len() - i,
    {
        if path[i] != root[i] {
            assert(texts(path@).subrange(0, root.len() as int)[i as int] != texts(root@)[i as int]);
            return false;
        }
        i += 1;
    }
    assert(texts(root@) =~= texts(path@).subrange(0, root.len() as int));
    true
}

/// A copy of the first `n` segments of `path`.
fn leading(path: &Vec<String>, n: usize) -> (r: Vec<String>)
    requires
        n <= path.len(),
    ensures
        texts(r@) == texts(path@).take(n as int),
{
    let mut r: Vec<String> = Vec::new();
    let mut i: usize = 0;
    while i < n
        invariant
            i <= n <= path.len(),
            r.len() == i,
            forall|j: int| 0 <= j < i ==> r[j]@ == path[j]@,
        decreases n - i,
    {
        r.push(path[i].clone());
        i += 1;
    }
    assert(texts(r@) =~= texts(path@).take(n as int));
    r
}

/// The path `onto` followed by what `path` has after its first `n` segments.
fn relocated(path: &Vec<String>, n: usize, onto: &Vec<String>) -> (r: Vec<String>)
    requires
        n <= path.len(),
    ensures
        texts(r@) == texts(onto@) + texts(path@).skip(n as int),
{
    let mut r = leading(onto, onto.len());
    assert(texts(onto@).take(onto.len() as int) =~= texts(onto@));
    let mut i: usize = n;
    assert(texts(r@) =~= texts(onto@) + texts(path@).subrange(n as int, i as int));
    while i < path.len()
        invariant
            n <= i <= path.len(),
            texts(r@) == texts(onto@) + texts(path@).subrange(n as int, i as int),
        decreases path.len() - i,
    {
        let ghost before = texts(r@);
        r.push(path[i].clone());
        assert(texts(r@) =~= before.push(path[i as int]@));
        assert(texts(r@) =~= texts(onto@) + texts(path@).subrange(n as int, i + 1));
        i += 1;
    }
    assert(texts(path@).subrange(n as int, path.len() as int) =~= texts(path@).skip(n as int));
    r
}

/// The in-memory filesystem.
pub struct MemoryFilesystem {
    slots: Vec<Slot>,
}

impl MemoryFilesystem {
    /// An empty filesystem.
    pub fn new() -> (r: MemoryFilesystem)
        ensures
            r.modelled(),
            r.tree() == Map::<Segments, NodeView>::empty(),
    {
        MemoryFilesystem { slots: Vec::new() }
    }

    /// Empties the filesystem.
    pub fn clear(&mut self)
        ensures
            final(self).tree() == Map::<Segments, NodeView>::empty(),
    {
        self.slots = Vec::new();
    }

    /// The target of the symlink at `path`, if a symlink exists there.
    pub fn link_target(&self, path: &str) -> (r: Option<String>)
        ensures
            match r {
                Some(target) => is_symlink_at(self.tree(), segments(path@))
                    && self.tree()[segments(path@)] == NodeView::Symlink(target@),
                None => !is_symlink_at(self.tree(), segments(path@)),
            },
    {
        let key = split_path(path);
        match self.find(&key) {
            None => None,
            Some(i) => match &self.slots[i].node {
                Node::Symlink(target) => Some(target.clone()),
                _ => None,
            },
        }
    }

    /// The slot that decides what `key` holds, if the path exists.
    fn find(&self, key: &Vec<String>) -> (r: Option<usize>)
        ensures
            r is None <==> !self.tree().dom().contains(texts(key@)),
            r matches Some(i) ==> {
                &&& i < self.slots.len()
                &&& self.slots[i as int].key() == texts(key@)
                &&& self.slots[i as int].value() == self.tree()[texts(key@)]
                &&& forall|j: int| i < j < self.slots.len() ==> self.slots[j].key() != texts(key@)
            },
    {
        let mut i: usize = self.slots.len();
        while i > 0
            invariant
                i <= self.slots.len(),
                forall|j: int| i <= j < self.slots.len() ==> self.slots[j].key() != texts(key@),
            decreases i,
        {
            i -= 1;
            if same_path(&self.slots[i].path, key) {
                proof {
                    lemma_last_occurrence(self.slots@, texts(key@), i as int);
                }
                return Some(i);
            }
        }
        proof {
            lemma_no_occurrence(self.slots@, texts(key@));
        }
        None
    }

    /// Whether a file or a symlink lies on the way from the root to `parts`,
    /// `parts` included.
    fn obstructed(&self, parts: &Vec<String>) -> (r: bool)
        ensures
            r == blocked(self.tree(), texts(parts@)),
    {
        let ghost p = texts(parts@);
        let mut n: usize = 0;
        while n < parts.len()
            invariant
                n <= parts.len(),
                p == texts(parts@),
                forall|k: int|
                    0 <= k < n ==> !(#[trigger] self.tree().dom().contains(p.take(k))
                        && !(self.tree()[p.take(k)] is Directory)),
            decreases parts.len() - n,
        {
            if self.holds_other_than_directory(&leading(parts, n)) {
                assert(self.tree().dom().contains(p.take(n as int)));
                return true;
            }
            n += 1;
        }
        if self.holds_other_than_directory(&leading(parts, n)) {
            assert(self.tree().dom().contains(p.take(n as int)));
            return true;
        }
        false
    }

    /// Whether `key` exists and is no directory.
    fn holds_other_than_directory(&self, key: &Vec<String>) -> (r: bool)
        ensures
            r == (self.tree().dom().contains(texts(key@)) && !(self.tree()[texts(key@)]
                is Directory)),
    {
        match self.find(key) {
            None => false,
            Some(i) => match &self.slots[i].node {
                Node::Directory => false,
                _ => true,
            },
        }
    }

    /// A copy of all slots.
    fn snapshot(&self) -> (r: Vec<Slot>)
        ensures
            tree_of(r@) == self.tree(),
    {
        let mut r: Vec<Slot> = Vec::new();
        let mut i: usize = 0;
        while i < self.slots.len()
            invariant
                i <= self.slots.len(),
                r.len() == i,
                forall|j: int|
                    0 <= j < i ==> r[j].key() == self.slots[j].key() && r[j].value()
                        == self.slots[j].value(),
            decreases self.slots.len() - i,
        {
            r.push(self.slots[i].duplicate());
            i += 1;
        }
        proof {
            lemma_same_slots(r@, self.slots@);
        }
        r
    }

    /// Makes `key` hold `node`.
    fn bind(&mut self, key: Vec<String>, node: Node)
        ensures
            final(self).tree() == old(self).tree().insert(texts(key@), node.value()),
    {
        let found = self.find(&key);
        let slot = Slot { path: key, node };
        match found {
            Some(i) => {
                proof {
                    lemma_replace_last_occurrence(self.slots@, i as int, slot);
                }
                self.slots.set(i, slot);
            },
            None => {
                assert(self.slots@.push(slot).drop_last() =~= self.slots@);
                self.slots.push(slot);
            },
        }
    }
}

impl Filesystem for MemoryFilesystem {
    open spec fn modelled(&self) -> bool {
        true
    }

    closed spec fn tree(&self) -> Tree {
        tree_of(self.slots@)
    }

    fn get(&self, path: &str) -> (r: Result<String, Error>) {
        let key = split_path(path);
        match self.find(&key) {
            None => Err(Error::NotFound),
            Some(i) => match &self.slots[i].node {
                Node::File(content) => Ok(content.clone()),
                _ => Err(Error::NotReadable),
            },
        }
    }

    fn put(&mut self, path: &str, content: &str) -> (r: Result<(), Error>) {
        let key = split_path(path);
        self.bind(key, Node::File(content.to_owned()));
        Ok(())
    }

    fn mkdir_all(&mut self, path: &str) -> (r: Result<(), Error>) {
        let parts = split_path(path);
        if self.obstructed(&parts) {
            return Err(Error::PathConflict);
        }
        let ghost before = self.tree();
        let ghost p = texts(parts@);
        assert(self.tree() =~= directories_progress(before, p, 0));
        let mut n: usize = 0;
        while n < parts.len()
            invariant
                n <= parts.len(),
                p == texts(parts@),
                self.tree() == directories_progress(before, p, n as int),
            decreases parts.len() - n,
        {
            proof {
                lemma_directories_step(before, p, n as int);
            }
            self.bind(leading(&parts, n), Node::Directory);
            n += 1;
        }
        proof {
            lemma_directories_step(before, p, n as int);
        }
        self.bind(leading(&parts, n), Node::Directory);
        assert(self.tree() =~= with_directories(before, p));
        Ok(())
    }

    fn remove(&mut self, path: &str) -> (r: Result<(), Error>) {
        let root = split_path(path);
        let ghost gone = texts(root@);
        let mut kept: Vec<Slot> = Vec::new();
        let mut i: usize = 0;
        assert(self.slots@.take(0) =~= Seq::<Slot>::empty());
        assert(tree_of(kept@) =~= without_subtree(tree_of(self.slots@.take(0)), gone));
        while i < self.slots.len()
            invariant
                i <= self.slots.len(),
                gone == texts(root@),
                tree_of(kept@) == without_subtree(tree_of(self.slots@.take(i as int)), gone),
            decreases self.slots.len() - i,
        {
            let slot = &self.slots[i];
            assert(self.slots@.take(i + 1).drop_last() =~= self.slots@.take(i as int));
            if lies_under(&slot.path, &root) {
                assert(without_subtree(tree_of(self.slots@.take(i + 1)), gone) =~= without_subtree(
                    tree_of(self.slots@.take(i as int)),
                    gone,
                ));
            } else {
                let ghost so_far = kept@;
                kept.push(slot.duplicate());
                assert(kept@.drop_last() =~= so_far);
                assert(tree_of(kept@) =~= without_subtree(
                    tree_of(self.slots@.take(i + 1)),
                    gone,
                ));
            }
            i += 1;
        }
        assert(self.slots@.take(i as int) =~= self.slots@);
        self.slots = kept;
        Ok(())
    }

    fn copy(&mut self, from: &str, to: &str) -> (r: Result<(), Error>) {
        let source = split_path(from);
        let target = split_path(to);
        let ghost before = self.tree();
        let ghost src = texts(source@);
        let ghost dst = texts(target@);
        let found = match self.find(&source) {
            None => {
                return Err(Error::SourceNotFound);
            },
            Some(found) => found,
        };
        let node = self.slots[found].node.duplicate();
        match node {
            Node::Directory => {
                let snapshot = self.snapshot();
                let mut j: usize = 0;
                assert(snapshot@.take(0) =~= Seq::<Slot>::empty());
                assert(self.tree() =~= copy_progress(before, tree_of(snapshot@.take(0)), src, dst));
                while j < snapshot.len()
                    invariant
                        j <= snapshot.len(),
                        src == texts(source@),
                        dst == texts(target@),
                        self.tree() == copy_progress(
                            before,
                            tree_of(snapshot@.take(j as int)),
                            src,
                            dst,
                        ),
                    decreases snapshot.len() - j,
                {
                    let slot = &snapshot[j];
                    proof {
                        assert(snapshot@.take(j + 1).drop_last() =~= snapshot@.take(j as int));
                        lemma_copy_step(
                            before,
                            tree_of(snapshot@.take(j as int)),
                            src,
                            dst,
                            slot.key(),
                            slot.value(),
                        );
                    }
                    if lies_under(&slot.path, &source) {
                        let place = relocated(&slot.path, source.len(), &target);
                        self.bind(place, slot.node.duplicate());
                    }
                    j += 1;
                }
                assert(snapshot@.take(j as int) =~= snapshot@);
                assert(self.tree() =~= with_copy(before, src, dst));
            },
            other => {
                self.bind(target, other);
            },
        }
        Ok(())
    }

    fn symlink(&mut self, target: &str, link: &str) -> (r: Result<(), Error>) {
        let key = split_path(link);
        self.bind(key, Node::Symlink(target.to_owned()));
        Ok(())
    }

    fn is_dir(&self, path: &str) -> (r: bool) {
        let key = split_path(path);
        match self.find(&key) {
            None => false,
            Some(i) => match &self.slots[i].node {
                Node::Directory => true,
                _ => false,
            },
        }
    }

    fn is_file(&self, path: &str) -> (r: bool) {
        let key = split_path(path);
        match self.find(&key) {
            None => false,
            Some(i) => match &self.slots[i].node {
                Node::File(_) => true,
                _ => false,
            },
        }
    }

    fn is_symlink(&self, path: &str) -> (r: bool) {
        let key = split_path(path);
        match self.find(&key) {
            None => false,
            Some(i) => match &self.slots[i].node {
                Node::Symlink(_) => true,
                _ => false,
            },
        }
    }
}

} // verus!
