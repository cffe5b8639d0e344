//! The two operations on bundles: `add` moves paths into storage and links
//! them, `link` links a stored bundle again.

use vstd::prelude::*;
use vstd::string::*;
use crate::bundle::{
    entry_views, lemma_record_found, lemma_without_id, linked_remotes, record_of, remotes,
    unique_ids, with_record, without_id, without_record, Bundle, BundleView, Entry, EntryView,
    Env, Lock, LockView,
};
use crate::codec::Codec;
use crate::disk::Filesystem;
use crate::error::Error;
use crate::link::{
    distinct_remotes, exact, lemma_link_again_changes_nothing, lemma_linked_are_picked,
    lemma_skipped_is_not_recorded, link, link_run, link_spec, link_start, linked_in,
    picked_from, skipped, with_tree, world_of, LinkState, World,
};
use crate::path::{segments, texts, Segments};
use crate::prompt::Prompt;
use crate::store::{
    bundle_dir, bundle_loaded, content_at, get_lockfile, lemma_stored_path_in_bundle_dir,
    load_bundle, lock_loaded, lock_written, metadata_path, save_bundle, stored_path,
    write_lockfile,
};
use crate::tree::{
    blocked, exists_at, hierarchical, is_dir_at, is_file_at, is_symlink_at,
    lemma_copy_preserves_structure, lemma_hierarchy_below, under, with_copy, with_directories,
    with_file, without_subtree, Tree,
};
use crate::util::{get_name, storage_name};

verus! {

/// Those of `paths` that can be moved into storage: the ones that are no
/// symlinks in `tree`, in their order.
pub open spec fn movable(tree: Tree, paths: Seq<Seq<char>>) -> Seq<Seq<char>>
    decreases paths.len(),
{
    if paths.len() == 0 {
        paths
    } else if is_symlink_at(tree, segments(paths.last())) {
        movable(tree, paths.drop_last())
    } else {
        movable(tree, paths.drop_last()).push(paths.last())
    }
}

/// How far the move of paths into storage has come.
pub struct Stash {
    /// What the filesystem holds.
    pub tree: Tree,
    /// The entries of the paths moved so far, in order.
    pub entries: Seq<EntryView>,
    /// The failure that ended the move, if one did.
    pub error: Option<Error>,
}

/// The state after `remote` was moved into the bundle `id`: copied to its
/// place in storage, deleted at its own, and recorded. The first failure ends
/// the move: a path without a name for its copy is
/// `Error::PathComponentInvalid`, one that does not exist is
/// `Error::SourceNotFound`.
pub open spec fn stash_one(
    s: Stash,
    storage: Seq<char>,
    id: Seq<char>,
    remote: Seq<char>,
) -> Stash {
    if s.error is Some {
        s
    } else {
        match storage_name(remote) {
            None => Stash { error: Some(Error::PathComponentInvalid), ..s },
            Some(name) => {
                let local = stored_path(storage, id, name);
                if !exists_at(s.tree, segments(remote)) {
                    Stash { error: Some(Error::SourceNotFound), ..s }
                } else {
                    Stash {
                        tree: without_subtree(
                            with_copy(s.tree, segments(remote), segments(local)),
                            segments(remote),
                        ),
                        entries: s.entries.push(EntryView { local, remote }),
                        error: None,
                    }
                }
            },
        }
    }
}

/// The state after the first `n` of `paths` were moved into the bundle `id`.
pub open spec fn stash_run(
    s: Stash,
    storage: Seq<char>,
    id: Seq<char>,
    paths: Seq<Seq<char>>,
    n: nat,
) -> Stash
    decreases n,
{
    if n == 0 {
        s
    } else {
        stash_one(stash_run(s, storage, id, paths, (n - 1) as nat), storage, id, paths[n - 1])
    }
}

/// The state after `paths` were moved into the bundle `id`: the directory of
/// the bundle is made sure of, and the paths that are no symlinks are moved
/// in order.
pub open spec fn stash_spec(
    tree: Tree,
    storage: Seq<char>,
    id: Seq<char>,
    paths: Seq<Seq<char>>,
) -> Stash {
    let dir = segments(bundle_dir(storage, id));
    let kept = movable(tree, paths);
    if is_dir_at(tree, dir) {
        stash_run(Stash { tree, entries: Seq::empty(), error: None }, storage, id, kept, kept.len())
    } else if blocked(tree, dir) {
        Stash { tree, entries: Seq::empty(), error: Some(Error::PathConflict) }
    } else {
        stash_run(
            Stash { tree: with_directories(tree, dir), entries: Seq::empty(), error: None },
            storage,
            id,
            kept,
            kept.len(),
        )
    }
}

/// A move that has failed is not changed by the paths that follow.
pub proof fn lemma_failed_stash_stays(
    s: Stash,
    storage: Seq<char>,
    id: Seq<char>,
    paths: Seq<Seq<char>>,
    i: nat,
    n: nat,
)
    requires
        i <= n,
        stash_run(s, storage, id, paths, i).error is Some,
    ensures
        stash_run(s, storage, id, paths, n) == stash_run(s, storage, id, paths, i),
    decreases n,
{
    if i < n {
        lemma_failed_stash_stays(s, storage, id, paths, i, (n - 1) as nat);
    }
}

/// A move loses nothing: where the filesystem is a hierarchy and neither the
/// path moved nor the place of its copy lies under the other, whatever lay at
/// or under `remote` lies at the same place under the stored path afterwards,
/// with the same content, and nothing is left at or under `remote`.
pub proof fn lemma_stash_one_moves(
    s: Stash,
    storage: Seq<char>,
    id: Seq<char>,
    remote: Seq<char>,
    k: Segments,
)
    requires
        hierarchical(s.tree),
        s.error is None,
        stash_one(s, storage, id, remote).error is None,
        !under(
            segments(stored_path(storage, id, storage_name(remote)->Some_0)),
            segments(remote),
        ),
        !under(
            segments(remote),
            segments(stored_path(storage, id, storage_name(remote)->Some_0)),
        ),
        s.tree.dom().contains(k),
        under(k, segments(remote)),
    ensures
        ({
            let from = segments(remote);
            let to = segments(stored_path(storage, id, storage_name(remote)->Some_0));
            let after = stash_one(s, storage, id, remote).tree;
            &&& after.dom().contains(to + k.skip(from.len() as int))
            &&& after[to + k.skip(from.len() as int)] == s.tree[k]
            &&& !exists_at(after, k)
        }),
{
    let from = segments(remote);
    let to = segments(stored_path(storage, id, storage_name(remote)->Some_0));
    let place = to + k.skip(from.len() as int);
    assert(place.subrange(0, to.len() as int) =~= to);
    if under(place, from) {
        if from.len() <= to.len() {
            assert(to.subrange(0, from.len() as int) =~= place.subrange(0, from.len() as int));
        } else {
            assert(from.subrange(0, to.len() as int) =~= place.subrange(0, to.len() as int));
        }
    }
    if is_dir_at(s.tree, from) {
        lemma_copy_preserves_structure(s.tree, from, to, k);
    } else {
        if k != from {
            lemma_hierarchy_below(s.tree, from, k);
        }
        assert(k.skip(from.len() as int) =~= Seq::<Seq<char>>::empty());
        assert(place =~= to);
    }
}

/// Every path kept as movable is one of `paths` and no symlink.
pub proof fn lemma_movable(tree: Tree, paths: Seq<Seq<char>>)
    ensures
        forall|j: int|
            0 <= j < movable(tree, paths).len() ==> paths.contains(
                #[trigger] movable(tree, paths)[j],
            ) && !is_symlink_at(tree, segments(movable(tree, paths)[j])),
    decreases paths.len(),
{
    if paths.len() > 0 {
        let front = paths.drop_last();
        lemma_movable(tree, front);
        let kept = movable(tree, front);
        assert forall|j: int| 0 <= j < kept.len() implies paths.contains(#[trigger] kept[j]) by {
            let k = choose|k: int| 0 <= k < front.len() && front[k] == kept[j];
            assert(paths[k] == kept[j]);
        }
        assert(paths[paths.len() - 1] == paths.last());
    }
}

/// The entries recorded by a move are those of the paths moved so far: the
/// remote of each is the path at its place.
proof fn lemma_stash_run_entries(
    tree: Tree,
    storage: Seq<char>,
    id: Seq<char>,
    paths: Seq<Seq<char>>,
    n: nat,
)
    requires
        n <= paths.len(),
    ensures
        ({
            let end = stash_run(
                Stash { tree, entries: Seq::empty(), error: None },
                storage,
                id,
                paths,
                n,
            );
            &&& end.entries.len() <= n
            &&& forall|j: int|
                0 <= j < end.entries.len() ==> (#[trigger] end.entries[j]).remote == paths[j]
            &&& end.error is None ==> end.entries.len() == n
        }),
    decreases n,
{
    if n > 0 {
        lemma_stash_run_entries(tree, storage, id, paths, (n - 1) as nat);
    }
}

/// Every entry of a move lies in storage: its local is the path at which the
/// bundle keeps the copy named after its remote, which lies in the directory
/// of the bundle.
pub proof fn lemma_stashed_lie_in_storage(
    tree: Tree,
    storage: Seq<char>,
    id: Seq<char>,
    paths: Seq<Seq<char>>,
    j: int,
)
    requires
        0 <= j < stash_spec(tree, storage, id, paths).entries.len(),
    ensures
        ({
            let entry = stash_spec(tree, storage, id, paths).entries[j];
            &&& storage_name(entry.remote) is Some
            &&& entry.local == stored_path(storage, id, storage_name(entry.remote)->Some_0)
            &&& under(segments(entry.local), segments(bundle_dir(storage, id)))
        }),
{
    let kept = movable(tree, paths);
    let dir = segments(bundle_dir(storage, id));
    if is_dir_at(tree, dir) {
        lemma_stash_run_locals(tree, storage, id, kept, kept.len(), j);
    } else if !blocked(tree, dir) {
        lemma_stash_run_locals(with_directories(tree, dir), storage, id, kept, kept.len(), j);
    }
    let entry = stash_spec(tree, storage, id, paths).entries[j];
    lemma_stored_path_in_bundle_dir(storage, id, storage_name(entry.remote)->Some_0);
}

/// The local of each entry recorded by a move is the stored path named after
/// its remote.
proof fn lemma_stash_run_locals(
    tree: Tree,
    storage: Seq<char>,
    id: Seq<char>,
    paths: Seq<Seq<char>>,
    n: nat,
    j: int,
)
    requires
        n <= paths.len(),
        0 <= j < stash_run(
            Stash { tree, entries: Seq::empty(), error: None },
            storage,
            id,
            paths,
            n,
        ).entries.len(),
    ensures
        ({
            let entry = stash_run(
                Stash { tree, entries: Seq::empty(), error: None },
                storage,
                id,
                paths,
                n,
            ).entries[j];
            &&& storage_name(entry.remote) is Some
            &&& entry.local == stored_path(storage, id, storage_name(entry.remote)->Some_0)
        }),
    decreases n,
{
    if n > 0 {
        let before = stash_run(
            Stash { tree, entries: Seq::empty(), error: None },
            storage,
            id,
            paths,
            (n - 1) as nat,
        );
        if j < before.entries.len() {
            lemma_stash_run_locals(tree, storage, id, paths, (n - 1) as nat, j);
        }
    }
}

/// Symlinked inputs are left out: a path that is a symlink when the move
/// begins is the remote of no entry of the resulting bundle.
pub proof fn lemma_symlinks_are_left_out(
    tree: Tree,
    storage: Seq<char>,
    id: Seq<char>,
    paths: Seq<Seq<char>>,
    path: Seq<char>,
)
    requires
        is_symlink_at(tree, segments(path)),
    ensures
        !remotes(stash_spec(tree, storage, id, paths).entries).contains(path),
{
    let kept = movable(tree, paths);
    let end = stash_spec(tree, storage, id, paths);
    lemma_movable(tree, paths);
    let dir = segments(bundle_dir(storage, id));
    if is_dir_at(tree, dir) {
        lemma_stash_run_entries(tree, storage, id, kept, kept.len());
    } else if !blocked(tree, dir) {
        lemma_stash_run_entries(with_directories(tree, dir), storage, id, kept, kept.len());
    }
    if remotes(end.entries).contains(path) {
        let found = remotes(end.entries);
        let j = choose|j: int| 0 <= j < found.len() && found[j] == path;
        assert(end.entries[j].remote == kept[j]);
    }
}

/// The entries of the bundle that a move gives are those of the movable
/// paths, in their order, where the move does not fail.
pub proof fn lemma_stash_keeps_movable(
    tree: Tree,
    storage: Seq<char>,
    id: Seq<char>,
    paths: Seq<Seq<char>>,
)
    requires
        stash_spec(tree, storage, id, paths).error is None,
    ensures
        remotes(stash_spec(tree, storage, id, paths).entries) == movable(tree, paths),
{
    let kept = movable(tree, paths);
    let end = stash_spec(tree, storage, id, paths);
    let dir = segments(bundle_dir(storage, id));
    if is_dir_at(tree, dir) {
        lemma_stash_run_entries(tree, storage, id, kept, kept.len());
    } else if !blocked(tree, dir) {
        lemma_stash_run_entries(with_directories(tree, dir), storage, id, kept, kept.len());
    }
    assert(remotes(end.entries) =~= kept);
}

/// Those of `paths` that can be moved into storage: the ones that are no
/// symlinks, in their order.
pub fn keep_movable<F: Filesystem>(fs: &F, paths: &Vec<String>) -> (r: Vec<String>)
    ensures
        fs.modelled() ==> texts(r@) == movable(fs.tree(), texts(paths@)),
        picked_from(texts(r@), texts(paths@)),
{
    let mut kept: Vec<String> = Vec::new();
    let mut i: usize = 0;
    assert(texts(paths@).take(0) =~= Seq::<Seq<char>>::empty());
    assert(texts(kept@) =~= Seq::<Seq<char>>::empty());
    while i < paths.len()
        invariant
            i <= paths.len(),
            fs.modelled() ==> texts(kept@) == movable(fs.tree(), texts(paths@).take(i as int)),
            picked_from(texts(kept@), texts(paths@).take(i as int)),
        decreases paths.len() - i,
    {
        assert(texts(paths@).take(i + 1).drop_last() =~= texts(paths@).take(i as int));
        if !fs.is_symlink(paths[i].as_str()) {
            let ghost so_far = texts(kept@);
            kept.push(paths[i].clone());
            assert(texts(kept@) =~= so_far.push(paths[i as int]@));
            assert(texts(kept@).drop_last() =~= so_far);
        }
        i += 1;
    }
    assert(texts(paths@).take(i as int) =~= texts(paths@));
    kept
}

/// Moves `paths` into the bundle `id`: each path that is no symlink is copied
/// to the storage directory of the bundle, under its last segment without a
/// leading dot, and deleted at its own place. Returns the bundle of the paths
/// moved. The first failure ends the move and is returned; what was moved
/// before it stays moved.
pub fn stash<F: Filesystem>(fs: &mut F, env: &Env, id: &str, paths: &Vec<String>) -> (r: Result<
    Bundle,
    Error,
>)
    ensures
        old(fs).modelled() ==> {
            let end = stash_spec(old(fs).tree(), env.storage@, id@, texts(paths@));
            &&& final(fs).modelled()
            &&& final(fs).tree() == end.tree
            &&& match end.error {
                Some(e) => r matches Err(x) && x == e,
                None => r matches Ok(bundle) && bundle@ == (BundleView {
                    id: id@,
                    entries: end.entries,
                }),
            }
        },
        r matches Ok(bundle) ==> {
            &&& bundle@.id == id@
            &&& picked_from(remotes(bundle@.entries), texts(paths@))
            &&& forall|j: int|
                0 <= j < bundle@.entries.len() ==> storage_name(
                    (#[trigger] bundle@.entries[j]).remote,
                ) is Some && bundle@.entries[j].local == stored_path(
                    env.storage@,
                    id@,
                    storage_name(bundle@.entries[j].remote)->Some_0,
                )
        },
{
    let ghost modelled = fs.modelled();
    let ghost storage = env.storage@;
    let kept = keep_movable(fs, paths);
    let dir = env.bundle_dir(id);
    if !fs.is_dir(dir.as_str()) {
        match fs.mkdir_all(dir.as_str()) {
            Err(e) => {
                return Err(e);
            },
            Ok(()) => {},
        }
    }
    let ghost start = Stash { tree: fs.tree(), entries: Seq::empty(), error: None };
    let ghost wanted = texts(kept@);
    let mut entries: Vec<Entry> = Vec::new();
    let mut i: usize = 0;
    assert(entry_views(entries@) =~= Seq::<EntryView>::empty());
    assert(remotes(entry_views(entries@)) =~= wanted.take(0));
    while i < kept.len()
        invariant
            i <= kept.len(),
            wanted == texts(kept@),
            storage == env.storage@,
            modelled ==> {
                &&& fs.modelled()
                &&& stash_run(start, storage, id@, wanted, i as nat) == (Stash {
                    tree: fs.tree(),
                    entries: entry_views(entries@),
                    error: None,
                })
            },
            modelled == old(fs).modelled(),
            remotes(entry_views(entries@)) == wanted.take(i as int),
            forall|j: int|
                0 <= j < entries.len() ==> storage_name((#[trigger] entries[j]@).remote) is Some
                    && entries[j]@.local == stored_path(
                    storage,
                    id@,
                    storage_name(entries[j]@.remote)->Some_0,
                ),
            modelled ==> stash_spec(old(fs).tree(), storage, id@, texts(paths@)) == stash_run(
                start,
                storage,
                id@,
                wanted,
                wanted.len(),
            ),
        decreases kept.len() - i,
    {
        let remote = &kept[i];
        assert(wanted[i as int] == remote@);
        let name = match get_name(remote.as_str()) {
            Err(e) => {
                proof {
                    if modelled {
                        lemma_failed_stash_stays(
                            start,
                            storage,
                            id@,
                            wanted,
                            (i + 1) as nat,
                            wanted.len(),
                        );
                    }
                }
                return Err(e);
            },
            Ok(name) => name,
        };
        let local = env.stored_file(id, name.as_str());
        match fs.copy(remote.as_str(), local.as_str()) {
            Err(e) => {
                proof {
                    if modelled {
                        lemma_failed_stash_stays(
                            start,
                            storage,
                            id@,
                            wanted,
                            (i + 1) as nat,
                            wanted.len(),
                        );
                    }
                }
                return Err(e);
            },
            Ok(()) => {},
        }
        match fs.remove(remote.as_str()) {
            Err(e) => {
                return Err(e);
            },
            Ok(()) => {},
        }
        let ghost so_far = entry_views(entries@);
        let entry = Entry { local, remote: remote.clone() };
        let ghost added = entry@;
        entries.push(entry);
        assert(entry_views(entries@) =~= so_far.push(added));
        assert(remotes(so_far.push(added)) =~= remotes(so_far).push(added.remote));
        assert(wanted.take(i + 1) =~= wanted.take(i as int).push(wanted[i as int]));
        i += 1;
    }
    assert(wanted.take(i as int) =~= wanted);
    let bundle = Bundle { id: id.to_owned(), entries };
    assert(forall|j: int|
        0 <= j < bundle@.entries.len() ==> #[trigger] bundle@.entries[j] == entries[j]@);
    Ok(bundle)
}

/// Links `bundle` and records in `lock` the entries that were linked, in the
/// place of every earlier record of the bundle. Where the pass fails the lock
/// is left as it is.
pub fn link_and_record<F: Filesystem, P: Prompt>(
    fs: &mut F,
    prompt: &mut P,
    lock: &mut Lock,
    bundle: &Bundle,
    authorized: &Vec<String>,
    overwrite_all: bool,
) -> (r: Result<(), Error>)
    ensures
        exact(old(fs), old(prompt)) ==> {
            let end = link_spec(
                world_of(old(fs), old(prompt)),
                bundle@.entries,
                texts(authorized@),
                overwrite_all,
            );
            &&& exact(final(fs), final(prompt))
            &&& world_of(final(fs), final(prompt)) == end.world
            &&& match end.error {
                Some(e) => r == Err::<(), Error>(e) && final(lock)@ == old(lock)@,
                None => r == Ok::<(), Error>(()) && final(lock)@ == with_record(
                    old(lock)@,
                    BundleView { id: bundle@.id, entries: end.linked },
                ),
            }
        },
        r is Err ==> final(lock)@ == old(lock)@,
{
    match link(fs, prompt, bundle, authorized, overwrite_all) {
        Err(e) => Err(e),
        Ok(linked) => {
            lock.replace(Bundle { id: bundle.id.clone(), entries: linked });
            Ok(())
        },
    }
}

/// The bundle that `cmd_add` makes of `paths`: the entries of the paths that
/// it moved into storage.
pub open spec fn added_bundle(
    tree: Tree,
    storage: Seq<char>,
    id: Seq<char>,
    paths: Seq<Seq<char>>,
) -> BundleView {
    BundleView { id, entries: stash_spec(tree, storage, id, paths).entries }
}

/// The link pass of `cmd_add`, which begins once the paths are moved and
/// `text` is stored as the metadata of the bundle: every occupied remote is
/// replaced without a question.
pub open spec fn added_pass(
    before: World,
    storage: Seq<char>,
    id: Seq<char>,
    paths: Seq<Seq<char>>,
    text: Seq<char>,
) -> LinkState {
    let stashed = stash_spec(before.tree, storage, id, paths);
    let stored = with_file(stashed.tree, segments(metadata_path(storage, id)), text);
    link_spec(with_tree(before, stored), stashed.entries, Seq::empty(), true)
}

/// The record of the bundle that `cmd_add` puts into the lock: the entries
/// that its link pass linked.
pub open spec fn added_record(
    before: World,
    storage: Seq<char>,
    id: Seq<char>,
    paths: Seq<Seq<char>>,
    text: Seq<char>,
) -> BundleView {
    BundleView { id, entries: added_pass(before, storage, id, paths, text).linked }
}

/// `q` holds in `after` what it held in `before`, or nothing in both.
pub open spec fn same_at(before: Tree, after: Tree, q: Segments) -> bool {
    &&& exists_at(after, q) == exists_at(before, q)
    &&& exists_at(before, q) ==> after[q] == before[q]
}

/// Moving paths touches nothing but the places of the paths and of their
/// copies, as far as the move has come.
proof fn lemma_stash_run_frame(
    tree: Tree,
    storage: Seq<char>,
    id: Seq<char>,
    paths: Seq<Seq<char>>,
    n: nat,
    q: Segments,
)
    requires
        n <= paths.len(),
        !under(q, segments(bundle_dir(storage, id))),
        forall|j: int| 0 <= j < paths.len() ==> !under(q, segments(#[trigger] paths[j])),
    ensures
        same_at(
            tree,
            stash_run(
                Stash { tree, entries: Seq::empty(), error: None },
                storage,
                id,
                paths,
                n,
            ).tree,
            q,
        ),
    decreases n,
{
    if n > 0 {
        lemma_stash_run_frame(tree, storage, id, paths, (n - 1) as nat, q);
        let start = Stash { tree, entries: Seq::empty(), error: None };
        let s = stash_run(start, storage, id, paths, (n - 1) as nat);
        let remote = paths[n - 1];
        if s.error is None && storage_name(remote) is Some && exists_at(s.tree, segments(remote)) {
            let name = storage_name(remote)->Some_0;
            let to = segments(stored_path(storage, id, name));
            let dir = segments(bundle_dir(storage, id));
            lemma_stored_path_in_bundle_dir(storage, id, name);
            assert(!under(q, segments(remote)));
            if under(q, to) {
                assert(dir =~= q.subrange(0, dir.len() as int)) by {
                    assert(dir =~= to.subrange(0, dir.len() as int));
                    assert(to =~= q.subrange(0, to.len() as int));
                }
            }
        }
    }
}

/// A move touches nothing but storage and what is moved: a path that lies
/// neither in the directory of the bundle, nor above it, nor at or under one
/// of the paths moved, holds after the move what it held before. So a symlink
/// among the inputs stays the symlink it was, unless it lies in one of these
/// places.
pub proof fn lemma_stash_frame(
    tree: Tree,
    storage: Seq<char>,
    id: Seq<char>,
    paths: Seq<Seq<char>>,
    q: Segments,
)
    requires
        !under(q, segments(bundle_dir(storage, id))),
        !under(segments(bundle_dir(storage, id)), q),
        forall|j: int|
            0 <= j < movable(tree, paths).len() ==> !under(
                q,
                segments(#[trigger] movable(tree, paths)[j]),
            ),
    ensures
        same_at(tree, stash_spec(tree, storage, id, paths).tree, q),
{
    let dir = segments(bundle_dir(storage, id));
    let kept = movable(tree, paths);
    if is_dir_at(tree, dir) {
        lemma_stash_run_frame(tree, storage, id, kept, kept.len(), q);
    } else if !blocked(tree, dir) {
        lemma_stash_run_frame(with_directories(tree, dir), storage, id, kept, kept.len(), q);
    }
}

/// Filtering out the symlinks a second time changes nothing.
proof fn lemma_movable_twice(tree: Tree, paths: Seq<Seq<char>>)
    ensures
        movable(tree, movable(tree, paths)) == movable(tree, paths),
    decreases paths.len(),
{
    if paths.len() > 0 {
        lemma_movable_twice(tree, paths.drop_last());
        if !is_symlink_at(tree, segments(paths.last())) {
            let kept = movable(tree, paths.drop_last()).push(paths.last());
            assert(kept.drop_last() =~= movable(tree, paths.drop_last()));
        }
    }
}

/// Symlinked inputs count for nothing: with or without them among `paths`,
/// the same paths are moved into storage, with the same outcome. So a symlink
/// among the inputs is not moved and by itself makes nothing fail.
pub proof fn lemma_symlinks_count_for_nothing(
    tree: Tree,
    storage: Seq<char>,
    id: Seq<char>,
    paths: Seq<Seq<char>>,
)
    ensures
        stash_spec(tree, storage, id, movable(tree, paths)) == stash_spec(
            tree,
            storage,
            id,
            paths,
        ),
{
    lemma_movable_twice(tree, paths);
}

/// Symlinked inputs are left out of what `cmd_add` stores and records: a
/// path that is a symlink when the operation begins is the remote of no entry
/// of the bundle whose metadata is stored, and of no entry of the record that
/// is put into the lock.
pub proof fn lemma_add_leaves_symlinks_out(
    before: World,
    storage: Seq<char>,
    id: Seq<char>,
    paths: Seq<Seq<char>>,
    text: Seq<char>,
    path: Seq<char>,
)
    requires
        is_symlink_at(before.tree, segments(path)),
    ensures
        !remotes(added_bundle(before.tree, storage, id, paths).entries).contains(path),
        !remotes(added_record(before, storage, id, paths, text).entries).contains(path),
{
    lemma_symlinks_are_left_out(before.tree, storage, id, paths, path);
    let stashed = stash_spec(before.tree, storage, id, paths);
    let run = added_pass(before, storage, id, paths, text);
    let stored = with_file(stashed.tree, segments(metadata_path(storage, id)), text);
    lemma_linked_are_picked(with_tree(before, stored), stashed.entries, Seq::empty(), true);
    if remotes(run.linked).contains(path) {
        let j = choose|j: int| 0 <= j < remotes(run.linked).len() && remotes(run.linked)[j] == path;
        assert(stashed.entries.contains(run.linked[j]));
        let moved = stashed.entries;
        let k = choose|k: int| 0 <= k < moved.len() && moved[k] == run.linked[j];
        assert(remotes(stashed.entries)[k] == path);
    }
}

/// What `cmd_add` does, where `lock` is what it read as the lock and `text`
/// what it stored as the metadata of the bundle.
///
/// The steps are taken in order, and the first failure ends the operation
/// with what was done before it: the lock is read; the paths are moved into
/// storage; the metadata of the bundle, which holds the paths moved by this
/// call, is stored; the bundle is linked, every occupied remote being
/// replaced without a question; the lock, with the linked entries as the
/// record of the bundle, is written. Where the codec reads no lock, encodes
/// no bundle or encodes no lock, the failure is
/// `Error::SerializationFailure`.
pub open spec fn add_outcome<C: Codec>(
    codec: &C,
    storage: Seq<char>,
    id: Seq<char>,
    paths: Seq<Seq<char>>,
    before: World,
    lock: LockView,
    text: Seq<char>,
    after: World,
    r: Result<(), Error>,
) -> bool {
    let stashed = stash_spec(before.tree, storage, id, paths);
    let bundle = added_bundle(before.tree, storage, id, paths);
    let run = added_pass(before, storage, id, paths, text);
    let record = added_record(before, storage, id, paths, text);
    ||| {
        &&& r matches Err(e)
        &&& lock_loaded(codec, storage, before.tree, Err::<LockView, Error>(e))
        &&& after == before
    }
    ||| {
        &&& lock_loaded(codec, storage, before.tree, Ok::<LockView, Error>(lock))
        &&& stashed.error matches Some(e)
        &&& r == Err::<(), Error>(e)
        &&& after == with_tree(before, stashed.tree)
    }
    ||| {
        &&& lock_loaded(codec, storage, before.tree, Ok::<LockView, Error>(lock))
        &&& stashed.error is None
        &&& codec.refuses_bundle(bundle)
        &&& r == Err::<(), Error>(Error::SerializationFailure)
        &&& after == with_tree(before, stashed.tree)
    }
    ||| {
        &&& lock_loaded(codec, storage, before.tree, Ok::<LockView, Error>(lock))
        &&& stashed.error is None
        &&& codec.encodes_bundle(bundle, text)
        &&& run.error matches Some(e)
        &&& r == Err::<(), Error>(e)
        &&& after == run.world
    }
    ||| {
        &&& lock_loaded(codec, storage, before.tree, Ok::<LockView, Error>(lock))
        &&& stashed.error is None
        &&& codec.encodes_bundle(bundle, text)
        &&& run.error is None
        &&& after == with_tree(run.world, after.tree)
        &&& lock_written(codec, storage, with_record(lock, record), run.world.tree, after.tree, r)
    }
}

/// Adds `paths` to the bundle `id` and links them: the paths that are no
/// symlinks are moved into storage, the places they were moved from become
/// symlinks to the stored copies, and the lock records what was linked.
///
/// The bundle then consists of the paths of this call: its metadata and its
/// record in the lock are replaced, not extended.
pub fn cmd_add<F: Filesystem, P: Prompt, C: Codec>(
    fs: &mut F,
    prompt: &mut P,
    codec: &C,
    env: &Env,
    id: &str,
    paths: &Vec<String>,
) -> (r: Result<(), Error>)
    ensures
        exact(old(fs), old(prompt)) ==> {
            &&& exact(final(fs), final(prompt))
            &&& exists|lock: LockView, text: Seq<char>|
                #[trigger] add_outcome(
                    codec,
                    env.storage@,
                    id@,
                    texts(paths@),
                    world_of(old(fs), old(prompt)),
                    lock,
                    text,
                    world_of(final(fs), final(prompt)),
                    r,
                )
        },
{
    let ghost precise = exact(fs, prompt);
    let ghost before = world_of(fs, prompt);
    let ghost storage = env.storage@;
    let ghost wanted = texts(paths@);
    let ghost nothing = LockView { bundles: Seq::empty() };
    let mut lock = match get_lockfile(fs, codec, env) {
        Err(e) => {
            assert(precise ==> add_outcome(
                codec,
                storage,
                id@,
                wanted,
                before,
                nothing,
                Seq::empty(),
                world_of(fs, prompt),
                Err::<(), Error>(e),
            ));
            return Err(e);
        },
        Ok(lock) => lock,
    };
    let ghost read = lock@;
    let bundle = match stash(fs, env, id, paths) {
        Err(e) => {
            assert(precise ==> add_outcome(
                codec,
                storage,
                id@,
                wanted,
                before,
                read,
                Seq::empty(),
                world_of(fs, prompt),
                Err::<(), Error>(e),
            ));
            return Err(e);
        },
        Ok(bundle) => bundle,
    };
    match save_bundle(fs, codec, env, &bundle) {
        Err(e) => {
            assert(precise ==> add_outcome(
                codec,
                storage,
                id@,
                wanted,
                before,
                read,
                Seq::empty(),
                world_of(fs, prompt),
                Err::<(), Error>(e),
            ));
            return Err(e);
        },
        Ok(()) => {},
    }
    let ghost text = content_at(fs.tree(), segments(metadata_path(storage, id@)));
    let none: Vec<String> = Vec::new();
    assert(texts(none@) =~= Seq::<Seq<char>>::empty());
    match link_and_record(fs, prompt, &mut lock, &bundle, &none, true) {
        Err(e) => {
            assert(precise ==> add_outcome(
                codec,
                storage,
                id@,
                wanted,
                before,
                read,
                text,
                world_of(fs, prompt),
                Err::<(), Error>(e),
            ));
            return Err(e);
        },
        Ok(()) => {},
    }
    let r = write_lockfile(fs, codec, env, &lock);
    assert(precise ==> add_outcome(
        codec,
        storage,
        id@,
        wanted,
        before,
        read,
        text,
        world_of(fs, prompt),
        r,
    ));
    r
}

/// The link pass of `cmd_link` over `bundle`: the remotes that `lock`
/// records for the bundle `id` are replaced without a question.
pub open spec fn linked_pass(
    before: World,
    id: Seq<char>,
    lock: LockView,
    bundle: BundleView,
) -> LinkState {
    link_spec(before, bundle.entries, linked_remotes(lock, id), false)
}

/// The lock that `cmd_link` writes: the entries that its link pass linked
/// are the record of the bundle, in the place of every record of the id that
/// the bundle was asked for by and of the id that its metadata gives.
pub open spec fn linked_lock(
    before: World,
    id: Seq<char>,
    lock: LockView,
    bundle: BundleView,
) -> LockView {
    with_record(
        without_record(lock, id),
        BundleView { id: bundle.id, entries: linked_pass(before, id, lock, bundle).linked },
    )
}

/// The lock that `cmd_link` writes records for the bundle what its pass
/// linked, and nothing else under the id that the bundle was asked for by.
pub proof fn lemma_linked_lock_records_the_pass(
    before: World,
    id: Seq<char>,
    lock: LockView,
    bundle: BundleView,
)
    ensures
        linked_remotes(linked_lock(before, id, lock, bundle), bundle.id) == remotes(
            linked_pass(before, id, lock, bundle).linked,
        ),
        bundle.id != id ==> record_of(linked_lock(before, id, lock, bundle).bundles, id) is None,
        unique_ids(lock.bundles) ==> unique_ids(linked_lock(before, id, lock, bundle).bundles),
{
    let linked = linked_pass(before, id, lock, bundle).linked;
    let record = BundleView { id: bundle.id, entries: linked };
    let rest = without_record(lock, id);
    lemma_without_id(lock.bundles, id);
    lemma_record_found(rest, record);
    if bundle.id != id {
        lemma_record_elsewhere(rest, record, id);
    }
}

/// Putting the record of one bundle into the lock leaves a bundle of
/// another id without a record, where it had none.
proof fn lemma_record_elsewhere(lock: LockView, record: BundleView, id: Seq<char>)
    requires
        record.id != id,
        record_of(lock.bundles, id) is None,
    ensures
        record_of(with_record(lock, record).bundles, id) is None,
{
    lemma_without_id_keeps_none(lock.bundles, record.id, id);
    let rest = without_id(lock.bundles, record.id);
    assert(rest.push(record).drop_last() =~= rest);
}

/// Taking out the records of one id leaves another id without a record,
/// where it had none.
proof fn lemma_without_id_keeps_none(bundles: Seq<BundleView>, gone: Seq<char>, id: Seq<char>)
    requires
        record_of(bundles, id) is None,
    ensures
        record_of(without_id(bundles, gone), id) is None,
    decreases bundles.len(),
{
    if bundles.len() > 0 {
        lemma_without_id_keeps_none(bundles.drop_last(), gone, id);
        if bundles.last().id != gone {
            let kept = without_id(bundles.drop_last(), gone).push(bundles.last());
            assert(kept.drop_last() =~= without_id(bundles.drop_last(), gone));
        }
    }
}

/// The entries of `bundle` are linked already and recorded as such: the
/// filesystem is a hierarchy, each entry is a symlink to its stored copy, and
/// the record of the bundle in `lock` holds the same entries.
pub open spec fn in_place(tree: Tree, id: Seq<char>, lock: LockView, bundle: BundleView) -> bool {
    &&& hierarchical(tree)
    &&& record_of(lock.bundles, id) matches Some(record)
    &&& record.entries == bundle.entries
    &&& forall|i: int|
        0 <= i < bundle.entries.len() ==> linked_in(tree, #[trigger] bundle.entries[i])
}

/// Linking again does not ask: where the entries of the bundle are linked
/// already and recorded as such, the pass of `cmd_link` asks nothing, changes
/// nothing and reports every entry as linked, and the record that is written
/// holds the same entries in the same order.
pub proof fn lemma_linked_pass_in_place(
    before: World,
    id: Seq<char>,
    lock: LockView,
    bundle: BundleView,
)
    requires
        in_place(before.tree, id, lock, bundle),
    ensures
        linked_pass(before, id, lock, bundle).world == before,
        linked_pass(before, id, lock, bundle).linked == bundle.entries,
        linked_pass(before, id, lock, bundle).error is None,
        record_of(linked_lock(before, id, lock, bundle).bundles, bundle.id) == Some(
            BundleView { id: bundle.id, entries: bundle.entries },
        ),
{
    let authorized = linked_remotes(lock, id);
    assert forall|i: int| 0 <= i < bundle.entries.len() implies authorized.contains(
        #[trigger] bundle.entries[i].remote,
    ) by {
        assert(authorized[i] == bundle.entries[i].remote);
    }
    lemma_link_again_changes_nothing(before, bundle.entries, authorized, false);
    lemma_record_found(
        without_record(lock, id),
        BundleView { id: bundle.id, entries: bundle.entries },
    );
}

/// Linking again does not ask, whatever `cmd_link` returns: where the lock
/// and the bundle that it read are such that the entries are linked already
/// and recorded as such, no question is put and no answer used up; the
/// filesystem changes only in that the storage area is made sure of and the
/// lock file written; and where the operation succeeds the lock written holds
/// for the bundle the same entries in the same order.
pub proof fn lemma_link_outcome_in_place<C: Codec>(
    codec: &C,
    storage: Seq<char>,
    id: Seq<char>,
    before: World,
    lock: LockView,
    bundle: BundleView,
    after: World,
    r: Result<(), Error>,
)
    requires
        link_outcome(codec, storage, id, before, lock, bundle, after, r),
        in_place(before.tree, id, lock, bundle),
    ensures
        after.pending == before.pending,
        after.asked == before.asked,
        r is Err ==> after.tree == before.tree || after.tree == with_directories(
            before.tree,
            segments(storage),
        ),
        r is Ok ==> lock_written(
            codec,
            storage,
            linked_lock(before, id, lock, bundle),
            before.tree,
            after.tree,
            r,
        ) && record_of(linked_lock(before, id, lock, bundle).bundles, bundle.id) == Some(
            BundleView { id: bundle.id, entries: bundle.entries },
        ),
{
    lemma_linked_pass_in_place(before, id, lock, bundle);
}

/// Skip is not sticky, for a bundle of any length: where no two entries of
/// the bundle have the same remote, an entry that the user skipped in its
/// turn has no part in the record that `cmd_link` writes for the bundle, so
/// that its remote is not authorized when the bundle is linked next.
pub proof fn lemma_linked_lock_leaves_skipped_out(
    before: World,
    id: Seq<char>,
    lock: LockView,
    bundle: BundleView,
    i: int,
)
    requires
        0 <= i < bundle.entries.len(),
        distinct_remotes(bundle.entries),
        skipped(
            link_run(
                link_start(before, false),
                bundle.entries,
                linked_remotes(lock, id),
                i as nat,
            ),
            bundle.entries[i],
            linked_remotes(lock, id),
        ),
    ensures
        !linked_remotes(linked_lock(before, id, lock, bundle), bundle.id).contains(
            bundle.entries[i].remote,
        ),
{
    lemma_skipped_is_not_recorded(
        before,
        bundle.entries,
        linked_remotes(lock, id),
        false,
        i,
        without_record(lock, id),
        bundle.id,
    );
}

/// What `cmd_link` does, where `lock` is what it read as the lock and
/// `bundle` what it read as the metadata of the bundle.
///
/// The steps are taken in order, and the first failure ends the operation
/// with what was done before it: the lock is read; the metadata of the bundle
/// is read, which fails with `Error::BundleNotFound` where the bundle has no
/// directory and with `Error::BundleMissingMetadata` where the directory has
/// no metadata file; the bundle is linked, the remotes of its record in the
/// lock being replaced without a question; the lock, with the linked entries
/// as the record of the bundle, is written. Where the codec reads no lock,
/// reads no bundle or encodes no lock, the failure is
/// `Error::SerializationFailure`.
pub open spec fn link_outcome<C: Codec>(
    codec: &C,
    storage: Seq<char>,
    id: Seq<char>,
    before: World,
    lock: LockView,
    bundle: BundleView,
    after: World,
    r: Result<(), Error>,
) -> bool {
    let run = linked_pass(before, id, lock, bundle);
    ||| {
        &&& r matches Err(e)
        &&& lock_loaded(codec, storage, before.tree, Err::<LockView, Error>(e))
        &&& after == before
    }
    ||| {
        &&& lock_loaded(codec, storage, before.tree, Ok::<LockView, Error>(lock))
        &&& r matches Err(e)
        &&& bundle_loaded(codec, storage, id, before.tree, Err::<BundleView, Error>(e))
        &&& after == before
    }
    ||| {
        &&& lock_loaded(codec, storage, before.tree, Ok::<LockView, Error>(lock))
        &&& bundle_loaded(codec, storage, id, before.tree, Ok::<BundleView, Error>(bundle))
        &&& run.error matches Some(e)
        &&& r == Err::<(), Error>(e)
        &&& after == run.world
    }
    ||| {
        &&& lock_loaded(codec, storage, before.tree, Ok::<LockView, Error>(lock))
        &&& bundle_loaded(codec, storage, id, before.tree, Ok::<BundleView, Error>(bundle))
        &&& run.error is None
        &&& after == with_tree(run.world, after.tree)
        &&& lock_written(
            codec,
            storage,
            linked_lock(before, id, lock, bundle),
            run.world.tree,
            after.tree,
            r,
        )
    }
}

/// Links the bundle `id` again from its stored metadata. The remotes that
/// the lock records for the bundle are replaced without a question; for the
/// others that are occupied the user is asked. The lock then records the
/// entries that were linked, so that a skipped entry is asked about again
/// next time. The new record takes the place of every record of `id`, and of
/// every record of the id that the metadata gives, should that be another.
pub fn cmd_link<F: Filesystem, P: Prompt, C: Codec>(
    fs: &mut F,
    prompt: &mut P,
    codec: &C,
    env: &Env,
    id: &str,
) -> (r: Result<(), Error>)
    ensures
        exact(old(fs), old(prompt)) ==> {
            &&& exact(final(fs), final(prompt))
            &&& exists|lock: LockView, bundle: BundleView|
                #[trigger] link_outcome(
                    codec,
                    env.storage@,
                    id@,
                    world_of(old(fs), old(prompt)),
                    lock,
                    bundle,
                    world_of(final(fs), final(prompt)),
                    r,
                )
        },
{
    let ghost precise = exact(fs, prompt);
    let ghost before = world_of(fs, prompt);
    let ghost storage = env.storage@;
    let ghost nothing = LockView { bundles: Seq::empty() };
    let ghost nobody = BundleView { id: Seq::empty(), entries: Seq::empty() };
    let mut lock = match get_lockfile(fs, codec, env) {
        Err(e) => {
            assert(precise ==> link_outcome(
                codec,
                storage,
                id@,
                before,
                nothing,
                nobody,
                world_of(fs, prompt),
                Err::<(), Error>(e),
            ));
            return Err(e);
        },
        Ok(lock) => lock,
    };
    let ghost read = lock@;
    let authorized = lock.linked_remotes(id);
    let bundle = match load_bundle(fs, codec, env, id) {
        Err(e) => {
            assert(precise ==> link_outcome(
                codec,
                storage,
                id@,
                before,
                read,
                nobody,
                world_of(fs, prompt),
                Err::<(), Error>(e),
            ));
            return Err(e);
        },
        Ok(bundle) => bundle,
    };
    lock.forget(id);
    match link_and_record(fs, prompt, &mut lock, &bundle, &authorized, false) {
        Err(e) => {
            assert(precise ==> link_outcome(
                codec,
                storage,
                id@,
                before,
                read,
                bundle@,
                world_of(fs, prompt),
                Err::<(), Error>(e),
            ));
            return Err(e);
        },
        Ok(()) => {},
    }
    let r = write_lockfile(fs, codec, env, &lock);
    assert(precise ==> link_outcome(
        codec,
        storage,
        id@,
        before,
        read,
        bundle@,
        world_of(fs, prompt),
        r,
    ));
    r
}

} // verus!
