//! The link engine: for each entry of a bundle, in order, make the remote, the
//! place where the file or directory is expected, a symlink to the stored
//! copy.

use vstd::prelude::*;
use vstd::string::*;
use crate::bundle::{
    entry_views, lemma_record_found, linked_remotes, remotes, with_record, Bundle, BundleView,
    Entry, EntryView, LockView,
};
use crate::disk::Filesystem;
use crate::error::Error;
use crate::path::{parent_path, parent_text, segments, texts, Segments};
use crate::prompt::{
    after_reply, confirm_reply, confirmation, labels, select_reply, selection, Prompt,
    QuestionView, Reply,
};
use crate::tree::{
    blocked, exists_at, hierarchical, is_dir_at, is_file_at, lemma_conflict_blocks,
    lemma_directories_keep_hierarchy, lemma_hierarchy_below, lemma_remove_keeps_hierarchy,
    lemma_symlink_keeps_hierarchy, under, with_directories, with_symlink, without_subtree,
    NodeView, Tree,
};

verus! {

/// What the engine works on: a filesystem and a prompt.
pub struct World {
    /// What the filesystem holds.
    pub tree: Tree,
    /// The answers that the prompt has not given yet.
    pub pending: Seq<Reply>,
    /// The questions that the prompt was asked, oldest first.
    pub asked: Seq<QuestionView>,
}

/// The world that a modelled filesystem and a scripted prompt make up.
pub open spec fn world_of<F: Filesystem, P: Prompt>(fs: &F, prompt: &P) -> World {
    World { tree: fs.tree(), pending: prompt.pending(), asked: prompt.asked() }
}

/// The filesystem and the prompt say what they hold, so that the engine has
/// one outcome.
pub open spec fn exact<F: Filesystem, P: Prompt>(fs: &F, prompt: &P) -> bool {
    fs.modelled() && prompt.scripted()
}

/// The world after `question` was put.
pub open spec fn questioned(w: World, question: QuestionView) -> World {
    World { pending: after_reply(w.pending), asked: w.asked.push(question), ..w }
}

/// The question put where a file is in the place of `parent`, the parent of
/// `remote`.
pub open spec fn parent_question(remote: Seq<char>, parent: Seq<char>) -> QuestionView {
    confirmation(
        "You're trying to link the file "@ + remote + ", but "@ + parent + " is a file. "@
            + "Do you want to overwrite the file and create a directory instead?"@,
    )
}

/// The question put where `remote` is occupied: the user may skip the entry,
/// overwrite what is there, or overwrite it and whatever occupies the remotes
/// that follow.
pub open spec fn target_question(remote: Seq<char>) -> QuestionView {
    selection(remote + " already exists."@, seq!["skip"@, "overwrite"@, "overwrite all"@])
}

/// The world with `tree` in the place of its filesystem.
pub open spec fn with_tree(w: World, tree: Tree) -> World {
    World { tree, ..w }
}

/// Ancestor preparation for an entry whose remote is `remote`.
///
/// A file in the place of the remote's parent is deleted if the user agrees;
/// a refusal is `Error::PathConflict`. A parent that is then no directory is
/// created with all its ancestors. The root has no parent to prepare.
pub open spec fn prepare_parent_spec(w: World, remote: Seq<char>) -> (World, Result<(), Error>) {
    if segments(remote).len() == 0 {
        (w, Ok(()))
    } else {
        let parent = segments(remote).drop_last();
        let asked = questioned(w, parent_question(remote, parent_text(remote)->Some_0));
        let (w1, confirmed) = if is_file_at(w.tree, parent) {
            match confirm_reply(w.pending) {
                Err(e) => (asked, Err(e)),
                Ok(false) => (asked, Err(Error::PathConflict)),
                Ok(true) => (with_tree(asked, without_subtree(w.tree, parent)), Ok(())),
            }
        } else {
            (w, Ok(()))
        };
        if confirmed is Err || is_dir_at(w1.tree, parent) {
            (w1, confirmed)
        } else if blocked(w1.tree, parent) {
            (w1, Err(Error::PathConflict))
        } else {
            (with_tree(w1, with_directories(w1.tree, parent)), Ok(()))
        }
    }
}

/// What the user may choose for an entry whose remote is occupied.
#[derive(Clone, Copy, Debug, PartialEq, Eq, Structural)]
pub enum Choice {
    /// Leave the remote as it is and drop the entry from the result.
    Skip,
    /// Replace what is at the remote.
    Overwrite,
    /// Replace what is at the remote, and do so for every later entry too.
    OverwriteAll,
}

/// The meaning of the index picked among "skip", "overwrite" and "overwrite
/// all".
pub open spec fn choice_of(index: usize) -> Choice {
    if index == 0 {
        Choice::Skip
    } else if index == 2 {
        Choice::OverwriteAll
    } else {
        Choice::Overwrite
    }
}

/// What is to happen at a remote before the user is heard.
#[derive(Clone, Copy, Debug, PartialEq, Eq, Structural)]
pub enum Plan {
    /// The remote is free: create the symlink.
    Create,
    /// The remote is occupied and may be replaced without a question.
    Replace,
    /// The remote is occupied and the user decides.
    Ask,
}

/// What is to happen at a remote that is `occupied` or not, where
/// `overwrite_all` holds or not and the remote is `authorized` or not.
pub open spec fn plan_of(occupied: bool, overwrite_all: bool, authorized: bool) -> Plan {
    if !occupied {
        Plan::Create
    } else if overwrite_all || authorized {
        Plan::Replace
    } else {
        Plan::Ask
    }
}

/// How the target of one entry was settled.
#[derive(Clone, Copy, Debug, PartialEq, Eq, Structural)]
pub struct Verdict {
    /// Whether the entry was linked; a skipped one is not.
    pub linked: bool,
    /// Whether occupied remotes are replaced without asking from now on.
    pub overwrite_all: bool,
}

/// The world after the symlink for `entry` was created over whatever was at
/// its remote.
pub open spec fn replaced(w: World, entry: EntryView) -> World {
    with_tree(
        w,
        with_symlink(
            without_subtree(w.tree, segments(entry.remote)),
            entry.local,
            segments(entry.remote),
        ),
    )
}

/// Target conflict resolution and link creation for `entry`, once its
/// ancestors are prepared.
///
/// A free remote is linked at once. An occupied one is replaced without a
/// question where `overwrite_all` holds or the remote is among `authorized`;
/// otherwise the user chooses.
pub open spec fn settle_target_spec(
    w: World,
    entry: EntryView,
    authorized: Seq<Seq<char>>,
    overwrite_all: bool,
) -> (World, Result<Verdict, Error>) {
    let remote = segments(entry.remote);
    match plan_of(exists_at(w.tree, remote), overwrite_all, authorized.contains(entry.remote)) {
        Plan::Create => (
            with_tree(w, with_symlink(w.tree, entry.local, remote)),
            Ok(Verdict { linked: true, overwrite_all }),
        ),
        Plan::Replace => (replaced(w, entry), Ok(Verdict { linked: true, overwrite_all })),
        Plan::Ask => {
            let asked = questioned(w, target_question(entry.remote));
            match select_reply(w.pending, 3) {
                Err(e) => (asked, Err(e)),
                Ok(index) => match choice_of(index) {
                    Choice::Skip => (asked, Ok(Verdict { linked: false, overwrite_all })),
                    Choice::Overwrite => (
                        replaced(asked, entry),
                        Ok(Verdict { linked: true, overwrite_all }),
                    ),
                    Choice::OverwriteAll => (
                        replaced(asked, entry),
                        Ok(Verdict { linked: true, overwrite_all: true }),
                    ),
                },
            }
        },
    }
}

/// How far a link pass has come.
pub struct LinkState {
    /// The filesystem and the prompt.
    pub world: World,
    /// Whether occupied remotes are replaced without asking.
    pub overwrite_all: bool,
    /// The entries linked so far, in order.
    pub linked: Seq<EntryView>,
    /// The failure that ended the pass, if one did.
    pub error: Option<Error>,
}

/// The state in which a link pass begins.
pub open spec fn link_start(world: World, overwrite_all: bool) -> LinkState {
    LinkState { world, overwrite_all, linked: Seq::empty(), error: None }
}

/// The state after `entry` was dealt with: its ancestors prepared, its target
/// settled, and the entry recorded unless it was skipped. The first failure
/// ends the pass: what was done before it stays done, and nothing is done
/// after it.
pub open spec fn link_entry(
    s: LinkState,
    entry: EntryView,
    authorized: Seq<Seq<char>>,
) -> LinkState {
    if s.error is Some {
        s
    } else {
        let (w1, prepared) = prepare_parent_spec(s.world, entry.remote);
        match prepared {
            Err(e) => LinkState { world: w1, error: Some(e), ..s },
            Ok(()) => {
                let (w2, settled) = settle_target_spec(w1, entry, authorized, s.overwrite_all);
                match settled {
                    Err(e) => LinkState { world: w2, error: Some(e), ..s },
                    Ok(verdict) => LinkState {
                        world: w2,
                        overwrite_all: verdict.overwrite_all,
                        linked: if verdict.linked {
                            s.linked.push(entry)
                        } else {
                            s.linked
                        },
                        error: None,
                    },
                }
            },
        }
    }
}

/// The state after the first `n` of `entries` were dealt with, in order.
pub open spec fn link_run(
    s: LinkState,
    entries: Seq<EntryView>,
    authorized: Seq<Seq<char>>,
    n: nat,
) -> LinkState
    decreases n,
{
    if n == 0 {
        s
    } else {
        link_entry(link_run(s, entries, authorized, (n - 1) as nat), entries[n - 1], authorized)
    }
}

/// The state after all of `entries` were dealt with, in order.
pub open spec fn link_spec(
    world: World,
    entries: Seq<EntryView>,
    authorized: Seq<Seq<char>>,
    overwrite_all: bool,
) -> LinkState {
    link_run(link_start(world, overwrite_all), entries, authorized, entries.len())
}

/// A pass that has failed is not changed by the entries that follow.
pub proof fn lemma_failed_run_stays(
    s: LinkState,
    entries: Seq<EntryView>,
    authorized: Seq<Seq<char>>,
    i: nat,
    n: nat,
)
    requires
        i <= n,
        link_run(s, entries, authorized, i).error is Some,
    ensures
        link_run(s, entries, authorized, n) == link_run(s, entries, authorized, i),
    decreases n,
{
    if i < n {
        lemma_failed_run_stays(s, entries, authorized, i, (n - 1) as nat);
    }
}

/// `part` is picked from `whole`: it holds some of the items of `whole`, in
/// their order.
pub open spec fn picked_from<A>(part: Seq<A>, whole: Seq<A>) -> bool
    decreases whole.len(),
{
    if part.len() == 0 {
        true
    } else if whole.len() == 0 {
        false
    } else {
        ||| part.last() == whole.last() && picked_from(part.drop_last(), whole.drop_last())
        ||| picked_from(part, whole.drop_last())
    }
}

/// What is picked from a sequence is in it.
pub proof fn lemma_picked_members<A>(part: Seq<A>, whole: Seq<A>)
    requires
        picked_from(part, whole),
    ensures
        forall|j: int| 0 <= j < part.len() ==> whole.contains(#[trigger] part[j]),
    decreases whole.len(),
{
    if part.len() > 0 && whole.len() > 0 {
        let front = whole.drop_last();
        if part.last() == whole.last() && picked_from(part.drop_last(), front) {
            lemma_picked_members(part.drop_last(), front);
            assert forall|j: int| 0 <= j < part.len() implies whole.contains(
                #[trigger] part[j],
            ) by {
                if j < part.len() - 1 {
                    let k = choose|k: int| 0 <= k < front.len() && front[k] == part.drop_last()[j];
                    assert(whole[k] == part[j]);
                } else {
                    assert(whole[whole.len() - 1] == part[j]);
                }
            }
        } else {
            lemma_picked_members(part, front);
            assert forall|j: int| 0 <= j < part.len() implies whole.contains(
                #[trigger] part[j],
            ) by {
                let k = choose|k: int| 0 <= k < front.len() && front[k] == part[j];
                assert(whole[k] == part[j]);
            }
        }
    }
}

/// The entries that a pass has linked so far are picked from the entries it
/// has dealt with.
proof fn lemma_linked_so_far_are_picked(
    s: LinkState,
    entries: Seq<EntryView>,
    authorized: Seq<Seq<char>>,
    n: nat,
)
    requires
        n <= entries.len(),
        s.linked.len() == 0,
    ensures
        picked_from(link_run(s, entries, authorized, n).linked, entries.take(n as int)),
    decreases n,
{
    if n > 0 {
        lemma_linked_so_far_are_picked(s, entries, authorized, (n - 1) as nat);
        assert(entries.take(n as int).drop_last() =~= entries.take(n - 1));
        let before = link_run(s, entries, authorized, (n - 1) as nat);
        let after = link_run(s, entries, authorized, n);
        if after.linked != before.linked {
            assert(after.linked == before.linked.push(entries[n - 1]));
            assert(after.linked.drop_last() =~= before.linked);
        }
    }
}

/// The entries that a pass reports as linked are picked from the entries of
/// the bundle: each is one of them, and they keep their order.
pub proof fn lemma_linked_are_picked(
    w: World,
    entries: Seq<EntryView>,
    authorized: Seq<Seq<char>>,
    overwrite_all: bool,
)
    ensures
        picked_from(link_spec(w, entries, authorized, overwrite_all).linked, entries),
        forall|j: int|
            0 <= j < link_spec(w, entries, authorized, overwrite_all).linked.len()
                ==> entries.contains(
                #[trigger] link_spec(w, entries, authorized, overwrite_all).linked[j],
            ),
{
    lemma_linked_so_far_are_picked(
        link_start(w, overwrite_all),
        entries,
        authorized,
        entries.len(),
    );
    assert(entries.take(entries.len() as int) =~= entries);
    lemma_picked_members(link_spec(w, entries, authorized, overwrite_all).linked, entries);
}

/// No two of `entries` have the same remote.
pub open spec fn distinct_remotes(entries: Seq<EntryView>) -> bool {
    forall|i: int, j: int|
        0 <= i < j < entries.len() ==> (#[trigger] entries[i]).remote != (
        #[trigger] entries[j]).remote
}

/// Every entry that a pass has linked so far is one of the entries it has
/// dealt with, and was recorded in its own turn.
proof fn lemma_linked_in_turn(
    s: LinkState,
    entries: Seq<EntryView>,
    authorized: Seq<Seq<char>>,
    n: nat,
)
    requires
        n <= entries.len(),
        s.linked.len() == 0,
    ensures
        forall|j: int|
            0 <= j < link_run(s, entries, authorized, n).linked.len() ==> exists|k: int|
                0 <= k < n && entries[k] == #[trigger] link_run(s, entries, authorized, n).linked[j]
                    && link_run(s, entries, authorized, (k + 1) as nat).linked != link_run(
                    s,
                    entries,
                    authorized,
                    k as nat,
                ).linked,
    decreases n,
{
    if n > 0 {
        lemma_linked_in_turn(s, entries, authorized, (n - 1) as nat);
        let before = link_run(s, entries, authorized, (n - 1) as nat);
        let after = link_run(s, entries, authorized, n);
        assert forall|j: int| 0 <= j < after.linked.len() implies exists|k: int|
            0 <= k < n && entries[k] == #[trigger] after.linked[j] && link_run(
                s,
                entries,
                authorized,
                (k + 1) as nat,
            ).linked != link_run(s, entries, authorized, k as nat).linked by {
            if j < before.linked.len() {
                assert(after.linked[j] == before.linked[j]);
                let k = choose|k: int|
                    0 <= k < n - 1 && entries[k] == before.linked[j] && link_run(
                        s,
                        entries,
                        authorized,
                        (k + 1) as nat,
                    ).linked != link_run(s, entries, authorized, k as nat).linked;
                assert(0 <= k < n && entries[k] == after.linked[j]);
            } else {
                assert(after.linked == before.linked.push(entries[n - 1]));
                let k = n - 1;
                assert(link_run(s, entries, authorized, (k + 1) as nat) == after);
                assert(link_run(s, entries, authorized, k as nat) == before);
            }
        }
    }
}

/// A skipped entry is not recorded: where no two entries of a bundle have
/// the same remote, the remote of an entry that the user skipped in its turn
/// is the remote of no entry that the pass reports as linked, so that the
/// record made of them does not authorize it.
pub proof fn lemma_skipped_is_not_recorded(
    w: World,
    entries: Seq<EntryView>,
    authorized: Seq<Seq<char>>,
    overwrite_all: bool,
    i: int,
    lock: LockView,
    id: Seq<char>,
)
    requires
        0 <= i < entries.len(),
        distinct_remotes(entries),
        skipped(
            link_run(link_start(w, overwrite_all), entries, authorized, i as nat),
            entries[i],
            authorized,
        ),
    ensures
        ({
            let end = link_spec(w, entries, authorized, overwrite_all);
            let recorded = with_record(lock, BundleView { id, entries: end.linked });
            &&& !remotes(end.linked).contains(entries[i].remote)
            &&& !linked_remotes(recorded, id).contains(entries[i].remote)
        }),
{
    let start = link_start(w, overwrite_all);
    let end = link_spec(w, entries, authorized, overwrite_all);
    lemma_linked_in_turn(start, entries, authorized, entries.len());
    lemma_skipped_entry_is_left_out(
        link_run(start, entries, authorized, i as nat),
        entries[i],
        authorized,
    );
    assert(link_run(start, entries, authorized, (i + 1) as nat) == link_entry(
        link_run(start, entries, authorized, i as nat),
        entries[i],
        authorized,
    ));
    if remotes(end.linked).contains(entries[i].remote) {
        let j = choose|j: int|
            0 <= j < remotes(end.linked).len() && remotes(end.linked)[j] == entries[i].remote;
        let k = choose|k: int|
            0 <= k < entries.len() && entries[k] == end.linked[j] && link_run(
                start,
                entries,
                authorized,
                (k + 1) as nat,
            ).linked != link_run(start, entries, authorized, k as nat).linked;
        assert(entries[k].remote == entries[i].remote);
        assert(k == i);
    }
    lemma_record_found(lock, BundleView { id, entries: end.linked });
}

/// Every file of `after` was a file of `before` already.
pub open spec fn no_new_files(before: Tree, after: Tree) -> bool {
    forall|q: Segments| is_file_at(after, q) ==> is_file_at(before, q)
}

/// Nothing stands in the way of the parents of the remotes of `entries`: none
/// of them is a file.
pub open spec fn parents_free(tree: Tree, entries: Seq<EntryView>) -> bool {
    forall|i: int|
        0 <= i < entries.len() && segments(#[trigger] entries[i].remote).len() > 0 ==> !is_file_at(
            tree,
            segments(entries[i].remote).drop_last(),
        )
}

/// Every remote of `entries` may be replaced without a question.
pub open spec fn all_authorized(
    entries: Seq<EntryView>,
    authorized: Seq<Seq<char>>,
    overwrite_all: bool,
) -> bool {
    overwrite_all || forall|i: int|
        0 <= i < entries.len() ==> authorized.contains(#[trigger] entries[i].remote)
}

/// A pass over entries that may all be replaced without a question, none
/// with a file for a parent, asks nothing as far as it has come.
proof fn lemma_authorized_run(
    w: World,
    entries: Seq<EntryView>,
    authorized: Seq<Seq<char>>,
    overwrite_all: bool,
    n: nat,
)
    requires
        n <= entries.len(),
        all_authorized(entries, authorized, overwrite_all),
        parents_free(w.tree, entries),
    ensures
        ({
            let s = link_run(link_start(w, overwrite_all), entries, authorized, n);
            &&& s.world.asked == w.asked
            &&& s.world.pending == w.pending
            &&& s.overwrite_all == overwrite_all
            &&& no_new_files(w.tree, s.world.tree)
        }),
    decreases n,
{
    if n > 0 {
        lemma_authorized_run(w, entries, authorized, overwrite_all, (n - 1) as nat);
        let s = link_run(link_start(w, overwrite_all), entries, authorized, (n - 1) as nat);
        let entry = entries[n - 1];
        assert(segments(entry.remote).len() > 0 ==> !is_file_at(
            s.world.tree,
            segments(entry.remote).drop_last(),
        ));
    }
}

/// Linking again asks nothing: a pass whose entries may all be replaced
/// without a question, because each remote is authorized or `overwrite_all`
/// holds, and none of whose remotes has a file for a parent, puts no question
/// and uses up no answer.
pub proof fn lemma_authorized_pass_asks_nothing(
    w: World,
    entries: Seq<EntryView>,
    authorized: Seq<Seq<char>>,
    overwrite_all: bool,
)
    requires
        all_authorized(entries, authorized, overwrite_all),
        parents_free(w.tree, entries),
    ensures
        link_spec(w, entries, authorized, overwrite_all).world.asked == w.asked,
        link_spec(w, entries, authorized, overwrite_all).world.pending == w.pending,
{
    lemma_authorized_run(w, entries, authorized, overwrite_all, entries.len());
}

/// A link pass keeps a hierarchy a hierarchy, entry by entry.
pub proof fn lemma_link_entry_keeps_hierarchy(
    s: LinkState,
    entry: EntryView,
    authorized: Seq<Seq<char>>,
)
    requires
        hierarchical(s.world.tree),
    ensures
        hierarchical(link_entry(s, entry, authorized).world.tree),
{
    if s.error is None {
        let remote = segments(entry.remote);
        let (w1, prepared) = prepare_parent_spec(s.world, entry.remote);
        lemma_prepare_keeps_hierarchy(s.world, entry.remote);
        if prepared is Ok {
            if remote.len() > 0 {
                lemma_prepared_parent_is_directory(s.world, entry.remote);
            }
            let gone = without_subtree(w1.tree, remote);
            lemma_remove_keeps_hierarchy(w1.tree, remote);
            if exists_at(w1.tree, remote) {
                lemma_symlink_keeps_hierarchy(gone, entry.local, remote);
            } else {
                lemma_symlink_keeps_hierarchy(w1.tree, entry.local, remote);
            }
        }
    }
}

/// Ancestor preparation keeps a hierarchy a hierarchy.
pub proof fn lemma_prepare_keeps_hierarchy(w: World, remote: Seq<char>)
    requires
        hierarchical(w.tree),
    ensures
        hierarchical(prepare_parent_spec(w, remote).0.tree),
{
    if segments(remote).len() > 0 {
        let parent = segments(remote).drop_last();
        lemma_remove_keeps_hierarchy(w.tree, parent);
        lemma_directories_keep_hierarchy(w.tree, parent);
        lemma_directories_keep_hierarchy(without_subtree(w.tree, parent), parent);
    }
}

/// Once the parent of `remote` was prepared, it is a directory.
pub proof fn lemma_prepared_parent_is_directory(w: World, remote: Seq<char>)
    requires
        prepare_parent_spec(w, remote).1 is Ok,
        segments(remote).len() > 0,
    ensures
        is_dir_at(prepare_parent_spec(w, remote).0.tree, segments(remote).drop_last()),
{
    let parent = segments(remote).drop_last();
    assert(parent.is_prefix_of(parent));
}

/// None of the remotes of `entries` lies at or under the remote of an entry
/// that comes after it, so that no entry undoes the link of an earlier one.
pub open spec fn apart(entries: Seq<EntryView>) -> bool {
    forall|i: int, j: int|
        0 <= i < j < entries.len() ==> !under(
            segments(#[trigger] entries[i].remote),
            segments(#[trigger] entries[j].remote),
        )
}

/// `entry` is a symlink to its stored copy.
pub open spec fn linked_in(tree: Tree, entry: EntryView) -> bool {
    tree.dom().contains(segments(entry.remote)) && tree[segments(entry.remote)]
        == NodeView::Symlink(entry.local)
}

/// Every entry recorded as linked is one of the first `n` of `entries` and a
/// symlink to its stored copy.
spec fn all_linked(s: LinkState, entries: Seq<EntryView>, n: nat) -> bool {
    forall|j: int|
        0 <= j < s.linked.len() ==> linked_in(s.world.tree, #[trigger] s.linked[j]) && exists|
            i: int,
        | 0 <= i < n && entries[i] == s.linked[j]
}

/// The link of an entry outlasts the next one, where that one lies apart.
proof fn lemma_link_outlasts(
    s: LinkState,
    linked: EntryView,
    entry: EntryView,
    authorized: Seq<Seq<char>>,
)
    requires
        hierarchical(s.world.tree),
        linked_in(s.world.tree, linked),
        !under(segments(linked.remote), segments(entry.remote)),
        link_entry(s, entry, authorized).error is None,
    ensures
        linked_in(link_entry(s, entry, authorized).world.tree, linked),
{
    let place = segments(linked.remote);
    let remote = segments(entry.remote);
    let (w1, prepared) = prepare_parent_spec(s.world, entry.remote);
    assert(linked_in(w1.tree, linked)) by {
        if remote.len() > 0 {
            let parent = remote.drop_last();
            if under(place, parent) && place != parent {
                lemma_hierarchy_below(s.world.tree, parent, place);
            }
            let cleared = if is_file_at(s.world.tree, parent) {
                without_subtree(s.world.tree, parent)
            } else {
                s.world.tree
            };
            assert(linked_in(cleared, linked));
            if under(parent, place) && !is_dir_at(cleared, parent) {
                lemma_conflict_blocks(cleared, parent, place);
            }
        }
    }
}

/// The entries that a pass has linked so far are symlinks to their stored
/// copies, where the entries lie apart and the pass has not failed.
proof fn lemma_linked_so_far(
    w: World,
    entries: Seq<EntryView>,
    authorized: Seq<Seq<char>>,
    overwrite_all: bool,
    n: nat,
)
    requires
        n <= entries.len(),
        hierarchical(w.tree),
        apart(entries),
        link_run(link_start(w, overwrite_all), entries, authorized, n).error is None,
    ensures
        hierarchical(link_run(link_start(w, overwrite_all), entries, authorized, n).world.tree),
        all_linked(link_run(link_start(w, overwrite_all), entries, authorized, n), entries, n),
    decreases n,
{
    if n > 0 {
        let start = link_start(w, overwrite_all);
        let before = link_run(start, entries, authorized, (n - 1) as nat);
        let entry = entries[n - 1];
        let after = link_entry(before, entry, authorized);
        lemma_linked_so_far(w, entries, authorized, overwrite_all, (n - 1) as nat);
        lemma_link_entry_keeps_hierarchy(before, entry, authorized);
        assert forall|j: int| 0 <= j < after.linked.len() implies linked_in(
            after.world.tree,
            #[trigger] after.linked[j],
        ) && exists|i: int| 0 <= i < n && entries[i] == after.linked[j] by {
            if j < before.linked.len() {
                let i = choose|i: int| 0 <= i < n - 1 && entries[i] == before.linked[j];
                assert(after.linked[j] == before.linked[j]);
                assert(!under(segments(entries[i].remote), segments(entries[n - 1].remote)));
                lemma_link_outlasts(before, before.linked[j], entry, authorized);
            } else {
                assert(after.linked[j] == entry);
                assert(entries[n - 1] == after.linked[j]);
            }
        }
    }
}

/// What a pass reports as linked is linked: where the filesystem is a
/// hierarchy and the entries lie apart, every entry that a pass without
/// failure returns is, when the pass ends, a symlink to its stored copy.
pub proof fn lemma_linked_are_symlinks(
    w: World,
    entries: Seq<EntryView>,
    authorized: Seq<Seq<char>>,
    overwrite_all: bool,
    j: int,
)
    requires
        hierarchical(w.tree),
        apart(entries),
        link_spec(w, entries, authorized, overwrite_all).error is None,
        0 <= j < link_spec(w, entries, authorized, overwrite_all).linked.len(),
    ensures
        linked_in(
            link_spec(w, entries, authorized, overwrite_all).world.tree,
            link_spec(w, entries, authorized, overwrite_all).linked[j],
        ),
{
    lemma_linked_so_far(w, entries, authorized, overwrite_all, entries.len());
}

/// Every entry is a symlink to its stored copy already, and may be replaced
/// without a question.
pub open spec fn all_in_place(
    tree: Tree,
    entries: Seq<EntryView>,
    authorized: Seq<Seq<char>>,
    overwrite_all: bool,
) -> bool {
    &&& all_authorized(entries, authorized, overwrite_all)
    &&& forall|i: int| 0 <= i < entries.len() ==> linked_in(tree, #[trigger] entries[i])
}

/// Linking what is linked changes nothing, as far as the pass has come.
proof fn lemma_in_place_run(
    w: World,
    entries: Seq<EntryView>,
    authorized: Seq<Seq<char>>,
    overwrite_all: bool,
    n: nat,
)
    requires
        n <= entries.len(),
        hierarchical(w.tree),
        all_in_place(w.tree, entries, authorized, overwrite_all),
    ensures
        link_run(link_start(w, overwrite_all), entries, authorized, n) == (LinkState {
            world: w,
            overwrite_all,
            linked: entries.take(n as int),
            error: None,
        }),
    decreases n,
{
    if n == 0 {
        assert(entries.take(0) =~= Seq::<EntryView>::empty());
    } else {
        lemma_in_place_run(w, entries, authorized, overwrite_all, (n - 1) as nat);
        let entry = entries[n - 1];
        let remote = segments(entry.remote);
        assert(linked_in(w.tree, entry));
        if remote.len() > 0 {
            assert(remote.take(remote.len() - 1) =~= remote.drop_last());
            assert(is_dir_at(w.tree, remote.take(remote.len() - 1)));
        }
        assert(with_symlink(without_subtree(w.tree, remote), entry.local, remote) =~= w.tree) by {
            assert forall|q: Segments| w.tree.dom().contains(q) && under(q, remote) implies q
                == remote by {
                if q != remote {
                    lemma_hierarchy_below(w.tree, remote, q);
                }
            }
        }
        assert(entries.take(n as int) =~= entries.take(n - 1).push(entry));
    }
}

/// Linking converges: a pass over entries that are symlinks to their stored
/// copies already, in a filesystem that is a hierarchy, and that may all be
/// replaced without a question, changes nothing, asks nothing, and reports
/// every entry as linked.
pub proof fn lemma_link_again_changes_nothing(
    w: World,
    entries: Seq<EntryView>,
    authorized: Seq<Seq<char>>,
    overwrite_all: bool,
)
    requires
        hierarchical(w.tree),
        all_in_place(w.tree, entries, authorized, overwrite_all),
    ensures
        link_spec(w, entries, authorized, overwrite_all).world == w,
        link_spec(w, entries, authorized, overwrite_all).linked == entries,
        link_spec(w, entries, authorized, overwrite_all).error is None,
{
    lemma_in_place_run(w, entries, authorized, overwrite_all, entries.len());
    assert(entries.take(entries.len() as int) =~= entries);
}

/// The user is asked what to do with `entry`, and answers "skip": the parent
/// of its remote can be prepared, the remote is occupied and may not be
/// replaced without a question, and the next answer picks the first choice.
pub open spec fn skipped(s: LinkState, entry: EntryView, authorized: Seq<Seq<char>>) -> bool {
    let (prepared, outcome) = prepare_parent_spec(s.world, entry.remote);
    &&& s.error is None
    &&& outcome is Ok
    &&& exists_at(prepared.tree, segments(entry.remote))
    &&& !s.overwrite_all
    &&& !authorized.contains(entry.remote)
    &&& select_reply(prepared.pending, 3) == Ok::<usize, Error>(0)
}

/// A skipped entry is left out and left alone: it is not recorded as linked,
/// what is at its remote stays, and the pass goes on.
pub proof fn lemma_skipped_entry_is_left_out(
    s: LinkState,
    entry: EntryView,
    authorized: Seq<Seq<char>>,
)
    requires
        skipped(s, entry, authorized),
    ensures
        link_entry(s, entry, authorized).linked == s.linked,
        link_entry(s, entry, authorized).error is None,
        link_entry(s, entry, authorized).overwrite_all == s.overwrite_all,
        link_entry(s, entry, authorized).world.tree == prepare_parent_spec(
            s.world,
            entry.remote,
        ).0.tree,
        exists_at(link_entry(s, entry, authorized).world.tree, segments(entry.remote)),
{
}

/// An occupied remote that is not authorized is asked about: where the pass
/// has not failed, occupied remotes are not replaced without asking, the
/// parent of the remote can be prepared and the remote is occupied and not
/// among `authorized`, the user is asked what to do with it.
pub proof fn lemma_unauthorized_is_asked(
    s: LinkState,
    entry: EntryView,
    authorized: Seq<Seq<char>>,
)
    requires
        s.error is None,
        !s.overwrite_all,
        prepare_parent_spec(s.world, entry.remote).1 is Ok,
        exists_at(prepare_parent_spec(s.world, entry.remote).0.tree, segments(entry.remote)),
        !authorized.contains(entry.remote),
    ensures
        link_entry(s, entry, authorized).world.asked == prepare_parent_spec(
            s.world,
            entry.remote,
        ).0.asked.push(target_question(entry.remote)),
{
}

/// Once the parent of `remote` was prepared, preparing it again asks nothing
/// and changes nothing.
pub proof fn lemma_prepared_parent_stays(w: World, remote: Seq<char>)
    requires
        prepare_parent_spec(w, remote).1 is Ok,
    ensures
        prepare_parent_spec(prepare_parent_spec(w, remote).0, remote) == (
            prepare_parent_spec(w, remote).0,
            Ok::<(), Error>(()),
        ),
{
    if segments(remote).len() > 0 {
        let parent = segments(remote).drop_last();
        let (w1, outcome) = prepare_parent_spec(w, remote);
        assert(is_dir_at(w1.tree, parent)) by {
            assert(parent.is_prefix_of(parent));
        }
    }
}

/// Skip is not sticky: an entry that the user skipped in one pass is asked
/// about again in the next. The skipped entry is not among the entries that
/// the lock records as linked, so its remote is not authorized next time, and
/// what occupies it is still there.
pub proof fn lemma_skip_is_not_sticky(
    w: World,
    entry: EntryView,
    authorized: Seq<Seq<char>>,
    lock: LockView,
    id: Seq<char>,
)
    requires
        skipped(link_start(w, false), entry, authorized),
    ensures
        ({
            let first = link_spec(w, seq![entry], authorized, false);
            let recorded = with_record(lock, BundleView { id, entries: first.linked });
            let again = link_spec(first.world, seq![entry], linked_remotes(recorded, id), false);
            &&& first.error is None
            &&& first.linked == Seq::<EntryView>::empty()
            &&& linked_remotes(recorded, id) == Seq::<Seq<char>>::empty()
            &&& again.world.asked == first.world.asked.push(target_question(entry.remote))
        }),
{
    let entries = seq![entry];
    let start = link_start(w, false);
    assert(link_run(start, entries, authorized, 0) == start);
    let first = link_spec(w, entries, authorized, false);
    assert(first == link_entry(start, entry, authorized)) by {
        assert(link_run(start, entries, authorized, 1) == link_entry(
            link_run(start, entries, authorized, 0),
            entries[0],
            authorized,
        ));
    }
    lemma_skipped_entry_is_left_out(start, entry, authorized);
    let record = BundleView { id, entries: first.linked };
    let recorded = with_record(lock, record);
    lemma_record_found(lock, record);
    let none = linked_remotes(recorded, id);
    assert(none =~= Seq::<Seq<char>>::empty());
    lemma_prepared_parent_stays(w, entry.remote);
    let restart = link_start(first.world, false);
    assert(link_run(restart, entries, none, 0) == restart);
    assert(link_run(restart, entries, none, 1) == link_entry(
        link_run(restart, entries, none, 0),
        entries[0],
        none,
    ));
}

/// The meaning of the index picked among "skip", "overwrite" and "overwrite
/// all".
pub fn interpret_choice(index: usize) -> (r: Choice)
    ensures
        r == choice_of(index),
{
    if index == 0 {
        Choice::Skip
    } else if index == 2 {
        Choice::OverwriteAll
    } else {
        Choice::Overwrite
    }
}

/// What is to happen at a remote that is `occupied` or not, where
/// `overwrite_all` holds or not and the remote is `authorized` or not.
pub fn plan(occupied: bool, overwrite_all: bool, authorized: bool) -> (r: Plan)
    ensures
        r == plan_of(occupied, overwrite_all, authorized),
{
    if !occupied {
        Plan::Create
    } else if overwrite_all || authorized {
        Plan::Replace
    } else {
        Plan::Ask
    }
}

/// Whether `needle` is one of `items`.
pub fn contains_text(items: &Vec<String>, needle: &String) -> (r: bool)
    ensures
        r == texts(items@).contains(needle@),
{
    let mut i: usize = 0;
    while i < items.len()
        invariant
            i <= items.len(),
            forall|j: int| 0 <= j < i ==> items[j]@ != needle@,
        decreases items.len() - i,
    {
        if items[i] == *needle {
            assert(texts(items@)[i as int] == needle@);
            return true;
        }
        i += 1;
    }
    false
}

/// Whether anything exists at `path`: a directory, a file or a symlink.
pub fn occupied<F: Filesystem>(fs: &F, path: &str) -> (r: bool)
    ensures
        fs.modelled() ==> r == exists_at(fs.tree(), segments(path@)),
{
    fs.is_dir(path) || fs.is_file(path) || fs.is_symlink(path)
}

/// Ancestor preparation: makes sure that the parent of `remote` is a
/// directory, asking before a file in its place is deleted.
pub fn prepare_parent<F: Filesystem, P: Prompt>(
    fs: &mut F,
    prompt: &mut P,
    remote: &String,
) -> (r: Result<(), Error>)
    ensures
        exact(old(fs), old(prompt)) ==> {
            &&& exact(final(fs), final(prompt))
            &&& prepare_parent_spec(world_of(old(fs), old(prompt)), remote@) == (
                world_of(final(fs), final(prompt)),
                r,
            )
        },
{
    let parent = match parent_path(remote.as_str()) {
        None => {
            return Ok(());
        },
        Some(parent) => parent,
    };
    if fs.is_file(parent.as_str()) {
        let mut message = "You're trying to link the file ".to_owned();
        message.append(remote.as_str());
        message.append(", but ");
        message.append(parent.as_str());
        message.append(" is a file. ");
        message.append("Do you want to overwrite the file and create a directory instead?");
        match prompt.confirm(message.as_str()) {
            Err(e) => {
                return Err(e);
            },
            Ok(false) => {
                return Err(Error::PathConflict);
            },
            Ok(true) => {
                match fs.remove(parent.as_str()) {
                    Err(e) => {
                        return Err(e);
                    },
                    Ok(()) => {},
                }
            },
        }
    }
    if !fs.is_dir(parent.as_str()) {
        fs.mkdir_all(parent.as_str())
    } else {
        Ok(())
    }
}

/// Target conflict resolution and link creation: creates the symlink for
/// `entry`, over what is at its remote where that is authorized, chosen by
/// the user, or `overwrite_all` holds.
pub fn settle_target<F: Filesystem, P: Prompt>(
    fs: &mut F,
    prompt: &mut P,
    entry: &Entry,
    authorized: &Vec<String>,
    overwrite_all: bool,
) -> (r: Result<Verdict, Error>)
    ensures
        exact(old(fs), old(prompt)) ==> {
            &&& exact(final(fs), final(prompt))
            &&& settle_target_spec(
                world_of(old(fs), old(prompt)),
                entry@,
                texts(authorized@),
                overwrite_all,
            ) == (world_of(final(fs), final(prompt)), r)
        },
        r matches Ok(verdict) ==> (overwrite_all ==> verdict.overwrite_all),
{
    let mut overwrite_all = overwrite_all;
    let remote = entry.remote.as_str();
    let allowed = contains_text(authorized, &entry.remote);
    let replace = match plan(occupied(fs, remote), overwrite_all, allowed) {
        Plan::Create => false,
        Plan::Replace => true,
        Plan::Ask => {
            let mut message = entry.remote.clone();
            message.append(" already exists.");
            let choices = ["skip", "overwrite", "overwrite all"];
            let offered = choices.as_slice();
            assert(labels(offered@) =~= seq!["skip"@, "overwrite"@, "overwrite all"@]);
            let index = match prompt.select(message.as_str(), offered) {
                Err(e) => {
                    return Err(e);
                },
                Ok(index) => index,
            };
            match interpret_choice(index) {
                Choice::Skip => {
                    return Ok(Verdict { linked: false, overwrite_all });
                },
                Choice::Overwrite => {},
                Choice::OverwriteAll => {
                    overwrite_all = true;
                },
            }
            true
        },
    };
    if replace {
        match fs.remove(remote) {
            Err(e) => {
                return Err(e);
            },
            Ok(()) => {},
        }
    }
    match fs.symlink(entry.local.as_str(), remote) {
        Err(e) => Err(e),
        Ok(()) => Ok(Verdict { linked: true, overwrite_all }),
    }
}

/// Links the entries of `bundle`, in order, and returns those that were
/// linked; the ones that the user chose to skip are left out.
///
/// What exists at a remote is replaced without a question where
/// `overwrite_all` holds or the remote is among `authorized`. The first
/// failure ends the pass and is returned; the entries linked before it stay
/// linked.
pub fn link<F: Filesystem, P: Prompt>(
    fs: &mut F,
    prompt: &mut P,
    bundle: &Bundle,
    authorized: &Vec<String>,
    overwrite_all: bool,
) -> (r: Result<Vec<Entry>, Error>)
    ensures
        exact(old(fs), old(prompt)) ==> {
            let end = link_spec(
                world_of(old(fs), old(prompt)),
                bundle@.entries,
                texts(authorized@),
                overwrite_all,
            );
            &&& exact(final(fs), final(prompt))
            &&& world_of(final(fs), final(prompt)) == end.world
            &&& match end.error {
                Some(e) => r == Err::<Vec<Entry>, Error>(e),
                None => r matches Ok(linked) && entry_views(linked@) == end.linked,
            }
        },
        r matches Ok(linked) ==> picked_from(entry_views(linked@), bundle@.entries),
        bundle@.entries.len() == 0 ==> (r matches Ok(linked) && linked@.len() == 0),
{
    let ghost start = link_start(world_of(fs, prompt), overwrite_all);
    let ghost entries = bundle@.entries;
    let ghost allowed = texts(authorized@);
    let ghost precise = exact(fs, prompt);
    let mut linked: Vec<Entry> = Vec::new();
    let mut replace_all = overwrite_all;
    let mut i: usize = 0;
    assert(entry_views(linked@) =~= Seq::<EntryView>::empty());
    while i < bundle.entries.len()
        invariant
            i <= bundle.entries.len(),
            entries == bundle@.entries,
            allowed == texts(authorized@),
            start == link_start(world_of(old(fs), old(prompt)), overwrite_all),
            precise == exact(old(fs), old(prompt)),
            picked_from(entry_views(linked@), entries.take(i as int)),
            linked.len() <= i,
            precise ==> {
                &&& exact(fs, prompt)
                &&& link_run(start, entries, allowed, i as nat) == (LinkState {
                    world: world_of(fs, prompt),
                    overwrite_all: replace_all,
                    linked: entry_views(linked@),
                    error: None,
                })
            },
        decreases bundle.entries.len() - i,
    {
        let entry = &bundle.entries[i];
        assert(entries[i as int] == entry@);
        assert(entries.take(i + 1).drop_last() =~= entries.take(i as int));
        match prepare_parent(fs, prompt, &entry.remote) {
            Err(e) => {
                proof {
                    if precise {
                        let done = (i + 1) as nat;
                        lemma_failed_run_stays(start, entries, allowed, done, entries.len());
                    }
                }
                return Err(e);
            },
            Ok(()) => {},
        }
        match settle_target(fs, prompt, entry, authorized, replace_all) {
            Err(e) => {
                proof {
                    if precise {
                        let done = (i + 1) as nat;
                        lemma_failed_run_stays(start, entries, allowed, done, entries.len());
                    }
                }
                return Err(e);
            },
            Ok(verdict) => {
                replace_all = verdict.overwrite_all;
                if verdict.linked {
                    let ghost before = entry_views(linked@);
                    linked.push(entry.clone());
                    assert(entry_views(linked@) =~= before.push(entry@));
                    assert(entry_views(linked@).drop_last() =~= before);
                }
            },
        }
        i += 1;
    }
    assert(entries.take(i as int) =~= entries);
    Ok(linked)
}

} // verus!
