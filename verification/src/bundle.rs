//! Bundles, their entries, and the lock that records what is linked.

use vstd::prelude::*;
use crate::path::texts;

verus! {

/// One managed file or directory.
#[derive(Debug)]
pub struct Entry {
    /// Where the copy lies in storage.
    pub local: String,
    /// The place where the file or directory is expected, which becomes a
    /// symlink to `local`.
    pub remote: String,
}

/// The mathematical value of an `Entry`.
pub struct EntryView {
    pub local: Seq<char>,
    pub remote: Seq<char>,
}

impl View for Entry {
    type V = EntryView;

    open spec fn view(&self) -> EntryView {
        EntryView { local: self.local@, remote: self.remote@ }
    }
}

impl Clone for Entry {
    fn clone(&self) -> (r: Entry)
        ensures
            r@ == self@,
    {
        Entry { local: self.local.clone(), remote: self.remote.clone() }
    }
}

impl Entry {
    /// Whether this entry and `other` have the same value.
    pub fn same(&self, other: &Entry) -> (r: bool)
        ensures
            r == (self@ == other@),
    {
        self.local == other.local && self.remote == other.remote
    }
}

/// The values of a sequence of entries.
pub open spec fn entry_views(entries: Seq<Entry>) -> Seq<EntryView> {
    Seq::new(entries.len(), |i: int| entries[i]@)
}

/// A named group of entries.
#[derive(Debug)]
pub struct Bundle {
    pub id: String,
    pub entries: Vec<Entry>,
}

/// The mathematical value of a `Bundle`.
pub struct BundleView {
    pub id: Seq<char>,
    pub entries: Seq<EntryView>,
}

impl View for Bundle {
    type V = BundleView;

    open spec fn view(&self) -> BundleView {
        BundleView { id: self.id@, entries: entry_views(self.entries@) }
    }
}

impl Clone for Bundle {
    fn clone(&self) -> (r: Bundle)
        ensures
            r@ == self@,
    {
        let mut entries: Vec<Entry> = Vec::new();
        let mut i: usize = 0;
        while i < self.entries.len()
            invariant
                i <= self.entries.len(),
                entries.len() == i,
                forall|j: int| 0 <= j < i ==> entries[j]@ == self.entries[j]@,
            decreases self.entries.len() - i,
        {
            entries.push(self.entries[i].clone());
            i += 1;
        }
        assert(entry_views(entries@) =~= entry_views(self.entries@));
        Bundle { id: self.id.clone(), entries }
    }
}

impl Bundle {
    /// Whether this bundle and `other` have the same value: the same id and
    /// the same entries in the same order.
    pub fn same(&self, other: &Bundle) -> (r: bool)
        ensures
            r == (self@ == other@),
    {
        if self.id != other.id || self.entries.len() != other.entries.len() {
            assert(entry_views(self.entries@).len() == self.entries.len());
            assert(entry_views(other.entries@).len() == other.entries.len());
            return false;
        }
        let mut i: usize = 0;
        while i < self.entries.len()
            invariant
                i <= self.entries.len(),
                self.entries.len() == other.entries.len(),
                forall|j: int| 0 <= j < i ==> self.entries[j]@ == other.entries[j]@,
            decreases self.entries.len() - i,
        {
            if !self.entries[i].same(&other.entries[i]) {
                assert(entry_views(self.entries@)[i as int] != entry_views(
                    other.entries@,
                )[i as int]);
                return false;
            }
            i += 1;
        }
        assert(entry_views(self.entries@) =~= entry_views(other.entries@));
        true
    }
}

/// The values of a sequence of bundles.
pub open spec fn bundle_views(bundles: Seq<Bundle>) -> Seq<BundleView> {
    Seq::new(bundles.len(), |i: int| bundles[i]@)
}

/// The record of the bundles that are believed to be linked, each with the
/// entries that were linked when it was last dealt with.
#[derive(Debug)]
pub struct Lock {
    pub bundles: Vec<Bundle>,
}

/// The mathematical value of a `Lock`.
pub struct LockView {
    pub bundles: Seq<BundleView>,
}

impl View for Lock {
    type V = LockView;

    open spec fn view(&self) -> LockView {
        LockView { bundles: bundle_views(self.bundles@) }
    }
}

/// No two of `bundles` have the same id.
pub open spec fn unique_ids(bundles: Seq<BundleView>) -> bool {
    forall|i: int, j: int|
        0 <= i < j < bundles.len() ==> (#[trigger] bundles[i]).id != (#[trigger] bundles[j]).id
}

/// `bundles` without those whose id is `id`, in their order.
pub open spec fn without_id(bundles: Seq<BundleView>, id: Seq<char>) -> Seq<BundleView>
    decreases bundles.len(),
{
    if bundles.len() == 0 {
        bundles
    } else if bundles.last().id == id {
        without_id(bundles.drop_last(), id)
    } else {
        without_id(bundles.drop_last(), id).push(bundles.last())
    }
}

/// The lock after the record of `bundle` took the place of every record of
/// the same id: replaced, not merged.
pub open spec fn with_record(lock: LockView, bundle: BundleView) -> LockView {
    LockView { bundles: without_id(lock.bundles, bundle.id).push(bundle) }
}

/// The lock without the records of the bundle `id`.
pub open spec fn without_record(lock: LockView, id: Seq<char>) -> LockView {
    LockView { bundles: without_id(lock.bundles, id) }
}

/// The first of `bundles` whose id is `id`.
pub open spec fn record_of(bundles: Seq<BundleView>, id: Seq<char>) -> Option<BundleView>
    decreases bundles.len(),
{
    if bundles.len() == 0 {
        None
    } else {
        match record_of(bundles.drop_last(), id) {
            Some(found) => Some(found),
            None => if bundles.last().id == id {
                Some(bundles.last())
            } else {
                None
            },
        }
    }
}

/// The remotes of `entries`, in their order.
pub open spec fn remotes(entries: Seq<EntryView>) -> Seq<Seq<char>> {
    Seq::new(entries.len(), |i: int| entries[i].remote)
}

/// The remotes that were linked when the bundle `id` was last dealt with:
/// those of its record in the lock, and none where it has no record.
pub open spec fn linked_remotes(lock: LockView, id: Seq<char>) -> Seq<Seq<char>> {
    match record_of(lock.bundles, id) {
        Some(found) => remotes(found.entries),
        None => Seq::empty(),
    }
}

/// What is left when the records of `id` are taken out: records of `bundles`
/// with other ids, each once where `bundles` had each id once.
pub proof fn lemma_without_id(bundles: Seq<BundleView>, id: Seq<char>)
    ensures
        forall|i: int|
            0 <= i < without_id(bundles, id).len() ==> (#[trigger] without_id(bundles, id)[i]).id
                != id && bundles.contains(without_id(bundles, id)[i]),
        record_of(without_id(bundles, id), id) is None,
        unique_ids(bundles) ==> unique_ids(without_id(bundles, id)),
    decreases bundles.len(),
{
    if bundles.len() > 0 {
        let front = bundles.drop_last();
        lemma_without_id(front, id);
        let rest = without_id(front, id);
        assert forall|i: int| 0 <= i < rest.len() implies bundles.contains(#[trigger] rest[i]) by {
            let k = choose|k: int| 0 <= k < front.len() && front[k] == rest[i];
            assert(bundles[k] == rest[i]);
        }
        if bundles.last().id != id {
            let kept = rest.push(bundles.last());
            assert(kept.drop_last() =~= rest);
            assert(bundles.contains(bundles.last())) by {
                assert(bundles[bundles.len() - 1] == bundles.last());
            }
            if unique_ids(bundles) {
                assert(unique_ids(front)) by {
                    assert forall|i: int, j: int| 0 <= i < j < front.len() implies (
                    #[trigger] front[i]).id != (#[trigger] front[j]).id by {
                        assert(bundles[i] == front[i] && bundles[j] == front[j]);
                    }
                }
                assert forall|i: int, j: int| 0 <= i < j < kept.len() implies (
                #[trigger] kept[i]).id != (#[trigger] kept[j]).id by {
                    if j == kept.len() - 1 {
                        let k = choose|k: int| 0 <= k < front.len() && front[k] == rest[i];
                        assert(bundles[k] == rest[i]);
                        assert(bundles[k].id != bundles[bundles.len() - 1].id);
                    } else {
                        assert(rest[i].id != rest[j].id);
                    }
                }
            }
        } else {
            if unique_ids(bundles) {
                assert(unique_ids(front)) by {
                    assert forall|i: int, j: int| 0 <= i < j < front.len() implies (
                    #[trigger] front[i]).id != (#[trigger] front[j]).id by {
                        assert(bundles[i] == front[i] && bundles[j] == front[j]);
                    }
                }
            }
        }
    }
}

/// After the record of a bundle was put into the lock, the lock holds that
/// record for the bundle's id and no other, and each other id once where it
/// held each id once before.
pub proof fn lemma_record_found(lock: LockView, record: BundleView)
    ensures
        record_of(with_record(lock, record).bundles, record.id) == Some(record),
        linked_remotes(with_record(lock, record), record.id) == remotes(record.entries),
        unique_ids(lock.bundles) ==> unique_ids(with_record(lock, record).bundles),
{
    lemma_without_id(lock.bundles, record.id);
    let rest = without_id(lock.bundles, record.id);
    let all = rest.push(record);
    assert(all.drop_last() =~= rest);
    if unique_ids(lock.bundles) {
        assert forall|i: int, j: int| 0 <= i < j < all.len() implies (#[trigger] all[i]).id != (
        #[trigger] all[j]).id by {
            if j == all.len() - 1 {
                assert(rest[i].id != record.id);
            } else {
                assert(rest[i].id != rest[j].id);
            }
        }
    }
}

impl Clone for Lock {
    fn clone(&self) -> (r: Lock)
        ensures
            r@ == self@,
    {
        let mut bundles: Vec<Bundle> = Vec::new();
        let mut i: usize = 0;
        while i < self.bundles.len()
            invariant
                i <= self.bundles.len(),
                bundles.len() == i,
                forall|j: int| 0 <= j < i ==> bundles[j]@ == self.bundles[j]@,
            decreases self.bundles.len() - i,
        {
            bundles.push(self.bundles[i].clone());
            i += 1;
        }
        assert(bundle_views(bundles@) =~= bundle_views(self.bundles@));
        Lock { bundles }
    }
}

impl Default for Lock {
    /// The lock that records no bundle.
    fn default() -> (r: Lock)
        ensures
            r@.bundles == Seq::<BundleView>::empty(),
    {
        let r = Lock { bundles: Vec::new() };
        assert(r@.bundles =~= Seq::<BundleView>::empty());
        r
    }
}

impl Lock {
    /// The remotes that were linked when the bundle `id` was last dealt with.
    pub fn linked_remotes(&self, id: &str) -> (r: Vec<String>)
        ensures
            texts(r@) == linked_remotes(self@, id@),
    {
        let name = id.to_owned();
        let mut found: Option<usize> = None;
        let mut i: usize = 0;
        assert(bundle_views(self.bundles@).take(0) =~= Seq::<BundleView>::empty());
        while i < self.bundles.len()
            invariant
                i <= self.bundles.len(),
                name@ == id@,
                match found {
                    Some(k) => k < i && record_of(
                        bundle_views(self.bundles@).take(i as int),
                        id@,
                    ) == Some(self.bundles[k as int]@),
                    None => record_of(bundle_views(self.bundles@).take(i as int), id@) is None,
                },
            decreases self.bundles.len() - i,
        {
            assert(bundle_views(self.bundles@).take(i + 1).drop_last() =~= bundle_views(
                self.bundles@,
            ).take(i as int));
            if found.is_none() && self.bundles[i].id == name {
                found = Some(i);
            }
            i += 1;
        }
        assert(bundle_views(self.bundles@).take(i as int) =~= bundle_views(self.bundles@));
        let mut r: Vec<String> = Vec::new();
        match found {
            None => {
                assert(texts(r@) =~= Seq::<Seq<char>>::empty());
            },
            Some(k) => {
                let entries = &self.bundles[k].entries;
                let mut j: usize = 0;
                while j < entries.len()
                    invariant
                        j <= entries.len(),
                        r.len() == j,
                        forall|m: int| 0 <= m < j ==> r[m]@ == entries[m].remote@,
                    decreases entries.len() - j,
                {
                    r.push(entries[j].remote.clone());
                    j += 1;
                }
                assert(texts(r@) =~= remotes(self.bundles[k as int]@.entries));
            },
        }
        r
    }

    /// Whether this lock and `other` have the same value: the same records in
    /// the same order.
    pub fn same(&self, other: &Lock) -> (r: bool)
        ensures
            r == (self@ == other@),
    {
        if self.bundles.len() != other.bundles.len() {
            assert(bundle_views(self.bundles@).len() == self.bundles.len());
            assert(bundle_views(other.bundles@).len() == other.bundles.len());
            return false;
        }
        let mut i: usize = 0;
        while i < self.bundles.len()
            invariant
                i <= self.bundles.len(),
                self.bundles.len() == other.bundles.len(),
                forall|j: int| 0 <= j < i ==> self.bundles[j]@ == other.bundles[j]@,
            decreases self.bundles.len() - i,
        {
            if !self.bundles[i].same(&other.bundles[i]) {
                assert(bundle_views(self.bundles@)[i as int] != bundle_views(
                    other.bundles@,
                )[i as int]);
                return false;
            }
            i += 1;
        }
        assert(bundle_views(self.bundles@) =~= bundle_views(other.bundles@));
        true
    }

    /// Removes every record of the bundle `id`.
    pub fn forget(&mut self, id: &str)
        ensures
            final(self)@ == without_record(old(self)@, id@),
    {
        let name = id.to_owned();
        let ghost before = bundle_views(self.bundles@);
        let mut kept: Vec<Bundle> = Vec::new();
        let mut i: usize = 0;
        assert(before.take(0) =~= Seq::<BundleView>::empty());
        assert(bundle_views(kept@) =~= without_id(before.take(0), id@));
        while i < self.bundles.len()
            invariant
                i <= self.bundles.len(),
                name@ == id@,
                before == bundle_views(self.bundles@),
                bundle_views(kept@) == without_id(before.take(i as int), id@),
            decreases self.bundles.len() - i,
        {
            assert(before.take(i + 1).drop_last() =~= before.take(i as int));
            if self.bundles[i].id != name {
                let ghost so_far = bundle_views(kept@);
                kept.push(self.bundles[i].clone());
                assert(bundle_views(kept@) =~= so_far.push(self.bundles[i as int]@));
            }
            i += 1;
        }
        assert(before.take(i as int) =~= before);
        self.bundles = kept;
    }

    /// Puts the record of `bundle` in the place of every record of the same
    /// id: the earlier ones are removed, the new one is appended.
    pub fn replace(&mut self, bundle: Bundle)
        ensures
            final(self)@ == with_record(old(self)@, bundle@),
            record_of(final(self)@.bundles, bundle@.id) == Some(bundle@),
            unique_ids(old(self)@.bundles) ==> unique_ids(final(self)@.bundles),
    {
        proof {
            lemma_record_found(self@, bundle@);
        }
        self.forget(bundle.id.as_str());
        let ghost so_far = bundle_views(self.bundles@);
        let ghost added = bundle@;
        self.bundles.push(bundle);
        assert(bundle_views(self.bundles@) =~= so_far.push(added));
    }
}

/// Where the managed copies and the records about them are kept.
#[derive(Debug)]
pub struct Env {
    /// The root directory of the storage area.
    pub storage: String,
}

impl Clone for Env {
    fn clone(&self) -> (r: Env)
        ensures
            r.storage@ == self.storage@,
    {
        Env { storage: self.storage.clone() }
    }
}

} // verus!
