//! The storage area: where the lock and the metadata of each bundle lie, and
//! how they are read and written.

use vstd::prelude::*;
use vstd::string::*;
use crate::bundle::{Bundle, BundleView, Env, Lock, LockView};
use crate::codec::{loses_nothing, Codec, Lossless};
use crate::disk::Filesystem;
use crate::error::Error;
use crate::path::{lemma_segments_joined, scan, segments, Segments};
use crate::tree::{blocked, is_dir_at, is_file_at, under, with_directories, with_file, Tree};

verus! {

/// The path of the lock file in the storage area `storage`.
pub open spec fn lock_path(storage: Seq<char>) -> Seq<char> {
    storage + "/lock.toml"@
}

/// The path of the directory of the bundle `id`.
pub open spec fn bundle_dir(storage: Seq<char>, id: Seq<char>) -> Seq<char> {
    storage + "/bundle/"@ + id
}

/// The path of the metadata file of the bundle `id`.
pub open spec fn metadata_path(storage: Seq<char>, id: Seq<char>) -> Seq<char> {
    bundle_dir(storage, id) + "/bundle.toml"@
}

/// The path at which the bundle `id` keeps its copy named `name`.
pub open spec fn stored_path(storage: Seq<char>, id: Seq<char>, name: Seq<char>) -> Seq<char> {
    bundle_dir(storage, id) + "/"@ + name
}

/// The storage area of the user whose home directory is `home`: the directory
/// `dotgirl` in it.
pub open spec fn storage_in(home: Seq<char>) -> Seq<char> {
    home + "/dotgirl"@
}

/// The copies of a bundle lie in the directory of the bundle: the segments of
/// a stored path are those of the directory followed by those of the name.
pub proof fn lemma_stored_path_in_bundle_dir(storage: Seq<char>, id: Seq<char>, name: Seq<char>)
    ensures
        segments(stored_path(storage, id, name)) == segments(bundle_dir(storage, id)) + segments(
            name,
        ),
        under(segments(stored_path(storage, id, name)), segments(bundle_dir(storage, id))),
{
    reveal_strlit("/");
    let dir = bundle_dir(storage, id);
    assert(dir + "/"@ + name =~= dir.push('/') + name);
    lemma_segments_joined(dir, name);
    let all = segments(dir) + segments(name);
    assert(all.subrange(0, segments(dir).len() as int) =~= segments(dir));
}

/// The metadata of a bundle lies in the directory of the bundle.
pub proof fn lemma_metadata_in_bundle_dir(storage: Seq<char>, id: Seq<char>)
    ensures
        under(segments(metadata_path(storage, id)), segments(bundle_dir(storage, id))),
{
    reveal_strlit("/bundle.toml");
    let dir = bundle_dir(storage, id);
    let name = "bundle.toml"@;
    reveal_strlit("bundle.toml");
    assert("/bundle.toml"@ =~= seq!['/'] + name);
    assert(dir + "/bundle.toml"@ =~= dir.push('/') + name);
    lemma_segments_joined(dir, name);
    let all = segments(dir) + segments(name);
    assert(all.subrange(0, segments(dir).len() as int) =~= segments(dir));
}

impl Env {
    /// The environment of the user whose home directory is `home`. Without a
    /// home directory there is none.
    pub fn in_home(home: Option<&str>) -> (r: Result<Env, Error>)
        ensures
            match home {
                Some(dir) => r matches Ok(env) && env.storage@ == storage_in(dir@),
                None => r matches Err(e) && e == Error::HomeDirectoryNotFound,
            },
    {
        match home {
            None => Err(Error::HomeDirectoryNotFound),
            Some(dir) => {
                let mut storage = dir.to_owned();
                storage.append("/dotgirl");
                Ok(Env { storage })
            },
        }
    }

    /// The path of the lock file.
    pub fn lock_file(&self) -> (r: String)
        ensures
            r@ == lock_path(self.storage@),
    {
        let mut path = self.storage.clone();
        path.append("/lock.toml");
        path
    }

    /// The path of the directory of the bundle `id`.
    pub fn bundle_dir(&self, id: &str) -> (r: String)
        ensures
            r@ == bundle_dir(self.storage@, id@),
    {
        let mut path = self.storage.clone();
        path.append("/bundle/");
        path.append(id);
        path
    }

    /// The path of the metadata file of the bundle `id`.
    pub fn metadata_file(&self, id: &str) -> (r: String)
        ensures
            r@ == metadata_path(self.storage@, id@),
    {
        let mut path = self.bundle_dir(id);
        path.append("/bundle.toml");
        path
    }

    /// The path at which the bundle `id` keeps its copy named `name`.
    pub fn stored_file(&self, id: &str, name: &str) -> (r: String)
        ensures
            r@ == stored_path(self.storage@, id@, name@),
    {
        let mut path = self.bundle_dir(id);
        path.append("/");
        path.append(name);
        path
    }
}

/// Makes sure that the storage area exists, and returns its path.
pub fn get_storage_dir<F: Filesystem>(fs: &mut F, env: &Env) -> (r: Result<String, Error>)
    ensures
        old(fs).modelled() ==> {
            &&& final(fs).modelled()
            &&& if blocked(old(fs).tree(), segments(env.storage@)) {
                &&& r matches Err(e) && e == Error::PathConflict
                &&& final(fs).tree() == old(fs).tree()
            } else {
                &&& r matches Ok(path) && path@ == env.storage@
                &&& final(fs).tree() == with_directories(old(fs).tree(), segments(env.storage@))
            }
        },
        r matches Ok(path) ==> path@ == env.storage@,
{
    match fs.mkdir_all(env.storage.as_str()) {
        Err(e) => Err(e),
        Ok(()) => Ok(env.storage.clone()),
    }
}

/// The content of the file at `p`.
pub open spec fn content_at(t: Tree, p: Segments) -> Seq<char> {
    t[p]->File_0
}

/// What reading the lock gives on a filesystem that holds `tree`: a lock
/// that records nothing where no lock file exists, else a reading of the lock
/// file by the codec, and `Error::SerializationFailure` where the codec reads
/// none.
pub open spec fn lock_loaded<C: Codec>(
    codec: &C,
    storage: Seq<char>,
    tree: Tree,
    r: Result<LockView, Error>,
) -> bool {
    let path = segments(lock_path(storage));
    if is_file_at(tree, path) {
        match r {
            Ok(lock) => codec.decodes_lock(content_at(tree, path), lock),
            Err(error) => error == Error::SerializationFailure && codec.refuses_lock_text(
                content_at(tree, path),
            ),
        }
    } else {
        r == Ok::<LockView, Error>(LockView { bundles: Seq::empty() })
    }
}

/// Reads the lock. Where no lock file exists yet the lock records nothing;
/// where one exists the lock is what the codec reads it as, and the only
/// failure is `Error::SerializationFailure`, where the codec reads nothing.
pub fn get_lockfile<F: Filesystem, C: Codec>(fs: &F, codec: &C, env: &Env) -> (r: Result<
    Lock,
    Error,
>)
    ensures
        fs.modelled() ==> lock_loaded(
            codec,
            env.storage@,
            fs.tree(),
            match r {
                Ok(lock) => Ok(lock@),
                Err(error) => Err(error),
            },
        ),
{
    let path = env.lock_file();
    if !fs.is_file(path.as_str()) {
        return Ok(Lock::default());
    }
    let text = match fs.get(path.as_str()) {
        Err(e) => {
            return Err(e);
        },
        Ok(text) => text,
    };
    match codec.decode_lock(text.as_str()) {
        Some(lock) => Ok(lock),
        None => Err(Error::SerializationFailure),
    }
}

/// What writing `lock` does to a filesystem that holds `before`: the storage
/// area is made sure of, which fails with `Error::PathConflict` where
/// something is in its way, and the lock file is overwritten in full with
/// what the codec gives. The only other failure is
/// `Error::SerializationFailure`, where the codec cannot encode the lock, and
/// then the lock file is left as it is.
pub open spec fn lock_written<C: Codec>(
    codec: &C,
    storage: Seq<char>,
    lock: LockView,
    before: Tree,
    after: Tree,
    r: Result<(), Error>,
) -> bool {
    let path = segments(lock_path(storage));
    let made = with_directories(before, segments(storage));
    if blocked(before, segments(storage)) {
        r == Err::<(), Error>(Error::PathConflict) && after == before
    } else {
        match r {
            Ok(()) => {
                &&& is_file_at(after, path)
                &&& codec.encodes_lock(lock, content_at(after, path))
                &&& after == with_file(made, path, content_at(after, path))
            },
            Err(error) => {
                &&& error == Error::SerializationFailure
                &&& codec.refuses_lock(lock)
                &&& after == made
            },
        }
    }
}

/// What a lossless codec has written as the lock it reads as that lock: after
/// `lock` was written, `lock` is a possible reading of the lock file.
pub proof fn lemma_written_lock_is_read<C: Codec>(
    codec: &Lossless<C>,
    storage: Seq<char>,
    lock: LockView,
    before: Tree,
    after: Tree,
)
    requires
        lock_written(codec, storage, lock, before, after, Ok::<(), Error>(())),
    ensures
        is_file_at(after, segments(lock_path(storage))),
        codec.decodes_lock(content_at(after, segments(lock_path(storage))), lock),
{
}

/// The lock is read as it was written: with a codec that loses nothing,
/// reading the lock after `lock` was written gives `lock`.
pub proof fn lemma_lock_round_trip<C: Codec>(
    codec: &C,
    storage: Seq<char>,
    lock: LockView,
    before: Tree,
    after: Tree,
    read: Result<LockView, Error>,
)
    requires
        loses_nothing(codec),
        lock_written(codec, storage, lock, before, after, Ok::<(), Error>(())),
        lock_loaded(codec, storage, after, read),
    ensures
        read == Ok::<LockView, Error>(lock),
{
}

/// Writes `lock`, overwriting the lock file in full with the text that the
/// codec gives for the lock. Fails with `Error::PathConflict`, changing
/// nothing, where the storage area cannot be made, and with
/// `Error::SerializationFailure`, leaving the lock file as it is, only where
/// the codec cannot encode the lock.
pub fn write_lockfile<F: Filesystem, C: Codec>(
    fs: &mut F,
    codec: &C,
    env: &Env,
    lock: &Lock,
) -> (r: Result<(), Error>)
    ensures
        old(fs).modelled() ==> {
            &&& final(fs).modelled()
            &&& lock_written(codec, env.storage@, lock@, old(fs).tree(), final(fs).tree(), r)
        },
{
    let mut path = match get_storage_dir(fs, env) {
        Err(e) => {
            return Err(e);
        },
        Ok(path) => path,
    };
    path.append("/lock.toml");
    let text = match codec.encode_lock(lock) {
        None => {
            return Err(Error::SerializationFailure);
        },
        Some(text) => text,
    };
    fs.put(path.as_str(), text.as_str())
}

/// What reading the metadata of the bundle `id` gives on a filesystem that
/// holds `tree`: `Error::BundleNotFound` where the bundle has no directory,
/// `Error::BundleMissingMetadata` where the directory holds no metadata
/// file, else a reading of the metadata file by the codec, and
/// `Error::SerializationFailure` where the codec reads none.
pub open spec fn bundle_loaded<C: Codec>(
    codec: &C,
    storage: Seq<char>,
    id: Seq<char>,
    tree: Tree,
    r: Result<BundleView, Error>,
) -> bool {
    let dir = segments(bundle_dir(storage, id));
    let path = segments(metadata_path(storage, id));
    if !is_dir_at(tree, dir) {
        r == Err::<BundleView, Error>(Error::BundleNotFound)
    } else if !is_file_at(tree, path) {
        r == Err::<BundleView, Error>(Error::BundleMissingMetadata)
    } else {
        match r {
            Ok(bundle) => codec.decodes_bundle(content_at(tree, path), bundle),
            Err(error) => error == Error::SerializationFailure && codec.refuses_bundle_text(
                content_at(tree, path),
            ),
        }
    }
}

/// Reads the metadata of the bundle `id`. Fails with `Error::BundleNotFound`
/// where the bundle has no directory, and with `Error::BundleMissingMetadata`
/// where the directory holds no metadata file. Where both exist the bundle is
/// what the codec reads the metadata file as, and the only failure is
/// `Error::SerializationFailure`, where the codec reads nothing.
pub fn load_bundle<F: Filesystem, C: Codec>(fs: &F, codec: &C, env: &Env, id: &str) -> (r: Result<
    Bundle,
    Error,
>)
    ensures
        fs.modelled() ==> bundle_loaded(
            codec,
            env.storage@,
            id@,
            fs.tree(),
            match r {
                Ok(bundle) => Ok(bundle@),
                Err(error) => Err(error),
            },
        ),
{
    let dir = env.bundle_dir(id);
    if !fs.is_dir(dir.as_str()) {
        return Err(Error::BundleNotFound);
    }
    let path = env.metadata_file(id);
    if !fs.is_file(path.as_str()) {
        return Err(Error::BundleMissingMetadata);
    }
    let text = match fs.get(path.as_str()) {
        Err(e) => {
            return Err(e);
        },
        Ok(text) => text,
    };
    match codec.decode_bundle(text.as_str()) {
        Some(bundle) => Ok(bundle),
        None => Err(Error::SerializationFailure),
    }
}

/// What writing the metadata of `bundle` does to a filesystem that holds
/// `before`: the metadata file is overwritten in full with what the codec
/// gives. The only failure is `Error::SerializationFailure`, where the codec
/// cannot encode the bundle, and then nothing changes.
pub open spec fn bundle_written<C: Codec>(
    codec: &C,
    storage: Seq<char>,
    bundle: BundleView,
    before: Tree,
    after: Tree,
    r: Result<(), Error>,
) -> bool {
    let path = segments(metadata_path(storage, bundle.id));
    match r {
        Ok(()) => {
            &&& is_file_at(after, path)
            &&& codec.encodes_bundle(bundle, content_at(after, path))
            &&& after == with_file(before, path, content_at(after, path))
        },
        Err(error) => {
            &&& error == Error::SerializationFailure
            &&& codec.refuses_bundle(bundle)
            &&& after == before
        },
    }
}

/// What a lossless codec has written as the metadata of a bundle it reads as
/// that bundle: after the metadata of `bundle` was written, `bundle` is a
/// possible reading of the metadata file.
pub proof fn lemma_written_bundle_is_read<C: Codec>(
    codec: &Lossless<C>,
    storage: Seq<char>,
    bundle: BundleView,
    before: Tree,
    after: Tree,
)
    requires
        bundle_written(codec, storage, bundle, before, after, Ok::<(), Error>(())),
    ensures
        is_file_at(after, segments(metadata_path(storage, bundle.id))),
        codec.decodes_bundle(
            content_at(after, segments(metadata_path(storage, bundle.id))),
            bundle,
        ),
{
}

/// The metadata of a bundle is read as it was written: with a codec that
/// loses nothing, reading the metadata of the bundle after that of `bundle`
/// was written gives `bundle`, where the directory of the bundle exists.
pub proof fn lemma_bundle_round_trip<C: Codec>(
    codec: &C,
    storage: Seq<char>,
    bundle: BundleView,
    before: Tree,
    after: Tree,
    read: Result<BundleView, Error>,
)
    requires
        loses_nothing(codec),
        bundle_written(codec, storage, bundle, before, after, Ok::<(), Error>(())),
        is_dir_at(before, segments(bundle_dir(storage, bundle.id))),
        bundle_loaded(codec, storage, bundle.id, after, read),
    ensures
        read == Ok::<BundleView, Error>(bundle),
{
    let dir = segments(bundle_dir(storage, bundle.id));
    let path = segments(metadata_path(storage, bundle.id));
    if dir == path {
        lemma_metadata_below_bundle_dir(storage, bundle.id);
    }
}

/// The metadata file of a bundle is not the directory of the bundle.
proof fn lemma_metadata_below_bundle_dir(storage: Seq<char>, id: Seq<char>)
    ensures
        segments(metadata_path(storage, id)) != segments(bundle_dir(storage, id)),
{
    reveal_strlit("/bundle.toml");
    reveal_strlit("bundle.toml");
    let dir = bundle_dir(storage, id);
    let name = "bundle.toml"@;
    assert("/bundle.toml"@ =~= seq!['/'] + name);
    assert(dir + "/bundle.toml"@ =~= dir.push('/') + name);
    lemma_segments_joined(dir, name);
    lemma_one_segment(name);
}

/// A text without a separator that is not empty is one segment.
proof fn lemma_one_segment(name: Seq<char>)
    requires
        name.len() > 0,
        !name.contains('/'),
    ensures
        segments(name).len() == 1,
{
    lemma_scan_plain(name);
}

/// A scan of a text without a separator has closed nothing and has the whole
/// text open.
proof fn lemma_scan_plain(name: Seq<char>)
    requires
        !name.contains('/'),
    ensures
        scan(name) == (Seq::<Seq<char>>::empty(), name),
    decreases name.len(),
{
    if name.len() > 0 {
        assert(name.contains(name.last())) by {
            assert(name[name.len() - 1] == name.last());
        }
        assert forall|c: char| name.drop_last().contains(c) implies name.contains(c) by {
            let i = choose|i: int| 0 <= i < name.drop_last().len() && name.drop_last()[i] == c;
            assert(name[i] == c);
        }
        lemma_scan_plain(name.drop_last());
        assert(name.drop_last().push(name.last()) =~= name);
    } else {
        assert(name =~= Seq::<char>::empty());
    }
}

/// Writes the metadata of `bundle`, overwriting its metadata file in full
/// with the text that the codec gives for the bundle. Fails, with
/// `Error::SerializationFailure` and changing nothing, only where the codec
/// cannot encode the bundle.
pub fn save_bundle<F: Filesystem, C: Codec>(
    fs: &mut F,
    codec: &C,
    env: &Env,
    bundle: &Bundle,
) -> (r: Result<(), Error>)
    ensures
        old(fs).modelled() ==> {
            &&& final(fs).modelled()
            &&& bundle_written(codec, env.storage@, bundle@, old(fs).tree(), final(fs).tree(), r)
        },
{
    let path = env.metadata_file(bundle.id.as_str());
    let text = match codec.encode_bundle(bundle) {
        None => {
            return Err(Error::SerializationFailure);
        },
        Some(text) => text,
    };
    fs.put(path.as_str(), text.as_str())
}

} // verus!
