//! The filesystem capability: what every operation of this crate asks of
//! persistent storage.

use vstd::prelude::*;
use crate::error::Error;
use crate::path::segments;
use crate::tree::{
    blocked, exists_at, is_dir_at, is_file_at, is_symlink_at, read_at, with_copy,
    with_directories, with_file, with_symlink, without_subtree, Tree,
};

verus! {

/// What is asked of an operating system on behalf of a filesystem operation.
#[derive(Clone, Copy, Debug, PartialEq, Eq, Structural)]
pub enum Request {
    /// Read a file.
    Read,
    /// Create or replace a file.
    Write,
    /// Create a directory with its ancestors.
    MakeDirectories,
    /// Delete a file, a symlink or a directory tree.
    Remove,
    /// Look for the source of a copy.
    FindSource,
    /// Copy a file or a directory tree.
    Copy,
    /// Create a symlink.
    Symlink,
}

/// Why an operating system refused a request, as far as the outcome depends
/// on it.
#[derive(Clone, Copy, Debug, PartialEq, Eq, Structural)]
pub enum Refusal {
    /// Nothing exists at the path.
    NotFound,
    /// Something exists at the path already.
    AlreadyExists,
    /// A part of the path that has to be a directory is none.
    NotADirectory,
    /// Any other reason.
    Other,
}

/// The failure that a refused request amounts to, or `None` where the
/// refusal is no failure.
///
/// A file that does not exist cannot be read because it is not found, any
/// other because it is not readable. Directories cannot be made where
/// something that is no directory is in the way. Deleting what does not
/// exist is no failure. A copy whose source does not exist has no source.
/// Every other refusal is a failure of the storage medium.
pub open spec fn failure_of(request: Request, refusal: Refusal) -> Option<Error> {
    match request {
        Request::Read => if refusal == Refusal::NotFound {
            Some(Error::NotFound)
        } else {
            Some(Error::NotReadable)
        },
        Request::MakeDirectories => if refusal == Refusal::AlreadyExists || refusal
            == Refusal::NotADirectory {
            Some(Error::PathConflict)
        } else {
            Some(Error::IoFailure)
        },
        Request::Remove => if refusal == Refusal::NotFound {
            None
        } else {
            Some(Error::IoFailure)
        },
        Request::FindSource => if refusal == Refusal::NotFound {
            Some(Error::SourceNotFound)
        } else {
            Some(Error::IoFailure)
        },
        _ => Some(Error::IoFailure),
    }
}

/// The failure that a refused request amounts to, or `None` where the
/// refusal is no failure.
pub fn settle_refusal(request: Request, refusal: Refusal) -> (r: Option<Error>)
    ensures
        r == failure_of(request, refusal),
{
    match request {
        Request::Read => match refusal {
            Refusal::NotFound => Some(Error::NotFound),
            _ => Some(Error::NotReadable),
        },
        Request::MakeDirectories => match refusal {
            Refusal::AlreadyExists | Refusal::NotADirectory => Some(Error::PathConflict),
            _ => Some(Error::IoFailure),
        },
        Request::Remove => match refusal {
            Refusal::NotFound => None,
            _ => Some(Error::IoFailure),
        },
        Request::FindSource => match refusal {
            Refusal::NotFound => Some(Error::SourceNotFound),
            _ => Some(Error::IoFailure),
        },
        _ => Some(Error::IoFailure),
    }
}

/// A uniform interface over persistent storage.
///
/// An implementation that keeps its whole state in memory can say exactly
/// what it holds: it reports `modelled()` and gives its contents as `tree()`.
/// Of such a filesystem every operation below has one outcome, fixed by the
/// tree before the call. An implementation backed by an operating system
/// cannot say what it holds, and keeps the defaults; the contracts then
/// promise nothing of it, and each of its operations may fail with
/// `Error::IoFailure`.
pub trait Filesystem {
    /// Whether `tree()` tells what this filesystem holds.
    open spec fn modelled(&self) -> bool {
        false
    }

    /// What this filesystem holds, where it is `modelled()`.
    open spec fn tree(&self) -> Tree {
        Map::empty()
    }

    /// The content of the file at `path`.
    fn get(&self, path: &str) -> (r: Result<String, Error>)
        ensures
            self.modelled() ==> match read_at(self.tree(), segments(path@)) {
                Ok(content) => r matches Ok(s) && s@ == content,
                Err(e) => r == Err::<String, Error>(e),
            },
    ;

    /// Creates or replaces the file at `path`.
    fn put(&mut self, path: &str, content: &str) -> (r: Result<(), Error>)
        ensures
            old(self).modelled() ==> {
                &&& final(self).modelled()
                &&& r == Ok::<(), Error>(())
                &&& final(self).tree() == with_file(old(self).tree(), segments(path@), content@)
            },
    ;

    /// Creates `path` and every missing ancestor as directories. Fails with
    /// `Error::PathConflict`, changing nothing, where a file or a symlink is
    /// in the way.
    fn mkdir_all(&mut self, path: &str) -> (r: Result<(), Error>)
        ensures
            old(self).modelled() ==> {
                &&& final(self).modelled()
                &&& if blocked(old(self).tree(), segments(path@)) {
                    &&& r == Err::<(), Error>(Error::PathConflict)
                    &&& final(self).tree() == old(self).tree()
                } else {
                    &&& r == Ok::<(), Error>(())
                    &&& final(self).tree() == with_directories(old(self).tree(), segments(path@))
                }
            },
    ;

    /// Deletes `path` and everything under it. Deleting what does not exist
    /// succeeds and changes nothing.
    fn remove(&mut self, path: &str) -> (r: Result<(), Error>)
        ensures
            old(self).modelled() ==> {
                &&& final(self).modelled()
                &&& r == Ok::<(), Error>(())
                &&& final(self).tree() == without_subtree(old(self).tree(), segments(path@))
            },
    ;

    /// Copies the file, or the directory with everything under it, from
    /// `from` to `to`. Fails with `Error::SourceNotFound`, changing nothing,
    /// where nothing exists at `from`.
    fn copy(&mut self, from: &str, to: &str) -> (r: Result<(), Error>)
        ensures
            old(self).modelled() ==> {
                &&& final(self).modelled()
                &&& if exists_at(old(self).tree(), segments(from@)) {
                    &&& r == Ok::<(), Error>(())
                    &&& final(self).tree() == with_copy(
                        old(self).tree(),
                        segments(from@),
                        segments(to@),
                    )
                } else {
                    &&& r == Err::<(), Error>(Error::SourceNotFound)
                    &&& final(self).tree() == old(self).tree()
                }
            },
    ;

    /// Creates a symlink at `link` that points at `target`, which need not
    /// exist. What was at `link` is replaced.
    fn symlink(&mut self, target: &str, link: &str) -> (r: Result<(), Error>)
        ensures
            old(self).modelled() ==> {
                &&& final(self).modelled()
                &&& r == Ok::<(), Error>(())
                &&& final(self).tree() == with_symlink(old(self).tree(), target@, segments(link@))
            },
    ;

    /// Whether a directory exists at `path`.
    fn is_dir(&self, path: &str) -> (r: bool)
        ensures
            self.modelled() ==> r == is_dir_at(self.tree(), segments(path@)),
    ;

    /// Whether a file exists at `path`.
    fn is_file(&self, path: &str) -> (r: bool)
        ensures
            self.modelled() ==> r == is_file_at(self.tree(), segments(path@)),
    ;

    /// Whether a symlink exists at `path`.
    fn is_symlink(&self, path: &str) -> (r: bool)
        ensures
            self.modelled() ==> r == is_symlink_at(self.tree(), segments(path@)),
    ;
}

} // verus!
