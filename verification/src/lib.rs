//! Dotfile management: configuration files are moved into a managed storage
//! area and replaced by symbolic links that point at the stored copies.
//!
//! The crate holds the link engine, the filesystem, prompt and serialization
//! capabilities that it runs against, an in-memory filesystem whose paths are
//! compared segment by segment, and the `add` and `link` operations.

pub mod bundle;
pub mod codec;
pub mod command;
pub mod disk;
pub mod error;
pub mod link;
pub mod memory;
pub mod path;
pub mod prompt;
pub mod store;
pub mod tree;
pub mod util;

pub use bundle::{Bundle, Entry, Env, Lock};
pub use codec::Codec;
pub use command::{cmd_add, cmd_link};
pub use disk::Filesystem;
pub use error::Error;
pub use link::link;
pub use memory::MemoryFilesystem;
pub use prompt::{Prompt, Reply, ScriptedPrompt};
pub use store::{get_lockfile, get_storage_dir, write_lockfile};
