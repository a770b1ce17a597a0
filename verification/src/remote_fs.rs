//! Access to files on another machine (SSH, containers): directory entries,
//! change events and the interface a backend implements.

use std::sync::mpsc::Receiver;
use std::time::SystemTime;
use vstd::prelude::*;

verus! {

#[verifier::external_type_specification]
#[verifier::external_body]
pub struct ExSystemTime(SystemTime);

#[verifier::external_type_specification]
#[verifier::external_body]
#[verifier::reject_recursive_types(T)]
pub struct ExReceiver<T>(Receiver<T>);

/// An entry of a remote directory.
#[derive(Clone, Debug)]
pub struct RemoteDirEntry {
    pub name: String,
    pub is_dir: bool,
    pub size: u64,
    pub modified: Option<SystemTime>,
}

/// A change in a watched remote folder.
#[derive(Clone, Debug)]
pub enum FsEvent {
    Created { path: String },
    Modified { path: String },
    Deleted { path: String },
    Renamed { from: String, to: String },
}

/// Result of a remote operation; the error is a message.
pub type RemoteResult<T> = Result<T, String>;

/// What `path_exists` answers for the outcome of reading the path: whether the
/// read succeeded.
pub fn exists_from_read(read: RemoteResult<Vec<u8>>) -> (r: RemoteResult<bool>)
    ensures
        r == Ok::<bool, String>(read is Ok),
{
    match read {
        Ok(_) => Ok(true),
        Err(_) => Ok(false),
    }
}

/// File access on a remote machine.
pub trait RemoteFs: Send + Sync {
    /// Contents of the file at `path`.
    fn read_file(&self, path: &str) -> RemoteResult<Vec<u8>>;

    /// Replaces the contents of the file at `path`.
    fn write_file(&self, path: &str, content: &[u8]) -> RemoteResult<()>;

    /// Entries of the directory at `path`.
    fn list_dir(&self, path: &str) -> RemoteResult<Vec<RemoteDirEntry>>;

    /// Events for changes under `path`, where the backend supports it.
    fn watch(&self, path: &str) -> RemoteResult<Receiver<FsEvent>>;

    /// Runs `command` remotely; gives its standard output and error.
    fn exec(&self, command: &str) -> RemoteResult<(String, String)>;

    /// Whether `path` exists: whether reading `path` succeeds (see
    /// `exists_from_read`).
    fn path_exists(&self, path: &str) -> (r: RemoteResult<bool>)
        ensures
            r is Ok,
            exists|read: RemoteResult<Vec<u8>>|
                call_ensures(Self::read_file, (self, path), read) && r == Ok::<bool, String>(
                    read is Ok,
                ),
    {
        exists_from_read(self.read_file(path))
    }
}

} // verus!
