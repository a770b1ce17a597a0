//! Remote files over SSH: connection settings and the backend, whose
//! operations are not available yet.

use std::sync::mpsc::Receiver;
use vstd::prelude::*;
use crate::remote_fs::{FsEvent, RemoteDirEntry, RemoteFs, RemoteResult};

verus! {

/// How to authenticate to the SSH server.
#[derive(Clone, Debug)]
pub enum SshAuth {
    Password(String),
    Key { path: String, passphrase: Option<String> },
    Agent,
}

/// SSH connection settings.
#[derive(Clone, Debug)]
pub struct SshConfig {
    pub host: String,
    pub port: u16,
    pub username: String,
    pub auth: SshAuth,
}

impl Default for SshConfig {
    /// No host or user, port 22, authentication through the agent.
    fn default() -> (r: Self)
        ensures
            r.host@ == Seq::<char>::empty(),
            r.port == 22,
            r.username@ == Seq::<char>::empty(),
            r.auth is Agent,
    {
        SshConfig { host: String::new(), port: 22, username: String::new(), auth: SshAuth::Agent }
    }
}

/// Remote files over SSH. The transport is not available yet: reads,
/// writes, listings and commands fail with a message, and watching gives a
/// channel that never delivers an event.
pub struct SshRemoteFs {
    _config: SshConfig,
}

impl SshRemoteFs {
    /// The settings of the connection.
    pub closed spec fn config(&self) -> SshConfig {
        self._config
    }

    pub fn new(config: SshConfig) -> (r: Self)
        ensures
            r.config() == config,
    {
        SshRemoteFs { _config: config }
    }
}

/// A receiver of file-system events whose sender is gone, so that it never
/// delivers an event.
///
/// Calls `std::sync::mpsc::channel` of std and drops the sending end; nothing
/// is stated of the receiver.
#[verifier::external_body]
fn event_receiver_without_sender() -> Receiver<FsEvent> {
    let (_tx, rx) = std::sync::mpsc::channel();
    rx
}

impl RemoteFs for SshRemoteFs {
    fn read_file(&self, _path: &str) -> (r: RemoteResult<Vec<u8>>)
        ensures
            r matches Err(m) && m@ == "SSH read_file not yet implemented"@,
    {
        Err("SSH read_file not yet implemented".to_owned())
    }

    fn write_file(&self, _path: &str, _content: &[u8]) -> (r: RemoteResult<()>)
        ensures
            r matches Err(m) && m@ == "SSH write_file not yet implemented"@,
    {
        Err("SSH write_file not yet implemented".to_owned())
    }

    fn list_dir(&self, _path: &str) -> (r: RemoteResult<Vec<RemoteDirEntry>>)
        ensures
            r matches Err(m) && m@ == "SSH list_dir not yet implemented"@,
    {
        Err("SSH list_dir not yet implemented".to_owned())
    }

    fn watch(&self, _path: &str) -> (r: RemoteResult<Receiver<FsEvent>>)
        ensures
            r is Ok,
    {
        Ok(event_receiver_without_sender())
    }

    fn exec(&self, _command: &str) -> (r: RemoteResult<(String, String)>)
        ensures
            r matches Err(m) && m@ == "SSH exec not yet implemented"@,
    {
        Err("SSH exec not yet implemented".to_owned())
    }
}

} // verus!
