use aether::remote_fs::{exists_from_read, FsEvent, RemoteDirEntry, RemoteFs};
use aether::ssh::{SshAuth, SshConfig, SshRemoteFs};

#[test]
fn ssh_config_defaults() {
    let config = SshConfig::default();
    assert_eq!(config.port, 22);
    assert!(config.host.is_empty());
    assert!(config.username.is_empty());
    assert!(matches!(config.auth, SshAuth::Agent));
}

#[test]
fn ssh_backend_is_not_available_yet() {
    let fs = SshRemoteFs::new(SshConfig {
        host: "example.org".to_string(),
        port: 2222,
        username: "me".to_string(),
        auth: SshAuth::Key { path: "~/.ssh/id".to_string(), passphrase: None },
    });
    assert_eq!(fs.read_file("/etc/hosts"), Err("SSH read_file not yet implemented".to_string()));
    assert_eq!(fs.write_file("/tmp/x", b"data"), Err("SSH write_file not yet implemented".to_string()));
    assert!(fs.list_dir("/").is_err());
    assert_eq!(fs.exec("ls"), Err("SSH exec not yet implemented".to_string()));
    let events = fs.watch("/").unwrap();
    assert!(events.try_recv().is_err());
    assert_eq!(fs.path_exists("/etc/hosts"), Ok(false));
}

#[test]
fn exists_follows_the_read() {
    assert_eq!(exists_from_read(Ok(vec![1, 2])), Ok(true));
    assert_eq!(exists_from_read(Err("no".to_string())), Ok(false));
    let entry = RemoteDirEntry { name: "a".to_string(), is_dir: false, size: 3, modified: None };
    assert_eq!(entry.clone().size, 3);
    let event = FsEvent::Renamed { from: "a".to_string(), to: "b".to_string() };
    assert!(matches!(event.clone(), FsEvent::Renamed { .. }));
}
