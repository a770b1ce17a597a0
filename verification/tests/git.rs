use aether::git::{branch_from_head, parse_status, GitFileStatus, GitIntegration, GitRepository};

#[test]
fn branch_of_checked_out_branch_and_detached_head() {
    assert_eq!(branch_from_head("ref: refs/heads/main\n"), "main");
    assert_eq!(branch_from_head("  ref: refs/heads/feature/x \n"), "feature/x");
    assert_eq!(branch_from_head("0123456789abcdef\n"), "0123456");
}

#[test]
fn porcelain_codes_map_to_statuses() {
    let out = " M src/a.rs\nA  new.rs\n?? scratch.txt\n!! target\nUU both.rs\nR  moved.rs\nC  copy.rs\n D gone.rs\nXY odd.rs\nab\n";
    let (map, changed) = parse_status(out);
    let mut repo = GitRepository::new();
    repo.is_repo = true;
    repo.file_status = map;
    repo.has_changes = changed;
    assert_eq!(repo.file_status("src/a.rs"), GitFileStatus::Modified);
    assert_eq!(repo.file_status("new.rs"), GitFileStatus::Added);
    assert_eq!(repo.file_status("scratch.txt"), GitFileStatus::Untracked);
    assert_eq!(repo.file_status("target"), GitFileStatus::Ignored);
    assert_eq!(repo.file_status("both.rs"), GitFileStatus::Conflict);
    assert_eq!(repo.file_status("moved.rs"), GitFileStatus::Renamed);
    assert_eq!(repo.file_status("copy.rs"), GitFileStatus::Copied);
    assert_eq!(repo.file_status("gone.rs"), GitFileStatus::Deleted);
    assert_eq!(repo.file_status("odd.rs"), GitFileStatus::Unmodified);
    assert_eq!(repo.file_status("not-listed.rs"), GitFileStatus::Unmodified);
    assert_eq!(repo.file_status.len(), 9);
    assert!(changed);
}

#[test]
fn later_lines_win_and_carriage_returns_are_dropped() {
    let (map, changed) = parse_status("?? a.txt\r\n!! a.txt\r\n!! b.txt");
    let mut repo = GitRepository::new();
    repo.file_status = map;
    assert_eq!(repo.file_status("a.txt"), GitFileStatus::Ignored);
    assert_eq!(repo.file_status("b.txt"), GitFileStatus::Ignored);
    assert!(!changed);
    let (empty, none) = parse_status("");
    assert!(empty.is_empty());
    assert!(!none);
}

#[test]
fn detect_builds_repository_state() {
    let repo = GitRepository::detect(true, Some("ref: refs/heads/dev\n"), Some(" M x.rs\n"));
    assert!(repo.is_repo);
    assert_eq!(repo.branch.as_deref(), Some("dev"));
    assert_eq!(repo.file_status("x.rs"), GitFileStatus::Modified);
    assert!(repo.has_changes);
    assert_eq!((repo.ahead, repo.behind), (0, 0));

    let unreadable = GitRepository::detect(true, None, None);
    assert!(unreadable.is_repo);
    assert!(unreadable.branch.is_none());
    assert!(!unreadable.has_changes);

    let none = GitRepository::detect(false, Some("ref: refs/heads/dev"), Some(" M x.rs\n"));
    assert!(!none.is_repo);
    assert!(none.branch.is_none());
    assert!(none.file_status.is_empty());
}

#[test]
fn status_icons() {
    assert_eq!(GitRepository::status_icon(GitFileStatus::Modified), "M");
    assert_eq!(GitRepository::status_icon(GitFileStatus::Added), "A");
    assert_eq!(GitRepository::status_icon(GitFileStatus::Deleted), "D");
    assert_eq!(GitRepository::status_icon(GitFileStatus::Untracked), "U");
    assert_eq!(GitRepository::status_icon(GitFileStatus::Conflict), "C");
    assert_eq!(GitRepository::status_icon(GitFileStatus::Renamed), "R");
    assert_eq!(GitRepository::status_icon(GitFileStatus::Copied), "C");
    assert_eq!(GitRepository::status_icon(GitFileStatus::Ignored), "I");
    assert_eq!(GitRepository::status_icon(GitFileStatus::Unmodified), "");
}

#[test]
fn integration_tracks_the_repository() {
    let mut git = GitIntegration::new();
    assert!(git.is_enabled());
    assert!(!git.is_repo());
    git.detect(true, Some("ref: refs/heads/main"), Some(""));
    assert!(git.is_repo());
    git.refresh(false, None, None);
    assert!(!git.is_repo());
    assert!(GitIntegration::default().is_enabled());
    let mut repo = GitRepository::default();
    repo.refresh(true, Some("abcdef0123"), None);
    assert_eq!(repo.branch.as_deref(), Some("abcdef0"));
}
