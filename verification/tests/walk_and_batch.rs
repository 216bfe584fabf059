use git_workspace::archive::ArchiveWalk;
use git_workspace::archive::DirEntry;
use git_workspace::archive::WalkAction;
use git_workspace::archive::plan_archive;
use git_workspace::commands::select_repositories;
use git_workspace::engine::BatchOutcome;
use git_workspace::engine::EventCounter;
use git_workspace::engine::summarize_batch;
use git_workspace::errors::ErrorKind;
use git_workspace::errors::WorkspaceError;
use git_workspace::repository::Repository;

fn entry(path: &str, has_vcs: bool) -> DirEntry {
    DirEntry { path: path.to_string(), has_vcs }
}

fn repo(name: &str, path: &str) -> Repository {
    Repository::new(name.to_string(), path.to_string(), "url".to_string(), None, None)
}

#[test]
fn archive_plan_prunes_declared_and_nested() {
    // A declared, existing repository at x/y; an orphan at a/b; a nested
    // repository inside the orphan. Exactly the orphan is planned.
    let entries = vec![
        entry("x", false),
        entry("x/y", true),
        entry("a", false),
        entry("a/b", true),
        entry("a/b/nested", true),
    ];
    let protected = vec!["x/y".to_string(), ".archive".to_string()];
    let plan = plan_archive(&entries, protected, ".archive".to_string());
    assert_eq!(plan.len(), 1);
    assert_eq!(plan[0].0, "a/b");
    assert_eq!(plan[0].1, ".archive/a/b");
}

#[test]
fn archive_plan_skips_archive_root() {
    // After the orphan was moved, a second run sees it under the archive
    // root, which is protected: the plan is empty.
    let entries = vec![
        entry("x", false),
        entry("x/y", true),
        entry(".archive", false),
        entry(".archive/a", false),
        entry(".archive/a/b", true),
    ];
    let protected = vec!["x/y".to_string(), ".archive".to_string()];
    let plan = plan_archive(&entries, protected, ".archive".to_string());
    assert!(plan.is_empty());
}

#[test]
fn archive_walk_steps_give_actions() {
    let protected = vec!["x/y".to_string(), ".archive".to_string()];
    let mut w = ArchiveWalk::new(protected, ".archive".to_string());
    assert_eq!(w.step(&"x".to_string(), false), WalkAction::Descend);
    assert_eq!(w.step(&"x/y".to_string(), true), WalkAction::Prune);
    assert_eq!(w.step(&"a".to_string(), false), WalkAction::Descend);
    assert_eq!(w.step(&"a/b".to_string(), true), WalkAction::Archive);
    assert_eq!(w.step(&"a/b/nested".to_string(), true), WalkAction::Prune);
    assert_eq!(w.plan.len(), 1);
    assert_eq!(w.plan[0].0, "a/b");
    assert_eq!(w.plan[0].1, ".archive/a/b");
}

#[test]
fn path_cover_tests() {
    assert!(git_workspace::archive::path_covers("a/b", "a/b"));
    assert!(git_workspace::archive::path_covers("a/b", "a/b/c"));
    assert!(!git_workspace::archive::path_covers("a/b", "a/bc"));
    assert!(!git_workspace::archive::path_covers("a/b/c", "a/b"));
}

#[test]
fn batch_reports_exactly_the_failures() {
    // Five operations, two fail: the report has exactly those two, in
    // order, attributed to their repositories; all five were attempted.
    let outcomes = vec![
        BatchOutcome { repository: repo("a", "h/a"), error: None },
        BatchOutcome {
            repository: repo("b", "h/b"),
            error: Some(WorkspaceError::new(ErrorKind::CloneError, "exit 128".to_string())),
        },
        BatchOutcome { repository: repo("c", "h/c"), error: None },
        BatchOutcome {
            repository: repo("d", "h/d"),
            error: Some(WorkspaceError::new(ErrorKind::CommandError, "exit 1".to_string())),
        },
        BatchOutcome { repository: repo("e", "h/e"), error: None },
    ];
    let n = outcomes.len();
    let failures = summarize_batch(outcomes);
    assert_eq!(n, 5);
    assert_eq!(failures.len(), 2);
    assert_eq!(failures[0].0.full_path, "h/b");
    assert_eq!(failures[0].1.kind, ErrorKind::CloneError);
    assert_eq!(failures[1].0.full_path, "h/d");
    assert_eq!(failures[1].1.kind, ErrorKind::CommandError);
}

#[test]
fn counter_is_gapless_from_one() {
    let mut c = EventCounter::new();
    let mut seen = Vec::new();
    for _ in 0..5 {
        seen.push(c.bump());
    }
    assert_eq!(seen, vec![1, 2, 3, 4, 5]);
    assert_eq!(c.count, 5);
}

#[test]
fn list_and_update_scenario() {
    // Lockfile holds a/b and a/c; only a/b exists on disk. `list` prints
    // exactly "b"; `update` clones exactly a/c.
    let repos = vec![repo("b", "a/b"), repo("c", "a/c")];
    let exists = vec![true, false];
    let existing = select_repositories(&repos, &exists, true);
    let lines = git_workspace::commands::list_lines(&existing, false, "/ws");
    assert_eq!(lines, vec!["b"]);
    let full_lines = git_workspace::commands::list_lines(&existing, true, "/ws");
    assert_eq!(full_lines, vec!["/ws/a/b"]);

    let to_clone = select_repositories(&repos, &exists, false);
    assert_eq!(to_clone.len(), 1);
    assert_eq!(to_clone[0].full_path, "a/c");

    // With nothing orphaned on disk, nothing is archivable.
    let entries = vec![entry("a", false), entry("a/b", true), entry(".archive", false)];
    let protected = git_workspace::commands::protected_paths(&existing, &".archive".to_string());
    let plan = plan_archive(&entries, protected, ".archive".to_string());
    assert!(plan.is_empty());
}

#[test]
fn fetch_targets_and_arguments() {
    let repos = vec![repo("b", "a/b"), repo("c", "a/c")];
    let exists = vec![true, false];
    let (targets, args) = git_workspace::commands::fetch(&repos, &exists);
    assert_eq!(targets.len(), 1);
    assert_eq!(targets[0].full_path, "a/b");
    assert_eq!(
        args,
        vec!["fetch", "--all", "--prune", "--recurse-submodules=on-demand", "--progress"]
    );
}

#[test]
fn lock_text_sorts_dedups_and_renders() {
    let fetched = vec![repo("c", "z/c"), repo("b", "a/b"), repo("c2", "z/c")];
    let (canonical, text) = git_workspace::commands::lock_text(fetched);
    let paths: Vec<&str> = canonical.iter().map(|r| r.full_path.as_str()).collect();
    assert_eq!(paths, vec!["a/b", "z/c"]);
    let back = git_workspace::lockfile::read_lockfile(&text).unwrap();
    assert_eq!(back.len(), 2);
    assert_eq!(back[0].full_path, "a/b");
    assert_eq!(back[1].full_path, "z/c");
}
