use git_workspace::repository::Repository;

fn repo(name: &str, path: &str, origin: &str) -> Repository {
    Repository::new(
        name.to_string(),
        path.to_string(),
        origin.to_string(),
        None,
        None,
    )
}

fn repo_full(
    name: &str,
    path: &str,
    origin: &str,
    upstream: Option<&str>,
    branch: Option<&str>,
) -> Repository {
    Repository::new(
        name.to_string(),
        path.to_string(),
        origin.to_string(),
        upstream.map(|s| s.to_string()),
        branch.map(|s| s.to_string()),
    )
}

#[test]
fn string_order_is_lexicographic() {
    assert!(git_workspace::order::str_lt("a/b", "a/c"));
    assert!(git_workspace::order::str_lt("a", "a/b"));
    assert!(!git_workspace::order::str_lt("a/c", "a/b"));
    assert!(!git_workspace::order::str_lt("same", "same"));
    assert!(git_workspace::order::str_eq("same", "same"));
    assert!(!git_workspace::order::str_eq("same", "samey"));
}

#[test]
fn resolve_path_joins_safe_paths() {
    let r = repo("proj", "host/org/proj", "u");
    let p = r.resolve_path("/ws").unwrap();
    assert_eq!(p, "/ws/host/org/proj");
}

#[test]
fn resolve_path_rejects_escapes() {
    for bad in ["../x", "a/../b", "a/..", "..", "/abs", ""] {
        let r = repo("p", bad, "u");
        assert!(r.resolve_path("/ws").is_err(), "{bad} should be rejected");
    }
    for good in ["a", "a/b", "a/b.c", "a/..b", "a..b/c", "dots../x"] {
        let r = repo("p", good, "u");
        assert!(r.resolve_path("/ws").is_ok(), "{good} should be accepted");
    }
}

#[test]
fn clone_and_pull_arguments() {
    let plain = repo("p", "h/o/p", "url");
    assert_eq!(plain.clone_args(), vec!["clone", "url", "h/o/p"]);
    assert_eq!(plain.pull_args(), vec!["pull"]);
    assert!(plain.set_upstream_args().is_none());
    assert!(plain.switch_args().is_none());

    let with_upstream = repo_full("p", "h/o/p", "url", Some("up-url"), Some("main"));
    assert_eq!(with_upstream.pull_args(), vec!["pull", "upstream", "main"]);
    assert_eq!(
        with_upstream.set_upstream_args().unwrap(),
        vec!["remote", "add", "upstream", "up-url"]
    );
    assert_eq!(with_upstream.switch_args().unwrap(), vec!["switch", "main"]);
}

#[test]
fn error_context_keeps_cause_order() {
    let e = git_workspace::errors::WorkspaceError::new(
        git_workspace::errors::ErrorKind::CloneError,
        "exit status 1".to_string(),
    );
    let e = e.with_context("cloning h/o/p".to_string());
    let e = e.with_context("updating workspace".to_string());
    assert_eq!(e.kind, git_workspace::errors::ErrorKind::CloneError);
    assert_eq!(
        e.causes,
        vec!["updating workspace", "cloning h/o/p", "exit status 1"]
    );
}

#[test]
fn dedup_sorts_and_keeps_one_per_path() {
    let input = vec![
        repo("c", "z/c", "u3"),
        repo("a", "a/a", "u1"),
        repo("b", "m/b", "u2"),
        repo("a2", "a/a", "other-url"),
        repo("b", "m/b", "u2"),
    ];
    let out = git_workspace::dedup::canonical_repositories(input);
    let paths: Vec<&str> = out.iter().map(|r| r.full_path.as_str()).collect();
    assert_eq!(paths, vec!["a/a", "m/b", "z/c"]);
}

#[test]
fn dedup_is_order_independent() {
    let one = vec![repo("a", "a", "u"), repo("b", "b", "u"), repo("c", "c", "u")];
    let two = vec![repo("c", "c", "u"), repo("a", "a", "u"), repo("b", "b", "u"), repo("a", "a", "u")];
    let out1: Vec<String> = git_workspace::dedup::canonical_repositories(one)
        .into_iter()
        .map(|r| r.full_path)
        .collect();
    let out2: Vec<String> = git_workspace::dedup::canonical_repositories(two)
        .into_iter()
        .map(|r| r.full_path)
        .collect();
    assert_eq!(out1, out2);
}

#[test]
fn lockfile_round_trips() {
    let repos = vec![
        repo_full("b", "gh/org/b", "url-b", Some("up-b"), Some("main")),
        repo_full("c", "gh/org/c", "url-c", None, None),
    ];
    let text = git_workspace::lockfile::write_lockfile(&repos);
    let back = git_workspace::lockfile::read_lockfile(&text).unwrap();
    assert_eq!(back.len(), 2);
    assert_eq!(back[0].name, "b");
    assert_eq!(back[0].full_path, "gh/org/b");
    assert_eq!(back[0].origin_url, "url-b");
    assert_eq!(back[0].upstream_url.as_deref(), Some("up-b"));
    assert_eq!(back[0].branch.as_deref(), Some("main"));
    assert_eq!(back[1].name, "c");
    assert!(back[1].upstream_url.is_none());
    assert!(back[1].branch.is_none());

    let text_again = git_workspace::lockfile::write_lockfile(&back);
    assert_eq!(text, text_again, "rewriting an unchanged set is byte-identical");
}

#[test]
fn lockfile_text_shape() {
    let repos = vec![repo_full("p", "h/o/p", "url", None, Some("trunk"))];
    let text = git_workspace::lockfile::write_lockfile(&repos);
    assert_eq!(text, "repo\np\nh/o/p\nurl\n\ntrunk\n");
}

#[test]
fn lockfile_rejects_malformed_text() {
    assert!(git_workspace::lockfile::read_lockfile("nonsense\n").is_err());
    assert!(git_workspace::lockfile::read_lockfile("repo\nonly-a-name\n").is_err());
    assert!(git_workspace::lockfile::read_lockfile("repo").is_err());
    let ok = git_workspace::lockfile::read_lockfile("").unwrap();
    assert!(ok.is_empty());
}

#[test]
fn lockfile_safety_check() {
    let fine = repo_full("p", "h/o/p", "url", Some("up"), Some("main"));
    assert!(git_workspace::lockfile::check_lockfile_safe(&fine));
    let newline_in_name = repo("a\nb", "h/o/p", "url");
    assert!(!git_workspace::lockfile::check_lockfile_safe(&newline_in_name));
    let empty_branch = repo_full("p", "h/o/p", "url", None, Some(""));
    assert!(!git_workspace::lockfile::check_lockfile_safe(&empty_branch));
}
