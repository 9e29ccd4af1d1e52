use herdr_hint::repo::pick_repo_name;
use herdr_hint::{repo_context, repo_name_from_paths};

#[test]
fn repo_name_from_paths_normal_repo() {
    let name = repo_name_from_paths("/home/user/ga-pms", Some(".git"));
    assert_eq!(name, Some("ga-pms".to_string()));
}

#[test]
fn repo_name_from_paths_worktree() {
    let name = repo_name_from_paths("/tmp/worktrees/research", Some("/home/user/ga-pms/.git"));
    assert_eq!(name, Some("ga-pms".to_string()));
}

#[test]
fn repo_name_from_paths_no_common_dir() {
    let name = repo_name_from_paths("/home/user/my-repo", None);
    assert_eq!(name, Some("my-repo".to_string()));
}

#[test]
fn repo_name_from_root_paths() {
    assert_eq!(repo_name_from_paths("/", None), None);
    assert_eq!(repo_name_from_paths("/home/user/app", Some("/.git")), Some("app".to_string()));
    assert_eq!(repo_name_from_paths("/srv/a/", Some("/")), Some("a".to_string()));
}

#[test]
fn pick_repo_name_prefers_main_repository_of_absolute_common_dir() {
    let main = Some("main".to_string());
    let top = Some("top".to_string());
    assert_eq!(pick_repo_name(Some("/x/.git"), main.clone(), top.clone()), main);
    assert_eq!(pick_repo_name(Some(".git"), main.clone(), top.clone()), top);
    assert_eq!(pick_repo_name(None, main.clone(), top.clone()), top);
    assert_eq!(pick_repo_name(Some("/x/.git"), None, top.clone()), top);
}

#[test]
fn repo_context_joins_with_colon() {
    assert_eq!(repo_context("herdr", "main"), "herdr:main");
    assert_eq!(repo_context("", ""), ":");
}
