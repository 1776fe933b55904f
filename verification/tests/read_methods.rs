//! Repo discovery and workspace status over a listing of the projects root.
use tabbify_codeservice::methods::read::{repo_status, workspace_status};
use tabbify_codeservice::repo::{detect_languages, discover_repos, DirEntryInfo, DiscoveredRepo};
use tabbify_codeservice::rpc::{IndexStatus, WorkspaceStatusReq};
use tabbify_codeservice::state::{AppState, CodeRoots};

fn entry(name: &str, is_dir: bool, has_cargo_toml: bool) -> DirEntryInfo {
    DirEntryInfo { name: name.into(), is_dir, has_cargo_toml, has_git: false }
}

fn git_dir(name: &str) -> DirEntryInfo {
    DirEntryInfo { name: name.into(), is_dir: true, has_cargo_toml: false, has_git: true }
}

#[test]
fn discover_finds_demo_repo_and_rust_lang() {
    // The projects root holds `demo/` with a Cargo.toml.
    let repos = discover_repos(vec![entry("demo", true, true)]);
    assert_eq!(repos.len(), 1);
    assert_eq!(repos[0].name, "demo");
    assert!(repos[0].languages.iter().any(|l| l == "rust"));
}

#[test]
fn discover_sorts_and_skips_files() {
    let repos = discover_repos(vec![
        git_dir("zeta"),
        entry("README.md", false, false),
        entry("alpha", true, true),
        git_dir("Beta"),
        entry("scratch", true, false),
    ]);
    let names: Vec<_> = repos.iter().map(|r| r.name.as_str()).collect();
    assert_eq!(names, vec!["Beta", "alpha", "zeta"]);
    assert!(repos[0].languages.is_empty());
    assert_eq!(repos[1].languages, vec!["rust".to_string()]);
}

#[test]
fn languages_come_from_the_manifest() {
    assert_eq!(detect_languages(true), vec!["rust".to_string()]);
    assert!(detect_languages(false).is_empty());
}

#[test]
fn workspace_status_reports_the_index_status_per_language() {
    let st = AppState::new(
        CodeRoots { projects: "/tmp/p".into(), knowledge: "/tmp/k".into() },
        "default".into(),
    );
    let listing = || vec![entry("demo", true, true), git_dir("web"), entry("tmp", true, false)];
    let resp = workspace_status(&st, WorkspaceStatusReq {}, listing(), false);
    assert_eq!(resp.repos.len(), 2);
    assert_eq!(resp.repos[0].repo, "demo");
    assert_eq!(resp.repos[0].languages.len(), 1);
    assert_eq!(resp.repos[0].languages[0].lang, "rust");
    assert_eq!(resp.repos[0].languages[0].status, IndexStatus::Indexing);
    assert!(resp.repos[1].languages.is_empty());
    let ready = workspace_status(&st, WorkspaceStatusReq {}, listing(), true);
    assert_eq!(ready.repos[0].languages[0].status, IndexStatus::Ready);
    let direct = repo_status(vec![DiscoveredRepo { name: "x".into(), languages: vec!["rust".into()] }], false);
    assert_eq!(direct.repos[0].languages[0].status, IndexStatus::Indexing);
}

#[test]
fn plain_directories_are_not_repos() {
    assert!(discover_repos(vec![entry("notes", true, false)]).is_empty());
    let repos = discover_repos(vec![git_dir("site")]);
    assert_eq!(repos.len(), 1);
    assert!(repos[0].languages.is_empty());
}
