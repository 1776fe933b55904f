//! `commit`: the repo is confined through the shared gate before anything
//! runs, a non-git directory is refused, and the git steps are planned.
use tabbify_codeservice::error::CodeErrorCode;
use tabbify_codeservice::methods::git::{commit_plan, commit_resp};
use tabbify_codeservice::rpc::CommitReq;
use tabbify_codeservice::state::{AppState, CodeRoots};

fn state() -> AppState {
    AppState::new(
        CodeRoots { projects: "/tmp/c/projects".into(), knowledge: "/tmp/c/knowledge".into() },
        "default".into(),
    )
}

#[test]
fn commit_traversal_repo_is_forbidden() {
    let st = state();
    let err = commit_plan(&st, &CommitReq { repo: "../../etc".into(), message: "x".into(), paths: None }, true)
        .unwrap_err();
    assert_eq!(err.code, CodeErrorCode::Forbidden);
}

#[test]
fn commit_non_git_dir_is_not_found() {
    let st = state();
    // `<projects>/demo` exists but holds no `.git`.
    let err =
        commit_plan(&st, &CommitReq { repo: "demo".into(), message: "x".into(), paths: None }, false).unwrap_err();
    assert_eq!(err.code, CodeErrorCode::NotFound);
}

#[test]
fn commit_plan_stages_all_or_the_given_paths() {
    let st = state();
    let p = commit_plan(&st, &CommitReq { repo: "demo".into(), message: "add f".into(), paths: None }, true).unwrap();
    assert_eq!(p.work, "/tmp/c/projects/demo");
    assert_eq!(p.add_args, vec!["add", "-A"]);
    assert_eq!(p.commit_args, vec!["commit", "-m", "add f"]);
    assert_eq!(p.rev_parse_args, vec!["rev-parse", "HEAD"]);
    let p = commit_plan(
        &st,
        &CommitReq { repo: "demo".into(), message: "m".into(), paths: Some(vec!["a.rs".into(), "b/c.rs".into()]) },
        true,
    )
    .unwrap();
    assert_eq!(p.add_args, vec!["add", "--", "a.rs", "b/c.rs"]);
    let p = commit_plan(&st, &CommitReq { repo: "demo".into(), message: "m".into(), paths: Some(vec![]) }, true)
        .unwrap();
    assert_eq!(p.add_args, vec!["add", "-A"]);
}

#[test]
fn commit_path_with_dot_dot_is_forbidden() {
    let st = state();
    let e = commit_plan(
        &st,
        &CommitReq { repo: "demo".into(), message: "m".into(), paths: Some(vec!["ok.rs".into(), "../x".into()]) },
        true,
    )
    .unwrap_err();
    assert_eq!((e.code, e.message.as_str()), (CodeErrorCode::Forbidden, "path escapes repo"));
}

#[test]
fn commit_sha_is_the_trimmed_output() {
    let sha = "0123456789abcdef0123456789abcdef01234567";
    let r = commit_resp(format!("{sha}\n").as_bytes());
    assert_eq!(r.commit_sha, sha);
    assert_eq!(r.commit_sha.len(), 40);
    assert_eq!(commit_resp(b"  x \r\n").commit_sha, "x");
}
