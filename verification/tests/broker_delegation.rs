//! Broker-delegated methods: the requests sent and the responses built from
//! the broker's results.
use tabbify_codeservice::error::CodeErrorCode;
use tabbify_codeservice::methods::git::{forge_provision_request, push_request, push_response, push_response_defined};
use tabbify_codeservice::rpc::{ForgeCreateRepoReq, GitOp, GitOpResult, PushReq};
use tabbify_codeservice::state::{AppState, CodeRoots};

fn state() -> AppState {
    AppState::new(
        CodeRoots { projects: "/tmp/b/projects".into(), knowledge: "/tmp/b/knowledge".into() },
        "default".into(),
    )
}

#[test]
fn push_traversal_repo_is_forbidden_before_broker() {
    let st = state();
    // No broker needed: the confinement gate rejects before any socket call.
    let err = push_request(&st, &PushReq { repo: "../../etc".into(), branch: None }).unwrap_err();
    assert_eq!(err.code, CodeErrorCode::Forbidden);
}

#[test]
fn push_request_carries_repo_and_branch() {
    let st = state();
    let r = push_request(&st, &PushReq { repo: "demo".into(), branch: Some("main".into()) }).unwrap();
    assert_eq!(r.repo, "demo");
    assert_eq!(r.op, GitOp::Push);
    assert_eq!(r.git_ref.as_deref(), Some("main"));
}

#[test]
fn push_response_names_the_remote_ref() {
    let sha = Some("0123456789abcdef0123".to_string());
    let r = push_response(Some("main".into()), GitOpResult { commit_sha: sha.clone() });
    assert!(r.pushed);
    assert_eq!(r.remote_ref.as_deref(), Some("origin/main"));
    let r = push_response(None, GitOpResult { commit_sha: sha });
    assert_eq!(r.remote_ref.as_deref(), Some("0123456789ab"));
    let r = push_response(None, GitOpResult { commit_sha: Some("abc".into()) });
    assert_eq!(r.remote_ref.as_deref(), Some("abc"));
    let r = push_response(None, GitOpResult { commit_sha: None });
    assert_eq!(r.remote_ref, None);
}

#[test]
fn push_response_is_undefined_for_a_sha_cut_inside_a_character() {
    // 11 ASCII bytes then a two-byte character: byte 12 falls inside it.
    let cut = GitOpResult { commit_sha: Some("0123456789aé".into()) };
    assert!(!push_response_defined(&None, &cut));
    assert!(push_response_defined(&Some("main".into()), &cut));
    let at_boundary = GitOpResult { commit_sha: Some("0123456789é".into()) };
    assert!(push_response_defined(&None, &at_boundary));
    assert_eq!(push_response(None, at_boundary).remote_ref.as_deref(), Some("0123456789é"));
    assert!(push_response_defined(&None, &GitOpResult { commit_sha: None }));
}

#[test]
fn forge_create_repo_maps_field_for_field() {
    let r = forge_provision_request(ForgeCreateRepoReq {
        name: "site".into(),
        private: Some(true),
        description: Some("d".into()),
    });
    assert_eq!(r.name, "site");
    assert_eq!(r.private, Some(true));
    assert_eq!(r.description.as_deref(), Some("d"));
}
