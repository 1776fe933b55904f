//! The frozen constants and the wire names of the error codes.
use tabbify_codeservice::contract::{CODE_SERVICE_PORT, KNOWLEDGE_DIR, PROJECTS_DIR};
use tabbify_codeservice::error::{CodeError, CodeErrorCode};
use tabbify_codeservice::state::CodeRoots;

#[test]
fn contract_types_link_and_envelope_builds() {
    assert_eq!(CODE_SERVICE_PORT, 8731);
    assert_eq!(PROJECTS_DIR, "/home/agent/projects");
    let e = CodeError::new(CodeErrorCode::NotFound, "x");
    assert_eq!(e.code.wire_name(), "not_found");
    assert_eq!(e.message, "x");
}

#[test]
fn wire_names_are_snake_case() {
    assert_eq!(CodeErrorCode::Invalid.wire_name(), "invalid");
    assert_eq!(CodeErrorCode::Forbidden.wire_name(), "forbidden");
    assert_eq!(CodeErrorCode::NeedsCredential.wire_name(), "needs_credential");
    assert_eq!(CodeErrorCode::Internal.wire_name(), "internal");
}

#[test]
fn production_roots_are_the_constants() {
    let r = CodeRoots::from_contract();
    assert_eq!(r.projects, PROJECTS_DIR);
    assert_eq!(r.knowledge, KNOWLEDGE_DIR);
    assert_eq!(KNOWLEDGE_DIR, "/home/agent/knowledge");
}
