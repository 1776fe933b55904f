//! Shared application state.
//!
//! `CodeRoots` decouples the confinement roots from the frozen constants so
//! tests can point at a temporary directory; production uses
//! `CodeRoots::from_contract()` (`PROJECTS_DIR` / `KNOWLEDGE_DIR`).

use std::sync::atomic::AtomicBool;
use std::sync::Arc;

use vstd::prelude::*;

use crate::contract::{KNOWLEDGE_DIR, PROJECTS_DIR};

verus! {

/// Filesystem roots the service is confined to.
#[derive(Debug, Clone)]
pub struct CodeRoots {
    pub projects: String,
    pub knowledge: String,
}

impl CodeRoots {
    /// Production roots from the frozen constants.
    pub fn from_contract() -> (r: CodeRoots)
        ensures
            r.projects@ == PROJECTS_DIR@,
            r.knowledge@ == KNOWLEDGE_DIR@,
    {
        CodeRoots { projects: PROJECTS_DIR.to_owned(), knowledge: KNOWLEDGE_DIR.to_owned() }
    }
}

/// Process-wide shared state.
#[derive(Debug, Clone)]
pub struct AppState {
    pub roots: Arc<CodeRoots>,
    pub user_id: Arc<String>,
    /// Global index-ready flag (true once the language server finished its
    /// first index).
    pub ready: Arc<AtomicBool>,
}

impl AppState {
    /// Fresh state over `roots` for `user_id`, not yet ready.
    pub fn new(roots: CodeRoots, user_id: String) -> (s: AppState)
        ensures
            *s.roots == roots,
            *s.user_id == user_id,
    {
        AppState { roots: Arc::new(roots), user_id: Arc::new(user_id), ready: Arc::new(AtomicBool::new(false)) }
    }
}

} // verus!
