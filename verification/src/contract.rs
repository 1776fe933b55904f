//! Workspace-wide constants shared with the rest of the platform.

use vstd::prelude::*;

verus! {

/// The port the code service listens on.
pub const CODE_SERVICE_PORT: u16 = 8731;

/// Root of the per-repo working copies.
pub const PROJECTS_DIR: &'static str = "/home/agent/projects";

/// Root of the flat knowledge base.
pub const KNOWLEDGE_DIR: &'static str = "/home/agent/knowledge";

} // verus!
