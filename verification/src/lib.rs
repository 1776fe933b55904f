//! Code-service library: path confinement, LSP framing, symbol extraction,
//! text edits and result shaping for a workspace code-intelligence service.
//! Every path is confined under the projects or knowledge root, so a
//! traversal escape is answered with `forbidden`, never served.

pub mod error;
pub mod text;
pub mod contract;
pub mod paths;
pub mod components;
pub mod lsp;
pub mod rpc;
pub mod state;
pub mod methods;
pub mod treesitter;
pub mod json;
pub mod repo;
