//! Request and response shapes of the code-service methods.

use vstd::prelude::*;

verus! {

/// A 0-based line/character position.
#[derive(Debug, Clone, Copy, PartialEq, Eq, Structural)]
pub struct Position {
    pub line: u32,
    pub character: u32,
}

/// A span between two positions.
#[derive(Debug, Clone, Copy, PartialEq, Eq, Structural)]
pub struct Range {
    pub start: Position,
    pub end: Position,
}

/// A span inside a repo file.
#[derive(Debug)]
pub struct Location {
    pub repo: String,
    pub path: String,
    pub range: Range,
}

/// A symbol definition.
#[derive(Debug)]
pub struct Symbol {
    pub name: String,
    /// `Type/method`-style path, or the bare name at top level.
    pub name_path: String,
    pub kind: String,
    pub location: Location,
    pub body: Option<String>,
    pub children: Vec<Symbol>,
}

/// The mathematical content of a [`Symbol`].
pub struct SymbolModel {
    pub name: Seq<char>,
    pub name_path: Seq<char>,
    pub kind: Seq<char>,
    pub repo: Seq<char>,
    pub path: Seq<char>,
    pub range: Range,
    pub body: Option<Seq<char>>,
    pub children: nat,
}

/// The view of an optional string.
pub open spec fn opt_view(o: Option<String>) -> Option<Seq<char>> {
    match o {
        Some(s) => Some(s@),
        None => None,
    }
}

impl View for Symbol {
    type V = SymbolModel;

    open spec fn view(&self) -> SymbolModel {
        SymbolModel {
            name: self.name@,
            name_path: self.name_path@,
            kind: self.kind@,
            repo: self.location.repo@,
            path: self.location.path@,
            range: self.location.range,
            body: opt_view(self.body),
            children: self.children@.len(),
        }
    }
}

/// The views of a sequence of symbols.
pub open spec fn symbol_views(v: Seq<Symbol>) -> Seq<SymbolModel> {
    v.map_values(|s: Symbol| s@)
}

/// One edit: exactly one of `old_string` (first occurrence) or `range`
/// (a line span) selects what `new_string` replaces.
#[derive(Debug)]
pub struct Replacement {
    pub old_string: Option<String>,
    pub range: Option<Range>,
    pub new_string: String,
}

/// `edit{repo,path,replacements[]}`.
#[derive(Debug)]
pub struct EditReq {
    pub repo: String,
    pub path: String,
    pub replacements: Vec<Replacement>,
}

/// The files a write touched (workspace-relative).
#[derive(Debug)]
pub struct EditResp {
    pub changed_files: Vec<String>,
}

/// `replace_symbol_body{repo,symbol,new_body}`.
#[derive(Debug)]
pub struct ReplaceSymbolBodyReq {
    pub repo: String,
    pub symbol: String,
    pub new_body: String,
}

/// `insert_before_symbol` / `insert_after_symbol{repo,symbol,content}`.
#[derive(Debug)]
pub struct InsertSymbolReq {
    pub repo: String,
    pub symbol: String,
    pub content: String,
}

/// `rename_symbol{repo,path,position,new_name}`.
#[derive(Debug)]
pub struct RenameSymbolReq {
    pub repo: String,
    pub path: String,
    pub position: Position,
    pub new_name: String,
}

/// `get_symbols_overview{repo,path}`.
#[derive(Debug)]
pub struct GetSymbolsOverviewReq {
    pub repo: String,
    pub path: String,
}

/// The structural map of one file (bodies omitted).
#[derive(Debug)]
pub struct GetSymbolsOverviewResp {
    pub symbols: Vec<Symbol>,
}

/// `find_symbol{name_path,kind?,include_body?}`.
#[derive(Debug)]
pub struct FindSymbolReq {
    pub name_path: String,
    pub kind: Option<String>,
    pub include_body: Option<bool>,
}

/// Matching symbols across the repos.
#[derive(Debug)]
pub struct FindSymbolResp {
    pub symbols: Vec<Symbol>,
}

/// `read_symbol{repo,path,position}`.
#[derive(Debug)]
pub struct ReadSymbolReq {
    pub repo: String,
    pub path: String,
    pub position: Position,
}

/// The symbol at a position, body included.
#[derive(Debug)]
pub struct ReadSymbolResp {
    pub symbol: Symbol,
}

/// `find_references{repo,path,position}`.
#[derive(Debug)]
pub struct FindReferencesReq {
    pub repo: String,
    pub path: String,
    pub position: Position,
}

/// The reference set of a symbol.
#[derive(Debug)]
pub struct FindReferencesResp {
    pub references: Vec<Location>,
}

/// One search hit.
#[derive(Debug)]
pub struct SearchMatch {
    pub repo: String,
    pub path: String,
    /// 1-based line number.
    pub line: u32,
    /// 1-based column of the first submatch.
    pub column: Option<u32>,
    /// The matched line, trailing white space removed.
    pub text: String,
}

/// `code_search{query,glob?,max?}`.
#[derive(Debug)]
pub struct CodeSearchReq {
    pub query: String,
    pub glob: Option<String>,
    pub max: Option<u32>,
}

/// Search hits.
#[derive(Debug)]
pub struct CodeSearchResp {
    pub matches: Vec<SearchMatch>,
}

/// `find_file{pattern}`.
#[derive(Debug)]
pub struct FindFileReq {
    pub pattern: String,
}

/// Workspace-relative paths of matching files.
#[derive(Debug)]
pub struct FindFileResp {
    pub paths: Vec<String>,
}

/// `commit{repo,message,paths?}`.
#[derive(Debug)]
pub struct CommitReq {
    pub repo: String,
    pub message: String,
    pub paths: Option<Vec<String>>,
}

/// The new commit.
#[derive(Debug)]
pub struct CommitResp {
    pub commit_sha: String,
}

/// `push{repo,branch?}`.
#[derive(Debug)]
pub struct PushReq {
    pub repo: String,
    pub branch: Option<String>,
}

/// The outcome of a push.
#[derive(Debug)]
pub struct PushResp {
    pub pushed: bool,
    pub remote_ref: Option<String>,
}

/// A git operation the broker performs with the credential.
#[derive(Debug, Clone, Copy, PartialEq, Eq, Structural)]
pub enum GitOp {
    Push,
}

/// A broker git-operation request.
#[derive(Debug)]
pub struct GitOpReq {
    pub repo: String,
    pub op: GitOp,
    pub git_ref: Option<String>,
}

/// What the broker reports of a git operation.
#[derive(Debug)]
pub struct GitOpResult {
    pub commit_sha: Option<String>,
}

/// `forge_create_repo{name,private?,description?}`.
#[derive(Debug)]
pub struct ForgeCreateRepoReq {
    pub name: String,
    pub private: Option<bool>,
    pub description: Option<String>,
}

/// A broker forge-provisioning request.
#[derive(Debug)]
pub struct ForgeProvisionReq {
    pub name: String,
    pub private: Option<bool>,
    pub description: Option<String>,
}

/// Index readiness of one language of a repo.
#[derive(Debug, Clone, Copy, PartialEq, Eq, Structural)]
pub enum IndexStatus {
    Indexing,
    Ready,
}

/// One language of a repo and its index status.
#[derive(Debug)]
pub struct LangIndex {
    pub lang: String,
    pub status: IndexStatus,
}

/// One repo and its languages.
#[derive(Debug)]
pub struct RepoIndex {
    pub repo: String,
    pub languages: Vec<LangIndex>,
}

/// `workspace_status{}`.
#[derive(Debug)]
pub struct WorkspaceStatusReq {}

/// The repos and their per-language index status.
#[derive(Debug)]
pub struct WorkspaceStatusResp {
    pub repos: Vec<RepoIndex>,
}

} // verus!
