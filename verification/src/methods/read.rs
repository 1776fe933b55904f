//! Read methods that need no language server: workspace_status.

use vstd::prelude::*;

use crate::repo::{dir_repos, discover_repos, repo_views, sorted_by_name, DirEntryInfo, DiscoveredRepo};
use crate::rpc::{IndexStatus, LangIndex, RepoIndex, WorkspaceStatusReq, WorkspaceStatusResp};
use crate::state::AppState;
use crate::text::string_views;

verus! {

/// The repo name and language names of a status entry.
pub open spec fn repo_index_view(r: RepoIndex) -> (Seq<char>, Seq<Seq<char>>) {
    (r.repo@, r.languages@.map_values(|l: LangIndex| l.lang@))
}

/// The index status reported while the language server has (`ready`) or
/// has not yet finished its first index.
pub open spec fn status_for(ready: bool) -> IndexStatus {
    if ready {
        IndexStatus::Ready
    } else {
        IndexStatus::Indexing
    }
}

/// Every language of a status entry has the status `st`.
pub open spec fn all_status(r: RepoIndex, st: IndexStatus) -> bool {
    forall|k: int| 0 <= k < r.languages@.len() ==> (#[trigger] r.languages@[k]).status == st
}

/// The status entries for discovered repos: each repo with each of its
/// languages, `Ready` once the language server finished its first index
/// (`ready`), else `Indexing`.
pub fn repo_status(repos: Vec<DiscoveredRepo>, ready: bool) -> (resp: WorkspaceStatusResp)
    ensures
        resp.repos@.map_values(|r: RepoIndex| repo_index_view(r)) == repo_views(repos@),
        forall|i: int| 0 <= i < resp.repos@.len() ==> all_status(#[trigger] resp.repos@[i], status_for(ready)),
{
    let ghost rs = repos@;
    let mut out: Vec<RepoIndex> = Vec::new();
    for r in it: repos.into_iter()
        invariant
            it.seq() == rs,
            out@.map_values(|x: RepoIndex| repo_index_view(x)) == repo_views(rs.take(it.index() as int)),
            forall|i: int| 0 <= i < out@.len() ==> all_status(#[trigger] out@[i], status_for(ready)),
    {
        let ghost idx = it.index() as int;
        let ghost rv = r@;
        let mut langs: Vec<LangIndex> = Vec::new();
        let ghost ls = r.languages@;
        for lang in jt: r.languages.into_iter()
            invariant
                jt.seq() == ls,
                langs@.map_values(|l: LangIndex| l.lang@) == string_views(ls.take(jt.index() as int)),
                forall|k: int| 0 <= k < langs@.len() ==> (#[trigger] langs@[k]).status == status_for(ready),
        {
            let ghost o = langs@;
            let ghost jdx = jt.index() as int;
            assert(lang == ls[jdx]);
            let ghost lv = lang@;
            let status = if ready {
                IndexStatus::Ready
            } else {
                IndexStatus::Indexing
            };
            langs.push(LangIndex { lang, status });
            proof {
                assert(langs@.map_values(|l: LangIndex| l.lang@) =~= o.map_values(|l: LangIndex| l.lang@).push(lv));
                assert(ls.take(jdx + 1) =~= ls.take(jdx).push(ls[jdx]));
                assert(langs@.map_values(|l: LangIndex| l.lang@) =~= string_views(ls.take(jdx + 1)));
            }
        }
        assert(ls.take(ls.len() as int) =~= ls);
        let ghost o = out@;
        assert(r == rs[idx]);
        assert(rv == (r.name@, string_views(ls)));
        let entry = RepoIndex { repo: r.name, languages: langs };
        assert(repo_index_view(entry) == rv);
        out.push(entry);
        proof {
            assert(out@.map_values(|x: RepoIndex| repo_index_view(x)) =~= o.map_values(|x: RepoIndex| repo_index_view(x)).push(rv));
            assert(rs.take(idx + 1) =~= rs.take(idx).push(rs[idx]));
            assert(out@.map_values(|x: RepoIndex| repo_index_view(x)) =~= repo_views(rs.take(idx + 1)));
        }
    }
    assert(rs.take(rs.len() as int) =~= rs);
    WorkspaceStatusResp { repos: out }
}

/// `workspace_status{}` over the entries of the projects root and the
/// value of the index-ready flag: the discovered repos, sorted by name,
/// each language `Ready` when the flag is set, else `Indexing`.
pub fn workspace_status(_state: &AppState, _req: WorkspaceStatusReq, entries: Vec<DirEntryInfo>, ready: bool) -> (resp: WorkspaceStatusResp)
    ensures
        sorted_by_name(resp.repos@.map_values(|r: RepoIndex| repo_index_view(r))),
        resp.repos@.map_values(|r: RepoIndex| repo_index_view(r)).to_multiset() == dir_repos(entries@).to_multiset(),
        forall|i: int| 0 <= i < resp.repos@.len() ==> all_status(#[trigger] resp.repos@[i], status_for(ready)),
{
    repo_status(discover_repos(entries), ready)
}

} // verus!
