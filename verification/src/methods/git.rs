//! Git and forge methods. `commit` runs locally without a credential; `push`
//! and the forge operations are delegated to the broker, which holds the
//! credential and returns only results. This module decides the git
//! arguments, the broker requests, and the responses; the caller runs the
//! processes and talks to the broker.

use vstd::prelude::*;

use crate::error::{CodeError, CodeErrorCode};
use crate::paths::{path_join, repo_root, safe_segment_spec};
use crate::rpc::{
    opt_view, CommitReq, CommitResp, ForgeCreateRepoReq, ForgeProvisionReq, GitOp, GitOpReq,
    GitOpResult, PushReq, PushResp,
};
use crate::state::AppState;
use crate::text::{
    chars_of, contains_seq, find_first, lossy_utf8, string_from_chars, string_views, trim_bounds, trim_chars,
    utf8_lossy,
};

verus! {

/// How to commit: the working copy and the `git` arguments of each step.
#[derive(Debug)]
pub struct CommitPlan {
    pub work: String,
    pub add_args: Vec<String>,
    pub commit_args: Vec<String>,
    pub rev_parse_args: Vec<String>,
}

/// The `git add` arguments for the requested paths (`None`: stage all), or
/// `Forbidden` when a path holds `..`.
pub open spec fn add_args_spec(paths: Option<Seq<Seq<char>>>) -> Result<Seq<Seq<char>>, (CodeErrorCode, Seq<char>)> {
    match paths {
        Some(ps) if ps.len() > 0 => if exists|i: int| 0 <= i < ps.len() && contains_seq(#[trigger] ps[i], ".."@) {
            Err((CodeErrorCode::Forbidden, "path escapes repo"@))
        } else {
            Ok(seq!["add"@, "--"@] + ps)
        },
        _ => Ok(seq!["add"@, "-A"@]),
    }
}

/// The views of an optional list of strings.
pub open spec fn opt_strings(o: Option<Vec<String>>) -> Option<Seq<Seq<char>>> {
    match o {
        Some(v) => Some(string_views(v@)),
        None => None,
    }
}

/// The paths, unless one of them holds `..` (`Forbidden`).
fn checked_paths(paths: &Vec<String>) -> (res: Result<Vec<String>, CodeError>)
    ensures
        match res {
            Ok(v) => string_views(v@) == string_views(paths@) && !(exists|k: int|
                0 <= k < paths@.len() && contains_seq(#[trigger] string_views(paths@)[k], ".."@)),
            Err(e) => e.code == CodeErrorCode::Forbidden && e.message@ == "path escapes repo"@ && exists|k: int|
                0 <= k < paths@.len() && contains_seq(#[trigger] string_views(paths@)[k], ".."@),
        },
{
    let dots = chars_of("..");
    let ghost ps = string_views(paths@);
    let mut out: Vec<String> = Vec::new();
    let mut i: usize = 0;
    while i < paths.len()
        invariant
            0 <= i <= paths@.len(),
            dots@ == ".."@,
            ps == string_views(paths@),
            forall|j: int| 0 <= j < i ==> !contains_seq(#[trigger] ps[j], ".."@),
            string_views(out@) == ps.take(i as int),
        decreases paths@.len() - i,
    {
        let p = &paths[i];
        assert(ps[i as int] == p@);
        if find_first(chars_of(p.as_str()).as_slice(), dots.as_slice()).is_some() {
            return Err(CodeError::new(CodeErrorCode::Forbidden, "path escapes repo"));
        }
        let ghost o = out@;
        out.push(p.clone());
        proof {
            assert(string_views(out@) =~= string_views(o).push(p@));
            assert(ps.take(i as int + 1) =~= ps.take(i as int).push(ps[i as int]));
        }
        i = i + 1;
    }
    assert(ps.take(i as int) =~= ps);
    Ok(out)
}

/// `commit{repo,message,paths?}`: the plan to stage (`git add -- <paths>`,
/// or `git add -A` when no paths are given) and commit (`git commit -m
/// <message>`), then read `HEAD`. The repo is confined through `repo_root`;
/// `is_git_repo` tells whether `<work>/.git` exists.
pub fn commit_plan(state: &AppState, req: &CommitReq, is_git_repo: bool) -> (res: Result<CommitPlan, CodeError>)
    ensures
        match res {
            Ok(p) => safe_segment_spec(req.repo@) is Ok && is_git_repo && p.work@ == path_join(state.roots.projects@, req.repo@)
                && add_args_spec(opt_strings(req.paths)) == Ok::<Seq<Seq<char>>, (CodeErrorCode, Seq<char>)>(string_views(p.add_args@))
                && string_views(p.commit_args@) == seq!["commit"@, "-m"@, req.message@]
                && string_views(p.rev_parse_args@) == seq!["rev-parse"@, "HEAD"@],
            Err(e) => safe_segment_spec(req.repo@) == Err::<Seq<char>, (CodeErrorCode, Seq<char>)>((e.code, e.message@))
                || (safe_segment_spec(req.repo@) is Ok && !is_git_repo && e.code == CodeErrorCode::NotFound && e.message@ == "not a git repo"@)
                || (safe_segment_spec(req.repo@) is Ok && is_git_repo && add_args_spec(opt_strings(req.paths))
                    == Err::<Seq<Seq<char>>, (CodeErrorCode, Seq<char>)>((e.code, e.message@))),
        },
{
    let work = repo_root(state.roots.projects.as_str(), req.repo.as_str())?;
    if !is_git_repo {
        return Err(CodeError::new(CodeErrorCode::NotFound, "not a git repo"));
    }
    let mut add: Vec<String> = Vec::new();
    add.push("add".to_owned());
    let mut staged = false;
    match &req.paths {
        Some(paths) => {
            if paths.len() > 0 {
                add.push("--".to_owned());
                let checked = checked_paths(paths)?;
                let ghost o = add@;
                let mut checked = checked;
                add.append(&mut checked);
                proof {
                    assert(string_views(add@) =~= string_views(o) + string_views(paths@));
                    assert(string_views(o) =~= seq!["add"@, "--"@]);
                }
                staged = true;
            }
        },
        None => {},
    }
    if !staged {
        add.push("-A".to_owned());
        proof {
            assert(string_views(add@) =~= seq!["add"@, "-A"@]);
        }
    }
    let mut ci: Vec<String> = Vec::new();
    ci.push("commit".to_owned());
    ci.push("-m".to_owned());
    ci.push(req.message.clone());
    let mut rp: Vec<String> = Vec::new();
    rp.push("rev-parse".to_owned());
    rp.push("HEAD".to_owned());
    proof {
        assert(string_views(ci@) =~= seq!["commit"@, "-m"@, req.message@]);
        assert(string_views(rp@) =~= seq!["rev-parse"@, "HEAD"@]);
    }
    Ok(CommitPlan { work, add_args: add, commit_args: ci, rev_parse_args: rp })
}

/// The commit SHA from the decoded output of `git rev-parse HEAD`: the text
/// trimmed of white space.
pub fn commit_resp_from_text(text: &str) -> (r: CommitResp)
    ensures
        r.commit_sha@ == trim_chars(text@),
{
    let c = chars_of(text);
    let (a, b) = trim_bounds(c.as_slice(), true, true);
    CommitResp { commit_sha: string_from_chars(vstd::slice::slice_subrange(c.as_slice(), a, b)) }
}

/// The commit SHA from `git rev-parse HEAD`'s output: decoded (lossily) and
/// trimmed of white space.
pub fn commit_resp(stdout: &[u8]) -> (r: CommitResp)
    ensures
        r.commit_sha@ == trim_chars(lossy_utf8(stdout@)),
        vstd::utf8::valid_utf8(stdout@) ==> r.commit_sha@ == trim_chars(vstd::utf8::decode_utf8(stdout@)),
{
    let text = utf8_lossy(stdout);
    commit_resp_from_text(text.as_str())
}

/// `push{repo,branch?}`: the broker request, after confining the repo
/// through `repo_root` (a traversal repo never reaches the broker).
pub fn push_request(state: &AppState, req: &PushReq) -> (res: Result<GitOpReq, CodeError>)
    ensures
        match res {
            Ok(r) => safe_segment_spec(req.repo@) is Ok && r.repo@ == req.repo@ && r.op == GitOp::Push
                && opt_view(r.git_ref) == opt_view(req.branch),
            Err(e) => safe_segment_spec(req.repo@) == Err::<Seq<char>, (CodeErrorCode, Seq<char>)>((e.code, e.message@)),
        },
{
    let _root = repo_root(state.roots.projects.as_str(), req.repo.as_str())?;
    let git_ref = match &req.branch {
        Some(b) => Some(b.clone()),
        None => None,
    };
    Ok(GitOpReq { repo: req.repo.clone(), op: GitOp::Push, git_ref })
}

/// UTF-8 length of a character.
pub open spec fn utf8_len(c: char) -> int {
    let u = c as u32;
    if u < 0x80 {
        1
    } else if u < 0x800 {
        2
    } else if u < 0x10000 {
        3
    } else {
        4
    }
}

/// UTF-8 length of a character sequence.
pub open spec fn utf8_len_seq(s: Seq<char>) -> int
    decreases s.len(),
{
    if s.len() == 0 {
        0
    } else {
        utf8_len_seq(s.drop_last()) + utf8_len(s.last())
    }
}

/// The prefix of `s` whose UTF-8 length is exactly `n`, if that is a
/// character boundary.
pub open spec fn byte_prefix(s: Seq<char>, n: int) -> Option<Seq<char>> {
    if exists|k: int| 0 <= k <= s.len() && utf8_len_seq(#[trigger] s.take(k)) == n {
        Some(s.take(choose|k: int| 0 <= k <= s.len() && utf8_len_seq(#[trigger] s.take(k)) == n))
    } else {
        None
    }
}

/// The short SHA of a commit: its first 12 bytes (all of it when shorter).
pub open spec fn short_sha(s: Seq<char>) -> Option<Seq<char>> {
    if utf8_len_seq(s) <= 12 {
        Some(s)
    } else {
        byte_prefix(s, 12)
    }
}

/// The remote ref a push reports: `origin/<branch>` when a branch was
/// named, else the short SHA the broker reported, if any.
pub open spec fn remote_ref_spec(branch: Option<Seq<char>>, sha: Option<Seq<char>>) -> Option<Option<Seq<char>>> {
    match branch {
        Some(b) => Some(Some("origin/"@ + b)),
        None => match sha {
            Some(s) => match short_sha(s) {
                Some(p) => Some(Some(p)),
                None => None,
            },
            None => Some(None),
        },
    }
}

proof fn lemma_utf8_len_pos(s: Seq<char>)
    ensures
        utf8_len_seq(s) >= s.len(),
    decreases s.len(),
{
    if s.len() > 0 {
        lemma_utf8_len_pos(s.drop_last());
    }
}

proof fn lemma_utf8_len_mono(s: Seq<char>, i: int, j: int)
    requires
        0 <= i <= j <= s.len(),
    ensures
        utf8_len_seq(s.take(i)) + (j - i) <= utf8_len_seq(s.take(j)),
    decreases j - i,
{
    if i < j {
        lemma_utf8_len_mono(s, i, j - 1);
        assert(s.take(j).drop_last() =~= s.take(j - 1));
    }
}

fn utf8_len_exec(c: char) -> (n: usize)
    ensures
        n == utf8_len(c),
{
    let u = c as u32;
    if u < 0x80 {
        1
    } else if u < 0x800 {
        2
    } else if u < 0x10000 {
        3
    } else {
        4
    }
}

/// `s[..s.len().min(12)]`; `None` when byte 12 falls inside a character.
fn short_sha_exec(s: &str) -> (r: Option<String>)
    ensures
        opt_view(r) == short_sha(s@),
{
    let c = chars_of(s);
    let mut k: usize = 0;
    let mut bytes: usize = 0;
    assert(c@.take(0) =~= Seq::<char>::empty());
    while k < c.len() && bytes < 12
        invariant
            0 <= k <= c@.len(),
            bytes == utf8_len_seq(c@.take(k as int)),
            bytes <= 12 || (k > 0 && bytes <= 15),
            forall|j: int| 0 <= j < k ==> utf8_len_seq(#[trigger] c@.take(j)) < 12,
        decreases c@.len() - k,
    {
        assert(c@.take(k as int + 1).drop_last() =~= c@.take(k as int));
        assert(c@.take(k as int + 1).last() == c@[k as int]);
        bytes = bytes + utf8_len_exec(c[k]);
        k = k + 1;
    }
    proof {
        lemma_utf8_len_pos(c@);
    }
    if k == c.len() && bytes <= 12 {
        assert(c@.take(k as int) =~= c@);
        return Some(string_from_chars(c.as_slice()));
    }
    if bytes == 12 {
        proof {
            assert(utf8_len_seq(c@.take(k as int)) == 12);
            if utf8_len_seq(c@) <= 12 {
                lemma_utf8_len_mono(c@, k as int, c@.len() as int);
                assert(c@.take(c@.len() as int) =~= c@);
            }
            let kk = choose|kk: int| 0 <= kk <= c@.len() && utf8_len_seq(#[trigger] c@.take(kk)) == 12;
            if kk < k {
            } else if kk > k {
                lemma_utf8_len_mono(c@, k as int + 1, kk);
                assert(c@.take(k as int + 1).drop_last() =~= c@.take(k as int));
            }
        }
        let p = vstd::slice::slice_subrange(c.as_slice(), 0, k);
        assert(p@ =~= c@.take(k as int));
        return Some(string_from_chars(p));
    }
    proof {
        assert(bytes > 12);
        assert(utf8_len_seq(c@.take(k as int)) > 12);
        if k == c@.len() {
            assert(c@.take(k as int) =~= c@);
        } else {
            lemma_utf8_len_mono(c@, k as int, c@.len() as int);
            assert(c@.take(c@.len() as int) =~= c@);
        }
        assert forall|kk: int| 0 <= kk <= c@.len() implies utf8_len_seq(#[trigger] c@.take(kk)) != 12 by {
            if kk < k {
            } else if kk > k {
                lemma_utf8_len_mono(c@, k as int, kk);
            }
        }
    }
    None
}

/// Whether the push response is defined for the broker's result: a named
/// branch, no SHA, or a SHA whose first 12 bytes end on a character
/// boundary (cutting inside a character is a panic of `str` slicing).
pub fn push_response_defined(branch: &Option<String>, result: &GitOpResult) -> (r: bool)
    ensures
        r == remote_ref_spec(opt_view(*branch), opt_view(result.commit_sha)) is Some,
{
    match branch {
        Some(_) => true,
        None => match &result.commit_sha {
            Some(s) => short_sha_exec(s.as_str()).is_some(),
            None => true,
        },
    }
}

/// The push response for the broker's result: pushed, with the remote ref
/// of [`remote_ref_spec`].
pub fn push_response(branch: Option<String>, result: GitOpResult) -> (r: PushResp)
    requires
        remote_ref_spec(opt_view(branch), opt_view(result.commit_sha)) is Some,
    ensures
        r.pushed,
        remote_ref_spec(opt_view(branch), opt_view(result.commit_sha)) == Some(opt_view(r.remote_ref)),
{
    let remote_ref = match &branch {
        Some(b) => {
            let mut c = chars_of("origin/");
            let bc = chars_of(b.as_str());
            crate::text::push_all(&mut c, bc.as_slice());
            Some(string_from_chars(c.as_slice()))
        },
        None => match &result.commit_sha {
            Some(s) => short_sha_exec(s.as_str()),
            None => None,
        },
    };
    PushResp { pushed: true, remote_ref }
}

/// `forge_create_repo{name,private?,description?}` → the broker's
/// `forge_provision` request, field for field.
pub fn forge_provision_request(req: ForgeCreateRepoReq) -> (r: ForgeProvisionReq)
    ensures
        r.name@ == req.name@,
        r.private == req.private,
        opt_view(r.description) == opt_view(req.description),
{
    ForgeProvisionReq { name: req.name, private: req.private, description: req.description }
}

} // verus!
