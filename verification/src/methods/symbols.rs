//! Symbol navigation: get_symbols_overview, find_symbol, read_symbol and the
//! shaping of find_references. Overview, find and read answer from the
//! tree-sitter symbol map over file contents the caller has read.

use vstd::prelude::*;

use crate::error::{CodeError, CodeErrorCode};
use serde_json::Value;

use crate::json::{
    json_array, json_child, json_nodes, json_root, json_str_at, json_str_path, json_u64_at, json_u64_path,
    key_views, JsonModel, JsonNode, JsonStep,
};
use crate::components::{strip_path_prefix, strip_prefix_spec};
use crate::paths::{path_join, project_file, rebase_spec, repo_root, resolve_spec, Root};
use crate::rpc::{
    opt_view, symbol_views, FindReferencesReq, FindSymbolReq, GetSymbolsOverviewReq,
    GetSymbolsOverviewResp, Location, Position, Range, ReadSymbolReq, ReadSymbolResp, Symbol,
    SymbolModel,
};
use crate::state::AppState;
use crate::text::{
    chars_eq, chars_of, join_lines, join_lines_exec, lines_of, lines_spec, split_char,
    string_from_chars, views,
};
use crate::treesitter::{is_walk, rust_symbols, symbol_at_file};

verus! {

/// The lines `start..=end` of `src` (as far as they exist), joined by `\n`.
pub open spec fn body_spec(src: Seq<char>, start: int, end: int) -> Seq<char> {
    let ls = lines_spec(src);
    let hi = if end + 1 < ls.len() {
        end + 1
    } else {
        ls.len() as int
    };
    if start >= hi {
        Seq::empty()
    } else {
        join_lines(ls.subrange(start, hi))
    }
}

/// A symbol's source body: the lines of its range.
pub fn body_of(src: &str, sym: &Symbol) -> (out: String)
    ensures
        out@ == body_spec(
            src@,
            sym.location.range.start.line as int,
            sym.location.range.end.line as int,
        ),
{
    let c = chars_of(src);
    let lines = lines_of(c.as_slice());
    let start = sym.location.range.start.line as usize;
    let end = sym.location.range.end.line as usize;
    let hi: usize = if end < lines.len() {
        end + 1
    } else {
        lines.len()
    };
    let mut picked: Vec<Vec<char>> = Vec::new();
    if start < hi {
        let mut i: usize = start;
        while i < hi
            invariant
                start <= i <= hi <= lines@.len(),
                views(picked@) == views(lines@).subrange(start as int, i as int),
            decreases hi - i,
        {
            let ghost o = picked@;
            let x = vstd::slice::slice_to_vec(lines[i].as_slice());
            picked.push(x);
            proof {
                crate::text::lemma_views_push(o, x);
                assert(views(lines@).subrange(start as int, i + 1) =~= views(lines@).subrange(
                    start as int,
                    i as int,
                ).push(lines@[i as int]@));
            }
            i = i + 1;
        }
    }
    let joined = join_lines_exec(&picked);
    if start >= hi {
        assert(views(picked@) =~= Seq::<Seq<char>>::empty());
    }
    string_from_chars(joined.as_slice())
}

/// Whether a symbol's line span covers `line`.
pub open spec fn covers(s: SymbolModel, line: u32) -> bool {
    s.range.start.line <= line && line <= s.range.end.line
}

/// Index of the first symbol covering `line`, or -1.
pub open spec fn first_covering(ss: Seq<SymbolModel>, line: u32) -> int
    decreases ss.len(),
{
    if ss.len() == 0 {
        -1
    } else if covers(ss[0], line) {
        0
    } else {
        let r = first_covering(ss.skip(1), line);
        if r < 0 {
            -1
        } else {
            r + 1
        }
    }
}

/// `first_covering` is the first index whose symbol covers the line.
pub proof fn lemma_first_covering(ss: Seq<SymbolModel>, line: u32, i: int)
    requires
        0 <= i <= ss.len(),
        forall|k: int| 0 <= k < i ==> !covers(#[trigger] ss[k], line),
    ensures
        i < ss.len() && covers(ss[i], line) ==> first_covering(ss, line) == i,
        i == ss.len() ==> first_covering(ss, line) == -1,
    decreases i,
{
    if i > 0 {
        assert forall|k: int| 0 <= k < i - 1 implies !covers(#[trigger] ss.skip(1)[k], line) by {
            assert(ss.skip(1)[k] == ss[k + 1]);
        }
        lemma_first_covering(ss.skip(1), line, i - 1);
        if i < ss.len() {
            assert(ss.skip(1)[i - 1] == ss[i]);
        }
    } else if ss.len() == 0 {
    }
}

/// The first of `symbols` whose span covers `position.line`, with its body
/// read from `src`; `NotFound` when none does.
pub fn symbol_at(src: &str, symbols: Vec<Symbol>, position: Position) -> (res: Result<Symbol, CodeError>)
    ensures
        ({
            let i = first_covering(symbol_views(symbols@), position.line);
            match res {
                Ok(s) => i >= 0 && s@ == SymbolModel {
                    body: Some(body_spec(
                        src@,
                        symbols@[i]@.range.start.line as int,
                        symbols@[i]@.range.end.line as int,
                    )),
                    ..symbols@[i]@
                },
                Err(e) => i < 0 && e.code == CodeErrorCode::NotFound && e.message@
                    == "no symbol at position"@,
            }
        }),
{
    let ghost all = symbol_views(symbols@);
    let mut k: usize = 0;
    let n = symbols.len();
    for s in it: symbols.into_iter()
        invariant
            it.seq() == symbols@,
            n == symbols@.len(),
            all == symbol_views(symbols@),
            forall|j: int| 0 <= j < it.index() ==> !covers(#[trigger] all[j], position.line),
    {
        let ghost idx = it.index();
        assert(s == symbols@[idx]);
        assert(all[idx] == s@);
        if s.location.range.start.line <= position.line && position.line <= s.location.range.end.line {
            proof {
                lemma_first_covering(all, position.line, idx);
            }
            let body = body_of(src, &s);
            let mut s = s;
            s.body = Some(body);
            return Ok(s);
        }
    }
    proof {
        lemma_first_covering(all, position.line, all.len() as int);
    }
    Err(CodeError::new(CodeErrorCode::NotFound, "no symbol at position"))
}

/// The last `/`-separated segment of a name path (`Cfg/new` → `new`).
pub open spec fn want_of(name_path: Seq<char>) -> Seq<char> {
    split_char(name_path, '/').last()
}

/// A symbol matches a query by bare name or full name path, and by kind when
/// one is given.
pub open spec fn symbol_matches(s: SymbolModel, name_path: Seq<char>, kind: Option<Seq<char>>) -> bool {
    &&& (s.name == want_of(name_path) || s.name_path == name_path)
    &&& (kind matches Some(k) ==> s.kind == k)
}

/// A symbol as returned by a query: with its body when asked for.
pub open spec fn with_body(src: Seq<char>, s: SymbolModel, include_body: bool) -> SymbolModel {
    if include_body {
        SymbolModel { body: Some(body_spec(src, s.range.start.line as int, s.range.end.line as int)), ..s }
    } else {
        s
    }
}

/// The matching symbols of one file, in order.
pub open spec fn hits_spec(
    src: Seq<char>,
    ss: Seq<SymbolModel>,
    name_path: Seq<char>,
    kind: Option<Seq<char>>,
    include_body: bool,
) -> Seq<SymbolModel>
    decreases ss.len(),
{
    if ss.len() == 0 {
        Seq::empty()
    } else {
        let earlier = hits_spec(src, ss.drop_last(), name_path, kind, include_body);
        if symbol_matches(ss.last(), name_path, kind) {
            earlier.push(with_body(src, ss.last(), include_body))
        } else {
            earlier
        }
    }
}

/// The last `/`-separated segment of `np`.
pub fn want_exec(np: &[char]) -> (w: Vec<char>)
    ensures
        w@ == want_of(np@),
{
    let mut w: Vec<char> = Vec::new();
    let mut i: usize = 0;
    while i < np.len()
        invariant
            0 <= i <= np@.len(),
            split_char(np@.take(i as int), '/').len() >= 1,
            w@ == split_char(np@.take(i as int), '/').last(),
        decreases np@.len() - i,
    {
        let ghost p = np@.take(i as int);
        let ghost q = np@.take(i as int + 1);
        proof {
            assert(q.drop_last() =~= p);
            crate::text::lemma_split_char_nonempty(q, '/');
        }
        if np[i] == '/' {
            w = Vec::new();
        } else {
            w.push(np[i]);
        }
        i = i + 1;
    }
    assert(np@.take(i as int) =~= np@);
    w
}

proof fn lemma_first_covering_bound(ss: Seq<SymbolModel>, line: u32)
    ensures
        -1 <= first_covering(ss, line) < ss.len(),
        first_covering(ss, line) >= 0 ==> covers(ss[first_covering(ss, line)], line),
    decreases ss.len(),
{
    if ss.len() > 0 && !covers(ss[0], line) {
        lemma_first_covering_bound(ss.skip(1), line);
    }
}

/// Whether `s` matches the query (see [`symbol_matches`]).
fn matches_exec(s: &Symbol, np: &[char], want: &[char], kind: &Option<Vec<char>>) -> (r: bool)
    requires
        want@ == want_of(np@),
    ensures
        r == symbol_matches(s@, np@, match kind {
            Some(k) => Some(k@),
            None => None,
        }),
{
    let name = chars_of(s.name.as_str());
    let path = chars_of(s.name_path.as_str());
    let name_ok = chars_eq(name.as_slice(), want) || chars_eq(path.as_slice(), np);
    let kind_ok = match kind {
        Some(k) => {
            let sk = chars_of(s.kind.as_str());
            chars_eq(sk.as_slice(), k.as_slice())
        },
        None => true,
    };
    name_ok && kind_ok
}

/// The symbols of one file that match `name_path`/`kind`, bodies read from
/// `src` when `include_body`.
pub fn matching_symbols(
    src: &str,
    symbols: Vec<Symbol>,
    name_path: &str,
    kind: &Option<String>,
    include_body: bool,
) -> (out: Vec<Symbol>)
    ensures
        symbol_views(out@) == hits_spec(src@, symbol_views(symbols@), name_path@, opt_view(*kind), include_body),
{
    let np = chars_of(name_path);
    let want = want_exec(np.as_slice());
    let kc: Option<Vec<char>> = match kind {
        Some(k) => Some(chars_of(k.as_str())),
        None => None,
    };
    let ghost kv = opt_view(*kind);
    assert(kv == match kc {
        Some(k) => Some(k@),
        None => None::<Seq<char>>,
    });
    let ghost all = symbol_views(symbols@);
    let mut out: Vec<Symbol> = Vec::new();
    assert(all.take(0) =~= Seq::<SymbolModel>::empty());
    for s in it: symbols.into_iter()
        invariant
            it.seq() == symbols@,
            all == symbol_views(symbols@),
            want@ == want_of(np@),
            np@ == name_path@,
            kv == match kc {
                Some(k) => Some(k@),
                None => None::<Seq<char>>,
            },
            symbol_views(out@) == hits_spec(src@, all.take(it.index() as int), name_path@, kv, include_body),
    {
        let ghost idx = it.index() as int;
        assert(all[idx] == s@);
        assert(all.take(idx + 1).drop_last() =~= all.take(idx));
        assert(all.take(idx + 1).last() == s@);
        if matches_exec(&s, np.as_slice(), want.as_slice(), &kc) {
            let mut s = s;
            if include_body {
                let body = body_of(src, &s);
                s.body = Some(body);
            }
            let ghost o = out@;
            out.push(s);
            proof {
                assert(symbol_views(out@) =~= symbol_views(o).push(s@));
            }
        }
    }
    assert(all.take(all.len() as int) =~= all);
    out
}

/// The errors a single-file symbol method answers before it looks at
/// symbols: confinement, then a missing file.
pub open spec fn file_errors(repo: Seq<char>, path: Seq<char>, existing: Option<Seq<char>>, e: CodeError) -> bool {
    ||| resolve_spec(Root::Projects, repo, path) == Err::<Seq<char>, (CodeErrorCode, Seq<char>)>((e.code, e.message@))
    ||| (resolve_spec(Root::Projects, repo, path) is Ok && existing is None && e.code == CodeErrorCode::NotFound
        && e.message@ == "no such file"@)
}

/// The confined file of a single-file symbol method and its content.
fn confined_content(state: &AppState, repo: &str, path: &str, existing: Option<String>) -> (res: Result<(String, String), CodeError>)
    ensures
        match res {
            Ok((abs, src)) => resolve_spec(Root::Projects, repo@, path@) is Ok && opt_view(existing) == Some(src@)
                && abs@ == rebase_spec(state.roots.projects@, resolve_spec(Root::Projects, repo@, path@)->Ok_0),
            Err(e) => file_errors(repo@, path@, opt_view(existing), e),
        },
{
    let abs = project_file(state.roots.projects.as_str(), repo, path)?;
    match existing {
        Some(src) => Ok((abs, src)),
        None => Err(CodeError::new(CodeErrorCode::NotFound, "no such file")),
    }
}

/// `get_symbols_overview{repo,path}` over the file's current content
/// (`None`: no such file): the structural map, bodies omitted.
pub fn get_symbols_overview(state: &AppState, req: &GetSymbolsOverviewReq, existing: Option<String>) -> (res: Result<GetSymbolsOverviewResp, CodeError>)
    ensures
        match res {
            Ok(resp) => resolve_spec(Root::Projects, req.repo@, req.path@) is Ok && existing is Some
                && is_walk(symbol_views(resp.symbols@), opt_view(existing)->Some_0, req.repo@, req.path@)
                && forall|i: int| 0 <= i < resp.symbols@.len() ==> symbol_at_file(
                #[trigger] resp.symbols@[i]@,
                req.repo@,
                req.path@,
            ),
            Err(e) => file_errors(req.repo@, req.path@, opt_view(existing), e),
        },
{
    let (_abs, src) = confined_content(state, req.repo.as_str(), req.path.as_str(), existing)?;
    Ok(GetSymbolsOverviewResp { symbols: rust_symbols(src.as_str(), req.repo.as_str(), req.path.as_str()) })
}

/// What `read_symbol` answers over one walk `syms` of `src`: the first
/// symbol whose span covers `line`, with its body.
pub open spec fn read_spec(src: Seq<char>, syms: Seq<SymbolModel>, line: u32) -> Option<SymbolModel> {
    let i = first_covering(syms, line);
    if i < 0 {
        None
    } else {
        Some(SymbolModel {
            body: Some(body_spec(src, syms[i].range.start.line as int, syms[i].range.end.line as int)),
            ..syms[i]
        })
    }
}

/// Reading at a line gives the first symbol whose span covers that line,
/// with the same name, kind and range; no earlier symbol covers the line;
/// and `None` only when no symbol does.
pub proof fn lemma_read_picks_first_covering(src: Seq<char>, syms: Seq<SymbolModel>, line: u32)
    ensures
        read_spec(src, syms, line) matches Some(r) ==> exists|i: int|
            0 <= i < syms.len() && {
                let s = #[trigger] syms[i];
                &&& s.range.start.line <= line <= s.range.end.line
                &&& r.name == s.name && r.name_path == s.name_path && r.kind == s.kind && r.range == s.range
                &&& forall|k: int| 0 <= k < i ==> !((#[trigger] syms[k]).range.start.line <= line <= syms[k].range.end.line)
            },
        read_spec(src, syms, line) is None ==> forall|k: int|
            0 <= k < syms.len() ==> !(#[trigger] syms[k].range.start.line <= line <= syms[k].range.end.line),
{
    lemma_first_covering_props(syms, line);
    let i = first_covering(syms, line);
    if i >= 0 {
        assert forall|k: int| 0 <= k < i implies !((#[trigger] syms[k]).range.start.line <= line
            <= syms[k].range.end.line) by {
            assert(!covers(syms[k], line));
        }
    } else {
        assert forall|k: int| 0 <= k < syms.len() implies !(#[trigger] syms[k].range.start.line <= line
            <= syms[k].range.end.line) by {
            assert(!covers(syms[k], line));
        }
    }
}

/// `first_covering` is -1 when no symbol covers the line, else the index
/// of a covering symbol with none covering before it.
proof fn lemma_first_covering_props(ss: Seq<SymbolModel>, line: u32)
    ensures
        first_covering(ss, line) >= 0 ==> first_covering(ss, line) < ss.len() && covers(
            ss[first_covering(ss, line)],
            line,
        ) && forall|k: int| 0 <= k < first_covering(ss, line) ==> !covers(#[trigger] ss[k], line),
        first_covering(ss, line) < 0 ==> forall|k: int| 0 <= k < ss.len() ==> !covers(#[trigger] ss[k], line),
    decreases ss.len(),
{
    if ss.len() > 0 && !covers(ss[0], line) {
        lemma_first_covering_props(ss.skip(1), line);
        assert forall|k: int| 0 < k < ss.len() implies ss[k] == ss.skip(1)[k - 1] by {}
    }
}

/// A symbol's body is its file's lines from its first to its last line,
/// joined by line breaks, when those lines exist.
pub proof fn lemma_body_is_span_lines(src: Seq<char>, start: int, end: int)
    requires
        0 <= start <= end < lines_spec(src).len(),
    ensures
        body_spec(src, start, end) == join_lines(lines_spec(src).subrange(start, end + 1)),
        lines_spec(src).subrange(start, end + 1).len() == end - start + 1,
{
}

/// `read_symbol{repo,path,position}` over the file's current content: the
/// symbol whose span covers the position's line, body included.
pub fn read_symbol(state: &AppState, req: &ReadSymbolReq, existing: Option<String>) -> (res: Result<ReadSymbolResp, CodeError>)
    ensures
        match res {
            Ok(r) => resolve_spec(Root::Projects, req.repo@, req.path@) is Ok && existing is Some
                && exists|syms: Seq<SymbolModel>| #![trigger is_walk(syms, opt_view(existing)->Some_0, req.repo@, req.path@)]
                is_walk(syms, opt_view(existing)->Some_0, req.repo@, req.path@) && read_spec(
                opt_view(existing)->Some_0,
                syms,
                req.position.line,
            ) == Some(r.symbol@),
            Err(e) => file_errors(req.repo@, req.path@, opt_view(existing), e) || (resolve_spec(
                Root::Projects,
                req.repo@,
                req.path@,
            ) is Ok && existing is Some && e.code == CodeErrorCode::NotFound && e.message@ == "no symbol at position"@
                && exists|syms: Seq<SymbolModel>| #![trigger is_walk(syms, opt_view(existing)->Some_0, req.repo@, req.path@)]
                is_walk(syms, opt_view(existing)->Some_0, req.repo@, req.path@) && read_spec(opt_view(existing)->Some_0, syms, req.position.line)
                is None),
        },
{
    let ghost exv = opt_view(existing);
    let (_abs, src) = confined_content(state, req.repo.as_str(), req.path.as_str(), existing)?;
    let symbols = rust_symbols(src.as_str(), req.repo.as_str(), req.path.as_str());
    let ghost sv = symbol_views(symbols@);
    let ghost so = symbols@;
    assert(exv == Some(src@));
    assert(is_walk(sv, exv->Some_0, req.repo@, req.path@));
    proof {
        lemma_first_covering_bound(sv, req.position.line);
        let i = first_covering(sv, req.position.line);
        if i >= 0 {
            assert(sv[i] == so[i]@);
        }
    }
    let sym = symbol_at(src.as_str(), symbols, req.position)?;
    Ok(ReadSymbolResp { symbol: sym })
}

/// What `find_references` sends to the language server: the confined file,
/// the repo root, the file's content and its `file://` URI.
#[derive(Debug)]
pub struct ReferencesTarget {
    pub path: String,
    pub root: String,
    pub src: String,
    pub file_uri: String,
}

/// `find_references{repo,path,position}`, first step: confine the file and
/// the repo root; the file must exist.
pub fn references_target(state: &AppState, req: &FindReferencesReq, existing: Option<String>) -> (res: Result<ReferencesTarget, CodeError>)
    ensures
        match res {
            Ok(t) => resolve_spec(Root::Projects, req.repo@, req.path@) is Ok && opt_view(existing) == Some(t.src@)
                && t.path@ == rebase_spec(state.roots.projects@, resolve_spec(Root::Projects, req.repo@, req.path@)->Ok_0)
                && t.root@ == path_join(state.roots.projects@, req.repo@) && t.file_uri@ == "file://"@ + t.path@,
            Err(e) => file_errors(req.repo@, req.path@, opt_view(existing), e),
        },
{
    let (abs, src) = confined_content(state, req.repo.as_str(), req.path.as_str(), existing)?;
    let root = match repo_root(state.roots.projects.as_str(), req.repo.as_str()) {
        Ok(r) => r,
        Err(e) => {
            return Err(e);
        },
    };
    let mut uri = chars_of("file://");
    crate::text::push_all(&mut uri, chars_of(abs.as_str()).as_slice());
    Ok(ReferencesTarget { path: abs, root, src, file_uri: string_from_chars(uri.as_slice()) })
}

/// `find_references`, second step: a typed error, never a fabricated empty
/// set, while the language server is unavailable (`Internal`) or still
/// indexing (`Invalid`: poll workspace_status and retry).
pub fn references_gate(available: bool, ready: bool) -> (res: Result<(), CodeError>)
    ensures
        res is Ok <==> available && ready,
        !available ==> (res matches Err(e) && e.code == CodeErrorCode::Internal && e.message@ == "lsp unavailable"@),
        available && !ready ==> (res matches Err(e) && e.code == CodeErrorCode::Invalid
            && e.message@ == "index still building; poll workspace_status then retry"@),
{
    if !available {
        return Err(CodeError::new(CodeErrorCode::Internal, "lsp unavailable"));
    }
    if !ready {
        return Err(CodeError::new(CodeErrorCode::Invalid, "index still building; poll workspace_status then retry"));
    }
    Ok(())
}

/// `uri` without its `file://` scheme, if it has one.
pub open spec fn fs_path_of(uri: Seq<char>) -> Seq<char> {
    if uri.len() >= 7 && uri.take(7) == "file://"@ {
        uri.skip(7)
    } else {
        uri
    }
}

/// The location an LSP `Location` stands for, re-relativised to the repo
/// root; `None` for a location outside the repo (std, dependencies).
pub open spec fn location_spec(
    uri: Option<Seq<char>>,
    sl: Option<u64>,
    sc: Option<u64>,
    el: Option<u64>,
    ec: Option<u64>,
    repo: Seq<char>,
    root: Seq<char>,
) -> Option<(Seq<char>, Seq<char>, Range)> {
    let u = match uri {
        Some(u) => u,
        None => Seq::empty(),
    };
    let n = |x: Option<u64>| match x {
        Some(v) => v as u32,
        None => 0u32,
    };
    match strip_prefix_spec(fs_path_of(u), root) {
        None => None,
        Some(rel) => Some((repo, rel, Range {
            start: Position { line: n(sl), character: n(sc) },
            end: Position { line: n(el), character: n(ec) },
        })),
    }
}

/// The view of a location.
pub open spec fn location_view(l: Location) -> (Seq<char>, Seq<char>, Range) {
    (l.repo@, l.path@, l.range)
}

fn num_or_zero(x: Option<u64>) -> (r: u32)
    ensures
        r == match x {
            Some(v) => v as u32,
            None => 0u32,
        },
{
    match x {
        Some(v) => v as u32,
        None => 0,
    }
}

/// Build one location (see [`location_spec`]).
pub fn location_from(
    uri: Option<String>,
    sl: Option<u64>,
    sc: Option<u64>,
    el: Option<u64>,
    ec: Option<u64>,
    repo: &str,
    root: &str,
) -> (r: Option<Location>)
    ensures
        match r {
            Some(l) => location_spec(opt_view(uri), sl, sc, el, ec, repo@, root@) == Some(location_view(l)),
            None => location_spec(opt_view(uri), sl, sc, el, ec, repo@, root@) is None,
        },
{
    let u = match &uri {
        Some(u) => chars_of(u.as_str()),
        None => Vec::new(),
    };
    let scheme = chars_of("file://");
    let fs: &[char] = if u.len() >= 7 && chars_eq(vstd::slice::slice_subrange(u.as_slice(), 0, 7), scheme.as_slice()) {
        assert(u@.subrange(0, 7) == u@.take(7));
        let r = vstd::slice::slice_subrange(u.as_slice(), 7, u.len());
        assert(r@ =~= u@.skip(7));
        r
    } else {
        proof {
            if u@.len() >= 7 {
                assert(u@.subrange(0, 7) == u@.take(7));
            }
        }
        u.as_slice()
    };
    let rc = chars_of(root);
    match strip_path_prefix(fs, rc.as_slice()) {
        None => None,
        Some(rel) => Some(Location {
            repo: repo.to_owned(),
            path: string_from_chars(rel.as_slice()),
            range: Range {
                start: Position { line: num_or_zero(sl), character: num_or_zero(sc) },
                end: Position { line: num_or_zero(el), character: num_or_zero(ec) },
            },
        }),
    }
}

/// The fields of one LSP `Location` that a location is made of: `uri` and
/// the start and end line and character.
pub type LspLocationFields = (Option<Seq<char>>, Option<u64>, Option<u64>, Option<u64>, Option<u64>);

/// The locations inside the repo that a sequence of LSP `Location` records
/// stands for, in order (see [`location_spec`]).
pub open spec fn locations_of(recs: Seq<LspLocationFields>, repo: Seq<char>, root: Seq<char>) -> Seq<(Seq<char>, Seq<char>, Range)>
    decreases recs.len(),
{
    if recs.len() == 0 {
        Seq::empty()
    } else {
        let earlier = locations_of(recs.drop_last(), repo, root);
        let r = recs.last();
        match location_spec(r.0, r.1, r.2, r.3, r.4, repo, root) {
            Some(l) => earlier.push(l),
            None => earlier,
        }
    }
}

/// The `uri` and range fields of one LSP `Location` object.
pub open spec fn lsp_fields(c: JsonModel) -> LspLocationFields {
    (
        json_str_at(c, seq!["uri"@]),
        json_u64_at(c, seq!["range"@, "start"@, "line"@]),
        json_u64_at(c, seq!["range"@, "start"@, "character"@]),
        json_u64_at(c, seq!["range"@, "end"@, "line"@]),
        json_u64_at(c, seq!["range"@, "end"@, "character"@]),
    )
}

/// The records of an LSP `Location[]` reply: the fields of each array
/// element in order, or none when the reply is not an array.
pub open spec fn lsp_records(m: JsonModel) -> Seq<LspLocationFields> {
    match json_root(m) {
        Some(JsonNode::Array(n)) => Seq::new(n, |i: int| lsp_fields(json_child(m, JsonStep::Index(i as nat)))),
        _ => Seq::empty(),
    }
}

/// Map an LSP `Location[]` reply to locations inside the repo (each `uri`
/// re-relativised to the repo root; outside locations dropped). A reply
/// that is not an array yields nothing.
pub fn parse_lsp_locations(result: &Value, repo: &str, repo_root: &str) -> (out: Vec<Location>)
    ensures
        out@.map_values(|l: Location| location_view(l)) == locations_of(
            lsp_records(json_nodes(*result)),
            repo@,
            repo_root@,
        ),
        forall|i: int| 0 <= i < out@.len() ==> (#[trigger] out@[i]).repo@ == repo@,
{
    let mut out: Vec<Location> = Vec::new();
    let ghost all = lsp_records(json_nodes(*result));
    let items = match json_array(result) {
        Some(items) => items,
        None => {
            assert(all =~= Seq::<LspLocationFields>::empty());
            assert(out@.map_values(|l: Location| location_view(l)) =~= locations_of(all, repo@, repo_root@));
            return out;
        },
    };
    assert(all.len() == items@.len());
    let k_uri: [&str; 1] = ["uri"];
    let k_sl: [&str; 3] = ["range", "start", "line"];
    let k_sc: [&str; 3] = ["range", "start", "character"];
    let k_el: [&str; 3] = ["range", "end", "line"];
    let k_ec: [&str; 3] = ["range", "end", "character"];
    assert(key_views(k_uri@) =~= seq!["uri"@]);
    assert(key_views(k_sl@) =~= seq!["range"@, "start"@, "line"@]);
    assert(key_views(k_sc@) =~= seq!["range"@, "start"@, "character"@]);
    assert(key_views(k_el@) =~= seq!["range"@, "end"@, "line"@]);
    assert(key_views(k_ec@) =~= seq!["range"@, "end"@, "character"@]);
    let mut i: usize = 0;
    assert(all.take(0) =~= Seq::<LspLocationFields>::empty());
    while i < items.len()
        invariant
            0 <= i <= items@.len(),
            all.len() == items@.len(),
            all == lsp_records(json_nodes(*result)),
            forall|k: int| 0 <= k < items@.len() ==> #[trigger] all[k] == lsp_fields(json_nodes(items@[k])),
            key_views(k_uri@) == seq!["uri"@],
            key_views(k_sl@) == seq!["range"@, "start"@, "line"@],
            key_views(k_sc@) == seq!["range"@, "start"@, "character"@],
            key_views(k_el@) == seq!["range"@, "end"@, "line"@],
            key_views(k_ec@) == seq!["range"@, "end"@, "character"@],
            out@.map_values(|l: Location| location_view(l)) == locations_of(all.take(i as int), repo@, repo_root@),
            forall|k: int| 0 <= k < out@.len() ==> (#[trigger] out@[k]).repo@ == repo@,
        decreases items@.len() - i,
    {
        let loc = &items[i];
        let uri = json_str_path(loc, k_uri.as_slice());
        let sl = json_u64_path(loc, k_sl.as_slice());
        let sc = json_u64_path(loc, k_sc.as_slice());
        let el = json_u64_path(loc, k_el.as_slice());
        let ec = json_u64_path(loc, k_ec.as_slice());
        let ghost o = out@;
        proof {
            assert(all[i as int] == (opt_view(uri), sl, sc, el, ec));
            assert(all.take(i as int + 1).drop_last() =~= all.take(i as int));
            assert(all.take(i as int + 1).last() == all[i as int]);
        }
        match location_from(uri, sl, sc, el, ec, repo, repo_root) {
            Some(l) => {
                out.push(l);
                proof {
                    assert(out@.map_values(|l: Location| location_view(l)) =~= o.map_values(
                        |l: Location| location_view(l),
                    ).push(location_view(out@.last())));
                }
            },
            None => {},
        }
        i = i + 1;
    }
    assert(all.take(i as int) =~= all);
    out
}

/// A source file of a repo, as read by the caller.
#[derive(Debug)]
pub struct SourceFile {
    pub repo: String,
    /// Path relative to the repo root.
    pub rel: String,
    pub src: String,
}

/// The hits of a query over `files` in order, file `f` walked as `walks[f]`.
pub open spec fn all_hits(
    files: Seq<SourceFile>,
    walks: Seq<Seq<SymbolModel>>,
    name_path: Seq<char>,
    kind: Option<Seq<char>>,
    include_body: Option<bool>,
) -> Seq<SymbolModel>
    decreases files.len(),
{
    if files.len() == 0 || walks.len() == 0 {
        Seq::empty()
    } else {
        all_hits(files.drop_last(), walks.drop_last(), name_path, kind, include_body) + hits_spec(
            files.last().src@,
            walks.last(),
            name_path,
            kind,
            include_body == Some(true),
        )
    }
}

/// Every symbol a query finds in one file matches it by kind (when one is
/// given) and by bare name or full name path.
proof fn lemma_hits_spec_sound(
    src: Seq<char>,
    ss: Seq<SymbolModel>,
    name_path: Seq<char>,
    kind: Option<Seq<char>>,
    include_body: bool,
    i: int,
)
    requires
        0 <= i < hits_spec(src, ss, name_path, kind, include_body).len(),
    ensures
        ({
            let s = hits_spec(src, ss, name_path, kind, include_body)[i];
            &&& (kind matches Some(k) ==> s.kind == k)
            &&& (s.name_path == name_path || s.name == split_char(name_path, '/').last())
        }),
    decreases ss.len(),
{
    let earlier = hits_spec(src, ss.drop_last(), name_path, kind, include_body);
    if i < earlier.len() {
        lemma_hits_spec_sound(src, ss.drop_last(), name_path, kind, include_body, i);
    }
}

/// Every symbol of one file that matches a query is among what the query
/// finds there.
proof fn lemma_hits_spec_complete(
    src: Seq<char>,
    ss: Seq<SymbolModel>,
    name_path: Seq<char>,
    kind: Option<Seq<char>>,
    include_body: bool,
    j: int,
)
    requires
        0 <= j < ss.len(),
        ss[j].name_path == name_path || ss[j].name == split_char(name_path, '/').last(),
        kind matches Some(k) ==> ss[j].kind == k,
    ensures
        exists|i: int|
            0 <= i < hits_spec(src, ss, name_path, kind, include_body).len() && #[trigger] hits_spec(
                src,
                ss,
                name_path,
                kind,
                include_body,
            )[i] == with_body(src, ss[j], include_body),
    decreases ss.len(),
{
    let earlier = hits_spec(src, ss.drop_last(), name_path, kind, include_body);
    let all = hits_spec(src, ss, name_path, kind, include_body);
    if j < ss.len() - 1 {
        assert(ss.drop_last()[j] == ss[j]);
        lemma_hits_spec_complete(src, ss.drop_last(), name_path, kind, include_body, j);
        let i = choose|i: int| 0 <= i < earlier.len() && #[trigger] earlier[i] == with_body(src, ss[j], include_body);
        assert(all[i] == earlier[i]);
    } else {
        assert(symbol_matches(ss.last(), name_path, kind));
        assert(all[earlier.len() as int] == with_body(src, ss[j], include_body));
    }
}

/// What `find_symbol` returns only matches: each symbol found over the
/// files' walks has the requested kind, when one is given, and the
/// requested bare name or name path.
pub proof fn lemma_find_hits_sound(
    files: Seq<SourceFile>,
    walks: Seq<Seq<SymbolModel>>,
    name_path: Seq<char>,
    kind: Option<Seq<char>>,
    include_body: Option<bool>,
    i: int,
)
    requires
        0 <= i < all_hits(files, walks, name_path, kind, include_body).len(),
    ensures
        ({
            let s = all_hits(files, walks, name_path, kind, include_body)[i];
            &&& (kind matches Some(k) ==> s.kind == k)
            &&& (s.name_path == name_path || s.name == split_char(name_path, '/').last())
        }),
    decreases files.len(),
{
    let earlier = all_hits(files.drop_last(), walks.drop_last(), name_path, kind, include_body);
    if i < earlier.len() {
        lemma_find_hits_sound(files.drop_last(), walks.drop_last(), name_path, kind, include_body, i);
    } else {
        lemma_hits_spec_sound(
            files.last().src@,
            walks.last(),
            name_path,
            kind,
            include_body == Some(true),
            i - earlier.len(),
        );
    }
}

/// `find_symbol` misses no match: every symbol of a file's walk with the
/// requested kind (when given) and bare name or name path is found, with
/// its name, name path, kind and location.
pub proof fn lemma_find_hits_complete(
    files: Seq<SourceFile>,
    walks: Seq<Seq<SymbolModel>>,
    name_path: Seq<char>,
    kind: Option<Seq<char>>,
    include_body: Option<bool>,
    f: int,
    j: int,
)
    requires
        walks.len() == files.len(),
        0 <= f < files.len(),
        0 <= j < walks[f].len(),
        walks[f][j].name_path == name_path || walks[f][j].name == split_char(name_path, '/').last(),
        kind matches Some(k) ==> walks[f][j].kind == k,
    ensures
        exists|i: int|
            0 <= i < all_hits(files, walks, name_path, kind, include_body).len() && {
                let h = #[trigger] all_hits(files, walks, name_path, kind, include_body)[i];
                let s = walks[f][j];
                &&& h.name == s.name
                &&& h.name_path == s.name_path
                &&& h.kind == s.kind
                &&& h.repo == s.repo
                &&& h.path == s.path
                &&& h.range == s.range
            },
    decreases files.len(),
{
    let earlier = all_hits(files.drop_last(), walks.drop_last(), name_path, kind, include_body);
    let all = all_hits(files, walks, name_path, kind, include_body);
    let s = walks[f][j];
    if f < files.len() - 1 {
        assert(walks.drop_last()[f] == walks[f]);
        lemma_find_hits_complete(files.drop_last(), walks.drop_last(), name_path, kind, include_body, f, j);
        let i = choose|i: int|
            0 <= i < earlier.len() && {
                let h = #[trigger] earlier[i];
                &&& h.name == s.name
                &&& h.name_path == s.name_path
                &&& h.kind == s.kind
                &&& h.repo == s.repo
                &&& h.path == s.path
                &&& h.range == s.range
            };
        assert(all[i] == earlier[i]);
    } else {
        let src = files.last().src@;
        let ib = include_body == Some(true);
        lemma_hits_spec_complete(src, walks.last(), name_path, kind, ib, j);
        let hs = hits_spec(src, walks.last(), name_path, kind, ib);
        let k = choose|k: int| 0 <= k < hs.len() && #[trigger] hs[k] == with_body(src, walks.last()[j], ib);
        assert(all[earlier.len() + k] == hs[k]);
    }
}

/// `find_symbol{name_path,kind?,include_body?}` over the repos' Rust files
/// (in the caller's walk order): every matching symbol of every file, in
/// order, bodies included when asked for.
pub fn find_symbol(files: &Vec<SourceFile>, req: &FindSymbolReq) -> (res: Result<crate::rpc::FindSymbolResp, CodeError>)
    ensures
        req.name_path@.len() == 0 <==> res is Err,
        res matches Err(e) ==> e.code == CodeErrorCode::Invalid && e.message@ == "empty name_path"@,
        res matches Ok(r) ==> exists|walks: Seq<Seq<SymbolModel>>|
            #![trigger all_hits(files@, walks, req.name_path@, opt_view(req.kind), req.include_body)]
            walks.len() == files@.len() && (forall|f: int|
                0 <= f < files@.len() ==> is_walk(#[trigger] walks[f], files@[f].src@, files@[f].repo@, files@[f].rel@))
                && symbol_views(r.symbols@) == all_hits(
                files@,
                walks,
                req.name_path@,
                opt_view(req.kind),
                req.include_body,
            ),
        res matches Ok(r) ==> forall|i: int| 0 <= i < r.symbols@.len() ==> {
            let s = #[trigger] r.symbols@[i]@;
            &&& symbol_matches(s, req.name_path@, opt_view(req.kind))
            &&& (s.body is Some <==> req.include_body == Some(true))
            &&& exists|f: int| 0 <= f < files@.len() && s.repo == files@[f].repo@ && s.path == files@[f].rel@
        },
        res matches Ok(r) ==> forall|i: int| 0 <= i < r.symbols@.len() ==> {
            let s = #[trigger] r.symbols@[i]@;
            &&& (req.kind matches Some(k) ==> s.kind == k@)
            &&& (s.name_path == req.name_path@ || s.name == split_char(req.name_path@, '/').last())
        },
{
    let np = chars_of(req.name_path.as_str());
    if np.len() == 0 {
        return Err(CodeError::new(CodeErrorCode::Invalid, "empty name_path"));
    }
    let include_body = match req.include_body {
        Some(b) => b,
        None => false,
    };
    let mut hits: Vec<Symbol> = Vec::new();
    let ghost mut walks: Seq<Seq<SymbolModel>> = Seq::empty();
    let ghost kv = opt_view(req.kind);
    let mut f: usize = 0;
    assert(files@.take(0) =~= Seq::<SourceFile>::empty());
    while f < files.len()
        invariant
            0 <= f <= files@.len(),
            include_body == (req.include_body == Some(true)),
            kv == opt_view(req.kind),
            walks.len() == f,
            forall|g: int| 0 <= g < f ==> is_walk(#[trigger] walks[g], files@[g].src@, files@[g].repo@, files@[g].rel@),
            symbol_views(hits@) == all_hits(files@.take(f as int), walks, req.name_path@, kv, req.include_body),
            forall|i: int| 0 <= i < hits@.len() ==> {
                let s = #[trigger] hits@[i]@;
                &&& symbol_matches(s, req.name_path@, opt_view(req.kind))
                &&& (s.body is Some <==> include_body)
                &&& exists|g: int| 0 <= g < f && s.repo == files@[g].repo@ && s.path == files@[g].rel@
            },
        decreases files@.len() - f,
    {
        let file = &files[f];
        let syms = rust_symbols(file.src.as_str(), file.repo.as_str(), file.rel.as_str());
        let ghost sv = symbol_views(syms@);
        let mut more = matching_symbols(file.src.as_str(), syms, req.name_path.as_str(), &req.kind, include_body);
        proof {
            lemma_hits_props(file.src@, sv, req.name_path@, opt_view(req.kind), include_body, file.repo@, file.rel@);
        }
        let ghost o = hits@;
        let ghost m = more@;
        let ghost w0 = walks;
        hits.append(&mut more);
        proof {
            walks = walks.push(sv);
            assert(files@.take(f + 1).drop_last() =~= files@.take(f as int));
            assert(walks.drop_last() =~= w0);
            assert(files@.take(f + 1).last() == files@[f as int]);
            assert(symbol_views(hits@) =~= symbol_views(o) + symbol_views(m));
            assert forall|g: int| 0 <= g < f + 1 implies is_walk(#[trigger] walks[g], files@[g].src@, files@[g].repo@, files@[g].rel@) by {
                if g < f {
                    assert(walks[g] == w0[g]);
                }
            }
        }
        assert forall|i: int| 0 <= i < hits@.len() implies {
            let s = #[trigger] hits@[i]@;
            &&& symbol_matches(s, req.name_path@, opt_view(req.kind))
            &&& (s.body is Some <==> include_body)
            &&& exists|g: int| 0 <= g < f + 1 && s.repo == files@[g].repo@ && s.path == files@[g].rel@
        } by {
            if i < o.len() {
                assert(hits@[i] == o[i]);
            } else {
                assert(hits@[i] == m[i - o.len()]);
                assert(symbol_views(m)[i - o.len()] == m[i - o.len()]@);
            }
        }
        f = f + 1;
    }
    assert(files@.take(f as int) =~= files@);
    Ok(crate::rpc::FindSymbolResp { symbols: hits })
}

proof fn lemma_hits_props(
    src: Seq<char>,
    ss: Seq<SymbolModel>,
    name_path: Seq<char>,
    kind: Option<Seq<char>>,
    include_body: bool,
    repo: Seq<char>,
    path: Seq<char>,
)
    requires
        forall|i: int| 0 <= i < ss.len() ==> symbol_at_file(#[trigger] ss[i], repo, path),
    ensures
        forall|i: int| 0 <= i < hits_spec(src, ss, name_path, kind, include_body).len() ==> {
            let s = #[trigger] hits_spec(src, ss, name_path, kind, include_body)[i];
            &&& symbol_matches(s, name_path, kind)
            &&& (s.body is Some <==> include_body)
            &&& s.repo == repo && s.path == path
        },
    decreases ss.len(),
{
    if ss.len() > 0 {
        assert forall|i: int| 0 <= i < ss.drop_last().len() implies symbol_at_file(#[trigger] ss.drop_last()[i], repo, path) by {
            assert(ss.drop_last()[i] == ss[i]);
        }
        lemma_hits_props(src, ss.drop_last(), name_path, kind, include_body, repo, path);
        assert(symbol_at_file(ss[ss.len() - 1], repo, path));
    }
}

} // verus!
