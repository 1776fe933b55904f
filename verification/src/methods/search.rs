//! Search: ripgrep for `code_search`, fd for `find_file`, both run by the
//! caller with the projects root as working directory so emitted paths are
//! workspace-relative (`<repo>/<rel>`). This module decides the tool
//! arguments (user input is only ever a positional operand after `--`) and
//! shapes the tools' output into responses.

use vstd::prelude::*;

use crate::components::{first_slash, lemma_first_slash};
use crate::error::{CodeError, CodeErrorCode};
use crate::lsp::jsonrpc::{first_nl, lemma_first_nl, lemma_first_nl_bound, lemma_no_nl};
use crate::json::{
    json_array, json_at_path, json_child, json_doc, json_parse, json_path, json_root, json_str_at, json_str_path,
    json_u64_at, json_u64_path, key_views, JsonModel, JsonNode, JsonStep,
};
use crate::rpc::{opt_view, CodeSearchReq, SearchMatch};
use crate::text::{
    chars_of, decimal_chars, decimal_string, lines_of, lines_spec, string_from_chars,
    trim_bounds, trim_end_chars, lossy_utf8, utf8_lossy, views,
};

verus! {

/// `(repo, rest)` of a `<repo>/<rest>` path (split at the first `/`); a path
/// without `/` is all repo.
pub open spec fn split_repo_spec(rel: Seq<char>) -> (Seq<char>, Seq<char>) {
    let i = first_slash(rel);
    if i < 0 {
        (rel, Seq::empty())
    } else {
        (rel.take(i), rel.skip(i + 1))
    }
}

/// Split a `<repo>/<rest>` workspace-relative path into repo and remainder.
pub fn split_repo(rel: &str) -> (r: (String, String))
    ensures
        (r.0@, r.1@) == split_repo_spec(rel@),
{
    let c = chars_of(rel);
    let mut i: usize = 0;
    while i < c.len() && c[i] != '/'
        invariant
            0 <= i <= c@.len(),
            forall|k: int| 0 <= k < i ==> c@[k] != '/',
        decreases c@.len() - i,
    {
        i = i + 1;
    }
    proof {
        lemma_first_slash(c@, i as int);
    }
    if i == c.len() {
        (string_from_chars(c.as_slice()), String::new())
    } else {
        let a = vstd::slice::slice_subrange(c.as_slice(), 0, i);
        let b = vstd::slice::slice_subrange(c.as_slice(), i + 1, c.len());
        assert(a@ =~= c@.take(i as int));
        assert(b@ =~= c@.skip(i as int + 1));
        (string_from_chars(a), string_from_chars(b))
    }
}

/// The fields of one ripgrep `match` event that a hit is made of.
#[derive(Debug)]
pub struct RgMatchFields {
    /// `data.path.text`
    pub path_text: Option<String>,
    /// `data.line_number`
    pub line_number: Option<u64>,
    /// `data.lines.text`
    pub lines_text: Option<String>,
    /// `data.submatches[0].start`
    pub first_start: Option<u64>,
}

/// A hit as plain values: repo, path, 1-based line, 1-based column, text.
pub type HitView = (Seq<char>, Seq<char>, u32, Option<u32>, Seq<char>);

/// The hit made of the fields of a match event: `data.path.text` split
/// into repo and rest, `data.line_number`, `data.submatches[0].start` made
/// 1-based, and `data.lines.text` without trailing white space (a missing
/// field counts as empty or zero; a column that would not fit is dropped).
pub open spec fn hit_spec(
    path_text: Option<Seq<char>>,
    line_number: Option<u64>,
    lines_text: Option<Seq<char>>,
    first_start: Option<u64>,
) -> HitView {
    let rel = match path_text {
        Some(t) => t,
        None => Seq::empty(),
    };
    let text = match lines_text {
        Some(t) => t,
        None => Seq::empty(),
    };
    let line = match line_number {
        Some(n) => n as u32,
        None => 0u32,
    };
    let column = match first_start {
        Some(c) => if (c as u32) < u32::MAX {
            Some(((c as u32) + 1) as u32)
        } else {
            None
        },
        None => None,
    };
    (split_repo_spec(rel).0, split_repo_spec(rel).1, line, column, trim_end_chars(text))
}

/// The hit a match event stands for.
pub open spec fn match_spec(f: RgMatchFields) -> HitView {
    hit_spec(opt_view(f.path_text), f.line_number, opt_view(f.lines_text), f.first_start)
}

/// The view of a search hit.
pub open spec fn hit_view(m: SearchMatch) -> HitView {
    (m.repo@, m.path@, m.line, m.column, m.text@)
}

/// Build the hit for one match event: the path splits into repo and rest,
/// the line number and first submatch start (0-based, reported 1-based)
/// are carried over, the line text loses its trailing white space.
pub fn search_match_from(f: RgMatchFields) -> (m: SearchMatch)
    ensures
        hit_view(m) == match_spec(f),
{
    let rel = match &f.path_text {
        Some(t) => t.as_str(),
        None => "",
    };
    let (repo, path) = split_repo(rel);
    let line: u32 = match f.line_number {
        Some(n) => n as u32,
        None => 0,
    };
    let column: Option<u32> = match f.first_start {
        Some(c) => {
            let c32 = c as u32;
            if c32 < u32::MAX {
                Some(c32 + 1)
            } else {
                None
            }
        },
        None => None,
    };
    let tc = match &f.lines_text {
        Some(t) => chars_of(t.as_str()),
        None => Vec::new(),
    };
    let (a, b) = trim_bounds(tc.as_slice(), false, true);
    let text = string_from_chars(vstd::slice::slice_subrange(tc.as_slice(), a, b));
    proof {
        reveal_strlit("");
    }
    SearchMatch { repo, path, line, column, text }
}

/// Whether a ripgrep output line (parsed as `doc`) is a `match` event.
pub open spec fn rg_is_match(doc: Option<JsonModel>) -> bool {
    doc matches Some(m) && json_str_at(m, seq!["type"@]) == Some("match"@)
}

/// The start of the first submatch of a match event (`data.submatches[0].start`).
pub open spec fn rg_first_start(m: JsonModel) -> Option<u64> {
    match json_at_path(m, seq!["data"@, "submatches"@]) {
        Some(sm) => match json_root(sm) {
            Some(JsonNode::Array(n)) => if n > 0 {
                json_u64_at(json_child(sm, JsonStep::Index(0)), seq!["start"@])
            } else {
                None
            },
            _ => None,
        },
        None => None,
    }
}

/// Read the fields of a ripgrep event: `None` unless the line parses as a
/// `match` event; then `data.path.text`, `data.line_number`,
/// `data.lines.text` and `data.submatches[0].start`, each `None` when
/// missing or of another type.
fn match_fields(line: &[u8]) -> (r: Option<RgMatchFields>)
    ensures
        match r {
            None => !rg_is_match(json_doc(line@)),
            Some(f) => rg_is_match(json_doc(line@)) && {
                let m = json_doc(line@)->Some_0;
                &&& opt_view(f.path_text) == json_str_at(m, seq!["data"@, "path"@, "text"@])
                &&& f.line_number == json_u64_at(m, seq!["data"@, "line_number"@])
                &&& opt_view(f.lines_text) == json_str_at(m, seq!["data"@, "lines"@, "text"@])
                &&& f.first_start == rg_first_start(m)
            },
        },
{
    let v = json_parse(line)?;
    let k_type: [&str; 1] = ["type"];
    assert(key_views(k_type@) =~= seq!["type"@]);
    let ty = json_str_path(&v, k_type.as_slice());
    match ty {
        Some(t) => {
            let tc = chars_of(t.as_str());
            let want = chars_of("match");
            if !crate::text::chars_eq(tc.as_slice(), want.as_slice()) {
                return None;
            }
        },
        None => {
            return None;
        },
    }
    let k_path: [&str; 3] = ["data", "path", "text"];
    let k_line: [&str; 2] = ["data", "line_number"];
    let k_text: [&str; 3] = ["data", "lines", "text"];
    let k_sub: [&str; 2] = ["data", "submatches"];
    let k_start: [&str; 1] = ["start"];
    assert(key_views(k_path@) =~= seq!["data"@, "path"@, "text"@]);
    assert(key_views(k_line@) =~= seq!["data"@, "line_number"@]);
    assert(key_views(k_text@) =~= seq!["data"@, "lines"@, "text"@]);
    assert(key_views(k_sub@) =~= seq!["data"@, "submatches"@]);
    assert(key_views(k_start@) =~= seq!["start"@]);
    let path_text = json_str_path(&v, k_path.as_slice());
    let line_number = json_u64_path(&v, k_line.as_slice());
    let lines_text = json_str_path(&v, k_text.as_slice());
    let first_start = match json_path(&v, k_sub.as_slice()) {
        Some(sm) => match json_array(sm) {
            Some(items) => if items.len() > 0 {
                json_u64_path(&items[0], k_start.as_slice())
            } else {
                None
            },
            None => None,
        },
        None => None,
    };
    Some(RgMatchFields { path_text, line_number, lines_text, first_start })
}

/// The non-empty lines of `s` (the pieces between `\n` bytes), in order.
pub open spec fn nonempty_lines(s: Seq<u8>) -> Seq<Seq<u8>>
    decreases s.len(),
{
    if s.len() == 0 {
        Seq::empty()
    } else {
        let i = first_nl(s);
        if i < 0 {
            seq![s]
        } else {
            proof {
                lemma_first_nl_bound(s);
            }
            let rest = nonempty_lines(s.skip(i + 1));
            if i == 0 {
                rest
            } else {
                seq![s.take(i)] + rest
            }
        }
    }
}

/// The hit of one ripgrep output line: `Some` exactly when the line parses
/// as a `match` event.
pub open spec fn line_hit(line: Seq<u8>) -> Option<HitView> {
    if rg_is_match(json_doc(line)) {
        let m = json_doc(line)->Some_0;
        Some(
            hit_spec(
                json_str_at(m, seq!["data"@, "path"@, "text"@]),
                json_u64_at(m, seq!["data"@, "line_number"@]),
                json_str_at(m, seq!["data"@, "lines"@, "text"@]),
                rg_first_start(m),
            ),
        )
    } else {
        None
    }
}

/// The hits of a sequence of ripgrep output lines: one per match event, in
/// order.
pub open spec fn lines_hits(lines: Seq<Seq<u8>>) -> Seq<HitView>
    decreases lines.len(),
{
    if lines.len() == 0 {
        Seq::empty()
    } else {
        let h = lines_hits(lines.drop_last());
        match line_hit(lines.last()) {
            Some(x) => h.push(x),
            None => h,
        }
    }
}

/// A hit is placed where ripgrep reports the match: on a line that parses
/// as a `match` event, its line is `data.line_number`, and its column is
/// one past `data.submatches[0].start`, the first submatch (none when there
/// is no submatch).
pub proof fn lemma_hit_position(line: Seq<u8>)
    requires
        rg_is_match(json_doc(line)),
    ensures
        ({
            let m = json_doc(line)->Some_0;
            let n = json_u64_at(m, seq!["data"@, "line_number"@]);
            let first = match json_at_path(m, seq!["data"@, "submatches"@]) {
                Some(a) => match json_root(a) {
                    Some(JsonNode::Array(k)) => if k > 0 {
                        Some(json_u64_at(json_child(a, JsonStep::Index(0)), seq!["start"@]))
                    } else {
                        None
                    },
                    _ => None,
                },
                None => None,
            };
            &&& line_hit(line) is Some
            &&& (n is Some && n->Some_0 <= u32::MAX ==> line_hit(line)->Some_0.2 == n->Some_0 as u32)
            &&& (first is Some && first->Some_0 is Some && first->Some_0->Some_0 < u32::MAX ==> line_hit(
                line,
            )->Some_0.3 == Some((first->Some_0->Some_0 + 1) as u32))
            &&& (first is None ==> line_hit(line)->Some_0.3 is None)
        }),
{
}

/// Every hit of a run of lines is the hit of one of the lines.
pub proof fn lemma_hits_from_lines(lines: Seq<Seq<u8>>, i: int)
    requires
        0 <= i < lines_hits(lines).len(),
    ensures
        exists|j: int| 0 <= j < lines.len() && line_hit(#[trigger] lines[j]) == Some(lines_hits(lines)[i]),
    decreases lines.len(),
{
    let h = lines_hits(lines.drop_last());
    if i < h.len() {
        lemma_hits_from_lines(lines.drop_last(), i);
        let j = choose|j: int| 0 <= j < lines.drop_last().len() && line_hit(#[trigger] lines.drop_last()[j]) == Some(h[i]);
        assert(lines[j] == lines.drop_last()[j]);
    } else {
        assert(line_hit(lines[lines.len() - 1]) == Some(lines_hits(lines)[i]));
    }
}

/// The hits of two runs of lines are the hits of each, one after the other.
pub proof fn lemma_lines_hits_append(a: Seq<Seq<u8>>, b: Seq<Seq<u8>>)
    ensures
        lines_hits(a + b) == lines_hits(a) + lines_hits(b),
    decreases b.len(),
{
    if b.len() == 0 {
        assert(a + b =~= a);
        assert(lines_hits(a) + lines_hits(b) =~= lines_hits(a));
    } else {
        lemma_lines_hits_append(a, b.drop_last());
        assert((a + b).drop_last() =~= a + b.drop_last());
        assert((a + b).last() == b.last());
        match line_hit(b.last()) {
            Some(x) => {
                assert(lines_hits(a) + lines_hits(b) =~= (lines_hits(a) + lines_hits(b.drop_last())).push(x));
            },
            None => {},
        }
    }
}

/// The most hits `parse_rg_json` collects: `max`, and at least one.
pub open spec fn hit_cap(max: usize) -> int {
    if max == 0 {
        1
    } else {
        max as int
    }
}

/// The hits of ripgrep's `--json` output: the non-empty lines are read in
/// order (a line that is not JSON, or an event other than `match`, gives
/// none), each match event gives one hit, and reading stops once `max`
/// hits are collected (at least one is always taken when there is one).
pub fn parse_rg_json(stdout: &[u8], max: usize) -> (out: Vec<SearchMatch>)
    ensures
        ({
            let all = lines_hits(nonempty_lines(stdout@));
            out@.map_values(|m: SearchMatch| hit_view(m)) == if all.len() <= hit_cap(max) {
                all
            } else {
                all.take(hit_cap(max))
            }
        }),
{
    let ghost lines = nonempty_lines(stdout@);
    let ghost mut seen: Seq<Seq<u8>> = Seq::empty();
    let mut out: Vec<SearchMatch> = Vec::new();
    let mut start: usize = 0;
    assert(stdout@.skip(0) =~= stdout@);
    while start < stdout.len()
        invariant
            start <= stdout@.len(),
            lines == nonempty_lines(stdout@),
            lines == seen + nonempty_lines(stdout@.skip(start as int)),
            out@.map_values(|m: SearchMatch| hit_view(m)) == lines_hits(seen),
            out@.len() < hit_cap(max),
        decreases stdout@.len() - start,
    {
        let ghost rest = stdout@.skip(start as int);
        let mut e = start;
        while e < stdout.len() && stdout[e] != 10
            invariant
                start <= e <= stdout@.len(),
                forall|k: int| start <= k < e ==> stdout@[k] != 10,
            decreases stdout@.len() - e,
        {
            e = e + 1;
        }
        proof {
            assert forall|k: int| 0 <= k < e - start implies rest[k] != 10 by {
                assert(rest[k] == stdout@[start + k]);
            }
            if e < stdout@.len() {
                assert(rest[e - start] == stdout@[e as int]);
                lemma_first_nl(rest, e - start);
                assert(rest.take(e - start) =~= stdout@.subrange(start as int, e as int));
                assert(rest.skip(e - start + 1) =~= stdout@.skip(e + 1));
            } else {
                lemma_no_nl(rest);
                assert(rest =~= stdout@.subrange(start as int, e as int));
                assert(stdout@.skip(e as int) =~= Seq::<u8>::empty());
            }
        }
        let next = if e < stdout.len() {
            e + 1
        } else {
            e
        };
        if e > start {
            let line = vstd::slice::slice_subrange(stdout, start, e);
            let ev = match_fields(line);
            let ghost o = out@;
            let ghost s0 = seen;
            proof {
                seen = seen.push(line@);
                assert(lines == seen + nonempty_lines(stdout@.skip(next as int)));
                assert(seen.drop_last() =~= s0);
            }
            match ev {
                Some(f) => {
                    let ghost fg = f;
                    assert(line_hit(line@) == Some(match_spec(fg)));
                    let m = search_match_from(f);
                    out.push(m);
                    proof {
                        assert(out@.map_values(|m: SearchMatch| hit_view(m)) =~= o.map_values(
                            |m: SearchMatch| hit_view(m),
                        ).push(match_spec(fg)));
                    }
                    if out.len() >= max {
                        proof {
                            let tail = nonempty_lines(stdout@.skip(next as int));
                            lemma_lines_hits_append(seen, tail);
                            let all = lines_hits(lines);
                            assert(out@.len() == hit_cap(max));
                            assert(all.take(hit_cap(max)) =~= lines_hits(seen));
                        }
                        return out;
                    }
                },
                None => {
                    assert(line_hit(line@) is None);
                },
            }
        } else {
            proof {
                assert(lines == seen + nonempty_lines(stdout@.skip(next as int)));
            }
        }
        start = next;
    }
    assert(nonempty_lines(stdout@.skip(start as int)) =~= Seq::<Seq<u8>>::empty());
    assert(seen =~= lines);
    out
}

/// Whether a ripgrep exit is a result: success, or exit code 1 ("no
/// matches", a valid empty result).
pub fn rg_exit_ok(success: bool, code: Option<i32>) -> (r: bool)
    ensures
        r == (success || code == Some(1i32)),
{
    success || match code {
        Some(c) => c == 1,
        None => false,
    }
}

/// How to run ripgrep for a query: its arguments and the hit limit.
#[derive(Debug)]
pub struct RgPlan {
    pub args: Vec<String>,
    pub max: u32,
}

/// `--glob <glob>` when a glob is given.
pub open spec fn glob_args(g: Option<Seq<char>>) -> Seq<Seq<char>> {
    match g {
        Some(g) => seq!["--glob"@, g],
        None => Seq::empty(),
    }
}

/// The ripgrep arguments for `code_search`: `--json --max-count <max>`, then
/// `--glob <glob>` when given, then `--` and the query as a positional
/// operand. An empty query is `Invalid`; `max` defaults to 200.
pub fn code_search_plan(req: &CodeSearchReq) -> (res: Result<RgPlan, CodeError>)
    ensures
        req.query@.len() == 0 <==> res is Err,
        res matches Err(e) ==> e.code == CodeErrorCode::Invalid && e.message@ == "empty query"@,
        res matches Ok(p) ==> {
            let max: u32 = match req.max {
                Some(m) => m,
                None => 200,
            };
            let pre = seq!["--json"@, "--max-count"@, decimal_chars(max as nat)];
            let glob = glob_args(opt_view(req.glob));
            &&& p.max == max
            &&& crate::text::string_views(p.args@) == pre + glob + seq!["--"@, req.query@]
        },
{
    if chars_of(req.query.as_str()).len() == 0 {
        return Err(CodeError::new(CodeErrorCode::Invalid, "empty query"));
    }
    let max: u32 = match req.max {
        Some(m) => m,
        None => 200,
    };
    let mut args: Vec<String> = Vec::new();
    args.push("--json".to_owned());
    args.push("--max-count".to_owned());
    args.push(decimal_string(max as u64));
    let ghost pre = crate::text::string_views(args@);
    match &req.glob {
        Some(g) => {
            args.push("--glob".to_owned());
            args.push(g.clone());
        },
        None => {},
    }
    args.push("--".to_owned());
    args.push(req.query.clone());
    proof {
        let want_pre = seq!["--json"@, "--max-count"@, decimal_chars(max as nat)];
        assert(pre =~= want_pre);
        let glob = glob_args(opt_view(req.glob));
        assert(crate::text::string_views(args@) =~= want_pre + glob + seq!["--"@, req.query@]);
    }
    Ok(RgPlan { args, max })
}

/// A path line of fd's output with every leading `./` removed.
pub open spec fn strip_dot_slash(l: Seq<char>) -> Seq<char>
    decreases l.len(),
{
    if l.len() >= 2 && l[0] == '.' && l[1] == '/' {
        strip_dot_slash(l.skip(2))
    } else {
        l
    }
}

/// The non-empty stripped lines of `ls`, in order.
pub open spec fn fd_paths_spec(ls: Seq<Seq<char>>) -> Seq<Seq<char>>
    decreases ls.len(),
{
    if ls.len() == 0 {
        Seq::empty()
    } else if strip_dot_slash(ls.last()).len() > 0 {
        fd_paths_spec(ls.drop_last()).push(strip_dot_slash(ls.last()))
    } else {
        fd_paths_spec(ls.drop_last())
    }
}

/// The workspace-relative paths in fd's decoded output: split into lines,
/// leading `./` removed, empty lines dropped.
pub fn fd_paths_from_text(text: &str) -> (out: Vec<String>)
    ensures
        crate::text::string_views(out@) == fd_paths_spec(lines_spec(text@)),
{
    let c = chars_of(text);
    let lines = lines_of(c.as_slice());
    let ghost ls = views(lines@);
    let mut out: Vec<String> = Vec::new();
    let mut k: usize = 0;
    while k < lines.len()
        invariant
            0 <= k <= lines@.len(),
            ls == views(lines@),
            crate::text::string_views(out@) == fd_paths_spec(ls.take(k as int)),
        decreases lines@.len() - k,
    {
        let l = &lines[k];
        let mut a: usize = 0;
        assert(l@.skip(0) =~= l@);
        while l.len() - a >= 2 && l[a] == '.' && l[a + 1] == '/'
            invariant
                0 <= a <= l@.len(),
                strip_dot_slash(l@) == strip_dot_slash(l@.skip(a as int)),
            decreases l@.len() - a,
        {
            assert(l@.skip(a as int).skip(2) =~= l@.skip(a + 2));
            a = a + 2;
        }
        let rest = vstd::slice::slice_subrange(l.as_slice(), a, l.len());
        assert(rest@ =~= l@.skip(a as int));
        assert(ls.take(k as int + 1).drop_last() =~= ls.take(k as int));
        assert(ls.take(k as int + 1).last() == l@);
        if rest.len() > 0 {
            let ghost o = out@;
            out.push(string_from_chars(rest));
            assert(crate::text::string_views(out@) =~= crate::text::string_views(o).push(rest@));
        }
        k = k + 1;
    }
    assert(ls.take(k as int) =~= ls);
    out
}

/// The workspace-relative paths fd printed: its output decoded (lossily),
/// split into lines, leading `./` removed, empty lines dropped.
pub fn fd_paths(stdout: &[u8]) -> (out: Vec<String>)
    ensures
        crate::text::string_views(out@) == fd_paths_spec(lines_spec(lossy_utf8(stdout@))),
        vstd::utf8::valid_utf8(stdout@) ==> crate::text::string_views(out@) == fd_paths_spec(
            lines_spec(vstd::utf8::decode_utf8(stdout@)),
        ),
{
    let text = utf8_lossy(stdout);
    fd_paths_from_text(text.as_str())
}

} // verus!
