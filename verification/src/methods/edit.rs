//! Write methods. Every write is computed in memory from the current file
//! content; the caller applies it atomically. Symbol targeting uses the
//! tree-sitter symbol map, so the agent edits structure, not blind text.

use vstd::prelude::*;

use crate::error::{CodeError, CodeErrorCode};
use crate::methods::symbols::{covers, file_errors, first_covering, want_of, SourceFile};
use crate::paths::{path_join, project_file, rebase_spec, repo_root, resolve_spec, safe_segment_spec, Root};
use crate::rpc::{opt_view, symbol_views, EditReq, EditResp, InsertSymbolReq, RenameSymbolReq, Replacement, ReplaceSymbolBodyReq, Symbol, SymbolModel};
use crate::state::AppState;
use crate::treesitter::{is_walk, rust_symbols};
use crate::text::{
    chars_eq, chars_of, contains_seq, find_first, join_lines, join_lines_exec, lemma_join_lines_append, lines_of, lines_spec,
    occurs_at, push_all, replace_first, string_from_chars, views,
};

verus! {

/// An ASCII identifier byte: `_`, a digit or a letter.
pub open spec fn is_ident_byte(c: u8) -> bool {
    c == 95 || (48 <= c <= 57) || (65 <= c <= 90) || (97 <= c <= 122)
}

/// An ASCII identifier character.
pub open spec fn is_ident_char(c: char) -> bool {
    c == '_' || ('0' <= c <= '9') || ('A' <= c <= 'Z') || ('a' <= c <= 'z')
}

/// Whether a byte neighbouring a match is an identifier byte (`None`: the
/// match touches the start or end of the text).
pub fn ident_byte(b: Option<u8>) -> (r: bool)
    ensures
        r == (b matches Some(c) && is_ident_byte(c)),
{
    match b {
        Some(c) => c == 95 || (48 <= c && c <= 57) || (65 <= c && c <= 90) || (97 <= c && c <= 122),
        None => false,
    }
}

/// The byte of `c`'s UTF-8 encoding that touches a neighbouring match: the
/// character itself when ASCII; every byte of a longer encoding is at least
/// 0x80, which stands for all of them here.
fn boundary_byte(c: char) -> (b: u8)
    ensures
        is_ident_byte(b) == is_ident_char(c),
{
    if (c as u32) < 128 {
        c as u8
    } else {
        0x80
    }
}

/// `from` occurs in `c` at `i` as a whole word.
pub open spec fn word_at(c: Seq<char>, from: Seq<char>, i: int) -> bool {
    &&& occurs_at(c, from, i)
    &&& !(i > 0 && is_ident_char(c[i - 1]))
    &&& !(i + from.len() < c.len() && is_ident_char(c[i + from.len()]))
}

/// Whole-word replacement of `from` by `to` in `c`, scanning from `i`.
pub open spec fn replace_word_from(c: Seq<char>, from: Seq<char>, to: Seq<char>, i: int) -> Seq<
    char,
>
    decreases c.len() - i,
{
    if i < 0 || i >= c.len() {
        Seq::empty()
    } else if from.len() > 0 && word_at(c, from, i) {
        to + replace_word_from(c, from, to, i + from.len())
    } else {
        seq![c[i]] + replace_word_from(c, from, to, i + 1)
    }
}

/// A place where an empty word would match: a character that is not an
/// identifier character and does not follow one.
pub open spec fn empty_word_site(c: Seq<char>) -> bool {
    exists|k: int| 0 <= k < c.len() && !(k > 0 && is_ident_char(c[k - 1])) && !is_ident_char(#[trigger] c[k])
}

/// Scanning for an empty word copies the text.
proof fn lemma_replace_word_empty(c: Seq<char>, to: Seq<char>, i: int)
    requires
        0 <= i <= c.len(),
    ensures
        replace_word_from(c, Seq::empty(), to, i) == c.skip(i),
    decreases c.len() - i,
{
    if i < c.len() {
        lemma_replace_word_empty(c, to, i + 1);
        assert(c.skip(i) =~= seq![c[i]] + c.skip(i + 1));
    } else {
        assert(c.skip(i) =~= Seq::<char>::empty());
    }
}

/// Whole-word replace: every occurrence of `from` not touching an identifier
/// character on either side, scanning left to right, becomes `to`. An empty
/// `from` matches nowhere; it is accepted only on text without a place
/// where it would match as a word, since the scan would stay there forever.
pub fn replace_word(content: &str, from: &str, to: &str) -> (out: String)
    requires
        from@.len() > 0 || !empty_word_site(content@),
    ensures
        out@ == replace_word_from(content@, from@, to@, 0),
{
    let c = chars_of(content);
    let f = chars_of(from);
    let t = chars_of(to);
    if f.len() == 0 {
        proof {
            assert(f@ =~= Seq::<char>::empty());
            lemma_replace_word_empty(c@, t@, 0);
            assert(c@.skip(0) =~= c@);
        }
        return string_from_chars(c.as_slice());
    }
    let mut out: Vec<char> = Vec::new();
    let mut i: usize = 0;
    while i < c.len()
        invariant
            0 <= i <= c@.len(),
            f@.len() > 0,
            replace_word_from(c@, f@, t@, 0) == out@ + replace_word_from(c@, f@, t@, i as int),
        decreases c@.len() - i,
    {
        let m = crate::text::matches_at(c.as_slice(), f.as_slice(), i);
        let before = if i == 0 {
            false
        } else {
            ident_byte(Some(boundary_byte(c[i - 1])))
        };
        let after = if m && i + f.len() < c.len() {
            ident_byte(Some(boundary_byte(c[i + f.len()])))
        } else {
            false
        };
        if m && !before && !after {
            assert(word_at(c@, f@, i as int));
            let ghost o = out@;
            push_all(&mut out, t.as_slice());
            assert(o + replace_word_from(c@, f@, t@, i as int) =~= out@ + replace_word_from(
                c@,
                f@,
                t@,
                i + f@.len(),
            ));
            i = i + f.len();
        } else {
            assert(!word_at(c@, f@, i as int));
            let ghost o = out@;
            out.push(c[i]);
            assert(o + replace_word_from(c@, f@, t@, i as int) =~= out@ + replace_word_from(
                c@,
                f@,
                t@,
                i + 1,
            ));
            i = i + 1;
        }
    }
    assert(out@ =~= out@ + replace_word_from(c@, f@, t@, i as int));
    string_from_chars(out.as_slice())
}

proof fn lemma_replace_word_absent(c: Seq<char>, from: Seq<char>, to: Seq<char>, i: int)
    requires
        0 <= i <= c.len(),
        !contains_seq(c, from),
    ensures
        replace_word_from(c, from, to, i) == c.skip(i),
    decreases c.len() - i,
{
    if i < c.len() {
        assert(!occurs_at(c, from, i));
        lemma_replace_word_absent(c, from, to, i + 1);
        assert(c.skip(i) =~= seq![c[i]] + c.skip(i + 1));
    } else {
        assert(c.skip(i) =~= Seq::<char>::empty());
    }
}

/// Renaming a word that does not occur leaves the text unchanged.
pub proof fn lemma_replace_word_identity(c: Seq<char>, from: Seq<char>, to: Seq<char>)
    requires
        !contains_seq(c, from),
    ensures
        replace_word_from(c, from, to, 0) == c,
{
    lemma_replace_word_absent(c, from, to, 0);
    assert(c.skip(0) =~= c);
}

/// Every character of `w` is an identifier character.
pub open spec fn all_ident(w: Seq<char>) -> bool {
    forall|k: int| 0 <= k < w.len() ==> is_ident_char(#[trigger] w[k])
}

/// While the output of a rename scan from `i` (which does not start with
/// a replacement) stays within identifier characters, it copies `c`.
proof fn lemma_rename_copies(c: Seq<char>, a: Seq<char>, b: Seq<char>, i: int, n: int)
    requires
        0 <= i <= c.len(),
        0 <= n <= replace_word_from(c, a, b, i).len(),
        n > 0 ==> !(a.len() > 0 && word_at(c, a, i)),
        forall|t: int| 0 <= t < n ==> is_ident_char(#[trigger] replace_word_from(c, a, b, i)[t]),
    ensures
        i + n <= c.len(),
        replace_word_from(c, a, b, i).take(n) == c.subrange(i, i + n),
    decreases n,
{
    if n > 0 {
        let r = replace_word_from(c, a, b, i);
        let r1 = replace_word_from(c, a, b, i + 1);
        assert(r == seq![c[i]] + r1);
        assert(r[0] == c[i]);
        assert forall|t: int| 0 <= t < n - 1 implies is_ident_char(#[trigger] r1[t]) by {
            assert(r1[t] == r[t + 1]);
        }
        lemma_rename_copies(c, a, b, i + 1, n - 1);
        assert(r.take(n) =~= seq![c[i]] + r1.take(n - 1));
        assert(c.subrange(i, i + n) =~= seq![c[i]] + c.subrange(i + 1, i + n));
    }
}

/// The reverse scan over `x + rename(c from i)` gives back `c` from `i`,
/// when the last character of `x` is an identifier character exactly when
/// the character of `c` before `i` is.
proof fn lemma_rename_back_from(c: Seq<char>, a: Seq<char>, b: Seq<char>, x: Seq<char>, i: int)
    requires
        a.len() > 0,
        b.len() > 0,
        all_ident(a),
        all_ident(b),
        !contains_seq(c, b),
        0 <= i <= c.len(),
        (x.len() > 0 && is_ident_char(x.last())) == (i > 0 && is_ident_char(c[i - 1])),
    ensures
        replace_word_from(x + replace_word_from(c, a, b, i), b, a, x.len() as int) == c.skip(i),
    decreases c.len() - i,
{
    let r = replace_word_from(c, a, b, i);
    let d = x + r;
    let j = x.len() as int;
    if i >= c.len() {
        assert(d =~= x);
        assert(c.skip(i) =~= Seq::<char>::empty());
    } else if word_at(c, a, i) {
        let i2 = i + a.len();
        let r2 = replace_word_from(c, a, b, i2);
        assert(r == b + r2);
        let x2 = x + b;
        assert(d =~= x2 + r2);
        assert(d.subrange(j, j + b.len()) =~= b);
        if j > 0 {
            assert(d[j - 1] == x.last());
        }
        if j + b.len() < d.len() {
            assert(r2.len() > 0);
            assert(i2 < c.len());
            assert(!is_ident_char(c[i2]));
            assert(!occurs_at(c, a, i2)) by {
                if occurs_at(c, a, i2) {
                    assert(c.subrange(i2, i2 + a.len())[0] == c[i2]);
                    assert(is_ident_char(a[0]));
                }
            }
            assert(r2 == seq![c[i2]] + replace_word_from(c, a, b, i2 + 1));
            assert(d[j + b.len()] == r2[0]);
        }
        assert(word_at(d, b, j));
        assert(x2.last() == b[b.len() - 1]);
        assert(c[i2 - 1] == c.subrange(i, i2)[a.len() - 1]);
        lemma_rename_back_from(c, a, b, x2, i2);
        assert(c.skip(i) =~= a + c.skip(i2)) by {
            assert(c.subrange(i, i2) == a);
        }
    } else {
        let r1 = replace_word_from(c, a, b, i + 1);
        assert(r == seq![c[i]] + r1);
        let x1 = x.push(c[i]);
        assert(d =~= x1 + r1);
        assert(!word_at(d, b, j)) by {
            if word_at(d, b, j) {
                assert(d.subrange(j, j + b.len()) == b);
                assert forall|t: int| 0 <= t < b.len() implies is_ident_char(#[trigger] r[t]) by {
                    assert(r[t] == d[j + t]);
                    assert(d[j + t] == d.subrange(j, j + b.len())[t]);
                }
                lemma_rename_copies(c, a, b, i, b.len() as int);
                assert(r.take(b.len() as int) =~= d.subrange(j, j + b.len()));
                assert(occurs_at(c, b, i));
            }
        }
        assert(d[j] == c[i]);
        lemma_rename_back_from(c, a, b, x1, i + 1);
        assert(c.skip(i) =~= seq![c[i]] + c.skip(i + 1));
    }
}

/// Renaming a word and then renaming the new name back restores the text,
/// when both names are identifiers and the new name did not occur in it.
pub proof fn lemma_replace_word_undo(c: Seq<char>, a: Seq<char>, b: Seq<char>)
    requires
        a.len() > 0,
        b.len() > 0,
        all_ident(a),
        all_ident(b),
        !contains_seq(c, b),
    ensures
        replace_word_from(replace_word_from(c, a, b, 0), b, a, 0) == c,
{
    lemma_rename_back_from(c, a, b, Seq::empty(), 0);
    assert(Seq::<char>::empty() + replace_word_from(c, a, b, 0) =~= replace_word_from(c, a, b, 0));
    assert(c.skip(0) =~= c);
}

/// Renaming a word to itself leaves the text unchanged.
pub proof fn lemma_replace_word_same(c: Seq<char>, from: Seq<char>, i: int)
    requires
        0 <= i <= c.len(),
    ensures
        replace_word_from(c, from, from, i) == c.skip(i),
    decreases c.len() - i,
{
    if i < c.len() {
        if from.len() > 0 && word_at(c, from, i) {
            lemma_replace_word_same(c, from, i + from.len());
            assert(c.subrange(i, i + from.len()) == from);
            assert(c.skip(i) =~= from + c.skip(i + from.len()));
        } else {
            lemma_replace_word_same(c, from, i + 1);
            assert(c.skip(i) =~= seq![c[i]] + c.skip(i + 1));
        }
    } else {
        assert(c.skip(i) =~= Seq::<char>::empty());
    }
}

/// What one replacement does to `content`. `creating`: the file does not
/// exist yet, so a replacement with neither selector inserts at its start.
pub open spec fn apply_spec(
    content: Seq<char>,
    old: Option<Seq<char>>,
    range: Option<crate::rpc::Range>,
    new: Seq<char>,
    creating: bool,
) -> Result<Seq<char>, (CodeErrorCode, Seq<char>)> {
    match (old, range) {
        (Some(o), None) => if !contains_seq(content, o) {
            Err((CodeErrorCode::NotFound, "old_string not found"@))
        } else {
            Ok(replace_first(content, o, new))
        },
        (None, Some(rg)) => {
            let ls = lines_spec(content);
            let start = rg.start.line as int;
            let end = rg.end.line as int;
            if start > ls.len() || end > ls.len() || start > end {
                Err((CodeErrorCode::Invalid, "range out of bounds"@))
            } else {
                Ok(join_lines(ls.take(start) + seq![new] + ls.skip(end)))
            }
        },
        (None, None) => if creating {
            Ok(new + content)
        } else {
            Err((CodeErrorCode::Invalid, "exactly one of old_string / range must be set"@))
        },
        _ => Err((CodeErrorCode::Invalid, "exactly one of old_string / range must be set"@)),
    }
}

/// `content` with the first occurrence (at `i`) of `old` replaced by `new`.
fn splice_at(c: &Vec<char>, i: usize, old_len: usize, new: &[char]) -> (out: Vec<char>)
    requires
        i + old_len <= c@.len(),
    ensures
        out@ == c@.take(i as int) + new@ + c@.skip(i + old_len),
{
    let mut out: Vec<char> = Vec::new();
    let mut k: usize = 0;
    while k < i
        invariant
            0 <= k <= i <= c@.len(),
            out@ == c@.take(k as int),
        decreases i - k,
    {
        out.push(c[k]);
        assert(c@.take(k as int + 1) == c@.take(k as int).push(c@[k as int]));
        k = k + 1;
    }
    push_all(&mut out, new);
    let n = c.len();
    let mut j: usize = i + old_len;
    let ghost mid = out@;
    while j < c.len()
        invariant
            i + old_len <= j <= c@.len(),
            out@ == mid + c@.subrange(i + old_len, j as int),
        decreases c@.len() - j,
    {
        out.push(c[j]);
        assert(c@.subrange(i + old_len, j + 1) == c@.subrange(i + old_len, j as int).push(
            c@[j as int],
        ));
        j = j + 1;
    }
    assert(c@.subrange(i + old_len, j as int) =~= c@.skip(i + old_len));
    out
}

/// `lines[..start] + [new] + lines[end..]`.
pub fn splice_lines(lines: &Vec<Vec<char>>, start: usize, end: usize, new: &[char]) -> (out: Vec<
    Vec<char>,
>)
    requires
        start <= end <= lines@.len(),
    ensures
        views(out@) == views(lines@).take(start as int) + seq![new@] + views(lines@).skip(
            end as int,
        ),
{
    let mut out: Vec<Vec<char>> = Vec::new();
    let mut k: usize = 0;
    while k < start
        invariant
            0 <= k <= start <= lines@.len(),
            views(out@) == views(lines@).take(k as int),
        decreases start - k,
    {
        let ghost o = out@;
        let x = vstd::slice::slice_to_vec(lines[k].as_slice());
        out.push(x);
        proof {
            crate::text::lemma_views_push(o, x);
            assert(views(lines@).take(k as int + 1) =~= views(lines@).take(k as int).push(
                lines@[k as int]@,
            ));
        }
        k = k + 1;
    }
    let ghost o0 = out@;
    let x0 = vstd::slice::slice_to_vec(new);
    out.push(x0);
    proof {
        crate::text::lemma_views_push(o0, x0);
    }
    let ghost base = views(out@);
    assert(base =~= views(lines@).take(start as int) + seq![new@]);
    let mut j: usize = end;
    while j < lines.len()
        invariant
            end <= j <= lines@.len(),
            views(out@) == base + views(lines@).subrange(end as int, j as int),
        decreases lines@.len() - j,
    {
        let ghost o = out@;
        let x = vstd::slice::slice_to_vec(lines[j].as_slice());
        out.push(x);
        proof {
            crate::text::lemma_views_push(o, x);
            assert(views(lines@).subrange(end as int, j + 1) =~= views(lines@).subrange(
                end as int,
                j as int,
            ).push(lines@[j as int]@));
        }
        assert(views(out@) =~= base + views(lines@).subrange(end as int, j + 1));
        j = j + 1;
    }
    assert(views(lines@).subrange(end as int, j as int) =~= views(lines@).skip(end as int));
    out
}

/// Apply one replacement: exactly one of `old_string` / `range` must be set,
/// except while `creating` a missing file, where a replacement with neither
/// inserts its text at the start.
pub fn apply_replacement(content: &str, r: &Replacement, creating: bool) -> (res: Result<String, CodeError>)
    ensures
        match res {
            Ok(s) => apply_spec(content@, opt_view(r.old_string), r.range, r.new_string@, creating) == Ok::<
                Seq<char>,
                (CodeErrorCode, Seq<char>),
            >(s@),
            Err(e) => apply_spec(content@, opt_view(r.old_string), r.range, r.new_string@, creating) == Err::<
                Seq<char>,
                (CodeErrorCode, Seq<char>),
            >((e.code, e.message@)),
        },
{
    let c = chars_of(content);
    let nw = chars_of(r.new_string.as_str());
    match (&r.old_string, &r.range) {
        (Some(old), None) => {
            let o = chars_of(old.as_str());
            match find_first(c.as_slice(), o.as_slice()) {
                None => Err(CodeError::new(CodeErrorCode::NotFound, "old_string not found")),
                Some(i) => {
                    let out = splice_at(&c, i, o.len(), nw.as_slice());
                    Ok(string_from_chars(out.as_slice()))
                },
            }
        },
        (None, Some(range)) => {
            let lines = lines_of(c.as_slice());
            let start = range.start.line as usize;
            let end = range.end.line as usize;
            if start > lines.len() || end > lines.len() || start > end {
                return Err(CodeError::new(CodeErrorCode::Invalid, "range out of bounds"));
            }
            let out = splice_lines(&lines, start, end, nw.as_slice());
            let joined = join_lines_exec(&out);
            Ok(string_from_chars(joined.as_slice()))
        },
        (None, None) => {
            if creating {
                let mut out = nw;
                push_all(&mut out, c.as_slice());
                Ok(string_from_chars(out.as_slice()))
            } else {
                Err(
                    CodeError::new(
                        CodeErrorCode::Invalid,
                        "exactly one of old_string / range must be set",
                    ),
                )
            }
        },
        _ => Err(
            CodeError::new(CodeErrorCode::Invalid, "exactly one of old_string / range must be set"),
        ),
    }
}

/// A replacement that only inserts: no range, and no (or an empty) old string.
pub open spec fn is_pure_insert(r: Replacement) -> bool {
    r.range is None && (r.old_string matches Some(o) ==> o@.len() == 0)
}

/// Apply `rs` in order to `content`, stopping at the first failure.
pub open spec fn apply_all(content: Seq<char>, rs: Seq<Replacement>, creating: bool) -> Result<Seq<char>, (CodeErrorCode, Seq<char>)>
    decreases rs.len(),
{
    if rs.len() == 0 {
        Ok(content)
    } else {
        match apply_spec(content, opt_view(rs[0].old_string), rs[0].range, rs[0].new_string@, creating) {
            Err(e) => Err(e),
            Ok(c2) => apply_all(c2, rs.skip(1), creating),
        }
    }
}

/// The new content of an edited file (`existing`: its current content, if
/// it exists). A missing file may only be created by pure insertions.
pub open spec fn edit_spec(existing: Option<Seq<char>>, rs: Seq<Replacement>) -> Result<Seq<char>, (CodeErrorCode, Seq<char>)> {
    match existing {
        Some(c) => apply_all(c, rs, false),
        None => if forall|i: int| 0 <= i < rs.len() ==> is_pure_insert(#[trigger] rs[i]) {
            apply_all(Seq::empty(), rs, true)
        } else {
            Err((CodeErrorCode::NotFound, "no such file"@))
        },
    }
}

/// The new content for `edit` (see [`edit_spec`]).
pub fn edit_content(existing: Option<String>, rs: &Vec<Replacement>) -> (res: Result<String, CodeError>)
    ensures
        match res {
            Ok(c) => edit_spec(opt_view(existing), rs@) == Ok::<Seq<char>, (CodeErrorCode, Seq<char>)>(c@),
            Err(e) => edit_spec(opt_view(existing), rs@) == Err::<Seq<char>, (CodeErrorCode, Seq<char>)>(
                (e.code, e.message@),
            ),
        },
{
    let creating = existing.is_none();
    let mut content: String = match existing {
        Some(c) => c,
        None => {
            let mut i: usize = 0;
            while i < rs.len()
                invariant
                    0 <= i <= rs@.len(),
                    existing is None,
                    forall|j: int| 0 <= j < i ==> is_pure_insert(#[trigger] rs@[j]),
                decreases rs@.len() - i,
            {
                let r = &rs[i];
                let pure = r.range.is_none() && match &r.old_string {
                    Some(o) => chars_of(o.as_str()).len() == 0,
                    None => true,
                };
                if !pure {
                    assert(!is_pure_insert(rs@[i as int]));
                    assert(!(forall|j: int| 0 <= j < rs@.len() ==> is_pure_insert(#[trigger] rs@[j])));
                    return Err(CodeError::new(CodeErrorCode::NotFound, "no such file"));
                }
                i = i + 1;
            }
            String::new()
        },
    };
    let ghost target = edit_spec(opt_view(existing), rs@);
    assert(rs@.skip(0) =~= rs@);
    assert(target == apply_all(content@, rs@, creating));
    let mut k: usize = 0;
    while k < rs.len()
        invariant
            0 <= k <= rs@.len(),
            target == apply_all(content@, rs@.skip(k as int), creating),
            target == edit_spec(opt_view(existing), rs@),
        decreases rs@.len() - k,
    {
        let ghost tail = rs@.skip(k as int);
        assert(tail[0] == rs@[k as int]);
        assert(tail.skip(1) =~= rs@.skip(k as int + 1));
        let next = apply_replacement(content.as_str(), &rs[k], creating)?;
        content = next;
        k = k + 1;
    }
    Ok(content)
}

/// `edit{repo,path,replacements[]}`: string/range replacements in one file,
/// computed from its current content (`None`: the file does not exist).
/// Answers the new content and the response.
pub fn edit(state: &AppState, req: EditReq, existing: Option<String>) -> (res: Result<(String, EditResp), CodeError>)
    ensures
        match res {
            Ok((c, resp)) => resolve_spec(Root::Projects, req.repo@, req.path@) is Ok
                && edit_spec(opt_view(existing), req.replacements@) == Ok::<Seq<char>, (CodeErrorCode, Seq<char>)>(c@)
                && resp.changed_files@.len() == 1 && resp.changed_files@[0]@ == req.path@,
            Err(e) => resolve_spec(Root::Projects, req.repo@, req.path@) == Err::<Seq<char>, (CodeErrorCode, Seq<char>)>(
                (e.code, e.message@),
            ) || (resolve_spec(Root::Projects, req.repo@, req.path@) is Ok && edit_spec(opt_view(existing), req.replacements@)
                == Err::<Seq<char>, (CodeErrorCode, Seq<char>)>((e.code, e.message@))),
        },
{
    let _abs = project_file(state.roots.projects.as_str(), req.repo.as_str(), req.path.as_str())?;
    let content = edit_content(existing, &req.replacements)?;
    let mut changed: Vec<String> = Vec::new();
    changed.push(req.path);
    Ok((content, EditResp { changed_files: changed }))
}

/// Index of the first symbol named `want` or with name path `name_path`, or -1.
pub open spec fn first_named(ss: Seq<SymbolModel>, name_path: Seq<char>) -> int
    decreases ss.len(),
{
    if ss.len() == 0 {
        -1
    } else if ss[0].name == want_of(name_path) || ss[0].name_path == name_path {
        0
    } else {
        let r = first_named(ss.skip(1), name_path);
        if r < 0 {
            -1
        } else {
            r + 1
        }
    }
}

/// The first of `symbols` named by `name_path` (bare name or full path).
pub fn find_named(symbols: &Vec<Symbol>, name_path: &str) -> (r: Option<usize>)
    ensures
        match r {
            Some(i) => first_named(symbol_views(symbols@), name_path@) == i as int && i < symbols@.len(),
            None => first_named(symbol_views(symbols@), name_path@) == -1,
        },
{
    let np = chars_of(name_path);
    let want = crate::methods::symbols::want_exec(np.as_slice());
    let ghost all = symbol_views(symbols@);
    let mut i: usize = 0;
    assert(all.skip(0) =~= all);
    while i < symbols.len()
        invariant
            0 <= i <= symbols@.len(),
            all == symbol_views(symbols@),
            want@ == want_of(np@),
            np@ == name_path@,
            first_named(all, name_path@) == (if first_named(all.skip(i as int), name_path@) < 0 {
                -1
            } else {
                first_named(all.skip(i as int), name_path@) + i
            }),
        decreases symbols@.len() - i,
    {
        let s = &symbols[i];
        let ghost rest = all.skip(i as int);
        assert(rest[0] == s@);
        assert(rest.skip(1) =~= all.skip(i as int + 1));
        let name = chars_of(s.name.as_str());
        let path = chars_of(s.name_path.as_str());
        if chars_eq(name.as_slice(), want.as_slice()) || chars_eq(path.as_slice(), np.as_slice()) {
            return Some(i);
        }
        i = i + 1;
    }
    assert(all.skip(i as int).len() == 0);
    None
}

/// File `f` of `files`, walked, names `name_path` first with a symbol that
/// spans lines `start..=end`.
pub open spec fn site_in(files: Seq<SourceFile>, repo: Seq<char>, name_path: Seq<char>, f: int, start: int, end: int) -> bool {
    exists|syms: Seq<SymbolModel>|
        #![trigger is_walk(syms, files[f].src@, repo, files[f].rel@)]
        is_walk(syms, files[f].src@, repo, files[f].rel@) && first_named(syms, name_path) >= 0 && syms[first_named(
            syms,
            name_path,
        )].range.start.line == start && syms[first_named(syms, name_path)].range.end.line == end
}

/// File `f` of `files`, walked, names no symbol by `name_path`.
pub open spec fn no_site_in(files: Seq<SourceFile>, repo: Seq<char>, name_path: Seq<char>, f: int) -> bool {
    exists|syms: Seq<SymbolModel>|
        #![trigger is_walk(syms, files[f].src@, repo, files[f].rel@)]
        is_walk(syms, files[f].src@, repo, files[f].rel@) && first_named(syms, name_path) == -1
}

/// Where a symbol was found: the confined repo root, the file (index into
/// the walked files and its repo-relative path) and its `[start, end]` lines.
#[derive(Debug)]
pub struct SymbolSite {
    pub root: String,
    pub file: usize,
    pub rel: String,
    pub start: usize,
    pub end: usize,
}

/// Locate a symbol by `name_path` in a repo's Rust files (`files`, in walk
/// order): the first file that names it, and the span of the first symbol
/// there. The repo is confined through `repo_root` first, so a traversal
/// repo is rejected before anything is read.
pub fn locate_symbol(projects_root: &str, repo: &str, name_path: &str, files: &Vec<SourceFile>) -> (res: Result<SymbolSite, CodeError>)
    ensures
        match res {
            Ok(site) => safe_segment_spec(repo@) is Ok && site.root@ == path_join(projects_root@, repo@)
                && site.file < files@.len() && site.rel@ == files@[site.file as int].rel@
                && site.start <= u32::MAX && site.end <= u32::MAX
                && site_in(files@, repo@, name_path@, site.file as int, site.start as int, site.end as int)
                && forall|g: int| 0 <= g < site.file ==> no_site_in(files@, repo@, name_path@, g),
            Err(e) => safe_segment_spec(repo@) == Err::<Seq<char>, (CodeErrorCode, Seq<char>)>((e.code, e.message@))
                || (safe_segment_spec(repo@) is Ok && e.code == CodeErrorCode::NotFound && e.message@ == "symbol not found"@
                && forall|g: int| 0 <= g < files@.len() ==> no_site_in(files@, repo@, name_path@, g)),
        },
{
    let root = repo_root(projects_root, repo)?;
    let mut f: usize = 0;
    while f < files.len()
        invariant
            0 <= f <= files@.len(),
            safe_segment_spec(repo@) is Ok,
            root@ == path_join(projects_root@, repo@),
            forall|g: int| 0 <= g < f ==> no_site_in(files@, repo@, name_path@, g),
        decreases files@.len() - f,
    {
        let file = &files[f];
        let syms = rust_symbols(file.src.as_str(), repo, file.rel.as_str());
        let ghost sv = symbol_views(syms@);
        assert(is_walk(sv, files@[f as int].src@, repo@, files@[f as int].rel@));
        match find_named(&syms, name_path) {
            Some(i) => {
                let s = &syms[i];
                assert(sv[i as int] == s@);
                let rel = string_from_chars(chars_of(file.rel.as_str()).as_slice());
                return Ok(SymbolSite {
                    root,
                    file: f,
                    rel,
                    start: s.location.range.start.line as usize,
                    end: s.location.range.end.line as usize,
                });
            },
            None => {},
        }
        f = f + 1;
    }
    Err(CodeError::new(CodeErrorCode::NotFound, "symbol not found"))
}

/// `lines[..at] + [new] + lines[from..]` of `content`, joined by `\n`; an
/// error when the span does not fit the file.
pub fn splice_content(content: &str, at: usize, from: usize, new: &str) -> (res: Result<String, CodeError>)
    ensures
        ({
            let ls = lines_spec(content@);
            match res {
                Ok(c) => at <= from <= ls.len() && c@ == join_lines(ls.take(at as int) + seq![new@] + ls.skip(from as int)),
                Err(e) => !(at <= from <= ls.len()) && e.code == CodeErrorCode::Internal && e.message@
                    == "symbol span outside the file"@,
            }
        }),
{
    let c = chars_of(content);
    let lines = lines_of(c.as_slice());
    if !(at <= from && from <= lines.len()) {
        return Err(CodeError::new(CodeErrorCode::Internal, "symbol span outside the file"));
    }
    let nw = chars_of(new);
    let out = splice_lines(&lines, at, from, nw.as_slice());
    let joined = join_lines_exec(&out);
    Ok(string_from_chars(joined.as_slice()))
}

/// A computed write: the absolute target, its new content, and the response.
#[derive(Debug)]
pub struct FileWrite {
    pub path: String,
    pub content: String,
    pub resp: EditResp,
}

/// `lines[..at] + [new] + lines[from..]` of `src`, joined by `\n`.
pub open spec fn spliced(src: Seq<char>, at: int, from: int, new: Seq<char>) -> Seq<char> {
    join_lines(lines_spec(src).take(at) + seq![new] + lines_spec(src).skip(from))
}

/// What a symbol write answers: `Ok` when the repo is acceptable, some file
/// `f` is the first to name the symbol, spanning lines `start..=end`, and
/// `span(start, end) = (at, from)` fits the file; the write then replaces
/// lines `at..from` of that file by `new`. Otherwise the confinement error,
/// `symbol not found` when no file names it, or `Internal` when the span
/// does not fit.
pub open spec fn symbol_write_ok(
    state: AppState,
    repo: Seq<char>,
    name_path: Seq<char>,
    files: Seq<SourceFile>,
    new: Seq<char>,
    w: FileWrite,
    mode: int,
) -> bool {
    &&& safe_segment_spec(repo) is Ok
    &&& exists|f: int, start: int, end: int|
        #![trigger first_site(files, repo, name_path, f, start, end)]
        first_site(files, repo, name_path, f, start, end) && {
            let (at, from) = span_for(mode, start, end);
            &&& at <= from <= lines_spec(files[f].src@).len()
            &&& w.content@ == spliced(files[f].src@, at, from, new)
            &&& w.resp.changed_files@.len() == 1
            &&& w.resp.changed_files@[0]@ == files[f].rel@
            &&& w.path@ == path_join(path_join(state.roots.projects@, repo), files[f].rel@)
        }
}

/// The lines a symbol write replaces: the symbol's span (`mode` 0), none
/// before its first line (1), none after its last line (2).
pub open spec fn span_for(mode: int, start: int, end: int) -> (int, int) {
    if mode == 0 {
        (start, end + 1)
    } else if mode == 1 {
        (start, start)
    } else {
        (end + 1, end + 1)
    }
}

/// File `f` is the first of `files` that names the symbol, whose first
/// symbol so named spans lines `start..=end`.
pub open spec fn first_site(files: Seq<SourceFile>, repo: Seq<char>, name_path: Seq<char>, f: int, start: int, end: int) -> bool {
    &&& 0 <= f < files.len()
    &&& site_in(files, repo, name_path, f, start, end)
    &&& forall|g: int| 0 <= g < f ==> no_site_in(files, repo, name_path, g)
}

/// The errors a symbol write can answer: the confinement error, `symbol
/// not found` when no file names the symbol, or `Internal` when the lines
/// the write replaces (`span_for(mode, ..)`) do not fit the file.
pub open spec fn symbol_write_err(repo: Seq<char>, name_path: Seq<char>, files: Seq<SourceFile>, e: CodeError, mode: int) -> bool {
    ||| safe_segment_spec(repo) == Err::<Seq<char>, (CodeErrorCode, Seq<char>)>((e.code, e.message@))
    ||| (safe_segment_spec(repo) is Ok && e.code == CodeErrorCode::NotFound && e.message@ == "symbol not found"@
        && forall|g: int| 0 <= g < files.len() ==> no_site_in(files, repo, name_path, g))
    ||| (safe_segment_spec(repo) is Ok && e.code == CodeErrorCode::Internal && e.message@ == "symbol span outside the file"@
        && exists|f: int, start: int, end: int|
        #![trigger first_site(files, repo, name_path, f, start, end)]
        first_site(files, repo, name_path, f, start, end) && !({
            let (at, from) = span_for(mode, start, end);
            at <= from <= lines_spec(files[f].src@).len()
        }))
}

/// The number of lines of `content` (`str::lines`).
fn line_count(content: &str) -> (n: usize)
    ensures
        n == lines_spec(content@).len(),
{
    let c = chars_of(content);
    let lines = lines_of(c.as_slice());
    proof {
        assert(views(lines@).len() == lines@.len());
    }
    lines.len()
}

/// The text of `ls` followed by a line break, or nothing when `ls` is empty.
pub open spec fn lines_before(ls: Seq<Seq<char>>) -> Seq<char> {
    if ls.len() == 0 {
        Seq::empty()
    } else {
        join_lines(ls) + seq!['\n']
    }
}

/// A line break followed by the text of `ls`, or nothing when `ls` is empty.
pub open spec fn lines_after(ls: Seq<Seq<char>>) -> Seq<char> {
    if ls.len() == 0 {
        Seq::empty()
    } else {
        seq!['\n'] + join_lines(ls)
    }
}

/// Splicing lines keeps the text of the lines before and after the
/// replaced ones, with `new` on its own line between them.
proof fn lemma_spliced_layout(src: Seq<char>, at: int, from: int, new: Seq<char>)
    requires
        0 <= at <= from <= lines_spec(src).len(),
    ensures
        spliced(src, at, from, new) == lines_before(lines_spec(src).take(at)) + new + lines_after(
            lines_spec(src).skip(from),
        ),
{
    let ls = lines_spec(src);
    let p = ls.take(at);
    let q = ls.skip(from);
    let mid = seq![new] + q;
    if q.len() > 0 {
        lemma_join_lines_append(seq![new], q);
    } else {
        assert(mid =~= seq![new]);
    }
    assert(join_lines(seq![new]) == new);
    if p.len() > 0 {
        assert(p + seq![new] + q =~= p + mid);
        lemma_join_lines_append(p, mid);
    } else {
        assert(p + seq![new] + q =~= mid);
    }
}

/// Inserting after a symbol keeps the file's text through the symbol's last
/// line, then puts the content on its own line, then the rest of the file:
/// the symbol's whole line span precedes the inserted content.
pub proof fn lemma_insert_after_layout(
    state: AppState,
    repo: Seq<char>,
    name_path: Seq<char>,
    files: Seq<SourceFile>,
    new: Seq<char>,
    w: FileWrite,
)
    requires
        symbol_write_ok(state, repo, name_path, files, new, w, 2),
    ensures
        exists|f: int, start: int, end: int|
            #![trigger first_site(files, repo, name_path, f, start, end)]
            first_site(files, repo, name_path, f, start, end) && 0 <= end < lines_spec(files[f].src@).len() && w.content@
                == join_lines(lines_spec(files[f].src@).take(end + 1)) + seq!['\n'] + new + lines_after(
                lines_spec(files[f].src@).skip(end + 1),
            ),
{
    let (f, start, end) = choose|f: int, start: int, end: int|
        #![trigger first_site(files, repo, name_path, f, start, end)]
        first_site(files, repo, name_path, f, start, end) && {
            let (at, from) = span_for(2, start, end);
            &&& at <= from <= lines_spec(files[f].src@).len()
            &&& w.content@ == spliced(files[f].src@, at, from, new)
        };
    lemma_site_lines_nonneg(files, repo, name_path, f, start, end);
    lemma_spliced_layout(files[f].src@, end + 1, end + 1, new);
}

/// Inserting before a symbol keeps the file's text before the symbol's
/// first line, then puts the content on its own line, then the symbol and
/// the rest of the file.
pub proof fn lemma_insert_before_layout(
    state: AppState,
    repo: Seq<char>,
    name_path: Seq<char>,
    files: Seq<SourceFile>,
    new: Seq<char>,
    w: FileWrite,
)
    requires
        symbol_write_ok(state, repo, name_path, files, new, w, 1),
    ensures
        exists|f: int, start: int, end: int|
            #![trigger first_site(files, repo, name_path, f, start, end)]
            first_site(files, repo, name_path, f, start, end) && 0 <= start <= lines_spec(files[f].src@).len()
                && w.content@ == lines_before(lines_spec(files[f].src@).take(start)) + new + lines_after(
                lines_spec(files[f].src@).skip(start),
            ),
{
    let (f, start, end) = choose|f: int, start: int, end: int|
        #![trigger first_site(files, repo, name_path, f, start, end)]
        first_site(files, repo, name_path, f, start, end) && {
            let (at, from) = span_for(1, start, end);
            &&& at <= from <= lines_spec(files[f].src@).len()
            &&& w.content@ == spliced(files[f].src@, at, from, new)
        };
    lemma_site_lines_nonneg(files, repo, name_path, f, start, end);
    lemma_spliced_layout(files[f].src@, start, start, new);
}

/// Replacing a symbol's body keeps the file's text before its first line
/// and after its last line, with the new body on the lines between.
pub proof fn lemma_replace_body_layout(
    state: AppState,
    repo: Seq<char>,
    name_path: Seq<char>,
    files: Seq<SourceFile>,
    new: Seq<char>,
    w: FileWrite,
)
    requires
        symbol_write_ok(state, repo, name_path, files, new, w, 0),
    ensures
        exists|f: int, start: int, end: int|
            #![trigger first_site(files, repo, name_path, f, start, end)]
            first_site(files, repo, name_path, f, start, end) && 0 <= start <= end + 1 <= lines_spec(files[f].src@).len()
                && w.content@ == lines_before(lines_spec(files[f].src@).take(start)) + new + lines_after(
                lines_spec(files[f].src@).skip(end + 1),
            ),
{
    let (f, start, end) = choose|f: int, start: int, end: int|
        #![trigger first_site(files, repo, name_path, f, start, end)]
        first_site(files, repo, name_path, f, start, end) && {
            let (at, from) = span_for(0, start, end);
            &&& at <= from <= lines_spec(files[f].src@).len()
            &&& w.content@ == spliced(files[f].src@, at, from, new)
        };
    lemma_site_lines_nonneg(files, repo, name_path, f, start, end);
    lemma_spliced_layout(files[f].src@, start, end + 1, new);
}

/// A symbol's lines are line numbers: not negative.
proof fn lemma_site_lines_nonneg(files: Seq<SourceFile>, repo: Seq<char>, name_path: Seq<char>, f: int, start: int, end: int)
    requires
        site_in(files, repo, name_path, f, start, end),
    ensures
        0 <= start,
        0 <= end,
{
    let syms = choose|syms: Seq<SymbolModel>|
        #![trigger is_walk(syms, files[f].src@, repo, files[f].rel@)]
        is_walk(syms, files[f].src@, repo, files[f].rel@) && first_named(syms, name_path) >= 0 && syms[first_named(
            syms,
            name_path,
        )].range.start.line == start && syms[first_named(syms, name_path)].range.end.line == end;
}

/// Shared body of the symbol writes (`mode` as in [`span_for`]).
fn symbol_write(state: &AppState, repo: &str, name_path: &str, new: &str, files: &Vec<SourceFile>, mode: u8) -> (res: Result<FileWrite, CodeError>)
    requires
        mode <= 2,
    ensures
        match res {
            Ok(w) => symbol_write_ok(*state, repo@, name_path@, files@, new@, w, mode as int),
            Err(e) => symbol_write_err(repo@, name_path@, files@, e, mode as int),
        },
{
    let site = locate_symbol(state.roots.projects.as_str(), repo, name_path, files)?;
    let src = &files[site.file].src;
    let n = line_count(src.as_str());
    let fits = if mode == 1 {
        site.start <= n
    } else if mode == 0 {
        site.end < n && site.start <= site.end + 1
    } else {
        site.end < n
    };
    proof {
        assert(first_site(files@, repo@, name_path@, site.file as int, site.start as int, site.end as int));
        let (a2, b2) = span_for(mode as int, site.start as int, site.end as int);
        assert(fits == (a2 <= b2 <= lines_spec(files@[site.file as int].src@).len()));
    }
    if !fits {
        return Err(CodeError::new(CodeErrorCode::Internal, "symbol span outside the file"));
    }
    let (at, from) = if mode == 0 {
        (site.start, site.end + 1)
    } else if mode == 1 {
        (site.start, site.start)
    } else {
        (site.end + 1, site.end + 1)
    };
    let content = splice_content(src.as_str(), at, from, new)?;
    let rc = chars_of(site.root.as_str());
    let relc = chars_of(site.rel.as_str());
    let abs = crate::paths::join_segment(rc.as_slice(), relc.as_slice());
    let mut changed: Vec<String> = Vec::new();
    changed.push(site.rel);
    let w = FileWrite { path: string_from_chars(abs.as_slice()), content, resp: EditResp { changed_files: changed } };
    proof {
        let f = site.file as int;
        let (a2, b2) = span_for(mode as int, site.start as int, site.end as int);
        assert(a2 == at && b2 == from);
        assert(w.resp.changed_files@[0]@ == files@[f].rel@);
    }
    Ok(w)
}

/// `replace_symbol_body{repo,symbol,new_body}`: swap the symbol's line span
/// for `new_body` in the file that defines it.
pub fn replace_symbol_body(state: &AppState, req: ReplaceSymbolBodyReq, files: &Vec<SourceFile>) -> (res: Result<FileWrite, CodeError>)
    ensures
        match res {
            Ok(w) => symbol_write_ok(*state, req.repo@, req.symbol@, files@, req.new_body@, w, 0),
            Err(e) => symbol_write_err(req.repo@, req.symbol@, files@, e, 0),
        },
{
    symbol_write(state, req.repo.as_str(), req.symbol.as_str(), req.new_body.as_str(), files, 0)
}

/// `insert_before_symbol{repo,symbol,content}`: `content` becomes its own
/// line before the symbol's first line.
pub fn insert_before_symbol(state: &AppState, req: InsertSymbolReq, files: &Vec<SourceFile>) -> (res: Result<FileWrite, CodeError>)
    ensures
        match res {
            Ok(w) => symbol_write_ok(*state, req.repo@, req.symbol@, files@, req.content@, w, 1),
            Err(e) => symbol_write_err(req.repo@, req.symbol@, files@, e, 1),
        },
{
    symbol_write(state, req.repo.as_str(), req.symbol.as_str(), req.content.as_str(), files, 1)
}

/// `insert_after_symbol{repo,symbol,content}`: `content` becomes its own
/// line after the symbol's last line.
pub fn insert_after_symbol(state: &AppState, req: InsertSymbolReq, files: &Vec<SourceFile>) -> (res: Result<FileWrite, CodeError>)
    ensures
        match res {
            Ok(w) => symbol_write_ok(*state, req.repo@, req.symbol@, files@, req.content@, w, 2),
            Err(e) => symbol_write_err(req.repo@, req.symbol@, files@, e, 2),
        },
{
    symbol_write(state, req.repo.as_str(), req.symbol.as_str(), req.content.as_str(), files, 2)
}

/// What renaming in `src` answers over one walk `syms` of it: the first
/// symbol whose span covers `line` has its name replaced, as a whole word,
/// by `new_name` throughout `src`.
pub open spec fn rename_spec(src: Seq<char>, syms: Seq<SymbolModel>, line: u32, new_name: Seq<char>) -> Result<Seq<char>, (CodeErrorCode, Seq<char>)> {
    let i = first_covering(syms, line);
    if i < 0 {
        Err((CodeErrorCode::NotFound, "no symbol at position"@))
    } else if new_name.len() == 0 {
        Err((CodeErrorCode::Invalid, "empty new_name"@))
    } else if syms[i].name.len() == 0 {
        Err((CodeErrorCode::Invalid, "symbol has no name"@))
    } else {
        Ok(replace_word_from(src, syms[i].name, new_name, 0))
    }
}

/// Before the first whole-word occurrence of `from` at or after `i`, the
/// scan copies the text.
proof fn lemma_replace_word_copies_until(c: Seq<char>, from: Seq<char>, to: Seq<char>, i: int, q: int)
    requires
        0 <= i <= q <= c.len(),
        forall|p: int| i <= p < q ==> !word_at(c, from, p),
    ensures
        replace_word_from(c, from, to, i) == c.subrange(i, q) + replace_word_from(c, from, to, q),
    decreases q - i,
{
    if i < q {
        lemma_replace_word_copies_until(c, from, to, i + 1, q);
        assert(c.subrange(i, q) =~= seq![c[i]] + c.subrange(i + 1, q));
    } else {
        assert(c.subrange(i, q) =~= Seq::<char>::empty());
    }
}

/// A rename replaces the bare name of the symbol at the position: the text
/// before the first whole-word occurrence of that name is kept, and the
/// new name stands where that occurrence was.
pub proof fn lemma_rename_replaces_name(src: Seq<char>, syms: Seq<SymbolModel>, line: u32, new_name: Seq<char>, c: Seq<char>, q: int)
    requires
        rename_spec(src, syms, line, new_name) == Ok::<Seq<char>, (CodeErrorCode, Seq<char>)>(c),
        word_at(src, syms[first_covering(syms, line)].name, q),
        forall|p: int| 0 <= p < q ==> !word_at(src, syms[first_covering(syms, line)].name, p),
    ensures
        q + new_name.len() <= c.len(),
        c.take(q) == src.take(q),
        c.subrange(q, q + new_name.len()) == new_name,
{
    let a = syms[first_covering(syms, line)].name;
    lemma_replace_word_copies_until(src, a, new_name, 0, q);
    let rest = replace_word_from(src, a, new_name, q + a.len());
    assert(replace_word_from(src, a, new_name, q) == new_name + rest);
    assert(src.subrange(0, q) =~= src.take(q));
    assert(c =~= src.take(q) + new_name + rest);
    assert(c.take(q) =~= src.take(q));
    assert(c.subrange(q, q + new_name.len()) =~= new_name);
}

/// The content after renaming, over `symbols` (see [`rename_spec`]).
pub fn rename_in(content: &str, symbols: &Vec<Symbol>, position: crate::rpc::Position, new_name: &str) -> (res: Result<String, CodeError>)
    ensures
        match res {
            Ok(c) => rename_spec(content@, symbol_views(symbols@), position.line, new_name@) == Ok::<
                Seq<char>,
                (CodeErrorCode, Seq<char>),
            >(c@),
            Err(e) => rename_spec(content@, symbol_views(symbols@), position.line, new_name@) == Err::<
                Seq<char>,
                (CodeErrorCode, Seq<char>),
            >((e.code, e.message@)),
        },
{
    let ghost all = symbol_views(symbols@);
    let mut k: usize = 0;
    while k < symbols.len()
        invariant
            0 <= k <= symbols@.len(),
            all == symbol_views(symbols@),
            forall|j: int| 0 <= j < k ==> !covers(#[trigger] all[j], position.line),
        decreases symbols@.len() - k,
    {
        let s = &symbols[k];
        assert(all[k as int] == s@);
        if s.location.range.start.line <= position.line && position.line <= s.location.range.end.line {
            proof {
                crate::methods::symbols::lemma_first_covering(all, position.line, k as int);
            }
            if chars_of(new_name).len() == 0 {
                return Err(CodeError::new(CodeErrorCode::Invalid, "empty new_name"));
            }
            if chars_of(s.name.as_str()).len() == 0 {
                return Err(CodeError::new(CodeErrorCode::Invalid, "symbol has no name"));
            }
            return Ok(replace_word(content, s.name.as_str(), new_name));
        }
        k = k + 1;
    }
    proof {
        crate::methods::symbols::lemma_first_covering(all, position.line, all.len() as int);
    }
    Err(CodeError::new(CodeErrorCode::NotFound, "no symbol at position"))
}

/// `rename_symbol{repo,path,position,new_name}`: single-file textual rename
/// of the symbol whose definition spans `position`, over the file's current
/// content (`None`: no such file).
pub fn rename_symbol(state: &AppState, req: RenameSymbolReq, existing: Option<String>) -> (res: Result<(String, EditResp), CodeError>)
    ensures
        match res {
            Ok((c, resp)) => resolve_spec(Root::Projects, req.repo@, req.path@) is Ok && existing is Some
                && resp.changed_files@.len() == 1 && resp.changed_files@[0]@ == req.path@
                && exists|syms: Seq<SymbolModel>| #![trigger is_walk(syms, opt_view(existing)->Some_0, req.repo@, req.path@)]
                is_walk(syms, opt_view(existing)->Some_0, req.repo@, req.path@) && rename_spec(
                opt_view(existing)->Some_0,
                syms,
                req.position.line,
                req.new_name@,
            ) == Ok::<Seq<char>, (CodeErrorCode, Seq<char>)>(c@),
            Err(e) => file_errors(req.repo@, req.path@, opt_view(existing), e) || (resolve_spec(
                Root::Projects,
                req.repo@,
                req.path@,
            ) is Ok && existing is Some && exists|syms: Seq<SymbolModel>| #![trigger is_walk(syms, opt_view(existing)->Some_0, req.repo@, req.path@)]
                is_walk(syms, opt_view(existing)->Some_0, req.repo@, req.path@) && rename_spec(
                opt_view(existing)->Some_0,
                syms,
                req.position.line,
                req.new_name@,
            ) == Err::<Seq<char>, (CodeErrorCode, Seq<char>)>((e.code, e.message@))),
        },
{
    let ghost exv = opt_view(existing);
    let _abs = project_file(state.roots.projects.as_str(), req.repo.as_str(), req.path.as_str())?;
    let content = match existing {
        Some(c) => c,
        None => {
            return Err(CodeError::new(CodeErrorCode::NotFound, "no such file"));
        },
    };
    assert(exv == Some(content@));
    let symbols = rust_symbols(content.as_str(), req.repo.as_str(), req.path.as_str());
    let ghost sv = symbol_views(symbols@);
    assert(is_walk(sv, exv->Some_0, req.repo@, req.path@));
    let renamed = rename_in(content.as_str(), &symbols, req.position, req.new_name.as_str())?;
    let mut changed: Vec<String> = Vec::new();
    changed.push(req.path);
    Ok((renamed, EditResp { changed_files: changed }))
}

} // verus!
