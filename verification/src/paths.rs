//! Path confinement: every workspace path is resolved under
//! `PROJECTS_DIR ∪ KNOWLEDGE_DIR`. A lexical normalization rejects any `..`
//! segment or absolute path BEFORE anything touches the filesystem, so
//! traversal and absolute escapes can never reach file I/O. Normalization is
//! lexical, so confinement holds even for not-yet-created files.
//!
//! Paths are modelled as character sequences with `/` as the only separator.

use vstd::prelude::*;

use crate::contract::{KNOWLEDGE_DIR, PROJECTS_DIR};
use crate::error::{CodeError, CodeErrorCode};
use crate::text::{chars_of, string_from_chars};

verus! {

/// Which confinement root a request targets.
#[derive(Debug, Clone, Copy, PartialEq, Eq, Structural)]
pub enum Root {
    /// `~/projects/<repo>`: `repo` is required and non-empty.
    Projects,
    /// `~/knowledge`: flat knowledge root; `repo` is ignored.
    Knowledge,
}

/// The `/`-separated pieces of `s` (an empty string has one empty piece).
pub open spec fn seg_split(s: Seq<char>) -> Seq<Seq<char>>
    decreases s.len(),
{
    if s.len() == 0 {
        seq![Seq::<char>::empty()]
    } else {
        let p = seg_split(s.drop_last());
        if s.last() == '/' {
            p.push(Seq::<char>::empty())
        } else {
            p.update(p.len() - 1, p.last().push(s.last()))
        }
    }
}

/// The parent-directory segment `..`.
pub open spec fn is_parent_seg(x: Seq<char>) -> bool {
    x == seq!['.', '.']
}

/// A segment that names a child: not empty, not `.`, not `..`.
pub open spec fn is_normal_seg(x: Seq<char>) -> bool {
    x.len() > 0 && x != seq!['.'] && !is_parent_seg(x)
}

/// The normal segments of `ss`, in order (empty and `.` pieces dropped).
pub open spec fn normal_segs(ss: Seq<Seq<char>>) -> Seq<Seq<char>>
    decreases ss.len(),
{
    if ss.len() == 0 {
        Seq::empty()
    } else if is_normal_seg(ss.last()) {
        normal_segs(ss.drop_last()).push(ss.last())
    } else {
        normal_segs(ss.drop_last())
    }
}

/// `base` with each of `segs` appended after a `/`.
pub open spec fn join_under(base: Seq<char>, segs: Seq<Seq<char>>) -> Seq<char>
    decreases segs.len(),
{
    if segs.len() == 0 {
        base
    } else {
        join_under(base, segs.drop_last()) + seq!['/'] + segs.last()
    }
}

/// Whether a relative path would leave its base: absolute, or holding `..`.
pub open spec fn escapes(rel: Seq<char>) -> bool {
    (rel.len() > 0 && rel[0] == '/') || seg_split(rel).contains(seq!['.', '.'])
}

/// A repo name that is exactly one normal path segment.
pub open spec fn is_safe_segment(s: Seq<char>) -> bool {
    s.len() > 0 && !s.contains('/') && s != seq!['.'] && !is_parent_seg(s)
}

/// What `safe_segment` answers: the name itself, or the error code and message.
pub open spec fn safe_segment_spec(s: Seq<char>) -> Result<Seq<char>, (CodeErrorCode, Seq<char>)> {
    if s.len() == 0 {
        Err((CodeErrorCode::Invalid, "repo is required"@))
    } else if is_safe_segment(s) {
        Ok(s)
    } else {
        Err((CodeErrorCode::Forbidden, "invalid repo name"@))
    }
}

/// `Path::join` on a relative single segment: a separator is inserted unless
/// `base` is empty or already ends with `/`.
pub open spec fn path_join(base: Seq<char>, seg: Seq<char>) -> Seq<char> {
    if base.len() == 0 || base.last() == '/' {
        base + seg
    } else {
        base + seq!['/'] + seg
    }
}

/// The confinement base for a root (the repo must already be a safe segment).
pub open spec fn base_of(root: Root, repo: Seq<char>) -> Seq<char> {
    match root {
        Root::Projects => path_join(PROJECTS_DIR@, repo),
        Root::Knowledge => KNOWLEDGE_DIR@,
    }
}

/// What `resolve` answers for `(root, repo, rel)`.
pub open spec fn resolve_spec(root: Root, repo: Seq<char>, rel: Seq<char>) -> Result<
    Seq<char>,
    (CodeErrorCode, Seq<char>),
> {
    if root == Root::Projects && repo.len() == 0 {
        Err((CodeErrorCode::Invalid, "repo is required"@))
    } else if root == Root::Projects && safe_segment_spec(repo) is Err {
        Err(safe_segment_spec(repo)->Err_0)
    } else if escapes(rel) {
        Err((CodeErrorCode::Forbidden, "path escapes the workspace root"@))
    } else {
        Ok(join_under(base_of(root, repo), normal_segs(seg_split(rel))))
    }
}

proof fn lemma_seg_split_nonempty(s: Seq<char>)
    ensures
        seg_split(s).len() >= 1,
    decreases s.len(),
{
    if s.len() > 0 {
        lemma_seg_split_nonempty(s.drop_last());
    }
}

/// Whether `s` contains `c`.
fn has_char(s: &[char], c: char) -> (r: bool)
    ensures
        r == s@.contains(c),
{
    let mut i: usize = 0;
    while i < s.len()
        invariant
            0 <= i <= s@.len(),
            forall|j: int| 0 <= j < i ==> s@[j] != c,
        decreases s@.len() - i,
    {
        if s[i] == c {
            assert(s@[i as int] == c);
            return true;
        }
        i = i + 1;
    }
    false
}

/// Whether `s` is exactly `.` (`dots == 1`) or `..` (`dots == 2`).
fn is_dots(s: &[char], dots: usize) -> (r: bool)
    requires
        dots == 1 || dots == 2,
    ensures
        dots == 1 ==> r == (s@ == seq!['.']),
        dots == 2 ==> r == (s@ == seq!['.', '.']),
{
    if s.len() != dots {
        return false;
    }
    if dots == 1 {
        let r = s[0] == '.';
        assert(r ==> s@ =~= seq!['.']);
        r
    } else {
        let r = s[0] == '.' && s[1] == '.';
        assert(r ==> s@ =~= seq!['.', '.']);
        r
    }
}

/// A single path segment (a repo name) with no separators or traversal.
/// Every path built from a caller-supplied repo goes through this one check.
pub fn safe_segment(seg: &str) -> (res: Result<&str, CodeError>)
    ensures
        match res {
            Ok(s) => safe_segment_spec(seg@) == Ok::<Seq<char>, (CodeErrorCode, Seq<char>)>(s@),
            Err(e) => safe_segment_spec(seg@) == Err::<Seq<char>, (CodeErrorCode, Seq<char>)>(
                (e.code, e.message@),
            ),
        },
{
    let cs = chars_of(seg);
    if cs.len() == 0 {
        return Err(CodeError::new(CodeErrorCode::Invalid, "repo is required"));
    }
    if has_char(cs.as_slice(), '/') || is_dots(cs.as_slice(), 1) || is_dots(cs.as_slice(), 2) {
        return Err(CodeError::new(CodeErrorCode::Forbidden, "invalid repo name"));
    }
    Ok(seg)
}

/// `base.join(seg)` for a segment without separators.
pub fn join_segment(base: &[char], seg: &[char]) -> (out: Vec<char>)
    ensures
        out@ == path_join(base@, seg@),
{
    let mut out: Vec<char> = Vec::new();
    let mut i: usize = 0;
    while i < base.len()
        invariant
            0 <= i <= base@.len(),
            out@ == base@.take(i as int),
        decreases base@.len() - i,
    {
        out.push(base[i]);
        assert(base@.take(i as int + 1) == base@.take(i as int).push(base@[i as int]));
        i = i + 1;
    }
    assert(base@.take(i as int) == base@);
    if base.len() > 0 && base[base.len() - 1] != '/' {
        out.push('/');
    }
    let ghost mid = out@;
    let mut k: usize = 0;
    while k < seg.len()
        invariant
            0 <= k <= seg@.len(),
            out@ == mid + seg@.take(k as int),
        decreases seg@.len() - k,
    {
        out.push(seg[k]);
        assert(seg@.take(k as int + 1) == seg@.take(k as int).push(seg@[k as int]));
        k = k + 1;
    }
    assert(seg@.take(k as int) == seg@);
    out
}

/// Resolve `(root, repo, rel)` to an absolute path confined under the root.
///
/// - `Root::Projects` requires a non-empty, single-segment `repo`; the path
///   is `PROJECTS_DIR/<repo>/<rel>`.
/// - `Root::Knowledge` ignores `repo`; the path is `KNOWLEDGE_DIR/<rel>`.
///
/// An absolute `rel` or any `..` segment in it is `Forbidden`; empty and `.`
/// segments are dropped.
pub fn resolve(root: Root, repo: &str, rel: &str) -> (res: Result<String, CodeError>)
    ensures
        match res {
            Ok(p) => resolve_spec(root, repo@, rel@) == Ok::<Seq<char>, (CodeErrorCode, Seq<char>)>(
                p@,
            ),
            Err(e) => resolve_spec(root, repo@, rel@) == Err::<Seq<char>, (CodeErrorCode, Seq<char>)>(
                (e.code, e.message@),
            ),
        },
{
    let base: Vec<char> = match root {
        Root::Projects => {
            let rc = chars_of(repo);
            if rc.len() == 0 {
                return Err(CodeError::new(CodeErrorCode::Invalid, "repo is required"));
            }
            let seg = safe_segment(repo)?;
            let sc = chars_of(seg);
            let pd = chars_of(PROJECTS_DIR);
            join_segment(pd.as_slice(), sc.as_slice())
        },
        Root::Knowledge => chars_of(KNOWLEDGE_DIR),
    };
    assert(base@ == base_of(root, repo@));
    let rc = chars_of(rel);
    if rc.len() > 0 && rc[0] == '/' {
        return Err(CodeError::new(CodeErrorCode::Forbidden, "path escapes the workspace root"));
    }
    let mut out: Vec<char> = base.clone();
    let mut cur: Vec<char> = Vec::new();
    let mut bad = false;
    let mut i: usize = 0;
    proof {
        assert(rc@.take(0) =~= Seq::<char>::empty());
        assert(seg_split(rc@.take(0)).drop_last() =~= Seq::<Seq<char>>::empty());
    }
    while i < rc.len()
        invariant
            0 <= i <= rc@.len(),
            seg_split(rc@.take(i as int)).len() >= 1,
            cur@ == seg_split(rc@.take(i as int)).last(),
            out@ == join_under(base@, normal_segs(seg_split(rc@.take(i as int)).drop_last())),
            bad == seg_split(rc@.take(i as int)).drop_last().contains(seq!['.', '.']),
        decreases rc@.len() - i,
    {
        let ghost p = rc@.take(i as int);
        let ghost q = rc@.take(i as int + 1);
        proof {
            assert(q.drop_last() =~= p);
            assert(q.last() == rc@[i as int]);
            lemma_seg_split_nonempty(q);
        }
        let c = rc[i];
        if c == '/' {
            assert(seg_split(q) == seg_split(p).push(Seq::<char>::empty()));
            assert(seg_split(q).drop_last() =~= seg_split(p));
            assert(seg_split(p) =~= seg_split(p).drop_last().push(cur@));
            let parent = is_dots(cur.as_slice(), 2);
            let dot = is_dots(cur.as_slice(), 1);
            if parent {
                bad = true;
                assert(seg_split(p)[seg_split(p).len() - 1] == seq!['.', '.']);
            } else {
                proof {
                    if bad {
                        let j = choose|j: int|
                            0 <= j < seg_split(p).drop_last().len() && seg_split(p).drop_last()[j]
                                == seq!['.', '.'];
                        assert(seg_split(p)[j] == seq!['.', '.']);
                    }
                }
                assert(!bad ==> !seg_split(p).contains(seq!['.', '.'])) by {
                    if !bad && seg_split(p).contains(seq!['.', '.']) {
                        let j = choose|j: int|
                            0 <= j < seg_split(p).len() && seg_split(p)[j] == seq!['.', '.'];
                        if j < seg_split(p).len() - 1 {
                            assert(seg_split(p).drop_last()[j] == seq!['.', '.']);
                        }
                    }
                }
            }
            if cur.len() > 0 && !dot && !parent {
                let ghost before = out@;
                out.push('/');
                let mut k: usize = 0;
                while k < cur.len()
                    invariant
                        0 <= k <= cur@.len(),
                        out@ == before + seq!['/'] + cur@.take(k as int),
                    decreases cur@.len() - k,
                {
                    out.push(cur[k]);
                    assert(cur@.take(k as int + 1) == cur@.take(k as int).push(cur@[k as int]));
                    k = k + 1;
                }
                assert(cur@.take(k as int) == cur@);
                proof {
                    let sp = seg_split(p);
                    assert(sp.last() == cur@);
                    assert(normal_segs(sp) == normal_segs(sp.drop_last()).push(cur@));
                    let ns = normal_segs(sp);
                    assert(ns.drop_last() =~= normal_segs(sp.drop_last()));
                }
            } else {
                proof {
                    let sp = seg_split(p);
                    assert(sp.last() == cur@);
                    assert(normal_segs(sp) == normal_segs(sp.drop_last()));
                }
            }
            cur = Vec::new();
        } else {
            let ghost sp = seg_split(p);
            assert(seg_split(q) == sp.update(sp.len() - 1, sp.last().push(c)));
            assert(seg_split(q).drop_last() =~= sp.drop_last());
            cur.push(c);
        }
        i = i + 1;
    }
    let ghost full = rc@;
    assert(rc@.take(i as int) =~= full);
    let ghost sp = seg_split(full);
    assert(sp =~= sp.drop_last().push(cur@));
    let parent = is_dots(cur.as_slice(), 2);
    let dot = is_dots(cur.as_slice(), 1);
    if parent {
        assert(sp[sp.len() - 1] == seq!['.', '.']);
        return Err(CodeError::new(CodeErrorCode::Forbidden, "path escapes the workspace root"));
    }
    if bad {
        proof {
            let j = choose|j: int| 0 <= j < sp.drop_last().len() && sp.drop_last()[j] == seq!['.', '.'];
            assert(sp[j] == seq!['.', '.']);
        }
        return Err(CodeError::new(CodeErrorCode::Forbidden, "path escapes the workspace root"));
    }
    assert(!sp.contains(seq!['.', '.'])) by {
        if sp.contains(seq!['.', '.']) {
            let j = choose|j: int| 0 <= j < sp.len() && sp[j] == seq!['.', '.'];
            if j < sp.len() - 1 {
                assert(sp.drop_last()[j] == seq!['.', '.']);
            }
        }
    }
    if cur.len() > 0 && !dot {
        let ghost before = out@;
        out.push('/');
        let mut k: usize = 0;
        while k < cur.len()
            invariant
                0 <= k <= cur@.len(),
                out@ == before + seq!['/'] + cur@.take(k as int),
            decreases cur@.len() - k,
        {
            out.push(cur[k]);
            assert(cur@.take(k as int + 1) == cur@.take(k as int).push(cur@[k as int]));
            k = k + 1;
        }
        assert(cur@.take(k as int) == cur@);
        proof {
            assert(sp.last() == cur@);
            assert(normal_segs(sp) == normal_segs(sp.drop_last()).push(cur@));
            let ns = normal_segs(sp);
            assert(ns.drop_last() =~= normal_segs(sp.drop_last()));
        }
    } else {
        proof {
            assert(sp.last() == cur@);
            assert(normal_segs(sp) == normal_segs(sp.drop_last()));
        }
    }
    Ok(string_from_chars(out.as_slice()))
}

/// Resolve a confined repo root (`<projects_root>/<repo>`) for the walks that
/// build a path from a caller-supplied repo without a relative part. The repo
/// goes through [`safe_segment`].
pub fn repo_root(projects_root: &str, repo: &str) -> (res: Result<String, CodeError>)
    ensures
        match res {
            Ok(p) => safe_segment_spec(repo@) is Ok && p@ == path_join(projects_root@, repo@),
            Err(e) => safe_segment_spec(repo@) == Err::<Seq<char>, (CodeErrorCode, Seq<char>)>(
                (e.code, e.message@),
            ),
        },
{
    let seg = safe_segment(repo)?;
    let b = chars_of(projects_root);
    let s = chars_of(seg);
    let out = join_segment(b.as_slice(), s.as_slice());
    Ok(string_from_chars(out.as_slice()))
}

/// Re-base a path under `PROJECTS_DIR/` onto `projects` (the live, possibly
/// test, projects root); any other path is kept as it is.
pub open spec fn rebase_spec(projects: Seq<char>, abs: Seq<char>) -> Seq<char> {
    let d = PROJECTS_DIR@ + seq!['/'];
    if abs.len() >= d.len() && abs.take(d.len() as int) == d {
        path_join(projects, abs.skip(d.len() as int))
    } else {
        abs
    }
}

/// A confined file of a repo: `resolve(Projects, repo, rel)` re-based onto
/// the live projects root, so confinement and the I/O target never diverge.
pub fn project_file(projects_root: &str, repo: &str, rel: &str) -> (res: Result<String, CodeError>)
    ensures
        match res {
            Ok(p) => resolve_spec(Root::Projects, repo@, rel@) is Ok && p@ == rebase_spec(
                projects_root@,
                resolve_spec(Root::Projects, repo@, rel@)->Ok_0,
            ),
            Err(e) => resolve_spec(Root::Projects, repo@, rel@) == Err::<Seq<char>, (CodeErrorCode, Seq<char>)>(
                (e.code, e.message@),
            ),
        },
{
    let abs = resolve(Root::Projects, repo, rel)?;
    let ac = chars_of(abs.as_str());
    let mut d = chars_of(PROJECTS_DIR);
    d.push('/');
    assert(d@ =~= PROJECTS_DIR@ + seq!['/']);
    assert(ac@ == abs@);
    if ac.len() >= d.len() {
        let mut i: usize = 0;
        let mut same = true;
        while i < d.len()
            invariant
                0 <= i <= d@.len() <= ac@.len(),
                same == (forall|k: int| 0 <= k < i ==> ac@[k] == d@[k]),
            decreases d@.len() - i,
        {
            if ac[i] != d[i] {
                same = false;
            }
            i = i + 1;
        }
        if same {
            assert(ac@.take(d@.len() as int) =~= d@);
        } else {
            assert(ac@.take(d@.len() as int) != d@) by {
                let k = choose|k: int| 0 <= k < d@.len() && ac@[k] != d@[k];
                assert(ac@.take(d@.len() as int)[k] == ac@[k]);
            }
        }
        if same {
            let rest = vstd::slice::slice_subrange(ac.as_slice(), d.len(), ac.len());
            assert(rest@ =~= ac@.skip(d@.len() as int));
            let pc = chars_of(projects_root);
            let joined = join_segment(pc.as_slice(), rest);
            return Ok(string_from_chars(joined.as_slice()));
        }
    }
    Ok(abs)
}

proof fn lemma_seg_split_concat(a: Seq<char>, b: Seq<char>)
    ensures
        seg_split(a + seq!['/'] + b) == seg_split(a) + seg_split(b),
    decreases b.len(),
{
    lemma_seg_split_nonempty(a);
    if b.len() == 0 {
        assert(a + seq!['/'] + b =~= a.push('/'));
        assert((a.push('/')).drop_last() =~= a);
        assert(seg_split(a) + seg_split(b) =~= seg_split(a).push(Seq::<char>::empty()));
    } else {
        let b0 = b.drop_last();
        lemma_seg_split_concat(a, b0);
        lemma_seg_split_nonempty(b0);
        let s = a + seq!['/'] + b;
        assert(s.drop_last() =~= a + seq!['/'] + b0);
        assert(s.last() == b.last());
        let x = seg_split(a);
        let y = seg_split(b0);
        if b.last() == '/' {
            assert(seg_split(s) =~= (x + y).push(Seq::<char>::empty()));
            assert(seg_split(b) =~= y.push(Seq::<char>::empty()));
            assert((x + y).push(Seq::<char>::empty()) =~= x + y.push(Seq::<char>::empty()));
        } else {
            let xy = x + y;
            assert(seg_split(s) =~= xy.update(xy.len() - 1, xy.last().push(b.last())));
            assert(seg_split(b) =~= y.update(y.len() - 1, y.last().push(b.last())));
            assert(xy.update(xy.len() - 1, xy.last().push(b.last())) =~= x + y.update(
                y.len() - 1,
                y.last().push(b.last()),
            ));
        }
    }
}

proof fn lemma_seg_split_single(b: Seq<char>)
    requires
        !b.contains('/'),
    ensures
        seg_split(b) == seq![b],
    decreases b.len(),
{
    if b.len() > 0 {
        let b0 = b.drop_last();
        assert(!b0.contains('/')) by {
            if b0.contains('/') {
                let j = choose|j: int| 0 <= j < b0.len() && b0[j] == '/';
                assert(b[j] == '/');
            }
        }
        lemma_seg_split_single(b0);
        assert(b.last() != '/') by {
            assert(b[b.len() - 1] == b.last());
        }
        assert(b0.push(b.last()) =~= b);
    } else {
        assert(b =~= Seq::<char>::empty());
    }
}

proof fn lemma_seg_split_pieces(s: Seq<char>)
    ensures
        forall|i: int| 0 <= i < seg_split(s).len() ==> !(#[trigger] seg_split(s)[i]).contains('/'),
    decreases s.len(),
{
    lemma_seg_split_nonempty(s);
    if s.len() > 0 {
        let p = seg_split(s.drop_last());
        lemma_seg_split_pieces(s.drop_last());
        lemma_seg_split_nonempty(s.drop_last());
        if s.last() != '/' {
            let l = p.last().push(s.last());
            assert(!l.contains('/')) by {
                if l.contains('/') {
                    let j = choose|j: int| 0 <= j < l.len() && l[j] == '/';
                    if j < l.len() - 1 {
                        assert(p[p.len() - 1][j] == '/');
                    }
                }
            }
        } else {
            assert(!Seq::<char>::empty().contains('/'));
        }
    }
}

proof fn lemma_normal_segs_props(ss: Seq<Seq<char>>)
    ensures
        forall|i: int| 0 <= i < normal_segs(ss).len() ==> ss.contains(#[trigger] normal_segs(ss)[i])
            && is_normal_seg(normal_segs(ss)[i]),
    decreases ss.len(),
{
    if ss.len() > 0 {
        lemma_normal_segs_props(ss.drop_last());
        assert forall|i: int| 0 <= i < normal_segs(ss).len() implies ss.contains(
            #[trigger] normal_segs(ss)[i],
        ) && is_normal_seg(normal_segs(ss)[i]) by {
            let n0 = normal_segs(ss.drop_last());
            if i < n0.len() {
                let j = choose|j: int| 0 <= j < ss.drop_last().len() && ss.drop_last()[j] == n0[i];
                assert(ss[j] == n0[i]);
            } else {
                assert(ss[ss.len() - 1] == ss.last());
            }
        }
    }
}

proof fn lemma_join_under_split(base: Seq<char>, segs: Seq<Seq<char>>)
    requires
        forall|i: int| 0 <= i < segs.len() ==> !(#[trigger] segs[i]).contains('/'),
    ensures
        seg_split(join_under(base, segs)) == seg_split(base) + segs,
        join_under(base, segs).len() >= base.len(),
        join_under(base, segs).take(base.len() as int) == base,
    decreases segs.len(),
{
    if segs.len() == 0 {
        assert(seg_split(base) + segs =~= seg_split(base));
    } else {
        let s0 = segs.drop_last();
        lemma_join_under_split(base, s0);
        assert(!segs.last().contains('/')) by {
            assert(segs[segs.len() - 1] == segs.last());
        }
        lemma_seg_split_single(segs.last());
        lemma_seg_split_concat(join_under(base, s0), segs.last());
        assert(seg_split(base) + s0 + seq![segs.last()] =~= seg_split(base) + segs);
        let j = join_under(base, s0);
        assert((j + seq!['/'] + segs.last()).take(base.len() as int) =~= j.take(base.len() as int));
    }
}

/// Confinement: a resolved path is the base itself or the base followed by
/// `/` and a chain of normal child segments (never `..`, `.` or empty).
pub proof fn lemma_resolve_confined(root: Root, repo: Seq<char>, rel: Seq<char>)
    requires
        resolve_spec(root, repo, rel) is Ok,
    ensures
        ({
            let p = resolve_spec(root, repo, rel)->Ok_0;
            let base = base_of(root, repo);
            &&& p.len() >= base.len()
            &&& p.take(base.len() as int) == base
            &&& p.len() > base.len() ==> p[base.len() as int] == '/' && forall|i: int|
                0 <= i < seg_split(p.skip(base.len() as int + 1)).len() ==> is_normal_seg(
                #[trigger] seg_split(p.skip(base.len() as int + 1))[i],
            )
        }),
{
    let base = base_of(root, repo);
    let segs = normal_segs(seg_split(rel));
    let p = join_under(base, segs);
    lemma_seg_split_pieces(rel);
    lemma_normal_segs_props(seg_split(rel));
    assert forall|i: int| 0 <= i < segs.len() implies !(#[trigger] segs[i]).contains('/') by {
        let j = choose|j: int| 0 <= j < seg_split(rel).len() && seg_split(rel)[j] == segs[i];
        assert(!seg_split(rel)[j].contains('/'));
    }
    lemma_join_under_split(base, segs);
    if p.len() > base.len() {
        assert(segs.len() > 0);
        let empty = Seq::<char>::empty();
        lemma_join_under_split(empty, segs);
        lemma_join_tail(base, segs);
        let tail = join_under(empty, segs);
        assert(p.skip(base.len() as int + 1) == tail.skip(1));
        lemma_join_from_empty(segs);
    }
}

proof fn lemma_join_tail(base: Seq<char>, segs: Seq<Seq<char>>)
    ensures
        join_under(base, segs) == base + join_under(Seq::<char>::empty(), segs),
    decreases segs.len(),
{
    if segs.len() == 0 {
        assert(base + Seq::<char>::empty() =~= base);
    } else {
        lemma_join_tail(base, segs.drop_last());
        assert(base + join_under(Seq::<char>::empty(), segs.drop_last()) + seq!['/'] + segs.last()
            =~= base + (join_under(Seq::<char>::empty(), segs.drop_last()) + seq!['/']
            + segs.last()));
    }
}

proof fn lemma_join_from_empty(segs: Seq<Seq<char>>)
    requires
        segs.len() > 0,
        forall|i: int| 0 <= i < segs.len() ==> !(#[trigger] segs[i]).contains('/'),
        forall|i: int| 0 <= i < segs.len() ==> is_normal_seg(#[trigger] segs[i]),
    ensures
        join_under(Seq::<char>::empty(), segs)[0] == '/',
        seg_split(join_under(Seq::<char>::empty(), segs).skip(1)) == segs,
    decreases segs.len(),
{
    let e = Seq::<char>::empty();
    let s0 = segs.drop_last();
    let l = segs.last();
    assert(!l.contains('/') && is_normal_seg(l)) by {
        assert(segs[segs.len() - 1] == l);
    }
    lemma_seg_split_single(l);
    if s0.len() == 0 {
        assert(join_under(e, s0) == e);
        assert(join_under(e, segs) =~= seq!['/'] + l);
        assert(join_under(e, segs).skip(1) =~= l);
    } else {
        assert forall|i: int| 0 <= i < s0.len() implies !(#[trigger] s0[i]).contains('/')
            && is_normal_seg(s0[i]) by {
            assert(s0[i] == segs[i]);
        }
        lemma_join_from_empty(s0);
        let j = join_under(e, s0);
        assert(j.len() > 0);
        assert(join_under(e, segs).skip(1) =~= j.skip(1) + seq!['/'] + l);
        lemma_seg_split_concat(j.skip(1), l);
        assert(s0 + seq![l] =~= segs);
        assert(join_under(e, segs)[0] == j[0]);
    }
}

/// A repo name accepted by `safe_segment` is exactly one normal segment.
pub proof fn lemma_safe_segment_single(s: Seq<char>)
    requires
        safe_segment_spec(s) is Ok,
    ensures
        seg_split(s) == seq![s],
        is_normal_seg(s),
{
    lemma_seg_split_single(s);
}

/// One confinement gate: a projects path resolves only for a repo that
/// `safe_segment` accepts (the check `repo_root` makes), and a repo it
/// refuses is refused by `resolve` with the same error, whatever the
/// relative path.
pub proof fn lemma_repo_gate(repo: Seq<char>, rel: Seq<char>)
    ensures
        resolve_spec(Root::Projects, repo, rel) is Ok ==> safe_segment_spec(repo) is Ok,
        safe_segment_spec(repo) is Err ==> resolve_spec(Root::Projects, repo, rel) == safe_segment_spec(repo),
{
}

/// Escapes never resolve: with an acceptable repo, an absolute relative
/// path or one holding a `..` segment is refused as `Forbidden`, under
/// either root.
pub proof fn lemma_escape_forbidden(root: Root, repo: Seq<char>, rel: Seq<char>)
    requires
        root == Root::Knowledge || safe_segment_spec(repo) is Ok,
        (rel.len() > 0 && rel[0] == '/') || seg_split(rel).contains(seq!['.', '.']),
    ensures
        resolve_spec(root, repo, rel) == Err::<Seq<char>, (CodeErrorCode, Seq<char>)>(
            (CodeErrorCode::Forbidden, "path escapes the workspace root"@),
        ),
{
}

} // verus!
