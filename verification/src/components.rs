//! `Path::components` and `Path::strip_prefix` for `/`-separated paths
//! (no Windows prefixes), as Rust's standard library defines them: a
//! leading `/` is the root component, a leading `.` of a relative path is
//! the current-directory component, and elsewhere empty and `.` pieces are
//! skipped. `strip_prefix` answers the rest of the path after the base's
//! components, as written there, without separators and `.` pieces at its
//! ends.

use vstd::prelude::*;

verus! {

/// Index of the first `/` in `s`, or -1.
pub open spec fn first_slash(s: Seq<char>) -> int
    decreases s.len(),
{
    if s.len() == 0 {
        -1
    } else if s[0] == '/' {
        0
    } else {
        let r = first_slash(s.skip(1));
        if r < 0 {
            -1
        } else {
            r + 1
        }
    }
}

/// `first_slash` is the index `i` of the first `/`, or -1 when none.
pub proof fn lemma_first_slash(s: Seq<char>, i: int)
    requires
        0 <= i <= s.len(),
        forall|k: int| 0 <= k < i ==> s[k] != '/',
        i < s.len() ==> s[i] == '/',
    ensures
        first_slash(s) == if i < s.len() {
            i
        } else {
            -1
        },
    decreases i,
{
    if i > 0 {
        lemma_first_slash(s.skip(1), i - 1);
    }
}

/// `first_slash` is -1 or the index of a `/`.
pub proof fn lemma_first_slash_bound(s: Seq<char>)
    ensures
        -1 <= first_slash(s) < s.len(),
        first_slash(s) >= 0 ==> s[first_slash(s)] == '/',
    decreases s.len(),
{
    if s.len() > 0 && s[0] != '/' {
        lemma_first_slash_bound(s.skip(1));
    }
}

/// The piece of `p` before its first `/` (all of `p` without one), and the
/// number of characters it takes together with that separator.
pub open spec fn head_piece(p: Seq<char>) -> (Seq<char>, int) {
    let i = first_slash(p);
    if i < 0 {
        (p, p.len() as int)
    } else {
        (p.take(i), i + 1)
    }
}

/// A piece with its separator takes at least one and at most all characters.
pub proof fn lemma_head_piece(p: Seq<char>)
    requires
        p.len() > 0,
    ensures
        1 <= head_piece(p).1 <= p.len(),
        head_piece(p).0.len() < head_piece(p).1 || head_piece(p).1 == p.len(),
{
    lemma_first_slash_bound(p);
}

/// A piece that names no component in the body of a path: empty or `.`.
pub open spec fn is_skip_piece(x: Seq<char>) -> bool {
    x.len() == 0 || x == seq!['.']
}

/// The next component in the body of a path and the rest after it; empty
/// and `.` pieces are skipped.
pub open spec fn body_next(p: Seq<char>) -> Option<(Seq<char>, Seq<char>)>
    decreases p.len(),
{
    if p.len() == 0 {
        None
    } else {
        let h = head_piece(p);
        if is_skip_piece(h.0) {
            proof {
                lemma_head_piece(p);
            }
            body_next(p.skip(h.1))
        } else {
            Some((h.0, p.skip(h.1)))
        }
    }
}

/// A relative path that starts with the current-directory component.
pub open spec fn include_cur_dir(p: Seq<char>) -> bool {
    p.len() > 0 && p[0] == '.' && (p.len() == 1 || p[1] == '/')
}

/// The next component of `p` (`start`: nothing has been read yet) and the
/// rest after it. The root is written `/` and the current directory `.`;
/// neither can be mistaken for a body component.
pub open spec fn comp_next(p: Seq<char>, start: bool) -> Option<(Seq<char>, Seq<char>)> {
    if start && p.len() > 0 && p[0] == '/' {
        Some((seq!['/'], p.skip(1)))
    } else if start && include_cur_dir(p) {
        Some((seq!['.'], p.skip(1)))
    } else {
        body_next(p)
    }
}

/// Reading a component consumes at least one character.
pub proof fn lemma_body_next_shrinks(p: Seq<char>)
    ensures
        body_next(p) matches Some(r) ==> r.1.len() < p.len(),
    decreases p.len(),
{
    if p.len() > 0 {
        lemma_head_piece(p);
        let h = head_piece(p);
        if is_skip_piece(h.0) {
            lemma_body_next_shrinks(p.skip(h.1));
        }
    }
}

/// `comp_next` consumes at least one character.
pub proof fn lemma_comp_next_shrinks(p: Seq<char>, start: bool)
    ensures
        comp_next(p, start) matches Some(r) ==> r.1.len() < p.len(),
{
    lemma_body_next_shrinks(p);
}

/// `iter_after` of the component iterators: when `base`'s components start
/// those of `path`, the rest of `path` after them (and whether nothing of
/// it has been read).
pub open spec fn after_prefix(path: Seq<char>, ps: bool, base: Seq<char>, bs: bool) -> Option<(Seq<char>, bool)>
    decreases path.len(),
{
    match comp_next(base, bs) {
        None => Some((path, ps)),
        Some(y) => match comp_next(path, ps) {
            None => None,
            Some(x) => if x.0 == y.0 {
                proof {
                    lemma_comp_next_shrinks(path, ps);
                }
                after_prefix(x.1, false, y.1, false)
            } else {
                None
            },
        },
    }
}

/// `p` without leading empty and `.` pieces.
pub open spec fn trim_left(p: Seq<char>) -> Seq<char>
    decreases p.len(),
{
    if p.len() == 0 {
        p
    } else {
        let h = head_piece(p);
        if is_skip_piece(h.0) {
            proof {
                lemma_head_piece(p);
            }
            trim_left(p.skip(h.1))
        } else {
            p
        }
    }
}

/// Index of the last `/` in `s`, or -1.
pub open spec fn last_slash(s: Seq<char>) -> int
    decreases s.len(),
{
    if s.len() == 0 {
        -1
    } else if s.last() == '/' {
        s.len() - 1
    } else {
        last_slash(s.drop_last())
    }
}

/// `last_slash` is -1 or the index of a `/` after which none follows.
pub proof fn lemma_last_slash_bound(s: Seq<char>)
    ensures
        -1 <= last_slash(s) < s.len(),
        last_slash(s) >= 0 ==> s[last_slash(s)] == '/',
        forall|k: int| last_slash(s) < k < s.len() ==> s[k] != '/',
    decreases s.len(),
{
    if s.len() > 0 && s.last() != '/' {
        lemma_last_slash_bound(s.drop_last());
        assert forall|k: int| last_slash(s) < k < s.len() implies s[k] != '/' by {
            if k < s.len() - 1 {
                assert(s.drop_last()[k] == s[k]);
            }
        }
    }
}

/// The last piece of `p` after `floor` characters, and the number of
/// characters it takes together with the separator before it.
pub open spec fn tail_piece(p: Seq<char>, floor: int) -> (Seq<char>, int) {
    let body = p.skip(floor);
    let j = last_slash(body);
    if j < 0 {
        (body, body.len() as int)
    } else {
        (body.skip(j + 1), body.len() - j)
    }
}

/// `p` without trailing empty and `.` pieces, never cutting into its
/// first `floor` characters.
pub open spec fn trim_right(p: Seq<char>, floor: int) -> Seq<char>
    recommends
        0 <= floor,
    decreases p.len(),
{
    if p.len() <= floor || floor < 0 {
        p
    } else {
        let t = tail_piece(p, floor);
        if is_skip_piece(t.0) && t.1 > 0 {
            proof {
                lemma_last_slash_bound(p.skip(floor));
            }
            trim_right(p.take(p.len() - t.1), floor)
        } else {
            p
        }
    }
}

/// How many characters before the body a path has that is still to be
/// read from its start: its root or current-directory component.
pub open spec fn start_len(p: Seq<char>) -> int {
    if (p.len() > 0 && p[0] == '/') || include_cur_dir(p) {
        1
    } else {
        0
    }
}

/// `Components::as_path` for the rest `p` of a path (`start`: nothing has
/// been read): separators and `.` pieces are trimmed from both ends of the
/// body, the front only once the body is reached.
pub open spec fn as_path(p: Seq<char>, start: bool) -> Seq<char> {
    if start {
        trim_right(p, start_len(p))
    } else {
        trim_right(trim_left(p), 0)
    }
}

/// `Path::strip_prefix`: the rest of `path` after `base`'s components.
pub open spec fn strip_prefix_spec(path: Seq<char>, base: Seq<char>) -> Option<Seq<char>> {
    match after_prefix(path, true, base, true) {
        None => None,
        Some(r) => Some(as_path(r.0, r.1)),
    }
}

/// `last_slash` is the index `j` of a `/` after which none follows, or -1
/// when there is none.
proof fn lemma_last_slash(s: Seq<char>, j: int)
    requires
        -1 <= j < s.len(),
        j >= 0 ==> s[j] == '/',
        forall|k: int| j < k < s.len() ==> s[k] != '/',
    ensures
        last_slash(s) == j,
    decreases s.len(),
{
    if s.len() > 0 && j < s.len() - 1 {
        assert forall|k: int| j < k < s.len() - 1 implies s.drop_last()[k] != '/' by {
            assert(s.drop_last()[k] == s[k]);
        }
        if j >= 0 {
            assert(s.drop_last()[j] == s[j]);
        }
        lemma_last_slash(s.drop_last(), j);
    }
}

/// Index of the first `/` at or after `lo`, or `p.len()` when none.
fn slash_from(p: &[char], lo: usize) -> (r: usize)
    requires
        lo <= p@.len(),
    ensures
        lo <= r <= p@.len(),
        first_slash(p@.skip(lo as int)) == if r < p@.len() {
            r - lo
        } else {
            -1
        },
{
    let mut i = lo;
    while i < p.len() && p[i] != '/'
        invariant
            lo <= i <= p@.len(),
            forall|k: int| lo <= k < i ==> p@[k] != '/',
        decreases p@.len() - i,
    {
        i = i + 1;
    }
    proof {
        let q = p@.skip(lo as int);
        assert forall|k: int| 0 <= k < i - lo implies q[k] != '/' by {
            assert(q[k] == p@[lo + k]);
        }
        if i < p@.len() {
            assert(q[i - lo] == p@[i as int]);
        }
        lemma_first_slash(q, (i - lo) as int);
    }
    i
}

/// Whether `p[a..b]` is an empty or `.` piece.
fn skip_piece_at(p: &[char], a: usize, b: usize) -> (r: bool)
    requires
        a <= b <= p@.len(),
    ensures
        r == is_skip_piece(p@.subrange(a as int, b as int)),
{
    let n = b - a;
    let r = n == 0 || (n == 1 && p[a] == '.');
    proof {
        let x = p@.subrange(a as int, b as int);
        if n == 1 && p@[a as int] == '.' {
            assert(x =~= seq!['.']);
        }
        if n == 1 && p@[a as int] != '.' {
            assert(x[0] != seq!['.'][0]);
        }
    }
    r
}

/// The piece starting at `cur`: its end and where the next one starts.
proof fn lemma_head_piece_at(p: Seq<char>, cur: int, e: int)
    requires
        0 <= cur < e <= p.len() || (0 <= cur <= e <= p.len() && cur < p.len()),
        first_slash(p.skip(cur)) == if e < p.len() {
            e - cur
        } else {
            -1
        },
    ensures
        head_piece(p.skip(cur)).0 == p.subrange(cur, e),
        p.skip(cur).skip(head_piece(p.skip(cur)).1) == p.skip(if e < p.len() {
            e + 1
        } else {
            e
        }),
{
    let q = p.skip(cur);
    if e < p.len() {
        assert(q.take(e - cur) =~= p.subrange(cur, e));
        assert(q.skip(e - cur + 1) =~= p.skip(e + 1));
    } else {
        assert(q =~= p.subrange(cur, e));
        assert(q.skip(q.len() as int) =~= p.skip(e));
    }
}

/// `body_next` of `p[lo..]`, as the bounds of the component in `p` and the
/// index where the rest starts.
fn body_next_at(p: &[char], lo: usize) -> (r: Option<(usize, usize, usize)>)
    requires
        lo <= p@.len(),
    ensures
        match r {
            None => body_next(p@.skip(lo as int)) is None,
            Some((a, b, n)) => lo <= a <= b <= n <= p@.len() && body_next(p@.skip(lo as int)) == Some(
                (p@.subrange(a as int, b as int), p@.skip(n as int)),
            ),
        },
{
    let mut cur = lo;
    while cur < p.len()
        invariant
            lo <= cur <= p@.len(),
            body_next(p@.skip(lo as int)) == body_next(p@.skip(cur as int)),
        decreases p@.len() - cur,
    {
        let e = slash_from(p, cur);
        let next = if e < p.len() {
            e + 1
        } else {
            e
        };
        proof {
            lemma_head_piece_at(p@, cur as int, e as int);
        }
        if !skip_piece_at(p, cur, e) {
            return Some((cur, e, next));
        }
        cur = next;
    }
    assert(p@.skip(cur as int).len() == 0);
    None
}

/// `comp_next` of `p[lo..]` (see [`body_next_at`]).
fn comp_next_at(p: &[char], lo: usize, start: bool) -> (r: Option<(usize, usize, usize)>)
    requires
        lo <= p@.len(),
    ensures
        match r {
            None => comp_next(p@.skip(lo as int), start) is None,
            Some((a, b, n)) => lo <= a <= b <= n <= p@.len() && comp_next(p@.skip(lo as int), start) == Some(
                (p@.subrange(a as int, b as int), p@.skip(n as int)),
            ),
        },
{
    let ghost q = p@.skip(lo as int);
    if start && lo < p.len() && (p[lo] == '/' || (p[lo] == '.' && (lo + 1 == p.len() || p[lo + 1] == '/'))) {
        proof {
            assert(q[0] == p@[lo as int]);
            if lo + 1 < p@.len() {
                assert(q[1] == p@[lo + 1]);
            }
            if p@[lo as int] == '/' {
                assert(p@.subrange(lo as int, lo + 1) =~= seq!['/']);
            } else {
                assert(p@.subrange(lo as int, lo + 1) =~= seq!['.']);
            }
            assert(q.skip(1) =~= p@.skip(lo + 1));
        }
        return Some((lo, lo + 1, lo + 1));
    }
    proof {
        if start && lo < p@.len() {
            assert(q[0] == p@[lo as int]);
            if lo + 1 < p@.len() {
                assert(q[1] == p@[lo + 1]);
            }
        }
    }
    body_next_at(p, lo)
}

/// `after_prefix` of `path` and `base`, as the index where the rest of
/// `path` starts and whether nothing of it was read.
fn after_prefix_at(path: &[char], base: &[char]) -> (r: Option<(usize, bool)>)
    ensures
        match r {
            None => after_prefix(path@, true, base@, true) is None,
            Some((n, s)) => n <= path@.len() && after_prefix(path@, true, base@, true) == Some(
                (path@.skip(n as int), s),
            ),
        },
{
    let mut pl: usize = 0;
    let mut ps = true;
    let mut bl: usize = 0;
    let mut bs = true;
    assert(path@.skip(0) =~= path@);
    assert(base@.skip(0) =~= base@);
    loop
        invariant
            pl <= path@.len(),
            bl <= base@.len(),
            after_prefix(path@, true, base@, true) == after_prefix(path@.skip(pl as int), ps, base@.skip(bl as int), bs),
        decreases path@.len() - pl,
    {
        match comp_next_at(base, bl, bs) {
            None => {
                return Some((pl, ps));
            },
            Some((ya, yb, bn)) => match comp_next_at(path, pl, ps) {
                None => {
                    return None;
                },
                Some((xa, xb, pn)) => {
                    let same = crate::text::chars_eq(
                        vstd::slice::slice_subrange(path, xa, xb),
                        vstd::slice::slice_subrange(base, ya, yb),
                    );
                    if !same {
                        return None;
                    }
                    proof {
                        lemma_comp_next_shrinks(path@.skip(pl as int), ps);
                    }
                    pl = pn;
                    ps = false;
                    bl = bn;
                    bs = false;
                },
            },
        }
    }
}

/// Where `trim_left(p[lo..])` starts in `p`.
fn trim_left_at(p: &[char], lo: usize) -> (r: usize)
    requires
        lo <= p@.len(),
    ensures
        lo <= r <= p@.len(),
        trim_left(p@.skip(lo as int)) == p@.skip(r as int),
{
    let mut cur = lo;
    while cur < p.len()
        invariant
            lo <= cur <= p@.len(),
            trim_left(p@.skip(lo as int)) == trim_left(p@.skip(cur as int)),
        decreases p@.len() - cur,
    {
        let e = slash_from(p, cur);
        let next = if e < p.len() {
            e + 1
        } else {
            e
        };
        proof {
            lemma_head_piece_at(p@, cur as int, e as int);
        }
        if !skip_piece_at(p, cur, e) {
            return cur;
        }
        cur = next;
    }
    cur
}

/// Where `trim_right(p[lo..], floor)` ends in `p`.
fn trim_right_at(p: &[char], lo: usize, floor: usize) -> (r: usize)
    requires
        lo <= p@.len(),
    ensures
        lo <= r <= p@.len(),
        trim_right(p@.subrange(lo as int, p@.len() as int), floor as int) == p@.subrange(lo as int, r as int),
{
    let mut hi = p.len();
    while hi - lo > floor
        invariant
            lo <= hi <= p@.len(),
            trim_right(p@.subrange(lo as int, p@.len() as int), floor as int) == trim_right(
                p@.subrange(lo as int, hi as int),
                floor as int,
            ),
        decreases hi,
    {
        let ghost q = p@.subrange(lo as int, hi as int);
        let start = lo + floor;
        let mut k = hi;
        while k > start && p[k - 1] != '/'
            invariant
                start <= k <= hi <= p@.len(),
                forall|m: int| k <= m < hi ==> p@[m] != '/',
            decreases k,
        {
            k = k - 1;
        }
        // the last piece is p[k..hi]; a separator sits at k - 1 when k > start
        let size = if k > start {
            hi - k + 1
        } else {
            hi - start
        };
        proof {
            let body = q.skip(floor as int);
            assert(body =~= p@.subrange(start as int, hi as int));
            let j = if k > start {
                k - 1 - start
            } else {
                -1
            };
            assert forall|m: int| j < m < body.len() implies body[m] != '/' by {
                assert(body[m] == p@[start + m]);
            }
            if k > start {
                assert(body[j] == p@[k - 1]);
            }
            lemma_last_slash(body, j);
            let t = tail_piece(q, floor as int);
            if k > start {
                assert(t.0 =~= p@.subrange(k as int, hi as int));
            } else {
                assert(t.0 =~= p@.subrange(k as int, hi as int));
            }
            assert(t.1 == size);
        }
        if !(skip_piece_at(p, k, hi) && size > 0) {
            return hi;
        }
        proof {
            assert(q.take(q.len() - size) =~= p@.subrange(lo as int, hi - size));
        }
        hi = hi - size;
    }
    hi
}

/// `Path::strip_prefix(base)` on character paths (see [`strip_prefix_spec`]).
pub fn strip_path_prefix(path: &[char], base: &[char]) -> (r: Option<Vec<char>>)
    ensures
        match r {
            Some(v) => strip_prefix_spec(path@, base@) == Some(v@),
            None => strip_prefix_spec(path@, base@) is None,
        },
{
    match after_prefix_at(path, base) {
        None => None,
        Some((n, s)) => {
            let ghost q = path@.skip(n as int);
            let lo: usize;
            let floor: usize;
            if s {
                lo = n;
                floor = if n < path.len() && (path[n] == '/' || (path[n] == '.' && (n + 1 == path.len()
                    || path[n + 1] == '/'))) {
                    1
                } else {
                    0
                };
                proof {
                    if n < path@.len() {
                        assert(q[0] == path@[n as int]);
                        if n + 1 < path@.len() {
                            assert(q[1] == path@[n + 1]);
                        }
                    }
                    assert(floor == start_len(q));
                }
            } else {
                lo = trim_left_at(path, n);
                floor = 0;
            }
            assert(path@.skip(lo as int) =~= path@.subrange(lo as int, path@.len() as int));
            let hi = trim_right_at(path, lo, floor);
            Some(vstd::slice::slice_to_vec(vstd::slice::slice_subrange(path, lo, hi)))
        },
    }
}

/// Index of the last `c` in `s`, or -1.
pub open spec fn last_index_of(s: Seq<char>, c: char) -> int
    decreases s.len(),
{
    if s.len() == 0 {
        -1
    } else if s.last() == c {
        s.len() - 1
    } else {
        last_index_of(s.drop_last(), c)
    }
}

/// `Path::extension` of a file name: the text after its last `.`, unless
/// that dot starts the name (a hidden file) or the name is `..`.
pub open spec fn extension_spec(name: Seq<char>) -> Option<Seq<char>> {
    let j = last_index_of(name, '.');
    if name == seq!['.', '.'] || j <= 0 {
        None
    } else {
        Some(name.skip(j + 1))
    }
}

/// Whether a file name has the `rs` extension (see [`extension_spec`]).
pub fn has_rs_extension(name: &str) -> (r: bool)
    ensures
        r == (extension_spec(name@) == Some(seq!['r', 's'])),
{
    let c = crate::text::chars_of(name);
    let n = c.len();
    let mut k = n;
    assert(c@.take(n as int) =~= c@);
    while k > 0 && c[k - 1] != '.'
        invariant
            k <= n == c@.len(),
            last_index_of(c@, '.') == last_index_of(c@.take(k as int), '.'),
        decreases k,
    {
        assert(c@.take(k as int).drop_last() =~= c@.take(k - 1));
        k = k - 1;
    }
    proof {
        if k > 0 {
            assert(c@.take(k as int).last() == '.');
            assert(last_index_of(c@, '.') == k - 1);
        } else {
            assert(c@.take(0) =~= Seq::<char>::empty());
            assert(last_index_of(c@, '.') == -1);
        }
    }
    let dots = n == 2 && c[0] == '.' && c[1] == '.';
    proof {
        if dots {
            assert(c@ =~= seq!['.', '.']);
        } else if c@ == seq!['.', '.'] {
            assert(c@[0] == '.' && c@[1] == '.');
        }
    }
    if dots || k <= 1 {
        return false;
    }
    let r = n - k == 2 && c[k] == 'r' && c[k + 1] == 's';
    proof {
        let ext = c@.skip(k as int);
        assert(ext.len() == n - k);
        if r {
            assert(ext =~= seq!['r', 's']);
        } else if ext == seq!['r', 's'] {
            assert(ext[0] == c@[k as int]);
            assert(ext[1] == c@[k + 1]);
        }
    }
    r
}

} // verus!
