//! Character-sequence helpers shared by the path, edit and search logic.

use vstd::prelude::*;

verus! {

/// The characters of `s`, in order.
pub fn chars_of(s: &str) -> (out: Vec<char>)
    ensures
        out@ == s@,
{
    let mut out: Vec<char> = Vec::new();
    for c in it: s.chars()
        invariant
            out@ == it.seq().take(it.index() as int),
            it.seq() == s@,
    {
        out.push(c);
    }
    out
}

/// Calls `String::from_iter` on the characters; claims the string holds
/// exactly those characters.
#[verifier::external_body]
pub(crate) fn string_from_chars(v: &[char]) -> (s: String)
    ensures
        s@ == v@,
{
    String::from_iter(v.iter())
}

/// Whether two character slices are equal.
pub fn chars_eq(a: &[char], b: &[char]) -> (r: bool)
    ensures
        r == (a@ == b@),
{
    if a.len() != b.len() {
        return false;
    }
    let mut i: usize = 0;
    while i < a.len()
        invariant
            a@.len() == b@.len(),
            0 <= i <= a@.len(),
            a@.take(i as int) == b@.take(i as int),
        decreases a@.len() - i,
    {
        if a[i] != b[i] {
            assert(a@[i as int] != b@[i as int]);
            return false;
        }
        assert(a@.take(i as int + 1) == a@.take(i as int).push(a@[i as int]));
        assert(b@.take(i as int + 1) == b@.take(i as int).push(b@[i as int]));
        i = i + 1;
    }
    assert(a@ == a@.take(i as int));
    assert(b@ == b@.take(i as int));
    true
}

/// The pieces of `s` between occurrences of `c` (an empty string has one
/// empty piece).
pub open spec fn split_char(s: Seq<char>, c: char) -> Seq<Seq<char>>
    decreases s.len(),
{
    if s.len() == 0 {
        seq![Seq::<char>::empty()]
    } else {
        let p = split_char(s.drop_last(), c);
        if s.last() == c {
            p.push(Seq::<char>::empty())
        } else {
            p.update(p.len() - 1, p.last().push(s.last()))
        }
    }
}

/// `split_char` always yields at least one piece.
pub proof fn lemma_split_char_nonempty(s: Seq<char>, c: char)
    ensures
        split_char(s, c).len() >= 1,
    decreases s.len(),
{
    if s.len() > 0 {
        lemma_split_char_nonempty(s.drop_last(), c);
    }
}

/// A line without its `\r` terminator half.
pub open spec fn strip_cr(l: Seq<char>) -> Seq<char> {
    if l.len() > 0 && l.last() == '\r' {
        l.drop_last()
    } else {
        l
    }
}

/// `str::lines`: pieces ended by `\n` (with a `\r` before it removed), plus
/// a final unterminated piece when it is not empty.
pub open spec fn lines_spec(s: Seq<char>) -> Seq<Seq<char>> {
    let ps = split_char(s, '\n');
    let done = ps.drop_last().map_values(|l: Seq<char>| strip_cr(l));
    if ps.last().len() == 0 {
        done
    } else {
        done.push(ps.last())
    }
}

/// `[..].join("\n")`.
pub open spec fn join_lines(ls: Seq<Seq<char>>) -> Seq<char>
    decreases ls.len(),
{
    if ls.len() == 0 {
        Seq::empty()
    } else if ls.len() == 1 {
        ls[0]
    } else {
        join_lines(ls.drop_last()) + seq!['\n'] + ls.last()
    }
}

/// Joining two non-empty runs of lines puts one `\n` between them.
pub proof fn lemma_join_lines_append(a: Seq<Seq<char>>, b: Seq<Seq<char>>)
    requires
        a.len() > 0,
        b.len() > 0,
    ensures
        join_lines(a + b) == join_lines(a) + seq!['\n'] + join_lines(b),
    decreases b.len(),
{
    if b.len() == 1 {
        assert((a + b).drop_last() =~= a);
        assert((a + b).last() == b[0]);
    } else {
        lemma_join_lines_append(a, b.drop_last());
        assert((a + b).drop_last() =~= a + b.drop_last());
        assert((a + b).last() == b.last());
        assert(join_lines(a + b) =~= join_lines(a) + seq!['\n'] + join_lines(b));
    }
}

/// The character views of a vector of character vectors.
pub open spec fn views(v: Seq<Vec<char>>) -> Seq<Seq<char>> {
    v.map_values(|x: Vec<char>| x@)
}

/// The views of a vector of strings.
pub open spec fn string_views(v: Seq<String>) -> Seq<Seq<char>> {
    v.map_values(|x: String| x@)
}

/// `views` distributes over `push`.
pub proof fn lemma_views_push(s: Seq<Vec<char>>, x: Vec<char>)
    ensures
        views(s.push(x)) == views(s).push(x@),
{
    assert(views(s.push(x)) =~= views(s).push(x@));
}

fn strip_cr_exec(l: Vec<char>) -> (out: Vec<char>)
    ensures
        out@ == strip_cr(l@),
{
    let mut l = l;
    if l.len() > 0 && l[l.len() - 1] == '\r' {
        l.pop();
    }
    l
}

/// `str::lines` on a character slice.
pub fn lines_of(s: &[char]) -> (out: Vec<Vec<char>>)
    ensures
        views(out@) == lines_spec(s@),
{
    let mut done: Vec<Vec<char>> = Vec::new();
    let mut cur: Vec<char> = Vec::new();
    let mut i: usize = 0;
    proof {
        assert(s@.take(0) =~= Seq::<char>::empty());
        assert(views(done@) =~= split_char(s@.take(0), '\n').drop_last().map_values(
            |l: Seq<char>| strip_cr(l),
        ));
    }
    while i < s.len()
        invariant
            0 <= i <= s@.len(),
            split_char(s@.take(i as int), '\n').len() >= 1,
            cur@ == split_char(s@.take(i as int), '\n').last(),
            views(done@) == split_char(s@.take(i as int), '\n').drop_last().map_values(
                |l: Seq<char>| strip_cr(l),
            ),
        decreases s@.len() - i,
    {
        let ghost p = s@.take(i as int);
        let ghost q = s@.take(i as int + 1);
        proof {
            assert(q.drop_last() =~= p);
            lemma_split_char_nonempty(q, '\n');
        }
        let c = s[i];
        if c == '\n' {
            let ghost sp = split_char(p, '\n');
            assert(split_char(q, '\n') == sp.push(Seq::<char>::empty()));
            let piece = strip_cr_exec(cur);
            let ghost old_done = done@;
            done.push(piece);
            cur = Vec::new();
            proof {
                assert(split_char(q, '\n').drop_last() =~= sp);
                assert(done@ =~= old_done.push(piece));
                assert(views(done@) =~= views(old_done).push(piece@));
                assert(sp.map_values(|l: Seq<char>| strip_cr(l)) =~= sp.drop_last().map_values(
                    |l: Seq<char>| strip_cr(l),
                ).push(strip_cr(sp.last())));
            }
        } else {
            let ghost sp = split_char(p, '\n');
            assert(split_char(q, '\n') == sp.update(sp.len() - 1, sp.last().push(c)));
            assert(split_char(q, '\n').drop_last() =~= sp.drop_last());
            cur.push(c);
        }
        i = i + 1;
    }
    assert(s@.take(i as int) =~= s@);
    if cur.len() > 0 {
        done.push(cur);
        proof {
            let ps = split_char(s@, '\n');
            assert(views(done@) =~= ps.drop_last().map_values(|l: Seq<char>| strip_cr(l)).push(
                ps.last(),
            ));
        }
    }
    done
}

/// `join("\n")` of a sequence of lines.
pub fn join_lines_exec(ls: &Vec<Vec<char>>) -> (out: Vec<char>)
    ensures
        out@ == join_lines(views(ls@)),
{
    let mut out: Vec<char> = Vec::new();
    let mut i: usize = 0;
    while i < ls.len()
        invariant
            0 <= i <= ls@.len(),
            out@ == join_lines(views(ls@.take(i as int))),
        decreases ls@.len() - i,
    {
        let ghost before = out@;
        if i > 0 {
            out.push('\n');
        }
        let line = &ls[i];
        let mut k: usize = 0;
        let ghost mid = out@;
        while k < line.len()
            invariant
                0 <= k <= line@.len(),
                out@ == mid + line@.take(k as int),
            decreases line@.len() - k,
        {
            out.push(line[k]);
            assert(line@.take(k as int + 1) == line@.take(k as int).push(line@[k as int]));
            k = k + 1;
        }
        proof {
            assert(line@.take(k as int) =~= line@);
            let vs = views(ls@.take(i as int + 1));
            assert(vs.drop_last() =~= views(ls@.take(i as int)));
            assert(vs.last() == line@);
            if i == 0 {
                assert(vs.len() == 1);
                assert(views(ls@.take(0)) =~= Seq::<Seq<char>>::empty());
                assert(out@ =~= vs[0]);
            }
        }
        i = i + 1;
    }
    assert(ls@.take(i as int) =~= ls@);
    out
}

/// `pat` occurs in `s` at index `i`.
pub open spec fn occurs_at(s: Seq<char>, pat: Seq<char>, i: int) -> bool {
    0 <= i && i + pat.len() <= s.len() && s.subrange(i, i + pat.len()) == pat
}

/// `str::contains`.
pub open spec fn contains_seq(s: Seq<char>, pat: Seq<char>) -> bool {
    exists|i: int| occurs_at(s, pat, i)
}

/// Index of the first occurrence of `pat` in `s` (meaningful when it occurs).
pub open spec fn first_occurrence(s: Seq<char>, pat: Seq<char>) -> int {
    choose|i: int| occurs_at(s, pat, i) && forall|j: int| 0 <= j < i ==> !occurs_at(s, pat, j)
}

/// `str::replacen(pat, new, 1)`: the first occurrence replaced, if any.
pub open spec fn replace_first(s: Seq<char>, pat: Seq<char>, new: Seq<char>) -> Seq<char> {
    if contains_seq(s, pat) {
        let i = first_occurrence(s, pat);
        s.take(i) + new + s.skip(i + pat.len())
    } else {
        s
    }
}

/// Whether `pat` occurs in `s` at `i`.
pub fn matches_at(s: &[char], pat: &[char], i: usize) -> (r: bool)
    requires
        i <= s@.len(),
    ensures
        r == occurs_at(s@, pat@, i as int),
{
    if pat.len() > s.len() - i {
        return false;
    }
    let n = s.len();
    let mut k: usize = 0;
    while k < pat.len()
        invariant
            0 <= k <= pat@.len(),
            n == s@.len(),
            i + pat@.len() <= s@.len(),
            forall|j: int| 0 <= j < k ==> s@[i + j] == pat@[j],
        decreases pat@.len() - k,
    {
        let at: usize = i + k;
        if s[at] != pat[k] {
            assert(s@.subrange(i as int, i + pat@.len())[k as int] == s@[i + k]);
            return false;
        }
        k = k + 1;
    }
    assert(s@.subrange(i as int, i + pat@.len()) =~= pat@);
    true
}

/// The first index at which `pat` occurs in `s`, if any.
pub fn find_first(s: &[char], pat: &[char]) -> (r: Option<usize>)
    ensures
        r is None <==> !contains_seq(s@, pat@),
        r matches Some(i) ==> i == first_occurrence(s@, pat@) && occurs_at(s@, pat@, i as int),
{
    let mut i: usize = 0;
    while i < s.len()
        invariant
            0 <= i <= s@.len(),
            forall|j: int| 0 <= j < i ==> !occurs_at(s@, pat@, j),
        decreases s@.len() - i,
    {
        if matches_at(s, pat, i) {
            proof {
                assert(occurs_at(s@, pat@, i as int));
            }
            return Some(i);
        }
        i = i + 1;
    }
    if matches_at(s, pat, i) {
        proof {
            assert(occurs_at(s@, pat@, i as int));
        }
        return Some(i);
    }
    assert(!contains_seq(s@, pat@)) by {
        if contains_seq(s@, pat@) {
            let k = choose|k: int| occurs_at(s@, pat@, k);
            assert(k <= s@.len());
        }
    }
    None
}

/// Append `src` to `out`.
pub fn push_all(out: &mut Vec<char>, src: &[char])
    ensures
        final(out)@ == old(out)@ + src@,
{
    let mut k: usize = 0;
    let ghost start = out@;
    while k < src.len()
        invariant
            0 <= k <= src@.len(),
            out@ == start + src@.take(k as int),
        decreases src@.len() - k,
    {
        out.push(src[k]);
        assert(src@.take(k as int + 1) == src@.take(k as int).push(src@[k as int]));
        k = k + 1;
    }
    assert(src@.take(k as int) =~= src@);
}

/// `char::is_whitespace`: the Unicode White_Space characters.
pub open spec fn is_ws_char(c: char) -> bool {
    let u = c as u32;
    ||| (9 <= u <= 13)
    ||| u == 32
    ||| u == 0x85
    ||| u == 0xA0
    ||| u == 0x1680
    ||| (0x2000 <= u <= 0x200A)
    ||| u == 0x2028
    ||| u == 0x2029
    ||| u == 0x202F
    ||| u == 0x205F
    ||| u == 0x3000
}

/// `char::is_whitespace`.
pub fn is_ws_char_exec(c: char) -> (r: bool)
    ensures
        r == is_ws_char(c),
{
    let u = c as u32;
    (9 <= u && u <= 13) || u == 32 || u == 0x85 || u == 0xA0 || u == 0x1680 || (0x2000 <= u && u
        <= 0x200A) || u == 0x2028 || u == 0x2029 || u == 0x202F || u == 0x205F || u == 0x3000
}

/// `str::trim_start`.
pub open spec fn trim_start_chars(s: Seq<char>) -> Seq<char>
    decreases s.len(),
{
    if s.len() > 0 && is_ws_char(s[0]) {
        trim_start_chars(s.skip(1))
    } else {
        s
    }
}

/// `str::trim_end`.
pub open spec fn trim_end_chars(s: Seq<char>) -> Seq<char>
    decreases s.len(),
{
    if s.len() > 0 && is_ws_char(s.last()) {
        trim_end_chars(s.drop_last())
    } else {
        s
    }
}

/// `str::trim`.
pub open spec fn trim_chars(s: Seq<char>) -> Seq<char> {
    trim_end_chars(trim_start_chars(s))
}

/// Bounds `(a, b)` of `s` with its white space trimmed at the start (when
/// `start`) and at the end (when `end`).
pub fn trim_bounds(s: &[char], start: bool, end: bool) -> (r: (usize, usize))
    ensures
        r.0 <= r.1 <= s@.len(),
        start && end ==> s@.subrange(r.0 as int, r.1 as int) == trim_chars(s@),
        start && !end ==> s@.subrange(r.0 as int, r.1 as int) == trim_start_chars(s@),
        !start && end ==> s@.subrange(r.0 as int, r.1 as int) == trim_end_chars(s@),
        !start && !end ==> s@.subrange(r.0 as int, r.1 as int) == s@,
{
    let n = s.len();
    let mut a: usize = 0;
    assert(s@.subrange(0, n as int) =~= s@);
    if start {
        while a < n && is_ws_char_exec(s[a])
            invariant
                0 <= a <= n == s@.len(),
                trim_start_chars(s@) == trim_start_chars(s@.subrange(a as int, n as int)),
            decreases n - a,
        {
            assert(s@.subrange(a as int, n as int).skip(1) =~= s@.subrange(a + 1, n as int));
            a = a + 1;
        }
    }
    let mut b: usize = n;
    if end {
        while b > a && is_ws_char_exec(s[b - 1])
            invariant
                0 <= a <= b <= n == s@.len(),
                trim_end_chars(s@.subrange(a as int, n as int)) == trim_end_chars(
                    s@.subrange(a as int, b as int),
                ),
            decreases b - a,
        {
            assert(s@.subrange(a as int, b as int).drop_last() =~= s@.subrange(a as int, b - 1));
            b = b - 1;
        }
    }
    (a, b)
}

/// The ASCII decimal digits of `n`, as characters.
pub open spec fn decimal_chars(n: nat) -> Seq<char>
    decreases n,
{
    if n < 10 {
        seq![((48 + n) as u32) as char]
    } else {
        decimal_chars(n / 10).push(((48 + n % 10) as u32) as char)
    }
}

/// `n.to_string()` for an unsigned integer.
pub fn decimal_string(n: u64) -> (s: String)
    ensures
        s@ == decimal_chars(n as nat),
{
    let d = decimal_vec(n);
    string_from_chars(d.as_slice())
}

fn digit_char(d: u64) -> (c: char)
    requires
        d < 10,
    ensures
        c == ((48 + d) as u32) as char,
{
    if d == 0 { '0' } else if d == 1 { '1' } else if d == 2 { '2' } else if d == 3 { '3' } else if d
        == 4 { '4' } else if d == 5 { '5' } else if d == 6 { '6' } else if d == 7 { '7' } else if d
        == 8 { '8' } else { '9' }
}

fn decimal_vec(n: u64) -> (out: Vec<char>)
    ensures
        out@ == decimal_chars(n as nat),
    decreases n,
{
    if n < 10 {
        let mut out: Vec<char> = Vec::new();
        out.push(digit_char(n));
        out
    } else {
        let mut out = decimal_vec(n / 10);
        out.push(digit_char(n % 10));
        out
    }
}

/// What `String::from_utf8_lossy` makes of `bytes`: their characters, each
/// invalid sequence replaced by U+FFFD.
pub uninterp spec fn lossy_utf8(bytes: Seq<u8>) -> Seq<char>;

/// `String::from_utf8_lossy(bytes).into_owned()`: the result is
/// [`lossy_utf8`] of the bytes, and exactly the decoded characters when the
/// bytes are valid UTF-8.
#[verifier::external_body]
pub(crate) fn utf8_lossy(bytes: &[u8]) -> (s: String)
    ensures
        s@ == lossy_utf8(bytes@),
        vstd::utf8::valid_utf8(bytes@) ==> s@ == vstd::utf8::decode_utf8(bytes@),
{
    String::from_utf8_lossy(bytes).into_owned()
}

} // verus!
