//! Multi-repo discovery and per-(repo, language) index status.
//!
//! A repo is an immediate subdirectory of the projects root that holds a
//! `.git` directory or a recognised manifest (`Cargo.toml`). Language
//! detection is manifest-based (a `Cargo.toml` means Rust). Each language's
//! index status is `Indexing` until the language server reports its first
//! index done, then `Ready`. The directory listing itself is read by the
//! caller.

use vstd::prelude::*;

use crate::rpc::IndexStatus;
use crate::text::{chars_of, string_views};

verus! {

/// One discovered repo and the languages detected in it.
#[derive(Debug)]
pub struct DiscoveredRepo {
    pub name: String,
    pub languages: Vec<String>,
}

impl View for DiscoveredRepo {
    type V = (Seq<char>, Seq<Seq<char>>);

    open spec fn view(&self) -> (Seq<char>, Seq<Seq<char>>) {
        (self.name@, string_views(self.languages@))
    }
}

/// Live per-(repo, language) index status.
#[derive(Debug)]
pub struct LangIndexState {
    pub lang: String,
    pub status: IndexStatus,
}

/// One entry of the projects root, as listed by the caller.
#[derive(Debug)]
pub struct DirEntryInfo {
    /// The entry's file name (lossily decoded).
    pub name: String,
    /// Whether the entry is a directory.
    pub is_dir: bool,
    /// Whether `<entry>/Cargo.toml` is a file.
    pub has_cargo_toml: bool,
    /// Whether `<entry>/.git` is a directory.
    pub has_git: bool,
}

/// The languages of a repo: Rust when it has a `Cargo.toml`.
pub open spec fn languages_spec(has_cargo_toml: bool) -> Seq<Seq<char>> {
    if has_cargo_toml {
        seq!["rust"@]
    } else {
        Seq::empty()
    }
}

/// Manifest-based language detection (Rust only).
pub fn detect_languages(has_cargo_toml: bool) -> (langs: Vec<String>)
    ensures
        string_views(langs@) == languages_spec(has_cargo_toml),
{
    let mut langs: Vec<String> = Vec::new();
    if has_cargo_toml {
        langs.push("rust".to_owned());
        assert(string_views(langs@) =~= seq!["rust"@]);
    } else {
        assert(string_views(langs@) =~= Seq::<Seq<char>>::empty());
    }
    langs
}

/// Code-point (= UTF-8 byte) lexicographic order of strings.
pub open spec fn chars_le(a: Seq<char>, b: Seq<char>) -> bool
    decreases a.len(),
{
    if a.len() == 0 {
        true
    } else if b.len() == 0 {
        false
    } else if (a[0] as u32) < (b[0] as u32) {
        true
    } else if (a[0] as u32) > (b[0] as u32) {
        false
    } else {
        chars_le(a.skip(1), b.skip(1))
    }
}

proof fn lemma_char_u32_injective(a: char, b: char)
    ensures
        a != b ==> (a as u32) != (b as u32),
{
    vstd::utf8::char_u32_cast(a, a as u32);
    vstd::utf8::char_u32_cast(b, b as u32);
}

/// `chars_le` is total.
pub proof fn lemma_chars_le_total(a: Seq<char>, b: Seq<char>)
    ensures
        chars_le(a, b) || chars_le(b, a),
    decreases a.len(),
{
    if a.len() > 0 && b.len() > 0 && a[0] == b[0] {
        lemma_chars_le_total(a.skip(1), b.skip(1));
    } else if a.len() > 0 && b.len() > 0 {
        lemma_char_u32_injective(a[0], b[0]);
    }
}

/// `chars_le` is transitive.
pub proof fn lemma_chars_le_trans(a: Seq<char>, b: Seq<char>, c: Seq<char>)
    requires
        chars_le(a, b),
        chars_le(b, c),
    ensures
        chars_le(a, c),
    decreases a.len(),
{
    if a.len() > 0 && b.len() > 0 && c.len() > 0 {
        if (a[0] as u32) == (b[0] as u32) && (b[0] as u32) == (c[0] as u32) {
            lemma_chars_le_trans(a.skip(1), b.skip(1), c.skip(1));
        }
    }
}

/// Whether repos are sorted by name.
pub open spec fn sorted_by_name(rs: Seq<(Seq<char>, Seq<Seq<char>>)>) -> bool {
    forall|i: int, j: int| 0 <= i < j < rs.len() ==> chars_le(#[trigger] rs[i].0, #[trigger] rs[j].0)
}

/// Whether a directory entry is a repo: a directory with a `.git`
/// directory or a recognised manifest.
pub open spec fn is_repo_entry(e: DirEntryInfo) -> bool {
    e.is_dir && (e.has_git || e.has_cargo_toml)
}

/// The repos the directory entries stand for: every repo entry, with its
/// detected languages, in listing order.
pub open spec fn dir_repos(es: Seq<DirEntryInfo>) -> Seq<(Seq<char>, Seq<Seq<char>>)>
    decreases es.len(),
{
    if es.len() == 0 {
        Seq::empty()
    } else if is_repo_entry(es.last()) {
        dir_repos(es.drop_last()).push((es.last().name@, languages_spec(es.last().has_cargo_toml)))
    } else {
        dir_repos(es.drop_last())
    }
}

/// The views of a sequence of repos.
pub open spec fn repo_views(rs: Seq<DiscoveredRepo>) -> Seq<(Seq<char>, Seq<Seq<char>>)> {
    rs.map_values(|r: DiscoveredRepo| r@)
}

fn chars_le_exec(a: &[char], b: &[char]) -> (r: bool)
    ensures
        r == chars_le(a@, b@),
{
    let mut i: usize = 0;
    assert(a@.skip(0) =~= a@);
    assert(b@.skip(0) =~= b@);
    while i < a.len() && i < b.len() && a[i] == b[i]
        invariant
            0 <= i <= a@.len(),
            i <= b@.len(),
            chars_le(a@, b@) == chars_le(a@.skip(i as int), b@.skip(i as int)),
        decreases a@.len() - i,
    {
        assert(a@.skip(i as int).skip(1) =~= a@.skip(i as int + 1));
        assert(b@.skip(i as int).skip(1) =~= b@.skip(i as int + 1));
        i = i + 1;
    }
    if i == a.len() {
        return true;
    }
    if i == b.len() {
        return false;
    }
    assert(a@.skip(i as int)[0] == a@[i as int]);
    assert(b@.skip(i as int)[0] == b@[i as int]);
    assert(a@[i as int] != b@[i as int]);
    proof {
        lemma_char_u32_injective(a@[i as int], b@[i as int]);
    }
    (a[i] as u32) < (b[i] as u32)
}

/// Discover the repos among the entries of the projects root: every
/// directory holding `.git` or `Cargo.toml`, with its detected languages,
/// sorted by name.
pub fn discover_repos(entries: Vec<DirEntryInfo>) -> (out: Vec<DiscoveredRepo>)
    ensures
        sorted_by_name(repo_views(out@)),
        repo_views(out@).to_multiset() == dir_repos(entries@).to_multiset(),
{
    let ghost es = entries@;
    let mut out: Vec<DiscoveredRepo> = Vec::new();
    assert(es.take(0) =~= Seq::<DirEntryInfo>::empty());
    assert(repo_views(out@) =~= Seq::<(Seq<char>, Seq<Seq<char>>)>::empty());
    for e in it: entries.into_iter()
        invariant
            it.seq() == es,
            sorted_by_name(repo_views(out@)),
            repo_views(out@).to_multiset() == dir_repos(es.take(it.index() as int)).to_multiset(),
    {
        let ghost idx = it.index() as int;
        assert(es.take(idx + 1).drop_last() =~= es.take(idx));
        assert(es.take(idx + 1).last() == e);
        if e.is_dir && (e.has_git || e.has_cargo_toml) {
            let name = chars_of(e.name.as_str());
            let langs = detect_languages(e.has_cargo_toml);
            let mut p: usize = 0;
            while p < out.len()
                invariant
                    0 <= p <= out@.len(),
                    name@ == e.name@,
                    forall|k: int| 0 <= k < p ==> chars_le(#[trigger] repo_views(out@)[k].0, name@),
                ensures
                    0 <= p <= out@.len(),
                    forall|k: int| 0 <= k < p ==> chars_le(#[trigger] repo_views(out@)[k].0, name@),
                    p < out@.len() ==> !chars_le(repo_views(out@)[p as int].0, name@),
                decreases out@.len() - p,
            {
                let oc = chars_of(out[p].name.as_str());
                assert(repo_views(out@)[p as int].0 == oc@);
                if !chars_le_exec(oc.as_slice(), name.as_slice()) {
                    break;
                }
                p = p + 1;
            }
            let repo = DiscoveredRepo { name: e.name, languages: langs };
            let ghost o = out@;
            let ghost rv = repo_views(o);
            out.insert(p, repo);
            proof {
                assert(repo_views(out@) =~= rv.insert(p as int, repo@));
                vstd::seq_lib::to_multiset_insert(rv, p as int, repo@);
                vstd::seq_lib::to_multiset_build(dir_repos(es.take(idx)), repo@);
                if p < o.len() {
                    lemma_chars_le_total(rv[p as int].0, name@);
                }
                let nv = repo_views(out@);
                assert forall|i: int, j: int| 0 <= i < j < nv.len() implies chars_le(#[trigger] nv[i].0, #[trigger] nv[j].0) by {
                    if j < p {
                        assert(nv[i] == rv[i] && nv[j] == rv[j]);
                    } else if j == p {
                        assert(nv[i] == rv[i]);
                    } else if i < p {
                        assert(nv[i] == rv[i] && nv[j] == rv[j - 1]);
                    } else if i == p {
                        assert(nv[j] == rv[j - 1]);
                        lemma_chars_le_total(rv[p as int].0, name@);
                        if j - 1 > p {
                            lemma_chars_le_trans(name@, rv[p as int].0, rv[j - 1].0);
                        }
                    } else {
                        assert(nv[i] == rv[i - 1] && nv[j] == rv[j - 1]);
                    }
                }
            }
        }
    }
    assert(es.take(es.len() as int) =~= es);
    out
}

} // verus!
