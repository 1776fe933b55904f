//! Path confinement: every caller-supplied repo and path resolves under the
//! projects or knowledge root, or is refused.
use tabbify_codeservice::error::CodeErrorCode;
use std::path::{Component, Path, PathBuf};
use tabbify_codeservice::components::{has_rs_extension, strip_path_prefix};
use tabbify_codeservice::paths::{repo_root, resolve, safe_segment, Root};

fn chars(s: &str) -> Vec<char> {
    s.chars().collect()
}

#[test]
fn rejects_parent_traversal() {
    let err = resolve(Root::Projects, "myrepo", "../../etc/passwd").unwrap_err();
    assert_eq!(err.code, CodeErrorCode::Forbidden);
}

#[test]
fn repo_root_rejects_traversal_repo() {
    let err = repo_root("/home/agent/projects", "../../etc").unwrap_err();
    assert_eq!(err.code, CodeErrorCode::Forbidden);
    assert!(safe_segment("a/b").is_err());
    assert!(safe_segment("..").is_err());
    assert_eq!(safe_segment("").unwrap_err().code, CodeErrorCode::Invalid);
    assert_eq!(safe_segment("demo").unwrap(), "demo");
}

#[test]
fn rejects_absolute_escape() {
    let err = resolve(Root::Projects, "myrepo", "/etc/passwd").unwrap_err();
    assert_eq!(err.code, CodeErrorCode::Forbidden);
}

#[test]
fn accepts_in_repo_relative_path() {
    let p = resolve(Root::Projects, "myrepo", "src/lib.rs").unwrap();
    assert!(p.ends_with("home/agent/projects/myrepo/src/lib.rs"));
}

#[test]
fn knowledge_root_resolves_under_knowledge_dir() {
    let p = resolve(Root::Knowledge, "", "notes/todo.md").unwrap();
    assert!(p.ends_with("home/agent/knowledge/notes/todo.md"));
}

#[test]
fn rejects_empty_repo_for_projects() {
    let err = resolve(Root::Projects, "", "x").unwrap_err();
    assert_eq!(err.code, CodeErrorCode::Invalid);
}

#[test]
fn resolve_exact_paths() {
    assert_eq!(resolve(Root::Projects, "demo", "src/lib.rs").unwrap(), "/home/agent/projects/demo/src/lib.rs");
    assert_eq!(resolve(Root::Projects, "demo", "./src//lib.rs").unwrap(), "/home/agent/projects/demo/src/lib.rs");
    assert_eq!(resolve(Root::Projects, "demo", "").unwrap(), "/home/agent/projects/demo");
    assert_eq!(resolve(Root::Knowledge, "ignored", "a.md").unwrap(), "/home/agent/knowledge/a.md");
}

#[test]
fn dot_dot_anywhere_is_forbidden_even_when_it_stays_inside() {
    let err = resolve(Root::Projects, "demo", "src/../lib.rs").unwrap_err();
    assert_eq!(err.code, CodeErrorCode::Forbidden);
    let err = resolve(Root::Knowledge, "", "..").unwrap_err();
    assert_eq!(err.code, CodeErrorCode::Forbidden);
}

#[test]
fn traversal_repo_names_are_forbidden() {
    assert_eq!(resolve(Root::Projects, "..", "x").unwrap_err().code, CodeErrorCode::Forbidden);
    assert_eq!(resolve(Root::Projects, ".", "x").unwrap_err().code, CodeErrorCode::Forbidden);
    assert_eq!(resolve(Root::Projects, "a/b", "x").unwrap_err().code, CodeErrorCode::Forbidden);
    assert_eq!(safe_segment("...").unwrap(), "...");
}

#[test]
fn repo_root_joins_one_segment() {
    assert_eq!(repo_root("/tmp/projects", "demo").unwrap(), "/tmp/projects/demo");
    assert_eq!(repo_root("/tmp/projects/", "demo").unwrap(), "/tmp/projects/demo");
    assert_eq!(repo_root("/tmp/projects", "").unwrap_err().code, CodeErrorCode::Invalid);
}

#[test]
fn prefix_stripping() {
    let strip = |p: &str, b: &str| strip_path_prefix(&chars(p), &chars(b)).map(|v| v.iter().collect::<String>());
    assert_eq!(strip("/r/demo/src/lib.rs", "/r/demo").as_deref(), Some("src/lib.rs"));
    assert_eq!(strip("/r/demo//./src/./lib.rs/.", "/r/demo").as_deref(), Some("src/./lib.rs"));
    assert_eq!(strip("/r/demox/lib.rs", "/r/demo"), None);
    assert_eq!(strip("/usr/lib/std.rs", "/r/demo"), None);
    assert_eq!(strip("./a/b", ".").as_deref(), Some("a/b"));
    assert_eq!(strip("a/b", "./a"), None);
}

#[test]
fn prefix_stripping_agrees_with_std_path() {
    let samples = [
        "", "/", "//", ".", "./", "..", "a", "a/", "/a", "/a/", "/a/b", "/a//b", "/a/./b", "/a/b/.", "/a/b/./",
        "./a", "./a/b", ".//a", "a/./b/", "a/../b", "/a/b/c.rs", "/./a", "a/b/c", "/a/bc", "b", "/b/a", "...",
    ];
    for p in samples {
        for b in samples {
            let ours = strip_path_prefix(&chars(p), &chars(b)).map(|v| v.iter().collect::<String>());
            let std = Path::new(p).strip_prefix(b).ok().map(|r| r.to_string_lossy().into_owned());
            assert_eq!(ours, std, "strip_prefix({p:?}, {b:?})");
        }
    }
}

/// What `resolve` answers by `std::path` components: normal components are
/// appended, `.` skipped, anything else is an escape.
fn resolve_by_std(base: &str, rel: &str) -> Option<String> {
    let mut out = PathBuf::from(base);
    for c in Path::new(rel).components() {
        match c {
            Component::Normal(s) => out.push(s),
            Component::CurDir => {}
            _ => return None,
        }
    }
    Some(out.to_string_lossy().into_owned())
}

#[test]
fn resolve_agrees_with_std_components() {
    let rels = [
        "", ".", "./", "a", "a/", "a//b", "./a/./b/", "a/..", "../a", "/a", "//a", "a/.../b", "a/.b", ".a", "a/b/c.rs",
    ];
    for rel in rels {
        let ours = resolve(Root::Projects, "demo", rel).ok();
        assert_eq!(ours, resolve_by_std("/home/agent/projects/demo", rel), "resolve(demo, {rel:?})");
        let ours = resolve(Root::Knowledge, "", rel).ok();
        assert_eq!(ours, resolve_by_std("/home/agent/knowledge", rel), "resolve(knowledge, {rel:?})");
    }
}

#[test]
fn rust_source_names_agree_with_std_extension() {
    let names = ["lib.rs", "a.b.rs", ".rs", "..rs", "rs", "a.rs.bak", "a.", "..", ".", "a.RS", "x.rsx", ".hidden.rs", ""];
    for n in names {
        let std = Path::new(n).extension().map(|e| e == "rs").unwrap_or(false);
        assert_eq!(has_rs_extension(n), std, "extension of {n:?}");
    }
    assert!(has_rs_extension("main.rs"));
    assert!(!has_rs_extension(".rs"));
}
