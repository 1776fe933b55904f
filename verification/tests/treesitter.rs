//! tree-sitter extracts top-level Rust symbols without a language server:
//! the fallback that answers `find_symbol`/`get_symbols_overview` while the
//! index is building.
use tabbify_codeservice::treesitter::rust_symbols;

#[test]
fn extracts_fn_and_struct() {
    let src = "pub fn greet() {}\nstruct Cfg { a: u32 }\nimpl Cfg { fn new() -> Self { Cfg{a:0} } }\n";
    let syms = rust_symbols(src, "demo", "src/lib.rs");
    let names: Vec<_> = syms.iter().map(|s| s.name.as_str()).collect();
    assert!(names.contains(&"greet"));
    assert!(names.contains(&"Cfg"));
    // The impl method is a child of the impl block (name_path carries it).
    assert!(syms.iter().any(|s| s.name_path == "Cfg/new" || s.name == "new"));
}

#[test]
fn carries_location_repo_and_path() {
    let src = "fn only() {}\n";
    let syms = rust_symbols(src, "myrepo", "a/b.rs");
    assert_eq!(syms[0].location.repo, "myrepo");
    assert_eq!(syms[0].location.path, "a/b.rs");
}

#[test]
fn kinds_lines_and_impl_methods() {
    let src = "pub fn greet() {\n    1;\n}\nstruct Cfg { a: u32 }\nimpl Cfg {\n    fn new() -> Self { Cfg{a:0} }\n}\n";
    let syms = rust_symbols(src, "demo", "src/lib.rs");
    let greet = syms.iter().find(|s| s.name == "greet").unwrap();
    assert_eq!(greet.kind, "function");
    assert_eq!(greet.name_path, "greet");
    assert_eq!(greet.location.range.start.line, 0);
    assert_eq!(greet.location.range.end.line, 2);
    let cfg = syms.iter().find(|s| s.name == "Cfg" && s.kind == "class").unwrap();
    assert_eq!(cfg.location.range.start.line, 3);
    let new = syms.iter().find(|s| s.name_path == "Cfg/new").unwrap();
    assert_eq!(new.kind, "function");
    assert_eq!(new.location.range.start.line, 5);
    assert!(syms.iter().all(|s| s.body.is_none() && s.children.is_empty()));
}

#[test]
fn empty_source_has_no_symbols() {
    assert!(rust_symbols("", "demo", "x.rs").is_empty());
    assert!(rust_symbols("// only a comment\n", "demo", "x.rs").is_empty());
}
