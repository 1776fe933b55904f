//! With no language server ready, `get_symbols_overview` and `find_symbol`
//! answer from tree-sitter, and `find_references` answers with a typed
//! error, never a fabricated empty set.
use tabbify_codeservice::error::CodeErrorCode;
use tabbify_codeservice::methods::symbols::{
    body_of, find_symbol, get_symbols_overview, parse_lsp_locations, read_symbol, references_gate,
    references_target, SourceFile,
};
use tabbify_codeservice::rpc::{FindReferencesReq, FindSymbolReq, GetSymbolsOverviewReq, Position, ReadSymbolReq};
use tabbify_codeservice::state::{AppState, CodeRoots};
use tabbify_codeservice::treesitter::rust_symbols;

const LIB_RS: &str = "pub fn greet() {}\nstruct Cfg { a: u32 }\n";

fn state() -> AppState {
    AppState::new(
        CodeRoots { projects: "/tmp/fx/projects".to_string(), knowledge: "/tmp/fx/knowledge".to_string() },
        "default".into(),
    )
}

fn files() -> Vec<SourceFile> {
    vec![SourceFile { repo: "demo".into(), rel: "src/lib.rs".into(), src: LIB_RS.into() }]
}

#[test]
fn overview_lists_symbols_via_treesitter() {
    let st = state();
    let resp = get_symbols_overview(
        &st,
        &GetSymbolsOverviewReq { repo: "demo".into(), path: "src/lib.rs".into() },
        Some(LIB_RS.to_string()),
    )
    .unwrap();
    let names: Vec<_> = resp.symbols.iter().map(|s| s.name.clone()).collect();
    assert!(names.contains(&"greet".to_string()));
    assert!(names.contains(&"Cfg".to_string()));
    // the overview omits bodies
    assert!(resp.symbols.iter().all(|s| s.body.is_none()));
}

#[test]
fn find_symbol_matches_by_name_path() {
    let resp = find_symbol(
        &files(),
        &FindSymbolReq { name_path: "greet".into(), kind: None, include_body: Some(true) },
    )
    .unwrap();
    assert_eq!(resp.symbols.len(), 1);
    assert_eq!(resp.symbols[0].name, "greet");
    assert!(resp.symbols[0].body.as_deref().unwrap().contains("greet"));
}

#[test]
fn find_references_errors_honestly_when_lsp_not_ready() {
    let st = state();
    let target = references_target(
        &st,
        &FindReferencesReq {
            repo: "demo".into(),
            path: "src/lib.rs".into(),
            position: Position { line: 0, character: 7 },
        },
        Some(LIB_RS.to_string()),
    )
    .unwrap();
    assert_eq!(target.file_uri, "file:///tmp/fx/projects/demo/src/lib.rs");
    // Either lsp-unavailable (Internal) or index-still-building (Invalid):
    // both are honest; neither is a silent empty Ok.
    for available in [false, true] {
        let err = references_gate(available, false).unwrap_err();
        assert!(matches!(err.code, CodeErrorCode::Internal | CodeErrorCode::Invalid));
    }
    assert!(references_gate(true, true).is_ok());
}

#[test]
fn overview_of_missing_or_escaping_file() {
    let st = state();
    let e = get_symbols_overview(&st, &GetSymbolsOverviewReq { repo: "demo".into(), path: "nope.rs".into() }, None)
        .unwrap_err();
    assert_eq!((e.code, e.message.as_str()), (CodeErrorCode::NotFound, "no such file"));
    let e = get_symbols_overview(
        &st,
        &GetSymbolsOverviewReq { repo: "demo".into(), path: "../x.rs".into() },
        Some(String::new()),
    )
    .unwrap_err();
    assert_eq!(e.code, CodeErrorCode::Forbidden);
}

#[test]
fn find_symbol_filters_by_kind_and_path() {
    let src = "struct Cfg;\nimpl Cfg {\n    fn new() -> Self { Cfg }\n}\nfn new() {}\n";
    let fs = vec![SourceFile { repo: "demo".into(), rel: "a.rs".into(), src: src.into() }];
    let all = find_symbol(&fs, &FindSymbolReq { name_path: "new".into(), kind: None, include_body: None }).unwrap();
    assert_eq!(all.symbols.len(), 2);
    assert!(all.symbols.iter().all(|s| s.body.is_none()));
    let by_path =
        find_symbol(&fs, &FindSymbolReq { name_path: "Cfg/new".into(), kind: None, include_body: None }).unwrap();
    assert_eq!(by_path.symbols.len(), 2);
    let classes =
        find_symbol(&fs, &FindSymbolReq { name_path: "Cfg".into(), kind: Some("class".into()), include_body: None })
            .unwrap();
    assert_eq!(classes.symbols.len(), 1);
    let e = find_symbol(&fs, &FindSymbolReq { name_path: String::new(), kind: None, include_body: None }).unwrap_err();
    assert_eq!((e.code, e.message.as_str()), (CodeErrorCode::Invalid, "empty name_path"));
}

#[test]
fn read_symbol_returns_body_at_position() {
    let st = state();
    let src = "fn a() {\n    1\n}\nfn b() {}\n";
    let r = read_symbol(
        &st,
        &ReadSymbolReq { repo: "demo".into(), path: "x.rs".into(), position: Position { line: 1, character: 0 } },
        Some(src.to_string()),
    )
    .unwrap();
    assert_eq!(r.symbol.name, "a");
    assert_eq!(r.symbol.body.as_deref(), Some("fn a() {\n    1\n}"));
    let e = read_symbol(
        &st,
        &ReadSymbolReq { repo: "demo".into(), path: "x.rs".into(), position: Position { line: 9, character: 0 } },
        Some(src.to_string()),
    )
    .unwrap_err();
    assert_eq!((e.code, e.message.as_str()), (CodeErrorCode::NotFound, "no symbol at position"));
}

#[test]
fn body_is_the_symbols_line_span() {
    let src = "// x\nfn a() {\n  1\n}\n";
    let syms = rust_symbols(src, "demo", "x.rs");
    assert_eq!(body_of(src, &syms[0]), "fn a() {\n  1\n}");
}

#[test]
fn lsp_locations_are_relativised_to_the_repo() {
    let reply: serde_json::Value = serde_json::from_str(
        r#"[
          {"uri":"file:///w/demo/src/lib.rs","range":{"start":{"line":3,"character":4},"end":{"line":3,"character":10}}},
          {"uri":"file:///rust/lib/std.rs","range":{"start":{"line":1,"character":0},"end":{"line":1,"character":1}}},
          {"uri":"file:///w/demo/a.rs","range":{}}
        ]"#,
    )
    .unwrap();
    let locs = parse_lsp_locations(&reply, "demo", "/w/demo");
    assert_eq!(locs.len(), 2);
    assert_eq!(locs[0].repo, "demo");
    assert_eq!(locs[0].path, "src/lib.rs");
    assert_eq!((locs[0].range.start.line, locs[0].range.start.character), (3, 4));
    assert_eq!(locs[0].range.end.character, 10);
    assert_eq!(locs[1].path, "a.rs");
    assert_eq!(locs[1].range.end.line, 0);
    let not_array: serde_json::Value = serde_json::from_str("null").unwrap();
    assert!(parse_lsp_locations(&not_array, "demo", "/w/demo").is_empty());
}
