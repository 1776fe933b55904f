//! Write methods over an in-memory fixture: the file contents a caller read
//! are handed in, and the new contents come back for the caller to write.
use tabbify_codeservice::error::CodeErrorCode;
use tabbify_codeservice::methods::edit::{
    apply_replacement, edit, edit_content, insert_after_symbol, insert_before_symbol, rename_in,
    rename_symbol, replace_symbol_body, replace_word, splice_content,
};
use tabbify_codeservice::methods::symbols::SourceFile;
use tabbify_codeservice::rpc::{
    EditReq, InsertSymbolReq, Position, Range, RenameSymbolReq, Replacement, ReplaceSymbolBodyReq,
};
use tabbify_codeservice::state::{AppState, CodeRoots};
use tabbify_codeservice::treesitter::rust_symbols;

const LIB_RS: &str = "pub fn greet() {\n    println!(\"hi\");\n}\n";

fn state() -> AppState {
    AppState::new(
        CodeRoots { projects: "/tmp/fx/projects".to_string(), knowledge: "/tmp/fx/knowledge".to_string() },
        "default".into(),
    )
}

fn demo_files() -> Vec<SourceFile> {
    vec![SourceFile { repo: "demo".into(), rel: "src/lib.rs".into(), src: LIB_RS.into() }]
}

fn repl(o: &str, n: &str) -> Replacement {
    Replacement { old_string: Some(o.into()), range: None, new_string: n.into() }
}

#[test]
fn edit_replaces_string_and_reports_changed_file() {
    let st = state();
    let (content, resp) = edit(
        &st,
        EditReq { repo: "demo".into(), path: "src/lib.rs".into(), replacements: vec![repl("hi", "hello")] },
        Some(LIB_RS.to_string()),
    )
    .unwrap();
    assert_eq!(resp.changed_files, vec!["src/lib.rs".to_string()]);
    assert!(content.contains("hello"));
}

#[test]
fn edit_creates_missing_file_on_pure_insert() {
    let st = state();
    let (content, resp) = edit(
        &st,
        EditReq {
            repo: "demo".into(),
            path: "public/index.html".into(),
            replacements: vec![Replacement {
                old_string: None,
                range: None,
                new_string: "<!doctype html>\n<h1>hi</h1>\n".into(),
            }],
        },
        None,
    )
    .unwrap();
    assert_eq!(resp.changed_files, vec!["public/index.html".to_string()]);
    assert_eq!(content, "<!doctype html>\n<h1>hi</h1>\n");
}

#[test]
fn edit_creates_missing_file_when_old_string_empty() {
    let st = state();
    let (content, _resp) = edit(
        &st,
        EditReq { repo: "demo".into(), path: "Dockerfile".into(), replacements: vec![repl("", "FROM scratch\n")] },
        None,
    )
    .unwrap();
    assert_eq!(content, "FROM scratch\n");
}

#[test]
fn edit_missing_file_with_old_string_is_not_found() {
    let st = state();
    let err = edit(
        &st,
        EditReq { repo: "demo".into(), path: "missing.rs".into(), replacements: vec![repl("foo", "bar")] },
        None,
    )
    .unwrap_err();
    assert_eq!(err.code, CodeErrorCode::NotFound);
}

#[test]
fn edit_missing_old_string_is_not_found() {
    let st = state();
    let err = edit(
        &st,
        EditReq { repo: "demo".into(), path: "src/lib.rs".into(), replacements: vec![repl("ZZZ", "x")] },
        Some(LIB_RS.to_string()),
    )
    .unwrap_err();
    assert_eq!(err.code, CodeErrorCode::NotFound);
}

#[test]
fn replace_symbol_body_swaps_function() {
    let st = state();
    let w = replace_symbol_body(
        &st,
        ReplaceSymbolBodyReq {
            repo: "demo".into(),
            symbol: "greet".into(),
            new_body: "pub fn greet() {\n    println!(\"new\");\n}".into(),
        },
        &demo_files(),
    )
    .unwrap();
    assert_eq!(w.resp.changed_files, vec!["src/lib.rs".to_string()]);
    assert!(w.content.contains("new"));
    assert_eq!(w.content, "pub fn greet() {\n    println!(\"new\");\n}");
    assert_eq!(w.path, "/tmp/fx/projects/demo/src/lib.rs");
}

#[test]
fn insert_after_symbol_appends_content() {
    let st = state();
    let w = insert_after_symbol(
        &st,
        InsertSymbolReq { repo: "demo".into(), symbol: "greet".into(), content: "\npub fn bye() {}\n".into() },
        &demo_files(),
    )
    .unwrap();
    assert!(w.content.contains("bye"));
}

#[test]
fn insert_before_symbol_prepends_line() {
    let st = state();
    let w = insert_before_symbol(
        &st,
        InsertSymbolReq { repo: "demo".into(), symbol: "greet".into(), content: "/// doc".into() },
        &demo_files(),
    )
    .unwrap();
    assert_eq!(w.content, "/// doc\npub fn greet() {\n    println!(\"hi\");\n}");
}

#[test]
fn edit_traversal_repo_is_forbidden() {
    let st = state();
    let err = edit(
        &st,
        EditReq { repo: "../../etc".into(), path: "passwd".into(), replacements: vec![repl("root", "x")] },
        Some("root:x:0:0".to_string()),
    )
    .unwrap_err();
    assert_eq!(err.code, CodeErrorCode::Forbidden);
}

#[test]
fn symbol_write_traversal_repo_is_forbidden() {
    let st = state();
    let err = replace_symbol_body(
        &st,
        ReplaceSymbolBodyReq { repo: "../../etc".into(), symbol: "greet".into(), new_body: "x".into() },
        &demo_files(),
    )
    .unwrap_err();
    assert_eq!(err.code, CodeErrorCode::Forbidden);

    let err2 = insert_after_symbol(
        &st,
        InsertSymbolReq { repo: "../../etc".into(), symbol: "greet".into(), content: "x".into() },
        &demo_files(),
    )
    .unwrap_err();
    assert_eq!(err2.code, CodeErrorCode::Forbidden);
}

#[test]
fn rename_symbol_traversal_repo_is_forbidden() {
    let st = state();
    let err = rename_symbol(
        &st,
        RenameSymbolReq {
            repo: "../../etc".into(),
            path: "passwd".into(),
            position: Position { line: 0, character: 0 },
            new_name: "x".into(),
        },
        Some("root".to_string()),
    )
    .unwrap_err();
    assert_eq!(err.code, CodeErrorCode::Forbidden);
}

#[test]
fn unknown_symbol_is_not_found() {
    let st = state();
    let err = replace_symbol_body(
        &st,
        ReplaceSymbolBodyReq { repo: "demo".into(), symbol: "nope".into(), new_body: "x".into() },
        &demo_files(),
    )
    .unwrap_err();
    assert_eq!(err.code, CodeErrorCode::NotFound);
    assert_eq!(err.message, "symbol not found");
}

#[test]
fn rename_symbol_renames_whole_words() {
    let st = state();
    let src = "fn helper() {}\nfn helper2() { helper(); }\n";
    let (content, resp) = rename_symbol(
        &st,
        RenameSymbolReq {
            repo: "demo".into(),
            path: "src/lib.rs".into(),
            position: Position { line: 0, character: 3 },
            new_name: "aid".into(),
        },
        Some(src.to_string()),
    )
    .unwrap();
    assert_eq!(content, "fn aid() {}\nfn helper2() { aid(); }\n");
    assert_eq!(resp.changed_files, vec!["src/lib.rs".to_string()]);
}

#[test]
fn rename_errors() {
    let st = state();
    let req = |line: u32, new_name: &str| RenameSymbolReq {
        repo: "demo".into(),
        path: "src/lib.rs".into(),
        position: Position { line, character: 0 },
        new_name: new_name.into(),
    };
    let e = rename_symbol(&st, req(0, "x"), None).unwrap_err();
    assert_eq!((e.code, e.message.as_str()), (CodeErrorCode::NotFound, "no such file"));
    let e = rename_symbol(&st, req(9, "x"), Some("fn a() {}\n".into())).unwrap_err();
    assert_eq!((e.code, e.message.as_str()), (CodeErrorCode::NotFound, "no symbol at position"));
    let e = rename_symbol(&st, req(0, ""), Some("fn a() {}\n".into())).unwrap_err();
    assert_eq!((e.code, e.message.as_str()), (CodeErrorCode::Invalid, "empty new_name"));
    let syms = rust_symbols("fn a() {}\n", "demo", "src/lib.rs");
    assert_eq!(rename_in("fn a() {}\n", &syms, Position { line: 0, character: 0 }, "b").unwrap(), "fn b() {}\n");
}

#[test]
fn replace_word_respects_identifier_boundaries() {
    assert_eq!(replace_word("a ab a_b ba a", "a", "z"), "z ab a_b ba z");
    assert_eq!(replace_word("foo(foo)", "foo", "bar"), "bar(bar)");
    assert_eq!(replace_word("xfoo foox", "foo", "bar"), "xfoo foox");
    assert_eq!(replace_word("", "foo", "bar"), "");
    // the inserted text is never rescanned
    assert_eq!(replace_word("a a", "a", "a a"), "a a a a");
}

#[test]
fn range_replacement_swaps_lines() {
    let r = Replacement {
        old_string: None,
        range: Some(Range { start: Position { line: 1, character: 0 }, end: Position { line: 2, character: 0 } }),
        new_string: "    println!(\"yo\");".into(),
    };
    assert_eq!(apply_replacement(LIB_RS, &r, false).unwrap(), "pub fn greet() {\n    println!(\"yo\");\n}");
    // an empty span inserts a line
    let ins = Replacement {
        old_string: None,
        range: Some(Range { start: Position { line: 1, character: 0 }, end: Position { line: 1, character: 0 } }),
        new_string: "x".into(),
    };
    assert_eq!(apply_replacement("a\nb", &ins, false).unwrap(), "a\nx\nb");
}

#[test]
fn old_string_replaces_first_occurrence_only() {
    assert_eq!(apply_replacement("x x x", &repl("x", "y"), false).unwrap(), "y x x");
    let e = apply_replacement("abc", &repl("zz", "y"), false).unwrap_err();
    assert_eq!((e.code, e.message.as_str()), (CodeErrorCode::NotFound, "old_string not found"));
}

#[test]
fn replacements_apply_in_order() {
    let rs = vec![repl("a", "b"), repl("b", "c")];
    assert_eq!(edit_content(Some("a".into()), &rs).unwrap(), "c");
    // a later failing replacement fails the whole edit
    let rs = vec![repl("a", "b"), repl("q", "c")];
    assert_eq!(edit_content(Some("a".into()), &rs).unwrap_err().code, CodeErrorCode::NotFound);
}

#[test]
fn splice_outside_the_file_is_internal() {
    let e = splice_content("one\ntwo\n", 1, 5, "x").unwrap_err();
    assert_eq!(e.code, CodeErrorCode::Internal);
    assert_eq!(splice_content("one\ntwo\n", 1, 2, "x").unwrap(), "one\nx");
}

#[test]
fn selector_rules() {
    let neither = Replacement { old_string: None, range: None, new_string: "x".into() };
    let e = apply_replacement("abc", &neither, false).unwrap_err();
    assert_eq!(e.code, CodeErrorCode::Invalid);
    assert_eq!(e.message, "exactly one of old_string / range must be set");
    assert_eq!(apply_replacement("abc", &neither, true).unwrap(), "xabc");
    let both = Replacement {
        old_string: Some("a".into()),
        range: Some(Range { start: Position { line: 0, character: 0 }, end: Position { line: 0, character: 0 } }),
        new_string: "x".into(),
    };
    assert_eq!(apply_replacement("abc", &both, false).unwrap_err().code, CodeErrorCode::Invalid);
    let bad_range = Replacement {
        old_string: None,
        range: Some(Range { start: Position { line: 3, character: 0 }, end: Position { line: 1, character: 0 } }),
        new_string: "x".into(),
    };
    let e = apply_replacement("a\nb\n", &bad_range, false).unwrap_err();
    assert_eq!((e.code, e.message.as_str()), (CodeErrorCode::Invalid, "range out of bounds"));
}

#[test]
fn missing_file_takes_several_pure_inserts() {
    let rs = vec![
        Replacement { old_string: None, range: None, new_string: "b".into() },
        Replacement { old_string: Some(String::new()), range: None, new_string: "a".into() },
    ];
    assert_eq!(edit_content(None, &rs).unwrap(), "ab");
    // an existing (even empty) file is edited, not created
    let e = edit_content(Some(String::new()), &rs).unwrap_err();
    assert_eq!(e.code, CodeErrorCode::Invalid);
}

#[test]
fn replace_word_leaves_text_without_the_word_and_self_renames_unchanged() {
    let text = "fn helper() { helpers(); _helper(); }";
    assert_eq!(replace_word(text, "absent", "x"), text);
    assert_eq!(replace_word(text, "helper", "helper"), text);
    assert_eq!(replace_word("é helper é", "helper", "aid"), "é aid é");
}

#[test]
fn renaming_back_restores_the_text() {
    let text = "fn helper() { helpers(); _helper(); helper() }\n// helper, again\n";
    let renamed = replace_word(text, "helper", "aid");
    assert_eq!(renamed, "fn aid() { helpers(); _helper(); aid() }\n// aid, again\n");
    assert_eq!(replace_word(&renamed, "aid", "helper"), text);
}

#[test]
fn empty_word_matches_nowhere_in_identifier_text() {
    assert_eq!(replace_word("abc_12", "", "x"), "abc_12");
    assert_eq!(replace_word("", "", "x"), "");
}
