//! `code_search` (ripgrep) and `find_file` (fd): the planned arguments and
//! the shaping of the tools' output, over the output the tools print for a
//! fixture holding `demo/src/lib.rs` = `pub fn greet() { todo!() }`.
use tabbify_codeservice::error::CodeErrorCode;
use tabbify_codeservice::methods::search::{code_search_plan, fd_paths, parse_rg_json, rg_exit_ok, split_repo};
use tabbify_codeservice::rpc::CodeSearchReq;

const RG_OUT: &str = r#"{"type":"begin","data":{"path":{"text":"demo/src/lib.rs"}}}
{"type":"match","data":{"path":{"text":"demo/src/lib.rs"},"lines":{"text":"pub fn greet() { todo!() }\n"},"line_number":1,"absolute_offset":0,"submatches":[{"match":{"text":"greet"},"start":7,"end":12}]}}
{"type":"end","data":{"path":{"text":"demo/src/lib.rs"},"binary_offset":null,"stats":{}}}
{"data":{"elapsed_total":{"human":"0.01s","nanos":1,"secs":0},"stats":{}},"type":"summary"}
"#;

#[test]
fn code_search_finds_greet() {
    let plan = code_search_plan(&CodeSearchReq { query: "greet".into(), glob: None, max: None }).unwrap();
    assert_eq!(plan.args, vec!["--json", "--max-count", "200", "--", "greet"]);
    let matches = parse_rg_json(RG_OUT.as_bytes(), plan.max as usize);
    assert!(matches.iter().any(|m| m.repo == "demo" && m.text.contains("greet")));
    assert!(matches.iter().all(|m| !m.path.starts_with('/')));
}

#[test]
fn find_file_finds_lib_rs() {
    let paths = fd_paths(b"./demo/src/lib.rs\n");
    assert!(paths.iter().any(|p| p.ends_with("lib.rs")));
}

#[test]
fn rg_match_fields_are_shaped() {
    let m = &parse_rg_json(RG_OUT.as_bytes(), 200)[0];
    assert_eq!(m.repo, "demo");
    assert_eq!(m.path, "src/lib.rs");
    assert_eq!(m.line, 1);
    assert_eq!(m.column, Some(8));
    assert_eq!(m.text, "pub fn greet() { todo!() }");
}

#[test]
fn rg_output_stops_at_max_and_skips_noise() {
    let one = r#"{"type":"match","data":{"path":{"text":"r/a"},"lines":{"text":"x"},"line_number":2,"submatches":[]}}"#;
    let out = format!("not json\n\n{one}\n{one}\n{one}\n");
    assert_eq!(parse_rg_json(out.as_bytes(), 2).len(), 2);
    assert_eq!(parse_rg_json(out.as_bytes(), 10).len(), 3);
    let m = &parse_rg_json(out.as_bytes(), 10)[0];
    assert_eq!(m.column, None);
    assert_eq!((m.repo.as_str(), m.path.as_str(), m.line), ("r", "a", 2));
    assert!(parse_rg_json(b"", 10).is_empty());
}

#[test]
fn search_plan_with_glob_and_max() {
    let plan =
        code_search_plan(&CodeSearchReq { query: "-rf".into(), glob: Some("*.rs".into()), max: Some(5) }).unwrap();
    assert_eq!(plan.args, vec!["--json", "--max-count", "5", "--glob", "*.rs", "--", "-rf"]);
    assert_eq!(plan.max, 5);
    let e = code_search_plan(&CodeSearchReq { query: String::new(), glob: None, max: None }).unwrap_err();
    assert_eq!((e.code, e.message.as_str()), (CodeErrorCode::Invalid, "empty query"));
}

#[test]
fn rg_exit_codes() {
    assert!(rg_exit_ok(true, Some(0)));
    assert!(rg_exit_ok(false, Some(1)));
    assert!(!rg_exit_ok(false, Some(2)));
    assert!(!rg_exit_ok(false, None));
}

#[test]
fn fd_output_lines() {
    assert_eq!(fd_paths(b"./a\n././b/c\r\n\n./\nd"), vec!["a", "b/c", "d"]);
    assert!(fd_paths(b"").is_empty());
}

#[test]
fn split_repo_at_first_slash() {
    assert_eq!(split_repo("demo/src/lib.rs"), ("demo".to_string(), "src/lib.rs".to_string()));
    assert_eq!(split_repo("demo"), ("demo".to_string(), String::new()));
    assert_eq!(split_repo("/x"), (String::new(), "x".to_string()));
}

#[test]
fn rg_output_keeps_only_match_events_in_order() {
    let out = [
        r#"{"type":"begin","data":{}}"#,
        "not json",
        r#"{"type":"match","data":{"path":{"text":"demo/src/lib.rs"},"lines":{"text":"pub fn greet() {}\n"},"line_number":1,"submatches":[{"start":7,"end":12}]}}"#,
        r#"{"type":"match","data":{"path":{"text":"demo/src/b.rs"},"lines":{"text":"greet();  \n"},"line_number":4,"submatches":[{"start":0,"end":5}]}}"#,
    ]
    .join("\n");
    let all = parse_rg_json(out.as_bytes(), 200);
    assert_eq!(all.len(), 2);
    assert_eq!((all[0].repo.as_str(), all[0].path.as_str(), all[0].line, all[0].column), ("demo", "src/lib.rs", 1, Some(8)));
    assert_eq!(all[0].text, "pub fn greet() {}");
    assert_eq!((all[1].path.as_str(), all[1].line, all[1].column, all[1].text.as_str()), ("src/b.rs", 4, Some(1), "greet();"));
    let first = parse_rg_json(out.as_bytes(), 1);
    assert_eq!(first.len(), 1);
    assert_eq!(first[0].path, "src/lib.rs");
    assert_eq!(parse_rg_json(out.as_bytes(), 0).len(), 1);
}
