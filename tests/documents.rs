use rir::doc::{ignore, parse_text, Cfg, Document};
use std::path::Path;

fn ignore_path(path: &str) -> bool {
    match Path::new(path).file_name() {
        Some(name) => ignore(&name.to_string_lossy()),
        None => false,
    }
}

#[test]
fn test_ignore() {
    assert!(!ignore_path("./sample_corpus"));
    assert!(ignore_path("./sample_corpus/.rircfg"));
    assert!(!ignore_path("."));
    assert!(ignore_path("./.rir"));
}

#[test]
fn test_document() {
    let doc = Document::new("content: String".to_string(), "path: String".to_string());
    assert_eq!(doc.get_content(), "content: String");
    assert_eq!(doc.get_path(), "path: String");
}

#[test]
fn test_plain_text() {
    let doc = parse_text("./sample_corpus/romeo_juliet/a/1.txt", "Do you quarrel, sir?", &Cfg::new());
    assert_eq!(doc[0].get_content(), "Do you quarrel, sir?");
    assert_eq!(doc[0].get_path(), "./sample_corpus/romeo_juliet/a/1.txt");
}

#[test]
fn cfg_defaults_and_json() {
    let cfg = Cfg::new();
    assert_eq!(cfg.get_file_type(), "text");
    assert!(!cfg.is_json());
    assert!(cfg.get_fields().is_empty());
    let json = Cfg::from_fields("JSON".to_string(), vec!["id".to_string(), "title".to_string()]);
    assert!(json.is_json());
    assert_eq!(json.get_fields(), &vec!["id".to_string(), "title".to_string()]);
    let lines = Cfg::from_fields("jsonlines".to_string(), vec![]);
    assert!(!lines.is_json());
}

#[test]
fn ignore_empty_and_plain_names() {
    assert!(!ignore(""));
    assert!(!ignore("a.txt"));
    assert!(ignore(".hidden"));
}
