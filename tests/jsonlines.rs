use rir::doc::Cfg;
use rir::jsonlines::parse_jsonlines;

fn cfg_from_yaml(cfg_str: &str) -> Cfg {
    let value: serde_yaml::Value = serde_yaml::from_str(cfg_str).unwrap();
    let file_type = value["file_type"].as_str().unwrap().to_string();
    let fields = value["fields"]
        .as_sequence()
        .unwrap()
        .iter()
        .map(|f| f.as_str().unwrap().to_string())
        .collect();
    Cfg::from_fields(file_type, fields)
}

#[test]
fn test_parse_jsonlines_string() {
    let cfg_str = "file_type: json
fields:
  - id
  - url
  - title
  - text
";
    let cfg = cfg_from_yaml(cfg_str);
    let text = r#"

        {"id": "1", "url": "https://someurl/1", "title": "line1", "text": "line1 content"}
        {"id": "2", "url": "https://someurl/2", "title": "line2", "text": "line2 content"}

        "#;
    let docs = parse_jsonlines("some path", text, &cfg);
    assert_eq!(docs.len(), 2);
    let c0 = docs[0].get_content();
    assert_eq!(c0, "1https://someurl/1line1line1 content");
    let c1 = docs[1].get_content();
    assert_eq!(c1, "2https://someurl/2line2line2 content");
    assert_eq!(docs[0].get_path(), "some path:3");
    assert_eq!(docs[1].get_path(), "some path:4");
}

#[test]
fn jsonlines_numbers_past_nine_and_field_case() {
    let cfg = Cfg::from_fields("jsonlines".to_string(), vec!["Title".to_string(), "missing".to_string(), "n".to_string()]);
    let mut text = String::new();
    for i in 1..=12 {
        if i == 5 {
            text.push_str("not json\n");
        } else {
            text.push_str(&format!("{{\"title\": \"t{}\", \"n\": {}}}\r\n", i, i));
        }
    }
    let docs = parse_jsonlines("f", &text, &cfg);
    assert_eq!(docs.len(), 11);
    assert_eq!(docs[0].get_content(), "t1");
    assert_eq!(docs[4].get_path(), "f:6");
    assert_eq!(docs[10].get_path(), "f:12");
    assert_eq!(docs[10].get_content(), "t12");
}

#[test]
fn json_file_is_one_document() {
    let cfg = Cfg::from_fields("json".to_string(), vec!["title".to_string(), "text".to_string()]);
    let docs = rir::jsonlines::parse_json("wiki_1", r#"{"title": "数学", "text": " body", "id": 3}"#, &cfg);
    assert_eq!(docs.len(), 1);
    assert_eq!(docs[0].get_content(), "数学 body");
    assert_eq!(docs[0].get_path(), "wiki_1");
    assert!(rir::jsonlines::parse_json("bad", "{not json", &cfg).is_empty());
}

#[test]
fn jsonlines_numbers_from_one_and_tenth_line() {
    let cfg = Cfg::from_fields("jsonlines".to_string(), vec!["a".to_string()]);
    let mut text = String::new();
    for i in 0..10 {
        text.push_str(&format!("{{\"a\": \"{}\"}}\n", i));
    }
    let docs = parse_jsonlines("p", &text, &cfg);
    assert_eq!(docs.len(), 10);
    assert_eq!(docs[0].get_path(), "p:1");
    assert_eq!(docs[9].get_path(), "p:10");
    assert_eq!(docs[9].get_content(), "9");
}
