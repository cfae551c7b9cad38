use jfp::jsonl::{export_text, import_text, render_export, MetaInfo};
use jfp::prompt::Prompt;
use jfp::store::Store;
use jfp::store::SCHEMA_VERSION;

fn chars_to_string(v: &Vec<char>) -> String {
    v.iter().collect()
}

#[test]
fn test_export_import_roundtrip() {
    let mut db = Store::new();
    let prompts = vec![
        Prompt::new("test-1", "Test One", "Content one"),
        Prompt::new("test-2", "Test Two", "Content two"),
    ];
    db.bulk_upsert_prompts(&prompts);

    let (text, exported) = export_text(&db);
    assert_eq!(exported, 2);
    assert!(!text.is_empty());

    let mut db2 = Store::new();
    let imported = import_text(&mut db2, &text).unwrap();
    assert_eq!(imported, 2);

    let loaded = db2.list_prompts();
    assert_eq!(loaded.len(), 2);
    assert!(loaded.iter().any(|p| p.id == "test-1"));
    assert!(loaded.iter().any(|p| p.id == "test-2"));
}

#[test]
fn test_export_creates_metadata_header() {
    let db = Store::new();
    let (content, _) = export_text(&db);
    let first_line = content.lines().next().expect("missing JSONL metadata header");
    assert!(first_line.contains("\"_meta\""));
    assert!(first_line.contains("\"exported_at\""));
}

#[test]
fn test_import_does_not_skip_first_prompt_with_meta_in_content() {
    let first_prompt = Prompt::new(
        "first",
        "First",
        r#"content mentioning "_meta" should still import"#,
    );
    let second_prompt = Prompt::new("second", "Second", "second content");
    let first_line = chars_to_string(&jfp::codec::encode_prompt_line(&first_prompt));
    let second_line = chars_to_string(&jfp::codec::encode_prompt_line(&second_prompt));
    let text = format!("{}\n{}\n", first_line, second_line);

    let mut db = Store::new();
    let imported = import_text(&mut db, &text).unwrap();
    assert_eq!(imported, 2);

    let loaded = db.list_prompts();
    assert!(loaded.iter().any(|p| p.id == "first"));
    assert!(loaded.iter().any(|p| p.id == "second"));
}

#[test]
fn test_export_can_replace_existing_jsonl_file() {
    let mut db = Store::new();
    db.bulk_upsert_prompts(&vec![Prompt::new("first", "First", "first content")]);
    let (destination, _) = export_text(&db);
    assert!(!destination.is_empty());

    db.bulk_upsert_prompts(&vec![Prompt::new("second", "Second", "second content")]);
    let (destination, exported) = export_text(&db);
    assert_eq!(exported, 2);

    let mut imported_db = Store::new();
    let imported = import_text(&mut imported_db, &destination).unwrap();
    assert_eq!(imported, 2);
}

#[test]
fn metadata_only_file_imports_zero_records() {
    let meta = MetaInfo {
        version: "1".to_string(),
        count: 0,
        exported_at: "2024-01-01T00:00:00+00:00".to_string(),
        schema_version: SCHEMA_VERSION,
    };
    let text = render_export(&Vec::new(), &meta);
    let mut db = Store::new();
    let imported = import_text(&mut db, &text).unwrap();
    assert_eq!(imported, 0);
    assert_eq!(db.list_prompts().len(), 0);
}

#[test]
fn unparsable_line_aborts_whole_import() {
    let mut db = Store::new();
    db.bulk_upsert_prompts(&vec![Prompt::new("keep", "Keep", "kept content")]);
    let good = chars_to_string(&jfp::codec::encode_prompt_line(&Prompt::new(
        "new", "New", "new content",
    )));
    let text = format!("{}\n\nnot json at all\n", good);
    let err = import_text(&mut db, &text).unwrap_err();
    assert_eq!(err.line, 3);
    let loaded = db.list_prompts();
    assert_eq!(loaded.len(), 1);
    assert_eq!(loaded[0].id, "keep");
    assert_eq!(loaded[0].content, "kept content");
}

#[test]
fn example_export_of_two_records() {
    let mut db = Store::new();
    db.bulk_upsert_prompts(&vec![
        Prompt::new("a", "A", "x"),
        Prompt::new("b", "B", "y"),
    ]);
    let (text, exported) = export_text(&db);
    assert_eq!(exported, 2);

    let lines: Vec<&str> = text.lines().collect();
    assert_eq!(lines.len(), 3);
    let mut ids = Vec::new();
    for line in &lines[1..] {
        let v: serde_json::Value = serde_json::from_str(line).unwrap();
        ids.push(v["id"].as_str().unwrap().to_string());
    }
    ids.sort();
    assert_eq!(ids, vec!["a".to_string(), "b".to_string()]);

    let mut db2 = Store::new();
    let imported = import_text(&mut db2, &text).unwrap();
    assert_eq!(imported, 2);
    assert_eq!(db2.list_prompts().len(), 2);
}

#[test]
fn escapes_round_trip_through_the_file() {
    let mut nasty = Prompt::new(
        "weird",
        "Quotes \" and \\ backslash",
        "line one\nline two\ttabbed\r\u{1}\u{8}\u{c} control, caf\u{e9} \u{1F600}",
    );
    nasty.description = Some("desc with \"_meta\" inside".to_string());
    nasty.category = Some("cat/slash".to_string());
    nasty.tags = vec!["x".to_string(), "tag two".to_string()];
    let mut db = Store::new();
    db.bulk_upsert_prompts(&vec![nasty]);
    let (text, _) = export_text(&db);

    let mut db2 = Store::new();
    assert_eq!(import_text(&mut db2, &text).unwrap(), 1);
    let loaded = db2.list_prompts();
    assert_eq!(loaded[0].title, "Quotes \" and \\ backslash");
    assert_eq!(
        loaded[0].content,
        "line one\nline two\ttabbed\r\u{1}\u{8}\u{c} control, caf\u{e9} \u{1F600}"
    );
    assert_eq!(loaded[0].description.as_deref(), Some("desc with \"_meta\" inside"));
    assert_eq!(loaded[0].category.as_deref(), Some("cat/slash"));
    assert_eq!(loaded[0].tags, vec!["x".to_string(), "tag two".to_string()]);
}

#[test]
fn record_encoding_matches_the_reference_json_encoder() {
    let mut p = Prompt::new("id-1", "A \"title\"", "body\nwith\tescapes \u{1f}");
    p.tags = vec!["one".to_string()];
    let line = chars_to_string(&jfp::codec::encode_prompt_line(&p));

    let mut obj = serde_json::Map::new();
    obj.insert("id".to_string(), serde_json::Value::String("id-1".to_string()));
    obj.insert("title".to_string(), serde_json::Value::String("A \"title\"".to_string()));
    obj.insert(
        "content".to_string(),
        serde_json::Value::String("body\nwith\tescapes \u{1f}".to_string()),
    );
    obj.insert("description".to_string(), serde_json::Value::Null);
    obj.insert("category".to_string(), serde_json::Value::Null);
    obj.insert(
        "tags".to_string(),
        serde_json::Value::Array(vec![serde_json::Value::String("one".to_string())]),
    );
    let reference = serde_json::to_string(&serde_json::Value::Object(obj)).unwrap();
    assert_eq!(line, reference);
}

#[test]
fn bulk_upsert_overwrites_by_id() {
    let mut db = Store::new();
    db.bulk_upsert_prompts(&vec![Prompt::new("dup", "Old", "old body")]);
    db.bulk_upsert_prompts(&vec![Prompt::new("dup", "New", "new body")]);
    let loaded = db.list_prompts();
    assert_eq!(loaded.len(), 1);
    assert_eq!(loaded[0].title, "New");
}

#[test]
fn data_version_marker_moves_on_import_only_on_success() {
    let mut db = Store::new();
    assert!(db.get_meta("data_version").is_none());
    assert!(import_text(&mut db, "garbage\n").is_err());
    assert!(db.get_meta("data_version").is_none());
    let meta = MetaInfo {
        version: "seed".to_string(),
        count: 0,
        exported_at: "2024-01-01T00:00:00+00:00".to_string(),
        schema_version: SCHEMA_VERSION,
    };
    let text = render_export(&Vec::new(), &meta);
    import_text(&mut db, &text).unwrap();
    assert!(db.get_meta("data_version").is_some());
}

#[test]
fn store_metadata_table_get_set() {
    let mut db = Store::new();
    db.set_meta("alpha", "1");
    db.set_meta("beta", "2");
    db.set_meta("alpha", "3");
    assert_eq!(db.get_meta("alpha").as_deref(), Some("3"));
    assert_eq!(db.get_meta("beta").as_deref(), Some("2"));
    assert!(db.get_meta("gamma").is_none());
}

#[test]
fn header_count_mismatch_is_not_checked_but_shape_is() {
    let mut db = Store::new();
    let text = "{\"_meta\":{\"version\":\"v\",\"count\":0,\"exported_at\":\"t\",\"schema_version\":1}}\n";
    assert_eq!(import_text(&mut db, text).unwrap(), 0);
    let bad_header = "{\"_meta\":{\"version\":\"v\"}}\n";
    let err = import_text(&mut db, bad_header).unwrap_err();
    assert_eq!(err.line, 1);
}
