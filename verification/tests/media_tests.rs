use transcript_align::json::Json;
use transcript_align::json::find_objects_with_key;
use transcript_align::media::extract_media_path;

#[test]
fn extracts_media_path_from_line() {
    let line = br#"    "mp4_s3_path": "https://bucket/recording.mp4","#;
    let path = extract_media_path(line).unwrap();
    assert_eq!(path, b"https://bucket/recording.mp4".to_vec());
}

#[test]
fn empty_line_yields_nothing() {
    assert!(extract_media_path(b"").is_none());
}

#[test]
fn line_without_key_yields_nothing() {
    let line = br#"    "other_field": "https://bucket/recording.mp4","#;
    assert!(extract_media_path(line).is_none());
}

#[test]
fn line_without_separator_yields_nothing() {
    let line = b"mp4_s3_path";
    assert!(extract_media_path(line).is_none());
}

#[test]
fn value_stops_at_next_separator() {
    // The value is the second piece of the split, so a later ": " cuts it off.
    let line = br#""mp4_s3_path": "a.mp4", "note": "x""#;
    let path = extract_media_path(line).unwrap();
    assert_eq!(path, br#"a.mp4", "note"#.to_vec());
}

#[test]
fn trims_quotes_and_commas_only_at_the_ends() {
    let line = br#""mp4_s3_path": ",,"s3://a/b.mp4"","#;
    let path = extract_media_path(line).unwrap();
    assert_eq!(path, b"s3://a/b.mp4".to_vec());
}

#[test]
fn find_objects_collects_depth_first() {
    let inner = Json::Obj(vec![
        ("word".to_string(), Json::Str("deep".to_string())),
    ]);
    let mid = Json::Obj(vec![
        ("word".to_string(), Json::Str("mid".to_string())),
        ("children".to_string(), Json::Arr(vec![inner])),
    ]);
    let doc = Json::Obj(vec![
        ("head".to_string(), Json::Null),
        ("items".to_string(), Json::Arr(vec![mid, Json::Obj(vec![
            ("word".to_string(), Json::Str("last".to_string())),
        ])])),
    ]);
    let mut found: Vec<&Json> = Vec::new();
    find_objects_with_key(&doc, &"word".to_string(), &mut found);
    let texts: Vec<String> = found
        .iter()
        .map(|node| match node {
            Json::Obj(fields) => match fields.iter().find(|(k, _)| k.as_str() == "word") {
                Some((_, Json::Str(s))) => s.clone(),
                _ => panic!("missing word"),
            },
            _ => panic!("not an object"),
        })
        .collect();
    assert_eq!(texts, vec!["mid".to_string(), "deep".to_string(), "last".to_string()]);
}

#[test]
fn objects_without_key_are_not_collected() {
    let doc = Json::Obj(vec![(
        "items".to_string(),
        Json::Arr(vec![Json::Obj(vec![("other".to_string(), Json::Num(1))]), Json::Num(2)]),
    )]);
    let mut found: Vec<&Json> = Vec::new();
    find_objects_with_key(&doc, &"word".to_string(), &mut found);
    assert!(found.is_empty());
}
