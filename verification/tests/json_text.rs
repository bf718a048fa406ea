use notebook_bridge::store::{load_recent_files, updated_recent_store};

#[test]
fn escapes_written_exactly() {
    let text = updated_recent_store(
        None,
        "/di\"r\\f.nb".to_string(),
        "a\nb\tc\u{1}".to_string(),
        5,
    );
    assert_eq!(
        text,
        "[{\"path\":\"/di\\\"r\\\\f.nb\",\"name\":\"a\\nb\\tc\\u0001\",\"timestamp\":5}]"
    );
    let l = load_recent_files(Some(&text)).unwrap();
    assert_eq!(l[0].path, "/di\"r\\f.nb");
    assert_eq!(l[0].name, "a\nb\tc\u{1}");
}

#[test]
fn non_ascii_round_trip() {
    let text = updated_recent_store(
        None,
        "/тетрадь/ノート.nb".to_string(),
        "café 📓".to_string(),
        42,
    );
    let l = load_recent_files(Some(&text)).unwrap();
    assert_eq!(l[0].path, "/тетрадь/ノート.nb");
    assert_eq!(l[0].name, "café 📓");
    assert_eq!(l[0].timestamp, 42);
}

#[test]
fn largest_timestamp_round_trip() {
    let text = updated_recent_store(None, "/m.nb".to_string(), "m".to_string(), u64::MAX);
    assert!(text.contains("18446744073709551615"));
    let l = load_recent_files(Some(&text)).unwrap();
    assert_eq!(l[0].timestamp, u64::MAX);
}

#[test]
fn whitespace_and_member_order_accepted() {
    let text = " [ { \"timestamp\" : 5 ,\n\t\"name\" : \"n\" , \"path\" : \"/p\" } ] ";
    let l = load_recent_files(Some(text)).unwrap();
    assert_eq!(l.len(), 1);
    assert_eq!(l[0].path, "/p");
    assert_eq!(l[0].name, "n");
    assert_eq!(l[0].timestamp, 5);
}

#[test]
fn unicode_escapes_accepted() {
    let text = "[{\"path\":\"\\u0041\\u00e9\",\"name\":\"\\u0031\",\"timestamp\":1}]";
    let l = load_recent_files(Some(text)).unwrap();
    assert_eq!(l[0].path, "Aé");
    assert_eq!(l[0].name, "1");
}

#[test]
fn empty_array_is_empty_list() {
    let l = load_recent_files(Some("[]")).unwrap();
    assert_eq!(l.len(), 0);
    let l2 = load_recent_files(Some("  [  ]  ")).unwrap();
    assert_eq!(l2.len(), 0);
}

#[test]
fn malformed_texts_rejected() {
    let bad = [
        "",
        "[",
        "[]x",
        "[{}]",
        "[{\"path\":\"/p\",\"name\":\"n\"}]",
        "[{\"path\":\"/p\",\"path\":\"/q\",\"name\":\"n\",\"timestamp\":1}]",
        "[{\"path\":\"/p\",\"name\":\"n\",\"timestamp\":1,\"extra\":2}]",
        "[{\"path\":\"/p\",\"name\":\"n\",\"timestamp\":01}]",
        "[{\"path\":\"/p\",\"name\":\"n\",\"timestamp\":-1}]",
        "[{\"path\":\"/p\",\"name\":\"n\",\"timestamp\":1.5}]",
        "[{\"path\":\"/p\",\"name\":\"n\",\"timestamp\":18446744073709551616}]",
        "[{\"path\":\"/p\",\"name\":\"n\",\"timestamp\":\"1\"}]",
        "[{\"path\":\"/\u{1}\",\"name\":\"n\",\"timestamp\":1}]",
        "[{\"path\":\"/\\q\",\"name\":\"n\",\"timestamp\":1}]",
        "[{\"path\":\"/\\ud800x\",\"name\":\"n\",\"timestamp\":1}]",
        "[{\"path\":\"/p\",\"name\":\"n\",\"timestamp\":1},]",
        "[{\"path\":\"/p\",\"name\":\"n\",\"timestamp\":1}",
        "{\"path\":\"/p\",\"name\":\"n\",\"timestamp\":1}",
    ];
    for text in bad {
        assert!(
            load_recent_files(Some(text)).is_err(),
            "should have been rejected: {}",
            text
        );
    }
}

#[test]
fn written_text_readable_by_serde_json() {
    let t1 = updated_recent_store(
        None,
        "/di\"r\\f.nb".to_string(),
        "a\nb\u{1}é📓".to_string(),
        77,
    );
    let t2 = updated_recent_store(Some(&t1), "/other.nb".to_string(), "o".to_string(), 88);
    let v: serde_json::Value = serde_json::from_str(&t2).expect("serde_json must accept the text");
    let arr = v.as_array().expect("an array");
    assert_eq!(arr.len(), 2);
    assert_eq!(arr[0].get("path").unwrap().as_str().unwrap(), "/other.nb");
    assert_eq!(arr[0].get("name").unwrap().as_str().unwrap(), "o");
    assert_eq!(arr[0].get("timestamp").unwrap().as_u64().unwrap(), 88);
    assert_eq!(arr[1].get("path").unwrap().as_str().unwrap(), "/di\"r\\f.nb");
    assert_eq!(arr[1].get("name").unwrap().as_str().unwrap(), "a\nb\u{1}é📓");
    assert_eq!(arr[1].get("timestamp").unwrap().as_u64().unwrap(), 77);
}

#[test]
fn serde_json_text_readable_here() {
    let mut obj = serde_json::Map::new();
    obj.insert(
        "path".to_string(),
        serde_json::Value::String("/di\"r\\f.nb".to_string()),
    );
    obj.insert(
        "name".to_string(),
        serde_json::Value::String("a\nb\u{1}é📓".to_string()),
    );
    obj.insert("timestamp".to_string(), serde_json::Value::from(99u64));
    let arr = serde_json::Value::Array(vec![serde_json::Value::Object(obj)]);
    let text = serde_json::to_string(&arr).unwrap();
    let l = load_recent_files(Some(&text)).expect("serde_json's text must parse here");
    assert_eq!(l.len(), 1);
    assert_eq!(l[0].path, "/di\"r\\f.nb");
    assert_eq!(l[0].name, "a\nb\u{1}é📓");
    assert_eq!(l[0].timestamp, 99);
    let pretty = serde_json::to_string_pretty(&arr).unwrap();
    let lp = load_recent_files(Some(&pretty)).expect("pretty-printed text must parse here");
    assert_eq!(lp[0].path, "/di\"r\\f.nb");
}
