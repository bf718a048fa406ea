use notebook_bridge::recent::{RecentFile, add_entry};
use notebook_bridge::store::{
    load_recent_files, updated_recent_store, recent_store_file_name, notebooks_dir_name,
};

fn entry(path: &str, name: &str, timestamp: u64) -> RecentFile {
    RecentFile { path: path.to_string(), name: name.to_string(), timestamp }
}

#[test]
fn missing_store_is_empty() {
    let r = load_recent_files(None);
    let l = r.expect("a missing store must read as an empty list");
    assert_eq!(l.len(), 0);
}

#[test]
fn first_recording_exact_text() {
    let text = updated_recent_store(None, "/a/x.nb".to_string(), "x".to_string(), 1000);
    assert_eq!(text, "[{\"path\":\"/a/x.nb\",\"name\":\"x\",\"timestamp\":1000}]");
}

#[test]
fn recording_scenario_dedups_and_orders() {
    let t1 = updated_recent_store(None, "/a/x.nb".to_string(), "x".to_string(), 1000);
    let t2 = updated_recent_store(Some(&t1), "/a/y.nb".to_string(), "y".to_string(), 2000);
    let t3 = updated_recent_store(Some(&t2), "/a/x.nb".to_string(), "x2".to_string(), 3000);
    let l = load_recent_files(Some(&t3)).expect("a store the bridge wrote must parse");
    assert_eq!(l.len(), 2);
    assert_eq!(l[0].path, "/a/x.nb");
    assert_eq!(l[0].name, "x2");
    assert_eq!(l[0].timestamp, 3000);
    assert_eq!(l[1].path, "/a/y.nb");
    assert_eq!(l[1].name, "y");
    assert_eq!(l[1].timestamp, 2000);
}

#[test]
fn recording_same_path_twice_keeps_one() {
    let t1 = updated_recent_store(None, "/n.nb".to_string(), "first".to_string(), 1);
    let t2 = updated_recent_store(Some(&t1), "/n.nb".to_string(), "second".to_string(), 2);
    let l = load_recent_files(Some(&t2)).unwrap();
    assert_eq!(l.len(), 1);
    assert_eq!(l[0].path, "/n.nb");
    assert_eq!(l[0].name, "second");
    assert_eq!(l[0].timestamp, 2);
}

#[test]
fn capacity_caps_at_ten_most_recent_first() {
    let mut text: Option<String> = None;
    for i in 0..15u64 {
        let t = updated_recent_store(
            text.as_deref(),
            format!("/f{}.nb", i),
            format!("f{}", i),
            1000 + i,
        );
        text = Some(t);
    }
    let l = load_recent_files(text.as_deref()).unwrap();
    assert_eq!(l.len(), 10);
    for k in 0..10u64 {
        let want = 14 - k;
        assert_eq!(l[k as usize].path, format!("/f{}.nb", want));
        assert_eq!(l[k as usize].name, format!("f{}", want));
        assert_eq!(l[k as usize].timestamp, 1000 + want);
    }
}

#[test]
fn malformed_store_errors_on_load() {
    let e = load_recent_files(Some("not json at all")).unwrap_err();
    assert_eq!(e.message(), "Failed to parse recent files");
}

#[test]
fn malformed_store_tolerated_on_recording() {
    let t = updated_recent_store(Some("{broken"), "/p.nb".to_string(), "p".to_string(), 7);
    let l = load_recent_files(Some(&t)).unwrap();
    assert_eq!(l.len(), 1);
    assert_eq!(l[0].path, "/p.nb");
}

#[test]
fn add_entry_in_memory_dedups() {
    let list = vec![entry("/a", "a", 1), entry("/b", "b", 2), entry("/c", "c", 3)];
    let out = add_entry(&list, "/b".to_string(), "bb".to_string(), 9);
    assert_eq!(out.len(), 3);
    assert_eq!(out[0].path, "/b");
    assert_eq!(out[0].name, "bb");
    assert_eq!(out[0].timestamp, 9);
    assert_eq!(out[1].path, "/a");
    assert_eq!(out[2].path, "/c");
}

#[test]
fn add_entry_in_memory_truncates() {
    let mut list = Vec::new();
    for i in 0..10 {
        list.push(entry(&format!("/{}", i), "n", i as u64));
    }
    let out = add_entry(&list, "/new".to_string(), "new".to_string(), 99);
    assert_eq!(out.len(), 10);
    assert_eq!(out[0].path, "/new");
    assert_eq!(out[9].path, "/8");
}

#[test]
fn fixed_names() {
    assert_eq!(recent_store_file_name(), "recent_files.json");
    assert_eq!(notebooks_dir_name(), "Tangent Notebooks");
}
