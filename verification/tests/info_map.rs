use mpd_client::info_map::InfoMap;

#[test]
fn info_map_get_after_insert() {
    let mut m = InfoMap::new();
    assert!(m.get("Title").is_none());
    m.insert("Title".to_string(), "A".to_string());
    m.insert("Artist".to_string(), "B".to_string());
    assert_eq!(m.get("Title"), Some(&"A".to_string()));
    m.insert("Title".to_string(), "C".to_string());
    assert_eq!(m.get("Title"), Some(&"C".to_string()));
    assert_eq!(m.get("Artist"), Some(&"B".to_string()));
    assert!(m.contains_key("Artist"));
    assert!(!m.contains_key("Album"));
}

#[test]
fn info_map_clear_and_clone() {
    let mut m = InfoMap::new();
    m.insert("file".to_string(), "x".to_string());
    let copy = m.clone();
    m.clear();
    assert!(!m.contains_key("file"));
    assert_eq!(copy.get("file"), Some(&"x".to_string()));
}
