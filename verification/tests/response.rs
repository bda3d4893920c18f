use mpd_client::info_map::InfoMap;
use mpd_client::response::{
    currentsong_from_response, group_records, has_current_song, is_groupable_response,
    is_list_readable, is_map_readable, list_from_response, mpdbuf_to_vec, retain_with_any_key,
    to_map,
};

fn value(m: &InfoMap, key: &str) -> Option<String> {
    m.get(key).cloned()
}

#[test]
fn to_map_reads_each_line_before_the_closing_lines() {
    let m = to_map("file: music/a.mp3\nTitle: Song A\nOK\n".to_string());
    assert_eq!(value(&m, "file"), Some("music/a.mp3".to_string()));
    assert_eq!(value(&m, "Title"), Some("Song A".to_string()));
    assert!(!m.contains_key("OK"));
}

#[test]
fn to_map_later_line_overrides_earlier() {
    let m = to_map("A: 1\nA: 2\nOK\n".to_string());
    assert_eq!(value(&m, "A"), Some("2".to_string()));
}

#[test]
fn to_map_value_stops_at_the_next_separator() {
    let m = to_map("time: 12: 34\nOK\n".to_string());
    assert_eq!(value(&m, "time"), Some("12".to_string()));
}

#[test]
fn to_map_of_bare_ok_is_empty() {
    let m = to_map("OK\n".to_string());
    assert!(!m.contains_key("OK"));
    assert!(!m.contains_key(""));
}

#[test]
fn to_map_of_empty_text_is_empty() {
    let m = to_map(String::new());
    assert!(!m.contains_key(""));
}

#[test]
fn mpdbuf_to_vec_splits_items_at_file_keys() {
    let items = mpdbuf_to_vec("file: a.mp3\nTitle: A\nfile: b.mp3\nArtist: X\nOK\n");
    assert_eq!(items.len(), 2);
    assert_eq!(value(&items[0], "file"), Some("a.mp3".to_string()));
    assert_eq!(value(&items[0], "Title"), Some("A".to_string()));
    assert!(!items[0].contains_key("Artist"));
    assert_eq!(value(&items[1], "file"), Some("b.mp3".to_string()));
    assert_eq!(value(&items[1], "Artist"), Some("X".to_string()));
}

#[test]
fn mpdbuf_to_vec_splits_directories_and_playlists() {
    let items =
        mpdbuf_to_vec("directory: rock\nLast-Modified: 1\nplaylist: mix\nfile: s.ogg\nOK\n");
    assert_eq!(items.len(), 3);
    assert_eq!(value(&items[0], "directory"), Some("rock".to_string()));
    assert_eq!(value(&items[0], "Last-Modified"), Some("1".to_string()));
    assert_eq!(value(&items[1], "playlist"), Some("mix".to_string()));
    assert_eq!(value(&items[2], "file"), Some("s.ogg".to_string()));
}

#[test]
fn mpdbuf_to_vec_matches_key_substrings() {
    // The opening pattern matches anywhere in the key, so `profile` opens an item too.
    let items = mpdbuf_to_vec("file: a\nprofile: p\nOK\n");
    assert_eq!(items.len(), 2);
    assert_eq!(value(&items[1], "profile"), Some("p".to_string()));
}

#[test]
fn mpdbuf_to_vec_of_bare_ok_is_empty() {
    let items = mpdbuf_to_vec("OK\n");
    assert_eq!(items.len(), 0);
}

#[test]
fn response_without_opening_or_closing_line_cannot_be_grouped() {
    assert!(!is_groupable_response("Title: a\n"));
    assert!(!is_groupable_response(""));
    assert!(!is_groupable_response("file: a"));
    assert!(is_groupable_response("OK\n"));
    assert!(is_groupable_response("file: a\nOK\n"));
}

#[test]
fn response_with_a_line_without_value_cannot_be_grouped() {
    assert!(!is_groupable_response("file: a\nbroken\nOK\n"));
    assert!(!is_groupable_response("file: a\nbroken OK\nOK\n"));
}

#[test]
fn group_records_follows_the_given_flags() {
    let buf = "x: 1\ny: 2\nz: 3\nend\n";
    let closes = vec![false, false, false, true];
    let opens = vec![true, false, true, false];
    let items = group_records(buf, &closes, &opens);
    assert_eq!(items.len(), 2);
    assert_eq!(value(&items[0], "x"), Some("1".to_string()));
    assert_eq!(value(&items[0], "y"), Some("2".to_string()));
    assert_eq!(value(&items[1], "z"), Some("3".to_string()));
    assert!(!items[1].contains_key("x"));
}

#[test]
fn group_records_closing_line_keeps_the_current_item() {
    let buf = "a: 1\nend\nb: 2\nend\n";
    let closes = vec![false, true, false, true];
    let opens = vec![false, false, false, false];
    let items = group_records(buf, &closes, &opens);
    assert_eq!(items.len(), 1);
    assert_eq!(value(&items[0], "a"), Some("1".to_string()));
    assert_eq!(value(&items[0], "b"), Some("2".to_string()));
}

#[test]
fn currentsong_from_response_gives_the_last_item() {
    let m = currentsong_from_response("file: x.flac\nTitle: Y\nOK\n");
    assert_eq!(value(&m, "file"), Some("x.flac".to_string()));
    assert_eq!(value(&m, "Title"), Some("Y".to_string()));
}

#[test]
fn current_song_needs_an_item() {
    assert!(!has_current_song("OK\n"));
    assert!(!has_current_song(""));
    assert!(has_current_song("file: x\nOK\n"));
}

#[test]
fn list_from_response_drops_the_first_value() {
    let values = list_from_response("Album: A\nAlbum: B\nAlbum: C\nOK\n");
    assert_eq!(values, vec!["B".to_string(), "C".to_string()]);
}

#[test]
fn list_from_response_of_short_responses_is_empty() {
    assert_eq!(list_from_response("OK\n"), Vec::<String>::new());
    assert_eq!(list_from_response("Album: A\nOK\n"), Vec::<String>::new());
    assert_eq!(list_from_response(""), Vec::<String>::new());
}

#[test]
fn list_from_response_marks_empty_lines() {
    let values = list_from_response("Album: A\n\nOK\nAlbum: B\nOK\n");
    assert_eq!(values, vec!["NL".to_string(), "OK".to_string(), "B".to_string()]);
}

#[test]
fn retain_with_any_key_keeps_matching_items_in_order() {
    let mut items =
        mpdbuf_to_vec("directory: d1\nfile: f1\nplaylist: p1\ndirectory: d2\nOK\n");
    let mut dirs = items.clone();
    retain_with_any_key(&mut dirs, &["directory"]);
    assert_eq!(dirs.len(), 2);
    assert_eq!(value(&dirs[0], "directory"), Some("d1".to_string()));
    assert_eq!(value(&dirs[1], "directory"), Some("d2".to_string()));
    retain_with_any_key(&mut items, &["file", "directory"]);
    assert_eq!(items.len(), 3);
    assert_eq!(value(&items[1], "file"), Some("f1".to_string()));
    let mut none = items.clone();
    retain_with_any_key(&mut none, &[]);
    assert_eq!(none.len(), 0);
}

#[test]
fn readability_of_one_item_answers() {
    assert!(is_map_readable("file: a\nTitle: b\nOK\n"));
    assert!(is_map_readable("file: a\nbroken\n"));
    assert!(!is_map_readable("broken\nfile: a\nOK\n"));
    assert!(is_map_readable(""));
}

#[test]
fn readability_of_list_answers() {
    assert!(is_list_readable("Album: a\n\nOK\n"));
    assert!(!is_list_readable("Album: a\nbroken\nOK\n"));
    assert!(is_list_readable(""));
}

#[test]
fn only_the_line_ok_closes_an_item() {
    let items = mpdbuf_to_vec("file: a.mp3\nAlbum: OK Computer\nOK\n");
    assert_eq!(items.len(), 1);
    assert_eq!(items[0].get("file"), Some(&"a.mp3".to_string()));
    assert_eq!(items[0].get("Album"), Some(&"OK Computer".to_string()));
    let items = mpdbuf_to_vec("file: a\nTitle: BOOK\nTitle: c\nOK\n");
    assert_eq!(items.len(), 1);
    assert_eq!(items[0].get("Title"), Some(&"c".to_string()));
}
