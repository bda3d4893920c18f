use mpd_client::command::{
    add_command, currentsong_command, delete_command, find_command, list_command, lsinfo_command,
    playlist_command, playlistinfo_command, status_command,
};
use mpd_client::display::to_only_filename;
use mpd_client::response::{
    group_records, is_groupable_response, list_from_response, mpdbuf_to_vec,
    retain_with_any_key, to_map,
};

#[test]
fn written_item_reads_back_as_its_map() {
    let pairs = [("file", "a/b.mp3"), ("Title", "T"), ("Track", "3"), ("Title", "U")];
    let mut text = String::new();
    for (k, v) in pairs.iter() {
        text.push_str(&format!("{}: {}\n", k, v));
    }
    text.push_str("OK\n");
    let m = to_map(text);
    assert_eq!(m.get("file"), Some(&"a/b.mp3".to_string()));
    assert_eq!(m.get("Title"), Some(&"U".to_string()));
    assert_eq!(m.get("Track"), Some(&"3".to_string()));
}

#[test]
fn written_items_read_back_in_order() {
    let text = "k: 1\nj: 2\nk: 3\nOK\n";
    let items = group_records(text, &vec![false, false, false, true], &vec![true, false, true, false]);
    assert_eq!(items.len(), 2);
    assert_eq!(items[0].get("k"), Some(&"1".to_string()));
    assert_eq!(items[0].get("j"), Some(&"2".to_string()));
    assert_eq!(items[1].get("k"), Some(&"3".to_string()));
    assert!(items[1].get("j").is_none());
}

#[test]
fn written_list_reads_back_all_but_first() {
    assert_eq!(
        list_from_response("Artist: a\nArtist: b\nArtist: c\nArtist: d\nOK\n"),
        vec!["b".to_string(), "c".to_string(), "d".to_string()]
    );
}

#[test]
fn every_command_is_one_line() {
    let commands = [
        currentsong_command(),
        list_command("Album"),
        playlistinfo_command("1"),
        playlist_command(),
        find_command("album", "X Y"),
        lsinfo_command("a/b"),
        status_command(),
        delete_command("2"),
        add_command("a/b"),
    ];
    for c in commands.iter() {
        let lines: Vec<&str> = c.split('\n').collect();
        assert_eq!(lines.len(), 2);
        assert_eq!(lines[1], "");
    }
}

#[test]
fn last_component_has_no_slash_and_ends_the_path() {
    for path in ["a/b/c", "abc", "a/", "/x", ""].iter() {
        let name = to_only_filename(&path.to_string());
        assert!(!name.contains('/'));
        assert!(path.ends_with(name.as_str()));
    }
    assert_eq!(to_only_filename(&"plain".to_string()), "plain");
}

#[test]
fn retaining_twice_keeps_the_same_items() {
    let mut once = mpdbuf_to_vec("directory: d\nfile: f\nplaylist: p\nfile: g\nOK\n");
    retain_with_any_key(&mut once, &["file"]);
    let mut twice = once.clone();
    retain_with_any_key(&mut twice, &["file"]);
    assert_eq!(once.len(), 2);
    assert_eq!(twice.len(), 2);
    assert_eq!(twice[0].get("file"), once[0].get("file"));
    assert_eq!(twice[1].get("file"), once[1].get("file"));
}

#[test]
fn cut_short_answer_loses_its_last_two_lines() {
    let full = to_map("file: a\nTitle: t\nArtist: x\nOK\n".to_string());
    let cut = to_map("file: a\nTitle: t\nArtist: x\nAlbum: y".to_string());
    let same = to_map("file: a\nTitle: t\nOK\n".to_string());
    assert!(full.contains_key("Artist"));
    assert!(!cut.contains_key("Artist") && !cut.contains_key("Album"));
    assert_eq!(cut.get("Title"), same.get("Title"));
    assert_eq!(cut.get("file"), same.get("file"));
    let nothing = to_map("file: a\nTitle: t".to_string());
    assert!(!nothing.contains_key("file") && !nothing.contains_key("Title"));
}

#[test]
fn written_response_reads_back_through_the_patterns() {
    let text = "file: a.mp3\nTitle: A\nTrack: 1\ndirectory: d\nplaylist: p\nName: n\nOK\n";
    assert!(is_groupable_response(text));
    let items = mpdbuf_to_vec(text);
    assert_eq!(items.len(), 3);
    assert_eq!(items[0].get("Track"), Some(&"1".to_string()));
    assert_eq!(items[1].get("directory"), Some(&"d".to_string()));
    assert_eq!(items[2].get("Name"), Some(&"n".to_string()));
}

#[test]
fn listing_selections_part_the_listing() {
    let text = "directory: d1\nfile: a.mp3\nTitle: A\nplaylist: p1\nfile: b.mp3\ndirectory: d2\nplaylist: p2\nOK\n";
    let all = mpdbuf_to_vec(text);
    assert_eq!(all.len(), 6);
    let mut dirs = all.clone();
    retain_with_any_key(&mut dirs, &["directory"]);
    let mut songs = all.clone();
    retain_with_any_key(&mut songs, &["file"]);
    let mut playlists = all.clone();
    retain_with_any_key(&mut playlists, &["playlist"]);
    let mut dirs_and_songs = all.clone();
    retain_with_any_key(&mut dirs_and_songs, &["file", "directory"]);
    assert_eq!(dirs.len() + songs.len(), dirs_and_songs.len());
    assert_eq!(dirs_and_songs.len() + playlists.len(), all.len());
    let without_playlists: Vec<_> =
        all.iter().filter(|m| !m.contains_key("playlist")).cloned().collect();
    assert_eq!(dirs_and_songs.len(), without_playlists.len());
    for (kept, expected) in dirs_and_songs.iter().zip(without_playlists.iter()) {
        assert_eq!(kept.get("file"), expected.get("file"));
        assert_eq!(kept.get("directory"), expected.get("directory"));
    }
    assert_eq!(dirs_and_songs[0].get("directory"), Some(&"d1".to_string()));
    assert_eq!(dirs_and_songs[1].get("Title"), Some(&"A".to_string()));
    assert_eq!(dirs_and_songs[3].get("directory"), Some(&"d2".to_string()));
}
