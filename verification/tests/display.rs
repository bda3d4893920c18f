use mpd_client::display::{
    cover_path, deletion_positions, directory_row, extend_joined, noimage_path, playlist_row,
    to_only_filename, DirectoryRow,
};
use mpd_client::info_map::InfoMap;

fn info(pairs: &[(&str, &str)]) -> InfoMap {
    let mut m = InfoMap::new();
    for (k, v) in pairs {
        m.insert(k.to_string(), v.to_string());
    }
    m
}

#[test]
fn to_only_filename_keeps_the_last_component() {
    assert_eq!(to_only_filename(&"rock/80s/song.mp3".to_string()), "song.mp3");
    assert_eq!(to_only_filename(&"song.mp3".to_string()), "song.mp3");
    assert_eq!(to_only_filename(&"rock/".to_string()), "");
    assert_eq!(to_only_filename(&String::new()), "");
}

#[test]
fn playlist_row_prefers_the_title() {
    let row = playlist_row(&info(&[("file", "a/b.mp3"), ("Title", "T"), ("Artist", "X")]));
    assert_eq!(row.title, "T");
    assert_eq!(row.artist, "X");
    assert_eq!(row.album, "");
}

#[test]
fn playlist_row_falls_back_to_the_file_name() {
    let row = playlist_row(&info(&[("file", "a/b.mp3"), ("Album", "L")]));
    assert_eq!(row.title, "b.mp3");
    assert_eq!(row.artist, "");
    assert_eq!(row.album, "L");
}

#[test]
fn directory_row_tells_directories_songs_and_others_apart() {
    match directory_row(&info(&[("directory", "rock/80s")])) {
        DirectoryRow::Directory { path, name } => {
            assert_eq!(path, "rock/80s");
            assert_eq!(name, "80s");
        }
        _ => panic!("expected a directory"),
    }
    match directory_row(&info(&[("file", "rock/x.ogg"), ("Artist", "A"), ("Album", "B")])) {
        DirectoryRow::Song { name, artist, album } => {
            assert_eq!(name, "x.ogg");
            assert_eq!(artist, "A");
            assert_eq!(album, "B");
        }
        _ => panic!("expected a song"),
    }
    assert!(matches!(directory_row(&info(&[("playlist", "mix")])), DirectoryRow::Other));
}

#[test]
fn deletion_positions_move_forward() {
    assert_eq!(deletion_positions(&vec![2, 5, 7]), vec![2, 4, 5]);
    assert_eq!(deletion_positions(&vec![0, 1, 2]), vec![0, 0, 0]);
    assert_eq!(deletion_positions(&vec![]), Vec::<i32>::new());
}

#[test]
fn deletion_positions_remove_the_selected_rows() {
    let mut rows = vec!["a", "b", "c", "d", "e", "f", "g", "h"];
    for p in deletion_positions(&vec![2, 5, 7]) {
        rows.remove(p as usize);
    }
    assert_eq!(rows, vec!["a", "b", "d", "e", "g"]);
}

#[test]
fn extend_joined_builds_paths() {
    let first = extend_joined(&String::new(), "/", "rock");
    assert_eq!(first, "rock");
    let second = extend_joined(&first, "/", "80s");
    assert_eq!(second, "rock/80s");
    assert_eq!(extend_joined(&"0".to_string(), ":", "3"), "0:3");
}

#[test]
fn cover_paths_live_in_the_cache() {
    assert_eq!(cover_path("/home/u", "Abbey Road"), "/home/u/.cache/mpd_client/cover/Abbey Road.png");
    assert_eq!(noimage_path("/home/u"), "/home/u/.cache/mpd_client/cover/noimage.png");
}
