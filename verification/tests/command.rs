use mpd_client::command::{
    currentsong_command, find_command, list_command, lsinfo_command, playlist_command,
    playlistinfo_command,
};

#[test]
fn commands_are_written_as_lines() {
    assert_eq!(currentsong_command(), "currentsong\n");
    assert_eq!(list_command("Album"), "list Album\n");
    assert_eq!(playlistinfo_command(""), "playlistinfo \n");
    assert_eq!(playlistinfo_command("3"), "playlistinfo 3\n");
    assert_eq!(playlist_command(), "playlist\n");
    assert_eq!(find_command("artist", "Foo Bar"), "find artist \"Foo Bar\"\n");
    assert_eq!(lsinfo_command("rock/80s"), "lsinfo rock/80s\n");
}

#[test]
fn queue_commands_are_written_as_lines() {
    assert_eq!(mpd_client::command::status_command(), "status\n");
    assert_eq!(mpd_client::command::delete_command("4"), "delete 4\n");
    assert_eq!(mpd_client::command::add_command("rock/80s"), "add \"rock/80s\"\n");
}
