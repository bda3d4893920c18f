//! The command lines that the client sends to the server.

use vstd::prelude::*;

verus! {

/// The command asking for the song being played.
pub fn currentsong_command() -> (s: String)
    ensures
        s@ == "currentsong\n"@,
{
    String::from_str("currentsong\n")
}

/// The command listing every value of a tag (such as `Album`).
pub fn list_command(filter: &str) -> (s: String)
    ensures
        s@ == "list "@ + filter@ + "\n"@,
{
    let mut s = String::from_str("list ");
    s.append(filter);
    s.append("\n");
    s
}

/// The command asking for the songs of the queue (all of them when `songpos` is empty).
pub fn playlistinfo_command(songpos: &str) -> (s: String)
    ensures
        s@ == "playlistinfo "@ + songpos@ + "\n"@,
{
    let mut s = String::from_str("playlistinfo ");
    s.append(songpos);
    s.append("\n");
    s
}

/// The command asking for the files of the queue.
pub fn playlist_command() -> (s: String)
    ensures
        s@ == "playlist\n"@,
{
    String::from_str("playlist\n")
}

/// The command searching the database for songs whose tag `filter` is exactly `uri`.
pub fn find_command(filter: &str, uri: &str) -> (s: String)
    ensures
        s@ == "find "@ + filter@ + " \""@ + uri@ + "\"\n"@,
{
    let mut s = String::from_str("find ");
    s.append(filter);
    s.append(" \"");
    s.append(uri);
    s.append("\"\n");
    s
}

/// The command listing the contents of a directory of the database.
pub fn lsinfo_command(path: &str) -> (s: String)
    ensures
        s@ == "lsinfo "@ + path@ + "\n"@,
{
    let mut s = String::from_str("lsinfo ");
    s.append(path);
    s.append("\n");
    s
}

/// The command asking for the player's status (state, elapsed time, volume).
pub fn status_command() -> (s: String)
    ensures
        s@ == "status\n"@,
{
    String::from_str("status\n")
}

/// The command removing the song at `songpos` from the queue.
pub fn delete_command(songpos: &str) -> (s: String)
    ensures
        s@ == "delete "@ + songpos@ + "\n"@,
{
    let mut s = String::from_str("delete ");
    s.append(songpos);
    s.append("\n");
    s
}

/// The command appending the file or directory `uri` to the queue.
pub fn add_command(uri: &str) -> (s: String)
    ensures
        s@ == "add \""@ + uri@ + "\"\n"@,
{
    let mut s = String::from_str("add \"");
    s.append(uri);
    s.append("\"\n");
    s
}

} // verus!
