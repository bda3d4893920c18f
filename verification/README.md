# mpd_client

A small client for the Music Player Daemon (MPD). The library in `src/`
builds the command lines sent to the server and reads its answers, with
Verus contracts and proofs:

- `command`: the command lines (`currentsong`, `list`, `playlistinfo`, ...).
- `response`: reading answers — a one-item answer into a map (`to_map`),
  a multi-item answer into a list of maps (`mpdbuf_to_vec`, `group_records`),
  a `list` answer into its values, and keeping items by key.
- `info_map`: the string map that holds one item.
- `pattern`: regular-expression matching through the `regex` crate.
- `display`: what the playlist and music-directory views show.
- `text`: the split rule of `str::split` and the loops that compute it.
- `laws`: what reading back a written answer gives.

`app/` holds the GTK window and the TCP connection.
