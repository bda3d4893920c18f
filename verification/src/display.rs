//! What the playlist and music-directory views show of the items the server
//! returns.

use vstd::prelude::*;

use crate::info_map::InfoMap;
use crate::text::{
    chars_of, find_from, free_of, lemma_find_from, lemma_split_nonempty, occurs_at, rows_of,
    split_chars, split_on, string_of,
};

verus! {

/// The separator between the components of a path.
pub open spec fn path_separator() -> Seq<char> {
    seq!['/']
}

/// The last component of a path: what follows its last `/` (all of it when
/// it has none).
pub open spec fn last_component(path: Seq<char>) -> Seq<char> {
    split_on(path, path_separator()).last()
}

/// The last component of a path holds no `/` and ends the path; a path
/// without `/` is its own last component.
pub proof fn law_last_component(path: Seq<char>)
    ensures
        free_of(last_component(path), path_separator()),
        last_component(path).len() <= path.len(),
        path.skip(path.len() - last_component(path).len()) == last_component(path),
        free_of(path, path_separator()) ==> last_component(path) == path,
        !free_of(path, path_separator()) ==> path == path.take(
            path.len() - last_component(path).len() - 1,
        ) + path_separator() + last_component(path),
    decreases path.len(),
{
    let sep = path_separator();
    lemma_find_from(path, sep, 0);
    match find_from(path, sep, 0) {
        None => {
            assert forall|j: int| !#[trigger] occurs_at(path, sep, j) by {}
            assert(path.skip(0) =~= path);
        },
        Some(i) => {
            let rest = path.skip(i + 1);
            law_last_component(rest);
            lemma_split_nonempty(rest, sep);
            let tail = split_on(rest, sep);
            assert((seq![path.take(i)] + tail).last() == tail.last());
            let lc = tail.last();
            assert(path.skip(path.len() - lc.len()) =~= rest.skip(rest.len() - lc.len()));
            assert(occurs_at(path, sep, i));
            assert(path[i] == '/') by {
                assert(path.subrange(i, i + 1)[0] == path[i]);
            }
            if free_of(rest, sep) {
                assert(lc == rest);
                assert(path =~= path.take(i) + sep + rest);
                assert(path.take(path.len() - lc.len() - 1) =~= path.take(i));
            } else {
                let front = rest.take(rest.len() - lc.len() - 1);
                assert(rest == front + sep + lc);
                assert(path.take(path.len() - lc.len() - 1) =~= path.take(i) + sep + front);
                assert(path =~= path.take(i) + sep + rest);
                assert(path =~= path.take(path.len() - lc.len() - 1) + sep + lc);
            }
        },
    }
}

/// The last component of a path, such as the file name of a song.
pub fn to_only_filename(data: &String) -> (name: String)
    ensures
        name@ == last_component(data@),
{
    let text = chars_of(data.as_str());
    let mut sep: Vec<char> = Vec::new();
    sep.push('/');
    assert(sep@ =~= path_separator());
    let parts = split_chars(&text, &sep);
    proof {
        lemma_split_nonempty(data@, path_separator());
    }
    let last = parts.len() - 1;
    assert(rows_of(parts@)[last as int] == parts@[last as int]@);
    string_of(&parts[last])
}

/// The value of `key` in `m`, or the empty text when `m` lacks it.
pub open spec fn value_or_empty(m: Map<Seq<char>, Seq<char>>, key: Seq<char>) -> Seq<char> {
    if m.contains_key(key) {
        m[key]
    } else {
        Seq::empty()
    }
}

/// A column shows the whole value of its key, and nothing when the key is missing.
pub proof fn law_value_or_empty(m: Map<Seq<char>, Seq<char>>, key: Seq<char>)
    ensures
        m.contains_key(key) ==> value_or_empty(m, key) == m[key],
        !m.contains_key(key) ==> value_or_empty(m, key).len() == 0,
{
}

/// The value of `key` in `info`, or the empty string.
fn get_or_empty(info: &InfoMap, key: &str) -> (s: String)
    ensures
        s@ == value_or_empty(info@, key@),
        info@.contains_key(key@) ==> s@ == info@[key@],
        !info@.contains_key(key@) ==> s@.len() == 0,
{
    match info.get(key) {
        Some(v) => v.clone(),
        None => String::new(),
    }
}

/// One row of the playlist view.
pub struct PlaylistRow {
    pub title: String,
    pub artist: String,
    pub album: String,
}

/// The row of a song of the queue: its title (or, lacking one, its file
/// name), its artist and its album (empty when missing).
pub fn playlist_row(info: &InfoMap) -> (row: PlaylistRow)
    requires
        info@.contains_key("Title"@) || info@.contains_key("file"@),
    ensures
        row.title@ == (if info@.contains_key("Title"@) {
            info@["Title"@]
        } else {
            last_component(info@["file"@])
        }),
        row.artist@ == value_or_empty(info@, "Artist"@),
        row.album@ == value_or_empty(info@, "Album"@),
        info@.contains_key("Artist"@) ==> row.artist@ == info@["Artist"@],
        !info@.contains_key("Artist"@) ==> row.artist@.len() == 0,
        info@.contains_key("Album"@) ==> row.album@ == info@["Album"@],
        !info@.contains_key("Album"@) ==> row.album@.len() == 0,
{
    let title = match info.get("Title") {
        Some(t) => t.clone(),
        None => {
            let file = info.get("file");
            match file {
                Some(f) => to_only_filename(f),
                None => String::new(),
            }
        },
    };
    PlaylistRow { title, artist: get_or_empty(info, "Artist"), album: get_or_empty(info, "Album") }
}

/// One entry of the music-directory view.
pub enum DirectoryRow {
    /// A directory: its full path and its last component.
    Directory { path: String, name: String },
    /// A song: its file name, artist and album.
    Song { name: String, artist: String, album: String },
    /// Anything else (such as a playlist), which the view skips.
    Other,
}

/// The entry of the music-directory view for an item of an `lsinfo` answer.
pub fn directory_row(info: &InfoMap) -> (row: DirectoryRow)
    ensures
        match row {
            DirectoryRow::Directory { path, name } => {
                &&& info@.contains_key("directory"@)
                &&& path@ == info@["directory"@]
                &&& name@ == last_component(path@)
            },
            DirectoryRow::Song { name, artist, album } => {
                &&& !info@.contains_key("directory"@)
                &&& info@.contains_key("file"@)
                &&& name@ == last_component(info@["file"@])
                &&& artist@ == value_or_empty(info@, "Artist"@)
                &&& album@ == value_or_empty(info@, "Album"@)
                &&& info@.contains_key("Artist"@) ==> artist@ == info@["Artist"@]
                &&& !info@.contains_key("Artist"@) ==> artist@.len() == 0
                &&& info@.contains_key("Album"@) ==> album@ == info@["Album"@]
                &&& !info@.contains_key("Album"@) ==> album@.len() == 0
            },
            DirectoryRow::Other => !info@.contains_key("directory"@) && !info@.contains_key(
                "file"@,
            ),
        },
{
    if let Some(dir) = info.get("directory") {
        let path = dir.clone();
        let name = to_only_filename(&path);
        DirectoryRow::Directory { path, name }
    } else if let Some(file) = info.get("file") {
        let name = to_only_filename(file);
        DirectoryRow::Song {
            name,
            artist: get_or_empty(info, "Artist"),
            album: get_or_empty(info, "Album"),
        }
    } else {
        DirectoryRow::Other
    }
}

/// The queue positions to delete, one after the other, so as to remove the
/// songs at the selected `indices`: each deletion moves the later songs one
/// place forward.
pub fn deletion_positions(indices: &Vec<i32>) -> (positions: Vec<i32>)
    requires
        indices.len() <= i32::MAX,
        forall|k: int| 0 <= k < indices.len() ==> indices[k] - k >= i32::MIN,
    ensures
        positions.len() == indices.len(),
        forall|k: int| 0 <= k < indices.len() ==> positions[k] == indices[k] - k,
{
    let mut positions: Vec<i32> = Vec::new();
    let mut k: usize = 0;
    while k < indices.len()
        invariant
            k <= indices.len() <= i32::MAX,
            positions.len() == k,
            forall|j: int| 0 <= j < indices.len() ==> indices[j] - j >= i32::MIN,
            forall|j: int| 0 <= j < k ==> positions[j] == indices[j] - j,
        decreases indices.len() - k,
    {
        let gap = k as i32;
        positions.push(indices[k] - gap);
        k += 1;
    }
    positions
}

/// The sequence after removing, one after another, the elements at `positions`.
pub open spec fn remove_in_turn<A>(s: Seq<A>, positions: Seq<i32>) -> Seq<A>
    decreases positions.len(),
{
    if positions.len() == 0 {
        s
    } else {
        remove_in_turn(s, positions.drop_last()).remove(positions.last() as int)
    }
}

/// Index `i` is one of `selected`.
pub open spec fn is_selected(selected: Seq<i32>, i: int) -> bool {
    exists|k: int| 0 <= k < selected.len() && selected[k] == i
}

/// The elements of `s` whose index is not selected, in order.
pub open spec fn without_indices<A>(s: Seq<A>, selected: Seq<i32>) -> Seq<A>
    decreases s.len(),
{
    if s.len() == 0 {
        s
    } else {
        let rest = without_indices(s.drop_last(), selected);
        if is_selected(selected, s.len() - 1) {
            rest
        } else {
            rest.push(s.last())
        }
    }
}

/// The indices increase strictly and lie below `bound`.
pub open spec fn increasing_below(indices: Seq<i32>, bound: int) -> bool {
    &&& forall|k: int, l: int| 0 <= k < l < indices.len() ==> indices[k] < indices[l]
    &&& forall|k: int| 0 <= k < indices.len() ==> 0 <= #[trigger] indices[k] < bound
}

/// Only the selection inside `s` matters.
proof fn lemma_without_same_selection<A>(s: Seq<A>, a: Seq<i32>, b: Seq<i32>)
    requires
        forall|i: int| 0 <= i < s.len() ==> is_selected(a, i) == is_selected(b, i),
    ensures
        without_indices(s, a) == without_indices(s, b),
    decreases s.len(),
{
    if s.len() > 0 {
        lemma_without_same_selection(s.drop_last(), a, b);
        assert(is_selected(a, s.len() - 1) == is_selected(b, s.len() - 1));
    }
}

proof fn lemma_increasing_drop_last(indices: Seq<i32>, bound: int, new_bound: int)
    requires
        indices.len() > 0,
        increasing_below(indices, bound),
        forall|k: int| 0 <= k < indices.len() - 1 ==> indices[k] < new_bound,
    ensures
        increasing_below(indices.drop_last(), new_bound),
{
    let dl = indices.drop_last();
    assert forall|k: int| 0 <= k < dl.len() implies 0 <= #[trigger] dl[k] < new_bound by {
        assert(dl[k] == indices[k]);
    }
    assert forall|k: int, l: int| 0 <= k < l < dl.len() implies dl[k] < dl[l] by {
        assert(dl[k] == indices[k] && dl[l] == indices[l]);
    }
}

/// Removing the selected indices of `s` leaves `s.len()` less their number.
proof fn lemma_without_len<A>(s: Seq<A>, selected: Seq<i32>)
    requires
        increasing_below(selected, s.len() as int),
    ensures
        without_indices(s, selected).len() == s.len() - selected.len(),
    decreases s.len(),
{
    let n = s.len() as int;
    if n == 0 {
        if selected.len() > 0 {
            let first = selected[0];
            assert(0 <= first < n);
        }
    } else {
        let dl = s.drop_last();
        if is_selected(selected, n - 1) {
            let m = selected.len() - 1;
            let k0 = choose|k: int| 0 <= k < selected.len() && selected[k] == n - 1;
            if k0 < m {
                assert(selected[k0] < selected[m]);
                assert(selected[m] < n);
            }
            assert(selected[m] == n - 1);
            assert forall|k: int| 0 <= k < m implies selected[k] < n - 1 by {
                assert(selected[k] < selected[m]);
            }
            lemma_increasing_drop_last(selected, n, n - 1);
            lemma_without_len(dl, selected.drop_last());
            assert forall|i: int| 0 <= i < dl.len() implies is_selected(selected, i)
                == is_selected(selected.drop_last(), i) by {
                if is_selected(selected, i) {
                    let k = choose|k: int| 0 <= k < selected.len() && selected[k] == i;
                    assert(k != m);
                    assert(selected.drop_last()[k] == i);
                }
                if is_selected(selected.drop_last(), i) {
                    let k = choose|k: int| 0 <= k < m && selected.drop_last()[k] == i;
                    assert(selected[k] == i);
                }
            }
            lemma_without_same_selection(dl, selected, selected.drop_last());
        } else {
            assert forall|k: int| 0 <= k < selected.len() implies 0 <= #[trigger] selected[k] < n
                - 1 by {
                assert(selected[k] != n - 1);
            }
            lemma_without_len(dl, selected);
        }
    }
}

/// Removing the next selected index, shifted back by the number removed
/// before it, removes exactly that element.
proof fn lemma_remove_next<A>(s: Seq<A>, before: Seq<i32>, j: i32)
    requires
        0 <= j < s.len(),
        increasing_below(before, j as int),
    ensures
        without_indices(s, before).remove(j - before.len()) == without_indices(s, before.push(j)),
    decreases s.len(),
{
    let n = s.len() as int;
    let dl = s.drop_last();
    let all = before.push(j);
    lemma_without_len(s.take(j as int), before);
    assert(before.len() <= j);
    assert(all[before.len() as int] == j);
    if n - 1 > j {
        assert(!is_selected(before, n - 1)) by {
            if is_selected(before, n - 1) {
                let k = choose|k: int| 0 <= k < before.len() && before[k] == n - 1;
                assert(before[k] < j);
            }
        }
        assert(!is_selected(all, n - 1)) by {
            if is_selected(all, n - 1) {
                let k = choose|k: int| 0 <= k < all.len() && all[k] == n - 1;
                if k < before.len() {
                    assert(all[k] == before[k]);
                    assert(before[k] < j);
                }
            }
        }
        lemma_remove_next(dl, before, j);
        lemma_without_len(dl, before);
        let x = without_indices(dl, before);
        assert(x.len() == dl.len() - before.len());
        assert(0 <= j - before.len() < x.len());
        assert(x.push(s.last()).remove(j - before.len()) =~= x.remove(j - before.len()).push(
            s.last(),
        ));
    } else {
        assert(!is_selected(before, n - 1)) by {
            if is_selected(before, n - 1) {
                let k = choose|k: int| 0 <= k < before.len() && before[k] == n - 1;
                assert(before[k] < j);
            }
        }
        assert(is_selected(all, n - 1));
        lemma_without_len(dl, before);
        let x = without_indices(dl, before);
        assert(x.len() == j - before.len());
        assert(x.push(s.last()).remove(j - before.len()) =~= x);
        assert forall|i: int| 0 <= i < dl.len() implies is_selected(all, i) == is_selected(
            before,
            i,
        ) by {
            if is_selected(all, i) {
                let k = choose|k: int| 0 <= k < all.len() && all[k] == i;
                if k < before.len() {
                    assert(all[k] == before[k]);
                } else {
                    assert(all[k] == j);
                }
            }
            if is_selected(before, i) {
                let k = choose|k: int| 0 <= k < before.len() && before[k] == i;
                assert(all[k] == before[k]);
            }
        }
        lemma_without_same_selection(dl, all, before);
    }
}

/// Deleting, one after another, at the positions that `deletion_positions`
/// gives for strictly increasing row indices removes exactly the rows at
/// those indices and keeps the others in order.
pub proof fn law_deletions_remove_selected<A>(s: Seq<A>, indices: Seq<i32>, positions: Seq<i32>)
    requires
        increasing_below(indices, s.len() as int),
        positions.len() == indices.len(),
        forall|k: int| 0 <= k < indices.len() ==> #[trigger] positions[k] == indices[k] - k,
    ensures
        remove_in_turn(s, positions) == without_indices(s, indices),
    decreases indices.len(),
{
    if indices.len() == 0 {
        lemma_without_len(s, indices);
        assert(without_indices(s, indices) =~= s) by {
            lemma_without_identity(s, indices);
        }
    } else {
        let m = indices.len() - 1;
        let j = indices[m];
        let before = indices.drop_last();
        lemma_increasing_drop_last(indices, s.len() as int, j as int);
        assert forall|k: int| 0 <= k < m implies before[k] < j by {
            assert(indices[k] < indices[m]);
        }
        assert forall|k: int| 0 <= k < before.len() implies 0 <= #[trigger] before[k] < j by {
            assert(before[k] == indices[k]);
            assert(indices[k] < indices[m]);
        }
        assert forall|k: int| 0 <= k < before.len() implies #[trigger] positions.drop_last()[k]
            == before[k] - k by {
            assert(positions[k] == indices[k] - k);
        }
        law_deletions_remove_selected(s, before, positions.drop_last());
        assert(positions.last() == j - m);
        lemma_remove_next(s, before, j);
        assert(before.push(j) =~= indices);
    }
}

/// Selecting nothing keeps every element.
proof fn lemma_without_identity<A>(s: Seq<A>, selected: Seq<i32>)
    requires
        selected.len() == 0,
    ensures
        without_indices(s, selected) == s,
    decreases s.len(),
{
    if s.len() > 0 {
        lemma_without_identity(s.drop_last(), selected);
        assert(s.drop_last().push(s.last()) =~= s);
    }
}

/// Adds `part` to a joined path: `part` alone after an empty path, else
/// the path, the separator and `part`.
pub fn extend_joined(acc: &String, separator: &str, part: &str) -> (joined: String)
    ensures
        joined@ == (if acc@.len() == 0 {
            part@
        } else {
            acc@ + separator@ + part@
        }),
{
    if acc.as_str().is_empty() {
        String::from_str(part)
    } else {
        let mut joined = acc.clone();
        joined.append(separator);
        joined.append(part);
        joined
    }
}

/// The cover image of an album under the home directory `home`.
pub fn cover_path(home: &str, album: &str) -> (path: String)
    ensures
        path@ == home@ + "/.cache/mpd_client/cover/"@ + album@ + ".png"@,
{
    let mut path = String::from_str(home);
    path.append("/.cache/mpd_client/cover/");
    path.append(album);
    path.append(".png");
    path
}

/// The image shown for an album without a cover, under the home directory `home`.
pub fn noimage_path(home: &str) -> (path: String)
    ensures
        path@ == home@ + "/.cache/mpd_client/cover/noimage.png"@,
{
    let mut path = String::from_str(home);
    path.append("/.cache/mpd_client/cover/noimage.png");
    path
}

} // verus!
