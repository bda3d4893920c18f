//! Reading MPD responses: the text that the server sends back to a command,
//! as lines of `key: value` closed by an `OK` line.

use vstd::prelude::*;

use crate::info_map::{lemma_map_of_pairs_push, map_of_pairs, InfoMap};
use crate::pattern::{compile, is_match};
use crate::text::{
    chars_of, has_text, lemma_split_nonempty, rows_of, split_chars, split_on, string_of,
};

verus! {

/// The separator between the lines of a response.
pub open spec fn line_break() -> Seq<char> {
    seq!['\n']
}

/// The separator between the key and the value of a line.
pub open spec fn field_separator() -> Seq<char> {
    seq![':', ' ']
}

/// The lines of a response, as `split("\n")` yields them (the piece after
/// the final line break is the last one).
pub open spec fn response_lines(buf: Seq<char>) -> Seq<Seq<char>> {
    split_on(buf, line_break())
}

/// The pieces of a line, as `split(": ")` yields them.
pub open spec fn line_fields(line: Seq<char>) -> Seq<Seq<char>> {
    split_on(line, field_separator())
}

/// The line has a value after its key: it holds `": "`.
pub open spec fn has_value(line: Seq<char>) -> bool {
    line_fields(line).len() >= 2
}

/// The key of a line: the text before the first `": "`.
pub open spec fn key_of(line: Seq<char>) -> Seq<char> {
    line_fields(line)[0]
}

/// The value of a line: the text after the first `": "` up to the next one.
pub open spec fn value_of(line: Seq<char>) -> Seq<char> {
    line_fields(line)[1]
}

/// The key and the value of a line.
pub open spec fn line_pair(line: Seq<char>) -> (Seq<char>, Seq<char>) {
    (key_of(line), value_of(line))
}

/// The character sequences of a list of strings.
pub open spec fn strings_of(v: Seq<String>) -> Seq<Seq<char>> {
    v.map_values(|s: String| s@)
}

/// The maps held by a list of `InfoMap`s.
pub open spec fn maps_of(v: Seq<InfoMap>) -> Seq<Map<Seq<char>, Seq<char>>> {
    v.map_values(|m: InfoMap| m@)
}

fn line_break_chars() -> (v: Vec<char>)
    ensures
        v@ == line_break(),
{
    let mut v: Vec<char> = Vec::new();
    v.push('\n');
    assert(v@ =~= line_break());
    v
}

fn field_separator_chars() -> (v: Vec<char>)
    ensures
        v@ == field_separator(),
{
    let mut v: Vec<char> = Vec::new();
    v.push(':');
    v.push(' ');
    assert(v@ =~= field_separator());
    v
}

/// The lines of `buf`, each as its characters.
fn lines_of(buf: &str) -> (lines: Vec<Vec<char>>)
    ensures
        rows_of(lines@) == response_lines(buf@),
        lines.len() >= 1,
{
    let text = chars_of(buf);
    let lines = split_chars(&text, &line_break_chars());
    proof {
        lemma_split_nonempty(buf@, line_break());
    }
    lines
}

/// The pieces of a line between occurrences of `": "`.
fn fields_of(line: &Vec<char>) -> (fields: Vec<Vec<char>>)
    ensures
        rows_of(fields@) == line_fields(line@),
        fields.len() >= 1,
{
    let fields = split_chars(line, &field_separator_chars());
    proof {
        lemma_split_nonempty(line@, field_separator());
    }
    fields
}

/// The key and the value of a line that has a value.
fn key_value(line: &Vec<char>) -> (kv: (String, String))
    requires
        has_value(line@),
    ensures
        kv.0@ == key_of(line@),
        kv.1@ == value_of(line@),
{
    let fields = fields_of(line);
    assert(rows_of(fields@)[0] == fields@[0]@);
    assert(rows_of(fields@)[1] == fields@[1]@);
    (string_of(&fields[0]), string_of(&fields[1]))
}

/// The lines that `to_map` reads: all but the last two (the closing `OK`
/// and the empty piece after the final line break).
pub open spec fn map_lines(buf: Seq<char>) -> Seq<Seq<char>> {
    let lines = response_lines(buf);
    if lines.len() >= 2 {
        lines.take(lines.len() - 2)
    } else {
        Seq::empty()
    }
}

/// The map that `to_map` builds: each read line's key set to its value, a
/// later line overriding an earlier one with the same key.
pub open spec fn response_map(buf: Seq<char>) -> Map<Seq<char>, Seq<char>> {
    map_of_pairs(map_lines(buf).map_values(|l: Seq<char>| line_pair(l)))
}

/// Every line that `to_map` reads has a value.
pub open spec fn map_readable(buf: Seq<char>) -> bool {
    forall|i: int| 0 <= i < map_lines(buf).len() ==> has_value(#[trigger] map_lines(buf)[i])
}

/// Whether every line that `to_map` reads has a value.
pub fn is_map_readable(data: &str) -> (b: bool)
    ensures
        b == map_readable(data@),
{
    let lines = lines_of(data);
    let count = if lines.len() >= 2 {
        lines.len() - 2
    } else {
        0
    };
    let ghost read = map_lines(data@);
    assert(read.len() == count);
    let mut i: usize = 0;
    while i < count
        invariant
            i <= count <= lines.len(),
            read == map_lines(data@),
            read.len() == count,
            rows_of(lines@) == response_lines(data@),
            forall|j: int| 0 <= j < i ==> has_value(#[trigger] read[j]),
        decreases count - i,
    {
        assert(read[i as int] == lines@[i as int]@);
        let fields = fields_of(&lines[i]);
        if fields.len() < 2 {
            return false;
        }
        i += 1;
    }
    true
}

/// Reads a one-item response (such as the answer to `currentsong`) into a
/// map from keys to values, dropping its last two lines.
pub fn to_map(data: String) -> (m: InfoMap)
    requires
        map_readable(data@),
    ensures
        m@ == response_map(data@),
{
    let lines = lines_of(data.as_str());
    let count = if lines.len() >= 2 {
        lines.len() - 2
    } else {
        0
    };
    let ghost read = map_lines(data@);
    assert(read.len() == count);
    let mut m = InfoMap::new();
    let mut i: usize = 0;
    assert(read.take(0).map_values(|l: Seq<char>| line_pair(l)) =~= Seq::<
        (Seq<char>, Seq<char>),
    >::empty());
    while i < count
        invariant
            i <= count <= lines.len(),
            read == map_lines(data@),
            read.len() == count,
            map_readable(data@),
            rows_of(lines@) == response_lines(data@),
            forall|j: int| 0 <= j < count ==> read[j] == #[trigger] lines@[j]@,
            m@ == map_of_pairs(read.take(i as int).map_values(|l: Seq<char>| line_pair(l))),
        decreases count - i,
    {
        assert(read[i as int] == lines@[i as int]@);
        assert(has_value(read[i as int]));
        let (k, v) = key_value(&lines[i]);
        m.insert(k, v);
        proof {
            let pre = read.take(i as int).map_values(|l: Seq<char>| line_pair(l));
            assert(read.take(i + 1).map_values(|l: Seq<char>| line_pair(l)) =~= pre.push(
                line_pair(read[i as int]),
            ));
            lemma_map_of_pairs_push(pre, line_pair(read[i as int]));
        }
        i += 1;
    }
    assert(read.take(count as int) =~= read);
    m
}

/// The lines that grouping reads: all but the empty piece after the final line break.
pub open spec fn group_lines(buf: Seq<char>) -> Seq<Seq<char>> {
    response_lines(buf).drop_last()
}

/// One line read while grouping, with the items finished so far and the
/// item being filled: a closing line finishes the current item (which stays
/// current); an opening line finishes it and starts a new one with the
/// line's key and value; any other line adds its key and value.
pub open spec fn group_step(
    state: (Seq<Map<Seq<char>, Seq<char>>>, Map<Seq<char>, Seq<char>>),
    line: Seq<char>,
    closes: bool,
    opens: bool,
) -> (Seq<Map<Seq<char>, Seq<char>>>, Map<Seq<char>, Seq<char>>) {
    if closes {
        (state.0.push(state.1), state.1)
    } else if opens {
        (state.0.push(state.1), Map::empty().insert(key_of(line), value_of(line)))
    } else {
        (state.0, state.1.insert(key_of(line), value_of(line)))
    }
}

/// The state after reading `lines` from the start; line `i` closes an item
/// when `closes[i]` holds and opens one when `opens[i]` holds.
pub open spec fn group_fold(lines: Seq<Seq<char>>, closes: Seq<bool>, opens: Seq<bool>) -> (
    Seq<Map<Seq<char>, Seq<char>>>,
    Map<Seq<char>, Seq<char>>,
)
    decreases lines.len(),
{
    if lines.len() == 0 {
        (Seq::empty(), Map::empty())
    } else {
        let n = lines.len() - 1;
        group_step(group_fold(lines.drop_last(), closes, opens), lines[n], closes[n], opens[n])
    }
}

/// The items of a grouping: every finished item but the first (which holds
/// what came before the first opening or closing line).
pub open spec fn grouped_items(lines: Seq<Seq<char>>, closes: Seq<bool>, opens: Seq<bool>) -> Seq<
    Map<Seq<char>, Seq<char>>,
> {
    group_fold(lines, closes, opens).0.drop_first()
}

/// Line `i` opens or closes an item.
pub open spec fn marks_item(closes: Seq<bool>, opens: Seq<bool>, i: int) -> bool {
    closes[i] || opens[i]
}

/// The lines can be grouped: one flag of each kind per line, every line
/// that closes no item has a value, and some line opens or closes an item.
pub open spec fn groupable(lines: Seq<Seq<char>>, closes: Seq<bool>, opens: Seq<bool>) -> bool {
    &&& closes.len() == lines.len()
    &&& opens.len() == lines.len()
    &&& forall|i: int| 0 <= i < lines.len() && !closes[i] ==> has_value(#[trigger] lines[i])
    &&& exists|i: int| 0 <= i < lines.len() && #[trigger] marks_item(closes, opens, i)
}

/// Finished items are never lost, and a marked line finishes one.
proof fn lemma_group_fold_len(lines: Seq<Seq<char>>, closes: Seq<bool>, opens: Seq<bool>, i: int)
    requires
        0 <= i < lines.len(),
        marks_item(closes, opens, i),
    ensures
        group_fold(lines, closes, opens).0.len() >= 1,
    decreases lines.len(),
{
    let n = lines.len() - 1;
    if i < n {
        lemma_group_fold_len(lines.drop_last(), closes, opens, i);
    }
}

/// Groups the lines of `buf` into items, line `i` closing an item when
/// `closes[i]` holds and opening one when `opens[i]` holds.
pub fn group_records(buf: &str, closes: &Vec<bool>, opens: &Vec<bool>) -> (items: Vec<InfoMap>)
    requires
        groupable(group_lines(buf@), closes@, opens@),
    ensures
        maps_of(items@) == grouped_items(group_lines(buf@), closes@, opens@),
{
    let lines = lines_of(buf);
    group_line_list(&lines, closes, opens)
}

fn group_line_list(lines: &Vec<Vec<char>>, closes: &Vec<bool>, opens: &Vec<bool>) -> (items: Vec<
    InfoMap,
>)
    requires
        lines.len() >= 1,
        groupable(rows_of(lines@).drop_last(), closes@, opens@),
    ensures
        maps_of(items@) == grouped_items(rows_of(lines@).drop_last(), closes@, opens@),
{
    let ghost read = rows_of(lines@).drop_last();
    let count = lines.len() - 1;
    let mut done: Vec<InfoMap> = Vec::new();
    let mut current = InfoMap::new();
    let mut i: usize = 0;
    assert(maps_of(done@) =~= Seq::<Map<Seq<char>, Seq<char>>>::empty());
    assert(read.take(0) =~= Seq::<Seq<char>>::empty());
    while i < count
        invariant
            i <= count,
            count == lines.len() - 1,
            read == rows_of(lines@).drop_last(),
            groupable(read, closes@, opens@),
            (maps_of(done@), current@) == group_fold(read.take(i as int), closes@, opens@),
        decreases count - i,
    {
        let ghost before = maps_of(done@);
        let ghost prefix = read.take(i + 1);
        assert(prefix.drop_last() =~= read.take(i as int));
        assert(prefix[i as int] == read[i as int]);
        assert(read[i as int] == lines@[i as int]@);
        if closes[i] {
            let copy = current.clone();
            done.push(copy);
            assert(maps_of(done@) =~= before.push(current@));
        } else {
            assert(has_value(read[i as int]));
            let (k, v) = key_value(&lines[i]);
            if opens[i] {
                let copy = current.clone();
                done.push(copy);
                assert(maps_of(done@) =~= before.push(copy@));
                current.clear();
            }
            current.insert(k, v);
        }
        i += 1;
    }
    assert(read.take(count as int) =~= read);
    proof {
        let j = choose|j: int| 0 <= j < read.len() && #[trigger] marks_item(closes@, opens@, j);
        lemma_group_fold_len(read, closes@, opens@, j);
    }
    let ghost all = maps_of(done@);
    done.remove(0);
    assert(maps_of(done@) =~= all.drop_first());
    done
}

/// A line closes an item when it is the line `OK` (what the pattern `^OK$` matches).
pub open spec fn closes_item(line: Seq<char>) -> bool {
    line == "OK"@
}

/// A key opens an item when it holds `file`, `directory` or `playlist`
/// (what the pattern `file|directory|playlist` matches).
pub open spec fn opens_item(key: Seq<char>) -> bool {
    has_text(key, "file"@) || has_text(key, "directory"@) || has_text(key, "playlist"@)
}

/// For each read line of `buf`: whether it closes an item.
pub open spec fn end_flags(buf: Seq<char>) -> Seq<bool> {
    group_lines(buf).map_values(|l: Seq<char>| closes_item(l))
}

/// For each read line of `buf`: whether its key opens an item.
pub open spec fn start_flags(buf: Seq<char>) -> Seq<bool> {
    group_lines(buf).map_values(|l: Seq<char>| opens_item(key_of(l)))
}

/// The lines of `buf` can be grouped into items: every line that closes no
/// item has a value, and some line opens or closes an item.
pub open spec fn response_parses(buf: Seq<char>) -> bool {
    groupable(group_lines(buf), end_flags(buf), start_flags(buf))
}

/// The items of a multi-item response (a playlist, a directory listing).
pub open spec fn response_items(buf: Seq<char>) -> Seq<Map<Seq<char>, Seq<char>>> {
    grouped_items(group_lines(buf), end_flags(buf), start_flags(buf))
}

/// The closing and opening flags of the read lines, found with the patterns
/// `^OK$` and `file|directory|playlist`.
fn item_flags(lines: &Vec<Vec<char>>) -> (flags: (Vec<bool>, Vec<bool>))
    requires
        lines.len() >= 1,
    ensures
        flags.0@ == rows_of(lines@).drop_last().map_values(|l: Seq<char>| closes_item(l)),
        flags.1@ == rows_of(lines@).drop_last().map_values(|l: Seq<char>| opens_item(key_of(l))),
{
    let ghost read = rows_of(lines@).drop_last();
    let ghost want_closes = read.map_values(|l: Seq<char>| closes_item(l));
    let ghost want_opens = read.map_values(|l: Seq<char>| opens_item(key_of(l)));
    let count = lines.len() - 1;
    let mut closes: Vec<bool> = Vec::new();
    let mut opens: Vec<bool> = Vec::new();
    let end = match compile("^OK$") {
        Ok(m) => m,
        Err(_) => {
            assert(false);
            return (closes, opens);
        },
    };
    let start = match compile("file|directory|playlist") {
        Ok(m) => m,
        Err(_) => {
            assert(false);
            return (closes, opens);
        },
    };
    while closes.len() < count
        invariant
            count == lines.len() - 1,
            read == rows_of(lines@).drop_last(),
            want_closes == read.map_values(|l: Seq<char>| closes_item(l)),
            want_opens == read.map_values(|l: Seq<char>| opens_item(key_of(l))),
            read.len() == count,
            closes.len() <= count,
            opens.len() == closes.len(),
            end.pattern() == "^OK$"@,
            start.pattern() == "file|directory|playlist"@,
            closes@ == want_closes.take(closes.len() as int),
            opens@ == want_opens.take(closes.len() as int),
        decreases count - closes.len(),
    {
        let i = closes.len();
        assert(read[i as int] == lines@[i as int]@);
        let line = string_of(&lines[i]);
        let c = is_match(&end, line.as_str());
        let fields = fields_of(&lines[i]);
        assert(rows_of(fields@)[0] == fields@[0]@);
        let key = string_of(&fields[0]);
        let o = is_match(&start, key.as_str());
        let ghost old_closes = closes@;
        let ghost old_opens = opens@;
        closes.push(c);
        opens.push(o);
        assert(want_closes.take(i + 1) =~= old_closes.push(c));
        assert(want_opens.take(i + 1) =~= old_opens.push(o));
    }
    assert(want_closes.take(count as int) =~= want_closes);
    assert(want_opens.take(count as int) =~= want_opens);
    (closes, opens)
}

/// Whether the read lines can be grouped with the given flags.
fn groupable_lines(lines: &Vec<Vec<char>>, closes: &Vec<bool>, opens: &Vec<bool>) -> (b: bool)
    requires
        lines.len() >= 1,
        closes.len() == lines.len() - 1,
        opens.len() == lines.len() - 1,
    ensures
        b == groupable(rows_of(lines@).drop_last(), closes@, opens@),
{
    let ghost read = rows_of(lines@).drop_last();
    let count = lines.len() - 1;
    let mut all_valued = true;
    let mut any_mark = false;
    let mut i: usize = 0;
    while i < count
        invariant
            count == lines.len() - 1,
            closes.len() == count,
            opens.len() == count,
            read == rows_of(lines@).drop_last(),
            read.len() == count,
            i <= count,
            all_valued <==> forall|j: int|
                0 <= j < i && !closes@[j] ==> has_value(#[trigger] read[j]),
            any_mark <==> exists|j: int| 0 <= j < i && #[trigger] marks_item(closes@, opens@, j),
        decreases count - i,
    {
        assert(read[i as int] == lines@[i as int]@);
        let fields = fields_of(&lines[i]);
        let ghost had_mark = any_mark;
        if !closes[i] && fields.len() < 2 {
            all_valued = false;
        }
        if closes[i] || opens[i] {
            any_mark = true;
        }
        proof {
            assert(marks_item(closes@, opens@, i as int) == (closes@[i as int] || opens@[i as int]));
            if had_mark {
                let j = choose|j: int| 0 <= j < i && #[trigger] marks_item(closes@, opens@, j);
                assert(marks_item(closes@, opens@, j));
            }
        }
        i += 1;
    }
    all_valued && any_mark
}

/// Whether a multi-item response can be read: every line that closes no
/// item has a value, and some line opens or closes an item.
pub fn is_groupable_response(buf: &str) -> (b: bool)
    ensures
        b == response_parses(buf@),
{
    let lines = lines_of(buf);
    let (closes, opens) = item_flags(&lines);
    groupable_lines(&lines, &closes, &opens)
}

/// Reads a multi-item response: the line `OK` closes an item, a line
/// whose key holds `file`, `directory` or `playlist` starts a new one.
pub fn mpdbuf_to_vec(buf: &str) -> (items: Vec<InfoMap>)
    requires
        response_parses(buf@),
    ensures
        maps_of(items@) == response_items(buf@),
{
    let lines = lines_of(buf);
    let (closes, opens) = item_flags(&lines);
    group_line_list(&lines, &closes, &opens)
}

/// Whether the answer to `currentsong` names a song: it can be read and has an item.
pub fn has_current_song(buf: &str) -> (b: bool)
    ensures
        b == (response_parses(buf@) && response_items(buf@).len() > 0),
{
    if is_groupable_response(buf) {
        let items = mpdbuf_to_vec(buf);
        items.len() > 0
    } else {
        false
    }
}

/// Reads the answer to `currentsong`: the last item of the response.
pub fn currentsong_from_response(buf: &str) -> (m: InfoMap)
    requires
        response_parses(buf@),
        response_items(buf@).len() > 0,
    ensures
        m@ == response_items(buf@).last(),
{
    let mut items = mpdbuf_to_vec(buf);
    let ghost all = maps_of(items@);
    let last = items.pop();
    let m = last.unwrap();
    assert(all.last() == m@);
    m
}

/// The text of the closing line of a response.
pub open spec fn ok_text() -> Seq<char> {
    seq!['O', 'K']
}

/// What a `list` response line reads as: the closing line as itself, an
/// empty line as `NL`, any other line as its value.
pub open spec fn list_entry(line: Seq<char>) -> Seq<char> {
    if line == ok_text() {
        ok_text()
    } else if line.len() == 0 {
        seq!['N', 'L']
    } else {
        value_of(line)
    }
}

/// Every line of a `list` response other than the closing line and empty
/// lines has a value.
pub open spec fn list_readable(buf: Seq<char>) -> bool {
    forall|i: int|
        0 <= i < response_lines(buf).len() ==> {
            let line = #[trigger] response_lines(buf)[i];
            line != ok_text() && line.len() != 0 ==> has_value(line)
        }
}

/// The values that `list` returns: the entries of all lines but the first
/// and the last two.
pub open spec fn list_values(buf: Seq<char>) -> Seq<Seq<char>> {
    let entries = response_lines(buf).map_values(|l: Seq<char>| list_entry(l));
    if entries.len() >= 3 {
        entries.subrange(1, entries.len() - 2)
    } else {
        Seq::empty()
    }
}

/// Whether every line of a `list` response other than the closing line and
/// empty lines has a value.
pub fn is_list_readable(buf: &str) -> (b: bool)
    ensures
        b == list_readable(buf@),
{
    let lines = lines_of(buf);
    let mut i: usize = 0;
    while i < lines.len()
        invariant
            i <= lines.len(),
            rows_of(lines@) == response_lines(buf@),
            forall|j: int|
                0 <= j < i ==> {
                    let line = #[trigger] response_lines(buf@)[j];
                    line != ok_text() && line.len() != 0 ==> has_value(line)
                },
        decreases lines.len() - i,
    {
        let line = &lines[i];
        assert(response_lines(buf@)[i as int] == line@);
        if !is_ok_line(line) && line.len() != 0 {
            let fields = fields_of(line);
            if fields.len() < 2 {
                return false;
            }
        }
        i += 1;
    }
    true
}

fn is_ok_line(line: &Vec<char>) -> (b: bool)
    ensures
        b == (line@ == ok_text()),
{
    if line.len() == 2 && line[0] == 'O' && line[1] == 'K' {
        assert(line@ =~= ok_text());
        true
    } else {
        false
    }
}

/// Reads a `list` response (one value per line) into its values, dropping
/// the first value and the closing lines.
pub fn list_from_response(buf: &str) -> (r: Vec<String>)
    requires
        list_readable(buf@),
    ensures
        strings_of(r@) == list_values(buf@),
{
    let lines = lines_of(buf);
    let ghost entries = response_lines(buf@).map_values(|l: Seq<char>| list_entry(l));
    let mut out: Vec<String> = Vec::new();
    let mut i: usize = 0;
    while i < lines.len()
        invariant
            i <= lines.len(),
            rows_of(lines@) == response_lines(buf@),
            entries == response_lines(buf@).map_values(|l: Seq<char>| list_entry(l)),
            list_readable(buf@),
            strings_of(out@) == entries.take(i as int),
        decreases lines.len() - i,
    {
        let ghost before = strings_of(out@);
        let line = &lines[i];
        assert(response_lines(buf@)[i as int] == line@);
        let item = if is_ok_line(line) {
            string_of(line)
        } else if line.len() == 0 {
            let mut nl: Vec<char> = Vec::new();
            nl.push('N');
            nl.push('L');
            assert(nl@ =~= seq!['N', 'L']);
            string_of(&nl)
        } else {
            let (_k, v) = key_value(line);
            v
        };
        out.push(item);
        assert(strings_of(out@) =~= before.push(item@));
        assert(entries.take(i + 1) =~= entries.take(i as int).push(entries[i as int]));
        i += 1;
    }
    assert(entries.take(lines.len() as int) =~= entries);
    let ghost all = strings_of(out@);
    out.remove(0);
    assert(strings_of(out@) =~= all.drop_first());
    let ghost after_first = strings_of(out@);
    let _ = out.pop();
    let ghost after_one = strings_of(out@);
    assert(after_first.len() > 0 ==> after_one =~= after_first.drop_last());
    let _ = out.pop();
    assert(after_one.len() > 0 ==> strings_of(out@) =~= after_one.drop_last());
    assert(strings_of(out@) =~= list_values(buf@));
    out
}

/// The map holds one of the keys.
pub open spec fn has_any_key(m: Map<Seq<char>, Seq<char>>, keys: Seq<Seq<char>>) -> bool {
    exists|i: int| 0 <= i < keys.len() && m.contains_key(#[trigger] keys[i])
}

/// The character sequences of a list of string slices.
pub open spec fn str_views(keys: Seq<&str>) -> Seq<Seq<char>> {
    keys.map_values(|k: &str| k@)
}

/// Keeps, in order, the items that hold at least one of `keys` (such as
/// `directory`, or `file`).
pub fn retain_with_any_key(items: &mut Vec<InfoMap>, keys: &[&str])
    ensures
        maps_of(final(items)@) == maps_of(old(items)@).filter(
            |m: Map<Seq<char>, Seq<char>>| has_any_key(m, str_views(keys@)),
        ),
{
    let ghost pred = |m: Map<Seq<char>, Seq<char>>| has_any_key(m, str_views(keys@));
    let ghost src = maps_of(items@);
    let mut kept: Vec<InfoMap> = Vec::new();
    let mut i: usize = 0;
    assert(src.take(0).filter(pred) =~= Seq::<Map<Seq<char>, Seq<char>>>::empty()) by {
        reveal_with_fuel(Seq::<_>::filter, 1);
    }
    assert(maps_of(kept@) =~= Seq::<Map<Seq<char>, Seq<char>>>::empty());
    while i < items.len()
        invariant
            i <= items.len(),
            src == maps_of(items@),
            pred == (|m: Map<Seq<char>, Seq<char>>| has_any_key(m, str_views(keys@))),
            maps_of(kept@) == src.take(i as int).filter(pred),
        decreases items.len() - i,
    {
        let ghost before = maps_of(kept@);
        let mut found = false;
        let mut k: usize = 0;
        while k < keys.len()
            invariant
                k <= keys.len(),
                i < items.len(),
                found <==> exists|j: int|
                    0 <= j < k && items@[i as int]@.contains_key(#[trigger] str_views(keys@)[j]),
            decreases keys.len() - k,
        {
            assert(str_views(keys@)[k as int] == keys@[k as int]@);
            if items[i].contains_key(keys[k]) {
                found = true;
            }
            k += 1;
        }
        assert(found == pred(src[i as int]));
        if found {
            let copy = items[i].clone();
            kept.push(copy);
            assert(maps_of(kept@) =~= before.push(src[i as int]));
        }
        assert(src.take(i + 1).drop_last() =~= src.take(i as int));
        assert(src.take(i + 1).last() == src[i as int]);
        assert(maps_of(kept@) == src.take(i + 1).filter(pred)) by {
            reveal_with_fuel(Seq::<_>::filter, 1);
        }
        i += 1;
    }
    assert(src.take(items.len() as int) =~= src);
    *items = kept;
}

/// Filtering twice with the same predicate filters once.
proof fn lemma_filter_twice<A>(s: Seq<A>, pred: spec_fn(A) -> bool)
    ensures
        s.filter(pred).filter(pred) == s.filter(pred),
    decreases s.len(),
{
    reveal_with_fuel(Seq::<_>::filter, 1);
    if s.len() > 0 {
        let dl = s.drop_last();
        lemma_filter_twice(dl, pred);
        let f = dl.filter(pred);
        if pred(s.last()) {
            assert(f.push(s.last()).drop_last() =~= f);
            assert(f.push(s.last()).filter(pred) == f.filter(pred).push(s.last()));
        }
    } else {
        assert(s.filter(pred) =~= s);
    }
}

/// Keeping the items with one of `keys` twice keeps the same items as once.
pub proof fn law_retain_idempotent(items: Seq<Map<Seq<char>, Seq<char>>>, keys: Seq<Seq<char>>)
    ensures
        items.filter(|m: Map<Seq<char>, Seq<char>>| has_any_key(m, keys)).filter(
            |m: Map<Seq<char>, Seq<char>>| has_any_key(m, keys),
        ) == items.filter(|m: Map<Seq<char>, Seq<char>>| has_any_key(m, keys)),
{
    lemma_filter_twice(items, |m: Map<Seq<char>, Seq<char>>| has_any_key(m, keys));
}

/// Two predicates that agree on every element of `s` keep the same elements.
proof fn lemma_filter_agree<A>(s: Seq<A>, p: spec_fn(A) -> bool, q: spec_fn(A) -> bool)
    requires
        forall|i: int| 0 <= i < s.len() ==> p(#[trigger] s[i]) == q(s[i]),
    ensures
        s.filter(p) == s.filter(q),
    decreases s.len(),
{
    reveal_with_fuel(Seq::<_>::filter, 1);
    if s.len() > 0 {
        let dl = s.drop_last();
        assert forall|i: int| 0 <= i < dl.len() implies p(#[trigger] dl[i]) == q(dl[i]) by {
            assert(dl[i] == s[i]);
        }
        lemma_filter_agree(dl, p, q);
        assert(p(s[s.len() - 1]) == q(s[s.len() - 1]));
    }
}

/// Where `r` holds of an element exactly when one of `p` and `q` does, and
/// never both, the elements kept by `p` and by `q` together are as many as
/// those kept by `r`.
proof fn lemma_filter_split_len<A>(
    s: Seq<A>,
    p: spec_fn(A) -> bool,
    q: spec_fn(A) -> bool,
    r: spec_fn(A) -> bool,
)
    requires
        forall|i: int|
            0 <= i < s.len() ==> (r(#[trigger] s[i]) == (p(s[i]) || q(s[i]))) && !(p(s[i]) && q(
                s[i],
            )),
    ensures
        s.filter(p).len() + s.filter(q).len() == s.filter(r).len(),
    decreases s.len(),
{
    reveal_with_fuel(Seq::<_>::filter, 1);
    if s.len() > 0 {
        let dl = s.drop_last();
        assert forall|i: int| 0 <= i < dl.len() implies (r(#[trigger] dl[i]) == (p(dl[i]) || q(
            dl[i],
        ))) && !(p(dl[i]) && q(dl[i])) by {
            assert(dl[i] == s[i]);
        }
        lemma_filter_split_len(dl, p, q, r);
        let x = s[s.len() - 1];
        assert(r(x) == (p(x) || q(x)) && !(p(x) && q(x)));
    }
}

/// A predicate that holds of every element keeps them all.
proof fn lemma_filter_keeps_all<A>(s: Seq<A>, p: spec_fn(A) -> bool)
    requires
        forall|i: int| 0 <= i < s.len() ==> p(#[trigger] s[i]),
    ensures
        s.filter(p) == s,
    decreases s.len(),
{
    reveal_with_fuel(Seq::<_>::filter, 1);
    if s.len() > 0 {
        let dl = s.drop_last();
        assert forall|i: int| 0 <= i < dl.len() implies p(#[trigger] dl[i]) by {
            assert(dl[i] == s[i]);
        }
        lemma_filter_keeps_all(dl, p);
        assert(p(s[s.len() - 1]));
        assert(dl.push(s.last()) =~= s);
    } else {
        assert(s.filter(p) =~= s);
    }
}

/// A listing entry is one of a song, a directory or a playlist: it has
/// exactly one of the keys `file`, `directory` and `playlist`.
pub open spec fn listing_entry(m: Map<Seq<char>, Seq<char>>) -> bool {
    let f = m.contains_key("file"@);
    let d = m.contains_key("directory"@);
    let p = m.contains_key("playlist"@);
    (f && !d && !p) || (!f && d && !p) || (!f && !d && p)
}

proof fn lemma_has_one_key(m: Map<Seq<char>, Seq<char>>, a: Seq<char>)
    ensures
        has_any_key(m, seq![a]) == m.contains_key(a),
{
    assert(seq![a][0] == a);
}

proof fn lemma_has_two_keys(m: Map<Seq<char>, Seq<char>>, a: Seq<char>, b: Seq<char>)
    ensures
        has_any_key(m, seq![a, b]) == (m.contains_key(a) || m.contains_key(b)),
{
    assert(seq![a, b][0] == a);
    assert(seq![a, b][1] == b);
}

/// Where every entry of a listing is a song, a directory or a playlist, the
/// selections by key part the listing: keeping the songs and directories
/// drops exactly the playlists, the directories and the songs kept apart
/// are as many as those kept together, and with the playlists they are the
/// whole listing.
pub proof fn law_listing_partition(items: Seq<Map<Seq<char>, Seq<char>>>)
    requires
        forall|i: int| 0 <= i < items.len() ==> listing_entry(#[trigger] items[i]),
    ensures
        items.filter(|m: Map<Seq<char>, Seq<char>>| has_any_key(m, seq!["file"@, "directory"@]))
            == items.filter(
            |m: Map<Seq<char>, Seq<char>>| !has_any_key(m, seq!["playlist"@]),
        ),
        items.filter(|m: Map<Seq<char>, Seq<char>>| has_any_key(m, seq!["directory"@])).len()
            + items.filter(|m: Map<Seq<char>, Seq<char>>| has_any_key(m, seq!["file"@])).len()
            == items.filter(
            |m: Map<Seq<char>, Seq<char>>| has_any_key(m, seq!["file"@, "directory"@]),
        ).len(),
        items.filter(|m: Map<Seq<char>, Seq<char>>| has_any_key(m, seq!["file"@, "directory"@])).len()
            + items.filter(|m: Map<Seq<char>, Seq<char>>| has_any_key(m, seq!["playlist"@])).len()
            == items.len(),
{
    let file = "file"@;
    let dir = "directory"@;
    let pl = "playlist"@;
    let songs_and_dirs = |m: Map<Seq<char>, Seq<char>>| has_any_key(m, seq![file, dir]);
    let no_playlist = |m: Map<Seq<char>, Seq<char>>| !has_any_key(m, seq![pl]);
    let dirs = |m: Map<Seq<char>, Seq<char>>| has_any_key(m, seq![dir]);
    let songs = |m: Map<Seq<char>, Seq<char>>| has_any_key(m, seq![file]);
    let playlists = |m: Map<Seq<char>, Seq<char>>| has_any_key(m, seq![pl]);
    let every = |m: Map<Seq<char>, Seq<char>>| true;
    assert forall|i: int| 0 <= i < items.len() implies {
        &&& songs_and_dirs(#[trigger] items[i]) == no_playlist(items[i])
        &&& songs_and_dirs(items[i]) == (dirs(items[i]) || songs(items[i]))
        &&& !(dirs(items[i]) && songs(items[i]))
        &&& every(items[i]) == (songs_and_dirs(items[i]) || playlists(items[i]))
        &&& !(songs_and_dirs(items[i]) && playlists(items[i]))
    } by {
        let m = items[i];
        assert(listing_entry(m));
        lemma_has_two_keys(m, file, dir);
        lemma_has_one_key(m, pl);
        lemma_has_one_key(m, dir);
        lemma_has_one_key(m, file);
    }
    lemma_filter_agree(items, songs_and_dirs, no_playlist);
    lemma_filter_split_len(items, dirs, songs, songs_and_dirs);
    lemma_filter_split_len(items, songs_and_dirs, playlists, every);
    lemma_filter_keeps_all(items, every);
}

} // verus!
