//! What reading a response gives back of the text the server wrote.

use vstd::prelude::*;

use crate::info_map::map_of_pairs;
use crate::reading_laws::names_item_kind;
use crate::response::{
    field_separator, group_fold, group_lines, groupable, grouped_items, has_value, line_break,
    line_fields, line_pair, list_entry, list_readable, list_values, map_lines, map_readable,
    marks_item, ok_text, response_lines, response_map, closes_item, opens_item, key_of,
    end_flags, start_flags, response_parses, response_items,
};
use crate::text::{
    find_from, free_of, lemma_find_from, lemma_find_reaches, lemma_single_char_boundary,
    lemma_split_first, lemma_split_nonempty, lemma_split_whole, lemma_two_char_boundary,
    occurs_at, split_on,
};

verus! {

/// The text holds no line break.
pub open spec fn no_line_break(s: Seq<char>) -> bool {
    forall|i: int| 0 <= i < s.len() ==> s[i] != '\n'
}

/// Text that can stand as a key or a value of a response line: it holds no
/// line break and no `": "`.
pub open spec fn plain_field(s: Seq<char>) -> bool {
    no_line_break(s) && free_of(s, field_separator())
}

/// The response line that carries a key and its value.
pub open spec fn pair_line(p: (Seq<char>, Seq<char>)) -> Seq<char> {
    p.0 + field_separator() + p.1
}

/// The lines written one after the other, each ended by a line break.
pub open spec fn with_line_breaks(lines: Seq<Seq<char>>) -> Seq<char>
    decreases lines.len(),
{
    if lines.len() == 0 {
        Seq::empty()
    } else {
        lines[0] + line_break() + with_line_breaks(lines.drop_first())
    }
}

/// A one-item response: a line per pair, then the closing `OK` line.
pub open spec fn item_response(pairs: Seq<(Seq<char>, Seq<char>)>) -> Seq<char> {
    with_line_breaks(pairs.map_values(|p: (Seq<char>, Seq<char>)| pair_line(p)).push(ok_text()))
}

proof fn lemma_no_line_break_free(s: Seq<char>)
    requires
        no_line_break(s),
    ensures
        free_of(s, line_break()),
{
    assert forall|i: int| !#[trigger] occurs_at(s, line_break(), i) by {
        if occurs_at(s, line_break(), i) {
            assert(s.subrange(i, i + 1)[0] == s[i]);
        }
    }
}

/// Lines without line breaks, written out, read back as themselves and the
/// empty piece after the final line break.
pub proof fn lemma_lines_read_back(lines: Seq<Seq<char>>)
    requires
        forall|i: int| 0 <= i < lines.len() ==> no_line_break(#[trigger] lines[i]),
    ensures
        response_lines(with_line_breaks(lines)) == lines.push(Seq::<char>::empty()),
    decreases lines.len(),
{
    if lines.len() == 0 {
        lemma_split_whole(Seq::<char>::empty(), line_break());
        assert(lines.push(Seq::<char>::empty()) =~= seq![Seq::<char>::empty()]);
    } else {
        let rest = lines.drop_first();
        assert forall|i: int| 0 <= i < rest.len() implies no_line_break(#[trigger] rest[i]) by {
            assert(rest[i] == lines[i + 1]);
        }
        lemma_lines_read_back(rest);
        assert(no_line_break(lines[0]));
        lemma_no_line_break_free(lines[0]);
        lemma_single_char_boundary(lines[0], line_break());
        lemma_split_first(lines[0], line_break(), with_line_breaks(rest));
        assert(lines.push(Seq::<char>::empty()) =~= seq![lines[0]] + rest.push(
            Seq::<char>::empty(),
        ));
    }
}

/// A line written from a key and a value reads back as that key and value.
pub proof fn lemma_pair_line_read_back(p: (Seq<char>, Seq<char>))
    requires
        plain_field(p.0),
        plain_field(p.1),
    ensures
        line_fields(pair_line(p)) == seq![p.0, p.1],
        has_value(pair_line(p)),
        line_pair(pair_line(p)) == p,
        no_line_break(pair_line(p)),
{
    lemma_two_char_boundary(p.0, field_separator());
    lemma_split_first(p.0, field_separator(), p.1);
    lemma_split_whole(p.1, field_separator());
    assert(seq![p.0] + seq![p.1] =~= seq![p.0, p.1]);
    let line = pair_line(p);
    assert forall|i: int| 0 <= i < line.len() implies line[i] != '\n' by {
        if i < p.0.len() {
            assert(line[i] == p.0[i]);
        } else if i < p.0.len() + 2 {
        } else {
            assert(line[i] == p.1[i - p.0.len() - 2]);
        }
    }
}

/// Reading back a one-item response that writes `pairs` as `key: value`
/// lines gives the map that inserting those pairs in order builds.
pub proof fn law_to_map_reads_back(pairs: Seq<(Seq<char>, Seq<char>)>)
    requires
        forall|i: int|
            0 <= i < pairs.len() ==> plain_field(#[trigger] pairs[i].0) && plain_field(
                pairs[i].1,
            ),
    ensures
        map_readable(item_response(pairs)),
        response_map(item_response(pairs)) == map_of_pairs(pairs),
{
    let written = pairs.map_values(|p: (Seq<char>, Seq<char>)| pair_line(p));
    let lines = written.push(ok_text());
    assert forall|i: int| 0 <= i < pairs.len() implies line_pair(#[trigger] written[i])
        == pairs[i] && has_value(written[i]) && no_line_break(written[i]) by {
        assert(plain_field(pairs[i].0));
        lemma_pair_line_read_back(pairs[i]);
    }
    assert forall|i: int| 0 <= i < lines.len() implies no_line_break(#[trigger] lines[i]) by {
        if i < written.len() {
            assert(lines[i] == written[i]);
        } else {
            assert(lines[i] == ok_text());
        }
    }
    lemma_lines_read_back(lines);
    let text = item_response(pairs);
    assert(response_lines(text).take(response_lines(text).len() - 2) =~= written);
    assert(map_lines(text) == written);
    assert(written.map_values(|l: Seq<char>| line_pair(l)) =~= pairs);
}

/// The lines of one item: a line per pair.
pub open spec fn item_lines(item: Seq<(Seq<char>, Seq<char>)>) -> Seq<Seq<char>> {
    item.map_values(|p: (Seq<char>, Seq<char>)| pair_line(p))
}

/// The lines of several items, one item after the other.
pub open spec fn items_lines(items: Seq<Seq<(Seq<char>, Seq<char>)>>) -> Seq<Seq<char>>
    decreases items.len(),
{
    if items.len() == 0 {
        Seq::empty()
    } else {
        items_lines(items.drop_last()) + item_lines(items.last())
    }
}

/// For each line of `items_lines(items)`: whether it is the first line of its item.
pub open spec fn items_starts(items: Seq<Seq<(Seq<char>, Seq<char>)>>) -> Seq<bool>
    decreases items.len(),
{
    if items.len() == 0 {
        Seq::empty()
    } else {
        items_starts(items.drop_last()) + Seq::new(items.last().len(), |i: int| i == 0)
    }
}

/// A multi-item response: the lines of the items, then the closing `OK` line.
pub open spec fn items_response(items: Seq<Seq<(Seq<char>, Seq<char>)>>) -> Seq<char> {
    with_line_breaks(items_lines(items).push(ok_text()))
}

/// The closing flags of a multi-item response: only its `OK` line closes.
pub open spec fn items_ends(items: Seq<Seq<(Seq<char>, Seq<char>)>>) -> Seq<bool> {
    Seq::new(items_lines(items).len(), |i: int| false).push(true)
}

/// The opening flags of a multi-item response: the first line of each item opens.
pub open spec fn items_opens(items: Seq<Seq<(Seq<char>, Seq<char>)>>) -> Seq<bool> {
    items_starts(items).push(false)
}

/// The map of each item.
pub open spec fn item_maps(items: Seq<Seq<(Seq<char>, Seq<char>)>>) -> Seq<
    Map<Seq<char>, Seq<char>>,
> {
    items.map_values(|it: Seq<(Seq<char>, Seq<char>)>| map_of_pairs(it))
}

/// The key and the value are plain.
pub open spec fn plain_pair(p: (Seq<char>, Seq<char>)) -> bool {
    plain_field(p.0) && plain_field(p.1)
}

/// The item has a pair, and every key and value of it is plain.
pub open spec fn writable_item(item: Seq<(Seq<char>, Seq<char>)>) -> bool {
    item.len() > 0 && forall|j: int| 0 <= j < item.len() ==> plain_pair(#[trigger] item[j])
}

/// Every item is writable.
pub open spec fn writable_items(items: Seq<Seq<(Seq<char>, Seq<char>)>>) -> bool {
    forall|i: int| 0 <= i < items.len() ==> writable_item(#[trigger] items[i])
}

proof fn lemma_writable_drop_last(items: Seq<Seq<(Seq<char>, Seq<char>)>>)
    requires
        items.len() > 0,
        writable_items(items),
    ensures
        writable_items(items.drop_last()),
        writable_item(items.last()),
{
    let dl = items.drop_last();
    assert forall|i: int| 0 <= i < dl.len() implies writable_item(#[trigger] dl[i]) by {
        assert(dl[i] == items[i]);
    }
    assert(writable_item(items[items.len() - 1]));
}

/// The lines of writable items carry values and no line breaks, and there is
/// one opening flag per line.
proof fn lemma_items_lines_shape(items: Seq<Seq<(Seq<char>, Seq<char>)>>)
    requires
        writable_items(items),
    ensures
        items_starts(items).len() == items_lines(items).len(),
        forall|i: int|
            0 <= i < items_lines(items).len() ==> has_value(#[trigger] items_lines(items)[i])
                && no_line_break(items_lines(items)[i]),
    decreases items.len(),
{
    if items.len() > 0 {
        let dl = items.drop_last();
        let last = items.last();
        lemma_writable_drop_last(items);
        lemma_items_lines_shape(dl);
        let head = items_lines(dl);
        let tail = item_lines(last);
        assert forall|i: int| 0 <= i < items_lines(items).len() implies has_value(
            #[trigger] items_lines(items)[i],
        ) && no_line_break(items_lines(items)[i]) by {
            if i < head.len() {
                assert(items_lines(items)[i] == head[i]);
            } else {
                let j = i - head.len();
                assert(items_lines(items)[i] == tail[j]);
                assert(plain_pair(last[j]));
                lemma_pair_line_read_back(last[j]);
            }
        }
    }
}

/// Reading the lines of one item after `before`: its first line finishes
/// the item being filled and each line adds its pair to the new item.
proof fn lemma_group_one_item(
    before: Seq<Seq<char>>,
    item: Seq<(Seq<char>, Seq<char>)>,
    closes: Seq<bool>,
    opens: Seq<bool>,
    t: int,
)
    requires
        1 <= t <= item.len(),
        writable_item(item),
        forall|j: int| 0 <= j < item.len() ==> !#[trigger] closes[before.len() + j],
        forall|j: int| 0 <= j < item.len() ==> #[trigger] opens[before.len() + j] == (j == 0),
    ensures
        group_fold(before + item_lines(item).take(t), closes, opens) == (
            group_fold(before, closes, opens).0.push(group_fold(before, closes, opens).1),
            map_of_pairs(item.take(t)),
        ),
    decreases t,
{
    let lines = before + item_lines(item).take(t);
    let n = before.len() + t - 1;
    assert(!closes[before.len() + (t - 1)]);
    assert(opens[before.len() + (t - 1)] == (t - 1 == 0));
    assert(lines[n] == pair_line(item[t - 1]));
    assert(plain_pair(item[t - 1]));
    lemma_pair_line_read_back(item[t - 1]);
    assert(item.take(t).drop_last() =~= item.take(t - 1));
    assert(item.take(t).last() == item[t - 1]);
    if t == 1 {
        assert(lines.drop_last() =~= before);
        assert(item.take(0) =~= Seq::<(Seq<char>, Seq<char>)>::empty());
    } else {
        assert(lines.drop_last() =~= before + item_lines(item).take(t - 1));
        lemma_group_one_item(before, item, closes, opens, t - 1);
    }
}

/// Reading the lines of writable items, with no closing line among them and
/// an opening flag exactly at the first line of each item.
proof fn lemma_group_items(
    items: Seq<Seq<(Seq<char>, Seq<char>)>>,
    closes: Seq<bool>,
    opens: Seq<bool>,
)
    requires
        writable_items(items),
        forall|i: int| 0 <= i < items_lines(items).len() ==> !#[trigger] closes[i],
        forall|i: int|
            0 <= i < items_lines(items).len() ==> #[trigger] opens[i] == items_starts(items)[i],
    ensures
        group_fold(items_lines(items), closes, opens) == if items.len() == 0 {
            (Seq::<Map<Seq<char>, Seq<char>>>::empty(), Map::<Seq<char>, Seq<char>>::empty())
        } else {
            (
                seq![Map::<Seq<char>, Seq<char>>::empty()] + item_maps(items.drop_last()),
                map_of_pairs(items.last()),
            )
        },
    decreases items.len(),
{
    if items.len() > 0 {
        let dl = items.drop_last();
        let last = items.last();
        lemma_writable_drop_last(items);
        lemma_items_lines_shape(dl);
        lemma_items_lines_shape(items);
        let head = items_lines(dl);
        assert(items_lines(items) == head + item_lines(last));
        assert(items_starts(items) == items_starts(dl) + Seq::new(last.len(), |i: int| i == 0));
        assert forall|i: int| 0 <= i < head.len() implies #[trigger] opens[i] == items_starts(
            dl,
        )[i] by {
            assert(opens[i] == items_starts(items)[i]);
        }
        assert forall|i: int| 0 <= i < head.len() implies !#[trigger] closes[i] by {
            assert(!closes[i]);
        }
        lemma_group_items(dl, closes, opens);
        assert forall|j: int| 0 <= j < last.len() implies !#[trigger] closes[head.len() + j] by {
            assert(!closes[head.len() + j]);
        }
        assert forall|j: int| 0 <= j < last.len() implies #[trigger] opens[head.len() + j] == (j
            == 0) by {
            assert(opens[head.len() + j] == items_starts(items)[head.len() + j]);
        }
        lemma_group_one_item(head, last, closes, opens, last.len() as int);
        assert(item_lines(last).take(last.len() as int) =~= item_lines(last));
        assert(last.take(last.len() as int) =~= last);
        if dl.len() > 0 {
            assert(seq![Map::<Seq<char>, Seq<char>>::empty()] + item_maps(dl.drop_last()).push(
                map_of_pairs(dl.last()),
            ) =~= seq![Map::<Seq<char>, Seq<char>>::empty()] + item_maps(dl));
        } else {
            assert(item_maps(dl) =~= Seq::<Map<Seq<char>, Seq<char>>>::empty());
        }
        assert(seq![Map::<Seq<char>, Seq<char>>::empty()] + item_maps(dl) =~= group_fold(
            head,
            closes,
            opens,
        ).0.push(group_fold(head, closes, opens).1));
    }
}

/// Grouping the lines of a multi-item response that writes out `items`,
/// with its `OK` line closing and the first line of each item opening,
/// gives back the map of each item, in order.
pub proof fn law_grouping_reads_back(items: Seq<Seq<(Seq<char>, Seq<char>)>>)
    requires
        writable_items(items),
    ensures
        groupable(group_lines(items_response(items)), items_ends(items), items_opens(items)),
        grouped_items(group_lines(items_response(items)), items_ends(items), items_opens(items))
            == item_maps(items),
{
    let body = items_lines(items);
    let lines = body.push(ok_text());
    let closes = items_ends(items);
    let opens = items_opens(items);
    lemma_items_lines_shape(items);
    assert forall|i: int| 0 <= i < lines.len() implies no_line_break(#[trigger] lines[i]) by {
        if i < body.len() {
            assert(lines[i] == body[i]);
        } else {
            assert(lines[i] == ok_text());
        }
    }
    lemma_lines_read_back(lines);
    assert(group_lines(items_response(items)) =~= lines);
    assert forall|i: int| 0 <= i < lines.len() && !closes[i] implies has_value(
        #[trigger] lines[i],
    ) by {
        assert(lines[i] == body[i]);
    }
    assert(marks_item(closes, opens, body.len() as int));
    assert forall|i: int| 0 <= i < body.len() implies !#[trigger] closes[i] by {}
    assert forall|i: int| 0 <= i < body.len() implies #[trigger] opens[i] == items_starts(
        items,
    )[i] by {}
    lemma_group_items(items, closes, opens);
    assert(lines.drop_last() =~= body);
    let fin = group_fold(lines, closes, opens);
    if items.len() > 0 {
        assert(items.drop_last().push(items.last()) =~= items);
        assert(fin.0.drop_first() =~= item_maps(items));
    } else {
        assert(fin.0.drop_first() =~= item_maps(items));
    }
}

/// A `list` response: a `key: value` line per value, then the closing `OK` line.
pub open spec fn list_response(key: Seq<char>, values: Seq<Seq<char>>) -> Seq<char> {
    with_line_breaks(
        values.map_values(|v: Seq<char>| pair_line((key, v))).push(ok_text()),
    )
}

/// Reading back a `list` response that writes `values` under one key gives
/// every value but the first.
pub proof fn law_list_reads_back_all_but_first(key: Seq<char>, values: Seq<Seq<char>>)
    requires
        plain_field(key),
        forall|i: int| 0 <= i < values.len() ==> plain_field(#[trigger] values[i]),
    ensures
        list_readable(list_response(key, values)),
        list_values(list_response(key, values)) == if values.len() == 0 {
            Seq::<Seq<char>>::empty()
        } else {
            values.drop_first()
        },
{
    let written = values.map_values(|v: Seq<char>| pair_line((key, v)));
    let lines = written.push(ok_text());
    assert forall|i: int| 0 <= i < values.len() implies #[trigger] list_entry(written[i])
        == values[i] && no_line_break(written[i]) && has_value(written[i]) && written[i]
        != ok_text() && written[i].len() != 0 by {
        let p = (key, values[i]);
        assert(written[i] == pair_line(p));
        lemma_pair_line_read_back(p);
        assert(pair_line(p)[key.len() as int] == ':');
        if pair_line(p) == ok_text() {
            assert(ok_text()[key.len() as int] != ':');
        }
    }
    assert forall|i: int| 0 <= i < lines.len() implies no_line_break(#[trigger] lines[i]) by {
        if i < written.len() {
            assert(lines[i] == written[i]);
        } else {
            assert(lines[i] == ok_text());
        }
    }
    lemma_lines_read_back(lines);
    let text = list_response(key, values);
    let read = response_lines(text);
    assert(read == lines.push(Seq::<char>::empty()));
    assert forall|i: int|
        0 <= i < read.len() && read[i] != ok_text() && read[i].len() != 0 implies has_value(
        #[trigger] read[i],
    ) by {
        if i < written.len() {
            assert(read[i] == written[i]);
            assert(list_entry(written[i]) == values[i]);
        } else if i == written.len() {
            assert(read[i] == ok_text());
        } else {
            assert(read[i] == Seq::<char>::empty());
        }
    }
    let entries = read.map_values(|l: Seq<char>| list_entry(l));
    assert(entries.len() == values.len() + 2);
    if values.len() > 0 {
        assert(entries.subrange(1, entries.len() - 2) =~= values.drop_first()) by {
            assert forall|i: int| 0 <= i < values.len() - 1 implies entries.subrange(
                1,
                entries.len() - 2,
            )[i] == values.drop_first()[i] by {
                assert(read[i + 1] == written[i + 1]);
            }
        }
    }
}

/// A command line written from `body` is one line: reading it as a response
/// gives `body` and the empty piece after its line break.
pub open spec fn single_line(body: Seq<char>) -> bool {
    response_lines(body + line_break()) == seq![body, Seq::<char>::empty()]
}

proof fn lemma_single_line(body: Seq<char>)
    requires
        no_line_break(body),
    ensures
        single_line(body),
{
    lemma_no_line_break_free(body);
    lemma_single_char_boundary(body, line_break());
    lemma_split_first(body, line_break(), Seq::<char>::empty());
    assert(body + line_break() + Seq::<char>::empty() =~= body + line_break());
    lemma_split_whole(Seq::<char>::empty(), line_break());
    assert(seq![body] + seq![Seq::<char>::empty()] =~= seq![body, Seq::<char>::empty()]);
}

/// Every command is a single line when its arguments hold no line break.
pub proof fn law_commands_are_single_lines(
    filter: Seq<char>,
    songpos: Seq<char>,
    uri: Seq<char>,
    path: Seq<char>,
)
    requires
        no_line_break(filter),
        no_line_break(songpos),
        no_line_break(uri),
        no_line_break(path),
    ensures
        single_line("currentsong"@),
        single_line("list "@ + filter),
        single_line("playlistinfo "@ + songpos),
        single_line("playlist"@),
        single_line("find "@ + filter + " \""@ + uri + "\""@),
        single_line("lsinfo "@ + path),
        single_line("status"@),
        single_line("delete "@ + songpos),
        single_line("add \""@ + uri + "\""@),
        "currentsong\n"@ == "currentsong"@ + line_break(),
        "list "@ + filter + "\n"@ == "list "@ + filter + line_break(),
        "playlistinfo "@ + songpos + "\n"@ == "playlistinfo "@ + songpos + line_break(),
        "playlist\n"@ == "playlist"@ + line_break(),
        "find "@ + filter + " \""@ + uri + "\"\n"@ == "find "@ + filter + " \""@ + uri + "\""@
            + line_break(),
        "lsinfo "@ + path + "\n"@ == "lsinfo "@ + path + line_break(),
        "status\n"@ == "status"@ + line_break(),
        "delete "@ + songpos + "\n"@ == "delete "@ + songpos + line_break(),
        "add \""@ + uri + "\"\n"@ == "add \""@ + uri + "\""@ + line_break(),
{
    reveal_strlit("currentsong");
    reveal_strlit("currentsong\n");
    reveal_strlit("list ");
    reveal_strlit("\n");
    reveal_strlit("playlistinfo ");
    reveal_strlit("playlist");
    reveal_strlit("playlist\n");
    reveal_strlit("find ");
    reveal_strlit(" \"");
    reveal_strlit("\"");
    reveal_strlit("\"\n");
    reveal_strlit("lsinfo ");
    reveal_strlit("status");
    reveal_strlit("status\n");
    reveal_strlit("delete ");
    reveal_strlit("add \"");
    assert("status\n"@ =~= "status"@ + line_break());
    assert("add \""@ + uri + "\"\n"@ =~= "add \""@ + uri + "\""@ + line_break());
    assert("currentsong\n"@ =~= "currentsong"@ + line_break());
    assert("playlist\n"@ =~= "playlist"@ + line_break());
    assert("\n"@ =~= line_break());
    assert("\"\n"@ =~= "\""@ + line_break());
    assert("find "@ + filter + " \""@ + uri + "\"\n"@ =~= "find "@ + filter + " \""@ + uri + "\""@
        + line_break());
    lemma_single_line("currentsong"@);
    lemma_single_line("list "@ + filter);
    lemma_single_line("playlistinfo "@ + songpos);
    lemma_single_line("playlist"@);
    lemma_single_line("find "@ + filter + " \""@ + uri + "\""@);
    lemma_single_line("lsinfo "@ + path);
    lemma_single_line("status"@);
    lemma_single_line("delete "@ + songpos);
    lemma_single_line("add \""@ + uri + "\""@);
}

/// Text that is empty or ends with a line break, followed by more text,
/// splits into the lines of the first part (less its final empty piece),
/// then the pieces of the rest.
pub proof fn lemma_lines_after_break(p: Seq<char>, z: Seq<char>)
    requires
        p.len() == 0 || p.last() == '\n',
    ensures
        response_lines(p + z) == response_lines(p).drop_last() + response_lines(z),
    decreases p.len(),
{
    let nl = line_break();
    if p.len() == 0 {
        lemma_split_whole(p, nl);
        assert(p + z =~= z);
        assert(response_lines(p).drop_last() =~= Seq::<Seq<char>>::empty());
        assert(response_lines(p).drop_last() + response_lines(z) =~= response_lines(z));
    } else {
        let n = p.len() as int;
        assert(p.subrange(n - 1, n) =~= nl);
        assert(occurs_at(p, nl, n - 1));
        lemma_find_from(p, nl, 0);
        let i = find_from(p, nl, 0)->0;
        let t = p + z;
        assert(t.subrange(i, i + 1) =~= p.subrange(i, i + 1));
        assert forall|j: int| 0 <= j < i implies !#[trigger] occurs_at(t, nl, j) by {
            assert(t.subrange(j, j + 1) =~= p.subrange(j, j + 1));
            assert(!occurs_at(p, nl, j));
        }
        lemma_find_reaches(t, nl, 0, i);
        let rest = p.skip(i + 1);
        if rest.len() > 0 {
            assert(rest.last() == p.last());
        }
        lemma_lines_after_break(rest, z);
        lemma_split_nonempty(rest, nl);
        assert(t.take(i) =~= p.take(i));
        assert(t.skip(i + 1) =~= rest + z);
        let head = seq![p.take(i)];
        assert(response_lines(p) == head + response_lines(rest));
        assert(response_lines(t) == head + response_lines(rest + z));
        assert((head + response_lines(rest)).drop_last() =~= head + response_lines(
            rest,
        ).drop_last());
        assert(head + (response_lines(rest).drop_last() + response_lines(z)) =~= head
            + response_lines(rest).drop_last() + response_lines(z));
    }
}

/// Two lines without line breaks, the second one unended, split into those two lines.
proof fn lemma_two_lines(x: Seq<char>, y: Seq<char>)
    requires
        no_line_break(x),
        no_line_break(y),
    ensures
        response_lines(x + line_break() + y) == seq![x, y],
{
    lemma_no_line_break_free(x);
    lemma_no_line_break_free(y);
    lemma_single_char_boundary(x, line_break());
    lemma_split_first(x, line_break(), y);
    lemma_split_whole(y, line_break());
    assert(seq![x] + seq![y] =~= seq![x, y]);
}

/// `to_map` drops the last two lines of an answer whatever they hold: an
/// answer cut short reads as the same lines followed by `OK` and a line
/// break, and two lines alone read as the empty map.
pub proof fn law_to_map_drops_last_two_lines(p: Seq<char>, x: Seq<char>, y: Seq<char>)
    requires
        p.len() == 0 || p.last() == '\n',
        no_line_break(x),
        no_line_break(y),
    ensures
        map_lines(p + x + line_break() + y) == map_lines(p + ok_text() + line_break()),
        map_readable(p + x + line_break() + y) == map_readable(p + ok_text() + line_break()),
        response_map(p + x + line_break() + y) == response_map(p + ok_text() + line_break()),
        map_readable(x + line_break() + y),
        response_map(x + line_break() + y) == Map::<Seq<char>, Seq<char>>::empty(),
{
    let nl = line_break();
    let cut = x + nl + y;
    let ok = ok_text() + nl;
    lemma_two_lines(x, y);
    assert(no_line_break(ok_text()));
    lemma_two_lines(ok_text(), Seq::<char>::empty());
    assert(ok_text() + nl + Seq::<char>::empty() =~= ok);
    lemma_lines_after_break(p, cut);
    lemma_lines_after_break(p, ok);
    assert(p + x + nl + y =~= p + cut);
    assert(p + ok_text() + nl =~= p + ok);
    let head = response_lines(p).drop_last();
    let a = head + seq![x, y];
    let b = head + seq![ok_text(), Seq::<char>::empty()];
    assert(a.take(a.len() - 2) =~= head);
    assert(b.take(b.len() - 2) =~= head);
    assert(map_lines(p + cut) == head);
    assert(map_lines(p + ok) == head);
    assert(map_lines(cut) =~= Seq::<Seq<char>>::empty());
    assert(map_lines(cut).map_values(|l: Seq<char>| line_pair(l)) =~= Seq::<
        (Seq<char>, Seq<char>),
    >::empty());
}

/// An item that reads back: it has a pair, every pair is plain, and only
/// its first key names a kind of item (holds `file`, `directory` or `playlist`).
pub open spec fn readable_item(item: Seq<(Seq<char>, Seq<char>)>) -> bool {
    &&& item.len() > 0
    &&& forall|j: int|
        0 <= j < item.len() ==> plain_pair(#[trigger] item[j]) && (names_item_kind(item[j].0)
            <==> j == 0)
}

/// Every item reads back.
pub open spec fn readable_items(items: Seq<Seq<(Seq<char>, Seq<char>)>>) -> bool {
    forall|i: int| 0 <= i < items.len() ==> readable_item(#[trigger] items[i])
}

/// A written line is never the closing line, and its key is the pair's key.
proof fn lemma_pair_line_flags(p: (Seq<char>, Seq<char>))
    requires
        plain_pair(p),
    ensures
        !closes_item(pair_line(p)),
        key_of(pair_line(p)) == p.0,
{
    reveal_strlit("OK");
    lemma_pair_line_read_back(p);
    let line = pair_line(p);
    let n = p.0.len() as int;
    assert(line[n] == ':');
    if line == "OK"@ {
        assert(n == 0);
        assert(line[0] == 'O');
    }
}

/// The closing line is no opening key and closes an item.
proof fn lemma_ok_line_flags()
    ensures
        closes_item(ok_text()),
        !opens_item(key_of(ok_text())),
{
    reveal_strlit("OK");
    reveal_strlit("file");
    reveal_strlit("directory");
    reveal_strlit("playlist");
    assert(ok_text() =~= "OK"@);
    assert forall|i: int| !#[trigger] occurs_at(ok_text(), field_separator(), i) by {
        if occurs_at(ok_text(), field_separator(), i) {
            assert(ok_text().subrange(i, i + 2)[0] == ok_text()[i]);
        }
    }
    lemma_split_whole(ok_text(), field_separator());
    assert(key_of(ok_text()) == ok_text());
}

proof fn lemma_readable_drop_last(items: Seq<Seq<(Seq<char>, Seq<char>)>>)
    requires
        items.len() > 0,
        readable_items(items),
    ensures
        readable_items(items.drop_last()),
        readable_item(items.last()),
{
    let dl = items.drop_last();
    assert forall|i: int| 0 <= i < dl.len() implies readable_item(#[trigger] dl[i]) by {
        assert(dl[i] == items[i]);
    }
    assert(readable_item(items[items.len() - 1]));
}

proof fn lemma_readable_writable(items: Seq<Seq<(Seq<char>, Seq<char>)>>)
    requires
        readable_items(items),
    ensures
        writable_items(items),
{
    assert forall|i: int| 0 <= i < items.len() implies writable_item(#[trigger] items[i]) by {
        assert(readable_item(items[i]));
        assert forall|j: int| 0 <= j < items[i].len() implies plain_pair(#[trigger] items[i][j]) by {
            assert(plain_pair(items[i][j]));
        }
    }
}

/// No written item line closes an item, and exactly the first line of each
/// item opens one.
proof fn lemma_items_flags(items: Seq<Seq<(Seq<char>, Seq<char>)>>)
    requires
        readable_items(items),
    ensures
        items_starts(items).len() == items_lines(items).len(),
        forall|i: int|
            0 <= i < items_lines(items).len() ==> !closes_item(#[trigger] items_lines(items)[i])
                && opens_item(key_of(items_lines(items)[i])) == items_starts(items)[i],
    decreases items.len(),
{
    lemma_readable_writable(items);
    lemma_items_lines_shape(items);
    if items.len() > 0 {
        let dl = items.drop_last();
        let last = items.last();
        lemma_readable_drop_last(items);
        lemma_items_flags(dl);
        let head = items_lines(dl);
        let tail = item_lines(last);
        assert(items_starts(items) == items_starts(dl) + Seq::new(last.len(), |i: int| i == 0));
        assert forall|i: int| 0 <= i < items_lines(items).len() implies !closes_item(
            #[trigger] items_lines(items)[i],
        ) && opens_item(key_of(items_lines(items)[i])) == items_starts(items)[i] by {
            if i < head.len() {
                assert(items_lines(items)[i] == head[i]);
                assert(items_starts(items)[i] == items_starts(dl)[i]);
            } else {
                let j = i - head.len();
                assert(items_lines(items)[i] == tail[j]);
                assert(tail[j] == pair_line(last[j]));
                assert(plain_pair(last[j]));
                lemma_pair_line_flags(last[j]);
                assert(items_starts(items)[i] == (j == 0));
            }
        }
    }
}

/// A multi-item response that writes out readable items, where only the
/// first key of each item holds `file`, `directory` or `playlist`, can be
/// read, and reading it gives back the map of each item, in order: a key or
/// a value that holds `OK` is read like any other.
pub proof fn law_response_reads_back(items: Seq<Seq<(Seq<char>, Seq<char>)>>)
    requires
        readable_items(items),
    ensures
        response_parses(items_response(items)),
        response_items(items_response(items)) == item_maps(items),
{
    lemma_readable_writable(items);
    lemma_items_lines_shape(items);
    lemma_items_flags(items);
    lemma_ok_line_flags();
    let body = items_lines(items);
    let lines = body.push(ok_text());
    assert forall|i: int| 0 <= i < lines.len() implies no_line_break(#[trigger] lines[i]) by {
        if i < body.len() {
            assert(lines[i] == body[i]);
        } else {
            assert(lines[i] == ok_text());
        }
    }
    lemma_lines_read_back(lines);
    let text = items_response(items);
    assert(group_lines(text) =~= lines);
    assert(end_flags(text) =~= items_ends(items)) by {
        assert forall|i: int| 0 <= i < lines.len() implies end_flags(text)[i] == items_ends(
            items,
        )[i] by {
            if i < body.len() {
                assert(lines[i] == body[i]);
            }
        }
    }
    assert(start_flags(text) =~= items_opens(items)) by {
        assert forall|i: int| 0 <= i < lines.len() implies start_flags(text)[i] == items_opens(
            items,
        )[i] by {
            if i < body.len() {
                assert(lines[i] == body[i]);
            }
        }
    }
    law_grouping_reads_back(items);
}

} // verus!
