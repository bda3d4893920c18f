//! What reading an answer gives back of the lines the server wrote, for any
//! line that carries a value: the key is the text before the first `": "`,
//! the value the text after it up to the next `": "` (or the end of the
//! line), and an item starts exactly at a line whose key holds `file`,
//! `directory` or `playlist`.

use vstd::prelude::*;

use crate::info_map::map_of_pairs;
use crate::laws::{lemma_lines_read_back, no_line_break, with_line_breaks};
use crate::response::{
    closes_item, end_flags, field_separator, group_fold, group_lines, groupable, has_value,
    key_of, line_fields, line_pair, list_entry, list_readable, list_values, map_lines, map_readable, marks_item, ok_text,
    opens_item, response_items, response_lines, response_map, response_parses, start_flags,
};
use crate::text::{has_text, lemma_split_whole, occurs_at};

verus! {

/// The first two pieces of a line split on `": "`: its key and its value.
pub open spec fn split_pair(line: Seq<char>) -> (Seq<char>, Seq<char>) {
    (line_fields(line)[0], line_fields(line)[1])
}

/// A line the server writes for a key and its value: no line break, and at
/// least one `": "` (the value may hold more of them).
pub open spec fn valued_line(line: Seq<char>) -> bool {
    no_line_break(line) && line_fields(line).len() >= 2
}

/// The key names a kind of item: it holds `file`, `directory` or `playlist`.
pub open spec fn names_item_kind(key: Seq<char>) -> bool {
    has_text(key, "file"@) || has_text(key, "directory"@) || has_text(key, "playlist"@)
}

/// An answer: the lines, then the closing `OK` line, each ended by a line break.
pub open spec fn answer_text(lines: Seq<Seq<char>>) -> Seq<char> {
    with_line_breaks(lines.push(ok_text()))
}

/// A line with a value is neither the closing line nor empty.
proof fn lemma_valued_line_is_no_mark(line: Seq<char>)
    requires
        line_fields(line).len() >= 2,
    ensures
        line != ok_text(),
        line.len() != 0,
        !closes_item(line),
{
    reveal_strlit("OK");
    let sep = field_separator();
    if line == ok_text() || line.len() == 0 {
        assert forall|i: int| !#[trigger] occurs_at(line, sep, i) by {
            if occurs_at(line, sep, i) {
                assert(line.subrange(i, i + 2)[1] == line[i + 1]);
            }
        }
        lemma_split_whole(line, sep);
    }
    assert(ok_text() =~= "OK"@);
}

/// The lines written before the closing line read back as themselves.
proof fn lemma_answer_lines(lines: Seq<Seq<char>>)
    requires
        forall|i: int| 0 <= i < lines.len() ==> no_line_break(#[trigger] lines[i]),
    ensures
        response_lines(answer_text(lines)) == lines.push(ok_text()).push(Seq::<char>::empty()),
        group_lines(answer_text(lines)) == lines.push(ok_text()),
{
    let all = lines.push(ok_text());
    assert forall|i: int| 0 <= i < all.len() implies no_line_break(#[trigger] all[i]) by {
        if i < lines.len() {
            assert(all[i] == lines[i]);
        } else {
            assert(all[i] == ok_text());
        }
    }
    lemma_lines_read_back(all);
    assert(all.push(Seq::<char>::empty()).drop_last() =~= all);
}

/// Reading a one-item answer gives each written key mapped to the second
/// piece of its line, a later line overriding an earlier one with the same
/// key: a value that holds `": "` is cut at it.
pub proof fn law_map_values_are_second_pieces(lines: Seq<Seq<char>>)
    requires
        forall|i: int| 0 <= i < lines.len() ==> valued_line(#[trigger] lines[i]),
    ensures
        map_readable(answer_text(lines)),
        response_map(answer_text(lines)) == map_of_pairs(
            lines.map_values(|l: Seq<char>| split_pair(l)),
        ),
{
    assert forall|i: int| 0 <= i < lines.len() implies no_line_break(#[trigger] lines[i]) by {
        assert(valued_line(lines[i]));
    }
    lemma_answer_lines(lines);
    let text = answer_text(lines);
    let read = response_lines(text);
    assert(read.take(read.len() - 2) =~= lines);
    assert(map_lines(text) == lines);
    assert forall|i: int| 0 <= i < map_lines(text).len() implies has_value(
        #[trigger] map_lines(text)[i],
    ) by {
        assert(valued_line(lines[i]));
    }
    assert(map_lines(text).map_values(|l: Seq<char>| line_pair(l))
        =~= lines.map_values(|l: Seq<char>| split_pair(l)));
}

/// Reading a `list` answer gives, for every written line but the first, the
/// second piece of the line split on `": "`: a value that holds `": "` is cut
/// at it.
pub proof fn law_list_values_are_second_pieces(lines: Seq<Seq<char>>)
    requires
        forall|i: int| 0 <= i < lines.len() ==> valued_line(#[trigger] lines[i]),
    ensures
        list_readable(answer_text(lines)),
        lines.len() == 0 ==> list_values(answer_text(lines)) == Seq::<Seq<char>>::empty(),
        lines.len() > 0 ==> list_values(answer_text(lines)) == lines.drop_first().map_values(
            |l: Seq<char>| line_fields(l)[1],
        ),
{
    assert forall|i: int| 0 <= i < lines.len() implies no_line_break(#[trigger] lines[i]) by {
        assert(valued_line(lines[i]));
    }
    lemma_answer_lines(lines);
    let text = answer_text(lines);
    let read = response_lines(text);
    assert forall|i: int| 0 <= i < lines.len() implies #[trigger] read[i] == lines[i] && read[i]
        != ok_text() && read[i].len() != 0 && has_value(read[i]) && list_entry(
        read[i],
    ) == line_fields(lines[i])[1] by {
        assert(valued_line(lines[i]));
        lemma_valued_line_is_no_mark(lines[i]);
    }
    assert forall|i: int| 0 <= i < read.len() implies {
        let line = #[trigger] read[i];
        line != ok_text() && line.len() != 0 ==> has_value(line)
    } by {
        if i < lines.len() {
        } else if i == lines.len() {
            assert(read[i] == ok_text());
        } else {
            assert(read[i] == Seq::<char>::empty());
        }
    }
    let entries = read.map_values(|l: Seq<char>| list_entry(l));
    if lines.len() > 0 {
        assert(entries.subrange(1, entries.len() - 2) =~= lines.drop_first().map_values(
            |l: Seq<char>| line_fields(l)[1],
        )) by {
            let want = lines.drop_first().map_values(|l: Seq<char>| line_fields(l)[1]);
            assert forall|i: int| 0 <= i < lines.len() - 1 implies entries.subrange(
                1,
                entries.len() - 2,
            )[i] == #[trigger] want[i] by {
                assert(read[i + 1] == lines[i + 1]);
            }
        }
    }
}

/// What `list` gives for one line of its answer: `OK` for a line `OK`, `NL`
/// for an empty line, and otherwise the second piece of the line split on `": "`.
pub open spec fn listed_word(line: Seq<char>) -> Seq<char> {
    if line == "OK"@ {
        "OK"@
    } else if line.len() == 0 {
        "NL"@
    } else {
        line_fields(line)[1]
    }
}

/// Reading a `list` answer whose lines each carry a value, are empty or are
/// `OK` gives, for every line but the first, `OK` for `OK`, `NL` for an empty
/// line and the second piece of any other line split on `": "`.
pub proof fn law_list_reads_each_line(lines: Seq<Seq<char>>)
    requires
        forall|i: int|
            0 <= i < lines.len() ==> no_line_break(#[trigger] lines[i]) && (lines[i] == "OK"@
                || lines[i].len() == 0 || line_fields(lines[i]).len() >= 2),
    ensures
        list_readable(answer_text(lines)),
        lines.len() == 0 ==> list_values(answer_text(lines)) == Seq::<Seq<char>>::empty(),
        lines.len() > 0 ==> list_values(answer_text(lines)) == lines.drop_first().map_values(
            |l: Seq<char>| listed_word(l),
        ),
{
    reveal_strlit("OK");
    reveal_strlit("NL");
    assert(ok_text() =~= "OK"@);
    lemma_answer_lines(lines);
    let text = answer_text(lines);
    let read = response_lines(text);
    assert forall|i: int| 0 <= i < lines.len() implies #[trigger] read[i] == lines[i] && (read[i]
        != ok_text() && read[i].len() != 0 ==> has_value(read[i])) && list_entry(read[i])
        == listed_word(lines[i]) by {
        assert(seq!['N', 'L'] =~= "NL"@);
    }
    assert forall|i: int| 0 <= i < read.len() implies {
        let line = #[trigger] read[i];
        line != ok_text() && line.len() != 0 ==> has_value(line)
    } by {
        if i < lines.len() {
        } else if i == lines.len() {
            assert(read[i] == ok_text());
        } else {
            assert(read[i] == Seq::<char>::empty());
        }
    }
    let entries = read.map_values(|l: Seq<char>| list_entry(l));
    if lines.len() > 0 {
        let want = lines.drop_first().map_values(|l: Seq<char>| listed_word(l));
        assert(entries.subrange(1, entries.len() - 2) =~= want) by {
            assert forall|i: int| 0 <= i < lines.len() - 1 implies entries.subrange(
                1,
                entries.len() - 2,
            )[i] == #[trigger] want[i] by {
                assert(read[i + 1] == lines[i + 1]);
            }
        }
    }
}

/// The map of one written item: each key set to the second piece of its
/// line, a later line overriding an earlier one with the same key.
pub open spec fn written_item_map(item: Seq<Seq<char>>) -> Map<Seq<char>, Seq<char>> {
    map_of_pairs(item.map_values(|l: Seq<char>| split_pair(l)))
}

/// The lines of several items, one item after the other.
pub open spec fn joined_lines(items: Seq<Seq<Seq<char>>>) -> Seq<Seq<char>>
    decreases items.len(),
{
    if items.len() == 0 {
        Seq::empty()
    } else {
        joined_lines(items.drop_last()) + items.last()
    }
}

/// For each line of `joined_lines(items)`: whether it is the first of its item.
pub open spec fn first_of_item(items: Seq<Seq<Seq<char>>>) -> Seq<bool>
    decreases items.len(),
{
    if items.len() == 0 {
        Seq::empty()
    } else {
        first_of_item(items.drop_last()) + Seq::new(items.last().len(), |i: int| i == 0)
    }
}

/// Every item has a line, and every line carries a value.
pub open spec fn valued_items(items: Seq<Seq<Seq<char>>>) -> bool {
    forall|i: int|
        0 <= i < items.len() ==> #[trigger] items[i].len() > 0 && forall|j: int|
            0 <= j < items[i].len() ==> valued_line(#[trigger] items[i][j])
}

/// Every item has a line, every line carries a value, the key of each
/// item's first line names a kind of item and no other key does.
pub open spec fn listed_items(items: Seq<Seq<Seq<char>>>) -> bool {
    &&& valued_items(items)
    &&& forall|i: int, j: int|
        0 <= i < items.len() && 0 <= j < items[i].len() ==> (names_item_kind(
            line_fields(#[trigger] items[i][j])[0],
        ) <==> j == 0)
}

proof fn lemma_valued_drop_last(items: Seq<Seq<Seq<char>>>)
    requires
        items.len() > 0,
        valued_items(items),
    ensures
        valued_items(items.drop_last()),
        items.last().len() > 0,
        forall|j: int| 0 <= j < items.last().len() ==> valued_line(#[trigger] items.last()[j]),
{
    let dl = items.drop_last();
    assert forall|i: int| 0 <= i < dl.len() implies #[trigger] dl[i].len() > 0 && forall|j: int|
        0 <= j < dl[i].len() ==> valued_line(#[trigger] dl[i][j]) by {
        assert(dl[i] == items[i]);
    }
    assert(items[items.len() - 1].len() > 0);
}

proof fn lemma_listed_drop_last(items: Seq<Seq<Seq<char>>>)
    requires
        items.len() > 0,
        listed_items(items),
    ensures
        listed_items(items.drop_last()),
        forall|j: int|
            0 <= j < items.last().len() ==> (names_item_kind(
                line_fields(#[trigger] items.last()[j])[0],
            ) <==> j == 0),
{
    lemma_valued_drop_last(items);
    let dl = items.drop_last();
    assert forall|i: int, j: int| 0 <= i < dl.len() && 0 <= j < dl[i].len() implies (
    names_item_kind(line_fields(#[trigger] dl[i][j])[0]) <==> j == 0) by {
        assert(dl[i] == items[i]);
    }
    assert forall|j: int| 0 <= j < items.last().len() implies (names_item_kind(
        line_fields(#[trigger] items.last()[j])[0],
    ) <==> j == 0) by {
        assert(items.last()[j] == items[items.len() - 1][j]);
    }
}

/// The joined lines carry values, and there is one flag per line.
proof fn lemma_joined_shape(items: Seq<Seq<Seq<char>>>)
    requires
        valued_items(items),
    ensures
        first_of_item(items).len() == joined_lines(items).len(),
        forall|i: int|
            0 <= i < joined_lines(items).len() ==> valued_line(#[trigger] joined_lines(items)[i]),
    decreases items.len(),
{
    if items.len() > 0 {
        let dl = items.drop_last();
        let last = items.last();
        lemma_valued_drop_last(items);
        lemma_joined_shape(dl);
        let head = joined_lines(dl);
        assert forall|i: int| 0 <= i < joined_lines(items).len() implies valued_line(
            #[trigger] joined_lines(items)[i],
        ) by {
            if i < head.len() {
                assert(joined_lines(items)[i] == head[i]);
            } else {
                assert(joined_lines(items)[i] == last[i - head.len()]);
            }
        }
    }
}

/// Reading the lines of one item after `before`: its first line finishes
/// the item being filled and each line sets its key to its second piece.
proof fn lemma_read_one_item(
    before: Seq<Seq<char>>,
    item: Seq<Seq<char>>,
    closes: Seq<bool>,
    opens: Seq<bool>,
    t: int,
)
    requires
        1 <= t <= item.len(),
        forall|j: int| 0 <= j < item.len() ==> valued_line(#[trigger] item[j]),
        forall|j: int| 0 <= j < item.len() ==> !#[trigger] closes[before.len() + j],
        forall|j: int| 0 <= j < item.len() ==> #[trigger] opens[before.len() + j] == (j == 0),
    ensures
        group_fold(before + item.take(t), closes, opens) == (
            group_fold(before, closes, opens).0.push(group_fold(before, closes, opens).1),
            written_item_map(item.take(t)),
        ),
    decreases t,
{
    let lines = before + item.take(t);
    let n = before.len() + t - 1;
    assert(!closes[before.len() + (t - 1)]);
    assert(opens[before.len() + (t - 1)] == (t - 1 == 0));
    assert(lines[n] == item[t - 1]);
    assert(valued_line(item[t - 1]));
    let pairs = item.take(t).map_values(|l: Seq<char>| split_pair(l));
    assert(pairs.drop_last() =~= item.take(t - 1).map_values(|l: Seq<char>| split_pair(l)));
    assert(pairs.last() == split_pair(item[t - 1]));
    if t == 1 {
        assert(lines.drop_last() =~= before);
        assert(item.take(0).map_values(|l: Seq<char>| split_pair(l)) =~= Seq::<
            (Seq<char>, Seq<char>),
        >::empty());
    } else {
        assert(lines.drop_last() =~= before + item.take(t - 1));
        lemma_read_one_item(before, item, closes, opens, t - 1);
    }
}

/// Reading the joined lines of items, with no closing line among them and
/// an opening flag exactly at the first line of each item.
proof fn lemma_read_items(items: Seq<Seq<Seq<char>>>, closes: Seq<bool>, opens: Seq<bool>)
    requires
        valued_items(items),
        forall|i: int| 0 <= i < joined_lines(items).len() ==> !#[trigger] closes[i],
        forall|i: int|
            0 <= i < joined_lines(items).len() ==> #[trigger] opens[i] == first_of_item(items)[i],
    ensures
        group_fold(joined_lines(items), closes, opens) == if items.len() == 0 {
            (Seq::<Map<Seq<char>, Seq<char>>>::empty(), Map::<Seq<char>, Seq<char>>::empty())
        } else {
            (
                seq![Map::<Seq<char>, Seq<char>>::empty()] + items.drop_last().map_values(
                    |it: Seq<Seq<char>>| written_item_map(it),
                ),
                written_item_map(items.last()),
            )
        },
    decreases items.len(),
{
    if items.len() > 0 {
        let dl = items.drop_last();
        let last = items.last();
        lemma_valued_drop_last(items);
        lemma_joined_shape(dl);
        lemma_joined_shape(items);
        let head = joined_lines(dl);
        assert(joined_lines(items) == head + last);
        assert(first_of_item(items) == first_of_item(dl) + Seq::new(last.len(), |i: int| i == 0));
        assert forall|i: int| 0 <= i < head.len() implies #[trigger] opens[i] == first_of_item(
            dl,
        )[i] by {
            assert(opens[i] == first_of_item(items)[i]);
        }
        assert forall|i: int| 0 <= i < head.len() implies !#[trigger] closes[i] by {
            assert(!closes[i]);
        }
        lemma_read_items(dl, closes, opens);
        assert forall|j: int| 0 <= j < last.len() implies !#[trigger] closes[head.len() + j] by {
            assert(!closes[head.len() + j]);
        }
        assert forall|j: int| 0 <= j < last.len() implies #[trigger] opens[head.len() + j] == (j
            == 0) by {
            assert(opens[head.len() + j] == first_of_item(items)[head.len() + j]);
        }
        lemma_read_one_item(head, last, closes, opens, last.len() as int);
        assert(last.take(last.len() as int) =~= last);
        let maps = dl.map_values(|it: Seq<Seq<char>>| written_item_map(it));
        if dl.len() > 0 {
            assert(dl.drop_last().map_values(|it: Seq<Seq<char>>| written_item_map(it)).push(
                written_item_map(dl.last()),
            ) =~= maps);
        } else {
            assert(maps =~= Seq::<Map<Seq<char>, Seq<char>>>::empty());
        }
        assert(seq![Map::<Seq<char>, Seq<char>>::empty()] + maps =~= group_fold(
            head,
            closes,
            opens,
        ).0.push(group_fold(head, closes, opens).1));
    }
}

/// No joined line closes an item, and a joined line opens one exactly when
/// it is the first of its item.
proof fn lemma_joined_flags(items: Seq<Seq<Seq<char>>>)
    requires
        listed_items(items),
    ensures
        forall|i: int|
            0 <= i < joined_lines(items).len() ==> !closes_item(#[trigger] joined_lines(items)[i])
                && opens_item(key_of(joined_lines(items)[i])) == first_of_item(items)[i],
    decreases items.len(),
{
    lemma_joined_shape(items);
    if items.len() > 0 {
        let dl = items.drop_last();
        let last = items.last();
        lemma_listed_drop_last(items);
        lemma_valued_drop_last(items);
        lemma_joined_flags(dl);
        lemma_joined_shape(dl);
        let head = joined_lines(dl);
        assert(first_of_item(items) == first_of_item(dl) + Seq::new(last.len(), |i: int| i == 0));
        assert forall|i: int| 0 <= i < joined_lines(items).len() implies !closes_item(
            #[trigger] joined_lines(items)[i],
        ) && opens_item(key_of(joined_lines(items)[i])) == first_of_item(items)[i] by {
            if i < head.len() {
                assert(joined_lines(items)[i] == head[i]);
                assert(first_of_item(items)[i] == first_of_item(dl)[i]);
            } else {
                let j = i - head.len();
                assert(joined_lines(items)[i] == last[j]);
                assert(valued_line(last[j]));
                lemma_valued_line_is_no_mark(last[j]);
                assert(names_item_kind(line_fields(last[j])[0]) <==> j == 0);
                assert(first_of_item(items)[i] == (j == 0));
            }
        }
    }
}

/// The closing line is no opening key and closes an item.
proof fn lemma_ok_marks_end()
    ensures
        closes_item(ok_text()),
        !opens_item(key_of(ok_text())),
{
    reveal_strlit("OK");
    reveal_strlit("file");
    reveal_strlit("directory");
    reveal_strlit("playlist");
    assert(ok_text() =~= "OK"@);
    let sep = field_separator();
    assert forall|i: int| !#[trigger] occurs_at(ok_text(), sep, i) by {
        if occurs_at(ok_text(), sep, i) {
            assert(ok_text().subrange(i, i + 2)[0] == ok_text()[i]);
        }
    }
    lemma_split_whole(ok_text(), sep);
    assert(key_of(ok_text()) == ok_text());
}

/// An answer that writes out items whose first key alone names a kind of
/// item (`file`, `directory` or `playlist`), every line carrying a value,
/// reads as one map per item, in order: a new item starts exactly at a line
/// whose key holds one of those words, only the line `OK` closes, and each
/// key is set to the second piece of its line split on `": "`.
pub proof fn law_items_read_back(items: Seq<Seq<Seq<char>>>)
    requires
        listed_items(items),
    ensures
        response_parses(answer_text(joined_lines(items))),
        response_items(answer_text(joined_lines(items))) == items.map_values(
            |it: Seq<Seq<char>>| written_item_map(it),
        ),
{
    let body = joined_lines(items);
    let lines = body.push(ok_text());
    lemma_joined_shape(items);
    lemma_joined_flags(items);
    lemma_ok_marks_end();
    assert forall|i: int| 0 <= i < body.len() implies no_line_break(#[trigger] body[i]) by {
        assert(valued_line(body[i]));
    }
    lemma_answer_lines(body);
    let text = answer_text(body);
    let closes = end_flags(text);
    let opens = start_flags(text);
    assert(group_lines(text) == lines);
    assert forall|i: int| 0 <= i < body.len() implies !#[trigger] closes[i] by {
        assert(lines[i] == body[i]);
    }
    assert forall|i: int| 0 <= i < body.len() implies #[trigger] opens[i] == first_of_item(
        items,
    )[i] by {
        assert(lines[i] == body[i]);
    }
    assert(closes[body.len() as int]);
    assert(marks_item(closes, opens, body.len() as int));
    assert forall|i: int| 0 <= i < lines.len() && !closes[i] implies has_value(
        #[trigger] lines[i],
    ) by {
        assert(lines[i] == body[i]);
        assert(valued_line(body[i]));
    }
    assert(groupable(lines, closes, opens));
    lemma_read_items(items, closes, opens);
    assert(lines.drop_last() =~= body);
    let fin = group_fold(lines, closes, opens);
    let maps = items.map_values(|it: Seq<Seq<char>>| written_item_map(it));
    if items.len() > 0 {
        assert(items.drop_last().map_values(|it: Seq<Seq<char>>| written_item_map(it)).push(
            written_item_map(items.last()),
        ) =~= maps);
    }
    assert(fin.0.drop_first() =~= maps);
}

} // verus!
