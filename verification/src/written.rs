//! Reading what was written: the text that stores a catalog gives the
//! catalog back.

use vstd::prelude::*;
use crate::catalog::{
    Entry, GroupView, ascending, inserted, lemma_inserted_at, well_formed,
};
use crate::format::{
    entries_text, entry_text, flushed, group_text, header_mark, header_text, marked,
    number_behind, parsed, read_lines, rendered, row_of, row_text, rows_fit, shape_of_rows,
    split_lines, start_reading, step, title_mark, Reading,
};
use crate::shape::{SIDE, Shape, lemma_shape_by_cells};
use crate::text::{
    all_digits, contains_text, decimal_digits, decimal_value, digit_char, digit_value,
    first_word, is_space, lemma_leading_spaces, lemma_leading_word, lemma_position_of,
    occurs_at, parse_unsigned, position_of, second_field,
};

verus! {

/// Whether a text holds no line feed.
pub open spec fn one_line(text: Seq<char>) -> bool {
    forall|i: int| 0 <= i < text.len() ==> text[i] != '\n'
}

/// Whether a text ends where a line ends: it is empty, or its last
/// character is a line feed.
pub open spec fn complete(text: Seq<char>) -> bool {
    split_lines(text).last().len() == 0
}

/// What the lines of a complete text, without the empty one at its end,
/// are read as.
pub open spec fn body(text: Seq<char>) -> Option<Reading> {
    read_lines(split_lines(text).drop_last())
}

/// A text always has a last line.
pub proof fn lemma_split_lines_len(text: Seq<char>)
    ensures
        split_lines(text).len() > 0,
    decreases text.len(),
{
    if text.len() > 0 {
        lemma_split_lines_len(text.drop_last());
    }
}

/// Characters without a line feed behind a text go to its last line.
pub proof fn lemma_split_lines_more(text: Seq<char>, more: Seq<char>)
    requires
        one_line(more),
    ensures
        split_lines(text + more) == split_lines(text).drop_last().push(
            split_lines(text).last() + more,
        ),
    decreases more.len(),
{
    lemma_split_lines_len(text);
    if more.len() == 0 {
        assert(text + more =~= text);
        assert(split_lines(text).last() + more =~= split_lines(text).last());
        assert(split_lines(text).drop_last().push(split_lines(text).last()) =~= split_lines(text));
    } else {
        let front = more.drop_last();
        lemma_split_lines_more(text, front);
        assert((text + more).drop_last() =~= text + front);
        assert((text + more).last() == more[more.len() - 1]);
        let before = split_lines(text + front);
        assert(before.drop_last() =~= split_lines(text).drop_last());
        assert(before.last().push(more.last()) =~= split_lines(text).last() + more);
    }
}

/// One more line behind a complete text is one more line to read.
pub proof fn lemma_one_more_line(text: Seq<char>, line: Seq<char>)
    requires
        complete(text),
        one_line(line),
    ensures
        complete(text + line.push('\n')),
        body(text + line.push('\n')) == match body(text) {
            Some(reading) => step(reading, line),
            None => None,
        },
{
    lemma_split_lines_len(text);
    lemma_split_lines_more(text, line);
    let whole = text + line.push('\n');
    assert(whole.drop_last() =~= text + line);
    assert(whole.last() == '\n');
    let lines = split_lines(text + line);
    assert(split_lines(text).last() + line =~= line);
    assert(split_lines(whole) == lines.push(Seq::empty()));
    assert(split_lines(whole).drop_last() =~= lines);
    assert(lines.drop_last() =~= split_lines(text).drop_last());
    assert(lines.last() == line);
}

/// The digits of a number are decimal digits, at least one, and spell the
/// number.
pub proof fn lemma_decimal_digits(number: nat)
    ensures
        decimal_digits(number).len() > 0,
        forall|i: int|
            0 <= i < decimal_digits(number).len() ==> '0' <= #[trigger] decimal_digits(number)[i]
                <= '9',
        all_digits(decimal_digits(number)),
        decimal_value(decimal_digits(number)) == number,
    decreases number,
{
    let digits = decimal_digits(number);
    if number < 10 {
        assert(digits.drop_last() =~= Seq::<char>::empty());
        assert(decimal_value(digits.drop_last()) == 0);
        assert(digit_value(digit_char(number)) == Some(number));
    } else {
        lemma_decimal_digits(number / 10);
        let front = decimal_digits(number / 10);
        assert(digits.drop_last() =~= front);
        assert(digit_value(digit_char(number % 10)) == Some(number % 10));
        assert forall|i: int| 0 <= i < digits.len() implies '0' <= #[trigger] digits[i] <= '9' by {
            if i < front.len() {
                assert(digits[i] == front[i]);
            }
        }
    }
}

/// The digits of a number are read as the number.
pub proof fn lemma_parse_decimal_digits(number: nat, max: nat)
    requires
        number <= max,
    ensures
        parse_unsigned(decimal_digits(number), max) == Some(number),
        one_line(decimal_digits(number)),
        forall|i: int|
            0 <= i < decimal_digits(number).len() ==> {
                &&& !is_space(#[trigger] decimal_digits(number)[i])
                &&& decimal_digits(number)[i] != '='
                &&& decimal_digits(number)[i] != '#'
                &&& decimal_digits(number)[i] != 'X'
                &&& decimal_digits(number)[i] != '.'
                &&& decimal_digits(number)[i] != 'B'
            },
{
    lemma_decimal_digits(number);
    let digits = decimal_digits(number);
    assert('0' <= digits[0] <= '9');
}

/// The line that opens the group of `t`.
pub open spec fn header_line(t: u32) -> Seq<char> {
    header_text() + decimal_digits(t as nat)
}

/// The line that opens the entry with the id `id`.
pub open spec fn title_line(id: u64) -> Seq<char> {
    title_mark() + decimal_digits(id as nat)
}

/// The line that draws row `r` of a shape.
pub open spec fn row_line(shape: Shape, r: int) -> Seq<char> {
    Seq::new(
        SIDE as nat,
        |c: int|
            if shape.occupied(4 * r + c) {
                'X'
            } else {
                '.'
            },
    )
}

/// Digits are their own first word.
proof fn lemma_first_word_of_digits(number: nat)
    ensures
        first_word(decimal_digits(number)) == decimal_digits(number),
        first_word(seq![' '] + decimal_digits(number)) == decimal_digits(number),
{
    lemma_parse_decimal_digits(number, number);
    let digits = decimal_digits(number);
    lemma_leading_spaces(digits, 0);
    assert(digits.skip(0) =~= digits);
    lemma_leading_word(digits, digits.len() as int);
    assert(digits.take(digits.len() as int) =~= digits);
    let spaced = seq![' '] + digits;
    assert(spaced[1] == digits[0]);
    lemma_leading_spaces(spaced, 1);
    assert(spaced.skip(1) =~= digits);
}

/// The header of a group is read as the header of that group.
pub proof fn lemma_header_line(t: u32)
    ensures
        one_line(header_line(t)),
        contains_text(header_line(t), header_mark()),
        number_behind(header_line(t), '=', u32::MAX as nat) == Some(t as nat),
{
    reveal_strlit("Boards with t =");
    reveal_strlit("Boards with t = ");
    let digits = decimal_digits(t as nat);
    let line = header_line(t);
    lemma_parse_decimal_digits(t as nat, u32::MAX as nat);
    lemma_first_word_of_digits(t as nat);
    assert forall|i: int| 0 <= i < line.len() implies line[i] != '\n' by {
        if i >= 16 {
            assert(line[i] == digits[i - 16]);
        }
    }
    assert(line.subrange(0, 15) =~= header_mark());
    assert(occurs_at(line, header_mark(), 0));
    lemma_position_of(line, '=', 14);
    let rest = line.skip(15);
    assert(rest =~= seq![' '] + digits);
    assert forall|j: int| 0 <= j < rest.len() implies rest[j] != '=' by {
        if j >= 1 {
            assert(rest[j] == digits[j - 1]);
        }
    }
    lemma_position_of(rest, '=', rest.len() as int);
    assert(rest.take(rest.len() as int) =~= rest);
    assert(second_field(line, '=') == rest);
}

/// The title of an entry is read as the title of that entry.
pub proof fn lemma_title_line(id: u64)
    ensures
        one_line(title_line(id)),
        !contains_text(title_line(id), header_mark()),
        occurs_at(title_line(id), title_mark(), 0),
        number_behind(title_line(id), '#', u64::MAX as nat) == Some(id as nat),
{
    reveal_strlit("Boards with t =");
    reveal_strlit("Board #");
    let digits = decimal_digits(id as nat);
    let line = title_line(id);
    lemma_parse_decimal_digits(id as nat, u64::MAX as nat);
    lemma_first_word_of_digits(id as nat);
    assert forall|i: int| 0 <= i < line.len() implies line[i] != '\n' && (i >= 1 ==> line[i]
        != 'B') by {
        if i >= 7 {
            assert(line[i] == digits[i - 7]);
        }
    }
    assert forall|at: int| !occurs_at(line, header_mark(), at) by {
        if occurs_at(line, header_mark(), at) {
            let part = line.subrange(at, at + 15);
            assert(part[0] == line[at]);
            assert(part[5] == line[at + 5]);
            assert(line[at] == 'B');
            assert(at == 0);
            assert(line[5] == ' ');
        }
    }
    assert(line.subrange(0, 7) =~= title_mark());
    lemma_position_of(line, '#', 6);
    let rest = line.skip(7);
    assert(rest =~= digits);
    lemma_position_of(rest, '#', rest.len() as int);
    assert(rest.take(rest.len() as int) =~= rest);
    assert(second_field(line, '#') == rest);
}

/// A text of `X` and `.` is its own row.
proof fn lemma_row_of_marks(line: Seq<char>)
    requires
        forall|i: int| 0 <= i < line.len() ==> line[i] == 'X' || line[i] == '.',
    ensures
        row_of(line) == line,
    decreases line.len(),
{
    reveal(Seq::filter);
    if line.len() > 0 {
        let front = line.drop_last();
        assert forall|i: int| 0 <= i < front.len() implies front[i] == 'X' || front[i] == '.' by {
            assert(front[i] == line[i]);
        }
        lemma_row_of_marks(front);
        assert(line.last() == line[line.len() - 1]);
        assert(front.push(line.last()) =~= line);
    }
}

/// The line of a row is read as that row.
pub proof fn lemma_row_line(shape: Shape, r: int)
    ensures
        one_line(row_line(shape, r)),
        !contains_text(row_line(shape, r), header_mark()),
        !occurs_at(row_line(shape, r), title_mark(), 0),
        row_of(row_line(shape, r)) == row_line(shape, r),
        row_line(shape, r).len() == SIDE,
{
    reveal_strlit("Boards with t =");
    reveal_strlit("Board #");
    lemma_row_of_marks(row_line(shape, r));
}

/// The empty line is skipped.
pub proof fn lemma_empty_line()
    ensures
        !contains_text(Seq::<char>::empty(), header_mark()),
        !occurs_at(Seq::<char>::empty(), title_mark(), 0),
        row_of(Seq::<char>::empty()).len() == 0,
{
    reveal_strlit("Boards with t =");
    reveal_strlit("Board #");
    reveal(Seq::filter);
}

/// The four rows that draw a shape.
pub open spec fn rows_of(shape: Shape) -> Seq<Seq<char>> {
    Seq::new(SIDE as nat, |r: int| row_line(shape, r))
}

/// The rows that draw a shape are four by four and draw that shape.
pub proof fn lemma_shape_of_rows(shape: Shape)
    ensures
        rows_fit(rows_of(shape)),
        shape_of_rows(rows_of(shape)) == shape,
{
    let rows = rows_of(shape);
    assert(marked(rows, shape)) by {
        assert forall|k: int| 0 <= k < 16 implies shape.occupied(k) == (rows[k / 4][k % 4]
            == 'X') by {
            assert(4 * (k / 4) + k % 4 == k);
        }
    }
    lemma_shape_by_cells(shape, shape_of_rows(rows));
}

/// Whether `text` ends where a line ends and is read, up to there, as the
/// groups `groups` with the number of tiles `t` given last.
pub open spec fn reads_as(text: Seq<char>, t: u32, groups: Seq<GroupView>) -> bool {
    &&& complete(text)
    &&& body(text) is Some
    &&& body(text).unwrap().t == t
    &&& flushed(body(text).unwrap()) is Some
    &&& flushed(body(text).unwrap()).unwrap().groups == groups
}

/// The groups `done` with the entries `entries` under `t` behind them.
pub open spec fn listed(done: Seq<GroupView>, t: u32, entries: Seq<Entry>) -> Seq<GroupView> {
    if entries.len() == 0 {
        done
    } else {
        done.push(GroupView { t, entries })
    }
}

/// One more entry under the largest number of tiles goes to the end of the
/// last group.
proof fn lemma_inserted_last(done: Seq<GroupView>, t: u32, entries: Seq<Entry>, entry: Entry)
    requires
        forall|i: int| 0 <= i < done.len() ==> (#[trigger] done[i]).t < t,
    ensures
        inserted(listed(done, t, entries), t, entry) == listed(done, t, entries.push(entry)),
{
    let before = listed(done, t, entries);
    lemma_inserted_at(before, t, entry, done.len() as int);
    if entries.len() == 0 {
        assert(seq![entry] =~= entries.push(entry));
        let group = GroupView { t, entries: entries.push(entry) };
        assert(group == GroupView { t, entries: seq![entry] });
        assert(before.insert(done.len() as int, group) =~= done.push(group));
    } else {
        assert(before.update(
            done.len() as int,
            GroupView { t, entries: before[done.len() as int].entries.push(entry) },
        ) =~= done.push(GroupView { t, entries: entries.push(entry) }));
    }
}

/// The five lines of an entry are read as that entry.
proof fn lemma_entry_read(text: Seq<char>, entry: Entry)
    requires
        complete(text),
        body(text) is Some,
        flushed(body(text).unwrap()) is Some,
    ensures
        complete(text + entry_text(entry)),
        body(text + entry_text(entry)) == Some(
            Reading {
                id: entry.global_id,
                rows: rows_of(entry.shape),
                ..flushed(body(text).unwrap()).unwrap()
            },
        ),
{
    let shape = entry.shape;
    let closed = flushed(body(text).unwrap()).unwrap();
    lemma_title_line(entry.global_id);
    lemma_row_line(shape, 0);
    lemma_row_line(shape, 1);
    lemma_row_line(shape, 2);
    lemma_row_line(shape, 3);
    let t0 = text + title_line(entry.global_id).push('\n');
    lemma_one_more_line(text, title_line(entry.global_id));
    let r0 = Reading { id: entry.global_id, ..closed };
    assert(body(t0) == Some(r0));
    let t1 = t0 + row_line(shape, 0).push('\n');
    lemma_one_more_line(t0, row_line(shape, 0));
    let t2 = t1 + row_line(shape, 1).push('\n');
    lemma_one_more_line(t1, row_line(shape, 1));
    let t3 = t2 + row_line(shape, 2).push('\n');
    lemma_one_more_line(t2, row_line(shape, 2));
    let t4 = t3 + row_line(shape, 3).push('\n');
    lemma_one_more_line(t3, row_line(shape, 3));
    assert(row_text(shape, 0) =~= row_line(shape, 0).push('\n'));
    assert(row_text(shape, 1) =~= row_line(shape, 1).push('\n'));
    assert(row_text(shape, 2) =~= row_line(shape, 2).push('\n'));
    assert(row_text(shape, 3) =~= row_line(shape, 3).push('\n'));
    assert(t4 =~= text + entry_text(entry));
    let rows = closed.rows.push(row_line(shape, 0)).push(row_line(shape, 1)).push(
        row_line(shape, 2),
    ).push(row_line(shape, 3));
    assert(closed.rows.len() == 0);
    assert(rows =~= rows_of(shape));
}

/// The lines of some entries behind the header of their group, or behind
/// earlier entries of the group, are read as those entries.
proof fn lemma_entries_read(text: Seq<char>, done: Seq<GroupView>, t: u32, entries: Seq<Entry>)
    requires
        reads_as(text, t, done),
        forall|i: int| 0 <= i < done.len() ==> (#[trigger] done[i]).t < t,
    ensures
        reads_as(text + entries_text(entries), t, listed(done, t, entries)),
    decreases entries.len(),
{
    if entries.len() == 0 {
        assert(text + entries_text(entries) =~= text);
    } else {
        let front = entries.drop_last();
        let entry = entries.last();
        lemma_entries_read(text, done, t, front);
        let before = text + entries_text(front);
        lemma_entry_read(before, entry);
        assert(before + entry_text(entry) =~= text + entries_text(entries));
        lemma_shape_of_rows(entry.shape);
        lemma_inserted_last(done, t, front, entry);
        assert(front.push(entry) =~= entries);
    }
}

/// The text that stores the groups is read, line by line, as the groups.
proof fn lemma_rendered_read(groups: Seq<GroupView>)
    requires
        ascending(groups),
        forall|i: int| 0 <= i < groups.len() ==> (#[trigger] groups[i]).entries.len() > 0,
    ensures
        complete(rendered(groups)),
        body(rendered(groups)) is Some,
        flushed(body(rendered(groups)).unwrap()) is Some,
        flushed(body(rendered(groups)).unwrap()).unwrap().groups == groups,
    decreases groups.len(),
{
    if groups.len() == 0 {
        assert(split_lines(Seq::<char>::empty()).drop_last() =~= Seq::<Seq<char>>::empty());
        assert(body(rendered(groups)) == Some(start_reading()));
        assert(groups =~= Seq::<GroupView>::empty());
    } else {
        let front = groups.drop_last();
        let group = groups.last();
        assert forall|i: int, j: int| 0 <= i < j < front.len() implies front[i].t < front[j].t by {
            assert(groups[i].t < groups[j].t);
        }
        assert forall|i: int| 0 <= i < front.len() implies (#[trigger] front[i]).entries.len()
            > 0 by {
            assert(groups[i].entries.len() > 0);
        }
        lemma_rendered_read(front);
        let text = rendered(front);
        lemma_header_line(group.t);
        lemma_one_more_line(text, header_line(group.t));
        let opened = text + header_line(group.t).push('\n');
        assert(reads_as(opened, group.t, front));
        assert forall|i: int| 0 <= i < front.len() implies (#[trigger] front[i]).t < group.t by {
            assert(groups[i].t < groups[groups.len() - 1].t);
        }
        lemma_entries_read(opened, front, group.t, group.entries);
        assert(opened + entries_text(group.entries) =~= rendered(groups));
        assert(groups[groups.len() - 1].entries.len() > 0);
        assert(front.push(GroupView { t: group.t, entries: group.entries }) =~= groups);
    }
}

/// Reading inverts writing: the text that stores a catalog is read as that
/// catalog, with the same groups, ids and shapes.
pub proof fn lemma_parse_of_rendered(groups: Seq<GroupView>)
    requires
        well_formed(groups),
    ensures
        parsed(rendered(groups)) == Some(groups),
{
    lemma_rendered_read(groups);
    let text = rendered(groups);
    lemma_split_lines_len(text);
    lemma_empty_line();
    let lines = split_lines(text);
    assert(lines.last() =~= Seq::<char>::empty());
    assert(read_lines(lines) == step(body(text).unwrap(), lines.last()));
}

} // verus!
