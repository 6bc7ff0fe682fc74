//! The stored form of a catalog: a text of lines.
//!
//! A line that holds `Boards with t =` opens the group of the number behind
//! the `=`. A line that begins with `Board #` opens the entry with the id
//! behind the `#`. A line that holds `X` or `.` is one row of the entry's
//! shape, read from those two characters alone; an entry has four rows of
//! four cells. Every other line is skipped.

use vstd::prelude::*;
use vstd::string::StringExecFns;
use crate::catalog::{Catalog, Entry, GroupView, inserted, total};
use crate::error::CatalogLoadError;
use crate::shape::{CELLS, SIDE, Shape, lemma_shape_by_cells};
use crate::text::{
    chars_of, contains, contains_text, decimal_digits, find, first_word, occurs_at, parse_number,
    parse_unsigned, push_decimal, second_field, starts_with, word_bounds,
};

verus! {

/// The lines of a text: what stands between its line feeds.
pub open spec fn split_lines(text: Seq<char>) -> Seq<Seq<char>>
    decreases text.len(),
{
    if text.len() == 0 {
        seq![Seq::empty()]
    } else {
        let before = split_lines(text.drop_last());
        if text.last() == '\n' {
            before.push(Seq::empty())
        } else {
            before.drop_last().push(before.last().push(text.last()))
        }
    }
}

/// What opens a group.
pub open spec fn header_mark() -> Seq<char> {
    "Boards with t ="@
}

/// What opens an entry.
pub open spec fn title_mark() -> Seq<char> {
    "Board #"@
}

/// The test for the two characters that a row is made of.
pub open spec fn is_row_mark() -> spec_fn(char) -> bool {
    |c: char| c == 'X' || c == '.'
}

/// The row that a line holds: its `X` and `.` in their order.
pub open spec fn row_of(line: Seq<char>) -> Seq<char> {
    line.filter(is_row_mark())
}

/// Whether the rows are four rows of four cells.
pub open spec fn rows_fit(rows: Seq<Seq<char>>) -> bool {
    rows.len() == SIDE && forall|r: int| 0 <= r < SIDE ==> (#[trigger] rows[r]).len() == SIDE
}

/// Whether `shape` holds a tile exactly where the rows hold an `X`.
pub open spec fn marked(rows: Seq<Seq<char>>, shape: Shape) -> bool {
    forall|k: int| 0 <= k < CELLS ==> shape.occupied(k) == (rows[k / 4][k % 4] == 'X')
}

/// The shape that four rows draw.
pub open spec fn shape_of_rows(rows: Seq<Seq<char>>) -> Shape {
    choose|shape: Shape| marked(rows, shape)
}

/// What has been read of a stored catalog: the number of tiles and the id
/// that were given last, the rows of the entry that is being read, and the
/// groups of the entries that are complete.
pub struct Reading {
    pub t: u32,
    pub id: u64,
    pub rows: Seq<Seq<char>>,
    pub groups: Seq<GroupView>,
}

/// The reading before the first line.
pub open spec fn start_reading() -> Reading {
    Reading { t: 0, id: 0, rows: Seq::empty(), groups: Seq::empty() }
}

/// Closes the entry that is being read. Without rows there is none; with
/// rows that are not four by four the text is broken.
pub open spec fn flushed(reading: Reading) -> Option<Reading> {
    if reading.rows.len() == 0 {
        Some(reading)
    } else if rows_fit(reading.rows) {
        Some(
            Reading {
                rows: Seq::empty(),
                groups: inserted(
                    reading.groups,
                    reading.t,
                    Entry { global_id: reading.id, shape: shape_of_rows(reading.rows) },
                ),
                ..reading
            },
        )
    } else {
        None
    }
}

/// The number that a line gives behind its first `mark`: the first word
/// there, read as an unsigned decimal number not above `max`.
pub open spec fn number_behind(line: Seq<char>, mark: char, max: nat) -> Option<nat> {
    parse_unsigned(first_word(second_field(line, mark)), max)
}

/// Reads one more line.
pub open spec fn step(reading: Reading, line: Seq<char>) -> Option<Reading> {
    if contains_text(line, header_mark()) {
        match (flushed(reading), number_behind(line, '=', u32::MAX as nat)) {
            (Some(closed), Some(t)) => Some(Reading { t: t as u32, ..closed }),
            _ => None,
        }
    } else if occurs_at(line, title_mark(), 0) {
        match (flushed(reading), number_behind(line, '#', u64::MAX as nat)) {
            (Some(closed), Some(id)) => Some(Reading { id: id as u64, ..closed }),
            _ => None,
        }
    } else if row_of(line).len() > 0 {
        Some(Reading { rows: reading.rows.push(row_of(line)), ..reading })
    } else {
        Some(reading)
    }
}

/// Reads the lines in their order; `None` as soon as one breaks the format.
pub open spec fn read_lines(lines: Seq<Seq<char>>) -> Option<Reading>
    decreases lines.len(),
{
    if lines.len() == 0 {
        Some(start_reading())
    } else {
        match read_lines(lines.drop_last()) {
            Some(reading) => step(reading, lines.last()),
            None => None,
        }
    }
}

/// The catalog that a text stores, if the text keeps to the format.
pub open spec fn parsed(text: Seq<char>) -> Option<Seq<GroupView>> {
    match read_lines(split_lines(text)) {
        Some(reading) => match flushed(reading) {
            Some(closed) => Some(closed.groups),
            None => None,
        },
        None => None,
    }
}

/// The state of the reader between two lines.
struct Reader {
    t: u32,
    id: u64,
    rows: Vec<Vec<char>>,
    catalog: Catalog,
}

impl Reader {
    /// What the reader has read.
    spec fn reading(&self) -> Reading {
        Reading {
            t: self.t,
            id: self.id,
            rows: Seq::new(self.rows@.len(), |r: int| self.rows@[r]@),
            groups: self.catalog@,
        }
    }

    /// Whether the catalog is in order, and its entries and the rows at hand
    /// are together not more than `limit`.
    spec fn within(&self, limit: nat) -> bool {
        self.catalog.wf() && total(self.catalog@) + self.rows@.len() <= limit
    }

    /// Closes the entry that is being read; `false` if its rows are not
    /// four by four.
    fn flush(&mut self, Ghost(limit): Ghost<nat>) -> (fine: bool)
        requires
            old(self).within(limit),
            limit <= usize::MAX,
        ensures
            fine == flushed(old(self).reading()) is Some,
            fine ==> final(self).reading() == flushed(old(self).reading()).unwrap(),
            fine ==> final(self).within(limit),
    {
        let ghost rows = self.reading().rows;
        if self.rows.len() == 0 {
            return true;
        }
        if self.rows.len() != SIDE {
            return false;
        }
        let mut held = [false; 16];
        let mut r: usize = 0;
        while r < SIDE
            invariant
                r <= SIDE,
                self.rows@.len() == SIDE,
                rows == self.reading().rows,
                forall|i: int| 0 <= i < r ==> (#[trigger] rows[i]).len() == SIDE,
                forall|k: int| 0 <= k < 4 * r ==> held[k] == (rows[k / 4][k % 4] == 'X'),
            decreases SIDE - r,
        {
            assert(rows[r as int] == self.rows@[r as int]@);
            if self.rows[r].len() != SIDE {
                return false;
            }
            held[4 * r] = self.rows[r][0] == 'X';
            held[4 * r + 1] = self.rows[r][1] == 'X';
            held[4 * r + 2] = self.rows[r][2] == 'X';
            held[4 * r + 3] = self.rows[r][3] == 'X';
            r += 1;
        }
        let shape = Shape::from_cells(&held);
        proof {
            assert(rows_fit(rows));
            assert(marked(rows, shape));
            lemma_shape_by_cells(shape, shape_of_rows(rows));
        }
        self.catalog.insert(self.t, Entry { global_id: self.id, shape });
        self.rows = Vec::new();
        assert(self.reading().rows =~= Seq::<Seq<char>>::empty());
        true
    }
}

/// The number that the line from `from` up to `to` gives behind its first
/// `mark`.
fn number_at(chars: &Vec<char>, from: usize, to: usize, mark: char, max: u64) -> (number: Option<
    u64,
>)
    requires
        from <= to <= chars@.len(),
    ensures
        match number {
            Some(n) => number_behind(chars@.subrange(from as int, to as int), mark, max as nat)
                == Some(n as nat),
            None => number_behind(chars@.subrange(from as int, to as int), mark, max as nat)
                is None,
        },
{
    let ghost line = chars@.subrange(from as int, to as int);
    let first = find(chars, from, to, mark);
    if first == to {
        assert(first_word(Seq::<char>::empty()) =~= Seq::<char>::empty());
        return None;
    }
    let after = first + 1;
    let next = find(chars, after, to, mark);
    let (a, b) = word_bounds(chars, after, next);
    proof {
        let rest = line.skip(first - from + 1);
        assert(rest =~= chars@.subrange(after as int, to as int));
        assert(chars@.subrange(after as int, next as int) =~= rest.take(next - after));
    }
    parse_number(chars, a, b, max)
}

/// The row that the line from `from` up to `to` holds.
fn row_at(chars: &Vec<char>, from: usize, to: usize) -> (row: Vec<char>)
    requires
        from <= to <= chars@.len(),
    ensures
        row@ == row_of(chars@.subrange(from as int, to as int)),
{
    let ghost line = chars@.subrange(from as int, to as int);
    let mut row: Vec<char> = Vec::new();
    let mut i = from;
    proof {
        reveal(Seq::filter);
        assert(line.take(0) =~= Seq::<char>::empty());
    }
    while i < to
        invariant
            from <= i <= to <= chars@.len(),
            line == chars@.subrange(from as int, to as int),
            row@ == row_of(line.take(i - from)),
        decreases to - i,
    {
        proof {
            line.lemma_take_succ_push(i - from);
            line.take(i - from).lemma_filter_push(line[i - from], is_row_mark());
        }
        let c = chars[i];
        if c == 'X' || c == '.' {
            row.push(c);
        }
        i += 1;
    }
    proof {
        line.lemma_take_len();
    }
    row
}

impl Reader {
    /// Reads the line from `from` up to `to`; `false` if it breaks the
    /// format.
    fn feed(
        &mut self,
        chars: &Vec<char>,
        from: usize,
        to: usize,
        header: &Vec<char>,
        title: &Vec<char>,
    ) -> (fine: bool)
        requires
            from <= to <= chars@.len(),
            old(self).within(from as nat),
            header@ == header_mark(),
            title@ == title_mark(),
        ensures
            fine == step(old(self).reading(), chars@.subrange(from as int, to as int)) is Some,
            fine ==> final(self).reading() == step(
                old(self).reading(),
                chars@.subrange(from as int, to as int),
            ).unwrap(),
            fine ==> final(self).within(to as nat),
    {
        let ghost line = chars@.subrange(from as int, to as int);
        if contains(chars, from, to, header) {
            let t = number_at(chars, from, to, '=', 0xffff_ffff);
            let closed = self.flush(Ghost(from as nat));
            match t {
                Some(t) => {
                    if closed {
                        self.t = t as u32;
                    }
                    closed
                },
                None => false,
            }
        } else if starts_with(chars, from, to, title) {
            let id = number_at(chars, from, to, '#', u64::MAX);
            let closed = self.flush(Ghost(from as nat));
            match id {
                Some(id) => {
                    if closed {
                        self.id = id;
                    }
                    closed
                },
                None => false,
            }
        } else {
            let row = row_at(chars, from, to);
            if row.len() > 0 {
                proof {
                    line.lemma_filter_len(is_row_mark());
                }
                let ghost before = self.reading().rows;
                self.rows.push(row);
                assert(self.reading().rows =~= before.push(row_of(line)));
            }
            true
        }
    }
}

impl Catalog {
    /// Reads a stored catalog. The entries come under the numbers of tiles
    /// and ids that the text gives them, the groups in ascending order of
    /// the number of tiles.
    pub fn parse(text: &str) -> (loaded: Result<Catalog, CatalogLoadError>)
        ensures
            match loaded {
                Ok(catalog) => parsed(text@) == Some(catalog@) && catalog.wf(),
                Err(error) => error == CatalogLoadError::Malformed && parsed(text@) is None,
            },
    {
        let chars = chars_of(text);
        let header = chars_of("Boards with t =");
        let title = chars_of("Board #");
        let mut reader = Reader { t: 0, id: 0, rows: Vec::new(), catalog: Catalog::new() };
        let mut failed = false;
        let mut start: usize = 0;
        let mut i: usize = 0;
        let ghost mut done: Seq<Seq<char>> = Seq::empty();
        proof {
            assert(reader.reading().rows =~= Seq::<Seq<char>>::empty());
            assert(reader.reading() == start_reading());
            assert(chars@.take(0) =~= Seq::<char>::empty());
            assert(chars@.subrange(0, 0) =~= Seq::<char>::empty());
            assert(split_lines(chars@.take(0)) =~= done.push(chars@.subrange(0, 0)));
            assert(total(reader.catalog@) == 0);
        }
        while i < chars.len()
            invariant
                start <= i <= chars@.len(),
                chars@ == text@,
                header@ == header_mark(),
                title@ == title_mark(),
                split_lines(chars@.take(i as int)) == done.push(
                    chars@.subrange(start as int, i as int),
                ),
                failed <==> read_lines(done) is None,
                !failed ==> reader.reading() == read_lines(done).unwrap(),
                !failed ==> reader.within(start as nat),
            decreases chars@.len() - i,
        {
            let ghost line = chars@.subrange(start as int, i as int);
            proof {
                assert(chars@.take(i + 1).drop_last() =~= chars@.take(i as int));
                assert(done.push(line).drop_last() =~= done);
            }
            if chars[i] == '\n' {
                if !failed {
                    let fine = reader.feed(&chars, start, i, &header, &title);
                    failed = !fine;
                }
                proof {
                    done = done.push(line);
                    assert(chars@.subrange(i + 1, i + 1) =~= Seq::<char>::empty());
                }
                start = i + 1;
            } else {
                proof {
                    assert(chars@.subrange(start as int, i + 1) =~= line.push(chars@[i as int]));
                }
            }
            i += 1;
        }
        let ghost line = chars@.subrange(start as int, i as int);
        proof {
            assert(chars@.take(i as int) =~= chars@);
            assert(done.push(line).drop_last() =~= done);
        }
        if !failed {
            let fine = reader.feed(&chars, start, i, &header, &title);
            failed = !fine;
        }
        if !failed {
            let fine = reader.flush(Ghost(i as nat));
            failed = !fine;
        }
        if failed {
            Err(CatalogLoadError::Malformed)
        } else {
            Ok(reader.catalog)
        }
    }
}

/// The line that draws row `r` of a shape: `X` for a tile, `.` for none.
pub open spec fn row_text(shape: Shape, r: int) -> Seq<char> {
    Seq::new(
        SIDE as nat,
        |c: int|
            if shape.occupied(4 * r + c) {
                'X'
            } else {
                '.'
            },
    ).push('\n')
}

/// The five lines of an entry: its title and its four rows.
pub open spec fn entry_text(entry: Entry) -> Seq<char> {
    title_mark() + decimal_digits(entry.global_id as nat).push('\n') + row_text(entry.shape, 0)
        + row_text(entry.shape, 1) + row_text(entry.shape, 2) + row_text(entry.shape, 3)
}

/// The lines of some entries in their order.
pub open spec fn entries_text(entries: Seq<Entry>) -> Seq<char>
    decreases entries.len(),
{
    if entries.len() == 0 {
        Seq::empty()
    } else {
        entries_text(entries.drop_last()) + entry_text(entries.last())
    }
}

/// What opens a group in a text that is written out.
pub open spec fn header_text() -> Seq<char> {
    "Boards with t = "@
}

/// The lines of a group: its header and its entries.
pub open spec fn group_text(group: GroupView) -> Seq<char> {
    header_text() + decimal_digits(group.t as nat).push('\n') + entries_text(group.entries)
}

/// The text that stores the groups.
pub open spec fn rendered(groups: Seq<GroupView>) -> Seq<char>
    decreases groups.len(),
{
    if groups.len() == 0 {
        Seq::empty()
    } else {
        rendered(groups.drop_last()) + group_text(groups.last())
    }
}

/// Writes the line of row `r` of a shape at the end of `out`.
fn push_row(out: &mut String, shape: &Shape, r: usize)
    requires
        r < SIDE,
    ensures
        final(out)@ == old(out)@ + row_text(*shape, r as int),
{
    let ghost before = out@;
    let mut c: usize = 0;
    while c < SIDE
        invariant
            c <= SIDE,
            r < SIDE,
            out@ == before + Seq::new(
                c as nat,
                |j: int|
                    if shape.occupied(4 * r + j) {
                        'X'
                    } else {
                        '.'
                    },
            ),
        decreases SIDE - c,
    {
        proof {
            reveal_strlit("X");
            reveal_strlit(".");
        }
        if shape.is_occupied(4 * r + c) {
            out.append("X");
        } else {
            out.append(".");
        }
        c += 1;
        assert(out@ =~= before + Seq::new(
            c as nat,
            |j: int|
                if shape.occupied(4 * r + j) {
                    'X'
                } else {
                    '.'
                },
        ));
    }
    proof {
        reveal_strlit("\n");
    }
    out.append("\n");
    assert(out@ =~= before + row_text(*shape, r as int));
}

/// Writes the five lines of an entry at the end of `out`.
fn push_entry(out: &mut String, entry: &Entry)
    ensures
        final(out)@ == old(out)@ + entry_text(*entry),
{
    let ghost before = out@;
    proof {
        reveal_strlit("\n");
    }
    out.append("Board #");
    push_decimal(out, entry.global_id);
    out.append("\n");
    push_row(out, &entry.shape, 0);
    push_row(out, &entry.shape, 1);
    push_row(out, &entry.shape, 2);
    push_row(out, &entry.shape, 3);
    assert(out@ =~= before + entry_text(*entry));
}

impl Catalog {
    /// Writes the catalog as the text that stores it: for each group its
    /// header, and for each entry its title and the four rows of its shape.
    pub fn render(&self) -> (text: String)
        ensures
            text@ == rendered(self@),
    {
        let mut out = String::new();
        let mut g: usize = 0;
        assert(self@.take(0) =~= Seq::<GroupView>::empty());
        while g < self.groups.len()
            invariant
                g <= self.groups@.len(),
                out@ == rendered(self@.take(g as int)),
            decreases self.groups@.len() - g,
        {
            let ghost before = out@;
            let group = &self.groups[g];
            out.append("Boards with t = ");
            push_decimal(&mut out, group.t as u64);
            proof {
                reveal_strlit("\n");
            }
            out.append("\n");
            let ghost head = out@;
            assert(head =~= before + header_text() + decimal_digits(group.t as nat).push('\n'));
            let mut e: usize = 0;
            assert(group.entries@.take(0) =~= Seq::<Entry>::empty());
            while e < group.entries.len()
                invariant
                    e <= group.entries@.len(),
                    out@ == head + entries_text(group.entries@.take(e as int)),
                decreases group.entries@.len() - e,
            {
                push_entry(&mut out, &group.entries[e]);
                proof {
                    assert(group.entries@.take(e + 1).drop_last() =~= group.entries@.take(
                        e as int,
                    ));
                }
                e += 1;
            }
            proof {
                assert(group.entries@.take(e as int) =~= group.entries@);
                assert(self@.take(g + 1).drop_last() =~= self@.take(g as int));
                assert(self@.take(g + 1).last() == group@);
                assert(out@ =~= before + group_text(group@));
            }
            g += 1;
        }
        assert(self@.take(g as int) =~= self@);
        out
    }
}

} // verus!
