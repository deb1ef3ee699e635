//! The history as text, one record to a line: the time of the last use, the
//! count of uses and the directory, with whitespace between them.

use vstd::prelude::*;
use crate::decimal::{
    decimal, parse_i32, parse_u64, parsed_i32, parsed_u64, push_decimal, push_right_padded,
    right_padded, signed_decimal, signed_text,
};
use crate::history::History;
use crate::item::{HistoryItem, Record};
use crate::sorting::records;
use crate::text::{chars_of, joined, pieces};

verus! {

/// The width of the field in which the count of uses is written.
pub const COUNT_WIDTH: usize = 4;

/// What is wrong with a line of the history.
#[derive(Debug, PartialEq, Eq, Clone, Copy)]
pub enum LineFault {
    /// The line has fewer than three fields.
    TooFewFields,
    /// The first field is no time.
    BadTime,
    /// The second field is no count.
    BadCount,
}

/// A line of the history whose time or count cannot be read.
#[derive(Debug, PartialEq, Eq, Clone, Copy)]
pub struct LoadFault {
    /// The index of the line, the first line being line 0.
    pub line: usize,
    /// What is wrong with it.
    pub fault: LineFault,
}

/// The parts of a line as they stand in it: the time, the count, and the
/// name that the fields after them make.
#[derive(Debug, PartialEq, Eq)]
pub struct Entry {
    pub time: String,
    pub count: String,
    pub filename: String,
}

/// What an entry says.
pub struct EntryText {
    pub time: Seq<char>,
    pub count: Seq<char>,
    pub filename: Seq<char>,
}

impl View for Entry {
    type V = EntryText;

    open spec fn view(&self) -> EntryText {
        EntryText { time: self.time@, count: self.count@, filename: self.filename@ }
    }
}

/// `c` is whitespace: a character with the Unicode property `White_Space`.
pub open spec fn is_space(c: char) -> bool {
    ||| '\u{9}' <= c <= '\u{d}'
    ||| c == ' '
    ||| c == '\u{85}'
    ||| c == '\u{a0}'
    ||| c == '\u{1680}'
    ||| '\u{2000}' <= c <= '\u{200a}'
    ||| c == '\u{2028}'
    ||| c == '\u{2029}'
    ||| c == '\u{202f}'
    ||| c == '\u{205f}'
    ||| c == '\u{3000}'
}

/// The fields of a line: its runs of characters other than whitespace, in
/// order. Read from the left, whitespace ends a field, a character that
/// follows whitespace or starts the line opens one, and any other extends
/// the last.
pub open spec fn fields(line: Seq<char>) -> Seq<Seq<char>>
    decreases line.len(),
{
    if line.len() == 0 {
        Seq::<Seq<char>>::empty()
    } else {
        let before = fields(line.drop_last());
        if is_space(line.last()) {
            before
        } else if line.len() >= 2 && !is_space(line[line.len() - 2]) {
            before.drop_last().push(before.last().push(line.last()))
        } else {
            before.push(seq![line.last()])
        }
    }
}

/// `word` is not empty and holds no whitespace.
pub open spec fn is_word(word: Seq<char>) -> bool {
    &&& word.len() > 0
    &&& forall|i: int| 0 <= i < word.len() ==> !is_space(#[trigger] word[i])
}

/// Every field is a word, and a line that ends with a character other than
/// whitespace has a field.
pub proof fn lemma_fields_are_words(line: Seq<char>)
    ensures
        forall|k: int| 0 <= k < fields(line).len() ==> is_word(#[trigger] fields(line)[k]),
        line.len() > 0 && !is_space(line.last()) ==> fields(line).len() >= 1,
    decreases line.len(),
{
    if line.len() > 0 {
        let shorter = line.drop_last();
        let before = fields(shorter);
        lemma_fields_are_words(shorter);
        if !is_space(line.last()) {
            if line.len() >= 2 && !is_space(line[line.len() - 2]) {
                assert(shorter.last() == line[line.len() - 2]);
                let longer = before.last().push(line.last());
                assert(is_word(before.last()));
                assert(is_word(longer)) by {
                    assert forall|i: int| 0 <= i < longer.len() implies !is_space(
                        #[trigger] longer[i],
                    ) by {
                        if i < before.last().len() {
                            assert(longer[i] == before.last()[i]);
                        }
                    }
                }
                assert forall|k: int| 0 <= k < fields(line).len() implies is_word(
                    #[trigger] fields(line)[k],
                ) by {
                    if k < before.len() - 1 {
                        assert(fields(line)[k] == before[k]);
                    }
                }
            } else {
                assert(is_word(seq![line.last()]));
                assert forall|k: int| 0 <= k < fields(line).len() implies is_word(
                    #[trigger] fields(line)[k],
                ) by {
                    if k < before.len() {
                        assert(fields(line)[k] == before[k]);
                    }
                }
            }
        }
    }
}

/// The entry of a line with three fields or more: its first field, its
/// second, and the fields from the third on with one space between
/// neighbours.
pub open spec fn entry_of(line: Seq<char>) -> Option<EntryText> {
    let f = fields(line);
    if f.len() < 3 {
        None
    } else {
        Some(EntryText { time: f[0], count: f[1], filename: joined(f.skip(2), ' ') })
    }
}

/// The entries of the lines that have one, in the order of the lines.
pub open spec fn entries(ls: Seq<Seq<char>>) -> Seq<EntryText>
    decreases ls.len(),
{
    if ls.len() == 0 {
        Seq::<EntryText>::empty()
    } else {
        match entry_of(ls.last()) {
            Some(entry) => entries(ls.drop_last()).push(entry),
            None => entries(ls.drop_last()),
        }
    }
}

/// What a list of entries says, entry by entry.
pub open spec fn entry_texts(v: Seq<Entry>) -> Seq<EntryText> {
    Seq::new(v.len(), |i: int| v[i]@)
}

/// What a line says: the record that its fields make, or what is wrong with
/// it. The first field is the time and the second the count; the fields from
/// the third on, with one space between neighbours, are the directory.
pub open spec fn parsed_line(line: Seq<char>) -> Result<Record, LineFault> {
    let f = fields(line);
    if f.len() < 3 {
        Err(LineFault::TooFewFields)
    } else {
        match parsed_u64(f[0]) {
            None => Err(LineFault::BadTime),
            Some(last_used) => match parsed_i32(f[1]) {
                None => Err(LineFault::BadCount),
                Some(times_used) => Ok(
                    Record { path: joined(f.skip(2), ' '), last_used, times_used },
                ),
            },
        }
    }
}

/// The lines of a text: its pieces between newlines, without the empty piece
/// after a newline that ends the text.
pub open spec fn lines(text: Seq<char>) -> Seq<Seq<char>> {
    let all = pieces(text, '\n');
    if all.last().len() == 0 {
        all.drop_last()
    } else {
        all
    }
}

/// The line has its fields, but its time or its count cannot be read.
pub open spec fn stops_load(line: Seq<char>) -> bool {
    parsed_line(line) == Err::<Record, LineFault>(LineFault::BadTime) || parsed_line(line) == Err::<
        Record,
        LineFault,
    >(LineFault::BadCount)
}

/// The records of the lines that can be read, in the order of the lines.
pub open spec fn loaded(ls: Seq<Seq<char>>) -> Seq<Record>
    decreases ls.len(),
{
    if ls.len() == 0 {
        Seq::<Record>::empty()
    } else {
        match parsed_line(ls.last()) {
            Ok(r) => loaded(ls.drop_last()).push(r),
            Err(_) => loaded(ls.drop_last()),
        }
    }
}

/// The indices of the lines with fewer than three fields, in rising order.
pub open spec fn short_lines(ls: Seq<Seq<char>>) -> Seq<int>
    decreases ls.len(),
{
    if ls.len() == 0 {
        Seq::<int>::empty()
    } else if parsed_line(ls.last()) == Err::<Record, LineFault>(LineFault::TooFewFields) {
        short_lines(ls.drop_last()).push(ls.len() - 1)
    } else {
        short_lines(ls.drop_last())
    }
}

/// The line that holds a record: the time, a space, the count with spaces
/// after it that fill its field, a space, the directory and a newline.
pub open spec fn line_of(r: Record) -> Seq<char> {
    decimal(r.last_used as nat) + seq![' '] + right_padded(
        signed_decimal(r.times_used as int),
        COUNT_WIDTH as nat,
    ) + seq![' '] + r.path + seq!['\n']
}

/// The text that holds the records, a line for each, in their order.
pub open spec fn text_of(s: Seq<Record>) -> Seq<char>
    decreases s.len(),
{
    if s.len() == 0 {
        Seq::<char>::empty()
    } else {
        text_of(s.drop_last()) + line_of(s.last())
    }
}

/// Whether `c` is whitespace.
pub fn is_whitespace(c: char) -> (r: bool)
    ensures
        r == is_space(c),
{
    ('\u{9}' <= c && c <= '\u{d}') || c == ' ' || c == '\u{85}' || c == '\u{a0}' || c
        == '\u{1680}' || ('\u{2000}' <= c && c <= '\u{200a}') || c == '\u{2028}' || c
        == '\u{2029}' || c == '\u{202f}' || c == '\u{205f}' || c == '\u{3000}'
}

/// The bounds that `bounds` gives are those of the fields of `line`, field
/// by field: where each starts and where it ends.
pub open spec fn bounds_of_fields(line: Seq<char>, bounds: Seq<(usize, usize)>) -> bool {
    &&& bounds.len() == fields(line).len()
    &&& forall|k: int|
        0 <= k < bounds.len() ==> {
            &&& (#[trigger] bounds[k]).0 <= bounds[k].1 <= line.len()
            &&& line.subrange(bounds[k].0 as int, bounds[k].1 as int) == fields(line)[k]
        }
}

/// Finds the fields of a line.
fn field_bounds(line: &Vec<char>) -> (bounds: Vec<(usize, usize)>)
    ensures
        bounds_of_fields(line@, bounds@),
{
    let mut done: Vec<(usize, usize)> = Vec::new();
    let mut open = false;
    let mut start: usize = 0;
    let mut i: usize = 0;
    assert(line@.take(0) =~= Seq::<char>::empty());
    while i < line.len()
        invariant
            i <= line.len(),
            open ==> start < i && !is_space(line[i - 1]),
            !open ==> i == 0 || is_space(line[i - 1]),
            fields(line@.take(i as int)).len() == done.len() + if open { 1int } else { 0int },
            forall|k: int|
                0 <= k < done.len() ==> {
                    &&& (#[trigger] done[k]).0 <= done[k].1 <= i
                    &&& line@.subrange(done[k].0 as int, done[k].1 as int) == fields(
                        line@.take(i as int),
                    )[k]
                },
            open ==> fields(line@.take(i as int)).last() == line@.subrange(
                start as int,
                i as int,
            ),
        decreases line.len() - i,
    {
        let c = line[i];
        let ghost before = fields(line@.take(i as int));
        proof {
            let longer = line@.take(i + 1);
            assert(longer.drop_last() =~= line@.take(i as int));
            assert(longer.last() == c);
            if i > 0 {
                assert(longer[longer.len() - 2] == line[i - 1]);
            }
        }
        if is_whitespace(c) {
            if open {
                done.push((start, i));
                open = false;
            }
        } else if open {
            assert(line@.subrange(start as int, i + 1) =~= before.last().push(c));
        } else {
            open = true;
            start = i;
            assert(line@.subrange(start as int, i + 1) =~= seq![c]);
        }
        i += 1;
    }
    assert(line@.take(i as int) =~= line@);
    if open {
        done.push((start, i));
    }
    done
}

/// The bounds that `bounds` gives are those of the lines of `text`, line by
/// line: where each starts and where it ends.
pub open spec fn bounds_of_lines(text: Seq<char>, bounds: Seq<(usize, usize)>) -> bool {
    &&& bounds.len() == lines(text).len()
    &&& forall|k: int|
        0 <= k < bounds.len() ==> {
            &&& (#[trigger] bounds[k]).0 <= bounds[k].1 <= text.len()
            &&& text.subrange(bounds[k].0 as int, bounds[k].1 as int) == lines(text)[k]
        }
}

/// Finds the lines of a text.
fn line_bounds(text: &Vec<char>) -> (bounds: Vec<(usize, usize)>)
    ensures
        bounds_of_lines(text@, bounds@),
{
    let mut done: Vec<(usize, usize)> = Vec::new();
    let mut start: usize = 0;
    let mut i: usize = 0;
    assert(text@.take(0) =~= Seq::<char>::empty());
    assert(text@.subrange(0, 0) =~= Seq::<char>::empty());
    while i < text.len()
        invariant
            start <= i <= text.len(),
            pieces(text@.take(i as int), '\n').len() == done.len() + 1,
            forall|k: int|
                0 <= k < done.len() ==> {
                    &&& (#[trigger] done[k]).0 <= done[k].1 <= i
                    &&& text@.subrange(done[k].0 as int, done[k].1 as int) == pieces(
                        text@.take(i as int),
                        '\n',
                    )[k]
                },
            pieces(text@.take(i as int), '\n').last() == text@.subrange(start as int, i as int),
        decreases text.len() - i,
    {
        let c = text[i];
        let ghost before = pieces(text@.take(i as int), '\n');
        proof {
            let longer = text@.take(i + 1);
            assert(longer.drop_last() =~= text@.take(i as int));
            assert(longer.last() == c);
        }
        if c == '\n' {
            done.push((start, i));
            start = i + 1;
            assert(text@.subrange(start as int, i + 1) =~= Seq::<char>::empty());
        } else {
            assert(text@.subrange(start as int, i + 1) =~= before.last().push(c));
        }
        i += 1;
    }
    assert(text@.take(i as int) =~= text@);
    if start < i {
        done.push((start, i));
    }
    done
}

/// The fields of a line from the third on, with one space between
/// neighbours.
fn rest_of_line(line: &str, bounds: &Vec<(usize, usize)>) -> (rest: String)
    requires
        bounds_of_fields(line@, bounds@),
        bounds.len() >= 3,
    ensures
        rest@ == joined(fields(line@).skip(2), ' '),
{
    let ghost f = fields(line@);
    let mut rest = String::new();
    let mut k: usize = 2;
    assert(f.skip(2).take(0) =~= Seq::<Seq<char>>::empty());
    while k < bounds.len()
        invariant
            2 <= k <= bounds.len(),
            f == fields(line@),
            bounds_of_fields(line@, bounds@),
            rest@ == joined(f.skip(2).take(k - 2), ' '),
        decreases bounds.len() - k,
    {
        proof {
            reveal_strlit(" ");
            let so_far = f.skip(2).take(k - 2);
            let more = f.skip(2).take(k - 1);
            assert(more.drop_last() =~= so_far);
            assert(more.last() == f[k as int]);
        }
        if k > 2 {
            rest.append(" ");
        }
        let (from, to) = bounds[k];
        rest.append(line.substring_char(from, to));
        assert(rest@ =~= joined(f.skip(2).take(k - 1), ' '));
        k += 1;
    }
    assert(f.skip(2).take(k - 2) =~= f.skip(2));
    rest
}

/// The parts of a line as they stand in it.
fn split_entry(line: &str) -> (r: Option<Entry>)
    ensures
        match r {
            Some(entry) => entry_of(line@) == Some(entry@),
            None => entry_of(line@) is None,
        },
{
    let chars = chars_of(line);
    let bounds = field_bounds(&chars);
    if bounds.len() < 3 {
        return None;
    }
    let (time_from, time_to) = bounds[0];
    let (count_from, count_to) = bounds[1];
    Some(
        Entry {
            time: line.substring_char(time_from, time_to).to_owned(),
            count: line.substring_char(count_from, count_to).to_owned(),
            filename: rest_of_line(line, &bounds),
        },
    )
}

/// Splits a text into the entries of its lines. Lines with fewer than three
/// fields make no entry; the second part of the result lists their indices,
/// the first line being line 0.
pub fn split_lines(input_string: &str) -> (r: (Vec<Entry>, Vec<usize>))
    ensures
        entry_texts(r.0@) == entries(lines(input_string@)),
        r.1@.map_values(|i: usize| i as int) == short_lines(lines(input_string@)),
{
    let chars = chars_of(input_string);
    let bounds = line_bounds(&chars);
    let ghost ls = lines(input_string@);
    let mut found: Vec<Entry> = Vec::new();
    let mut skipped: Vec<usize> = Vec::new();
    let mut k: usize = 0;
    proof {
        assert(ls.take(0) =~= Seq::<Seq<char>>::empty());
        assert(entry_texts(found@) =~= entries(ls.take(0)));
        assert(skipped@.map_values(|i: usize| i as int) =~= short_lines(ls.take(0)));
    }
    while k < bounds.len()
        invariant
            k <= bounds.len(),
            ls == lines(input_string@),
            chars@ == input_string@,
            bounds_of_lines(input_string@, bounds@),
            entry_texts(found@) == entries(ls.take(k as int)),
            skipped@.map_values(|i: usize| i as int) == short_lines(ls.take(k as int)),
        decreases bounds.len() - k,
    {
        let (from, to) = bounds[k];
        let line = input_string.substring_char(from, to);
        proof {
            let more = ls.take(k + 1);
            assert(more.drop_last() =~= ls.take(k as int));
            assert(more.last() == line@);
        }
        match split_entry(line) {
            Some(entry) => {
                let ghost before = entry_texts(found@);
                found.push(entry);
                assert(entry_texts(found@) =~= before.push(entry@));
            },
            None => {
                let ghost before = skipped@.map_values(|i: usize| i as int);
                skipped.push(k);
                assert(skipped@.map_values(|i: usize| i as int) =~= before.push(k as int));
            },
        }
        k += 1;
    }
    assert(ls.take(k as int) =~= ls);
    (found, skipped)
}

/// Reads a line of the history.
fn parse_line(line: &str) -> (r: Result<HistoryItem, LineFault>)
    ensures
        match r {
            Ok(item) => parsed_line(line@) == Ok::<Record, LineFault>(item@),
            Err(fault) => parsed_line(line@) == Err::<Record, LineFault>(fault),
        },
{
    let chars = chars_of(line);
    let bounds = field_bounds(&chars);
    if bounds.len() < 3 {
        return Err(LineFault::TooFewFields);
    }
    assert(bounds[0].0 <= bounds[0].1 <= chars.len());
    assert(bounds[1].0 <= bounds[1].1 <= chars.len());
    let last_used = match parse_u64(&chars, bounds[0].0, bounds[0].1) {
        None => {
            return Err(LineFault::BadTime);
        },
        Some(t) => t,
    };
    let times_used = match parse_i32(&chars, bounds[1].0, bounds[1].1) {
        None => {
            return Err(LineFault::BadCount);
        },
        Some(c) => c,
    };
    let path = rest_of_line(line, &bounds);
    Ok(HistoryItem { directory_name: path, last_used, times_used })
}

impl History {
    /// Reads a line of the history: the record it holds, or what is wrong
    /// with it.
    ///
    /// A line has three fields or more, with whitespace between them: the time
    /// of the last use, the count of uses, and the directory. Where the
    /// directory is more than one field, its fields are joined by single
    /// spaces.
    pub fn split_line(line: String) -> (r: Result<HistoryItem, LineFault>)
        ensures
            match r {
                Ok(item) => parsed_line(line@) == Ok::<Record, LineFault>(item@),
                Err(fault) => parsed_line(line@) == Err::<Record, LineFault>(fault),
            },
    {
        parse_line(line.as_str())
    }

    /// Fills the history from what the history file holds; `contents` is
    /// `None` where there is no file to read, which leaves the history as it
    /// is and is no fault.
    ///
    /// Every line that can be read adds its record, in the order of the
    /// lines. A line with fewer than three fields is passed over, and the
    /// result lists the indices of such lines. A line whose time or count
    /// cannot be read stops the load: the result names the first such line,
    /// and the history stays as it was.
    pub fn read_file_and_fill_history(&mut self, contents: Option<&str>) -> (r: Result<
        Vec<usize>,
        LoadFault,
    >)
        ensures
            contents is None ==> r is Ok && r->Ok_0@.len() == 0 && final(self)@ == old(self)@,
            contents matches Some(text) ==> match r {
                Ok(skipped) => {
                    &&& forall|k: int|
                        0 <= k < lines(text@).len() ==> !stops_load(#[trigger] lines(text@)[k])
                    &&& final(self)@ == old(self)@ + loaded(lines(text@))
                    &&& skipped@.map_values(|i: usize| i as int) == short_lines(lines(text@))
                },
                Err(stop) => {
                    &&& stop.line < lines(text@).len()
                    &&& stop.fault != LineFault::TooFewFields
                    &&& parsed_line(lines(text@)[stop.line as int]) == Err::<Record, LineFault>(
                        stop.fault,
                    )
                    &&& forall|k: int| 0 <= k < stop.line ==> !stops_load(#[trigger] lines(text@)[k])
                    &&& final(self)@ == old(self)@
                },
            },
    {
        let text = match contents {
            None => {
                return Ok(Vec::new());
            },
            Some(text) => text,
        };
        let chars = chars_of(text);
        let bounds = line_bounds(&chars);
        let ghost ls = lines(text@);
        let mut found: Vec<HistoryItem> = Vec::new();
        let mut skipped: Vec<usize> = Vec::new();
        let mut k: usize = 0;
        proof {
            assert(ls.take(0) =~= Seq::<Seq<char>>::empty());
            assert(records(found@) =~= loaded(ls.take(0)));
            assert(skipped@.map_values(|i: usize| i as int) =~= short_lines(ls.take(0)));
        }
        while k < bounds.len()
            invariant
                k <= bounds.len(),
                contents == Some(text),
                ls == lines(text@),
                chars@ == text@,
                bounds_of_lines(text@, bounds@),
                self@ == old(self)@,
                records(found@) == loaded(ls.take(k as int)),
                skipped@.map_values(|i: usize| i as int) == short_lines(ls.take(k as int)),
                forall|j: int| 0 <= j < k ==> !stops_load(#[trigger] ls[j]),
            decreases bounds.len() - k,
        {
            let (from, to) = bounds[k];
            let line = text.substring_char(from, to);
            proof {
                let more = ls.take(k + 1);
                assert(more.drop_last() =~= ls.take(k as int));
                assert(more.last() == line@);
            }
            match parse_line(line) {
                Ok(item) => {
                    let ghost before = records(found@);
                    found.push(item);
                    assert(records(found@) =~= before.push(item@));
                },
                Err(LineFault::TooFewFields) => {
                    let ghost before = skipped@.map_values(|i: usize| i as int);
                    skipped.push(k);
                    assert(skipped@.map_values(|i: usize| i as int) =~= before.push(k as int));
                },
                Err(fault) => {
                    return Err(LoadFault { line: k, fault });
                },
            }
            k += 1;
        }
        assert(ls.take(k as int) =~= ls);
        let ghost before = self@;
        let ghost added = records(found@);
        self.items.append(&mut found);
        assert(self@ =~= before + added);
        Ok(skipped)
    }

    /// The history as text, a line for each record: the time of the last
    /// use, a space, the count of uses with spaces after it up to a width of
    /// four characters, a space, the directory, and a newline.
    pub fn to_text(&self) -> (text: String)
        ensures
            text@ == text_of(self@),
    {
        let mut text = String::new();
        let mut i: usize = 0;
        assert(self@.take(0) =~= Seq::<Record>::empty());
        while i < self.items.len()
            invariant
                i <= self.items.len(),
                text@ == text_of(self@.take(i as int)),
            decreases self.items.len() - i,
        {
            let item = &self.items[i];
            let ghost before = text@;
            proof {
                reveal_strlit(" ");
                reveal_strlit("\n");
                let more = self@.take(i + 1);
                assert(more.drop_last() =~= self@.take(i as int));
                assert(more.last() == item@);
            }
            push_decimal(&mut text, item.last_used);
            text.append(" ");
            let count = signed_text(item.times_used);
            push_right_padded(&mut text, count.as_str(), COUNT_WIDTH);
            text.append(" ");
            text.append(item.directory_name.as_str());
            text.append("\n");
            assert(text@ =~= before + line_of(item@));
            i += 1;
        }
        assert(self@.take(i as int) =~= self@);
        text
    }
}

} // verus!
