//! What is written can be read back: the text of a history holds its records.

use vstd::prelude::*;
use crate::decimal::{
    decimal, is_digit, lemma_decimal_round_trip, lemma_decimal_value, right_padded,
    signed_decimal,
};
use crate::item::Record;
use crate::persist::{
    fields, is_space, is_word, line_of, lines, loaded, parsed_line, short_lines, stops_load,
    text_of, LineFault, COUNT_WIDTH,
};
use crate::text::lemma_pieces_rejoin;
use crate::text::{joined, pieces};

verus! {

/// Whitespace stands in `path` only as single spaces, each with another
/// character right after it.
pub open spec fn tidy(path: Seq<char>) -> bool {
    &&& forall|i: int| 0 <= i < path.len() && is_space(#[trigger] path[i]) ==> path[i] == ' '
    &&& forall|i: int|
        0 <= i < path.len() - 1 && is_space(#[trigger] path[i]) ==> !is_space(path[i + 1])
}

/// A path that a line of the history keeps as it is: not empty, without
/// whitespace at either end, and within it no whitespace but single spaces.
pub open spec fn single_spaced(path: Seq<char>) -> bool {
    &&& path.len() > 0
    &&& !is_space(path.first())
    &&& !is_space(path.last())
    &&& tidy(path)
}

/// `text` is empty or ends with whitespace.
pub open spec fn ends_open(text: Seq<char>) -> bool {
    text.len() == 0 || is_space(text.last())
}

/// The line that holds a record, without the newline that ends it.
pub open spec fn body_of(r: Record) -> Seq<char> {
    decimal(r.last_used as nat) + seq![' '] + right_padded(
        signed_decimal(r.times_used as int),
        COUNT_WIDTH as nat,
    ) + seq![' '] + r.path
}

/// The lines that hold the records, without their newlines.
pub open spec fn bodies(s: Seq<Record>) -> Seq<Seq<char>> {
    Seq::new(s.len(), |i: int| body_of(s[i]))
}

/// A word after whitespace, or at the start, is one more field.
proof fn lemma_fields_word(text: Seq<char>, word: Seq<char>)
    requires
        ends_open(text),
        is_word(word),
    ensures
        fields(text + word) == fields(text).push(word),
    decreases word.len(),
{
    let c = word.last();
    let shorter = word.drop_last();
    assert(text + word =~= (text + shorter).push(c));
    assert((text + word).drop_last() =~= text + shorter);
    if shorter.len() == 0 {
        assert(text + shorter =~= text);
        assert(word =~= seq![c]);
        if text.len() > 0 {
            assert((text + word)[(text + word).len() - 2] == text.last());
        }
    } else {
        assert(is_word(shorter)) by {
            assert forall|i: int| 0 <= i < shorter.len() implies !is_space(
                #[trigger] shorter[i],
            ) by {
                assert(shorter[i] == word[i]);
            }
        }
        lemma_fields_word(text, shorter);
        assert((text + word)[(text + word).len() - 2] == shorter.last());
        assert(shorter.last() == word[word.len() - 2]);
        assert(fields(text).push(shorter).drop_last() =~= fields(text));
        assert(word =~= shorter.push(c));
    }
}

/// Whitespace adds no field.
proof fn lemma_fields_spaces(text: Seq<char>, spaces: Seq<char>)
    requires
        forall|i: int| 0 <= i < spaces.len() ==> is_space(#[trigger] spaces[i]),
    ensures
        fields(text + spaces) == fields(text),
    decreases spaces.len(),
{
    if spaces.len() == 0 {
        assert(text + spaces =~= text);
    } else {
        let shorter = spaces.drop_last();
        assert((text + spaces).drop_last() =~= text + shorter);
        assert((text + spaces).last() == spaces.last());
        lemma_fields_spaces(text, shorter);
    }
}

/// A tidy path after whitespace adds its words as fields, and those fields
/// joined by single spaces are the path, less a space at its end.
proof fn lemma_fields_path(text: Seq<char>, path: Seq<char>)
    requires
        ends_open(text),
        path.len() > 0,
        !is_space(path.first()),
        tidy(path),
    ensures
        fields(text + path).len() > fields(text).len(),
        fields(text + path).take(fields(text).len() as int) == fields(text),
        joined(fields(text + path).skip(fields(text).len() as int), ' ') == if is_space(
            path.last(),
        ) {
            path.drop_last()
        } else {
            path
        },
    decreases path.len(),
{
    let n = fields(text).len() as int;
    let c = path.last();
    let shorter = path.drop_last();
    let whole = text + path;
    assert(whole.drop_last() =~= text + shorter);
    assert(whole.last() == c);
    assert(path =~= shorter.push(c));
    if shorter.len() == 0 {
        assert(text + shorter =~= text);
        if text.len() > 0 {
            assert(whole[whole.len() - 2] == text.last());
        }
        let f = fields(whole);
        assert(f =~= fields(text).push(seq![c]));
        assert(f.take(n) =~= fields(text));
        assert(f.skip(n) =~= seq![seq![c]]);
        assert(path =~= seq![c]);
    } else {
        assert(shorter.first() == path.first());
        assert(tidy(shorter)) by {
            assert forall|i: int| 0 <= i < shorter.len() && is_space(
                #[trigger] shorter[i],
            ) implies shorter[i] == ' ' by {
                assert(shorter[i] == path[i]);
            }
            assert forall|i: int| 0 <= i < shorter.len() - 1 && is_space(
                #[trigger] shorter[i],
            ) implies !is_space(shorter[i + 1]) by {
                assert(shorter[i] == path[i]);
                assert(shorter[i + 1] == path[i + 1]);
            }
        }
        lemma_fields_path(text, shorter);
        let before = fields(text + shorter);
        let f = fields(whole);
        let kept = before.skip(n);
        assert(whole[whole.len() - 2] == shorter.last());
        assert(shorter.last() == path[path.len() - 2]);
        if is_space(c) {
            assert(!is_space(shorter.last())) by {
                if is_space(path[path.len() - 2]) {
                    assert(!is_space(path[path.len() - 2 + 1]));
                }
            }
            assert(f == before);
        } else if is_space(shorter.last()) {
            assert(shorter.last() == ' ');
            assert(f == before.push(seq![c]));
            assert(f.take(n) =~= before.take(n));
            assert(f.skip(n) =~= kept.push(seq![c]));
            assert(f.skip(n).drop_last() =~= kept);
            assert(joined(f.skip(n), ' ') == joined(kept, ' ').push(' ') + seq![c]);
            assert(shorter =~= shorter.drop_last().push(' '));
            assert(joined(f.skip(n), ' ') =~= path);
        } else {
            assert(f == before.drop_last().push(before.last().push(c)));
            assert(f.take(n) =~= before.take(n));
            assert(f.skip(n) =~= kept.drop_last().push(kept.last().push(c)));
            assert(kept.last() == before.last());
            assert(f.skip(n).drop_last() =~= kept.drop_last());
            if kept.len() == 1 {
                assert(joined(f.skip(n), ' ') =~= path);
            } else {
                assert(joined(kept, ' ') == joined(kept.drop_last(), ' ').push(' ') + kept.last());
                assert(joined(f.skip(n), ' ') == joined(kept.drop_last(), ' ').push(' ')
                    + kept.last().push(c));
                assert(joined(f.skip(n), ' ') =~= path);
            }
        }
    }
}

/// The decimal text of a number, signed or not, is a word.
proof fn lemma_decimal_is_word(time: u64, count: i32)
    ensures
        is_word(decimal(time as nat)),
        is_word(signed_decimal(count as int)),
{
    lemma_decimal_value(time as nat);
    let d = decimal(time as nat);
    assert forall|i: int| 0 <= i < d.len() implies !is_space(#[trigger] d[i]) by {
        assert(is_digit(d[i]));
    }
    let s = signed_decimal(count as int);
    if count < 0 {
        let digits = decimal((-count) as nat);
        lemma_decimal_value((-count) as nat);
        assert forall|i: int| 0 <= i < s.len() implies !is_space(#[trigger] s[i]) by {
            if i > 0 {
                assert(s[i] == digits[i - 1]);
                assert(is_digit(digits[i - 1]));
            }
        }
    } else {
        lemma_decimal_value(count as nat);
        assert forall|i: int| 0 <= i < s.len() implies !is_space(#[trigger] s[i]) by {
            assert(is_digit(s[i]));
        }
    }
}

/// The line written for a record, read again, is that record, and it holds
/// no newline before the one that ends it.
pub proof fn lemma_line_round_trip(r: Record)
    requires
        single_spaced(r.path),
    ensures
        parsed_line(body_of(r)) == Ok::<Record, LineFault>(r),
        forall|i: int| 0 <= i < body_of(r).len() ==> body_of(r)[i] != '\n',
        line_of(r) == body_of(r).push('\n'),
{
    let time = decimal(r.last_used as nat);
    let count = signed_decimal(r.times_used as int);
    let padded = right_padded(count, COUNT_WIDTH as nat);
    lemma_decimal_is_word(r.last_used, r.times_used);
    lemma_decimal_round_trip(r.last_used, r.times_used);
    let none = Seq::<char>::empty();
    let gap = if count.len() < COUNT_WIDTH {
        Seq::new((COUNT_WIDTH - count.len()) as nat, |i: int| ' ') + seq![' ']
    } else {
        seq![' ']
    };
    // the time
    lemma_fields_word(none, time);
    assert(none + time =~= time);
    assert(fields(none) =~= Seq::<Seq<char>>::empty());
    // the space after it
    lemma_fields_spaces(time, seq![' ']);
    let a = time + seq![' '];
    assert(is_space(a.last()));
    // the count
    lemma_fields_word(a, count);
    let b = a + count;
    // the spaces that fill the field of the count, and the space after it
    lemma_fields_spaces(b, gap);
    let c = b + gap;
    assert(c =~= time + seq![' '] + padded + seq![' ']);
    assert(is_space(c.last())) by {
        assert(c.last() == gap.last());
    }
    assert(fields(c) =~= seq![time, count]);
    // the path
    lemma_fields_path(c, r.path);
    let whole = c + r.path;
    assert(whole =~= body_of(r));
    let f = fields(whole);
    assert(f.take(2) == seq![time, count]);
    assert(f[0] == f.take(2)[0]);
    assert(f[1] == f.take(2)[1]);
    assert(line_of(r) =~= body_of(r).push('\n'));
    assert forall|i: int| 0 <= i < body_of(r).len() implies body_of(r)[i] != '\n' by {
        let body = body_of(r);
        assert(is_space('\n'));
        if i < time.len() {
            assert(body[i] == time[i]);
        } else if i < a.len() {
            assert(body[i] == ' ');
        } else if i < b.len() {
            assert(body[i] == count[i - a.len()]);
        } else if i < c.len() {
            assert(body[i] == gap[i - b.len()]);
        } else {
            assert(body[i] == r.path[i - c.len()]);
            if is_space(r.path[i - c.len()]) {
                assert(r.path[i - c.len()] == ' ');
            }
        }
    }
}

/// A line without a newline, put after a text that is empty or ends with a
/// newline, is the last piece of the whole.
proof fn lemma_pieces_line(text: Seq<char>, body: Seq<char>)
    requires
        pieces(text, '\n').last().len() == 0,
        forall|i: int| 0 <= i < body.len() ==> body[i] != '\n',
    ensures
        pieces(text + body, '\n') == pieces(text, '\n').drop_last().push(body),
    decreases body.len(),
{
    lemma_pieces_rejoin(text, '\n');
    if body.len() == 0 {
        assert(text + body =~= text);
        assert(pieces(text, '\n').last() =~= body);
        assert(pieces(text, '\n') =~= pieces(text, '\n').drop_last().push(body));
    } else {
        let shorter = body.drop_last();
        assert((text + body).drop_last() =~= text + shorter);
        assert((text + body).last() == body.last());
        lemma_pieces_line(text, shorter);
        assert(body =~= shorter.push(body.last()));
        assert(pieces(text, '\n').drop_last().push(shorter).drop_last() =~= pieces(
            text,
            '\n',
        ).drop_last());
    }
}

/// The text of a history has the lines of its records as its lines.
pub proof fn lemma_text_lines(s: Seq<Record>)
    requires
        forall|i: int| 0 <= i < s.len() ==> single_spaced(#[trigger] s[i].path),
    ensures
        pieces(text_of(s), '\n') == bodies(s).push(Seq::<char>::empty()),
        lines(text_of(s)) == bodies(s),
    decreases s.len(),
{
    if s.len() == 0 {
        assert(pieces(text_of(s), '\n') =~= bodies(s).push(Seq::<char>::empty()));
        assert(lines(text_of(s)) =~= bodies(s));
    } else {
        let shorter = s.drop_last();
        let r = s.last();
        assert forall|i: int| 0 <= i < shorter.len() implies single_spaced(
            #[trigger] shorter[i].path,
        ) by {
            assert(shorter[i] == s[i]);
        }
        lemma_text_lines(shorter);
        lemma_line_round_trip(r);
        let before = text_of(shorter);
        lemma_pieces_line(before, body_of(r));
        let whole = text_of(s);
        assert(whole =~= (before + body_of(r)).push('\n'));
        assert(whole.drop_last() =~= before + body_of(r));
        assert(bodies(shorter).push(Seq::<char>::empty()).drop_last() =~= bodies(shorter));
        assert(pieces(whole, '\n') =~= bodies(s).push(Seq::<char>::empty()));
        assert(bodies(s).push(Seq::<char>::empty()).drop_last() =~= bodies(s));
    }
}

/// Writing a history and reading the text again yields the same records in
/// the same order, provided every path is single-spaced. No line of the text
/// is passed over and none stops the load.
pub proof fn lemma_round_trip(s: Seq<Record>)
    requires
        forall|i: int| 0 <= i < s.len() ==> single_spaced(#[trigger] s[i].path),
    ensures
        loaded(lines(text_of(s))) == s,
        short_lines(lines(text_of(s))) == Seq::<int>::empty(),
        forall|k: int|
            0 <= k < lines(text_of(s)).len() ==> !stops_load(#[trigger] lines(text_of(s))[k]),
{
    lemma_text_lines(s);
    lemma_bodies_load(s);
    assert forall|k: int| 0 <= k < lines(text_of(s)).len() implies !stops_load(
        #[trigger] lines(text_of(s))[k],
    ) by {
        lemma_line_round_trip(s[k]);
    }
}

/// The lines written for records are read as those records.
proof fn lemma_bodies_load(s: Seq<Record>)
    requires
        forall|i: int| 0 <= i < s.len() ==> single_spaced(#[trigger] s[i].path),
    ensures
        loaded(bodies(s)) == s,
        short_lines(bodies(s)) == Seq::<int>::empty(),
    decreases s.len(),
{
    if s.len() == 0 {
        assert(loaded(bodies(s)) =~= s);
    } else {
        let shorter = s.drop_last();
        assert forall|i: int| 0 <= i < shorter.len() implies single_spaced(
            #[trigger] shorter[i].path,
        ) by {
            assert(shorter[i] == s[i]);
        }
        lemma_bodies_load(shorter);
        lemma_line_round_trip(s.last());
        assert(bodies(s).drop_last() =~= bodies(shorter));
        assert(bodies(s).last() == body_of(s.last()));
        assert(loaded(bodies(s)) =~= s);
    }
}

} // verus!
