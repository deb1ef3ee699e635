//! Strings as sequences of characters: conversion, substring search and
//! splitting of a path into its components.

use vstd::prelude::*;

verus! {

/// The separator of the components of a path.
pub const SEPARATOR: char = '/';

/// The character sequences that a sequence of character vectors stands for.
pub open spec fn views(v: Seq<Vec<char>>) -> Seq<Seq<char>> {
    Seq::new(v.len(), |i: int| v[i]@)
}

/// The character sequences that a sequence of strings stands for.
pub open spec fn texts(v: Seq<String>) -> Seq<Seq<char>> {
    Seq::new(v.len(), |i: int| v[i]@)
}

/// `needle` stands in `hay` at offset `at`.
pub open spec fn occurs_at(hay: Seq<char>, needle: Seq<char>, at: int) -> bool {
    &&& 0 <= at
    &&& at + needle.len() <= hay.len()
    &&& hay.subrange(at, at + needle.len()) == needle
}

/// `needle` stands somewhere in `hay`, character for character. The empty
/// sequence stands in every sequence.
pub open spec fn is_substring(hay: Seq<char>, needle: Seq<char>) -> bool {
    exists|at: int| occurs_at(hay, needle, at)
}

/// The pieces of `text` between the separators `separator`, in order. Read
/// from the left, a separator opens a new, empty piece and any other
/// character extends the last one, so that a text with `n` separators has
/// `n + 1` pieces, some of them possibly empty.
pub open spec fn pieces(text: Seq<char>, separator: char) -> Seq<Seq<char>>
    decreases text.len(),
{
    if text.len() == 0 {
        seq![Seq::<char>::empty()]
    } else if text.last() == separator {
        pieces(text.drop_last(), separator).push(Seq::<char>::empty())
    } else {
        let before = pieces(text.drop_last(), separator);
        before.drop_last().push(before.last().push(text.last()))
    }
}

/// The components of a path: the pieces between its slashes.
pub open spec fn components(path: Seq<char>) -> Seq<Seq<char>> {
    pieces(path, SEPARATOR)
}

/// The parts joined, with a separator between neighbours.
pub open spec fn joined(parts: Seq<Seq<char>>, separator: char) -> Seq<char>
    decreases parts.len(),
{
    if parts.len() == 0 {
        Seq::<char>::empty()
    } else if parts.len() == 1 {
        parts[0]
    } else {
        joined(parts.drop_last(), separator).push(separator) + parts.last()
    }
}

/// Splitting loses nothing: a text has at least one piece, no piece holds a
/// separator, and the pieces joined by separators are the text.
pub proof fn lemma_pieces_rejoin(text: Seq<char>, separator: char)
    ensures
        pieces(text, separator).len() >= 1,
        forall|i: int, j: int|
            0 <= i < pieces(text, separator).len() && 0 <= j < pieces(text, separator)[i].len()
                ==> pieces(text, separator)[i][j] != separator,
        joined(pieces(text, separator), separator) == text,
    decreases text.len(),
{
    if text.len() == 0 {
        assert(joined(pieces(text, separator), separator) =~= text);
    } else {
        let shorter = text.drop_last();
        lemma_pieces_rejoin(shorter, separator);
        let before = pieces(shorter, separator);
        let all = pieces(text, separator);
        if text.last() == separator {
            assert(all.drop_last() =~= before);
            assert(joined(all, separator) =~= text);
        } else {
            let kept = before.drop_last();
            assert(all.drop_last() =~= kept);
            assert(text =~= shorter.push(text.last()));
            if before.len() == 1 {
                assert(all.len() == 1);
                assert(joined(all, separator) =~= text);
            } else {
                assert(joined(before, separator) == joined(kept, separator).push(separator)
                    + before.last());
                assert(joined(all, separator) == joined(kept, separator).push(separator)
                    + all.last());
                assert(joined(all, separator) =~= text);
            }
        }
    }
}

/// The characters of a string, in order.
pub fn chars_of(s: &str) -> (v: Vec<char>)
    ensures
        v@ == s@,
{
    let mut v: Vec<char> = Vec::new();
    for c in it: s.chars()
        invariant
            v@ == it.seq().take(it.index() as int),
            it.seq() == s@,
    {
        v.push(c);
    }
    v
}

/// The characters of each string of a list.
pub fn chars_of_each(strings: &Vec<String>) -> (v: Vec<Vec<char>>)
    ensures
        views(v@) == texts(strings@),
{
    let mut v: Vec<Vec<char>> = Vec::new();
    let mut i: usize = 0;
    while i < strings.len()
        invariant
            i <= strings.len(),
            v.len() == i,
            forall|k: int| 0 <= k < i ==> v[k]@ == strings[k]@,
        decreases strings.len() - i,
    {
        v.push(chars_of(strings[i].as_str()));
        i += 1;
    }
    assert(views(v@) =~= texts(strings@));
    v
}

/// Whether `needle` stands in `hay` at offset `at`.
fn found_at(hay: &Vec<char>, needle: &Vec<char>, at: usize) -> (r: bool)
    requires
        at + needle.len() <= hay.len(),
    ensures
        r == occurs_at(hay@, needle@, at as int),
{
    let mut j: usize = 0;
    while j < needle.len()
        invariant
            j <= needle.len(),
            at + needle.len() <= hay.len(),
            forall|k: int| 0 <= k < j ==> hay[at + k] == needle[k],
        decreases needle.len() - j,
    {
        if hay[at + j] != needle[j] {
            assert(hay@.subrange(at as int, at + needle.len())[j as int] == hay[at + j]);
            return false;
        }
        j += 1;
    }
    assert(hay@.subrange(at as int, at + needle.len()) =~= needle@);
    true
}

/// Whether `needle` stands somewhere in `hay`.
pub fn contains(hay: &Vec<char>, needle: &Vec<char>) -> (r: bool)
    ensures
        r == is_substring(hay@, needle@),
{
    if needle.len() > hay.len() {
        return false;
    }
    let last: usize = hay.len() - needle.len();
    let mut at: usize = 0;
    loop
        invariant
            at <= last,
            last + needle.len() == hay.len(),
            forall|k: int| 0 <= k < at ==> !occurs_at(hay@, needle@, k),
        decreases last - at,
    {
        if found_at(hay, needle, at) {
            return true;
        }
        if at == last {
            return false;
        }
        at += 1;
    }
}

/// Splits `text` into its pieces between the separators `separator`.
pub fn split(text: &Vec<char>, separator: char) -> (parts: Vec<Vec<char>>)
    ensures
        views(parts@) == pieces(text@, separator),
        parts.len() >= 1,
{
    let mut done: Vec<Vec<char>> = Vec::new();
    let mut last: Vec<char> = Vec::new();
    let mut i: usize = 0;
    assert(text@.take(0) =~= Seq::<char>::empty());
    assert(views(done@).push(last@) =~= pieces(text@.take(0), separator));
    while i < text.len()
        invariant
            i <= text.len(),
            views(done@).push(last@) == pieces(text@.take(i as int), separator),
        decreases text.len() - i,
    {
        let c = text[i];
        proof {
            let longer = text@.take(i + 1);
            assert(longer.drop_last() =~= text@.take(i as int));
            assert(longer.last() == c);
        }
        if c == separator {
            let ghost before = views(done@).push(last@);
            done.push(last);
            last = Vec::new();
            assert(views(done@) =~= before);
        } else {
            let ghost before = views(done@).push(last@);
            last.push(c);
            assert(views(done@).push(last@) =~= before.drop_last().push(
                before.last().push(c),
            ));
        }
        i += 1;
    }
    assert(text@.take(i as int) =~= text@);
    let ghost before = views(done@).push(last@);
    done.push(last);
    assert(views(done@) =~= before);
    done
}

/// Splits a path into its components.
pub fn split_components(path: &Vec<char>) -> (parts: Vec<Vec<char>>)
    ensures
        views(parts@) == components(path@),
        parts.len() >= 1,
{
    split(path, SEPARATOR)
}

} // verus!
