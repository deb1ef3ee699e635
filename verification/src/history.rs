//! The history of visits: recording a visit, and resolving typed tokens to the
//! records they match.

use vstd::prelude::*;
use crate::item::{HistoryItem, Record};
use crate::matcher::{match_path, match_status};
use crate::score::{lemma_score_bounds, UNSCOREABLE};
use crate::order::precedes;
use crate::sorting::{
    distinct, holds, lemma_sorted_by_path, lemma_sorted_distinct, lemma_sorted_holds,
    lemma_sorted_member, records, sort_by_path, sorted, sorted_by_path,
};
use crate::text::{chars_of_each, texts, views};

verus! {

/// The records of the directories visited so far.
pub struct History {
    pub items: Vec<HistoryItem>,
}

impl View for History {
    type V = Seq<Record>;

    open spec fn view(&self) -> Seq<Record> {
        records(self.items@)
    }
}

/// The index of the first record with the path `path`, or the length of the
/// sequence if no record has it.
pub open spec fn first_with(s: Seq<Record>, path: Seq<char>) -> int
    decreases s.len(),
{
    if s.len() == 0 || s.first().path == path {
        0
    } else {
        1 + first_with(s.drop_first(), path)
    }
}

/// The history after the visit that `visit` describes. A record of that
/// directory, the first if there are several, takes the time of the visit
/// and counts one use more; failing that, `visit` joins the records, which
/// are then sorted by path.
pub open spec fn after_visit(s: Seq<Record>, visit: Record) -> Seq<Record> {
    let at = first_with(s, visit.path);
    if at < s.len() {
        s.update(at, s[at].touched(visit.last_used))
    } else {
        sorted_by_path(s.push(visit))
    }
}

/// The history after every record of the directory `path` was used once
/// more, at time `now`.
pub open spec fn touch_all(s: Seq<Record>, path: Seq<char>, now: u64) -> Seq<Record> {
    Seq::new(
        s.len(),
        |i: int|
            if s[i].path == path {
                s[i].touched(now)
            } else {
                s[i]
            },
    )
}

/// Every record of the directory `path` can count one use more.
pub open spec fn room_for(s: Seq<Record>, path: Seq<char>) -> bool {
    forall|i: int| 0 <= i < s.len() && s[i].path == path ==> s[i].times_used < i32::MAX
}

/// No two records are of the same directory, and every record stands for at
/// least one visit.
pub open spec fn well_formed(s: Seq<Record>) -> bool {
    &&& distinct(s)
    &&& forall|i: int| 0 <= i < s.len() ==> (#[trigger] s[i]).times_used >= 1
}

/// The tokens match the path of the record.
pub open spec fn candidate(r: Record, tokens: Seq<Seq<char>>) -> bool {
    match_status(r.path, tokens).0
}

/// The records that the tokens match.
pub open spec fn candidates(tokens: Seq<Seq<char>>) -> spec_fn(Record) -> bool {
    |r: Record| candidate(r, tokens)
}

/// The score by which a record competes: its score at time `now`, four times
/// that where the last token is the last component of its path.
pub open spec fn rank(r: Record, tokens: Seq<Seq<char>>, now: u64) -> int {
    if match_status(r.path, tokens).1 {
        4 * r.score(now)
    } else {
        r.score(now)
    }
}

/// Record `i` is the best match: the tokens match it, no matched record
/// ranks higher, and none before it ranks as high.
pub open spec fn is_best(s: Seq<Record>, tokens: Seq<Seq<char>>, now: u64, i: int) -> bool {
    &&& 0 <= i < s.len()
    &&& candidate(s[i], tokens)
    &&& forall|j: int|
        0 <= j < s.len() && candidate(#[trigger] s[j], tokens) ==> rank(s[j], tokens, now) <= rank(
            s[i],
            tokens,
            now,
        )
    &&& forall|j: int|
        0 <= j < i && candidate(#[trigger] s[j], tokens) ==> rank(s[j], tokens, now) < rank(
            s[i],
            tokens,
            now,
        )
}

/// The records that resolving `tokens` at time `now` would touch can count
/// one use more.
pub open spec fn room_to_resolve(s: Seq<Record>, tokens: Seq<Seq<char>>, now: u64) -> bool {
    forall|i: int|
        is_best(s, tokens, now, i) && rank(s[i], tokens, now) > UNSCOREABLE ==> room_for(
            s,
            s[i].path,
        )
}

/// What resolving `tokens` at time `now` does to the history `before`.
///
/// With `dir` the directory found: it is that of the best match, whose rank
/// is above the score of a record that cannot be scored, and in `after` every
/// record of that directory counts one use more, at time `now`. Without: no
/// matched record ranks above that score, and `after` is `before`.
pub open spec fn resolved(
    before: Seq<Record>,
    tokens: Seq<Seq<char>>,
    now: u64,
    dir: Option<Seq<char>>,
    after: Seq<Record>,
) -> bool {
    match dir {
        None => {
            &&& after == before
            &&& forall|i: int|
                0 <= i < before.len() && candidate(#[trigger] before[i], tokens) ==> rank(
                    before[i],
                    tokens,
                    now,
                ) <= UNSCOREABLE
        },
        Some(path) => {
            &&& exists|i: int|
                is_best(before, tokens, now, i) && path == before[i].path && rank(
                    before[i],
                    tokens,
                    now,
                ) > UNSCOREABLE
            &&& after == touch_all(before, path, now)
        },
    }
}

/// The first record with a path is where `first_with` says: it has the path
/// and no record before it does. Without such a record the result is the
/// length.
pub proof fn lemma_first_with(s: Seq<Record>, path: Seq<char>)
    ensures
        0 <= first_with(s, path) <= s.len(),
        first_with(s, path) < s.len() ==> s[first_with(s, path)].path == path,
        forall|k: int| 0 <= k < first_with(s, path) ==> (#[trigger] s[k]).path != path,
        first_with(s, path) < s.len() <==> holds(s, path),
    decreases s.len(),
{
    if s.len() == 0 || s.first().path == path {
        if s.len() > 0 {
            assert(s[0].path == path);
        }
    } else {
        let rest = s.drop_first();
        lemma_first_with(rest, path);
        let at = first_with(rest, path);
        assert forall|k: int| 0 <= k < at + 1 implies (#[trigger] s[k]).path != path by {
            if k > 0 {
                assert(rest[k - 1] == s[k]);
            }
        }
        if at < rest.len() {
            assert(rest[at] == s[at + 1]);
        }
        if holds(s, path) {
            let i = choose|i: int| 0 <= i < s.len() && s[i].path == path;
            assert(rest[i - 1].path == path);
        }
    }
}

/// A visit keeps what the history has: the paths stay different from each
/// other, every record still stands for a visit, the visited path is among
/// them, and a sorted history stays sorted. A visit to a directory that has a
/// record changes the length by nothing; a visit to another adds one record
/// and leaves the history sorted.
pub proof fn lemma_after_visit(s: Seq<Record>, visit: Record)
    ensures
        holds(after_visit(s, visit), visit.path),
        distinct(s) ==> distinct(after_visit(s, visit)),
        well_formed(s) && room_for(s, visit.path) && visit.times_used >= 1 ==> well_formed(
            after_visit(s, visit),
        ),
        sorted(s) ==> sorted(after_visit(s, visit)),
        holds(s, visit.path) ==> after_visit(s, visit).len() == s.len(),
        !holds(s, visit.path) ==> after_visit(s, visit).len() == s.len() + 1,
        !holds(s, visit.path) ==> sorted(after_visit(s, visit)),
{
    lemma_first_with(s, visit.path);
    let at = first_with(s, visit.path);
    let t = after_visit(s, visit);
    if at < s.len() {
        assert(t[at].path == visit.path);
    } else {
        let longer = s.push(visit);
        lemma_sorted_by_path(longer);
        lemma_sorted_holds(longer, visit.path);
        assert(longer[s.len() as int].path == visit.path);
        if distinct(s) {
            lemma_sorted_distinct(longer);
        }
        if well_formed(s) && visit.times_used >= 1 {
            assert forall|i: int| 0 <= i < t.len() implies (#[trigger] t[i]).times_used >= 1 by {
                lemma_sorted_member(longer, i);
            }
        }
    }
}

/// Counting a use keeps what the history has: its length, its order, the
/// paths of its records and that they differ, and that every record stands
/// for a visit. No time of last use goes back, unless `now` lies before it.
pub proof fn lemma_touch_all(s: Seq<Record>, path: Seq<char>, now: u64)
    ensures
        touch_all(s, path, now).len() == s.len(),
        forall|i: int| 0 <= i < s.len() ==> (#[trigger] touch_all(s, path, now)[i]).path == s[i].path,
        forall|i: int|
            0 <= i < s.len() && s[i].last_used <= now ==> (#[trigger] touch_all(
                s,
                path,
                now,
            )[i]).last_used >= s[i].last_used,
        distinct(s) ==> distinct(touch_all(s, path, now)),
        sorted(s) ==> sorted(touch_all(s, path, now)),
        well_formed(s) && room_for(s, path) ==> well_formed(touch_all(s, path, now)),
{
    let t = touch_all(s, path, now);
    assert forall|i: int, j: int| 0 <= i < j < t.len() && sorted(s) implies !precedes(
        t[j].path,
        t[i].path,
    ) by {
        assert(t[i].path == s[i].path && t[j].path == s[j].path);
    }
    assert forall|i: int, j: int| 0 <= i < j < t.len() && distinct(s) implies t[i].path
        != t[j].path by {
        assert(t[i].path == s[i].path && t[j].path == s[j].path);
    }
}

/// A second visit to a directory makes no second record of it. The first
/// visit leaves a record of the directory; the second adds none, gives that
/// record its own time and, where the count has room, counts one use more.
pub proof fn lemma_second_visit(s: Seq<Record>, path: Seq<char>, first: u64, second: u64)
    ensures
        ({
            let once = after_visit(s, Record { path, last_used: first, times_used: 1 });
            let twice = after_visit(once, Record { path, last_used: second, times_used: 1 });
            let at = first_with(once, path);
            &&& 0 <= at < once.len()
            &&& once[at].path == path
            &&& twice.len() == once.len()
            &&& twice == once.update(at, once[at].touched(second))
            &&& twice[at].path == path
            &&& twice[at].last_used == second
            &&& once[at].times_used < i32::MAX ==> twice[at].times_used == once[at].times_used + 1
            &&& distinct(s) ==> distinct(once) && distinct(twice)
        }),
{
    let visit = Record { path, last_used: first, times_used: 1 };
    let again = Record { path, last_used: second, times_used: 1 };
    let once = after_visit(s, visit);
    lemma_after_visit(s, visit);
    lemma_first_with(once, path);
    lemma_after_visit(once, again);
}

/// At most one record is the best match.
pub proof fn lemma_best_is_unique(s: Seq<Record>, tokens: Seq<Seq<char>>, now: u64, i: int, j: int)
    requires
        is_best(s, tokens, now, i),
        is_best(s, tokens, now, j),
    ensures
        i == j,
{
    if i < j {
        assert(candidate(s[i], tokens));
        assert(rank(s[i], tokens, now) < rank(s[j], tokens, now));
        assert(candidate(s[j], tokens));
    } else if j < i {
        assert(candidate(s[j], tokens));
        assert(rank(s[j], tokens, now) < rank(s[i], tokens, now));
        assert(candidate(s[i], tokens));
    }
}

/// Where the tokens match a record, some record is the best match.
pub proof fn lemma_best_exists(s: Seq<Record>, tokens: Seq<Seq<char>>, now: u64)
    requires
        exists|i: int| 0 <= i < s.len() && candidate(s[i], tokens),
    ensures
        exists|i: int| is_best(s, tokens, now, i),
    decreases s.len(),
{
    let shorter = s.drop_last();
    let last = s.len() - 1;
    assert(forall|j: int| 0 <= j < shorter.len() ==> shorter[j] == s[j]);
    if exists|i: int| 0 <= i < shorter.len() && candidate(shorter[i], tokens) {
        lemma_best_exists(shorter, tokens, now);
        let b = choose|i: int| is_best(shorter, tokens, now, i);
        assert(shorter[b] == s[b]);
        if candidate(s[last], tokens) && rank(s[last], tokens, now) > rank(s[b], tokens, now) {
            assert forall|j: int| 0 <= j < s.len() && candidate(#[trigger] s[j], tokens) implies rank(
                s[j],
                tokens,
                now,
            ) <= rank(s[last], tokens, now) by {
                if j < last {
                    assert(candidate(shorter[j], tokens));
                }
            }
            assert forall|j: int| 0 <= j < last && candidate(#[trigger] s[j], tokens) implies rank(
                s[j],
                tokens,
                now,
            ) < rank(s[last], tokens, now) by {
                assert(candidate(shorter[j], tokens));
            }
            assert(is_best(s, tokens, now, last));
        } else {
            assert forall|j: int| 0 <= j < s.len() && candidate(#[trigger] s[j], tokens) implies rank(
                s[j],
                tokens,
                now,
            ) <= rank(s[b], tokens, now) by {
                if j < last {
                    assert(candidate(shorter[j], tokens));
                }
            }
            assert forall|j: int| 0 <= j < b && candidate(#[trigger] s[j], tokens) implies rank(
                s[j],
                tokens,
                now,
            ) < rank(s[b], tokens, now) by {
                assert(candidate(shorter[j], tokens));
            }
            assert(is_best(s, tokens, now, b));
        }
    } else {
        let i = choose|i: int| 0 <= i < s.len() && candidate(s[i], tokens);
        if i < last {
            assert(candidate(shorter[i], tokens));
        }
        assert forall|j: int| 0 <= j < last implies !candidate(#[trigger] s[j], tokens) by {
            assert(shorter[j] == s[j]);
        }
        assert(is_best(s, tokens, now, last));
    }
}

/// Without tokens every record is matched and competes by its score alone:
/// a history that is not empty has a best match, and no record scores higher
/// than it.
pub proof fn lemma_best_without_tokens(s: Seq<Record>, now: u64)
    ensures
        forall|j: int|
            0 <= j < s.len() ==> candidate(#[trigger] s[j], Seq::<Seq<char>>::empty()) && rank(
                s[j],
                Seq::<Seq<char>>::empty(),
                now,
            ) == s[j].score(now),
        s.len() > 0 ==> exists|i: int| is_best(s, Seq::<Seq<char>>::empty(), now, i),
        forall|i: int, j: int|
            is_best(s, Seq::<Seq<char>>::empty(), now, i) && 0 <= j < s.len() ==> s[j].score(now)
                <= s[i].score(now),
{
    let none = Seq::<Seq<char>>::empty();
    assert forall|j: int| 0 <= j < s.len() implies candidate(#[trigger] s[j], none) && rank(
        s[j],
        none,
        now,
    ) == s[j].score(now) by {}
    if s.len() > 0 {
        assert(candidate(s[0], none));
        lemma_best_exists(s, none, now);
    }
    assert forall|i: int, j: int| is_best(s, none, now, i) && 0 <= j < s.len() implies s[j].score(
        now,
    ) <= s[i].score(now) by {
        assert(candidate(s[j], none));
    }
}

impl History {
    /// No two records are of the same directory, and every record stands for
    /// at least one visit.
    pub open spec fn well_formed(&self) -> bool {
        well_formed(self@)
    }

    /// A history without records.
    pub fn new() -> (r: History)
        ensures
            r@ == Seq::<Record>::empty(),
            r.well_formed(),
    {
        let r = History { items: Vec::new() };
        assert(r@ =~= Seq::<Record>::empty());
        r
    }

    /// Whether every record of the directory `path` can count one use more.
    pub fn has_room_for(&self, path: &str) -> (r: bool)
        ensures
            r == room_for(self@, path@),
    {
        let wanted = path.to_owned();
        let mut i: usize = 0;
        while i < self.items.len()
            invariant
                i <= self.items.len(),
                wanted@ == path@,
                forall|k: int|
                    0 <= k < i && (#[trigger] self@[k]).path == path@ ==> self@[k].times_used
                        < i32::MAX,
            decreases self.items.len() - i,
        {
            if self.items[i].times_used == i32::MAX && self.items[i].directory_name == wanted {
                assert(self@[i as int].path == path@);
                return false;
            }
            i += 1;
        }
        true
    }

    /// Records the visit that `new_history_item` describes.
    ///
    /// Where the history has a record of that directory, the first such
    /// record takes the time of the visit and counts one use more, and
    /// nothing moves. Otherwise the item joins the history, which is then
    /// sorted by path.
    pub fn append_insert_item(&mut self, new_history_item: HistoryItem)
        requires
            room_for(old(self)@, new_history_item@.path),
        ensures
            final(self)@ == after_visit(old(self)@, new_history_item@),
            holds(final(self)@, new_history_item@.path),
            !holds(old(self)@, new_history_item@.path) ==> sorted(final(self)@),
            sorted(old(self)@) ==> sorted(final(self)@),
            old(self).well_formed() && new_history_item.valid() ==> final(self).well_formed(),
    {
        let ghost before = self@;
        let ghost visit = new_history_item@;
        proof {
            lemma_after_visit(before, visit);
        }
        let mut i: usize = 0;
        while i < self.items.len()
            invariant
                i <= self.items.len(),
                self@ == before,
                before == old(self)@,
                visit == new_history_item@,
                room_for(before, visit.path),
                forall|k: int| 0 <= k < i ==> (#[trigger] before[k]).path != visit.path,
            decreases self.items.len() - i,
        {
            if self.items[i].directory_name == new_history_item.directory_name {
                assert(before[i as int].path == visit.path);
                proof {
                    lemma_first_with(before, visit.path);
                    lemma_after_visit(before, visit);
                }
                assert(first_with(before, visit.path) == i);
                self.items[i].last_used = new_history_item.last_used;
                self.items[i].times_used = self.items[i].times_used + 1;
                assert(self@ =~= before.update(i as int, before[i as int].touched(visit.last_used)));
                return ;
            }
            i += 1;
        }
        proof {
            lemma_first_with(before, visit.path);
        }
        assert(first_with(before, visit.path) == before.len());
        self.items.push(new_history_item);
        assert(self@ =~= before.push(visit));
        let mut taken: Vec<HistoryItem> = Vec::new();
        std::mem::swap(&mut self.items, &mut taken);
        self.items = sort_by_path(taken);
    }

    /// Counts one more use, at time `now`, for every record of the directory
    /// of `best_item`.
    pub fn update_usage_of_best_item(&mut self, best_item: &HistoryItem, now: u64)
        requires
            room_for(old(self)@, best_item@.path),
        ensures
            final(self)@ == touch_all(old(self)@, best_item@.path, now),
            sorted(old(self)@) ==> sorted(final(self)@),
            old(self).well_formed() ==> final(self).well_formed(),
    {
        let ghost before = self@;
        let ghost path = best_item@.path;
        proof {
            lemma_touch_all(before, path, now);
        }
        let ghost goal = touch_all(before, path, now);
        let mut i: usize = 0;
        while i < self.items.len()
            invariant
                i <= self.items.len(),
                self@.len() == before.len(),
                path == best_item@.path,
                goal == touch_all(before, path, now),
                room_for(before, path),
                forall|k: int| 0 <= k < i ==> #[trigger] self@[k] == goal[k],
                forall|k: int| i <= k < before.len() ==> #[trigger] self@[k] == before[k],
            decreases self.items.len() - i,
        {
            let ghost mid = self@;
            assert(mid[i as int] == before[i as int]);
            if self.items[i].matches(best_item) {
                self.items[i].update(now);
                assert(self@.len() == mid.len());
                assert(forall|k: int| 0 <= k < mid.len() && k != i ==> #[trigger] self@[k] == mid[k]);
                assert(self@[i as int] == before[i as int].touched(now));
            }
            assert(self@[i as int] == goal[i as int]);
            i += 1;
        }
        assert(self@ =~= touch_all(before, path, now));
    }

    /// The best match among the records, with its rank.
    fn best_candidate(&self, tokens: &Vec<Vec<char>>, now: u64) -> (r: Option<(usize, i64)>)
        ensures
            match r {
                None => forall|i: int|
                    0 <= i < self@.len() ==> !candidate(#[trigger] self@[i], views(tokens@)),
                Some((at, value)) => is_best(self@, views(tokens@), now, at as int) && value
                    == rank(self@[at as int], views(tokens@), now),
            },
    {
        let ghost typed = views(tokens@);
        let mut best: Option<(usize, i64)> = None;
        let mut i: usize = 0;
        while i < self.items.len()
            invariant
                i <= self.items.len(),
                typed == views(tokens@),
                match best {
                    None => forall|k: int| 0 <= k < i ==> !candidate(#[trigger] self@[k], typed),
                    Some((at, value)) => {
                        &&& at < i
                        &&& candidate(self@[at as int], typed)
                        &&& value == rank(self@[at as int], typed, now)
                        &&& forall|k: int|
                            0 <= k < i && candidate(#[trigger] self@[k], typed) ==> rank(
                                self@[k],
                                typed,
                                now,
                            ) <= value
                        &&& forall|k: int|
                            0 <= k < at && candidate(#[trigger] self@[k], typed) ==> rank(
                                self@[k],
                                typed,
                                now,
                            ) < value
                    },
                },
            decreases self.items.len() - i,
        {
            let item = &self.items[i];
            let (in_order, exact) = match_path(item.directory_name.as_str(), tokens);
            if in_order {
                let mut value: i64 = item.get_score(now);
                proof {
                    lemma_score_bounds(item.times_used as int, item.last_used as int, now as int);
                }
                if exact {
                    value = 4 * value;
                }
                let better = match best {
                    None => true,
                    Some((_, top)) => value > top,
                };
                if better {
                    best = Some((i, value));
                }
            }
            i += 1;
        }
        best
    }

    /// The best match for the tokens at time `now`: of the records that the
    /// tokens match, the one of the highest rank, and of several such the
    /// first. `None` where the tokens match no record.
    pub fn resolve_best(&self, user_tokens: &Vec<String>, now: u64) -> (r: Option<HistoryItem>)
        ensures
            match r {
                None => forall|i: int|
                    0 <= i < self@.len() ==> !candidate(#[trigger] self@[i], texts(user_tokens@)),
                Some(item) => exists|i: int|
                    is_best(self@, texts(user_tokens@), now, i) && item@ == self@[i],
            },
    {
        let tokens = chars_of_each(user_tokens);
        match self.best_candidate(&tokens, now) {
            None => None,
            Some((at, _)) => {
                let item = self.items[at].clone();
                assert(is_best(self@, texts(user_tokens@), now, at as int) && item@ == self@[at as int]);
                Some(item)
            },
        }
    }

    /// Whether the records that resolving the tokens at time `now` would
    /// touch can count one use more.
    pub fn has_room_to_resolve(&self, dir_set: &Vec<String>, now: u64) -> (r: bool)
        ensures
            r == room_to_resolve(self@, texts(dir_set@), now),
    {
        let tokens = chars_of_each(dir_set);
        let ghost typed = texts(dir_set@);
        match self.best_candidate(&tokens, now) {
            None => true,
            Some((at, value)) => {
                assert forall|i: int| is_best(self@, typed, now, i) implies i == at by {
                    lemma_best_is_unique(self@, typed, now, i, at as int);
                }
                if value > UNSCOREABLE {
                    self.has_room_for(self.items[at].directory_name.as_str())
                } else {
                    true
                }
            },
        }
    }

    /// Resolves the tokens to a directory and counts the visit.
    ///
    /// The directory is that of the best match, provided its rank is above
    /// the score of a record that cannot be scored; every record of that
    /// directory then counts one use more, at time `now`. Otherwise the result
    /// is `None` and the history stays as it is.
    pub fn find_dir_using_history(&mut self, dir_set: &Vec<String>, now: u64) -> (r: Option<String>)
        requires
            room_to_resolve(old(self)@, texts(dir_set@), now),
        ensures
            sorted(old(self)@) ==> sorted(final(self)@),
            old(self).well_formed() ==> final(self).well_formed(),
            resolved(
                old(self)@,
                texts(dir_set@),
                now,
                match r {
                    Some(dir) => Some(dir@),
                    None => None,
                },
                final(self)@,
            ),
    {
        let tokens = chars_of_each(dir_set);
        match self.best_candidate(&tokens, now) {
            None => None,
            Some((at, value)) => {
                if value > UNSCOREABLE {
                    let best_item = self.items[at].clone();
                    assert(is_best(self@, texts(dir_set@), now, at as int));
                    self.update_usage_of_best_item(&best_item, now);
                    Some(best_item.directory_name)
                } else {
                    None
                }
            },
        }
    }

    /// The records that the tokens match, sorted by path.
    pub fn resolve_all(&self, user_tokens: &Vec<String>) -> (r: Vec<HistoryItem>)
        ensures
            records(r@) == sorted_by_path(self@.filter(candidates(texts(user_tokens@)))),
    {
        let tokens = chars_of_each(user_tokens);
        let ghost wanted = candidates(texts(user_tokens@));
        let mut found: Vec<HistoryItem> = Vec::new();
        let mut i: usize = 0;
        proof {
            reveal(Seq::filter);
            assert(self@.take(0) =~= Seq::<Record>::empty());
            assert(records(found@) =~= self@.take(0).filter(wanted));
        }
        while i < self.items.len()
            invariant
                i <= self.items.len(),
                views(tokens@) == texts(user_tokens@),
                wanted == candidates(texts(user_tokens@)),
                records(found@) == self@.take(i as int).filter(wanted),
            decreases self.items.len() - i,
        {
            let item = &self.items[i];
            let (in_order, _) = match_path(item.directory_name.as_str(), &tokens);
            proof {
                reveal(Seq::filter);
                let longer = self@.take(i + 1);
                assert(longer.drop_last() =~= self@.take(i as int));
                assert(longer.last() == item@);
                assert(wanted(item@) == in_order);
            }
            if in_order {
                let ghost before = records(found@);
                found.push(item.clone());
                assert(records(found@) =~= before.push(item@));
            }
            i += 1;
        }
        assert(self@.take(i as int) =~= self@);
        sort_by_path(found)
    }
}

} // verus!
