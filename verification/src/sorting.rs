//! Sorting of records by path, stable: records of one path keep their order.

use vstd::prelude::*;
use crate::item::{HistoryItem, Record};
use crate::order::{comes_before, lemma_precedes_chain, lemma_precedes_total, precedes};

verus! {

/// What a sequence of items says, record by record.
pub open spec fn records(items: Seq<HistoryItem>) -> Seq<Record> {
    Seq::new(items.len(), |i: int| items[i]@)
}

/// No record stands before one whose path comes before its own.
pub open spec fn sorted(s: Seq<Record>) -> bool {
    forall|i: int, j: int| 0 <= i < j < s.len() ==> !precedes(s[j].path, s[i].path)
}

/// No two records have the same path.
pub open spec fn distinct(s: Seq<Record>) -> bool {
    forall|i: int, j: int| 0 <= i < j < s.len() ==> s[i].path != s[j].path
}

/// Some record has the path `path`.
pub open spec fn holds(s: Seq<Record>, path: Seq<char>) -> bool {
    exists|i: int| 0 <= i < s.len() && s[i].path == path
}

/// Where `x` goes into `s`: behind the last record whose path does not come
/// after that of `x`, found from the end.
pub open spec fn slot(s: Seq<Record>, x: Record) -> int
    decreases s.len(),
{
    if s.len() > 0 && precedes(x.path, s.last().path) {
        slot(s.drop_last(), x)
    } else {
        s.len() as int
    }
}

/// `s` with `x` put in at its slot.
pub open spec fn placed(s: Seq<Record>, x: Record) -> Seq<Record> {
    s.insert(slot(s, x), x)
}

/// The records of `s` sorted by path. Each record in turn, from the first
/// on, is put in at its slot among those before it, so records of one path
/// stay in the order they had.
pub open spec fn sorted_by_path(s: Seq<Record>) -> Seq<Record>
    decreases s.len(),
{
    if s.len() == 0 {
        s
    } else {
        placed(sorted_by_path(s.drop_last()), s.last())
    }
}

/// The slot is a position of the sequence or its end; every record from the
/// slot on comes after `x`, and the one before the slot, if any, does not.
pub proof fn lemma_slot(s: Seq<Record>, x: Record)
    ensures
        0 <= slot(s, x) <= s.len(),
        forall|k: int| slot(s, x) <= k < s.len() ==> precedes(x.path, #[trigger] s[k].path),
        slot(s, x) > 0 ==> !precedes(x.path, s[slot(s, x) - 1].path),
    decreases s.len(),
{
    if s.len() > 0 && precedes(x.path, s.last().path) {
        let shorter = s.drop_last();
        lemma_slot(shorter, x);
        assert forall|k: int| slot(s, x) <= k < s.len() implies precedes(
            x.path,
            #[trigger] s[k].path,
        ) by {
            if k < shorter.len() {
                assert(shorter[k] == s[k]);
            }
        }
    }
}

/// Putting a record into a sorted sequence keeps it sorted.
pub proof fn lemma_placed_sorted(s: Seq<Record>, x: Record)
    requires
        sorted(s),
    ensures
        sorted(placed(s, x)),
{
    lemma_slot(s, x);
    let at = slot(s, x);
    let t = placed(s, x);
    assert forall|i: int, j: int| 0 <= i < j < t.len() implies !precedes(t[j].path, t[i].path) by {
        if j == at {
            // t[i] = s[i] stands at or before s[at - 1], which is not after x
            if i < at - 1 {
                if precedes(x.path, s[i].path) {
                    lemma_precedes_total(x.path, s[at - 1].path);
                    lemma_precedes_chain(s[at - 1].path, x.path, s[i].path);
                }
            }
        } else if i == at {
            assert(t[j] == s[j - 1]);
            lemma_precedes_total(x.path, s[j - 1].path);
        } else {
            let a = if i < at { i } else { i - 1 };
            let b = if j < at { j } else { j - 1 };
            assert(t[i] == s[a] && t[j] == s[b]);
        }
    }
}

/// Sorting yields a sorted sequence of the same records, each as often as
/// before.
pub proof fn lemma_sorted_by_path(s: Seq<Record>)
    ensures
        sorted(sorted_by_path(s)),
        sorted_by_path(s).len() == s.len(),
        sorted_by_path(s).to_multiset() == s.to_multiset(),
    decreases s.len(),
{
    broadcast use vstd::seq_lib::group_to_multiset_ensures;

    if s.len() > 0 {
        let before = sorted_by_path(s.drop_last());
        lemma_sorted_by_path(s.drop_last());
        lemma_slot(before, s.last());
        lemma_placed_sorted(before, s.last());
        assert(s =~= s.drop_last().push(s.last()));
    }
}

/// Every record of the sorted sequence is a record of the sequence.
pub proof fn lemma_sorted_member(s: Seq<Record>, i: int)
    requires
        0 <= i < sorted_by_path(s).len(),
    ensures
        exists|j: int| 0 <= j < s.len() && s[j] == sorted_by_path(s)[i],
    decreases s.len(),
{
    if s.len() > 0 {
        let shorter = s.drop_last();
        let before = sorted_by_path(shorter);
        let at = slot(before, s.last());
        lemma_slot(before, s.last());
        if i == at {
            assert(s[s.len() - 1] == sorted_by_path(s)[i]);
        } else {
            let k = if i < at { i } else { i - 1 };
            lemma_sorted_by_path(shorter);
            lemma_sorted_member(shorter, k);
            let j = choose|j: int| 0 <= j < shorter.len() && shorter[j] == before[k];
            assert(s[j] == sorted_by_path(s)[i]);
        }
    }
}

/// Sorting neither adds a path nor loses one.
pub proof fn lemma_sorted_holds(s: Seq<Record>, path: Seq<char>)
    ensures
        holds(sorted_by_path(s), path) == holds(s, path),
    decreases s.len(),
{
    if s.len() > 0 {
        let shorter = s.drop_last();
        let before = sorted_by_path(shorter);
        let after = sorted_by_path(s);
        let at = slot(before, s.last());
        lemma_sorted_holds(shorter, path);
        lemma_slot(before, s.last());
        if holds(s, path) {
            let i = choose|i: int| 0 <= i < s.len() && s[i].path == path;
            if i == s.len() - 1 {
                assert(after[at].path == path);
            } else {
                assert(shorter[i].path == path);
                let k = choose|k: int| 0 <= k < before.len() && before[k].path == path;
                let k2 = if k < at { k } else { k + 1 };
                assert(after[k2].path == path);
            }
        }
        if holds(after, path) {
            let k = choose|k: int| 0 <= k < after.len() && after[k].path == path;
            if k == at {
                assert(s[s.len() - 1].path == path);
            } else {
                let k0 = if k < at { k } else { k - 1 };
                assert(before[k0].path == path);
                let i = choose|i: int| 0 <= i < shorter.len() && shorter[i].path == path;
                assert(s[i].path == path);
            }
        }
    }
}

/// Sorting records of different paths yields records of different paths.
pub proof fn lemma_sorted_distinct(s: Seq<Record>)
    requires
        distinct(s),
    ensures
        distinct(sorted_by_path(s)),
    decreases s.len(),
{
    if s.len() > 0 {
        let shorter = s.drop_last();
        let before = sorted_by_path(shorter);
        let after = sorted_by_path(s);
        let at = slot(before, s.last());
        lemma_sorted_distinct(shorter);
        lemma_sorted_holds(shorter, s.last().path);
        lemma_slot(before, s.last());
        assert(!holds(shorter, s.last().path)) by {
            if holds(shorter, s.last().path) {
                let i = choose|i: int| 0 <= i < shorter.len() && shorter[i].path == s.last().path;
                assert(s[i].path == s[s.len() - 1].path);
            }
        }
        assert forall|i: int, j: int| 0 <= i < j < after.len() implies after[i].path
            != after[j].path by {
            let a = if i < at { i } else { i - 1 };
            let b = if j < at { j } else { j - 1 };
            if i == at {
                assert(after[j] == before[b]);
            } else if j == at {
                assert(after[i] == before[a]);
            } else {
                assert(after[i] == before[a] && after[j] == before[b]);
            }
        }
    }
}

/// Sorting leaves a sorted sequence as it is.
pub proof fn lemma_sorted_is_fixed(s: Seq<Record>)
    requires
        sorted(s),
    ensures
        sorted_by_path(s) == s,
    decreases s.len(),
{
    if s.len() > 0 {
        let shorter = s.drop_last();
        lemma_sorted_is_fixed(shorter);
        if shorter.len() > 0 {
            assert(!precedes(s[s.len() - 1].path, s[s.len() - 2].path));
            assert(shorter.last() == s[s.len() - 2]);
        }
        assert(slot(shorter, s.last()) == shorter.len());
        assert(placed(shorter, s.last()) =~= s);
    } else {
        assert(sorted_by_path(s) =~= s);
    }
}

/// Sorts the items by path, stably.
pub fn sort_by_path(items: Vec<HistoryItem>) -> (sorted_items: Vec<HistoryItem>)
    ensures
        records(sorted_items@) == sorted_by_path(records(items@)),
{
    let mut out: Vec<HistoryItem> = Vec::new();
    let ghost all = items@;
    assert(records(all.take(0)) =~= Seq::<Record>::empty());
    assert(records(out@) =~= Seq::<Record>::empty());
    for item in it: items
        invariant
            it.seq() == all,
            records(out@) == sorted_by_path(records(all.take(it.index() as int))),
    {
        let ghost before = records(out@);
        let mut at: usize = out.len();
        assert(before.take(at as int) =~= before);
        while at > 0 && comes_before(
            item.directory_name.as_str(),
            out[at - 1].directory_name.as_str(),
        )
            invariant
                at <= out.len(),
                before == records(out@),
                slot(before, item@) == slot(before.take(at as int), item@),
            decreases at,
        {
            proof {
                let kept = before.take(at as int);
                assert(kept.last() == out[at - 1]@);
                assert(kept.drop_last() =~= before.take(at - 1));
            }
            at -= 1;
        }
        proof {
            let kept = before.take(at as int);
            if at > 0 {
                assert(kept.last() == out[at - 1]@);
            }
            assert(slot(kept, item@) == at);
            let longer = records(all.take(it.index() + 1));
            assert(longer.drop_last() =~= records(all.take(it.index() as int)));
            assert(longer.last() == item@);
        }
        out.insert(at, item);
        assert(records(out@) =~= before.insert(at as int, item@));
    }
    assert(all.take(all.len() as int) =~= all);
    out
}

} // verus!
