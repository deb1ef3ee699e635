//! The history as a list for the eye: age in days, count of uses, directory.

use vstd::prelude::*;
use crate::decimal::{
    decimal, push_decimal, push_right_aligned, right_aligned, signed_decimal, signed_text,
};
use crate::history::{candidates, History};
use crate::item::{HistoryItem, Record, TimeSkew};
use crate::sorting::{records, sorted_by_path};
use crate::text::texts;

verus! {

pub const SECONDS_PER_DAY: u64 = 86400;

/// The width of the field in which the age is shown.
pub const AGE_WIDTH: usize = 4;

/// The width of the field in which the count of uses is shown.
pub const USES_WIDTH: usize = 3;

/// The line that shows a record at time `now`: its age in whole days and the
/// count of its uses, each at the right of its field, and the directory, with
/// single spaces between them. A record whose last use lies ahead of `now`
/// has no such line.
pub open spec fn shown_line(r: Record, now: u64) -> Result<Seq<char>, TimeSkew> {
    if now < r.last_used {
        Err(TimeSkew { ahead_by: (r.last_used - now) as u64 })
    } else {
        Ok(
            right_aligned(
                decimal(((now - r.last_used) / SECONDS_PER_DAY as int) as nat),
                AGE_WIDTH as nat,
            ) + seq![' '] + right_aligned(signed_decimal(r.times_used as int), USES_WIDTH as nat)
                + seq![' '] + r.path,
        )
    }
}

/// The lines that show the records, in their order.
pub open spec fn shown_lines(s: Seq<Record>, now: u64) -> Seq<Result<Seq<char>, TimeSkew>> {
    Seq::new(s.len(), |i: int| shown_line(s[i], now))
}

/// What a list of lines says, line by line.
pub open spec fn line_texts(v: Seq<Result<String, TimeSkew>>) -> Seq<Result<Seq<char>, TimeSkew>> {
    Seq::new(
        v.len(),
        |i: int|
            match v[i] {
                Ok(line) => Ok(line@),
                Err(skew) => Err(skew),
            },
    )
}

impl History {
    /// The lines that show `items` at time `now`, one for each item: the
    /// line, or by how much the last use of the item lies ahead.
    pub fn print_items(&self, items: &Vec<HistoryItem>, now: u64) -> (r: Vec<
        Result<String, TimeSkew>,
    >)
        ensures
            line_texts(r@) == shown_lines(records(items@), now),
    {
        let mut shown: Vec<Result<String, TimeSkew>> = Vec::new();
        let mut i: usize = 0;
        while i < items.len()
            invariant
                i <= items.len(),
                shown.len() == i,
                forall|k: int|
                    0 <= k < i ==> (#[trigger] line_texts(shown@)[k]) == shown_line(items[k]@, now),
            decreases items.len() - i,
        {
            let item = &items[i];
            let ghost before = line_texts(shown@);
            let entry = match item.time_since_last_used(now) {
                Ok(elapsed) => {
                    proof {
                        reveal_strlit(" ");
                    }
                    let mut line = String::new();
                    let mut age = String::new();
                    push_decimal(&mut age, elapsed / SECONDS_PER_DAY);
                    assert(age@ =~= decimal(((now - item.last_used) / SECONDS_PER_DAY as int) as nat));
                    push_right_aligned(&mut line, age.as_str(), AGE_WIDTH);
                    line.append(" ");
                    let uses = signed_text(item.times_used);
                    push_right_aligned(&mut line, uses.as_str(), USES_WIDTH);
                    line.append(" ");
                    line.append(item.directory_name.as_str());
                    assert(line@ =~= shown_line(item@, now)->Ok_0);
                    Ok(line)
                },
                Err(skew) => Err(skew),
            };
            shown.push(entry);
            assert forall|k: int| 0 <= k < i + 1 implies (#[trigger] line_texts(shown@)[k])
                == shown_line(items[k]@, now) by {
                if k < i {
                    assert(line_texts(shown@)[k] == before[k]);
                }
            }
            i += 1;
        }
        assert(line_texts(shown@) =~= shown_lines(records(items@), now));
        shown
    }

    /// The lines that show the records that the tokens match, sorted by
    /// path.
    pub fn show_matches(&self, dir_set: &Vec<String>, now: u64) -> (r: Vec<Result<String, TimeSkew>>)
        ensures
            line_texts(r@) == shown_lines(
                sorted_by_path(self@.filter(candidates(texts(dir_set@)))),
                now,
            ),
    {
        let found = self.resolve_all(dir_set);
        self.print_items(&found, now)
    }

    /// The lines that show the whole history, in its order.
    pub fn print_history(&self, now: u64) -> (r: Vec<Result<String, TimeSkew>>)
        ensures
            line_texts(r@) == shown_lines(self@, now),
    {
        self.print_items(&self.items, now)
    }
}

} // verus!
