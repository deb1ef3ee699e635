//! Scoring of a record by how often and how recently it was used.

use vstd::prelude::*;

verus! {

/// The score reserved for a record whose last use lies after the present
/// moment. No record that can be scored has this score.
pub const UNSCOREABLE: i64 = -1;

pub const SECONDS_PER_MINUTE: u64 = 60;

pub const MINUTES_PER_HOUR: u64 = 60;

pub const HOURS_PER_DAY: u64 = 24;

pub const DAYS_PER_WEEK: u64 = 7;

/// The score of a record used `times_used` times whose last use lies
/// `elapsed` seconds back.
///
/// The count is weighted by 1000. A week or more of age quarters it; two to
/// six days halve it; less than a day doubles it, and less than an hour
/// doubles it once more.
pub open spec fn aged_score(times_used: int, elapsed: int) -> int {
    let minutes = elapsed / 60;
    let hours = minutes / 60;
    let days = hours / 24;
    let weeks = days / 7;
    let v = times_used * 1000;
    if weeks > 0 {
        v / 4
    } else if days > 1 {
        v / 2
    } else {
        let recent = if hours < 24 {
            v * 2
        } else {
            v
        };
        if minutes < 60 {
            recent * 2
        } else {
            recent
        }
    }
}

/// The score at time `now` of a record used `times_used` times and last at
/// `last_used`, both times in seconds since the epoch.
pub open spec fn score_at(times_used: int, last_used: int, now: int) -> int {
    if now < last_used {
        UNSCOREABLE as int
    } else {
        aged_score(times_used, now - last_used)
    }
}

/// Halves (`d` is 2) or quarters (`d` is 4) a multiple of `d`, for either
/// sign of `v`.
fn divide_exactly(v: i64, d: i64) -> (r: i64)
    requires
        d == 2 || d == 4,
        v as int % d as int == 0,
        v > i64::MIN,
    ensures
        r == v as int / d as int,
{
    if v >= 0 {
        v / d
    } else {
        let w: i64 = -v;
        let q: i64 = w / d;
        assert(-q == v as int / d as int) by {
            if d == 2 {
                assert(v as int % 2 == 0);
            } else {
                assert(v as int % 4 == 0);
            }
        }
        -q
    }
}

/// Computes the score of a record at time `now`.
pub fn score(times_used: i32, last_used: u64, now: u64) -> (r: i64)
    ensures
        r == score_at(times_used as int, last_used as int, now as int),
        r == UNSCOREABLE <==> now < last_used,
        times_used >= 0 && now >= last_used ==> r >= 0,
{
    if now < last_used {
        return UNSCOREABLE;
    }
    let elapsed: u64 = now - last_used;
    let minutes: u64 = elapsed / SECONDS_PER_MINUTE;
    let hours: u64 = minutes / MINUTES_PER_HOUR;
    let days: u64 = hours / HOURS_PER_DAY;
    let weeks: u64 = days / DAYS_PER_WEEK;
    let mut v: i64 = (times_used as i64) * 1000;
    if weeks > 0 {
        v = divide_exactly(v, 4);
    } else if days > 1 {
        v = divide_exactly(v, 2);
    } else {
        if hours < HOURS_PER_DAY {
            v = v * 2;
        }
        if minutes < MINUTES_PER_HOUR {
            v = v * 2;
        }
    }
    v
}

/// A score is never negative when the count of uses is not and the last use
/// does not lie in the future, and it is the reserved value exactly when the
/// last use lies in the future.
pub proof fn lemma_score_sign(times_used: int, last_used: int, now: int)
    ensures
        times_used >= 0 && now >= last_used ==> score_at(times_used, last_used, now) >= 0,
        score_at(times_used, last_used, now) == UNSCOREABLE <==> now < last_used,
{
}

/// With the use count fixed, a score does not grow as the record ages.
pub proof fn lemma_score_decays(times_used: int, last_used: int, earlier: int, later: int)
    requires
        times_used >= 0,
        last_used <= earlier <= later,
    ensures
        score_at(times_used, last_used, earlier) >= score_at(times_used, last_used, later),
{
}

/// A score is at most four thousand times the use count in size.
pub proof fn lemma_score_bounds(times_used: int, last_used: int, now: int)
    ensures
        times_used >= 0 ==> -1 <= score_at(times_used, last_used, now) <= 4000 * times_used,
        times_used <= 0 ==> 4000 * times_used - 1 <= score_at(times_used, last_used, now) <= 0,
{
}

} // verus!
