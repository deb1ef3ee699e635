//! One record of the history: a directory, when it was last used and how
//! often.

use vstd::prelude::*;
use crate::matcher::{match_path, match_status};
use crate::score::{score, score_at, UNSCOREABLE};
use crate::text::{chars_of, chars_of_each, contains, is_substring, texts};

verus! {

/// What a record of the history says.
pub struct Record {
    /// The path of the directory.
    pub path: Seq<char>,
    /// When the directory was last used, in seconds since the epoch.
    pub last_used: u64,
    /// How often the directory was used.
    pub times_used: i32,
}

/// A directory with the time of its last use and the count of its uses.
#[derive(Debug, PartialEq, Eq)]
pub struct HistoryItem {
    /// The path of the directory.
    pub directory_name: String,
    /// When the directory was last used, in seconds since the epoch.
    pub last_used: u64,
    /// How often the directory was used.
    pub times_used: i32,
}

/// The last use of a record lies after the present moment.
#[derive(Debug, PartialEq, Eq, Clone, Copy)]
pub struct TimeSkew {
    /// By how many seconds the last use lies ahead.
    pub ahead_by: u64,
}

impl View for HistoryItem {
    type V = Record;

    open spec fn view(&self) -> Record {
        Record {
            path: self.directory_name@,
            last_used: self.last_used,
            times_used: self.times_used,
        }
    }
}

impl Clone for HistoryItem {
    fn clone(&self) -> (r: Self)
        ensures
            r == *self,
    {
        HistoryItem {
            directory_name: self.directory_name.clone(),
            last_used: self.last_used,
            times_used: self.times_used,
        }
    }
}

impl Record {
    /// The record after one more use at time `now`.
    pub open spec fn touched(self, now: u64) -> Record {
        Record { path: self.path, last_used: now, times_used: (self.times_used + 1) as i32 }
    }

    /// The score of the record at time `now`.
    pub open spec fn score(self, now: u64) -> int {
        score_at(self.times_used as int, self.last_used as int, now as int)
    }
}

impl HistoryItem {
    /// A record stands for at least one visit.
    pub open spec fn valid(&self) -> bool {
        self.times_used >= 1
    }

    /// Whether both records are of the same directory.
    pub fn matches(&self, other: &HistoryItem) -> (r: bool)
        ensures
            r == (self@.path == other@.path),
    {
        other.directory_name == self.directory_name
    }

    /// Whether `user_dir_token` stands in `path_component`, character for
    /// character.
    pub fn is_substring_of(&self, path_component: &str, user_dir_token: &str) -> (r: bool)
        ensures
            r == is_substring(path_component@, user_dir_token@),
    {
        let component = chars_of(path_component);
        let token = chars_of(user_dir_token);
        contains(&component, &token)
    }

    /// Matches the tokens against the components of the directory, in order.
    ///
    /// The first part of the result says whether every token was found, each
    /// in the first component that holds it after the component of the token
    /// before it, and the last token stands in the last component. The second
    /// part says whether the last token is the last component.
    pub fn item_matches_dir_components_in_order(&self, user_dir_tokens: &Vec<String>) -> (r: (
        bool,
        bool,
    ))
        ensures
            r == match_status(self@.path, texts(user_dir_tokens@)),
    {
        let tokens = chars_of_each(user_dir_tokens);
        match_path(self.directory_name.as_str(), &tokens)
    }

    /// The seconds from the last use to `now`, or by how much the last use
    /// lies ahead of `now`.
    pub fn time_since_last_used(&self, now: u64) -> (r: Result<u64, TimeSkew>)
        ensures
            now >= self.last_used ==> r == Ok::<u64, TimeSkew>((now - self.last_used) as u64),
            now < self.last_used ==> r == Err::<u64, TimeSkew>(
                TimeSkew { ahead_by: (self.last_used - now) as u64 },
            ),
    {
        if now >= self.last_used {
            Ok(now - self.last_used)
        } else {
            Err(TimeSkew { ahead_by: self.last_used - now })
        }
    }

    /// The score of the record at time `now`.
    pub fn get_score(&self, now: u64) -> (r: i64)
        ensures
            r == self@.score(now),
            r == UNSCOREABLE <==> now < self.last_used,
            self.valid() && now >= self.last_used ==> r >= 0,
    {
        score(self.times_used, self.last_used, now)
    }

    /// Counts one more use, at time `now`.
    pub fn update(&mut self, now: u64)
        requires
            old(self).times_used < i32::MAX,
        ensures
            final(self)@ == old(self)@.touched(now),
            old(self).valid() ==> final(self).valid(),
    {
        self.times_used = self.times_used + 1;
        self.last_used = now;
    }
}

} // verus!
