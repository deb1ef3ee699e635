//! From what was typed to where to go: a directory that exists is visited
//! and recorded, anything else is resolved against the history.

use vstd::prelude::*;
use crate::history::{after_visit, resolved, room_for, room_to_resolve, History};
use crate::item::{HistoryItem, Record};
use crate::text::texts;

verus! {

/// What a look at the file system found of the path that was typed.
#[derive(Debug, PartialEq, Eq)]
pub enum Probe {
    /// A directory, with its canonical path.
    Directory(String),
    /// A directory whose canonical path could not be had.
    Unresolved,
    /// No directory.
    Missing,
}

/// Where to go, and with it whether the history has changed.
#[derive(Debug, PartialEq, Eq)]
pub enum Jump {
    /// To the directory that was typed; the visit is recorded.
    Visited(String),
    /// To the directory that the history gave; its use is counted.
    Found(String),
    /// To the absolute path that was typed, though it is no directory.
    Given(String),
    /// Nowhere: the history gave nothing.
    Stay,
    /// Nowhere: the directory could not be resolved.
    Nowhere,
}

/// A path that starts at the root.
pub open spec fn is_absolute(path: Seq<char>) -> bool {
    path.len() > 0 && path.first() == '/'
}

/// How `jump` and the history `after` follow from the history `before`, the
/// tokens `typed`, of which the first is the path typed, what was found of
/// that path, and the time.
///
/// A directory is visited under its canonical path: a record of it counts one
/// use more, or a new record with one use joins the history. A directory that
/// cannot be resolved changes nothing. A path that is no directory is given
/// back as it is where it is absolute; otherwise the tokens are resolved
/// against the history.
pub open spec fn follows(
    before: Seq<Record>,
    typed: Seq<Seq<char>>,
    probe: Probe,
    now: u64,
    jump: Jump,
    after: Seq<Record>,
) -> bool {
    match probe {
        Probe::Directory(canonical) => {
            &&& jump matches Jump::Visited(dir)
            &&& dir@ == typed[0]
            &&& after == after_visit(
                before,
                Record { path: canonical@, last_used: now, times_used: 1 },
            )
        },
        Probe::Unresolved => jump is Nowhere && after == before,
        Probe::Missing => if is_absolute(typed[0]) {
            &&& jump matches Jump::Given(dir)
            &&& dir@ == typed[0]
            &&& after == before
        } else {
            match jump {
                Jump::Found(dir) => resolved(before, typed, now, Some(dir@), after),
                Jump::Stay => resolved(before, typed, now, None, after),
                _ => false,
            }
        },
    }
}

/// The records that following the tokens would touch can count one use
/// more.
pub open spec fn room_to_follow(
    before: Seq<Record>,
    typed: Seq<Seq<char>>,
    probe: Probe,
    now: u64,
) -> bool {
    match probe {
        Probe::Directory(canonical) => room_for(before, canonical@),
        Probe::Unresolved => true,
        Probe::Missing => is_absolute(typed[0]) || room_to_resolve(before, typed, now),
    }
}

/// Whether a path starts at the root.
pub fn starts_at_root(path: &str) -> (r: bool)
    ensures
        r == is_absolute(path@),
{
    let length = path.unicode_len();
    length > 0 && path.get_char(0) == '/'
}

impl History {
    /// Whether the records that `handle_dir` would touch for these tokens,
    /// this finding and this time can count one use more.
    pub fn has_room_to_follow(&self, raw_dir_set: &Vec<String>, probe: &Probe, now: u64) -> (r:
        bool)
        requires
            raw_dir_set.len() > 0,
        ensures
            r == room_to_follow(self@, texts(raw_dir_set@), *probe, now),
    {
        match probe {
            Probe::Directory(canonical) => self.has_room_for(canonical.as_str()),
            Probe::Unresolved => true,
            Probe::Missing => starts_at_root(raw_dir_set[0].as_str()) || self.has_room_to_resolve(
                raw_dir_set,
                now,
            ),
        }
    }

    /// Decides where to go for the tokens typed, of which the first is taken
    /// as a path, and records the visit in the history.
    pub fn handle_dir(&mut self, raw_dir_set: &Vec<String>, probe: Probe, now: u64) -> (r: Jump)
        requires
            raw_dir_set.len() > 0,
            room_to_follow(old(self)@, texts(raw_dir_set@), probe, now),
        ensures
            follows(old(self)@, texts(raw_dir_set@), probe, now, r, final(self)@),
            old(self).well_formed() ==> final(self).well_formed(),
    {
        let raw_dir = raw_dir_set[0].clone();
        match probe {
            Probe::Directory(canonical) => {
                let item = HistoryItem { directory_name: canonical, last_used: now, times_used: 1 };
                self.append_insert_item(item);
                Jump::Visited(raw_dir)
            },
            Probe::Unresolved => Jump::Nowhere,
            Probe::Missing => {
                if starts_at_root(raw_dir.as_str()) {
                    Jump::Given(raw_dir)
                } else {
                    match self.find_dir_using_history(raw_dir_set, now) {
                        Some(dir) => Jump::Found(dir),
                        None => Jump::Stay,
                    }
                }
            },
        }
    }

    /// Decides where to go back to: as `handle_dir` does for the one token
    /// `old_dir`, the directory left last, or for the empty token where none
    /// is known.
    pub fn handle_dash(&mut self, old_dir: Option<String>, probe: Probe, now: u64) -> (r: Jump)
        requires
            room_to_follow(
                old(self)@,
                seq![
                    match old_dir {
                        Some(dir) => dir@,
                        None => Seq::<char>::empty(),
                    },
                ],
                probe,
                now,
            ),
        ensures
            follows(
                old(self)@,
                seq![
                    match old_dir {
                        Some(dir) => dir@,
                        None => Seq::<char>::empty(),
                    },
                ],
                probe,
                now,
                r,
                final(self)@,
            ),
            old(self).well_formed() ==> final(self).well_formed(),
    {
        let dir = match old_dir {
            Some(dir) => dir,
            None => String::new(),
        };
        let ghost typed = seq![dir@];
        let mut dir_set: Vec<String> = Vec::new();
        dir_set.push(dir);
        assert(texts(dir_set@) =~= typed);
        self.handle_dir(&dir_set, probe, now)
    }
}

} // verus!
