//! Where the history is kept: the state directory and the files in it.

use vstd::prelude::*;
use crate::history::History;

verus! {

/// `dir` with the relative name `name` under it: a slash stands between
/// them unless `dir` is empty or ends with one.
pub open spec fn join_path(dir: Seq<char>, name: Seq<char>) -> Seq<char> {
    if dir.len() == 0 || dir.last() == '/' {
        dir + name
    } else {
        dir.push('/') + name
    }
}

/// What an optional string says.
pub open spec fn text_of_option(s: Option<&str>) -> Option<Seq<char>> {
    match s {
        Some(s) => Some(s@),
        None => None,
    }
}

/// The state directory: the application's directory under the data home
/// where one is given, else under `.local/share` of the home directory, else
/// the empty path.
pub open spec fn state_dir(data_home: Option<Seq<char>>, home: Option<Seq<char>>) -> Seq<char> {
    match data_home {
        Some(dir) => join_path(dir, "z-methoxy"@),
        None => match home {
            Some(dir) => join_path(
                join_path(join_path(dir, ".local"@), "share"@),
                "z-methoxy"@,
            ),
            None => Seq::<char>::empty(),
        },
    }
}

/// The path of the history file in the state directory `dir`.
pub open spec fn history_file(dir: Seq<char>) -> Seq<char> {
    join_path(dir, "history"@)
}

/// The path of the file that a new history is written to before it takes
/// the place of the history file.
pub open spec fn temporary_file(dir: Seq<char>) -> Seq<char> {
    history_file(dir) + "-tmp"@
}

/// Puts the relative name `name` under the path in `path`.
fn push_name(path: &mut String, name: &str)
    ensures
        final(path)@ == join_path(old(path)@, name@),
{
    let length = path.as_str().unicode_len();
    if length > 0 && path.as_str().get_char(length - 1) != '/' {
        proof {
            reveal_strlit("/");
        }
        path.append("/");
        assert(path@ =~= old(path)@.push('/'));
    }
    path.append(name);
}

/// The state directory, from the data home and the home directory as the
/// environment gives them.
pub fn state_dir_name(data_home: Option<&str>, home: Option<&str>) -> (r: String)
    ensures
        r@ == state_dir(text_of_option(data_home), text_of_option(home)),
{
    match data_home {
        Some(dir) => {
            let mut path = dir.to_owned();
            push_name(&mut path, "z-methoxy");
            path
        },
        None => match home {
            Some(dir) => {
                let mut path = dir.to_owned();
                push_name(&mut path, ".local");
                push_name(&mut path, "share");
                push_name(&mut path, "z-methoxy");
                path
            },
            None => String::new(),
        },
    }
}

/// The path of the history file in the state directory `state_dir`.
pub fn history_file_name(state_dir: &str) -> (r: String)
    ensures
        r@ == history_file(state_dir@),
{
    let mut path = state_dir.to_owned();
    push_name(&mut path, "history");
    path
}

/// The path of the temporary file in the state directory `state_dir`.
pub fn temporary_file_name(state_dir: &str) -> (r: String)
    ensures
        r@ == temporary_file(state_dir@),
{
    let mut path = history_file_name(state_dir);
    path.append("-tmp");
    path
}

/// The history file is neither the state directory nor the temporary file.
pub proof fn lemma_history_file_apart(dir: Seq<char>)
    ensures
        history_file(dir) != dir,
        history_file(dir) != temporary_file(dir),
{
    reveal_strlit("history");
    reveal_strlit("-tmp");
    assert(history_file(dir).len() > dir.len());
    assert(temporary_file(dir).len() == history_file(dir).len() + 4);
}

impl History {
    /// The state directory, from the data home and the home directory as the
    /// environment gives them.
    pub fn get_history_state_dir_name(&self, data_home: Option<&str>, home: Option<&str>) -> (r:
        String)
        ensures
            r@ == state_dir(text_of_option(data_home), text_of_option(home)),
    {
        state_dir_name(data_home, home)
    }

    /// The path of the history file in the state directory `state_dir`.
    pub fn get_history_file_name(&self, state_dir: &str) -> (r: String)
        ensures
            r@ == history_file(state_dir@),
    {
        history_file_name(state_dir)
    }

    /// The path of the temporary file in the state directory `state_dir`.
    pub fn get_history_tmp_file_name(&self, state_dir: &str) -> (r: String)
        ensures
            r@ == temporary_file(state_dir@),
    {
        temporary_file_name(state_dir)
    }
}

} // verus!
