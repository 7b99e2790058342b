//! Where the store is kept: in the file that the caller names, or else in
//! the file `.z` of the user's home directory.

use vstd::prelude::*;
use vstd::string::StringExecFns;

verus! {

/// The path of the file `.z` in the directory `home`: the directory, a
/// slash unless the directory is empty or ends in one, and the name.
pub open spec fn dotfile_in(home: Seq<char>) -> Seq<char> {
    if home.len() == 0 || home.last() == '/' {
        home + seq!['.', 'z']
    } else {
        home + seq!['/', '.', 'z']
    }
}

/// The path of the store's file: the one that was named, or else the file
/// `.z` in the home directory, if there is a home directory.
pub open spec fn data_file_of(named: Option<Seq<char>>, home: Option<Seq<char>>) -> Option<
    Seq<char>,
> {
    match named {
        Some(path) => Some(path),
        None => match home {
            Some(dir) => Some(dotfile_in(dir)),
            None => None,
        },
    }
}

/// The text of an optional string.
pub open spec fn text_of(s: Option<String>) -> Option<Seq<char>> {
    match s {
        Some(s) => Some(s@),
        None => None,
    }
}

/// Calls `home::home_dir`, which looks the current user's home directory up
/// in the environment and, failing that, in the system's user database.
/// The answer depends on the process and the machine, so nothing is said of
/// it. A directory whose name is not valid Unicode cannot be held as text
/// and counts as none here.
#[verifier::external_body]
fn home_directory() -> (home: Option<String>) {
    match home::home_dir() {
        Some(dir) => dir.into_os_string().into_string().ok(),
        None => None,
    }
}

/// The name of the store's file in the home directory.
pub fn dotfile_name() -> (name: &'static str)
    ensures
        name@ == seq!['.', 'z'],
{
    let name = ".z";
    proof {
        reveal_strlit(".z");
        assert(name@ =~= seq!['.', 'z']);
    }
    name
}

/// The path of the file `.z` in the directory `home`.
pub fn dotfile(home: String) -> (path: String)
    ensures
        path@ == dotfile_in(home@),
{
    let chars = crate::text::chars_of(home.as_str());
    let mut path = home;
    if chars.len() != 0 && chars[chars.len() - 1] != '/' {
        path.push('/');
    }
    path.append(dotfile_name());
    assert(path@ =~= dotfile_in(home@));
    path
}

/// The path of the store's file, given the path that was named, if one was,
/// and the home directory, if there is one.
pub fn choose_data_file(named: Option<String>, home: Option<String>) -> (path: Option<String>)
    ensures
        text_of(path) == data_file_of(text_of(named), text_of(home)),
{
    match named {
        Some(path) => Some(path),
        None => match home {
            Some(dir) => Some(dotfile(dir)),
            None => None,
        },
    }
}

/// The path of the store's file: the one that was named, or else the file
/// `.z` in the home directory of the current user. The home directory is
/// looked up only if no path was named; without a path and without a home
/// directory there is no file.
///
/// A path is text here. A home directory whose name is not valid Unicode
/// gives no text, and so no file: a caller that can hold such a path joins
/// `dotfile_name` to it on its own.
pub fn data_file(named: Option<String>) -> (path: Option<String>)
    ensures
        named is Some ==> path == named,
        named is None ==> exists|home: Option<Seq<char>>|
            text_of(path) == #[trigger] data_file_of(None, home),
{
    match named {
        Some(path) => Some(path),
        None => {
            let home = home_directory();
            let path = choose_data_file(None, home);
            assert(text_of(path) == data_file_of(None, text_of(home)));
            path
        },
    }
}

} // verus!
