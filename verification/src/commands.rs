//! The decisions behind the explorer's commands: what opening an entry
//! leads to, whether a listing shows `../`, whether a new name is a
//! directory, and how an explorer buffer is named.

use vstd::prelude::*;
use crate::explorer::{parent_dir, path_parent};

verus! {

/// What opening the entry under the cursor leads to.
#[derive(Debug, Clone, PartialEq, Eq)]
pub enum OpenStep {
    /// Show the listing of this directory, the parent of the current one.
    Parent(String),
    /// Nothing to do: `..` was opened at the root.
    Stay,
    /// Open this entry of the current directory, as a listing when it is a
    /// directory and as a file otherwise.
    Enter(String),
}

/// Decides what opening the entry `name` of directory `dir` does: `..` goes
/// to the parent directory when there is one, any other name is entered.
pub fn open_step(dir: &str, name: &str) -> (r: OpenStep)
    ensures
        name@ == seq!['.', '.'] ==> match path_parent(dir@) {
            Some(p) => (r matches OpenStep::Parent(q) && q@ == p),
            None => r is Stay,
        },
        name@ != seq!['.', '.'] ==> (r matches OpenStep::Enter(n) && n@ == name@),
{
    let dots = name.unicode_len() == 2 && name.get_char(0) == '.' && name.get_char(1) == '.';
    assert(dots == (name@ == seq!['.', '.'])) by {
        if name@.len() == 2 && name@[0] == '.' && name@[1] == '.' {
            assert(name@ =~= seq!['.', '.']);
        }
    }
    if dots {
        match parent_dir(dir) {
            Some(p) => OpenStep::Parent(p),
            None => OpenStep::Stay,
        }
    } else {
        OpenStep::Enter(String::from_str(name))
    }
}

/// Whether the listing of `dir` starts with the `../` line: only when the
/// directory has a parent and is not the root `/`.
pub fn shows_parent(dir: &str) -> (r: bool)
    ensures
        r == (path_parent(dir@) is Some && dir@ != seq!['/']),
{
    let has_parent = parent_dir(dir).is_some();
    let root = dir.unicode_len() == 1 && dir.get_char(0) == '/';
    assert(root == (dir@ == seq!['/'])) by {
        if dir@.len() == 1 && dir@[0] == '/' {
            assert(dir@ =~= seq!['/']);
        }
    }
    has_parent && !root
}

/// Whether a name given to the create command asks for a directory: it
/// does when it ends with `/`.
pub fn creates_directory(name: &str) -> (r: bool)
    ensures
        r == (name@.len() > 0 && name@.last() == '/'),
{
    let n = name.unicode_len();
    n > 0 && name.get_char(n - 1) == '/'
}

/// The buffer name of the explorer showing `dir`: `hayashi://` followed by
/// the directory's path.
pub fn buffer_name(dir: &str) -> (r: String)
    ensures
        r@ == seq!['h', 'a', 'y', 'a', 's', 'h', 'i', ':', '/', '/'] + dir@,
{
    let mut s = String::from_str("hayashi://");
    proof {
        reveal_strlit("hayashi://");
    }
    s.append(dir);
    assert(s@ =~= seq!['h', 'a', 'y', 'a', 's', 'h', 'i', ':', '/', '/'] + dir@);
    s
}

} // verus!
