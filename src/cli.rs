//! The requests of the command-line front end, and what it answers to each:
//! the text on standard output and the exit status.
use vstd::prelude::*;
use vstd::string::StringExecFns;

verus! {

/// `set <key> <value>`
#[derive(Debug, Clone, PartialEq, Eq)]
pub struct Put {
    pub key: String,
    pub value: String,
}

/// `get <key>`
#[derive(Debug, Clone, PartialEq, Eq)]
pub struct Get {
    pub key: String,
}

/// `rm <key>`
#[derive(Debug, Clone, PartialEq, Eq)]
pub struct Rm {
    pub key: String,
}

/// A request of the command line.
#[derive(Debug, Clone, PartialEq, Eq)]
pub enum Command {
    Put(Put),
    Get(Get),
    Rm(Rm),
}

/// What the command line prints on standard output, and its exit status.
#[derive(Debug, Clone, PartialEq, Eq)]
pub struct Reply {
    pub stdout: String,
    pub status: i32,
}

/// `Key not found`
pub open spec fn key_not_found_text() -> Seq<char> {
    seq!['K', 'e', 'y', ' ', 'n', 'o', 't', ' ', 'f', 'o', 'u', 'n', 'd']
}

fn key_not_found() -> (r: String)
    ensures
        r@ == key_not_found_text(),
{
    proof {
        reveal_strlit("Key not found");
    }
    let r = String::from_str("Key not found");
    assert(r@ =~= key_not_found_text());
    r
}

/// The reply to `get`: the value where the store holds the key, else
/// `Key not found`; success either way.
pub fn get_reply(value: Option<String>) -> (r: Reply)
    ensures
        r.status == 0,
        r.stdout@ == match value {
            Some(v) => v@,
            None => key_not_found_text(),
        },
{
    match value {
        Some(v) => Reply { stdout: v, status: 0 },
        None => Reply { stdout: key_not_found(), status: 0 },
    }
}

/// The reply to `set`: nothing, and success.
pub fn set_reply() -> (r: Reply)
    ensures
        r.status == 0,
        r.stdout@ == Seq::<char>::empty(),
{
    Reply { stdout: String::new(), status: 0 }
}

/// The reply to `rm`: nothing and success where the key was removed;
/// `Key not found` and status 1 where the store did not hold it.
pub fn rm_reply(removed: bool) -> (r: Reply)
    ensures
        removed ==> r.status == 0 && r.stdout@ == Seq::<char>::empty(),
        !removed ==> r.status == 1 && r.stdout@ == key_not_found_text(),
{
    if removed {
        Reply { stdout: String::new(), status: 0 }
    } else {
        Reply { stdout: key_not_found(), status: 1 }
    }
}

} // verus!
