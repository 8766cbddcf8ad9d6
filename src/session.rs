//! The state that one editing session keeps between its steps.
use vstd::prelude::*;
use crate::text::{chars_of, contains, find_in};

verus! {

/// Where the save being edited was unpacked, once it has been.
pub struct ExtractState {
    pub path: Option<String>,
}

impl ExtractState {
    pub fn new() -> (r: Self)
        ensures
            r.path is None,
    {
        ExtractState { path: None }
    }
}

/// Why a path was refused.
#[derive(Clone, Copy, Debug, PartialEq, Eq, Structural)]
pub enum PathError {
    /// The path holds `..`, and so may climb out of where it is meant to stay.
    Traversal,
}

pub open spec fn parent_step() -> Seq<char> {
    seq!['.', '.']
}

/// Refuses a path that holds `..` anywhere.
pub fn validate_path_safety(path: &str) -> (r: Result<(), PathError>)
    ensures
        r is Err <==> contains(path@, parent_step()),
        r is Err ==> r == Err::<(), PathError>(PathError::Traversal),
{
    let s = chars_of(path);
    let dots: [char; 2] = ['.', '.'];
    assert(s@.subrange(0, s@.len() as int) =~= s@);
    match find_in(&s, 0, s.len(), 0, &dots) {
        Some(_) => Err(PathError::Traversal),
        None => Ok(()),
    }
}

} // verus!
