//! Names of the event sources the inference rules single out.
//!
//! The coding assistant's hook writes its events under the assistant's
//! product name; these functions are the one place the names are spelled.
//! The bare name is spelled as the stem of the turn source's name.
use vstd::prelude::*;

use crate::text::{chars_of, string_of};

verus! {

/// The source of events written by the coding assistant's hook.
pub open spec fn assistant() -> Seq<char> {
    "claude_turn"@.take(6)
}

/// The source of one assistant turn the owner typed.
pub open spec fn assistant_turn() -> Seq<char> {
    "claude_turn"@
}

/// The source of the assistant working in the background.
pub open spec fn assistant_work() -> Seq<char> {
    "claude_work"@
}

/// The `estimated_by` marker of a block the assistant estimated.
pub open spec fn assistant_estimate() -> Seq<char> {
    "claude_p"@
}

/// `assistant()` as a string.
pub fn assistant_source() -> (s: String)
    ensures
        s@ == assistant(),
{
    let v = chars_of("claude_turn");
    proof {
        reveal_strlit("claude_turn");
    }
    string_of(v.as_slice(), 0, 6)
}

/// `assistant_turn()` as a string.
pub fn assistant_turn_source() -> (s: String)
    ensures
        s@ == assistant_turn(),
{
    "claude_turn".to_owned()
}

/// `assistant_work()` as a string.
pub fn assistant_work_source() -> (s: String)
    ensures
        s@ == assistant_work(),
{
    "claude_work".to_owned()
}

/// `assistant_estimate()` as a string.
pub fn assistant_estimate_marker() -> (s: String)
    ensures
        s@ == assistant_estimate(),
{
    "claude_p".to_owned()
}

} // verus!
