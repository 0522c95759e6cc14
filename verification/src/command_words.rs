//! The command-word keys the library reads and writes.
use vstd::prelude::*;

verus! {

pub const COMMAND_ID: &'static str = "id:";

pub const COMMAND_TYPE: &'static str = "type:";

pub const COMMAND_WHEN: &'static str = "when:";

pub const COMMAND_SLIDER: &'static str = "slider:";

pub const COMMAND_STATUS: &'static str = "status:";

pub const COMMAND_DUE: &'static str = "due:";

pub const COMMAND_DOTM: &'static str = "dotm:";

pub const COMMAND_DOTW: &'static str = "dotw:";

pub const COMMAND_N: &'static str = "n:";

pub const COMMAND_TOD: &'static str = "tod:";

/// All the command-word keys, each ending in a colon.
pub fn command_words() -> (r: Vec<&'static str>)
    ensures
        r@.len() == 10,
        forall|i: int| 0 <= i < r@.len() ==> crate::line_item::wf_key(#[trigger] r@[i]@),
{
    proof {
        reveal_strlit("id:");
        reveal_strlit("type:");
        reveal_strlit("when:");
        reveal_strlit("slider:");
        reveal_strlit("status:");
        reveal_strlit("due:");
        reveal_strlit("dotm:");
        reveal_strlit("dotw:");
        reveal_strlit("n:");
        reveal_strlit("tod:");
    }
    let mut words: Vec<&'static str> = Vec::new();
    words.push(COMMAND_ID);
    words.push(COMMAND_TYPE);
    words.push(COMMAND_WHEN);
    words.push(COMMAND_SLIDER);
    words.push(COMMAND_STATUS);
    words.push(COMMAND_DUE);
    words.push(COMMAND_DOTM);
    words.push(COMMAND_DOTW);
    words.push(COMMAND_N);
    words.push(COMMAND_TOD);
    words
}

} // verus!
