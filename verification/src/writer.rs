//! Appending completions to the stored record: the pure parts.  The actual
//! file writes live with the caller; this module resolves file names and
//! finds the rhythm line a completion refers to.
use vstd::prelude::*;

use crate::id::ID;
use crate::line_item::LineItem;

verus! {

/// Appends completion records under a root directory.
pub struct Writer {
    root: String,
}

impl Writer {
    /// A writer rooted at the given directory.
    pub fn new(root: String) -> (r: Writer)
        ensures
            r.spec_root() == root@,
    {
        Writer { root }
    }

    /// The root directory.
    pub closed spec fn spec_root(&self) -> Seq<char> {
        self.root@
    }

    /// The root directory.
    pub fn root(&self) -> (r: &str)
        ensures
            r@ == self.spec_root(),
    {
        self.root.as_str()
    }
}

/// The rhythms and events files under a root directory.
pub fn file_names(root: &str) -> (r: (String, String))
    ensures
        r.0@ == root@ + "/rhythms"@,
        r.1@ == root@ + "/events"@,
{
    proof {
        reveal_strlit("/rhythms");
        reveal_strlit("/events");
    }
    let mut rhythms = root.to_owned();
    rhythms.append("/rhythms");
    let mut events = root.to_owned();
    events.append("/events");
    proof {
        assert(rhythms@ =~= root@ + "/rhythms"@);
        assert(events@ =~= root@ + "/events"@);
    }
    (rhythms, events)
}

/// The first stored line whose `id:` word names the given identifier.
pub fn find_line_with_id(items: &Vec<LineItem>, id: &ID) -> (r: Option<usize>)
    requires
        forall|i: int| 0 <= i < items@.len() ==> (#[trigger] items@[i]).wf(),
    ensures
        r matches Some(k) ==> k < items@.len() && line_names_id(items@[k as int], id@),
        r is None ==> forall|i: int| 0 <= i < items@.len() ==> !line_names_id(#[trigger] items@[i], id@),
{
    proof {
        reveal_strlit("id:");
    }
    let n = items.len();
    let mut i: usize = 0;
    while i < n
        invariant
            0 <= i <= n,
            n == items@.len(),
            forall|j: int| 0 <= j < items@.len() ==> (#[trigger] items@[j]).wf(),
            forall|j: int| 0 <= j < i ==> !line_names_id(#[trigger] items@[j], id@),
        decreases n - i,
    {
        proof {
            reveal_strlit("id:");
        }
        let item = &items[i];
        match item.lookup(crate::command_words::COMMAND_ID) {
            Some(text) => {
                match ID::new(text.to_owned()) {
                    Some(internal) => {
                        if internal.eq(id) {
                            return Some(i);
                        }
                    },
                    None => {},
                }
            },
            None => {},
        }
        i = i + 1;
    }
    None
}

/// Whether a line's `id:` word, stripped and validated, names `id`.
pub open spec fn line_names_id(item: LineItem, id: Seq<char>) -> bool {
    match item.spec_lookup("id:"@) {
        Some(text) => crate::id::wf_id_seq(crate::id::strip_id_prefix(text))
            && crate::id::strip_id_prefix(text) == id,
        None => false,
    }
}

} // verus!
