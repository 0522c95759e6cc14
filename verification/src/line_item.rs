//! One line of the stored record format: a free-text description together
//! with `key:value` command words.  Command words are held sorted by key, so
//! the canonical form of a line is reproducible.
use vstd::prelude::*;

use crate::strutil::lemma_seq_lt_irrefl;
use crate::strutil::lemma_seq_lt_trans;
use crate::strutil::lemma_seq_lt_trichotomy;
use crate::strutil::seq_lt;
use crate::strutil::str_eq;
use crate::strutil::str_lt;

verus! {

/// Characters that may not appear in a description.
pub open spec fn is_special(c: char) -> bool {
    c == ':' || c == '\r' || c == '\n'
}

/// A well-formed description: none of the special characters appear.
pub open spec fn wf_desc(s: Seq<char>) -> bool {
    forall|i: int| 0 <= i < s.len() ==> !is_special(s[i])
}

/// Errors of the record layer.
#[derive(Debug)]
pub enum Error {
    InvalidLineRepresentation(String),
}

/// The free-text part of a line.
#[derive(Clone, Debug, Default)]
pub struct Description {
    desc: String,
}

impl View for Description {
    type V = Seq<char>;

    closed spec fn view(&self) -> Seq<char> {
        self.desc@
    }
}

impl PartialEq for Description {
    fn eq(&self, other: &Description) -> bool {
        str_eq(self.desc.as_str(), other.desc.as_str())
    }
}

impl vstd::std_specs::cmp::PartialEqSpecImpl for Description {
    open spec fn obeys_eq_spec() -> bool {
        true
    }

    open spec fn eq_spec(&self, other: &Description) -> bool {
        self@ == other@
    }
}

impl Eq for Description {

}

impl Description {
    /// Accepts a description exactly when it avoids the special characters.
    pub fn new(desc: String) -> (r: Option<Description>)
        ensures
            r is Some <==> wf_desc(desc@),
            r matches Some(d) ==> d@ == desc@,
    {
        let len = desc.as_str().unicode_len();
        let mut i: usize = 0;
        while i < len
            invariant
                0 <= i <= len,
                len == desc@.len(),
                forall|j: int| 0 <= j < i ==> !is_special(desc@[j]),
            decreases len - i,
        {
            let c = desc.as_str().get_char(i);
            if c == ':' || c == '\r' || c == '\n' {
                return None;
            }
            i = i + 1;
        }
        Some(Description { desc })
    }

    /// The text of the description.
    pub fn text(&self) -> (r: &str)
        ensures
            r@ == self@,
    {
        self.desc.as_str()
    }
}

/// The value associated with `key` in a pair list, scanning from the front.
pub open spec fn assoc(ws: Seq<(String, String)>, key: Seq<char>) -> Option<Seq<char>>
    decreases ws.len(),
{
    if ws.len() == 0 {
        None
    } else if ws[0].0@ == key {
        Some(ws[0].1@)
    } else {
        assoc(ws.skip(1), key)
    }
}

/// Keys strictly increase, and each ends with a colon.
pub open spec fn wf_words(ws: Seq<(String, String)>) -> bool {
    &&& forall|i: int, j: int| 0 <= i < j < ws.len() ==> seq_lt(#[trigger] ws[i].0@, #[trigger] ws[j].0@)
    &&& forall|i: int| 0 <= i < ws.len() ==> (#[trigger] ws[i].0@).len() > 0 && ws[i].0@.last() == ':'
}

/// A key fit for a command word: nonempty, ending with a colon.
pub open spec fn wf_key(k: Seq<char>) -> bool {
    k.len() > 0 && k.last() == ':'
}

proof fn lemma_assoc_present(ws: Seq<(String, String)>, i: int)
    requires
        0 <= i < ws.len(),
        forall|p: int, q: int|
            0 <= p < q < ws.len() ==> seq_lt(#[trigger] ws[p].0@, #[trigger] ws[q].0@),
    ensures
        assoc(ws, ws[i].0@) == Some(ws[i].1@),
    decreases i,
{
    if i == 0 {
    } else {
        lemma_seq_lt_irrefl(ws[i].0@);
        assert(seq_lt(ws[0].0@, ws[i].0@));
        assert(ws[0].0@ != ws[i].0@);
        assert(forall|p: int, q: int|
            0 <= p < q < ws.skip(1).len() ==> seq_lt(
                #[trigger] ws.skip(1)[p].0@,
                #[trigger] ws.skip(1)[q].0@,
            )) by {
            assert(forall|p: int|
                0 <= p < ws.skip(1).len() ==> ws.skip(1)[p] == ws[p + 1]);
        }
        lemma_assoc_present(ws.skip(1), i - 1);
        assert(ws.skip(1)[i - 1] == ws[i]);
    }
}

proof fn lemma_assoc_absent(ws: Seq<(String, String)>, key: Seq<char>)
    requires
        forall|i: int| 0 <= i < ws.len() ==> (#[trigger] ws[i].0@) != key,
    ensures
        assoc(ws, key) is None,
    decreases ws.len(),
{
    if ws.len() > 0 {
        assert(forall|i: int|
            0 <= i < ws.skip(1).len() ==> (#[trigger] ws.skip(1)[i].0@) != key) by {
            assert(forall|i: int| 0 <= i < ws.skip(1).len() ==> ws.skip(1)[i] == ws[i + 1]);
        }
        lemma_assoc_absent(ws.skip(1), key);
    }
}

/// The command words of a line: a map from `key:` to value, held as a list
/// of pairs sorted strictly by key.
#[derive(Clone, Debug, Default, PartialEq, Eq)]
pub struct CommandWords {
    words: Vec<(String, String)>,
}

impl CommandWords {
    /// The pair list, sorted by key.
    pub closed spec fn words_seq(&self) -> Seq<(String, String)> {
        self.words@
    }

    /// The value under `key`, if any.
    pub open spec fn spec_lookup(&self, key: Seq<char>) -> Option<Seq<char>> {
        assoc(self.words_seq(), key)
    }

    /// The representation invariant: keys strictly sorted, each a command
    /// key.
    pub open spec fn wf(&self) -> bool {
        wf_words(self.words_seq())
    }

    /// An empty set of command words.
    pub fn new() -> (r: CommandWords)
        ensures
            r.wf(),
            r.words_seq() == Seq::<(String, String)>::empty(),
    {
        CommandWords { words: Vec::new() }
    }

    /// Whether `key` is present.  `key` must end with a colon.
    pub fn has(&self, key: &str) -> (r: bool)
        requires
            self.wf(),
            wf_key(key@),
        ensures
            r == (self.spec_lookup(key@) is Some),
    {
        match self.lookup(key) {
            Some(_) => true,
            None => false,
        }
    }

    /// The value under `key`, if present.  `key` must end with a colon.
    pub fn lookup(&self, key: &str) -> (r: Option<&str>)
        requires
            self.wf(),
            wf_key(key@),
        ensures
            r is Some <==> self.spec_lookup(key@) is Some,
            r matches Some(v) ==> self.spec_lookup(key@) == Some(v@),
    {
        let n = self.words.len();
        let mut i: usize = 0;
        while i < n
            invariant
                0 <= i <= n,
                n == self.words@.len(),
                self.wf(),
                forall|j: int| 0 <= j < i ==> (#[trigger] self.words@[j].0@) != key@,
            decreases n - i,
        {
            if str_eq(self.words[i].0.as_str(), key) {
                proof {
                    lemma_assoc_present(self.words@, i as int);
                }
                return Some(self.words[i].1.as_str());
            }
            i = i + 1;
        }
        proof {
            lemma_assoc_absent(self.words@, key@);
        }
        None
    }

    /// The first sorted position whose key is not below `key`.
    fn find_lower(&self, key: &str) -> (r: usize)
        requires
            self.wf(),
        ensures
            r <= self.words_seq().len(),
            forall|j: int| 0 <= j < r ==> seq_lt(#[trigger] self.words_seq()[j].0@, key@),
            r < self.words_seq().len() ==> !seq_lt(self.words_seq()[r as int].0@, key@),
    {
        let n = self.words.len();
        let mut i: usize = 0;
        while i < n
            invariant
                0 <= i <= n,
                n == self.words@.len(),
                self.wf(),
                forall|j: int| 0 <= j < i ==> seq_lt(#[trigger] self.words@[j].0@, key@),
            decreases n - i,
        {
            if !str_lt(self.words[i].0.as_str(), key) {
                return i;
            }
            i = i + 1;
        }
        i
    }

    /// Binds `key` to `value`, replacing any previous binding.  `key` must
    /// end with a colon.
    pub fn insert(&mut self, key: &str, value: &str)
        requires
            old(self).wf(),
            wf_key(key@),
        ensures
            final(self).wf(),
            final(self).spec_lookup(key@) == Some(value@),
            forall|k: Seq<char>|
                k != key@ ==> #[trigger] final(self).spec_lookup(k) == old(self).spec_lookup(k),
    {
        let ghost oldw = self.words@;
        let n = self.words.len();
        let i = self.find_lower(key);
        if i < n && str_eq(self.words[i].0.as_str(), key) {
            let pair = (key.to_owned(), value.to_owned());
            self.words.remove(i);
            self.words.insert(i, pair);
            proof {
                let neww = self.words@;
                assert(neww =~= oldw.update(i as int, (pair.0, pair.1)));
                assert(forall|p: int| 0 <= p < neww.len() && p != i ==> neww[p] == oldw[p]);
                assert(neww[i as int].0@ == oldw[i as int].0@);
                assert(wf_words(neww));
                lemma_assoc_present(neww, i as int);
                assert forall|k: Seq<char>| k != key@ implies #[trigger] assoc(neww, k) == assoc(
                    oldw,
                    k,
                ) by {
                    lemma_assoc_update(oldw, neww, i as int, k);
                }
            }
        } else {
            proof {
                if i < n {
                    lemma_seq_lt_trichotomy(self.words@[i as int].0@, key@);
                    assert(seq_lt(key@, self.words@[i as int].0@));
                }
            }
            let pair = (key.to_owned(), value.to_owned());
            self.words.insert(i, pair);
            proof {
                let neww = self.words@;
                assert(forall|p: int| 0 <= p < i ==> neww[p] == oldw[p]);
                assert(forall|p: int| i < p < neww.len() ==> #[trigger] neww[p] == oldw[p - 1]);
                assert(neww[i as int].0@ == key@);
                assert forall|p: int, q: int| 0 <= p < q < neww.len() implies seq_lt(
                    #[trigger] neww[p].0@,
                    #[trigger] neww[q].0@,
                ) by {
                    if q == i {
                        // scanned keys lie below `key`
                        assert(seq_lt(oldw[p].0@, key@));
                    } else if p == i {
                        // `key` lies below the key at the insertion point,
                        // which lies below all later keys
                        assert(i < n);
                        assert(seq_lt(key@, oldw[i as int].0@));
                        if q - 1 == i {
                        } else {
                            assert(seq_lt(oldw[i as int].0@, oldw[q - 1].0@));
                            lemma_seq_lt_trans(key@, oldw[i as int].0@, oldw[q - 1].0@);
                        }
                    } else if p < i && q > i {
                        assert(neww[p] == oldw[p]);
                        assert(neww[q] == oldw[q - 1]);
                        if p == q - 1 {
                            assert(seq_lt(oldw[p].0@, key@));
                            assert(seq_lt(key@, oldw[i as int].0@));
                        } else {
                            assert(seq_lt(oldw[p].0@, oldw[q - 1].0@));
                        }
                    } else {
                        // both on the same side of the insertion point
                    }
                }
                assert(wf_words(neww));
                lemma_assoc_present(neww, i as int);
                assert forall|k: Seq<char>| k != key@ implies #[trigger] assoc(neww, k) == assoc(
                    oldw,
                    k,
                ) by {
                    lemma_assoc_fresh_insert(oldw, neww, i as int, k);
                }
            }
        }
    }

    /// Removes any binding of `key`.  `key` must end with a colon.
    pub fn remove(&mut self, key: &str)
        requires
            old(self).wf(),
            wf_key(key@),
        ensures
            final(self).wf(),
            final(self).spec_lookup(key@) is None,
            forall|k: Seq<char>|
                k != key@ ==> #[trigger] final(self).spec_lookup(k) == old(self).spec_lookup(k),
    {
        let ghost oldw = self.words@;
        let n = self.words.len();
        let mut i: usize = 0;
        while i < n
            invariant
                0 <= i <= n,
                n == self.words@.len(),
                self.words@ == oldw,
                oldw == old(self).words@,
                wf_words(oldw),
                forall|j: int| 0 <= j < i ==> (#[trigger] oldw[j].0@) != key@,
            decreases n - i,
        {
            if str_eq(self.words[i].0.as_str(), key) {
                self.words.remove(i);
                proof {
                    let neww = self.words@;
                    assert(forall|p: int| 0 <= p < i ==> neww[p] == oldw[p]);
                    assert(forall|p: int|
                        i <= p < neww.len() ==> #[trigger] neww[p] == oldw[p + 1]);
                    assert(wf_words(neww));
                    assert forall|p: int| 0 <= p < neww.len() implies (#[trigger] neww[p].0@)
                        != key@ by {
                        lemma_seq_lt_irrefl(key@);
                        if p < i {
                        } else {
                            assert(seq_lt(oldw[i as int].0@, oldw[p + 1].0@));
                        }
                    }
                    lemma_assoc_absent(neww, key@);
                    assert forall|k: Seq<char>| k != key@ implies #[trigger] assoc(neww, k)
                        == assoc(oldw, k) by {
                        lemma_assoc_removed(oldw, neww, i as int, k);
                    }
                }
                return ;
            }
            i = i + 1;
        }
        proof {
            lemma_assoc_absent(self.words@, key@);
        }
    }

    /// The number of command words.
    pub fn len(&self) -> (r: usize)
        ensures
            r == self.words_seq().len(),
    {
        self.words.len()
    }

    /// The key and value at sorted position `i`.
    pub fn pair_at(&self, i: usize) -> (r: (&String, &String))
        requires
            i < self.words_seq().len(),
        ensures
            r.0@ == self.words_seq()[i as int].0@,
            r.1@ == self.words_seq()[i as int].1@,
    {
        let p = &self.words[i];
        (&p.0, &p.1)
    }
}

/// Replacing the value at one position leaves `assoc` unchanged at every
/// other key.
proof fn lemma_assoc_update(
    oldw: Seq<(String, String)>,
    neww: Seq<(String, String)>,
    i: int,
    k: Seq<char>,
)
    requires
        forall|p: int, q: int|
            0 <= p < q < oldw.len() ==> seq_lt(#[trigger] oldw[p].0@, #[trigger] oldw[q].0@),
        forall|p: int, q: int|
            0 <= p < q < neww.len() ==> seq_lt(#[trigger] neww[p].0@, #[trigger] neww[q].0@),
        0 <= i < oldw.len(),
        neww.len() == oldw.len(),
        forall|p: int| 0 <= p < neww.len() && p != i ==> #[trigger] neww[p] == oldw[p],
        neww[i].0@ == oldw[i].0@,
        k != oldw[i].0@,
    ensures
        assoc(oldw, k) == assoc(neww, k),
{
    if exists|p: int| 0 <= p < oldw.len() && (#[trigger] oldw[p].0@) == k {
        let p = choose|p: int| 0 <= p < oldw.len() && (#[trigger] oldw[p].0@) == k;
        assert(p != i);
        lemma_assoc_present(oldw, p);
        lemma_assoc_present(neww, p);
    } else {
        assert(forall|p: int| 0 <= p < oldw.len() ==> (#[trigger] oldw[p].0@) != k);
        lemma_assoc_absent(oldw, k);
        assert forall|q: int| 0 <= q < neww.len() implies (#[trigger] neww[q].0@) != k by {
            if q != i {
                assert(neww[q] == oldw[q]);
            }
        }
        lemma_assoc_absent(neww, k);
    }
}

/// Inserting a pair with a different key leaves `assoc` unchanged at `k`.
proof fn lemma_assoc_fresh_insert(
    oldw: Seq<(String, String)>,
    neww: Seq<(String, String)>,
    i: int,
    k: Seq<char>,
)
    requires
        forall|p: int, q: int|
            0 <= p < q < oldw.len() ==> seq_lt(#[trigger] oldw[p].0@, #[trigger] oldw[q].0@),
        forall|p: int, q: int|
            0 <= p < q < neww.len() ==> seq_lt(#[trigger] neww[p].0@, #[trigger] neww[q].0@),
        0 <= i <= oldw.len(),
        neww.len() == oldw.len() + 1,
        forall|p: int| 0 <= p < i ==> #[trigger] neww[p] == oldw[p],
        forall|p: int| i < p < neww.len() ==> #[trigger] neww[p] == oldw[p - 1],
        neww[i].0@ != k,
    ensures
        assoc(oldw, k) == assoc(neww, k),
{
    if exists|p: int| 0 <= p < oldw.len() && (#[trigger] oldw[p].0@) == k {
        let p = choose|p: int| 0 <= p < oldw.len() && (#[trigger] oldw[p].0@) == k;
        lemma_assoc_present(oldw, p);
        if p < i {
            assert(neww[p].0@ == k);
            lemma_assoc_present(neww, p);
        } else {
            assert(neww[p + 1] == oldw[p]);
            lemma_assoc_present(neww, p + 1);
        }
    } else {
        assert(forall|p: int| 0 <= p < oldw.len() ==> (#[trigger] oldw[p].0@) != k);
        lemma_assoc_absent(oldw, k);
        assert forall|q: int| 0 <= q < neww.len() implies (#[trigger] neww[q].0@) != k by {
            if q < i {
                assert(neww[q] == oldw[q]);
            } else if q > i {
                assert(neww[q] == oldw[q - 1]);
            }
        }
        lemma_assoc_absent(neww, k);
    }
}

/// Removing the pair at one position leaves `assoc` unchanged at every other
/// key.
proof fn lemma_assoc_removed(
    oldw: Seq<(String, String)>,
    neww: Seq<(String, String)>,
    i: int,
    k: Seq<char>,
)
    requires
        forall|p: int, q: int|
            0 <= p < q < oldw.len() ==> seq_lt(#[trigger] oldw[p].0@, #[trigger] oldw[q].0@),
        forall|p: int, q: int|
            0 <= p < q < neww.len() ==> seq_lt(#[trigger] neww[p].0@, #[trigger] neww[q].0@),
        0 <= i < oldw.len(),
        neww.len() == oldw.len() - 1,
        forall|p: int| 0 <= p < i ==> #[trigger] neww[p] == oldw[p],
        forall|p: int| i <= p < neww.len() ==> #[trigger] neww[p] == oldw[p + 1],
        k != oldw[i].0@,
    ensures
        assoc(oldw, k) == assoc(neww, k),
{
    if exists|p: int| 0 <= p < oldw.len() && (#[trigger] oldw[p].0@) == k {
        let p = choose|p: int| 0 <= p < oldw.len() && (#[trigger] oldw[p].0@) == k;
        assert(p != i);
        lemma_assoc_present(oldw, p);
        if p < i {
            assert(neww[p].0@ == k);
            lemma_assoc_present(neww, p);
        } else {
            assert(neww[p - 1] == oldw[p]);
            lemma_assoc_present(neww, p - 1);
        }
    } else {
        assert(forall|p: int| 0 <= p < oldw.len() ==> (#[trigger] oldw[p].0@) != k);
        lemma_assoc_absent(oldw, k);
        assert forall|q: int| 0 <= q < neww.len() implies (#[trigger] neww[q].0@) != k by {
            if q < i {
                assert(neww[q] == oldw[q]);
            } else {
                assert(neww[q] == oldw[q + 1]);
            }
        }
        lemma_assoc_absent(neww, k);
    }
}


/// ASCII whitespace, for trimming.
pub open spec fn is_space(c: char) -> bool {
    c == ' ' || c == '\t' || c == '\r' || c == '\n'
}

/// The sequence with leading whitespace removed.
pub open spec fn trim_front(s: Seq<char>) -> Seq<char>
    decreases s.len(),
{
    if s.len() > 0 && is_space(s[0]) {
        trim_front(s.skip(1))
    } else {
        s
    }
}

/// The sequence with trailing whitespace removed.
pub open spec fn trim_back(s: Seq<char>) -> Seq<char>
    decreases s.len(),
{
    if s.len() > 0 && is_space(s.last()) {
        trim_back(s.drop_last())
    } else {
        s
    }
}

/// The sequence with surrounding whitespace removed.
pub open spec fn spec_trim(s: Seq<char>) -> Seq<char> {
    trim_back(trim_front(s))
}

/// Whether a colon appears in the token.
pub open spec fn has_colon(t: Seq<char>) -> bool {
    exists|i: int| 0 <= i < t.len() && t[i] == ':'
}

/// The least index of a colon in the token.
pub open spec fn first_colon(t: Seq<char>) -> int
    decreases t.len(),
{
    if t.len() == 0 {
        0
    } else if t[0] == ':' {
        0
    } else {
        1 + first_colon(t.skip(1))
    }
}

/// The command key of a token: everything through its first colon.
pub open spec fn token_key(t: Seq<char>) -> Seq<char> {
    t.take(first_colon(t) + 1)
}

/// The value of a command token: everything after its first colon.
pub open spec fn token_value(t: Seq<char>) -> Seq<char> {
    t.skip(first_colon(t) + 1)
}

/// The least index of a space in the sequence, which must contain one.
pub open spec fn first_space(s: Seq<char>) -> int
    decreases s.len(),
{
    if s.len() == 0 {
        0
    } else if s[0] == ' ' {
        0
    } else {
        1 + first_space(s.skip(1))
    }
}

/// Whether a space appears in the sequence.
pub open spec fn has_space(s: Seq<char>) -> bool {
    exists|i: int| 0 <= i < s.len() && s[i] == ' '
}

/// The sequence split at each space.
pub open spec fn split_sp(s: Seq<char>) -> Seq<Seq<char>>
    decreases s.len(),
{
    if has_space(s) {
        let i = first_space(s);
        if 0 <= i < s.len() {
            seq![s.take(i)] + split_sp(s.skip(i + 1))
        } else {
            seq![s]
        }
    } else {
        seq![s]
    }
}

proof fn lemma_first_space_in_range(s: Seq<char>)
    requires
        has_space(s),
    ensures
        0 <= first_space(s) < s.len(),
        s[first_space(s)] == ' ',
        forall|j: int| 0 <= j < first_space(s) ==> s[j] != ' ',
    decreases s.len(),
{
    if s.len() == 0 {
    } else if s[0] == ' ' {
    } else {
        assert(has_space(s.skip(1))) by {
            let i = choose|i: int| 0 <= i < s.len() && s[i] == ' ';
            assert(i >= 1);
            assert(s.skip(1)[i - 1] == ' ');
        }
        lemma_first_space_in_range(s.skip(1));
        assert(forall|j: int| 1 <= j < first_space(s) ==> s[j] == s.skip(1)[j - 1]);
    }
}

proof fn lemma_first_colon_in_range(t: Seq<char>)
    requires
        has_colon(t),
    ensures
        0 <= first_colon(t) < t.len(),
        t[first_colon(t)] == ':',
        forall|j: int| 0 <= j < first_colon(t) ==> t[j] != ':',
    decreases t.len(),
{
    if t.len() == 0 {
    } else if t[0] == ':' {
    } else {
        assert(has_colon(t.skip(1))) by {
            let i = choose|i: int| 0 <= i < t.len() && t[i] == ':';
            assert(i >= 1);
            assert(t.skip(1)[i - 1] == ':');
        }
        lemma_first_colon_in_range(t.skip(1));
        assert(forall|j: int| 1 <= j < first_colon(t) ==> t[j] == t.skip(1)[j - 1]);
    }
}

/// The description text of a token list: the nonempty tokens without colons,
/// joined by single spaces.
pub open spec fn desc_of(ts: Seq<Seq<char>>) -> Seq<char>
    decreases ts.len(),
{
    if ts.len() == 0 {
        Seq::<char>::empty()
    } else {
        let rest = desc_of(ts.drop_last());
        let t = ts.last();
        if has_colon(t) || t.len() == 0 {
            rest
        } else if rest.len() == 0 {
            t
        } else {
            rest + seq![' '] + t
        }
    }
}

/// The value bound to command key `k` by a token list; the latest binding
/// wins.
pub open spec fn cmds_lookup(ts: Seq<Seq<char>>, k: Seq<char>) -> Option<Seq<char>>
    decreases ts.len(),
{
    if ts.len() == 0 {
        None
    } else {
        let t = ts.last();
        if has_colon(t) && token_key(t) == k {
            Some(token_value(t))
        } else {
            cmds_lookup(ts.drop_last(), k)
        }
    }
}

/// One stored line: a description and its command words.
#[derive(Clone, Debug, Default, PartialEq, Eq)]
pub struct LineItem {
    desc: Description,
    cmdw: CommandWords,
}

impl LineItem {
    /// The description text.
    pub closed spec fn spec_desc(&self) -> Seq<char> {
        self.desc@
    }

    /// The value bound to a command key.
    pub closed spec fn spec_lookup(&self, key: Seq<char>) -> Option<Seq<char>> {
        self.cmdw.spec_lookup(key)
    }

    /// The command pairs, sorted by key.
    pub closed spec fn spec_words(&self) -> Seq<(String, String)> {
        self.cmdw.words_seq()
    }

    /// The representation invariant.
    pub closed spec fn wf(&self) -> bool {
        self.cmdw.wf() && wf_desc(self.desc@)
    }

    /// The free-text description.
    pub fn desc(&self) -> (r: &str)
        ensures
            r@ == self.spec_desc(),
    {
        self.desc.text()
    }

    /// Whether `key` is bound.  `key` must end with a colon.
    pub fn has(&self, key: &str) -> (r: bool)
        requires
            self.wf(),
            wf_key(key@),
        ensures
            r == (self.spec_lookup(key@) is Some),
    {
        self.cmdw.has(key)
    }

    /// The value bound to `key`, if any.  `key` must end with a colon.
    pub fn lookup(&self, key: &str) -> (r: Option<&str>)
        requires
            self.wf(),
            wf_key(key@),
        ensures
            r is Some <==> self.spec_lookup(key@) is Some,
            r matches Some(v) ==> self.spec_lookup(key@) == Some(v@),
    {
        self.cmdw.lookup(key)
    }

    /// Binds `key` to `value`.  `key` must end with a colon.
    pub fn insert(&mut self, key: &str, value: &str)
        requires
            old(self).wf(),
            wf_key(key@),
        ensures
            final(self).wf(),
            final(self).spec_desc() == old(self).spec_desc(),
            final(self).spec_lookup(key@) == Some(value@),
            forall|k: Seq<char>|
                k != key@ ==> #[trigger] final(self).spec_lookup(k) == old(self).spec_lookup(k),
    {
        self.cmdw.insert(key, value)
    }

    /// Removes any binding of `key`.  `key` must end with a colon.
    pub fn remove(&mut self, key: &str)
        requires
            old(self).wf(),
            wf_key(key@),
        ensures
            final(self).wf(),
            final(self).spec_desc() == old(self).spec_desc(),
            final(self).spec_lookup(key@) is None,
            forall|k: Seq<char>|
                k != key@ ==> #[trigger] final(self).spec_lookup(k) == old(self).spec_lookup(k),
    {
        self.cmdw.remove(key)
    }

    /// The number of command words.
    pub fn words_len(&self) -> (r: usize)
        ensures
            r == self.spec_words().len(),
    {
        self.cmdw.len()
    }

    /// The key and value at sorted position `i`.
    pub fn pair_at(&self, i: usize) -> (r: (&String, &String))
        requires
            i < self.spec_words().len(),
        ensures
            r.0@ == self.spec_words()[i as int].0@,
            r.1@ == self.spec_words()[i as int].1@,
    {
        self.cmdw.pair_at(i)
    }

    /// The canonical text of the line: the description, then each command
    /// word in key order.
    pub fn repr(&self) -> (r: String)
        ensures
            r@ == self.spec_desc() + repr_words(self.spec_words()),
    {
        let mut out = self.desc.text().to_owned();
        let n = self.cmdw.len();
        let mut i: usize = 0;
        while i < n
            invariant
                0 <= i <= n,
                n == self.spec_words().len(),
                out@ == self.spec_desc() + repr_words(self.spec_words().take(i as int)),
            decreases n - i,
        {
            let (k, v) = self.cmdw.pair_at(i);
            out.append(" ");
            out.append(k.as_str());
            out.append(v.as_str());
            i = i + 1;
            proof {
                reveal_strlit(" ");
                let ws = self.spec_words();
                assert(ws.take(i as int).drop_last() =~= ws.take(i as int - 1));
                assert(ws.take(i as int).last() == ws[i as int - 1]);
                assert(out@ =~= self.spec_desc() + repr_words(ws.take(i as int)));
            }
        }
        proof {
            assert(self.spec_words().take(n as int) =~= self.spec_words());
        }
        out
    }
}

/// The canonical text of a sorted pair list: a space, the key, and the value
/// for each pair in order.
pub open spec fn repr_words(ws: Seq<(String, String)>) -> Seq<char>
    decreases ws.len(),
{
    if ws.len() == 0 {
        Seq::<char>::empty()
    } else {
        repr_words(ws.drop_last()) + seq![' '] + ws.last().0@ + ws.last().1@
    }
}


/// The first space at or after `from`, or the length if there is none.
fn scan_space(t: &str, from: usize) -> (j: usize)
    requires
        from <= t@.len(),
    ensures
        from <= j <= t@.len(),
        forall|i: int| from <= i < j ==> t@[i] != ' ',
        j < t@.len() ==> t@[j as int] == ' ',
{
    let len = t.unicode_len();
    let mut j = from;
    while j < len
        invariant
            from <= j <= len,
            len == t@.len(),
            forall|i: int| from <= i < j ==> t@[i] != ' ',
        decreases len - j,
    {
        if t.get_char(j) == ' ' {
            return j;
        }
        j = j + 1;
    }
    j
}

/// The first colon in `[from, to)`, if any.
fn scan_colon(t: &str, from: usize, to: usize) -> (r: Option<usize>)
    requires
        from <= to <= t@.len(),
    ensures
        r matches Some(c) ==> from <= c < to && t@[c as int] == ':' && forall|i: int|
            from <= i < c ==> t@[i] != ':',
        r is None ==> forall|i: int| from <= i < to ==> t@[i] != ':',
{
    let mut j = from;
    while j < to
        invariant
            from <= j <= to,
            to <= t@.len(),
            forall|i: int| from <= i < j ==> t@[i] != ':',
        decreases to - j,
    {
        if t.get_char(j) == ':' {
            return Some(j);
        }
        j = j + 1;
    }
    None
}

proof fn lemma_split_step(s: Seq<char>, j: int)
    requires
        0 <= j < s.len(),
        s[j] == ' ',
        forall|i: int| 0 <= i < j ==> s[i] != ' ',
    ensures
        split_sp(s) == seq![s.take(j)] + split_sp(s.skip(j + 1)),
{
    assert(has_space(s));
    lemma_first_space_in_range(s);
    let fs = first_space(s);
    if fs < j {
        assert(s[fs] == ' ');
        assert(false);
    }
    if fs > j {
        assert(s[j] != ' ');
        assert(false);
    }
}

proof fn lemma_split_last(s: Seq<char>)
    requires
        forall|i: int| 0 <= i < s.len() ==> s[i] != ' ',
    ensures
        split_sp(s) == seq![s],
{
    if has_space(s) {
        let i = choose|i: int| 0 <= i < s.len() && s[i] == ' ';
        assert(false);
    }
}

proof fn lemma_token_colon(tok: Seq<char>, c: int)
    requires
        0 <= c < tok.len(),
        tok[c] == ':',
        forall|i: int| 0 <= i < c ==> tok[i] != ':',
    ensures
        has_colon(tok),
        first_colon(tok) == c,
{
    assert(has_colon(tok));
    lemma_first_colon_in_range(tok);
    let fc = first_colon(tok);
    if fc < c {
        assert(tok[fc] == ':');
        assert(false);
    }
    if fc > c {
        assert(tok[c] != ':');
        assert(false);
    }
}


fn is_space_char(c: char) -> (r: bool)
    ensures
        r == is_space(c),
{
    c == ' ' || c == '\t' || c == '\r' || c == '\n'
}

impl LineItem {
    /// Parses one line: tokens separated by spaces; a token containing a
    /// colon binds a command word (its key runs through the first colon, its
    /// value follows it; the latest binding of a key wins); the remaining
    /// nonempty tokens, joined by single spaces, form the description.
    /// `None` exactly when that description holds a special character.
    pub fn new(line: &str) -> (r: Option<LineItem>)
        ensures
            r is Some <==> wf_desc(desc_of(split_sp(spec_trim(line@)))),
            r matches Some(li) ==> {
                &&& li.wf()
                &&& li.spec_desc() == desc_of(split_sp(spec_trim(line@)))
                &&& forall|k: Seq<char>|
                    #[trigger] li.spec_lookup(k) == cmds_lookup(split_sp(spec_trim(line@)), k)
            },
    {
        let len = line.unicode_len();
        // Trim leading and trailing whitespace.
        proof {
            assert(line@.skip(0) =~= line@);
        }
        let mut a: usize = 0;
        while a < len && is_space_char(line.get_char(a))
            invariant
                0 <= a <= len,
                len == line@.len(),
                trim_front(line@) == trim_front(line@.skip(a as int)),
            decreases len - a,
        {
            proof {
                assert(line@.skip(a as int)[0] == line@[a as int]);
                assert(line@.skip(a as int).skip(1) =~= line@.skip(a as int + 1));
            }
            a = a + 1;
        }
        proof {
            if a < len {
                assert(line@.skip(a as int)[0] == line@[a as int]);
            } else {
                assert(line@.skip(a as int).len() == 0);
            }
            assert(trim_front(line@) == line@.skip(a as int));
        }
        proof {
            assert(line@.skip(a as int).take(len - a as int) =~= line@.skip(a as int));
        }
        let mut b: usize = len;
        while b > a && is_space_char(line.get_char(b - 1))
            invariant
                a <= b <= len,
                len == line@.len(),
                trim_front(line@) == line@.skip(a as int),
                trim_back(line@.skip(a as int)) == trim_back(
                    line@.skip(a as int).take(b - a as int),
                ),
            decreases b,
        {
            proof {
                let cur = line@.skip(a as int).take(b - a as int);
                assert(cur.last() == line@[b - 1]);
                assert(cur.drop_last() =~= line@.skip(a as int).take(b - 1 - a as int));
            }
            b = b - 1;
        }
        proof {
            let cur = line@.skip(a as int).take(b - a as int);
            if b > a {
                assert(cur.last() == line@[b - 1]);
            } else {
                assert(cur.len() == 0);
            }
            assert(trim_back(cur) == cur);
            assert(spec_trim(line@) == cur);
        }
        let t = line.substring_char(a, b);
        proof {
            assert(t@ =~= line@.skip(a as int).take(b - a as int));
        }
        let m = b - a;
        // Walk the tokens.
        let mut cmdw = CommandWords::new();
        let mut desc = String::new();
        let ghost whole = split_sp(t@);
        let ghost mut done: Seq<Seq<char>> = Seq::empty();
        proof {
            assert(t@.skip(0) =~= t@);
            assert(done + split_sp(t@) =~= split_sp(t@));
        }
        let mut pos: usize = 0;
        loop
            invariant_except_break
                0 <= pos <= m,
                whole == done + split_sp(t@.skip(pos as int)),
            invariant
                m == t@.len(),
                t@ == spec_trim(line@),
                whole == split_sp(t@),
                cmdw.wf(),
                desc@ == desc_of(done),
                forall|k: Seq<char>| #[trigger] cmdw.spec_lookup(k) == cmds_lookup(done, k),
            ensures
                whole == done,
            decreases m + 1 - pos,
        {
            let j = scan_space(t, pos);
            let ghost rem = t@.skip(pos as int);
            let ghost tok = t@.subrange(pos as int, j as int);
            proof {
                assert(forall|i: int| 0 <= i < j - pos ==> rem[i] == t@[pos + i]);
                if j < m {
                    assert(rem[j - pos] == t@[j as int]);
                    lemma_split_step(rem, j - pos);
                    assert(rem.take(j - pos) =~= tok);
                    assert(rem.skip(j - pos + 1) =~= t@.skip(j as int + 1));
                } else {
                    assert(forall|i: int| 0 <= i < rem.len() ==> rem[i] != ' ');
                    lemma_split_last(rem);
                    assert(rem =~= tok);
                }
            }
            // Process the token.
            let ghost old_done = done;
            let ghost old_desc = desc@;
            match scan_colon(t, pos, j) {
                Some(c) => {
                    let key = t.substring_char(pos, c + 1);
                    let value = t.substring_char(c + 1, j);
                    proof {
                        assert(forall|i: int| 0 <= i < c - pos ==> tok[i] == t@[pos + i]);
                        assert(tok[c - pos] == t@[c as int]);
                        lemma_token_colon(tok, c - pos);
                        assert(key@ =~= token_key(tok));
                        assert(value@ =~= token_value(tok));
                        assert(key@.len() > 0 && key@.last() == ':');
                    }
                    cmdw.insert(key, value);
                },
                None => {
                    proof {
                        assert(forall|i: int| 0 <= i < tok.len() ==> tok[i] != ':');
                        if has_colon(tok) {
                            let i = choose|i: int| 0 <= i < tok.len() && tok[i] == ':';
                            assert(false);
                        }
                    }
                    if j > pos {
                        if desc.as_str().is_empty() {
                            let piece = t.substring_char(pos, j);
                            desc.append(piece);
                            proof {
                                assert(desc@ =~= tok);
                            }
                        } else {
                            let piece = t.substring_char(pos, j);
                            desc.append(" ");
                            desc.append(piece);
                            proof {
                                reveal_strlit(" ");
                                assert(desc@ =~= old_desc + seq![' '] + tok);
                            }
                        }
                    }
                },
            }
            proof {
                done = done.push(tok);
                assert(done.drop_last() =~= old_done);
                assert(done.last() == tok);
                assert(desc@ == desc_of(done));
                assert forall|k: Seq<char>| #[trigger] cmdw.spec_lookup(k) == cmds_lookup(done, k)
                by {
                    if has_colon(tok) && token_key(tok) == k {
                    } else {
                    }
                }
            }
            if j >= m {
                proof {
                    assert(old_done + seq![tok] =~= done);
                    assert(whole == done);
                }
                break ;
            }
            proof {
                assert(old_done + (seq![tok] + split_sp(t@.skip(j as int + 1))) =~= done
                    + split_sp(t@.skip(j as int + 1)));
            }
            pos = j + 1;
        }
        proof {
            assert(whole == done);
        }
        let desc = match Description::new(desc) {
            Some(d) => d,
            None => {
                return None;
            },
        };
        Some(LineItem { desc, cmdw })
    }
}


impl Description {
    /// An owned copy with the same text.
    pub fn dup(&self) -> (r: Description)
        ensures
            r@ == self@,
    {
        Description { desc: self.desc.clone() }
    }
}

impl CommandWords {
    /// An owned copy with the same pairs.
    pub fn dup(&self) -> (r: CommandWords)
        ensures
            r.words_seq() == self.words_seq(),
            r.wf() == self.wf(),
    {
        let n = self.words.len();
        let mut out: Vec<(String, String)> = Vec::new();
        let mut i: usize = 0;
        while i < n
            invariant
                0 <= i <= n,
                n == self.words@.len(),
                out@.len() == i,
                forall|j: int| 0 <= j < i ==> #[trigger] out@[j] == self.words@[j],
            decreases n - i,
        {
            let k = self.words[i].0.clone();
            let v = self.words[i].1.clone();
            out.push((k, v));
            i = i + 1;
        }
        let r = CommandWords { words: out };
        proof {
            assert(r.words_seq() =~= self.words_seq());
        }
        r
    }
}

impl LineItem {
    /// An owned copy with the same description and command words.
    pub fn dup(&self) -> (r: LineItem)
        ensures
            r.spec_desc() == self.spec_desc(),
            r.spec_words() == self.spec_words(),
            r.wf() == self.wf(),
            forall|k: Seq<char>| #[trigger] r.spec_lookup(k) == self.spec_lookup(k),
    {
        LineItem { desc: self.desc.dup(), cmdw: self.cmdw.dup() }
    }

    /// Builds a line from parts already validated.
    pub fn from_parts(desc: Description, cmdw: CommandWords) -> (r: LineItem)
        requires
            cmdw.wf(),
        ensures
            r.spec_desc() == desc@,
            r.spec_words() == cmdw.words_seq(),
            wf_desc(desc@) ==> r.wf(),
            forall|k: Seq<char>| #[trigger] r.spec_lookup(k) == cmdw.spec_lookup(k),
    {
        LineItem { desc, cmdw }
    }
}

} // verus!



