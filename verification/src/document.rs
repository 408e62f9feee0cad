//! The persisted document: an access credential and the alias-to-note
//! mapping, modelled as a sequence of entries whose keys are canonical and
//! pairwise distinct, in insertion order.

use vstd::prelude::*;
use crate::alias::Email;
use crate::alias::Note;
use crate::alias::is_normalized;

verus! {

/// Faults the store surfaces to its callers.  Expected outcomes such as
/// "already exists" or "not found" are booleans, not errors.
#[derive(Debug, Clone, Copy, PartialEq, Eq, Structural)]
pub enum StoreError {
    /// The persisted text is not a well-formed document.
    Decode,
    /// Alias creation was attempted while the stored credential is empty.
    MissingToken,
}

/// The whole persisted document.
pub struct Config {
    /// Bearer credential for the issuance service; empty means unset.
    pub access_token: String,
    /// The alias mapping, in insertion order.
    pub emails: Vec<(Email, Note)>,
}

/// The pairs as character sequences, in order.
pub open spec fn entries_of(ps: Seq<(Email, Note)>) -> Seq<(Seq<char>, Seq<char>)> {
    ps.map(|i: int, p: (Email, Note)| (p.0.0@, p.1.0@))
}

/// Keys are canonical and pairwise distinct.
pub open spec fn entries_ok(es: Seq<(Seq<char>, Seq<char>)>) -> bool {
    &&& forall|i: int| 0 <= i < es.len() ==> is_normalized(#[trigger] es[i].0)
    &&& forall|i: int, j: int| 0 <= i < j < es.len() ==> es[i].0 != es[j].0
}

/// A key occurs among the entries.
pub open spec fn has_key(es: Seq<(Seq<char>, Seq<char>)>, k: Seq<char>) -> bool {
    exists|i: int| 0 <= i < es.len() && es[i].0 == k
}

/// The position of a key among the entries (meaningful when keys are unique).
pub open spec fn key_index(es: Seq<(Seq<char>, Seq<char>)>, k: Seq<char>) -> int {
    choose|i: int| 0 <= i < es.len() && es[i].0 == k
}

/// Linear search for a key among the stored pairs.
pub(crate) fn find_key(emails: &Vec<(Email, Note)>, key: &String) -> (r: Option<usize>)
    ensures
        r matches Some(i) ==> i < emails@.len() && entries_of(emails@)[i as int].0 == key@,
        r is None ==> !has_key(entries_of(emails@), key@),
{
    let m = emails.len();
    let mut i: usize = 0;
    while i < m
        invariant
            i <= m,
            m == emails@.len(),
            forall|t: int| 0 <= t < i ==> entries_of(emails@)[t].0 != key@,
        decreases m - i,
    {
        if emails[i].0.0 == *key {
            return Some(i);
        }
        i += 1;
    }
    proof {
        if has_key(entries_of(emails@), key@) {
            let t = key_index(entries_of(emails@), key@);
            assert(entries_of(emails@)[t].0 != key@);
        }
    }
    None
}

impl Config {
    /// The entries as pairs of character sequences, in insertion order.
    pub open spec fn entries(&self) -> Seq<(Seq<char>, Seq<char>)> {
        entries_of(self.emails@)
    }

    /// The credential as a character sequence.
    pub open spec fn token(&self) -> Seq<char> {
        self.access_token@
    }

    /// Well-formed: every key is canonical and keys are pairwise distinct.
    pub open spec fn wf(&self) -> bool {
        entries_ok(self.entries())
    }
}

impl Default for Config {
    /// The initial document: empty credential, no aliases.
    fn default() -> (c: Config)
        ensures
            c.token().len() == 0,
            c.entries().len() == 0,
            c.wf(),
    {
        Config { access_token: String::new(), emails: Vec::new() }
    }
}

} // verus!
