//! The document store: every public operation mutates an in-memory document
//! under a load-mutate-replace protocol whose load and replace halves are the
//! verified codec; the caller reads and writes the backing file.

use vstd::prelude::*;
use vstd::string::StrSliceExecFns;
use crate::alias::Email;
use crate::alias::Note;
use crate::alias::format_email;
use crate::alias::lemma_normalize_normalized;
use crate::alias::normalize;
use crate::codec::doc_at;
use crate::codec::enc_doc;
use crate::codec::encode_config;
use crate::codec::parse_config;
use crate::document::Config;
use crate::document::StoreError;
use crate::document::entries_of;
use crate::document::entries_ok;
use crate::document::find_key;
use crate::document::has_key;
use crate::document::key_index;

verus! {

/// Effect of adding a canonical key with a note: an absent key is appended;
/// a present key keeps its place and is overwritten only when the incoming
/// note is non-empty.  The flag reports whether the mapping changed.
pub open spec fn add_effect(
    es: Seq<(Seq<char>, Seq<char>)>,
    k: Seq<char>,
    note: Seq<char>,
) -> (Seq<(Seq<char>, Seq<char>)>, bool) {
    if !has_key(es, k) {
        (es.push((k, note)), true)
    } else if note.len() > 0 {
        (es.update(key_index(es, k), (k, note)), true)
    } else {
        (es, false)
    }
}

/// Effect of removing a canonical key: a present key leaves, everything else
/// keeps its order.  The flag reports whether the key was present.
pub open spec fn remove_effect(
    es: Seq<(Seq<char>, Seq<char>)>,
    k: Seq<char>,
) -> (Seq<(Seq<char>, Seq<char>)>, bool) {
    if has_key(es, k) {
        (es.remove(key_index(es, k)), true)
    } else {
        (es, false)
    }
}

/// The document store.  It owns the in-memory document; each command-line
/// operation loads it from the backing text, mutates it here, and replaces
/// the text with the re-encoded document.
pub struct Database {
    config: Config,
}

impl Database {
    /// The stored credential, as a character sequence.
    pub closed spec fn token(&self) -> Seq<char> {
        self.config.token()
    }

    /// The stored mapping, as a sequence of (alias, note) pairs.
    pub closed spec fn entries(&self) -> Seq<(Seq<char>, Seq<char>)> {
        self.config.entries()
    }

    /// Keys are canonical and pairwise distinct.
    pub closed spec fn inv(&self) -> bool {
        self.config.wf()
    }

    /// A fresh store: empty credential, no aliases.
    pub fn new() -> (db: Database)
        ensures
            db.inv(),
            db.token().len() == 0,
            db.entries().len() == 0,
    {
        Database { config: Config::default() }
    }

    /// Reads the store back from its persisted text.  A text is accepted
    /// exactly when it is the canonical encoding of some well-formed store,
    /// and then it is the canonical encoding of the returned one: a load
    /// followed by a replace writes the same text back unchanged, and the
    /// text a replace wrote always loads.
    pub fn load_config(text: &str) -> (r: Result<Database, StoreError>)
        ensures
            r matches Ok(db) ==> db.inv() && text@ == enc_doc(db.token(), db.entries()),
            r is Ok <==> doc_at(text@),
    {
        match parse_config(text) {
            Ok(config) => Ok(Database { config }),
            Err(e) => Err(e),
        }
    }

    /// The canonical persisted text of the store, ready to replace the
    /// backing file.
    pub fn write_config(&self) -> (out: String)
        ensures
            out@ == enc_doc(self.token(), self.entries()),
    {
        encode_config(&self.config)
    }

    /// The text a replace writes always loads: the canonical encoding of a
    /// well-formed store is a text that `load_config` accepts, and by
    /// `lemma_enc_doc_injective` the store it then returns is this one.
    pub proof fn lemma_written_text_loads(db: Database)
        requires
            db.inv(),
        ensures
            doc_at(enc_doc(db.token(), db.entries())),
    {
        assert(entries_ok(db.entries()));
    }

    /// Replaces the stored credential; the mapping is untouched.
    pub fn set_token(&mut self, token: String)
        requires
            old(self).inv(),
        ensures
            final(self).inv(),
            final(self).token() == token@,
            final(self).entries() == old(self).entries(),
    {
        self.config.access_token = token;
        proof {
            assert(self.entries() == old(self).entries());
        }
    }

    /// The credential that an alias issuance request must carry: the stored
    /// one when it is set, and a fault directing the caller to set one when
    /// it is empty.  The store itself is never changed.
    pub fn issue_credential(&self) -> (r: Result<String, StoreError>)
        ensures
            r is Ok <==> self.token().len() > 0,
            r matches Ok(t) ==> t@ == self.token(),
            r matches Err(e) ==> e == StoreError::MissingToken,
    {
        if self.config.access_token.as_str().is_empty() {
            Err(StoreError::MissingToken)
        } else {
            Ok(self.config.access_token.clone())
        }
    }

    /// Stores the alias under its canonical form with the duplicate policy of
    /// `add_effect`; reports whether the mapping changed.
    pub fn add_email(&mut self, email: &str, note: &str) -> (added: bool)
        requires
            old(self).inv(),
        ensures
            final(self).inv(),
            final(self).token() == old(self).token(),
            final(self).entries() == add_effect(old(self).entries(), normalize(email@), note@).0,
            added == add_effect(old(self).entries(), normalize(email@), note@).1,
    {
        let key = format_email(email);
        let ghost es = old(self).entries();
        let ghost k = normalize(email@);
        proof {
            lemma_normalize_normalized(email@);
        }
        match find_key(&self.config.emails, &key) {
            None => {
                self.config.emails.push((Email(key), Note(note.to_owned())));
                proof {
                    assert(self.entries() =~= es.push((k, note@)));
                    assert forall|a: int, b: int|
                        0 <= a < b < self.entries().len() implies self.entries()[a].0
                        != self.entries()[b].0 by {
                        if b == es.len() && es[a].0 == k {
                            assert(has_key(es, k));
                        }
                    }
                }
                true
            },
            Some(i) => {
                proof {
                    assert(has_key(es, k));
                    let j = key_index(es, k);
                    if j < i {
                        assert(es[j].0 != es[i as int].0);
                    }
                    if i < j {
                        assert(es[i as int].0 != es[j].0);
                    }
                }
                if note.is_empty() {
                    false
                } else {
                    self.config.emails.remove(i);
                    self.config.emails.insert(i, (Email(key), Note(note.to_owned())));
                    proof {
                        assert(self.entries() =~= es.update(i as int, (k, note@)));
                    }
                    true
                }
            },
        }
    }

    /// Removes the canonical form of the alias if present; reports whether a
    /// removal occurred.
    pub fn remove_email(&mut self, email: &str) -> (removed: bool)
        requires
            old(self).inv(),
        ensures
            final(self).inv(),
            final(self).token() == old(self).token(),
            final(self).entries() == remove_effect(old(self).entries(), normalize(email@)).0,
            removed == remove_effect(old(self).entries(), normalize(email@)).1,
    {
        let key = format_email(email);
        let ghost es = old(self).entries();
        let ghost k = normalize(email@);
        match find_key(&self.config.emails, &key) {
            None => false,
            Some(i) => {
                proof {
                    assert(has_key(es, k));
                    let j = key_index(es, k);
                    if j < i {
                        assert(es[j].0 != es[i as int].0);
                    }
                    if i < j {
                        assert(es[i as int].0 != es[j].0);
                    }
                }
                self.config.emails.remove(i);
                proof {
                    assert(self.entries() =~= es.remove(i as int));
                }
                true
            },
        }
    }

    /// All (alias, note) pairs, in insertion order.
    pub fn return_emails(&self) -> (v: Vec<(String, String)>)
        ensures
            v@.len() == self.entries().len(),
            forall|i: int|
                0 <= i < v@.len() ==> (#[trigger] v@[i]).0@ == self.entries()[i].0 && v@[i].1@
                    == self.entries()[i].1,
    {
        let mut v: Vec<(String, String)> = Vec::new();
        let m = self.config.emails.len();
        let mut i: usize = 0;
        while i < m
            invariant
                i <= m,
                m == self.config.emails@.len(),
                v@.len() == i,
                forall|t: int|
                    0 <= t < i ==> (#[trigger] v@[t]).0@ == self.entries()[t].0 && v@[t].1@
                        == self.entries()[t].1,
            decreases m - i,
        {
            let p = &self.config.emails[i];
            v.push((p.0.0.clone(), p.1.0.clone()));
            i += 1;
        }
        v
    }

    /// Empties the mapping; the credential is kept.
    pub fn purge(&mut self)
        requires
            old(self).inv(),
        ensures
            final(self).inv(),
            final(self).token() == old(self).token(),
            final(self).entries().len() == 0,
    {
        self.config.emails.clear();
    }

    /// Registers an alias freshly minted by the issuance service: stores its
    /// canonical form with the note under the usual duplicate policy, and
    /// returns the canonical alias string.
    pub fn create_new_email(&mut self, created: &str, note: &str) -> (r: String)
        requires
            old(self).inv(),
        ensures
            final(self).inv(),
            final(self).token() == old(self).token(),
            r@ == normalize(created@),
            final(self).entries() == add_effect(
                old(self).entries(),
                normalize(created@),
                note@,
            ).0,
    {
        let _added = self.add_email(created, note);
        format_email(created)
    }
}

} // verus!
