//! A verified store for disposable email aliases.
//!
//! The store keeps one document: an access credential and a mapping from
//! canonical alias strings to free-text notes.  The document is persisted as
//! a JSON text whose encoder and parser are both verified against the same
//! canonical form, so any text a successful load accepts re-encodes to
//! exactly that text.  The mutating operations (set the credential, add,
//! remove, list, purge, register a freshly minted alias) are verified
//! against a sequence-of-entries model that keeps keys unique, canonical,
//! and in insertion order.
//!
//! The parser accepts only that canonical text: a document produced by
//! another JSON emitter (short escapes such as a backslashed n, reordered
//! fields, added whitespace) is surfaced as a decode error, never repaired.
//!
//! Reading and writing the backing file, the network call that mints a new
//! alias, and command-line handling live outside this crate; they exchange
//! plain strings with it.  The backing file is not locked: two concurrent
//! load-mutate-replace cycles against the same file race, and the later
//! writer wins.

pub mod alias;
pub mod codec;
pub mod document;
pub mod store;
pub mod strutil;

pub use alias::Email;
pub use alias::Note;
pub use alias::format_email;
pub use document::Config;
pub use document::StoreError;
pub use store::Database;
