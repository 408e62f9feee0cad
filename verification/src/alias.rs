//! Alias normalization: every alias the store holds ends with the canonical
//! domain suffix, and appending that suffix to a raw string is the only way
//! an alias is ever formed.

use vstd::prelude::*;
use vstd::string::StrSliceExecFns;
use vstd::string::StringExecFns;

verus! {

/// The canonical domain suffix that every stored alias ends with.
pub open spec fn suffix() -> Seq<char> {
    "@duck.com"@
}

/// A string already carries the canonical suffix.
pub open spec fn is_normalized(s: Seq<char>) -> bool {
    &&& s.len() >= suffix().len()
    &&& s.subrange(s.len() - suffix().len(), s.len() as int) == suffix()
}

/// Canonical form of a raw alias: the suffix is appended unless it is
/// already present.
pub open spec fn normalize(s: Seq<char>) -> Seq<char> {
    if is_normalized(s) {
        s
    } else {
        s + suffix()
    }
}

/// The canonical form always carries the suffix.
pub proof fn lemma_normalize_normalized(s: Seq<char>)
    ensures
        is_normalized(normalize(s)),
{
    if !is_normalized(s) {
        assert((s + suffix()).subrange(
            (s + suffix()).len() - suffix().len(),
            (s + suffix()).len() as int,
        ) =~= suffix());
    }
}

/// Normalizing twice gives the same result as normalizing once.
pub proof fn lemma_normalize_idempotent(s: Seq<char>)
    ensures
        normalize(normalize(s)) == normalize(s),
{
    lemma_normalize_normalized(s);
}

/// An email alias held by the store, in canonical (suffixed) form.
#[derive(Debug, Clone)]
pub struct Email(pub String);

/// A free-text note attached to an alias; may be empty.
#[derive(Debug, Clone)]
pub struct Note(pub String);

/// Whether the string ends with the canonical suffix.
pub fn ends_with_suffix(s: &str) -> (r: bool)
    ensures
        r == is_normalized(s@),
{
    let pat = "@duck.com";
    proof {
        reveal_strlit("@duck.com");
    }
    let n = s.unicode_len();
    if n < 9 {
        return false;
    }
    let mut k: usize = 0;
    while k < 9
        invariant
            n == s@.len(),
            9 <= n,
            k <= 9,
            pat@ == suffix(),
            suffix().len() == 9,
            forall|t: int| 0 <= t < k ==> s@[n - 9 + t] == suffix()[t],
        decreases 9 - k,
    {
        if s.get_char(n - 9 + k) != pat.get_char(k) {
            proof {
                if is_normalized(s@) {
                    assert(s@.subrange(n - 9, n as int)[k as int] == suffix()[k as int]);
                }
            }
            return false;
        }
        k += 1;
    }
    proof {
        assert(s@.subrange(n - 9, n as int) =~= suffix());
    }
    true
}

/// Canonicalizes a raw alias string, appending the suffix when it is missing.
pub fn format_email(email: &str) -> (r: String)
    ensures
        r@ == normalize(email@),
{
    if ends_with_suffix(email) {
        email.to_owned()
    } else {
        email.to_owned().concat("@duck.com")
    }
}

} // verus!
