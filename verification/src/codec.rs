//! The persisted document format: one JSON object holding the credential
//! under "access_token" and the alias mapping under "emails", written
//! compactly with a fixed field order and a fixed escape for every
//! character.  The encoder produces exactly the canonical text of the
//! document, and the parser accepts a text exactly when it is the canonical
//! text of some well-formed document, and then returns the document whose
//! canonical text it is: a load followed by a replace leaves the backing
//! file byte for byte the same, and a replace followed by a load gives the
//! document back.

use vstd::prelude::*;
use vstd::string::StrSliceExecFns;
use vstd::string::StringExecFns;
use crate::alias::Email;
use crate::alias::Note;
use crate::alias::ends_with_suffix;
use crate::alias::is_normalized;
use crate::document::Config;
use crate::document::StoreError;
use crate::document::entries_of;
use crate::document::entries_ok;
use crate::document::find_key;
use crate::document::has_key;
use crate::document::key_index;

verus! {

/// The hexadecimal digit character for a value below sixteen.
pub open spec fn hex_char(d: int) -> char {
    if d == 0 {
        '0'
    } else if d == 1 {
        '1'
    } else if d == 2 {
        '2'
    } else if d == 3 {
        '3'
    } else if d == 4 {
        '4'
    } else if d == 5 {
        '5'
    } else if d == 6 {
        '6'
    } else if d == 7 {
        '7'
    } else if d == 8 {
        '8'
    } else if d == 9 {
        '9'
    } else if d == 10 {
        'a'
    } else if d == 11 {
        'b'
    } else if d == 12 {
        'c'
    } else if d == 13 {
        'd'
    } else if d == 14 {
        'e'
    } else {
        'f'
    }
}

/// Canonical escape of one character inside a quoted string: a control
/// character becomes a four-digit unicode escape, the quote and the
/// backslash are backslashed, every other character stands for itself.
pub open spec fn esc(c: char) -> Seq<char> {
    if (c as u32) < 0x20 {
        seq!['\\', 'u', '0', '0', hex_char((c as u32) as int / 16), hex_char((c as u32) as int % 16)]
    } else if c == '"' {
        seq!['\\', '"']
    } else if c == '\\' {
        seq!['\\', '\\']
    } else {
        seq![c]
    }
}

/// Canonical escape of a whole string body.
pub open spec fn esc_str(s: Seq<char>) -> Seq<char>
    decreases s.len(),
{
    if s.len() == 0 {
        Seq::empty()
    } else {
        esc(s[0]) + esc_str(s.drop_first())
    }
}

pub proof fn lemma_esc_str_snoc(s: Seq<char>, c: char)
    ensures
        esc_str(s.push(c)) == esc_str(s) + esc(c),
    decreases s.len(),
{
    if s.len() == 0 {
        assert(s.push(c)[0] == c);
        assert(s.push(c).drop_first() =~= s);
        assert(esc_str(s) == Seq::<char>::empty());
        assert(esc_str(s.push(c)) == esc(c) + esc_str(s));
        assert(esc(c) + esc_str(s) =~= esc_str(s) + esc(c));
    } else {
        assert(s.push(c)[0] == s[0]);
        assert(s.push(c).drop_first() =~= s.drop_first().push(c));
        lemma_esc_str_snoc(s.drop_first(), c);
        assert(esc_str(s.push(c)) == esc(s[0]) + esc_str(s.drop_first().push(c)));
        assert(esc_str(s.push(c)) == esc(s[0]) + (esc_str(s.drop_first()) + esc(c)));
        assert(esc(s[0]) + (esc_str(s.drop_first()) + esc(c)) =~= (esc(s[0]) + esc_str(
            s.drop_first(),
        )) + esc(c));
        assert(esc_str(s.push(c)) =~= esc_str(s) + esc(c));
    }
}


/// Equal sequences with the same front part have the same tail.
proof fn lemma_concat_cancel(a: Seq<char>, x1: Seq<char>, x2: Seq<char>)
    requires
        a + x1 == a + x2,
    ensures
        x1 == x2,
{
    assert((a + x1).len() == a.len() + x1.len());
    assert((a + x2).len() == a.len() + x2.len());
    assert(x1.len() == x2.len());
    assert forall|t: int| 0 <= t < x1.len() implies x1[t] == x2[t] by {
        assert(t < x2.len());
        assert((a + x1)[a.len() + t] == x1[t]);
        assert((a + x2)[a.len() + t] == x2[t]);
    }
    assert(x1 =~= x2);
}

/// No escape form starts with a quote.
proof fn lemma_esc_head_not_quote(c: char)
    ensures
        esc(c).len() >= 1,
        esc(c)[0] != '"',
{
    if (c as u32) < 0x20 {
        assert(esc(c)[0] == '\\');
    } else if c == '"' {
        assert(esc(c)[0] == '\\');
    } else if c == '\\' {
        assert(esc(c)[0] == '\\');
    } else {
        assert(esc(c)[0] == c);
    }
}

/// The escape form at the head of a stream determines the character and the
/// rest of the stream.
#[verifier::rlimit(50)]
proof fn lemma_esc_head(c1: char, c2: char, r1: Seq<char>, r2: Seq<char>)
    requires
        esc(c1) + r1 == esc(c2) + r2,
    ensures
        c1 == c2,
        r1 == r2,
{
    let s = esc(c1) + r1;
    assert(s[0] == esc(c1)[0]);
    assert(s[0] == esc(c2)[0]);
    if (c1 as u32) < 0x20 && (c2 as u32) < 0x20 {
        assert(s[1] == esc(c1)[1] && s[1] == esc(c2)[1]);
        assert(s[4] == esc(c1)[4] && s[4] == esc(c2)[4]);
        assert(s[5] == esc(c1)[5] && s[5] == esc(c2)[5]);
        assert(hex_char((c1 as u32) as int / 16) == hex_char((c2 as u32) as int / 16));
        assert(hex_char((c1 as u32) as int % 16) == hex_char((c2 as u32) as int % 16));
        assert((c1 as u32) as int / 16 == (c2 as u32) as int / 16);
        assert((c1 as u32) as int % 16 == (c2 as u32) as int % 16);
        assert(c1 as u32 == c2 as u32);
        assert(c1 == c2);
    } else if (c1 as u32) < 0x20 {
        assert(s[1] == esc(c1)[1]);
        if c2 == '"' || c2 == '\\' {
            assert(s[1] == esc(c2)[1]);
            assert(false);
        } else {
            assert(s[0] == c2);
            assert(false);
        }
    } else if (c2 as u32) < 0x20 {
        assert(s[1] == esc(c2)[1]);
        if c1 == '"' || c1 == '\\' {
            assert(s[1] == esc(c1)[1]);
            assert(false);
        } else {
            assert(s[0] == c1);
            assert(false);
        }
    } else if c1 == '"' || c1 == '\\' {
        if c2 == '"' || c2 == '\\' {
            assert(s[1] == esc(c1)[1] && s[1] == esc(c2)[1]);
            assert(c1 == c2);
        } else {
            assert(s[0] == c2);
            assert(false);
        }
    } else if c2 == '"' || c2 == '\\' {
        assert(s[0] == c1);
        assert(false);
    } else {
        assert(s[0] == c1 && s[0] == c2);
    }
    assert(esc(c1) == esc(c2));
    lemma_concat_cancel(esc(c1), r1, r2);
}


/// An escaped string body with its closing quote sits at this position.
pub open spec fn strbody_at(s: Seq<char>, a: int, t: Seq<char>, j: int) -> bool {
    a <= j <= s.len() && s.subrange(a, j) == esc_str(t) + seq!['"']
}

/// An encoded entry list with the closing brace of the emails object sits at
/// this position.
pub open spec fn entries_at(s: Seq<char>, a: int, es: Seq<(Seq<char>, Seq<char>)>, j: int) -> bool {
    a <= j <= s.len() && s.subrange(a, j) == enc_entries(es) + seq!['}']
}

/// The text is the canonical encoding of some well-formed document.
pub open spec fn doc_at(s: Seq<char>) -> bool {
    exists|tok: Seq<char>, es: Seq<(Seq<char>, Seq<char>)>| entries_ok(es) && s == enc_doc(tok, es)
}

/// A tail of the text split as a concatenation yields both pieces as slices.
proof fn lemma_prefix_extract(s: Seq<char>, a: int, b: Seq<char>, c: Seq<char>)
    requires
        0 <= a <= s.len(),
        s.subrange(a, s.len() as int) == b + c,
    ensures
        a + b.len() <= s.len(),
        s.subrange(a, a + b.len()) == b,
        s.subrange(a + b.len(), s.len() as int) == c,
{
    assert(s.subrange(a, s.len() as int).len() == s.len() - a);
    assert((b + c).len() == b.len() + c.len());
    assert forall|j: int| 0 <= j < b.len() implies b[j] == s[a + j] by {
        assert((b + c)[j] == b[j]);
        assert(s.subrange(a, s.len() as int)[j] == s[a + j]);
    }
    assert(s.subrange(a, a + b.len()) =~= b);
    assert forall|j: int| 0 <= j < c.len() implies c[j] == s[a + b.len() + j] by {
        assert((b + c)[b.len() + j] == c[j]);
        assert(s.subrange(a, s.len() as int)[b.len() + j] == s[a + b.len() + j]);
    }
    assert(s.subrange(a + b.len(), s.len() as int) =~= c);
}

/// The shape of each escape form: its length class determines the character
/// class, and the form never starts with a quote.
proof fn lemma_esc_shape(c: char)
    ensures
        esc(c).len() == 1 || esc(c).len() == 2 || esc(c).len() == 6,
        esc(c)[0] != '"',
        esc(c).len() == 1 ==> esc(c)[0] == c && c != '"' && c != '\\' && (c as u32) >= 0x20,
        esc(c).len() == 2 ==> esc(c)[0] == '\\' && (esc(c)[1] == '"' || esc(c)[1] == '\\'),
        esc(c).len() == 6 ==> esc(c)[0] == '\\' && esc(c)[1] == 'u' && esc(c)[2] == '0' && esc(
            c,
        )[3] == '0' && esc(c)[4] == hex_char((c as u32) as int / 16) && esc(c)[5] == hex_char(
            (c as u32) as int % 16,
        ) && (c as u32) < 0x20 && ((c as u32) as int / 16 == 0 || (c as u32) as int / 16 == 1),
{
    if (c as u32) < 0x20 {
        assert(esc(c)[0] == '\\');
    } else if c == '"' {
        assert(esc(c)[0] == '\\');
    } else if c == '\\' {
        assert(esc(c)[0] == '\\');
    } else {
        assert(esc(c)[0] == c);
    }
}

/// Any escaped-and-terminated reading of a stream factors through a known
/// escaped prefix: what remains after the prefix is the rest of the reading.
proof fn lemma_escstr_factor(acc: Seq<char>, rest: Seq<char>, t: Seq<char>, x: Seq<char>)
    requires
        esc_str(acc) + rest == esc_str(t) + seq!['"'] + x,
    ensures
        exists|t2: Seq<char>|
            t == acc + t2 && rest == #[trigger] esc_str(t2) + seq!['"'] + x,
    decreases acc.len(),
{
    if acc.len() == 0 {
        assert(esc_str(acc) == Seq::<char>::empty());
        assert(esc_str(acc) + rest =~= rest);
        assert(acc + t =~= t);
        assert(t == acc + t && rest == esc_str(t) + seq!['"'] + x);
    } else {
        assert(esc_str(acc) == esc(acc[0]) + esc_str(acc.drop_first()));
        assert(esc_str(acc) + rest =~= esc(acc[0]) + (esc_str(acc.drop_first()) + rest));
        if t.len() == 0 {
            assert(esc_str(t) == Seq::<char>::empty());
            assert(esc_str(t) + seq!['"'] + x =~= seq!['"'] + x);
            let s = esc(acc[0]) + (esc_str(acc.drop_first()) + rest);
            lemma_esc_head_not_quote(acc[0]);
            assert(s[0] == esc(acc[0])[0]);
            assert(s == seq!['"'] + x);
            assert(s[0] == '"');
            assert(false);
        } else {
            assert(esc_str(t) == esc(t[0]) + esc_str(t.drop_first()));
            assert(esc_str(t) + seq!['"'] + x =~= esc(t[0]) + (esc_str(t.drop_first())
                + seq!['"'] + x));
            lemma_esc_head(
                acc[0],
                t[0],
                esc_str(acc.drop_first()) + rest,
                esc_str(t.drop_first()) + seq!['"'] + x,
            );
            lemma_escstr_factor(acc.drop_first(), rest, t.drop_first(), x);
            let t2 = choose|t2: Seq<char>|
                t.drop_first() == acc.drop_first() + t2 && rest == #[trigger] esc_str(t2)
                    + seq!['"'] + x;
            assert forall|j: int| 0 <= j < t.len() implies t[j] == (acc + t2)[j] by {
                if j > 0 {
                    assert(t.drop_first()[j - 1] == t[j]);
                    assert((acc.drop_first() + t2)[j - 1] == t.drop_first()[j - 1]);
                    if j < acc.len() {
                        assert(acc.drop_first()[j - 1] == acc[j]);
                    }
                }
            }
            assert(t =~= acc + t2);
            assert(t == acc + t2 && rest == esc_str(t2) + seq!['"'] + x);
        }
    }
}

/// One entry of the emails object.
pub open spec fn enc_entry(k: Seq<char>, v: Seq<char>) -> Seq<char> {
    seq!['"'] + esc_str(k) + seq!['"', ':', '"'] + esc_str(v) + seq!['"']
}

/// Second and later entries, each preceded by a comma.
pub open spec fn enc_more(es: Seq<(Seq<char>, Seq<char>)>) -> Seq<char>
    decreases es.len(),
{
    if es.len() == 0 {
        Seq::empty()
    } else {
        seq![','] + enc_entry(es[0].0, es[0].1) + enc_more(es.drop_first())
    }
}

/// The body of the emails object: comma-separated entries in order.
pub open spec fn enc_entries(es: Seq<(Seq<char>, Seq<char>)>) -> Seq<char> {
    if es.len() == 0 {
        Seq::empty()
    } else {
        enc_entry(es[0].0, es[0].1) + enc_more(es.drop_first())
    }
}

pub proof fn lemma_enc_more_snoc(es: Seq<(Seq<char>, Seq<char>)>, k: Seq<char>, v: Seq<char>)
    ensures
        enc_more(es.push((k, v))) == enc_more(es) + seq![','] + enc_entry(k, v),
    decreases es.len(),
{
    if es.len() == 0 {
        assert(es.push((k, v)).drop_first() =~= es);
        assert(enc_more(es) == Seq::<char>::empty());
        assert(enc_more(es.push((k, v))) == seq![','] + enc_entry(k, v) + enc_more(es));
        assert(seq![','] + enc_entry(k, v) + enc_more(es) =~= enc_more(es) + seq![','] + enc_entry(k, v));
    } else {
        assert(es.push((k, v))[0] == es[0]);
        assert(es.push((k, v)).drop_first() =~= es.drop_first().push((k, v)));
        lemma_enc_more_snoc(es.drop_first(), k, v);
        assert(enc_more(es.push((k, v))) =~= enc_more(es) + seq![','] + enc_entry(k, v));
    }
}

pub proof fn lemma_enc_entries_snoc(es: Seq<(Seq<char>, Seq<char>)>, k: Seq<char>, v: Seq<char>)
    ensures
        enc_entries(es.push((k, v))) == if es.len() == 0 {
            enc_entry(k, v)
        } else {
            enc_entries(es) + seq![','] + enc_entry(k, v)
        },
{
    if es.len() == 0 {
        assert(es.push((k, v)).drop_first() =~= es);
        assert(enc_more(es) == Seq::<char>::empty());
        assert(enc_entries(es.push((k, v))) == enc_entry(k, v) + enc_more(es));
        assert(enc_entry(k, v) + enc_more(es) =~= enc_entry(k, v));
    } else {
        assert(es.push((k, v))[0] == es[0]);
        assert(es.push((k, v)).drop_first() =~= es.drop_first().push((k, v)));
        lemma_enc_more_snoc(es.drop_first(), k, v);
        assert(enc_entries(es.push((k, v))) =~= enc_entries(es) + seq![','] + enc_entry(k, v));
    }
}

/// The canonical persisted text of a whole document.
pub open spec fn enc_doc(tok: Seq<char>, es: Seq<(Seq<char>, Seq<char>)>) -> Seq<char> {
    "{\"access_token\":\""@ + esc_str(tok) + seq!['"'] + ",\"emails\":{"@ + enc_entries(es)
        + seq!['}', '}']
}

/// The hexadecimal digit character for a value below sixteen.
fn hex_char_of(d: u32) -> (c: char)
    requires
        d < 16,
    ensures
        c == hex_char(d as int),
{
    if d == 0 {
        '0'
    } else if d == 1 {
        '1'
    } else if d == 2 {
        '2'
    } else if d == 3 {
        '3'
    } else if d == 4 {
        '4'
    } else if d == 5 {
        '5'
    } else if d == 6 {
        '6'
    } else if d == 7 {
        '7'
    } else if d == 8 {
        '8'
    } else if d == 9 {
        '9'
    } else if d == 10 {
        'a'
    } else if d == 11 {
        'b'
    } else if d == 12 {
        'c'
    } else if d == 13 {
        'd'
    } else if d == 14 {
        'e'
    } else {
        'f'
    }
}

/// Appends the canonical escape of the whole string.
fn push_escaped(out: &mut String, s: &str)
    ensures
        final(out)@ == old(out)@ + esc_str(s@),
{
    let n = s.unicode_len();
    let mut i: usize = 0;
    while i < n
        invariant
            i <= n,
            n == s@.len(),
            out@ == old(out)@ + esc_str(s@.take(i as int)),
        decreases n - i,
    {
        let c = s.get_char(i);
        if (c as u32) < 0x20 {
            let v = c as u32;
            out.push('\\');
            out.push('u');
            out.push('0');
            out.push('0');
            out.push(hex_char_of(v / 16));
            out.push(hex_char_of(v % 16));
        } else if c == '"' {
            out.push('\\');
            out.push('"');
        } else if c == '\\' {
            out.push('\\');
            out.push('\\');
        } else {
            out.push(c);
        }
        proof {
            assert(s@.take(i as int + 1) =~= s@.take(i as int).push(s@[i as int]));
            lemma_esc_str_snoc(s@.take(i as int), s@[i as int]);
            assert(out@ =~= old(out)@ + esc_str(s@.take(i as int + 1)));
        }
        i += 1;
    }
    proof {
        assert(s@.take(n as int) =~= s@);
    }
}

/// Encodes the document as its canonical persisted text.
pub fn encode_config(cfg: &Config) -> (out: String)
    ensures
        out@ == enc_doc(cfg.token(), cfg.entries()),
{
    let ghost pre = "{\"access_token\":\""@ + esc_str(cfg.token()) + seq!['"'] + ",\"emails\":{"@;
    let mut out = String::new();
    out.append("{\"access_token\":\"");
    push_escaped(&mut out, cfg.access_token.as_str());
    out.push('"');
    out.append(",\"emails\":{");
    proof {
        assert(out@ =~= pre + enc_entries(cfg.entries().take(0)));
    }
    let m = cfg.emails.len();
    let mut i: usize = 0;
    while i < m
        invariant
            i <= m,
            m == cfg.emails@.len(),
            out@ == pre + enc_entries(cfg.entries().take(i as int)),
            pre == "{\"access_token\":\""@ + esc_str(cfg.token()) + seq!['"'] + ",\"emails\":{"@,
        decreases m - i,
    {
        if i > 0 {
            out.push(',');
        }
        out.push('"');
        push_escaped(&mut out, cfg.emails[i].0.0.as_str());
        out.push('"');
        out.push(':');
        out.push('"');
        push_escaped(&mut out, cfg.emails[i].1.0.as_str());
        out.push('"');
        proof {
            let es = cfg.entries();
            assert(es[i as int] == (cfg.emails@[i as int].0.0@, cfg.emails@[i as int].1.0@));
            assert(es.take(i as int + 1) =~= es.take(i as int).push(es[i as int]));
            lemma_enc_entries_snoc(es.take(i as int), es[i as int].0, es[i as int].1);
            assert(out@ =~= pre + enc_entries(es.take(i as int + 1)));
        }
        i += 1;
    }
    out.push('}');
    out.push('}');
    proof {
        assert(cfg.entries().take(m as int) =~= cfg.entries());
        assert(out@ =~= enc_doc(cfg.token(), cfg.entries()));
    }
    out
}

/// Hexadecimal value of a lowercase hexadecimal digit character.
fn hex_val(c: char) -> (r: Option<u32>)
    ensures
        r matches Some(d) ==> d < 16 && c == hex_char(d as int),
        r is None ==> forall|d: int| 0 <= d < 16 ==> c != #[trigger] hex_char(d),
{
    if c == '0' {
        Some(0)
    } else if c == '1' {
        Some(1)
    } else if c == '2' {
        Some(2)
    } else if c == '3' {
        Some(3)
    } else if c == '4' {
        Some(4)
    } else if c == '5' {
        Some(5)
    } else if c == '6' {
        Some(6)
    } else if c == '7' {
        Some(7)
    } else if c == '8' {
        Some(8)
    } else if c == '9' {
        Some(9)
    } else if c == 'a' {
        Some(10)
    } else if c == 'b' {
        Some(11)
    } else if c == 'c' {
        Some(12)
    } else if c == 'd' {
        Some(13)
    } else if c == 'e' {
        Some(14)
    } else if c == 'f' {
        Some(15)
    } else {
        None
    }
}

/// Consumes one expected character.
fn expect_char(s: &str, i: usize, n: usize, c: char) -> (r: Option<usize>)
    requires
        n == s@.len(),
        i <= n,
    ensures
        r matches Some(j) ==> i < n && j == i + 1 && s@[i as int] == c,
        r is None ==> !(i < n && s@[i as int] == c),
{
    if i < n && s.get_char(i) == c {
        Some(i + 1)
    } else {
        None
    }
}

/// Consumes an expected literal piece.
fn expect_lit(s: &str, i: usize, n: usize, pat: &str) -> (r: Option<usize>)
    requires
        n == s@.len(),
        i <= n,
    ensures
        r matches Some(j) ==> i + pat@.len() == j && j <= n && s@.subrange(i as int, j as int)
            == pat@,
        r is None ==> !(i + pat@.len() <= n && s@.subrange(i as int, i + pat@.len()) == pat@),
{
    let m = pat.unicode_len();
    if m > n - i {
        return None;
    }
    let mut k: usize = 0;
    while k < m
        invariant
            k <= m,
            m == pat@.len(),
            i + m <= n,
            n == s@.len(),
            forall|t: int| 0 <= t < k ==> s@[i + t] == pat@[t],
        decreases m - k,
    {
        if s.get_char(i + k) != pat.get_char(k) {
            proof {
                if s@.subrange(i as int, i + pat@.len()) == pat@ {
                    assert(s@.subrange(i as int, i + pat@.len())[k as int] == pat@[k as int]);
                }
            }
            return None;
        }
        k += 1;
    }
    proof {
        assert(s@.subrange(i as int, (i + m) as int) =~= pat@);
    }
    Some(i + m)
}


/// Two escaped-and-terminated readings from the same position agree.
proof fn lemma_strbody_unique(s: Seq<char>, start: int, acc: Seq<char>, i1: int, t: Seq<char>, j: int)
    requires
        0 <= start,
        strbody_at(s, start, acc, i1),
        strbody_at(s, start, t, j),
    ensures
        t == acc,
        j == i1,
{
    assert(s.subrange(start, s.len() as int) =~= s.subrange(start, i1) + s.subrange(
        i1,
        s.len() as int,
    ));
    assert(s.subrange(start, s.len() as int) =~= s.subrange(start, j) + s.subrange(
        j,
        s.len() as int,
    ));
    assert((esc_str(acc) + seq!['"']) + s.subrange(i1, s.len() as int) =~= esc_str(acc)
        + seq!['"'] + s.subrange(i1, s.len() as int));
    assert((esc_str(t) + seq!['"']) + s.subrange(j, s.len() as int) =~= esc_str(t) + seq!['"']
        + s.subrange(j, s.len() as int));
    lemma_esc_str_term_inj(acc, t, s.subrange(i1, s.len() as int), s.subrange(j, s.len() as int));
    assert(s.subrange(i1, s.len() as int).len() == s.len() - i1);
    assert(s.subrange(j, s.len() as int).len() == s.len() - j);
}

/// If some escaped-and-terminated reading starts where an escaped prefix has
/// already been consumed, the characters at the current position must look
/// like the quote or the start of one more canonical escape form.
proof fn lemma_parse_obstruction(
    s: Seq<char>,
    start: int,
    acc: Seq<char>,
    i: int,
    t: Seq<char>,
    j: int,
)
    requires
        0 <= start <= i <= s.len(),
        s.subrange(start, i) == esc_str(acc),
        strbody_at(s, start, t, j),
    ensures
        i < s.len(),
        (s[i] == '"') || (s[i] != '"' && s[i] != '\\' && (s[i] as u32) >= 0x20) || (s[i] == '\\'
            && i + 1 < s.len() && (s[i + 1] == '"' || s[i + 1] == '\\')) || (s[i] == '\\' && i + 5
            < s.len() && s[i + 1] == 'u' && s[i + 2] == '0' && s[i + 3] == '0' && (s[i + 4]
            == hex_char(0) || s[i + 4] == hex_char(1)) && (exists|d: int|
            0 <= d < 16 && s[i + 5] == #[trigger] hex_char(d))),
{
    assert(s.subrange(start, s.len() as int) =~= s.subrange(start, i) + s.subrange(
        i,
        s.len() as int,
    ));
    assert(s.subrange(start, s.len() as int) =~= s.subrange(start, j) + s.subrange(
        j,
        s.len() as int,
    ));
    assert((esc_str(t) + seq!['"']) + s.subrange(j, s.len() as int) =~= esc_str(t) + seq!['"']
        + s.subrange(j, s.len() as int));
    lemma_escstr_factor(acc, s.subrange(i, s.len() as int), t, s.subrange(j, s.len() as int));
    let t2 = choose|t2: Seq<char>|
        t == acc + t2 && s.subrange(i, s.len() as int) == #[trigger] esc_str(t2) + seq!['"']
            + s.subrange(j, s.len() as int);
    let rest = s.subrange(i, s.len() as int);
    let x = s.subrange(j, s.len() as int);
    assert(rest.len() == esc_str(t2).len() + 1 + x.len());
    assert(i < s.len());
    if t2.len() == 0 {
        assert(esc_str(t2) == Seq::<char>::empty());
        assert(rest =~= seq!['"'] + x);
        assert(rest[0] == '"');
        assert(rest[0] == s[i]);
    } else {
        let c0 = t2[0];
        lemma_esc_shape(c0);
        assert(esc_str(t2) == esc(c0) + esc_str(t2.drop_first()));
        assert(esc_str(t2).len() == esc(c0).len() + esc_str(t2.drop_first()).len());
        assert forall|k: int|
            0 <= k < esc(c0).len() implies rest[k] == esc(c0)[k] && rest[k] == s[i + k] by {
            assert((esc_str(t2) + seq!['"'])[k] == esc_str(t2)[k]);
            assert(((esc_str(t2) + seq!['"']) + x)[k] == (esc_str(t2) + seq!['"'])[k]);
            assert(esc_str(t2)[k] == esc(c0)[k]);
            assert(s.subrange(i, s.len() as int)[k] == s[i + k]);
        }
        if esc(c0).len() == 1 {
            assert(rest[0] == esc(c0)[0] && rest[0] == s[i + 0]);
            assert(s[i] == c0);
        } else if esc(c0).len() == 2 {
            assert(rest[0] == esc(c0)[0] && rest[0] == s[i + 0]);
            assert(rest[1] == esc(c0)[1] && rest[1] == s[i + 1]);
            assert(s[i] == '\\');
            assert(s[i + 1] == esc(c0)[1]);
        } else {
            assert(rest[0] == esc(c0)[0] && rest[0] == s[i + 0]);
            assert(rest[1] == esc(c0)[1] && rest[1] == s[i + 1]);
            assert(rest[2] == esc(c0)[2] && rest[2] == s[i + 2]);
            assert(rest[3] == esc(c0)[3] && rest[3] == s[i + 3]);
            assert(rest[4] == esc(c0)[4] && rest[4] == s[i + 4]);
            assert(rest[5] == esc(c0)[5] && rest[5] == s[i + 5]);
            assert(s[i] == '\\');
            assert(s[i + 1] == 'u');
            assert(s[i + 2] == '0');
            assert(s[i + 3] == '0');
            assert(s[i + 4] == hex_char((c0 as u32) as int / 16));
            assert(s[i + 5] == hex_char((c0 as u32) as int % 16));
            assert(0 <= (c0 as u32) as int % 16 < 16);
        }
    }
}

/// Parses the canonical escaped body of a quoted string and its closing
/// quote, returning the decoded string and the position after the quote.
/// A text is accepted exactly when such a body sits at the start position,
/// and then the decoding is the unique one.
fn parse_string_body(s: &str, start: usize, n: usize) -> (r: Result<(String, usize), StoreError>)
    requires
        n == s@.len(),
        start <= n,
    ensures
        r matches Ok(p) ==> start < p.1 <= n && s@.subrange(start as int, p.1 as int) == esc_str(
            p.0@,
        ) + seq!['"'],
        r matches Ok(p) ==> forall|t: Seq<char>, j: int|
            strbody_at(s@, start as int, t, j) ==> t == p.0@ && j == p.1,
        r is Err ==> forall|t: Seq<char>, j: int| !strbody_at(s@, start as int, t, j),
{
    let mut acc = String::new();
    let mut i: usize = start;
    loop
        invariant
            start <= i <= n,
            n == s@.len(),
            s@.subrange(start as int, i as int) == esc_str(acc@),
        decreases n - i,
    {
        if i >= n {
            proof {
                assert forall|t: Seq<char>, j: int| !strbody_at(s@, start as int, t, j) by {
                    if strbody_at(s@, start as int, t, j) {
                        lemma_parse_obstruction(s@, start as int, acc@, i as int, t, j);
                    }
                }
            }
            return Err(StoreError::Decode);
        }
        let c = s.get_char(i);
        if c == '"' {
            proof {
                assert(s@.subrange(start as int, (i + 1) as int) =~= esc_str(acc@) + seq!['"']);
                assert(strbody_at(s@, start as int, acc@, i as int + 1));
                assert forall|t: Seq<char>, j: int|
                    strbody_at(s@, start as int, t, j) implies t == acc@ && j == i as int
                    + 1 by {
                    lemma_strbody_unique(s@, start as int, acc@, i as int + 1, t, j);
                }
            }
            return Ok((acc, i + 1));
        } else if c == '\\' {
            if i + 1 >= n {
                proof {
                    assert forall|t: Seq<char>, j: int| !strbody_at(s@, start as int, t, j) by {
                        if strbody_at(s@, start as int, t, j) {
                            lemma_parse_obstruction(s@, start as int, acc@, i as int, t, j);
                        }
                    }
                }
                return Err(StoreError::Decode);
            }
            let e = s.get_char(i + 1);
            let ghost prev = acc@;
            if e == '"' || e == '\\' {
                acc.push(e);
                proof {
                    lemma_esc_str_snoc(prev, e);
                    assert(('"' as u32) >= 0x20);
                    assert(('\\' as u32) >= 0x20);
                    assert(esc(e) =~= seq!['\\', e]);
                    assert(s@.subrange(start as int, (i + 2) as int) =~= esc_str(prev) + seq![
                        s@[i as int],
                        s@[i as int + 1],
                    ]);
                    assert(s@.subrange(start as int, (i + 2) as int) == esc_str(acc@));
                }
                i = i + 2;
            } else if e == 'u' {
                if n - i < 6 {
                    proof {
                        assert forall|t: Seq<char>, j: int|
                            !strbody_at(s@, start as int, t, j) by {
                            if strbody_at(s@, start as int, t, j) {
                                lemma_parse_obstruction(s@, start as int, acc@, i as int, t, j);
                            }
                        }
                    }
                    return Err(StoreError::Decode);
                }
                let z1 = s.get_char(i + 2);
                let z2 = s.get_char(i + 3);
                if z1 != '0' || z2 != '0' {
                    proof {
                        assert forall|t: Seq<char>, j: int|
                            !strbody_at(s@, start as int, t, j) by {
                            if strbody_at(s@, start as int, t, j) {
                                lemma_parse_obstruction(s@, start as int, acc@, i as int, t, j);
                            }
                        }
                    }
                    return Err(StoreError::Decode);
                }
                let h1 = hex_val(s.get_char(i + 4));
                let d1 = match h1 {
                    Some(d) => d,
                    None => {
                        proof {
                            assert forall|t: Seq<char>, j: int|
                                !strbody_at(s@, start as int, t, j) by {
                                if strbody_at(s@, start as int, t, j) {
                                    lemma_parse_obstruction(
                                        s@,
                                        start as int,
                                        acc@,
                                        i as int,
                                        t,
                                        j,
                                    );
                                }
                            }
                        }
                        return Err(StoreError::Decode);
                    },
                };
                let h0 = hex_val(s.get_char(i + 5));
                let d0 = match h0 {
                    Some(d) => d,
                    None => {
                        proof {
                            assert forall|t: Seq<char>, j: int|
                                !strbody_at(s@, start as int, t, j) by {
                                if strbody_at(s@, start as int, t, j) {
                                    lemma_parse_obstruction(
                                        s@,
                                        start as int,
                                        acc@,
                                        i as int,
                                        t,
                                        j,
                                    );
                                }
                            }
                        }
                        return Err(StoreError::Decode);
                    },
                };
                if d1 >= 2 {
                    proof {
                        assert forall|t: Seq<char>, j: int|
                            !strbody_at(s@, start as int, t, j) by {
                            if strbody_at(s@, start as int, t, j) {
                                lemma_parse_obstruction(s@, start as int, acc@, i as int, t, j);
                                assert(s@[i as int + 4] == hex_char(0) || s@[i as int + 4]
                                    == hex_char(1));
                            }
                        }
                    }
                    return Err(StoreError::Decode);
                }
                let v: u32 = 16 * d1 + d0;
                let c2: char = (v as u8) as char;
                acc.push(c2);
                proof {
                    assert(v < 0x20);
                    assert(c2 as u32 == v);
                    assert((c2 as u32) as int / 16 == d1 as int);
                    assert((c2 as u32) as int % 16 == d0 as int);
                    assert(esc(c2) =~= seq![
                        '\\',
                        'u',
                        '0',
                        '0',
                        hex_char(d1 as int),
                        hex_char(d0 as int),
                    ]);
                    lemma_esc_str_snoc(prev, c2);
                    assert(s@.subrange(start as int, (i + 6) as int) =~= esc_str(prev) + seq![
                        s@[i as int],
                        s@[i as int + 1],
                        s@[i as int + 2],
                        s@[i as int + 3],
                        s@[i as int + 4],
                        s@[i as int + 5],
                    ]);
                    assert(s@.subrange(start as int, (i + 6) as int) == esc_str(acc@));
                }
                i = i + 6;
            } else {
                proof {
                    assert forall|t: Seq<char>, j: int| !strbody_at(s@, start as int, t, j) by {
                        if strbody_at(s@, start as int, t, j) {
                            lemma_parse_obstruction(s@, start as int, acc@, i as int, t, j);
                        }
                    }
                }
                return Err(StoreError::Decode);
            }
        } else if (c as u32) < 0x20 {
            proof {
                assert forall|t: Seq<char>, j: int| !strbody_at(s@, start as int, t, j) by {
                    if strbody_at(s@, start as int, t, j) {
                        lemma_parse_obstruction(s@, start as int, acc@, i as int, t, j);
                    }
                }
            }
            return Err(StoreError::Decode);
        } else {
            let ghost prev = acc@;
            acc.push(c);
            proof {
                lemma_esc_str_snoc(prev, c);
                assert(esc(c) =~= seq![c]);
                assert(s@.subrange(start as int, (i + 1) as int) =~= esc_str(prev) + seq![c]);
            }
            i = i + 1;
        }
    }
}

/// From a slice equation ending in one known character, recovers the front
/// part and that character.
proof fn lemma_concat_last(s: Seq<char>, a: int, b: int, x: Seq<char>, c: char)
    requires
        0 <= a <= b <= s.len(),
        s.subrange(a, b) == x + seq![c],
    ensures
        x == s.subrange(a, b - 1),
        s[b - 1] == c,
{
    assert(s.subrange(a, b).len() == b - a);
    assert((x + seq![c]).len() == x.len() + 1);
    assert forall|t: int| 0 <= t < x.len() implies x[t] == s[a + t] by {
        assert((x + seq![c])[t] == x[t]);
        assert(s.subrange(a, b)[t] == s[a + t]);
    }
    assert(x =~= s.subrange(a, b - 1));
    assert(s.subrange(a, b)[b - a - 1] == s[b - 1]);
    assert((x + seq![c])[b - a - 1] == c);
}

/// Two encoded entry lists terminated by the closing brace, read from the
/// same position, agree.
proof fn lemma_entries_unique(
    s: Seq<char>,
    start: int,
    es: Seq<(Seq<char>, Seq<char>)>,
    i1: int,
    es2: Seq<(Seq<char>, Seq<char>)>,
    j: int,
)
    requires
        0 <= start,
        entries_at(s, start, es, i1),
        entries_at(s, start, es2, j),
    ensures
        es2 == es,
        j == i1,
{
    assert(s.subrange(start, s.len() as int) =~= s.subrange(start, i1) + s.subrange(
        i1,
        s.len() as int,
    ));
    assert(s.subrange(start, s.len() as int) =~= s.subrange(start, j) + s.subrange(
        j,
        s.len() as int,
    ));
    assert((enc_entries(es) + seq!['}']) + s.subrange(i1, s.len() as int) =~= enc_entries(es)
        + seq!['}'] + s.subrange(i1, s.len() as int));
    assert((enc_entries(es2) + seq!['}']) + s.subrange(j, s.len() as int) =~= enc_entries(es2)
        + seq!['}'] + s.subrange(j, s.len() as int));
    lemma_enc_entries_term_inj(
        es,
        es2,
        s.subrange(i1, s.len() as int),
        s.subrange(j, s.len() as int),
    );
    assert(s.subrange(i1, s.len() as int).len() == s.len() - i1);
    assert(s.subrange(j, s.len() as int).len() == s.len() - j);
}

/// Any entry-list reading extends a known comma-terminated prefix of encoded
/// entries: what remains is one more entry followed by the rest.
proof fn lemma_more_factor(
    d: Seq<(Seq<char>, Seq<char>)>,
    rest: Seq<char>,
    m2: Seq<(Seq<char>, Seq<char>)>,
    x: Seq<char>,
)
    requires
        enc_more(d) + seq![','] + rest == enc_more(m2) + seq!['}'] + x,
    ensures
        exists|m3: Seq<(Seq<char>, Seq<char>)>|
            m2 == d + m3 && m3.len() > 0 && rest == #[trigger] enc_entry(m3[0].0, m3[0].1) + (
            enc_more(m3.drop_first()) + seq!['}'] + x),
    decreases d.len(),
{
    if d.len() == 0 {
        assert(enc_more(d) == Seq::<char>::empty());
        assert(enc_more(d) + seq![','] + rest =~= seq![','] + rest);
        if m2.len() == 0 {
            assert(enc_more(m2) == Seq::<char>::empty());
            assert(enc_more(m2) + seq!['}'] + x =~= seq!['}'] + x);
            assert((seq![','] + rest)[0] == ',');
            assert((seq!['}'] + x)[0] == '}');
            assert(false);
        } else {
            assert(enc_more(m2) == seq![','] + enc_entry(m2[0].0, m2[0].1) + enc_more(
                m2.drop_first(),
            ));
            assert(enc_more(m2) + seq!['}'] + x =~= seq![','] + (enc_entry(m2[0].0, m2[0].1) + (
            enc_more(m2.drop_first()) + seq!['}'] + x)));
            lemma_concat_cancel(
                seq![','],
                rest,
                enc_entry(m2[0].0, m2[0].1) + (enc_more(m2.drop_first()) + seq!['}'] + x),
            );
            assert(d + m2 =~= m2);
            assert(m2 == d + m2 && m2.len() > 0 && rest == enc_entry(m2[0].0, m2[0].1) + (
            enc_more(m2.drop_first()) + seq!['}'] + x));
        }
    } else {
        assert(enc_more(d) == seq![','] + enc_entry(d[0].0, d[0].1) + enc_more(d.drop_first()));
        assert(enc_more(d) + seq![','] + rest =~= seq![','] + (enc_entry(d[0].0, d[0].1) + (
        enc_more(d.drop_first()) + seq![','] + rest)));
        if m2.len() == 0 {
            assert(enc_more(m2) == Seq::<char>::empty());
            assert(enc_more(m2) + seq!['}'] + x =~= seq!['}'] + x);
            assert((seq!['}'] + x)[0] == '}');
            assert((seq![','] + (enc_entry(d[0].0, d[0].1) + (enc_more(d.drop_first())
                + seq![','] + rest)))[0] == ',');
            assert(false);
        } else {
            assert(enc_more(m2) == seq![','] + enc_entry(m2[0].0, m2[0].1) + enc_more(
                m2.drop_first(),
            ));
            assert(enc_more(m2) + seq!['}'] + x =~= seq![','] + (enc_entry(m2[0].0, m2[0].1) + (
            enc_more(m2.drop_first()) + seq!['}'] + x)));
            lemma_concat_cancel(
                seq![','],
                enc_entry(d[0].0, d[0].1) + (enc_more(d.drop_first()) + seq![','] + rest),
                enc_entry(m2[0].0, m2[0].1) + (enc_more(m2.drop_first()) + seq!['}'] + x),
            );
            lemma_entry_chunk(
                d[0].0,
                d[0].1,
                enc_more(d.drop_first()) + seq![','] + rest,
                m2[0].0,
                m2[0].1,
                enc_more(m2.drop_first()) + seq!['}'] + x,
            );
            lemma_more_factor(d.drop_first(), rest, m2.drop_first(), x);
            let m3 = choose|m3: Seq<(Seq<char>, Seq<char>)>|
                m2.drop_first() == d.drop_first() + m3 && m3.len() > 0 && rest
                    == #[trigger] enc_entry(m3[0].0, m3[0].1) + (enc_more(m3.drop_first())
                    + seq!['}'] + x);
            assert(d[0] == (d[0].0, d[0].1));
            assert(m2[0] == (m2[0].0, m2[0].1));
            assert forall|q: int| 0 <= q < m2.len() implies m2[q] == (d + m3)[q] by {
                if q > 0 {
                    assert(m2.drop_first()[q - 1] == m2[q]);
                    assert((d.drop_first() + m3)[q - 1] == m2.drop_first()[q - 1]);
                    if q < d.len() {
                        assert(d.drop_first()[q - 1] == d[q]);
                    }
                }
            }
            assert(m2 =~= d + m3);
            assert(m2 == d + m3 && m3.len() > 0 && rest == enc_entry(m3[0].0, m3[0].1) + (
            enc_more(m3.drop_first()) + seq!['}'] + x));
        }
    }
}

/// Any entry-list reading seen from the parser's position between entries is
/// either the immediate closing brace or starts with one more entry.
proof fn lemma_entry_obstruction(
    s: Seq<char>,
    start: int,
    done: Seq<(Seq<char>, Seq<char>)>,
    cur: int,
    es2: Seq<(Seq<char>, Seq<char>)>,
    j: int,
)
    requires
        0 <= start <= cur <= s.len(),
        (done.len() == 0 && cur == start) || (done.len() > 0 && s.subrange(start, cur)
            == enc_entries(done) + seq![',']),
        entries_at(s, start, es2, j),
    ensures
        (done.len() == 0 && es2 == done && cur < s.len() && s[cur] == '}' && j == cur + 1) || (
        exists|
            m3: Seq<(Seq<char>, Seq<char>)>,
        |
            es2 == done + m3 && m3.len() > 0 && s.subrange(cur, s.len() as int)
                == #[trigger] enc_entry(m3[0].0, m3[0].1) + (enc_more(m3.drop_first())
                + seq!['}'] + s.subrange(j, s.len() as int))),
{
    let x = s.subrange(j, s.len() as int);
    let rest = s.subrange(cur, s.len() as int);
    assert(s.subrange(start, s.len() as int) =~= s.subrange(start, cur) + rest);
    assert(s.subrange(start, s.len() as int) =~= s.subrange(start, j) + x);
    if done.len() == 0 {
        assert(s.subrange(start, cur) =~= Seq::<char>::empty());
        assert(rest == (enc_entries(es2) + seq!['}']) + x);
        if es2.len() == 0 {
            assert(enc_entries(es2) == Seq::<char>::empty());
            assert(rest =~= seq!['}'] + x);
            assert(rest[0] == '}');
            assert(rest[0] == s[cur]);
            assert(rest.len() == 1 + x.len());
            assert(x.len() == s.len() - j);
            assert(j == cur + 1);
            assert(es2 =~= done);
        } else {
            assert(enc_entries(es2) == enc_entry(es2[0].0, es2[0].1) + enc_more(
                es2.drop_first(),
            ));
            assert(rest =~= enc_entry(es2[0].0, es2[0].1) + (enc_more(es2.drop_first())
                + seq!['}'] + x));
            assert(done + es2 =~= es2);
            assert(es2 == done + es2 && es2.len() > 0 && rest == enc_entry(es2[0].0, es2[0].1) + (
            enc_more(es2.drop_first()) + seq!['}'] + x));
        }
    } else {
        assert((enc_entries(done) + seq![',']) + rest == (enc_entries(es2) + seq!['}']) + x);
        if es2.len() == 0 {
            assert(enc_entries(es2) == Seq::<char>::empty());
            assert((enc_entries(es2) + seq!['}']) + x =~= seq!['}'] + x);
            assert(enc_entries(done) == enc_entry(done[0].0, done[0].1) + enc_more(
                done.drop_first(),
            ));
            assert(enc_entry(done[0].0, done[0].1)[0] == '"');
            assert(enc_entries(done)[0] == '"');
            assert(((enc_entries(done) + seq![',']) + rest)[0] == '"');
            assert((seq!['}'] + x)[0] == '}');
            assert(false);
        } else {
            assert(enc_entries(done) == enc_entry(done[0].0, done[0].1) + enc_more(
                done.drop_first(),
            ));
            assert(enc_entries(es2) == enc_entry(es2[0].0, es2[0].1) + enc_more(
                es2.drop_first(),
            ));
            assert((enc_entries(done) + seq![',']) + rest =~= enc_entry(done[0].0, done[0].1) + (
            enc_more(done.drop_first()) + seq![','] + rest));
            assert((enc_entries(es2) + seq!['}']) + x =~= enc_entry(es2[0].0, es2[0].1) + (
            enc_more(es2.drop_first()) + seq!['}'] + x));
            lemma_entry_chunk(
                done[0].0,
                done[0].1,
                enc_more(done.drop_first()) + seq![','] + rest,
                es2[0].0,
                es2[0].1,
                enc_more(es2.drop_first()) + seq!['}'] + x,
            );
            lemma_more_factor(done.drop_first(), rest, es2.drop_first(), x);
            let m3 = choose|m3: Seq<(Seq<char>, Seq<char>)>|
                es2.drop_first() == done.drop_first() + m3 && m3.len() > 0 && rest
                    == #[trigger] enc_entry(m3[0].0, m3[0].1) + (enc_more(m3.drop_first())
                    + seq!['}'] + x);
            assert(done[0] == (done[0].0, done[0].1));
            assert(es2[0] == (es2[0].0, es2[0].1));
            assert forall|q: int| 0 <= q < es2.len() implies es2[q] == (done + m3)[q] by {
                if q > 0 {
                    assert(es2.drop_first()[q - 1] == es2[q]);
                    assert((done.drop_first() + m3)[q - 1] == es2.drop_first()[q - 1]);
                    if q < done.len() {
                        assert(done.drop_first()[q - 1] == done[q]);
                    }
                }
            }
            assert(es2 =~= done + m3);
            assert(es2 == done + m3 && m3.len() > 0 && rest == enc_entry(m3[0].0, m3[0].1) + (
            enc_more(m3.drop_first()) + seq!['}'] + x));
        }
    }
}

/// The positions inside one encoded entry at the head of the text's tail:
/// the opening quote, the key reading, the separator, the value reading, and
/// where the rest begins.
proof fn lemma_entry_residue(s: Seq<char>, cur: int, kk: Seq<char>, vv: Seq<char>, tail: Seq<char>)
    requires
        0 <= cur <= s.len(),
        s.subrange(cur, s.len() as int) == enc_entry(kk, vv) + tail,
    ensures
        cur < s.len(),
        s[cur] == '"',
        strbody_at(s, cur + 1, kk, cur + 2 + esc_str(kk).len()),
        cur + 2 + esc_str(kk).len() < s.len(),
        s[cur + 2 + esc_str(kk).len()] == ':',
        cur + 3 + esc_str(kk).len() < s.len(),
        s[cur + 3 + esc_str(kk).len()] == '"',
        strbody_at(s, cur + 4 + esc_str(kk).len(), vv, cur + 5 + esc_str(kk).len() + esc_str(
            vv,
        ).len()),
        s.subrange(
            cur + 5 + esc_str(kk).len() + esc_str(vv).len(),
            s.len() as int,
        ) == tail,
{
    assert(enc_entry(kk, vv) + tail =~= seq!['"'] + ((esc_str(kk) + seq!['"']) + (seq![':', '"']
        + ((esc_str(vv) + seq!['"']) + tail))));
    lemma_prefix_extract(
        s,
        cur,
        seq!['"'],
        (esc_str(kk) + seq!['"']) + (seq![':', '"'] + ((esc_str(vv) + seq!['"']) + tail)),
    );
    assert(s.subrange(cur, cur + 1)[0] == s[cur]);
    lemma_prefix_extract(
        s,
        cur + 1,
        esc_str(kk) + seq!['"'],
        seq![':', '"'] + ((esc_str(vv) + seq!['"']) + tail),
    );
    let jk = cur + 2 + esc_str(kk).len();
    lemma_prefix_extract(s, jk, seq![':', '"'], (esc_str(vv) + seq!['"']) + tail);
    assert(s.subrange(jk, jk + 2)[0] == s[jk]);
    assert(s.subrange(jk, jk + 2)[1] == s[jk + 1]);
    lemma_prefix_extract(s, jk + 2, esc_str(vv) + seq!['"'], tail);
}


/// Parses the body of the emails object after its opening brace, consuming
/// the closing brace: comma-separated quoted entries whose keys all carry
/// the canonical suffix and never repeat.  The body is accepted exactly when
/// a well-formed entry list sits at the start position, and then the reading
/// is the unique one.
#[verifier::rlimit(100)]
fn parse_entries(text: &str, start: usize, n: usize) -> (r: Result<
    (Vec<(Email, Note)>, usize),
    StoreError,
>)
    requires
        n == text@.len(),
        start <= n,
    ensures
        r matches Ok(p) ==> {
            &&& start < p.1 <= n
            &&& text@.subrange(start as int, p.1 as int) == enc_entries(entries_of(p.0@)) + seq![
                '}',
            ]
            &&& entries_ok(entries_of(p.0@))
            &&& forall|es2: Seq<(Seq<char>, Seq<char>)>, j2: int|
                entries_at(text@, start as int, es2, j2) ==> es2 == entries_of(p.0@) && j2 == p.1
        },
        r is Err ==> forall|es2: Seq<(Seq<char>, Seq<char>)>, j2: int|
            entries_ok(es2) ==> !entries_at(text@, start as int, es2, j2),
{
    let mut emails: Vec<(Email, Note)> = Vec::new();
    if start < n && text.get_char(start) == '}' {
        proof {
            assert(text@.subrange(start as int, (start + 1) as int) =~= enc_entries(
                entries_of(emails@),
            ) + seq!['}']);
            assert(entries_at(text@, start as int, entries_of(emails@), start as int + 1));
            assert forall|es2: Seq<(Seq<char>, Seq<char>)>, j2: int|
                entries_at(text@, start as int, es2, j2) implies es2 == entries_of(emails@)
                && j2 == start as int + 1 by {
                lemma_entries_unique(
                    text@,
                    start as int,
                    entries_of(emails@),
                    start as int + 1,
                    es2,
                    j2,
                );
            }
        }
        return Ok((emails, start + 1));
    }
    let mut cur: usize = start;
    loop
        invariant
            start <= cur <= n,
            n == text@.len(),
            emails@.len() == 0 ==> cur == start && !(start < n && text@[start as int] == '}'),
            emails@.len() > 0 ==> text@.subrange(start as int, cur as int) == enc_entries(
                entries_of(emails@),
            ) + seq![','],
            entries_ok(entries_of(emails@)),
        decreases n - cur,
    {
        let ghost done = entries_of(emails@);
        let c0 = match expect_char(text, cur, n, '"') {
            Some(j) => j,
            None => {
                proof {
                    assert forall|es2: Seq<(Seq<char>, Seq<char>)>, j2: int|
                        entries_ok(es2) implies !entries_at(text@, start as int, es2, j2) by {
                        if entries_at(text@, start as int, es2, j2) {
                            lemma_entry_obstruction(
                                text@,
                                start as int,
                                done,
                                cur as int,
                                es2,
                                j2,
                            );
                            if !(done.len() == 0 && es2 == done && cur < n && text@[cur as int]
                                == '}' && j2 == cur as int + 1) {
                                let m3 = choose|m3: Seq<(Seq<char>, Seq<char>)>|
                                    es2 == done + m3 && m3.len() > 0 && text@.subrange(
                                        cur as int,
                                        n as int,
                                    ) == #[trigger] enc_entry(m3[0].0, m3[0].1) + (enc_more(
                                        m3.drop_first(),
                                    ) + seq!['}'] + text@.subrange(j2, n as int));
                                lemma_entry_residue(
                                    text@,
                                    cur as int,
                                    m3[0].0,
                                    m3[0].1,
                                    enc_more(m3.drop_first()) + seq!['}'] + text@.subrange(
                                        j2,
                                        n as int,
                                    ),
                                );
                            }
                        }
                    }
                }
                return Err(StoreError::Decode);
            },
        };
        let (key, c1) = match parse_string_body(text, c0, n) {
            Ok(p) => p,
            Err(e) => {
                proof {
                    assert forall|es2: Seq<(Seq<char>, Seq<char>)>, j2: int|
                        entries_ok(es2) implies !entries_at(text@, start as int, es2, j2) by {
                        if entries_at(text@, start as int, es2, j2) {
                            lemma_entry_obstruction(
                                text@,
                                start as int,
                                done,
                                cur as int,
                                es2,
                                j2,
                            );
                            let m3 = choose|m3: Seq<(Seq<char>, Seq<char>)>|
                                es2 == done + m3 && m3.len() > 0 && text@.subrange(
                                    cur as int,
                                    n as int,
                                ) == #[trigger] enc_entry(m3[0].0, m3[0].1) + (enc_more(
                                    m3.drop_first(),
                                ) + seq!['}'] + text@.subrange(j2, n as int));
                            lemma_entry_residue(
                                text@,
                                cur as int,
                                m3[0].0,
                                m3[0].1,
                                enc_more(m3.drop_first()) + seq!['}'] + text@.subrange(
                                    j2,
                                    n as int,
                                ),
                            );
                        }
                    }
                }
                return Err(e);
            },
        };
        let suffixed = ends_with_suffix(key.as_str());
        let dup = find_key(&emails, &key);
        if !suffixed || dup.is_some() {
            proof {
                assert forall|es2: Seq<(Seq<char>, Seq<char>)>, j2: int|
                    entries_ok(es2) implies !entries_at(text@, start as int, es2, j2) by {
                    if entries_at(text@, start as int, es2, j2) {
                        lemma_entry_obstruction(text@, start as int, done, cur as int, es2, j2);
                        let m3 = choose|m3: Seq<(Seq<char>, Seq<char>)>|
                            es2 == done + m3 && m3.len() > 0 && text@.subrange(
                                cur as int,
                                n as int,
                            ) == #[trigger] enc_entry(m3[0].0, m3[0].1) + (enc_more(
                                m3.drop_first(),
                            ) + seq!['}'] + text@.subrange(j2, n as int));
                        lemma_entry_residue(
                            text@,
                            cur as int,
                            m3[0].0,
                            m3[0].1,
                            enc_more(m3.drop_first()) + seq!['}'] + text@.subrange(j2, n as int),
                        );
                        assert(m3[0].0 == key@);
                        assert(es2[done.len() as int] == m3[0]);
                        assert(is_normalized(key@));
                        if dup is Some {
                            assert(has_key(done, key@));
                            let ki = key_index(done, key@);
                            assert(0 <= ki < done.len() && done[ki].0 == key@);
                            assert(es2[ki] == (done + m3)[ki]);
                            assert(es2[ki].0 == es2[done.len() as int].0);
                            assert(false);
                        }
                    }
                }
            }
            return Err(StoreError::Decode);
        }
        let c2 = match expect_char(text, c1, n, ':') {
            Some(j) => j,
            None => {
                proof {
                    assert forall|es2: Seq<(Seq<char>, Seq<char>)>, j2: int|
                        entries_ok(es2) implies !entries_at(text@, start as int, es2, j2) by {
                        if entries_at(text@, start as int, es2, j2) {
                            lemma_entry_obstruction(
                                text@,
                                start as int,
                                done,
                                cur as int,
                                es2,
                                j2,
                            );
                            let m3 = choose|m3: Seq<(Seq<char>, Seq<char>)>|
                                es2 == done + m3 && m3.len() > 0 && text@.subrange(
                                    cur as int,
                                    n as int,
                                ) == #[trigger] enc_entry(m3[0].0, m3[0].1) + (enc_more(
                                    m3.drop_first(),
                                ) + seq!['}'] + text@.subrange(j2, n as int));
                            lemma_entry_residue(
                                text@,
                                cur as int,
                                m3[0].0,
                                m3[0].1,
                                enc_more(m3.drop_first()) + seq!['}'] + text@.subrange(
                                    j2,
                                    n as int,
                                ),
                            );
                            assert(m3[0].0 == key@ && cur as int + 2 + esc_str(key@).len()
                                == c1 as int);
                        }
                    }
                }
                return Err(StoreError::Decode);
            },
        };
        let c3 = match expect_char(text, c2, n, '"') {
            Some(j) => j,
            None => {
                proof {
                    assert forall|es2: Seq<(Seq<char>, Seq<char>)>, j2: int|
                        entries_ok(es2) implies !entries_at(text@, start as int, es2, j2) by {
                        if entries_at(text@, start as int, es2, j2) {
                            lemma_entry_obstruction(
                                text@,
                                start as int,
                                done,
                                cur as int,
                                es2,
                                j2,
                            );
                            let m3 = choose|m3: Seq<(Seq<char>, Seq<char>)>|
                                es2 == done + m3 && m3.len() > 0 && text@.subrange(
                                    cur as int,
                                    n as int,
                                ) == #[trigger] enc_entry(m3[0].0, m3[0].1) + (enc_more(
                                    m3.drop_first(),
                                ) + seq!['}'] + text@.subrange(j2, n as int));
                            lemma_entry_residue(
                                text@,
                                cur as int,
                                m3[0].0,
                                m3[0].1,
                                enc_more(m3.drop_first()) + seq!['}'] + text@.subrange(
                                    j2,
                                    n as int,
                                ),
                            );
                            assert(m3[0].0 == key@ && cur as int + 2 + esc_str(key@).len()
                                == c1 as int);
                        }
                    }
                }
                return Err(StoreError::Decode);
            },
        };
        let (val, c4) = match parse_string_body(text, c3, n) {
            Ok(p) => p,
            Err(e) => {
                proof {
                    assert forall|es2: Seq<(Seq<char>, Seq<char>)>, j2: int|
                        entries_ok(es2) implies !entries_at(text@, start as int, es2, j2) by {
                        if entries_at(text@, start as int, es2, j2) {
                            lemma_entry_obstruction(
                                text@,
                                start as int,
                                done,
                                cur as int,
                                es2,
                                j2,
                            );
                            let m3 = choose|m3: Seq<(Seq<char>, Seq<char>)>|
                                es2 == done + m3 && m3.len() > 0 && text@.subrange(
                                    cur as int,
                                    n as int,
                                ) == #[trigger] enc_entry(m3[0].0, m3[0].1) + (enc_more(
                                    m3.drop_first(),
                                ) + seq!['}'] + text@.subrange(j2, n as int));
                            lemma_entry_residue(
                                text@,
                                cur as int,
                                m3[0].0,
                                m3[0].1,
                                enc_more(m3.drop_first()) + seq!['}'] + text@.subrange(
                                    j2,
                                    n as int,
                                ),
                            );
                            assert(m3[0].0 == key@ && cur as int + 2 + esc_str(key@).len()
                                == c1 as int);
                        }
                    }
                }
                return Err(e);
            },
        };
        let ghost kview = key@;
        let ghost vview = val@;
        emails.push((Email(key), Note(val)));
        proof {
            assert(entries_of(emails@) =~= done.push((kview, vview)));
            lemma_concat_last(text@, c0 as int, c1 as int, esc_str(kview), '"');
            lemma_concat_last(text@, c3 as int, c4 as int, esc_str(vview), '"');
            assert(text@.subrange(cur as int, c4 as int) =~= seq![text@[cur as int]]
                + text@.subrange(c0 as int, c1 as int - 1) + seq![
                text@[c1 as int - 1],
                text@[c1 as int],
                text@[c2 as int],
            ] + text@.subrange(c3 as int, c4 as int - 1) + seq![text@[c4 as int - 1]]);
            assert(text@.subrange(cur as int, c4 as int) == enc_entry(kview, vview));
            assert(text@.subrange(start as int, c4 as int) =~= text@.subrange(
                start as int,
                cur as int,
            ) + text@.subrange(cur as int, c4 as int));
            lemma_enc_entries_snoc(done, kview, vview);
            assert(text@.subrange(start as int, c4 as int) =~= enc_entries(entries_of(emails@)));
            assert forall|a: int, b: int|
                0 <= a < b < emails@.len() implies entries_of(emails@)[a].0 != entries_of(
                emails@,
            )[b].0 by {
                if b == done.len() && done[a].0 == kview {
                    assert(has_key(done, kview));
                }
            }
        }
        if c4 >= n {
            proof {
                assert forall|es2: Seq<(Seq<char>, Seq<char>)>, j2: int|
                    entries_ok(es2) implies !entries_at(text@, start as int, es2, j2) by {
                    if entries_at(text@, start as int, es2, j2) {
                        lemma_entry_obstruction(text@, start as int, done, cur as int, es2, j2);
                        let m3 = choose|m3: Seq<(Seq<char>, Seq<char>)>|
                            es2 == done + m3 && m3.len() > 0 && text@.subrange(
                                cur as int,
                                n as int,
                            ) == #[trigger] enc_entry(m3[0].0, m3[0].1) + (enc_more(
                                m3.drop_first(),
                            ) + seq!['}'] + text@.subrange(j2, n as int));
                        let tl = enc_more(m3.drop_first()) + seq!['}'] + text@.subrange(
                            j2,
                            n as int,
                        );
                        lemma_entry_residue(text@, cur as int, m3[0].0, m3[0].1, tl);
                        assert(m3[0].0 == kview && m3[0].1 == vview && cur as int + 5 + esc_str(
                            kview,
                        ).len() + esc_str(vview).len() == c4 as int);
                        assert(text@.subrange(c4 as int, n as int) == tl);
                        assert(tl.len() >= 1);
                        assert(c4 < n);
                    }
                }
            }
            return Err(StoreError::Decode);
        }
        let sep = text.get_char(c4);
        if sep == ',' {
            proof {
                assert(text@.subrange(start as int, (c4 + 1) as int) =~= enc_entries(
                    entries_of(emails@),
                ) + seq![',']);
            }
            cur = c4 + 1;
        } else if sep == '}' {
            proof {
                assert(text@.subrange(start as int, (c4 + 1) as int) =~= enc_entries(
                    entries_of(emails@),
                ) + seq!['}']);
                assert(entries_at(
                    text@,
                    start as int,
                    entries_of(emails@),
                    c4 as int + 1,
                ));
                assert forall|es2: Seq<(Seq<char>, Seq<char>)>, j2: int|
                    entries_at(text@, start as int, es2, j2) implies es2 == entries_of(emails@)
                    && j2 == c4 as int + 1 by {
                    lemma_entries_unique(
                        text@,
                        start as int,
                        entries_of(emails@),
                        c4 as int + 1,
                        es2,
                        j2,
                    );
                }
            }
            return Ok((emails, c4 + 1));
        } else {
            proof {
                assert forall|es2: Seq<(Seq<char>, Seq<char>)>, j2: int|
                    entries_ok(es2) implies !entries_at(text@, start as int, es2, j2) by {
                    if entries_at(text@, start as int, es2, j2) {
                        lemma_entry_obstruction(text@, start as int, done, cur as int, es2, j2);
                        let m3 = choose|m3: Seq<(Seq<char>, Seq<char>)>|
                            es2 == done + m3 && m3.len() > 0 && text@.subrange(
                                cur as int,
                                n as int,
                            ) == #[trigger] enc_entry(m3[0].0, m3[0].1) + (enc_more(
                                m3.drop_first(),
                            ) + seq!['}'] + text@.subrange(j2, n as int));
                        let tl = enc_more(m3.drop_first()) + seq!['}'] + text@.subrange(
                            j2,
                            n as int,
                        );
                        lemma_entry_residue(text@, cur as int, m3[0].0, m3[0].1, tl);
                        assert(m3[0].0 == kview && m3[0].1 == vview && cur as int + 5 + esc_str(
                            kview,
                        ).len() + esc_str(vview).len() == c4 as int);
                        assert(text@.subrange(c4 as int, n as int) == tl);
                        if m3.drop_first().len() == 0 {
                            assert(enc_more(m3.drop_first()) == Seq::<char>::empty());
                            assert(tl =~= seq!['}'] + text@.subrange(j2, n as int));
                            assert(text@[c4 as int] == tl[0]);
                            assert(tl[0] == '}');
                        } else {
                            assert(enc_more(m3.drop_first()) == seq![','] + enc_entry(
                                m3.drop_first()[0].0,
                                m3.drop_first()[0].1,
                            ) + enc_more(m3.drop_first().drop_first()));
                            assert(text@[c4 as int] == tl[0]);
                            assert(tl[0] == enc_more(m3.drop_first())[0]);
                            assert(tl[0] == ',');
                        }
                        assert(false);
                    }
                }
            }
            return Err(StoreError::Decode);
        }
    }
}


/// The positions of each piece inside a canonical document text.
proof fn lemma_doc_residue(s: Seq<char>, tok: Seq<char>, es: Seq<(Seq<char>, Seq<char>)>)
    requires
        s == enc_doc(tok, es),
    ensures
        ({
            let h = "{\"access_token\":\""@.len() as int;
            let i1 = h + esc_str(tok).len() + 1;
            let i2 = i1 + ",\"emails\":{"@.len() as int;
            let i3 = i2 + enc_entries(es).len() + 1;
            &&& s.len() == i3 + 1
            &&& s.subrange(0, h) == "{\"access_token\":\""@
            &&& strbody_at(s, h, tok, i1)
            &&& s.subrange(i1, i2) == ",\"emails\":{"@
            &&& entries_at(s, i2, es, i3)
            &&& s[i3] == '}'
        }),
{
    let h = "{\"access_token\":\""@.len() as int;
    let i1 = h + esc_str(tok).len() + 1;
    let i2 = i1 + ",\"emails\":{"@.len() as int;
    let i3 = i2 + enc_entries(es).len() + 1;
    let r1 = (esc_str(tok) + seq!['"']) + (",\"emails\":{"@ + ((enc_entries(es) + seq!['}'])
        + seq!['}']));
    assert(s =~= "{\"access_token\":\""@ + r1);
    assert(s.subrange(0, s.len() as int) =~= s);
    lemma_prefix_extract(s, 0, "{\"access_token\":\""@, r1);
    let r2 = ",\"emails\":{"@ + ((enc_entries(es) + seq!['}']) + seq!['}']);
    lemma_prefix_extract(s, h, esc_str(tok) + seq!['"'], r2);
    let r3 = (enc_entries(es) + seq!['}']) + seq!['}'];
    lemma_prefix_extract(s, i1, ",\"emails\":{"@, r3);
    lemma_prefix_extract(s, i2, enc_entries(es) + seq!['}'], seq!['}']);
    assert(s.subrange(i3, s.len() as int)[0] == s[i3]);
}

/// Parses the canonical persisted text into a document.  A text is accepted
/// only when it is exactly the canonical encoding of the returned document,
/// so replacing the text with the re-encoded document leaves it unchanged;
/// and every canonical encoding of a well-formed document is accepted.
pub fn parse_config(text: &str) -> (r: Result<Config, StoreError>)
    ensures
        r matches Ok(cfg) ==> cfg.wf() && text@ == enc_doc(cfg.token(), cfg.entries()),
        r is Ok <==> doc_at(text@),
{
    let n = text.unicode_len();
    let i0 = match expect_lit(text, 0, n, "{\"access_token\":\"") {
        Some(j) => j,
        None => {
            proof {
                assert forall|tok2: Seq<char>, es2: Seq<(Seq<char>, Seq<char>)>|
                    !(entries_ok(es2) && text@ == #[trigger] enc_doc(tok2, es2)) by {
                    if entries_ok(es2) && text@ == enc_doc(tok2, es2) {
                        lemma_doc_residue(text@, tok2, es2);
                    }
                }
                assert(!doc_at(text@));
            }
            return Err(StoreError::Decode);
        },
    };
    let (token, i1) = match parse_string_body(text, i0, n) {
        Ok(p) => p,
        Err(e) => {
            proof {
                assert forall|tok2: Seq<char>, es2: Seq<(Seq<char>, Seq<char>)>|
                    !(entries_ok(es2) && text@ == #[trigger] enc_doc(tok2, es2)) by {
                    if entries_ok(es2) && text@ == enc_doc(tok2, es2) {
                        lemma_doc_residue(text@, tok2, es2);
                    }
                }
                assert(!doc_at(text@));
            }
            return Err(e);
        },
    };
    let i2 = match expect_lit(text, i1, n, ",\"emails\":{") {
        Some(j) => j,
        None => {
            proof {
                assert forall|tok2: Seq<char>, es2: Seq<(Seq<char>, Seq<char>)>|
                    !(entries_ok(es2) && text@ == #[trigger] enc_doc(tok2, es2)) by {
                    if entries_ok(es2) && text@ == enc_doc(tok2, es2) {
                        lemma_doc_residue(text@, tok2, es2);
                        assert(tok2 == token@ && "{\"access_token\":\""@.len() + esc_str(
                            tok2,
                        ).len() + 1 == i1 as int);
                    }
                }
                assert(!doc_at(text@));
            }
            return Err(StoreError::Decode);
        },
    };
    let (emails, i3) = match parse_entries(text, i2, n) {
        Ok(p) => p,
        Err(e) => {
            proof {
                assert forall|tok2: Seq<char>, es2: Seq<(Seq<char>, Seq<char>)>|
                    !(entries_ok(es2) && text@ == #[trigger] enc_doc(tok2, es2)) by {
                    if entries_ok(es2) && text@ == enc_doc(tok2, es2) {
                        lemma_doc_residue(text@, tok2, es2);
                        assert(tok2 == token@ && "{\"access_token\":\""@.len() + esc_str(
                            tok2,
                        ).len() + 1 == i1 as int);
                    }
                }
                assert(!doc_at(text@));
            }
            return Err(e);
        },
    };
    let i4 = match expect_char(text, i3, n, '}') {
        Some(j) => j,
        None => {
            proof {
                assert forall|tok2: Seq<char>, es2: Seq<(Seq<char>, Seq<char>)>|
                    !(entries_ok(es2) && text@ == #[trigger] enc_doc(tok2, es2)) by {
                    if entries_ok(es2) && text@ == enc_doc(tok2, es2) {
                        lemma_doc_residue(text@, tok2, es2);
                        assert(tok2 == token@ && "{\"access_token\":\""@.len() + esc_str(
                            tok2,
                        ).len() + 1 == i1 as int);
                        assert(es2 == entries_of(emails@) && i1 as int + ",\"emails\":{"@.len()
                            + enc_entries(es2).len() + 1 == i3 as int);
                    }
                }
                assert(!doc_at(text@));
            }
            return Err(StoreError::Decode);
        },
    };
    if i4 != n {
        proof {
            assert forall|tok2: Seq<char>, es2: Seq<(Seq<char>, Seq<char>)>|
                !(entries_ok(es2) && text@ == #[trigger] enc_doc(tok2, es2)) by {
                if entries_ok(es2) && text@ == enc_doc(tok2, es2) {
                    lemma_doc_residue(text@, tok2, es2);
                    assert(tok2 == token@ && "{\"access_token\":\""@.len() + esc_str(
                        tok2,
                    ).len() + 1 == i1 as int);
                    assert(es2 == entries_of(emails@) && i1 as int + ",\"emails\":{"@.len()
                        + enc_entries(es2).len() + 1 == i3 as int);
                }
            }
            assert(!doc_at(text@));
        }
        return Err(StoreError::Decode);
    }
    let cfg = Config { access_token: token, emails };
    proof {
        lemma_concat_last(text@, i0 as int, i1 as int, esc_str(cfg.token()), '"');
        lemma_concat_last(text@, i2 as int, i3 as int, enc_entries(cfg.entries()), '}');
        assert(text@ =~= text@.subrange(0, n as int));
        assert(text@.subrange(0, n as int) =~= text@.subrange(0, i0 as int) + text@.subrange(
            i0 as int,
            i1 as int - 1,
        ) + seq![text@[i1 as int - 1]] + text@.subrange(i1 as int, i2 as int) + text@.subrange(
            i2 as int,
            i3 as int - 1,
        ) + seq![text@[i3 as int - 1], text@[i3 as int]]);
        assert(text@ == enc_doc(cfg.token(), cfg.entries()));
        assert(entries_ok(cfg.entries()));
        assert(doc_at(text@));
    }
    Ok(cfg)
}

/// An escaped string terminated by its closing quote determines the string
/// and whatever follows the quote.
proof fn lemma_esc_str_term_inj(t1: Seq<char>, t2: Seq<char>, x1: Seq<char>, x2: Seq<char>)
    requires
        esc_str(t1) + seq!['"'] + x1 == esc_str(t2) + seq!['"'] + x2,
    ensures
        t1 == t2,
        x1 == x2,
    decreases t1.len(),
{
    if t1.len() == 0 && t2.len() == 0 {
        assert(esc_str(t1) == Seq::<char>::empty());
        assert(esc_str(t2) == Seq::<char>::empty());
        assert(esc_str(t1) + seq!['"'] + x1 =~= seq!['"'] + x1);
        assert(esc_str(t2) + seq!['"'] + x2 =~= seq!['"'] + x2);
        lemma_concat_cancel(seq!['"'], x1, x2);
        assert(t1 =~= t2);
    } else if t1.len() == 0 {
        let s = esc_str(t1) + seq!['"'] + x1;
        assert(esc_str(t1) == Seq::<char>::empty());
        assert(s =~= seq!['"'] + x1);
        assert(s[0] == '"');
        assert(esc_str(t2) == esc(t2[0]) + esc_str(t2.drop_first()));
        lemma_esc_head_not_quote(t2[0]);
        assert(esc_str(t2).len() >= 1);
        assert(s[0] == esc_str(t2)[0]);
        assert(esc_str(t2)[0] == esc(t2[0])[0]);
        assert(false);
    } else if t2.len() == 0 {
        let s = esc_str(t2) + seq!['"'] + x2;
        assert(esc_str(t2) == Seq::<char>::empty());
        assert(s =~= seq!['"'] + x2);
        assert(s[0] == '"');
        assert(esc_str(t1) == esc(t1[0]) + esc_str(t1.drop_first()));
        lemma_esc_head_not_quote(t1[0]);
        assert(esc_str(t1).len() >= 1);
        assert(s[0] == esc_str(t1)[0]);
        assert(esc_str(t1)[0] == esc(t1[0])[0]);
        assert(false);
    } else {
        assert(esc_str(t1) == esc(t1[0]) + esc_str(t1.drop_first()));
        assert(esc_str(t2) == esc(t2[0]) + esc_str(t2.drop_first()));
        assert(esc_str(t1) + seq!['"'] + x1 =~= esc(t1[0]) + (esc_str(t1.drop_first())
            + seq!['"'] + x1));
        assert(esc_str(t2) + seq!['"'] + x2 =~= esc(t2[0]) + (esc_str(t2.drop_first())
            + seq!['"'] + x2));
        lemma_esc_head(
            t1[0],
            t2[0],
            esc_str(t1.drop_first()) + seq!['"'] + x1,
            esc_str(t2.drop_first()) + seq!['"'] + x2,
        );
        lemma_esc_str_term_inj(t1.drop_first(), t2.drop_first(), x1, x2);
        assert forall|j: int| 0 <= j < t1.len() implies t1[j] == t2[j] by {
            if j > 0 {
                assert(t1.drop_first()[j - 1] == t1[j]);
                assert(t2.drop_first()[j - 1] == t2[j]);
            }
        }
        assert(t1 =~= t2);
    }
}

/// One encoded entry at the head of a stream determines its alias, its note,
/// and the rest of the stream.
proof fn lemma_entry_chunk(
    k1: Seq<char>,
    v1: Seq<char>,
    w1: Seq<char>,
    k2: Seq<char>,
    v2: Seq<char>,
    w2: Seq<char>,
)
    requires
        enc_entry(k1, v1) + w1 == enc_entry(k2, v2) + w2,
    ensures
        k1 == k2,
        v1 == v2,
        w1 == w2,
{
    let a1 = esc_str(k1) + seq!['"'] + (seq![':', '"'] + (esc_str(v1) + seq!['"'] + w1));
    let a2 = esc_str(k2) + seq!['"'] + (seq![':', '"'] + (esc_str(v2) + seq!['"'] + w2));
    assert(enc_entry(k1, v1) + w1 =~= seq!['"'] + a1);
    assert(enc_entry(k2, v2) + w2 =~= seq!['"'] + a2);
    lemma_concat_cancel(seq!['"'], a1, a2);
    lemma_esc_str_term_inj(
        k1,
        k2,
        seq![':', '"'] + (esc_str(v1) + seq!['"'] + w1),
        seq![':', '"'] + (esc_str(v2) + seq!['"'] + w2),
    );
    lemma_concat_cancel(
        seq![':', '"'],
        esc_str(v1) + seq!['"'] + w1,
        esc_str(v2) + seq!['"'] + w2,
    );
    lemma_esc_str_term_inj(v1, v2, w1, w2);
}

/// The encoded later entries terminated by the closing brace determine the
/// entries and whatever follows the brace.
proof fn lemma_enc_more_term_inj(
    m1: Seq<(Seq<char>, Seq<char>)>,
    m2: Seq<(Seq<char>, Seq<char>)>,
    x1: Seq<char>,
    x2: Seq<char>,
)
    requires
        enc_more(m1) + seq!['}'] + x1 == enc_more(m2) + seq!['}'] + x2,
    ensures
        m1 == m2,
        x1 == x2,
    decreases m1.len(),
{
    if m1.len() == 0 && m2.len() == 0 {
        assert(enc_more(m1) == Seq::<char>::empty());
        assert(enc_more(m2) == Seq::<char>::empty());
        assert(enc_more(m1) + seq!['}'] + x1 =~= seq!['}'] + x1);
        assert(enc_more(m2) + seq!['}'] + x2 =~= seq!['}'] + x2);
        lemma_concat_cancel(seq!['}'], x1, x2);
        assert(m1 =~= m2);
    } else if m1.len() == 0 {
        let s = enc_more(m1) + seq!['}'] + x1;
        assert(enc_more(m1) == Seq::<char>::empty());
        assert(s =~= seq!['}'] + x1);
        assert(s[0] == '}');
        assert(enc_more(m2) == seq![','] + enc_entry(m2[0].0, m2[0].1) + enc_more(
            m2.drop_first(),
        ));
        assert(enc_more(m2)[0] == ',');
        assert(s[0] == enc_more(m2)[0]);
        assert(false);
    } else if m2.len() == 0 {
        let s = enc_more(m2) + seq!['}'] + x2;
        assert(enc_more(m2) == Seq::<char>::empty());
        assert(s =~= seq!['}'] + x2);
        assert(s[0] == '}');
        assert(enc_more(m1) == seq![','] + enc_entry(m1[0].0, m1[0].1) + enc_more(
            m1.drop_first(),
        ));
        assert(enc_more(m1)[0] == ',');
        assert(s[0] == enc_more(m1)[0]);
        assert(false);
    } else {
        assert(enc_more(m1) == seq![','] + enc_entry(m1[0].0, m1[0].1) + enc_more(
            m1.drop_first(),
        ));
        assert(enc_more(m2) == seq![','] + enc_entry(m2[0].0, m2[0].1) + enc_more(
            m2.drop_first(),
        ));
        assert(enc_more(m1) + seq!['}'] + x1 =~= seq![','] + (enc_entry(m1[0].0, m1[0].1)
            + (enc_more(m1.drop_first()) + seq!['}'] + x1)));
        assert(enc_more(m2) + seq!['}'] + x2 =~= seq![','] + (enc_entry(m2[0].0, m2[0].1)
            + (enc_more(m2.drop_first()) + seq!['}'] + x2)));
        lemma_concat_cancel(
            seq![','],
            enc_entry(m1[0].0, m1[0].1) + (enc_more(m1.drop_first()) + seq!['}'] + x1),
            enc_entry(m2[0].0, m2[0].1) + (enc_more(m2.drop_first()) + seq!['}'] + x2),
        );
        lemma_entry_chunk(
            m1[0].0,
            m1[0].1,
            enc_more(m1.drop_first()) + seq!['}'] + x1,
            m2[0].0,
            m2[0].1,
            enc_more(m2.drop_first()) + seq!['}'] + x2,
        );
        lemma_enc_more_term_inj(m1.drop_first(), m2.drop_first(), x1, x2);
        assert forall|j: int| 0 <= j < m1.len() implies m1[j] == m2[j] by {
            if j == 0 {
                assert(m1[0] == (m1[0].0, m1[0].1));
                assert(m2[0] == (m2[0].0, m2[0].1));
            } else {
                assert(m1.drop_first()[j - 1] == m1[j]);
                assert(m2.drop_first()[j - 1] == m2[j]);
            }
        }
        assert(m1 =~= m2);
    }
}

/// The encoded entries terminated by the closing brace determine the entries
/// and whatever follows the brace.
proof fn lemma_enc_entries_term_inj(
    e1: Seq<(Seq<char>, Seq<char>)>,
    e2: Seq<(Seq<char>, Seq<char>)>,
    x1: Seq<char>,
    x2: Seq<char>,
)
    requires
        enc_entries(e1) + seq!['}'] + x1 == enc_entries(e2) + seq!['}'] + x2,
    ensures
        e1 == e2,
        x1 == x2,
{
    if e1.len() == 0 && e2.len() == 0 {
        assert(enc_entries(e1) == Seq::<char>::empty());
        assert(enc_entries(e2) == Seq::<char>::empty());
        assert(enc_entries(e1) + seq!['}'] + x1 =~= seq!['}'] + x1);
        assert(enc_entries(e2) + seq!['}'] + x2 =~= seq!['}'] + x2);
        lemma_concat_cancel(seq!['}'], x1, x2);
        assert(e1 =~= e2);
    } else if e1.len() == 0 {
        let s = enc_entries(e1) + seq!['}'] + x1;
        assert(enc_entries(e1) == Seq::<char>::empty());
        assert(s =~= seq!['}'] + x1);
        assert(s[0] == '}');
        assert(enc_entries(e2) == enc_entry(e2[0].0, e2[0].1) + enc_more(e2.drop_first()));
        assert(enc_entry(e2[0].0, e2[0].1)[0] == '"');
        assert(enc_entries(e2)[0] == '"');
        assert(s[0] == enc_entries(e2)[0]);
        assert(false);
    } else if e2.len() == 0 {
        let s = enc_entries(e2) + seq!['}'] + x2;
        assert(enc_entries(e2) == Seq::<char>::empty());
        assert(s =~= seq!['}'] + x2);
        assert(s[0] == '}');
        assert(enc_entries(e1) == enc_entry(e1[0].0, e1[0].1) + enc_more(e1.drop_first()));
        assert(enc_entry(e1[0].0, e1[0].1)[0] == '"');
        assert(enc_entries(e1)[0] == '"');
        assert(s[0] == enc_entries(e1)[0]);
        assert(false);
    } else {
        assert(enc_entries(e1) == enc_entry(e1[0].0, e1[0].1) + enc_more(e1.drop_first()));
        assert(enc_entries(e2) == enc_entry(e2[0].0, e2[0].1) + enc_more(e2.drop_first()));
        assert(enc_entries(e1) + seq!['}'] + x1 =~= enc_entry(e1[0].0, e1[0].1) + (enc_more(
            e1.drop_first(),
        ) + seq!['}'] + x1));
        assert(enc_entries(e2) + seq!['}'] + x2 =~= enc_entry(e2[0].0, e2[0].1) + (enc_more(
            e2.drop_first(),
        ) + seq!['}'] + x2));
        lemma_entry_chunk(
            e1[0].0,
            e1[0].1,
            enc_more(e1.drop_first()) + seq!['}'] + x1,
            e2[0].0,
            e2[0].1,
            enc_more(e2.drop_first()) + seq!['}'] + x2,
        );
        lemma_enc_more_term_inj(e1.drop_first(), e2.drop_first(), x1, x2);
        assert forall|j: int| 0 <= j < e1.len() implies e1[j] == e2[j] by {
            if j == 0 {
                assert(e1[0] == (e1[0].0, e1[0].1));
                assert(e2[0] == (e2[0].0, e2[0].1));
            } else {
                assert(e1.drop_first()[j - 1] == e1[j]);
                assert(e2.drop_first()[j - 1] == e2[j]);
            }
        }
        assert(e1 =~= e2);
    }
}

/// The canonical text determines the document: equal persisted texts carry
/// the same credential and the same entries.  Together with the contracts of
/// the encoder and the parser, a load of a replaced document can only return
/// that document.
pub proof fn lemma_enc_doc_injective(
    t1: Seq<char>,
    e1: Seq<(Seq<char>, Seq<char>)>,
    t2: Seq<char>,
    e2: Seq<(Seq<char>, Seq<char>)>,
)
    requires
        enc_doc(t1, e1) == enc_doc(t2, e2),
    ensures
        t1 == t2,
        e1 == e2,
{
    let a1 = esc_str(t1) + seq!['"'] + (",\"emails\":{"@ + (enc_entries(e1) + seq!['}']
        + seq!['}']));
    let a2 = esc_str(t2) + seq!['"'] + (",\"emails\":{"@ + (enc_entries(e2) + seq!['}']
        + seq!['}']));
    assert(enc_doc(t1, e1) =~= "{\"access_token\":\""@ + a1);
    assert(enc_doc(t2, e2) =~= "{\"access_token\":\""@ + a2);
    lemma_concat_cancel("{\"access_token\":\""@, a1, a2);
    lemma_esc_str_term_inj(
        t1,
        t2,
        ",\"emails\":{"@ + (enc_entries(e1) + seq!['}'] + seq!['}']),
        ",\"emails\":{"@ + (enc_entries(e2) + seq!['}'] + seq!['}']),
    );
    lemma_concat_cancel(
        ",\"emails\":{"@,
        enc_entries(e1) + seq!['}'] + seq!['}'],
        enc_entries(e2) + seq!['}'] + seq!['}'],
    );
    lemma_enc_entries_term_inj(e1, e2, seq!['}'], seq!['}']);
}

} // verus!
