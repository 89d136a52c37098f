//! String utilities: lexicographic ordering on character sequences, exact
//! prefix/suffix key matching, and decimal port parsing.

use vstd::prelude::*;
use vstd::string::StrSliceExecFns;
use vstd::string::StringExecFns;

verus! {

/// Strict lexicographic order on character sequences, comparing scalar values
/// position by position; a proper prefix precedes any extension of it.
pub open spec fn lex_lt(a: Seq<char>, b: Seq<char>) -> bool
    decreases a.len(),
{
    if b.len() == 0 {
        false
    } else if a.len() == 0 {
        true
    } else if (a[0] as u32) < (b[0] as u32) {
        true
    } else if a[0] == b[0] {
        lex_lt(a.drop_first(), b.drop_first())
    } else {
        false
    }
}

pub open spec fn lex_leq(a: Seq<char>, b: Seq<char>) -> bool {
    lex_lt(a, b) || a == b
}

pub proof fn lemma_lex_lt_irreflexive(a: Seq<char>)
    ensures
        !lex_lt(a, a),
    decreases a.len(),
{
    if a.len() > 0 {
        lemma_lex_lt_irreflexive(a.drop_first());
    }
}

pub proof fn lemma_lex_lt_connected(a: Seq<char>, b: Seq<char>)
    ensures
        lex_lt(a, b) || lex_lt(b, a) || a == b,
    decreases a.len(),
{
    if a.len() == 0 {
        if b.len() == 0 {
            assert(a =~= b);
        }
    } else if b.len() == 0 {
        assert(lex_lt(b, a));
    } else if a[0] != b[0] {
        assert((a[0] as u32) != (b[0] as u32)) by {
            vstd::utf8::char_u32_cast(a[0], a[0] as u32);
            vstd::utf8::char_u32_cast(b[0], b[0] as u32);
        }
    } else if b.len() > 0 && a[0] == b[0] {
        lemma_lex_lt_connected(a.drop_first(), b.drop_first());
        if !lex_lt(a, b) && !lex_lt(b, a) {
            assert(a.drop_first() =~= b.drop_first());
            assert forall|i: int| 1 <= i < a.len() implies a[i] == b[i] by {
                assert(a[i] == a.drop_first()[i - 1]);
                assert(b[i] == b.drop_first()[i - 1]);
            }
            assert(a =~= b);
        }
    }
}

pub proof fn lemma_lex_lt_transitive(a: Seq<char>, b: Seq<char>, c: Seq<char>)
    requires
        lex_lt(a, b),
        lex_lt(b, c),
    ensures
        lex_lt(a, c),
    decreases a.len(),
{
    if a.len() == 0 {
    } else if b.len() > 0 && c.len() > 0 && a[0] == b[0] && b[0] == c[0] {
        lemma_lex_lt_transitive(a.drop_first(), b.drop_first(), c.drop_first());
    }
}

/// Lexicographic order cannot hold in both directions at once.
pub proof fn lemma_lex_lt_asymmetric(a: Seq<char>, b: Seq<char>)
    requires
        lex_lt(a, b),
    ensures
        !lex_lt(b, a),
{
    if lex_lt(b, a) {
        lemma_lex_lt_transitive(a, b, a);
        lemma_lex_lt_irreflexive(a);
    }
}

/// Exact comparison of two strings in the lexicographic order above.
pub fn str_lt(a: &str, b: &str) -> (r: bool)
    ensures
        r == lex_lt(a@, b@),
{
    let an = a.unicode_len();
    let bn = b.unicode_len();
    let n = if an < bn {
        an
    } else {
        bn
    };
    let mut i: usize = 0;
    proof {
        assert(a@.skip(0) =~= a@);
        assert(b@.skip(0) =~= b@);
    }
    while i < n
        invariant
            i <= n,
            an == a@.len(),
            bn == b@.len(),
            n == if an < bn {
                an
            } else {
                bn
            },
            lex_lt(a@, b@) == lex_lt(a@.skip(i as int), b@.skip(i as int)),
        decreases n - i,
    {
        let ca = a.get_char(i);
        let cb = b.get_char(i);
        proof {
            assert(a@.skip(i as int).len() > 0);
            assert(b@.skip(i as int).len() > 0);
            assert(a@.skip(i as int)[0] == a@[i as int]);
            assert(b@.skip(i as int)[0] == b@[i as int]);
        }
        if (ca as u32) < (cb as u32) {
            return true;
        }
        if ca != cb {
            return false;
        }
        proof {
            assert(a@.skip(i as int).drop_first() =~= a@.skip(i + 1));
            assert(b@.skip(i as int).drop_first() =~= b@.skip(i + 1));
        }
        i += 1;
    }
    proof {
        assert(a@.skip(i as int).len() == an - i);
        assert(b@.skip(i as int).len() == bn - i);
    }
    an < bn
}

/// Exact string equality at the character level.
pub fn str_eq_chars(a: &str, b: &str) -> (r: bool)
    ensures
        r == (a@ == b@),
{
    let lt1 = str_lt(a, b);
    let lt2 = str_lt(b, a);
    proof {
        lemma_lex_lt_connected(a@, b@);
        lemma_lex_lt_irreflexive(a@);
    }
    !lt1 && !lt2
}

/// A key matches when it is the prefix, a non-empty middle part, and the
/// suffix, concatenated in that order.
pub open spec fn matches_key(k: Seq<char>, pre: Seq<char>, suf: Seq<char>) -> bool {
    &&& k.len() > pre.len() + suf.len()
    &&& k.subrange(0, pre.len() as int) == pre
    &&& k.subrange(k.len() - suf.len(), k.len() as int) == suf
}

/// The captured middle part of a matching key.
pub open spec fn middle_of(k: Seq<char>, pre: Seq<char>, suf: Seq<char>) -> Seq<char> {
    k.subrange(pre.len() as int, k.len() - suf.len())
}

fn starts_with_chars(s: &str, pre: &str) -> (r: bool)
    ensures
        r == (s@.len() >= pre@.len() && s@.subrange(0, pre@.len() as int) == pre@),
{
    let sn = s.unicode_len();
    let pn = pre.unicode_len();
    if sn < pn {
        return false;
    }
    let mut i: usize = 0;
    while i < pn
        invariant
            i <= pn,
            pn <= sn,
            sn == s@.len(),
            pn == pre@.len(),
            forall|j: int| 0 <= j < i ==> s@[j] == pre@[j],
        decreases pn - i,
    {
        if s.get_char(i) != pre.get_char(i) {
            proof {
                assert(s@.subrange(0, pre@.len() as int)[i as int] == s@[i as int]);
            }
            return false;
        }
        i += 1;
    }
    proof {
        assert(s@.subrange(0, pre@.len() as int) =~= pre@);
    }
    true
}

fn ends_with_chars(s: &str, suf: &str) -> (r: bool)
    ensures
        r == (s@.len() >= suf@.len() && s@.subrange(s@.len() - suf@.len(), s@.len() as int)
            == suf@),
{
    let sn = s.unicode_len();
    let fn_ = suf.unicode_len();
    if sn < fn_ {
        return false;
    }
    let off = sn - fn_;
    let mut i: usize = 0;
    while i < fn_
        invariant
            i <= fn_,
            off == sn - fn_,
            fn_ <= sn,
            sn == s@.len(),
            fn_ == suf@.len(),
            forall|j: int| 0 <= j < i ==> s@[off + j] == suf@[j],
        decreases fn_ - i,
    {
        if s.get_char(off + i) != suf.get_char(i) {
            proof {
                assert(s@.subrange(s@.len() - suf@.len(), s@.len() as int)[i as int] == s@[off
                    + i]);
            }
            return false;
        }
        i += 1;
    }
    proof {
        assert(s@.subrange(s@.len() - suf@.len(), s@.len() as int) =~= suf@);
    }
    true
}

/// Returns the middle part of `k` when `k` is `pre`, a non-empty middle, and
/// `suf` concatenated; `None` otherwise.
pub fn capture_middle(k: &str, pre: &str, suf: &str) -> (r: Option<String>)
    ensures
        (r is Some) == matches_key(k@, pre@, suf@),
        r is Some ==> r->0@ == middle_of(k@, pre@, suf@),
{
    let kn = k.unicode_len();
    let pn = pre.unicode_len();
    let sn = suf.unicode_len();
    if kn > pn && kn - pn > sn && starts_with_chars(k, pre) && ends_with_chars(k, suf) {
        let mid = k.substring_char(pn, kn - sn);
        Some(String::from_str(mid))
    } else {
        None
    }
}

pub open spec fn is_dec_digit(c: char) -> bool {
    ('0' as u32) <= (c as u32) && (c as u32) <= ('9' as u32)
}

pub open spec fn digit_val(c: char) -> nat {
    ((c as int) - ('0' as int)) as nat
}

pub open spec fn all_dec_digits(s: Seq<char>) -> bool {
    forall|i: int| 0 <= i < s.len() ==> is_dec_digit(#[trigger] s[i])
}

/// Numeric value of a string of decimal digits, most significant first.
pub open spec fn dec_val(s: Seq<char>) -> nat
    decreases s.len(),
{
    if s.len() == 0 {
        0
    } else {
        dec_val(s.drop_last()) * 10 + digit_val(s.last())
    }
}

/// The digits of a decimal string after an optional leading plus sign.
pub open spec fn port_digits(s: Seq<char>) -> Seq<char> {
    if s.len() > 0 && s[0] == '+' {
        s.drop_first()
    } else {
        s
    }
}

/// Whether a label value parses as an unsigned 16-bit port: an optional plus
/// sign, then one or more decimal digits, with value at most 65535.
pub open spec fn is_port_string(s: Seq<char>) -> bool {
    &&& port_digits(s).len() > 0
    &&& all_dec_digits(port_digits(s))
    &&& dec_val(port_digits(s)) <= 65535
}

pub open spec fn port_val(s: Seq<char>) -> u16 {
    dec_val(port_digits(s)) as u16
}

/// Parses a port number exactly as the routing labels demand: decimal digits
/// after an optional plus sign, rejecting anything else and values above
/// the 16-bit range.
pub fn parse_port(s: &str) -> (r: Option<u16>)
    ensures
        (r is Some) == is_port_string(s@),
        r is Some ==> r->0 == port_val(s@),
{
    let n = s.unicode_len();
    if n == 0 {
        return None;
    }
    let start: usize = if s.get_char(0) == '+' {
        1
    } else {
        0
    };
    proof {
        if start == 1 {
            assert(port_digits(s@) =~= s@.skip(1));
        } else {
            assert(port_digits(s@) =~= s@.skip(0));
        }
    }
    if n == start {
        return None;
    }
    let mut i: usize = start;
    let mut acc: u32 = 0;
    let mut over: bool = false;
    while i < n
        invariant
            start <= i <= n,
            n == s@.len(),
            start < n,
            port_digits(s@) =~= s@.skip(start as int),
            forall|j: int| start <= j < i ==> is_dec_digit(#[trigger] s@[j]),
            !over ==> acc == dec_val(s@.subrange(start as int, i as int)) && acc <= 65535,
            over ==> dec_val(s@.subrange(start as int, i as int)) > 65535,
        decreases n - i,
    {
        let c = s.get_char(i);
        let cu = c as u32;
        if cu < 48 || cu > 57 {
            proof {
                assert(port_digits(s@)[i - start] == s@[i as int]);
            }
            return None;
        }
        let d = cu - 48;
        proof {
            let prev = s@.subrange(start as int, i as int);
            let cur = s@.subrange(start as int, i + 1);
            assert(cur.drop_last() =~= prev);
            assert(cur.last() == s@[i as int]);
            assert(d == digit_val(s@[i as int]));
        }
        if over || acc > 6553 || (acc == 6553 && d > 5) {
            over = true;
        } else {
            acc = acc * 10 + d;
        }
        i += 1;
    }
    proof {
        assert(s@.subrange(start as int, n as int) =~= s@.skip(start as int));
    }
    if over {
        None
    } else {
        Some(acc as u16)
    }
}

} // verus!
