//! Byte-level uppercase folding and the lexicographic order on byte strings.
//!
//! The identifier index file is sorted by the byte-wise uppercase form of each
//! line, so every comparison the search makes goes through these definitions.

use vstd::prelude::*;
use vstd::string::StrSliceExecFns;

verus! {

/// The newline byte that terminates each record of the index file.
pub const NL: u8 = 10;

/// The space byte that separates the fields of a record.
pub const SPACE: u8 = 32;

/// The sentinel appended to a needle to bisect past a prefix-equal run:
/// it sorts after every printable byte the index may hold.
pub const TILDE: u8 = 126;

/// ASCII uppercase folding of one byte; bytes outside `a..=z` are unchanged.
pub open spec fn upper_byte(b: u8) -> u8 {
    if 97 <= b && b <= 122 {
        (b - 32) as u8
    } else {
        b
    }
}

/// ASCII uppercase folding of a byte string.
pub open spec fn upper_seq(s: Seq<u8>) -> Seq<u8> {
    s.map_values(|b: u8| upper_byte(b))
}

/// Strict lexicographic order on byte strings, with the empty string first.
pub open spec fn lex_lt(a: Seq<u8>, b: Seq<u8>) -> bool
    decreases a.len(),
{
    if b.len() == 0 {
        false
    } else if a.len() == 0 {
        true
    } else if a[0] < b[0] {
        true
    } else if a[0] > b[0] {
        false
    } else {
        lex_lt(a.drop_first(), b.drop_first())
    }
}

/// Reflexive lexicographic order, defined from totality of `lex_lt`.
pub open spec fn lex_le(a: Seq<u8>, b: Seq<u8>) -> bool {
    !lex_lt(b, a)
}

/// `lex_lt` is a strict order: two strings are either ordered or equal.
pub proof fn lemma_lex_total(a: Seq<u8>, b: Seq<u8>)
    ensures
        lex_lt(a, b) || lex_lt(b, a) || a == b,
        !(lex_lt(a, b) && lex_lt(b, a)),
    decreases a.len(),
{
    if a.len() > 0 && b.len() > 0 && a[0] == b[0] {
        lemma_lex_total(a.drop_first(), b.drop_first());
        if !lex_lt(a, b) && !lex_lt(b, a) {
            assert(a =~= seq![a[0]] + a.drop_first());
            assert(b =~= seq![b[0]] + b.drop_first());
        }
    }
}

/// Transitivity of the strict lexicographic order.
pub proof fn lemma_lex_trans(a: Seq<u8>, b: Seq<u8>, c: Seq<u8>)
    requires
        lex_lt(a, b),
        lex_lt(b, c),
    ensures
        lex_lt(a, c),
    decreases a.len(),
{
    if a.len() > 0 && b.len() > 0 && c.len() > 0 && a[0] == b[0] && b[0] == c[0] {
        lemma_lex_trans(a.drop_first(), b.drop_first(), c.drop_first());
    }
}

/// Transitivity of the reflexive lexicographic order.
pub proof fn lemma_lex_le_trans(a: Seq<u8>, b: Seq<u8>, c: Seq<u8>)
    requires
        lex_le(a, b),
        lex_le(b, c),
    ensures
        lex_le(a, c),
{
    if lex_lt(c, a) {
        lemma_lex_total(a, b);
        if lex_lt(a, b) {
            lemma_lex_trans(c, a, b);
        }
    }
}

/// A prefix is never strictly above the string it opens.
pub proof fn lemma_prefix_le(a: Seq<u8>, b: Seq<u8>)
    requires
        a.is_prefix_of(b),
    ensures
        lex_le(a, b),
    decreases a.len(),
{
    if a.len() > 0 {
        assert(a.drop_first().is_prefix_of(b.drop_first()));
        lemma_prefix_le(a.drop_first(), b.drop_first());
    }
}

/// Between a key and the key with the sentinel appended lie exactly the
/// strings the key opens, provided the candidate's bytes stay below the
/// sentinel.
pub proof fn lemma_between_iff_prefix(k: Seq<u8>, l: Seq<u8>)
    requires
        forall|i: int| 0 <= i < l.len() ==> l[i] < 126,
    ensures
        (lex_le(k, l) && lex_le(l, k.push(126))) <==> k.is_prefix_of(l),
    decreases k.len(),
{
    if k.len() == 0 {
        if l.len() > 0 {
            assert(l[0] < 126);
        }
        assert(k.is_prefix_of(l)) by {
            assert(l.subrange(0, 0) =~= k);
        }
    } else if l.len() == 0 {
        assert(!k.is_prefix_of(l));
    } else if k[0] == l[0] {
        let kt = k.drop_first();
        let lt = l.drop_first();
        assert(forall|i: int| 0 <= i < lt.len() ==> lt[i] < 126);
        lemma_between_iff_prefix(kt, lt);
        assert(k.push(126).drop_first() =~= kt.push(126));
        assert(lex_lt(l, k) == lex_lt(lt, kt));
        assert(lex_lt(k.push(126), l) == lex_lt(kt.push(126), lt));
        assert(k.is_prefix_of(l) == kt.is_prefix_of(lt)) by {
            if kt.is_prefix_of(lt) {
                assert(kt =~= lt.subrange(0, kt.len() as int));
                assert forall|i: int| 0 <= i < k.len() implies k[i] == l.subrange(
                    0,
                    k.len() as int,
                )[i] by {
                    if i > 0 {
                        assert(kt[i - 1] == lt.subrange(0, kt.len() as int)[i - 1]);
                    }
                }
                assert(k =~= l.subrange(0, k.len() as int));
            }
            if k.is_prefix_of(l) {
                assert(k =~= l.subrange(0, k.len() as int));
                assert forall|i: int| 0 <= i < kt.len() implies kt[i] == lt.subrange(
                    0,
                    kt.len() as int,
                )[i] by {
                    assert(k[i + 1] == l.subrange(0, k.len() as int)[i + 1]);
                }
                assert(kt =~= lt.subrange(0, kt.len() as int));
            }
        }
    } else if k[0] < l[0] {
        assert(lex_lt(k.push(126), l));
        assert(!k.is_prefix_of(l)) by {
            if k.is_prefix_of(l) {
                assert(l.subrange(0, k.len() as int)[0] == l[0]);
            }
        }
    } else {
        assert(lex_lt(l, k));
        assert(!k.is_prefix_of(l)) by {
            if k.is_prefix_of(l) {
                assert(l.subrange(0, k.len() as int)[0] == l[0]);
            }
        }
    }
}

/// Exec uppercase folding, byte for byte, as the index build applied it.
pub fn uppercase(s: &[u8]) -> (r: Vec<u8>)
    ensures
        r@ == upper_seq(s@),
{
    let mut result: Vec<u8> = Vec::new();
    let mut i: usize = 0;
    while i < s.len()
        invariant
            i <= s@.len(),
            result@ == upper_seq(s@.take(i as int)),
        decreases s@.len() - i,
    {
        let b = s[i];
        if b >= 97 && b <= 122 {
            result.push(b - 32);
        } else {
            result.push(b);
        }
        proof {
            assert(upper_seq(s@.take(i + 1 as int)) =~= upper_seq(s@.take(i as int)).push(
                upper_byte(s@[i as int]),
            ));
        }
        i = i + 1;
    }
    proof {
        assert(s@.take(s@.len() as int) =~= s@);
    }
    result
}

/// Exec strict lexicographic comparison of two byte strings.
pub fn lex_less(a: &[u8], b: &[u8]) -> (r: bool)
    ensures
        r == lex_lt(a@, b@),
    decreases a@.len(),
{
    let mut i: usize = 0;
    proof {
        assert(a@.skip(0) =~= a@);
        assert(b@.skip(0) =~= b@);
    }
    loop
        invariant
            i <= a@.len(),
            i <= b@.len(),
            lex_lt(a@, b@) == lex_lt(a@.skip(i as int), b@.skip(i as int)),
        decreases a@.len() - i,
    {
        if i >= b.len() {
            return false;
        }
        if i >= a.len() {
            return true;
        }
        let x = a[i];
        let y = b[i];
        if x < y {
            return true;
        }
        if x > y {
            return false;
        }
        proof {
            assert(a@.skip(i as int).drop_first() =~= a@.skip(i + 1 as int));
            assert(b@.skip(i as int).drop_first() =~= b@.skip(i + 1 as int));
        }
        i = i + 1;
    }
}

/// Exec equality of two strings, character by character.
pub fn str_eq(a: &str, b: &str) -> (r: bool)
    ensures
        r == (a@ == b@),
{
    let an = a.unicode_len();
    let bn = b.unicode_len();
    if an != bn {
        return false;
    }
    let mut i: usize = 0;
    while i < an
        invariant
            an == a@.len() && bn == b@.len() && an == bn,
            i <= an,
            forall|k: int| 0 <= k < i ==> a@[k] == b@[k],
        decreases an - i,
    {
        if a.get_char(i) != b.get_char(i) {
            return false;
        }
        i = i + 1;
    }
    proof {
        assert(a@ =~= b@);
    }
    true
}

} // verus!
