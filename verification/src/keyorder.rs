//! Lexicographic order on byte strings: the order of user keys.
use vstd::prelude::*;

verus! {

/// Strict lexicographic order: `a` sorts before `b`.
pub open spec fn lex_lt(a: Seq<u8>, b: Seq<u8>) -> bool
    decreases a.len(),
{
    if b.len() == 0 {
        false
    } else if a.len() == 0 {
        true
    } else if a[0] < b[0] {
        true
    } else if a[0] > b[0] {
        false
    } else {
        lex_lt(a.subrange(1, a.len() as int), b.subrange(1, b.len() as int))
    }
}

/// Every pair of byte strings is ordered one way, equal, or ordered
/// the other way.
pub proof fn lemma_lex_total(a: Seq<u8>, b: Seq<u8>)
    ensures
        lex_lt(a, b) || lex_lt(b, a) || a == b,
    decreases a.len(),
{
    if b.len() == 0 || a.len() == 0 {
        if a.len() == 0 && b.len() == 0 {
            assert(a =~= b);
        }
    } else if a[0] == b[0] {
        let a1 = a.subrange(1, a.len() as int);
        let b1 = b.subrange(1, b.len() as int);
        lemma_lex_total(a1, b1);
        if !lex_lt(a, b) && !lex_lt(b, a) {
            assert(a1 == b1);
            assert forall|i: int| 0 <= i < a.len() implies a[i] == b[i] by {
                if i >= 1 {
                    assert(a[i] == a1[i - 1]);
                    assert(b[i] == b1[i - 1]);
                }
            }
            assert(a =~= b);
        }
    }
}

/// The order is irreflexive.
pub proof fn lemma_lex_irrefl(a: Seq<u8>)
    ensures
        !lex_lt(a, a),
    decreases a.len(),
{
    if a.len() > 0 {
        lemma_lex_irrefl(a.subrange(1, a.len() as int));
    }
}

/// The order is asymmetric.
pub proof fn lemma_lex_asym(a: Seq<u8>, b: Seq<u8>)
    requires
        lex_lt(a, b),
    ensures
        !lex_lt(b, a),
        a != b,
    decreases a.len(),
{
    lemma_lex_irrefl(a);
    if a.len() > 0 && b.len() > 0 && a[0] == b[0] {
        lemma_lex_asym(a.subrange(1, a.len() as int), b.subrange(1, b.len() as int));
    }
}

/// The order is transitive.
pub proof fn lemma_lex_trans(a: Seq<u8>, b: Seq<u8>, c: Seq<u8>)
    requires
        lex_lt(a, b),
        lex_lt(b, c),
    ensures
        lex_lt(a, c),
    decreases a.len() + b.len() + c.len(),
{
    if a.len() > 0 && b.len() > 0 && c.len() > 0 && a[0] == b[0] && b[0] == c[0] {
        lemma_lex_trans(
            a.subrange(1, a.len() as int),
            b.subrange(1, b.len() as int),
            c.subrange(1, c.len() as int),
        );
    }
}

/// Dropping an equal prefix of both strings keeps their order.
pub proof fn lemma_lex_skip(a: Seq<u8>, b: Seq<u8>, i: int)
    requires
        0 <= i <= a.len(),
        i <= b.len(),
        a.subrange(0, i) == b.subrange(0, i),
    ensures
        lex_lt(a, b) == lex_lt(a.subrange(i, a.len() as int), b.subrange(i, b.len() as int)),
    decreases i,
{
    if i == 0 {
        assert(a.subrange(0, a.len() as int) =~= a);
        assert(b.subrange(0, b.len() as int) =~= b);
    } else {
        let ap = a.subrange(0, i);
        let bp = b.subrange(0, i);
        assert(a[0] == ap[0] && b[0] == bp[0]);
        let a1 = a.subrange(1, a.len() as int);
        let b1 = b.subrange(1, b.len() as int);
        assert(a1.subrange(0, i - 1) =~= b1.subrange(0, i - 1)) by {
            assert(forall|j: int|
                0 <= j < i - 1 ==> a1.subrange(0, i - 1)[j] == a[j + 1] && #[trigger] b1.subrange(
                    0,
                    i - 1,
                )[j] == b[j + 1]);
            assert(forall|j: int|
                0 <= j < i - 1 ==> #[trigger] a[j + 1] == ap[j + 1] && b[j + 1] == bp[j + 1]);
        }
        lemma_lex_skip(a1, b1, i - 1);
        assert(a1.subrange(i - 1, a1.len() as int) =~= a.subrange(i, a.len() as int));
        assert(b1.subrange(i - 1, b1.len() as int) =~= b.subrange(i, b.len() as int));
    }
}

/// Non-strict lexicographic order.
pub open spec fn lex_le(a: Seq<u8>, b: Seq<u8>) -> bool {
    lex_lt(a, b) || a == b
}

/// How two keys compare.
#[derive(Clone, Copy, Debug, PartialEq, Eq)]
pub enum KeyOrd {
    Less,
    Equal,
    Greater,
}

/// Three-way comparison of two byte keys under the lexicographic
/// order.
pub fn key_cmp(a: &Vec<u8>, b: &Vec<u8>) -> (r: KeyOrd)
    ensures
        (r is Less) == lex_lt(a@, b@),
        (r is Equal) == (a@ == b@),
        (r is Greater) == lex_lt(b@, a@),
{
    let alen = a.len();
    let blen = b.len();
    let mut i: usize = 0;
    while i < alen && i < blen
        invariant
            i <= alen,
            i <= blen,
            alen == a@.len(),
            blen == b@.len(),
            a@.subrange(0, i as int) == b@.subrange(0, i as int),
        decreases alen - i,
    {
        let x = a[i];
        let y = b[i];
        proof {
            lemma_lex_skip(a@, b@, i as int);
        }
        if x < y {
            proof {
                assert(lex_lt(
                    a@.subrange(i as int, alen as int),
                    b@.subrange(i as int, blen as int),
                ));
                lemma_lex_asym(a@, b@);
            }
            return KeyOrd::Less;
        }
        if x > y {
            proof {
                lemma_lex_skip(b@, a@, i as int);
                assert(b@.subrange(0, i as int) =~= a@.subrange(0, i as int));
                assert(lex_lt(
                    b@.subrange(i as int, blen as int),
                    a@.subrange(i as int, alen as int),
                ));
                lemma_lex_asym(b@, a@);
            }
            return KeyOrd::Greater;
        }
        proof {
            assert forall|j: int|
                0 <= j < i + 1 implies a@.subrange(0, i + 1)[j] == #[trigger] b@.subrange(
                    0,
                    i + 1,
                )[j] by {
                if j < i {
                    assert(a@.subrange(0, i as int)[j] == b@.subrange(0, i as int)[j]);
                }
            }
            assert(a@.subrange(0, i + 1) =~= b@.subrange(0, i + 1));
        }
        i += 1;
    }
    proof {
        lemma_lex_skip(a@, b@, i as int);
    }
    if alen == blen {
        proof {
            assert forall|j: int| 0 <= j < a@.len() implies a@[j] == b@[j] by {
                assert(a@[j] == a@.subrange(0, i as int)[j]);
                assert(b@[j] == b@.subrange(0, i as int)[j]);
            }
            assert(a@ =~= b@);
            lemma_lex_irrefl(a@);
        }
        KeyOrd::Equal
    } else if alen < blen {
        proof {
            assert(lex_lt(a@.subrange(i as int, alen as int), b@.subrange(i as int, blen as int)));
            lemma_lex_asym(a@, b@);
        }
        KeyOrd::Less
    } else {
        proof {
            lemma_lex_skip(b@, a@, i as int);
            assert(b@.subrange(0, i as int) =~= a@.subrange(0, i as int));
            assert(lex_lt(b@.subrange(i as int, blen as int), a@.subrange(i as int, alen as int)));
            lemma_lex_asym(b@, a@);
        }
        KeyOrd::Greater
    }
}

/// True when the keys hold the same bytes.
pub fn key_eq(a: &Vec<u8>, b: &Vec<u8>) -> (r: bool)
    ensures
        r == (a@ == b@),
{
    match key_cmp(a, b) {
        KeyOrd::Equal => true,
        _ => false,
    }
}

/// `p` is a prefix of `s`.
pub open spec fn is_prefix_of(p: Seq<u8>, s: Seq<u8>) -> bool {
    p.len() <= s.len() && s.subrange(0, p.len() as int) == p
}

/// True when `p` is a prefix of `s`.
pub fn has_prefix(s: &Vec<u8>, p: &Vec<u8>) -> (r: bool)
    ensures
        r == is_prefix_of(p@, s@),
{
    if p.len() > s.len() {
        assert(!is_prefix_of(p@, s@));
        return false;
    }
    let mut i: usize = 0;
    while i < p.len()
        invariant
            i <= p@.len() <= s@.len(),
            forall|j: int| 0 <= j < i ==> s@[j] == p@[j],
        decreases p@.len() - i,
    {
        if s[i] != p[i] {
            assert(s@.subrange(0, p@.len() as int)[i as int] != p@[i as int]);
            return false;
        }
        i += 1;
    }
    assert(s@.subrange(0, p@.len() as int) =~= p@);
    true
}

} // verus!
