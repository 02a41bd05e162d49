//! Byte-sequence keys: lexicographic order and prefix encoding.
//!
//! Keys stored inside a node elide the shared prefix they have with the
//! node's low bound `lo`: an encoded key is one byte giving the number of
//! shared prefix bytes, followed by the remaining suffix. All comparisons
//! virtually restore the prefix before comparing.

use vstd::prelude::*;

verus! {

/// Strict lexicographic order on byte sequences.
pub open spec fn lex_lt(a: Seq<u8>, b: Seq<u8>) -> bool
    decreases a.len(),
{
    if b.len() == 0 {
        false
    } else if a.len() == 0 {
        true
    } else if a[0] < b[0] {
        true
    } else if a[0] > b[0] {
        false
    } else {
        lex_lt(a.skip(1), b.skip(1))
    }
}

/// Reflexive closure of [`lex_lt`].
pub open spec fn lex_le(a: Seq<u8>, b: Seq<u8>) -> bool {
    lex_lt(a, b) || a == b
}

/// Of two byte sequences, exactly one of `a < b`, `a == b`, `b < a` holds.
pub proof fn lemma_lex_trichotomy(a: Seq<u8>, b: Seq<u8>)
    ensures
        lex_lt(a, b) ==> !lex_lt(b, a) && a != b,
        lex_lt(b, a) ==> !lex_lt(a, b) && a != b,
        (!lex_lt(a, b) && !lex_lt(b, a)) ==> a == b,
    decreases a.len(),
{
    if a.len() > 0 && b.len() > 0 && a[0] == b[0] {
        lemma_lex_trichotomy(a.skip(1), b.skip(1));
        if a.skip(1) == b.skip(1) {
            assert forall|i: int| 0 <= i < a.len() implies a[i] == b[i] by {
                if i > 0 {
                    assert(a[i] == a.skip(1)[i - 1]);
                    assert(b[i] == b.skip(1)[i - 1]);
                }
            }
            assert(a =~= b);
        }
        if a == b {
            assert(a.skip(1) =~= b.skip(1));
        }
    }
}

/// Lexicographic order is transitive.
pub proof fn lemma_lex_lt_trans(a: Seq<u8>, b: Seq<u8>, c: Seq<u8>)
    requires
        lex_lt(a, b),
        lex_lt(b, c),
    ensures
        lex_lt(a, c),
    decreases a.len(),
{
    if b.len() == 0 {
        // lex_lt(b, c) forces c nonempty; lex_lt(a, b) is impossible
    } else if a.len() == 0 {
        // c nonempty because lex_lt(b, c) with b nonempty
    } else {
        if a[0] == b[0] && b[0] == c[0] {
            lemma_lex_lt_trans(a.skip(1), b.skip(1), c.skip(1));
        }
    }
}

/// Comparing sequences that agree on their first `i` bytes reduces to
/// comparing what is left after those bytes.
pub proof fn lemma_lex_skip(a: Seq<u8>, b: Seq<u8>, i: int)
    requires
        0 <= i <= a.len(),
        i <= b.len(),
        forall|j: int| 0 <= j < i ==> a[j] == b[j],
    ensures
        lex_lt(a, b) == lex_lt(a.skip(i), b.skip(i)),
    decreases i,
{
    if i == 0 {
        assert(a.skip(0) =~= a);
        assert(b.skip(0) =~= b);
    } else {
        lemma_lex_skip(a.skip(1), b.skip(1), i - 1);
        assert(a.skip(1).skip(i - 1) =~= a.skip(i));
        assert(b.skip(1).skip(i - 1) =~= b.skip(i));
    }
}

/// Outcome of a three-way key comparison.
#[derive(Clone, Copy, PartialEq, Eq, Structural, Debug)]
pub enum KeyOrd {
    Lt,
    Eq,
    Gt,
}

/// Three-way lexicographic comparison of two raw byte slices.
pub fn lex_cmp(a: &[u8], b: &[u8]) -> (o: KeyOrd)
    ensures
        (o == KeyOrd::Lt) <==> lex_lt(a@, b@),
        (o == KeyOrd::Gt) <==> lex_lt(b@, a@),
        (o == KeyOrd::Eq) <==> a@ == b@,
{
    let alen = a.len();
    let blen = b.len();
    let n = if alen < blen {
        alen
    } else {
        blen
    };
    let mut i: usize = 0;
    while i < n
        invariant
            0 <= i <= n,
            n <= a@.len(),
            n <= b@.len(),
            n == if a@.len() < b@.len() {
                a@.len()
            } else {
                b@.len()
            },
            forall|j: int| 0 <= j < i ==> a@[j] == b@[j],
        decreases n - i,
    {
        let ca = a[i];
        let cb = b[i];
        if ca < cb {
            proof {
                lemma_lex_skip(a@, b@, i as int);
                assert(lex_lt(a@.skip(i as int), b@.skip(i as int)));
                lemma_lex_trichotomy(a@, b@);
            }
            return KeyOrd::Lt;
        }
        if ca > cb {
            proof {
                lemma_lex_skip(b@, a@, i as int);
                assert(lex_lt(b@.skip(i as int), a@.skip(i as int)));
                lemma_lex_trichotomy(a@, b@);
            }
            return KeyOrd::Gt;
        }
        i += 1;
    }
    if alen < blen {
        proof {
            lemma_lex_skip(a@, b@, n as int);
            assert(a@.skip(n as int).len() == 0);
            assert(lex_lt(a@.skip(n as int), b@.skip(n as int)));
            lemma_lex_trichotomy(a@, b@);
        }
        KeyOrd::Lt
    } else if alen > blen {
        proof {
            lemma_lex_skip(b@, a@, n as int);
            assert(lex_lt(b@.skip(n as int), a@.skip(n as int)));
            lemma_lex_trichotomy(a@, b@);
        }
        KeyOrd::Gt
    } else {
        proof {
            assert(a@ =~= b@);
            lemma_lex_trichotomy(a@, b@);
        }
        KeyOrd::Eq
    }
}

/// An encoded key is well formed against a prefix basis when its leading
/// byte (the count of elided prefix bytes) does not exceed the basis.
pub open spec fn enc_valid(prefix: Seq<u8>, e: Seq<u8>) -> bool {
    e.len() >= 1 && e[0] <= prefix.len()
}

/// The raw key an encoded key stands for: the elided prefix bytes restored
/// in front of the stored suffix.
pub open spec fn enc_decoded(prefix: Seq<u8>, e: Seq<u8>) -> Seq<u8> {
    prefix.take(e[0] as int) + e.skip(1)
}

/// Encodes a raw key against a prefix basis: one byte holding the length of
/// the longest shared prefix (capped at 255), then the remaining suffix.
pub fn prefix_encode(prefix: &[u8], key: &[u8]) -> (r: Vec<u8>)
    ensures
        enc_valid(prefix@, r@),
        enc_decoded(prefix@, r@) == key@,
        r@[0] <= key@.len() && r@[0] <= 255,
        r@.len() == 1 + key@.len() - r@[0],
        forall|j: int| 0 <= j < r@[0] ==> prefix@[j] == key@[j],
        (r@[0] < 255 && r@[0] < prefix@.len() && r@[0] < key@.len()) ==> prefix@[r@[0] as int]
            != key@[r@[0] as int],
{
    let plen = prefix.len();
    let klen = key.len();
    let mut bound = if plen < klen {
        plen
    } else {
        klen
    };
    if bound > 255 {
        bound = 255;
    }
    let mut cl: usize = 0;
    while cl < bound && prefix[cl] == key[cl]
        invariant
            0 <= cl <= bound,
            bound <= prefix@.len(),
            bound <= key@.len(),
            bound <= 255,
            forall|j: int| 0 <= j < cl ==> prefix@[j] == key@[j],
        decreases bound - cl,
    {
        cl += 1;
    }
    let mut r: Vec<u8> = Vec::new();
    r.push(cl as u8);
    let mut i: usize = cl;
    while i < klen
        invariant
            cl <= i <= klen,
            klen == key@.len(),
            r@ == seq![cl as u8] + key@.subrange(cl as int, i as int),
        decreases klen - i,
    {
        let byte = key[i];
        r.push(byte);
        proof {
            assert(r@ =~= seq![cl as u8] + key@.subrange(cl as int, i + 1));
        }
        i += 1;
    }
    proof {
        assert(r@[0] == cl as u8);
        assert(enc_decoded(prefix@, r@) =~= key@);
    }
    r
}

/// Restores the raw key that an encoded key stands for.
pub fn prefix_decode(prefix: &[u8], e: &[u8]) -> (r: Vec<u8>)
    requires
        enc_valid(prefix@, e@),
    ensures
        r@ == enc_decoded(prefix@, e@),
{
    let cl = e[0] as usize;
    let elen = e.len();
    let mut r: Vec<u8> = Vec::new();
    let mut i: usize = 0;
    while i < cl
        invariant
            0 <= i <= cl,
            cl <= prefix@.len(),
            r@ == prefix@.subrange(0, i as int),
        decreases cl - i,
    {
        let byte = prefix[i];
        r.push(byte);
        proof {
            assert(r@ =~= prefix@.subrange(0, i + 1));
        }
        i += 1;
    }
    let mut j: usize = 1;
    while j < elen
        invariant
            1 <= j <= elen,
            elen == e@.len(),
            cl <= prefix@.len(),
            r@ == prefix@.subrange(0, cl as int) + e@.subrange(1, j as int),
        decreases elen - j,
    {
        let byte = e[j];
        r.push(byte);
        proof {
            assert(r@ =~= prefix@.subrange(0, cl as int) + e@.subrange(1, j + 1));
        }
        j += 1;
    }
    proof {
        assert(r@ =~= enc_decoded(prefix@, e@));
    }
    r
}

/// Compares a prefix-encoded key `a` with a raw key `b`.
pub fn prefix_cmp_encoded(a: &[u8], b: &[u8], prefix: &[u8]) -> (o: KeyOrd)
    requires
        enc_valid(prefix@, a@),
    ensures
        (o == KeyOrd::Lt) <==> lex_lt(enc_decoded(prefix@, a@), b@),
        (o == KeyOrd::Gt) <==> lex_lt(b@, enc_decoded(prefix@, a@)),
        (o == KeyOrd::Eq) <==> enc_decoded(prefix@, a@) == b@,
{
    let da = prefix_decode(prefix, a);
    lex_cmp(da.as_slice(), b)
}

/// Copies a byte vector.
pub fn clone_bytes(v: &Vec<u8>) -> (r: Vec<u8>)
    ensures
        r@ == v@,
{
    vstd::slice::slice_to_vec(v.as_slice())
}

} // verus!
