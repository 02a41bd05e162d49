//! Tree nodes: leaf and index pages of the B-link tree.
//!
//! A node covers the half-open key range `[lo, hi)` (an empty `hi` means
//! no upper bound) and stores its record keys prefix-encoded against `lo`.
//! It evolves by absorbing frags and can produce a right half when split.

use vstd::prelude::*;

use crate::frag::{ChildSplit, Frag, ParentSplit};
use crate::keys::{
    clone_bytes, enc_decoded, enc_valid, lex_le, lex_lt, lemma_lex_lt_trans,
    lemma_lex_trichotomy, prefix_cmp_encoded, prefix_decode, prefix_encode, KeyOrd,
};

verus! {

/// Identifies a page in the external page cache.
pub type PageId = usize;

/// The records a node holds: a leaf binds keys to version-chain pages, an
/// index binds separators to child pages. Keys are prefix-encoded against
/// the node's low bound.
#[derive(Clone, Debug)]
pub enum Data {
    /// Leaf records: encoded key to version-chain page.
    Leaf(Vec<(Vec<u8>, PageId)>),
    /// Index records: encoded separator to child page.
    Index(Vec<(Vec<u8>, PageId)>),
}

impl Data {
    /// The stored (encoded key, page) records, whichever kind this is.
    pub open spec fn recs(self) -> Seq<(Vec<u8>, PageId)> {
        match self {
            Data::Leaf(r) => r@,
            Data::Index(r) => r@,
        }
    }

    /// How many records this node holds.
    pub fn len(&self) -> (r: usize)
        ensures
            r == self.recs().len(),
    {
        match self {
            Data::Leaf(records) => records.len(),
            Data::Index(ptrs) => ptrs.len(),
        }
    }
}

/// The records with their keys decoded back to raw bytes.
pub open spec fn decoded_entries(lo: Seq<u8>, s: Seq<(Vec<u8>, PageId)>) -> Seq<(Seq<u8>, PageId)> {
    s.map(|i: int, e: (Vec<u8>, PageId)| (enc_decoded(lo, e.0@), e.1))
}

/// Entry keys strictly ascend.
pub open spec fn sorted_entries(s: Seq<(Seq<u8>, PageId)>) -> bool {
    forall|i: int, j: int|
        #![trigger s[i], s[j]]
        0 <= i < j < s.len() ==> lex_lt(s[i].0, s[j].0)
}

/// Every entry key lies in `[lo, hi)`, with an empty `hi` meaning no upper
/// bound.
pub open spec fn bounded_entries(lo: Seq<u8>, hi: Seq<u8>, s: Seq<(Seq<u8>, PageId)>) -> bool {
    forall|i: int|
        #![trigger s[i]]
        0 <= i < s.len() ==> lex_le(lo, s[i].0) && (hi.len() == 0 || lex_lt(s[i].0, hi))
}

/// The least index whose entry key is not below `k`: the length of the
/// leading run of keys below `k`.
pub open spec fn seek(s: Seq<(Seq<u8>, PageId)>, k: Seq<u8>) -> int
    decreases s.len(),
{
    if s.len() == 0 {
        0
    } else if lex_lt(s[0].0, k) {
        1 + seek(s.skip(1), k)
    } else {
        0
    }
}

/// What `seek` promises of its result.
pub proof fn lemma_seek_props(s: Seq<(Seq<u8>, PageId)>, k: Seq<u8>)
    ensures
        0 <= seek(s, k) <= s.len(),
        forall|j: int| 0 <= j < seek(s, k) ==> lex_lt(#[trigger] s[j].0, k),
        seek(s, k) < s.len() ==> !lex_lt(s[seek(s, k)].0, k),
    decreases s.len(),
{
    if s.len() > 0 && lex_lt(s[0].0, k) {
        lemma_seek_props(s.skip(1), k);
        assert forall|j: int| 0 <= j < seek(s, k) implies lex_lt(#[trigger] s[j].0, k) by {
            if j > 0 {
                assert(s[j] == s.skip(1)[j - 1]);
            }
        }
        if seek(s, k) < s.len() {
            assert(s[seek(s, k)] == s.skip(1)[seek(s, k) - 1]);
        }
    }
}

/// A scan that stops at the first key not below `k` has found `seek`.
pub proof fn lemma_seek_at(s: Seq<(Seq<u8>, PageId)>, k: Seq<u8>, i: int)
    requires
        0 <= i <= s.len(),
        forall|j: int| 0 <= j < i ==> lex_lt(#[trigger] s[j].0, k),
        i < s.len() ==> !lex_lt(s[i].0, k),
    ensures
        seek(s, k) == i,
    decreases s.len(),
{
    if i == 0 {
    } else {
        assert(lex_lt(s[0].0, k));
        assert forall|j: int| 0 <= j < i - 1 implies lex_lt(#[trigger] s.skip(1)[j].0, k) by {
            assert(s.skip(1)[j] == s[j + 1]);
        }
        if i - 1 < s.skip(1).len() {
            assert(s.skip(1)[i - 1] == s[i]);
        }
        lemma_seek_at(s.skip(1), k, i - 1);
    }
}

/// Inserting an entry at its `seek` position keeps the entries sorted and
/// bounded, provided the new key is fresh and in range.
pub proof fn lemma_insert_entry(
    s: Seq<(Seq<u8>, PageId)>,
    k: Seq<u8>,
    pid: PageId,
    lo: Seq<u8>,
    hi: Seq<u8>,
)
    requires
        sorted_entries(s),
        bounded_entries(lo, hi, s),
        lex_le(lo, k),
        hi.len() == 0 || lex_lt(k, hi),
        seek(s, k) < s.len() ==> s[seek(s, k)].0 != k,
    ensures
        sorted_entries(s.take(seek(s, k)) + seq![(k, pid)] + s.skip(seek(s, k))),
        bounded_entries(lo, hi, s.take(seek(s, k)) + seq![(k, pid)] + s.skip(seek(s, k))),
{
    lemma_seek_props(s, k);
    let i = seek(s, k);
    let t = s.take(i) + seq![(k, pid)] + s.skip(i);
    assert forall|j: int| i <= j < s.len() implies lex_lt(k, #[trigger] s[j].0) by {
        lemma_lex_trichotomy(s[i].0, k);
        if j > i {
            lemma_lex_lt_trans(k, s[i].0, s[j].0);
        }
    }
    assert forall|j1: int, j2: int|
        #![trigger t[j1], t[j2]]
        0 <= j1 < j2 < t.len() implies lex_lt(t[j1].0, t[j2].0) by {
        assert(j1 < i ==> t[j1] == s[j1]);
        assert(j2 < i ==> t[j2] == s[j2]);
        assert(j1 > i ==> t[j1] == s[j1 - 1]);
        assert(j2 > i ==> t[j2] == s[j2 - 1]);
    }
    assert forall|j: int| #![trigger t[j]] 0 <= j < t.len() implies lex_le(lo, t[j].0) && (hi.len()
        == 0 || lex_lt(t[j].0, hi)) by {
        assert(j < i ==> t[j] == s[j]);
        assert(j > i ==> t[j] == s[j - 1]);
    }
}

/// Finds where a raw key belongs among records encoded against `lo`: the
/// `seek` index, and whether the key already stands there.
fn find_slot(records: &Vec<(Vec<u8>, PageId)>, lo: &[u8], kd: &[u8]) -> (r: (usize, bool))
    requires
        forall|i: int| 0 <= i < records@.len() ==> enc_valid(lo@, (#[trigger] records@[i]).0@),
    ensures
        ({
            let s = decoded_entries(lo@, records@);
            &&& r.0 == seek(s, kd@)
            &&& r.1 == (r.0 < s.len() && s[r.0 as int].0 == kd@)
        }),
{
    let ghost s = decoded_entries(lo@, records@);
    let n = records.len();
    let mut i: usize = 0;
    while i < n
        invariant
            0 <= i <= n,
            n == records@.len(),
            s == decoded_entries(lo@, records@),
            forall|m: int| 0 <= m < records@.len() ==> enc_valid(lo@, (#[trigger] records@[m]).0@),
            forall|j: int| 0 <= j < i ==> lex_lt((#[trigger] s[j]).0, kd@),
        decreases n - i,
    {
        let o = prefix_cmp_encoded(records[i].0.as_slice(), kd, lo);
        match o {
            KeyOrd::Lt => {
                i += 1;
            },
            KeyOrd::Eq => {
                proof {
                    lemma_lex_trichotomy(s[i as int].0, kd@);
                    lemma_seek_at(s, kd@, i as int);
                }
                return (i, true);
            },
            KeyOrd::Gt => {
                proof {
                    lemma_lex_trichotomy(s[i as int].0, kd@);
                    lemma_seek_at(s, kd@, i as int);
                }
                return (i, false);
            },
        }
    }
    proof {
        lemma_seek_at(s, kd@, n as int);
    }
    (n, false)
}

/// What absorbing an `InsertVersion` leaves behind: the binding for the
/// frag's key set to the frag's page, everything else in place.
pub open spec fn set_leaf_post(pre: Node, k_enc: Seq<u8>, pid: PageId, post: Node) -> bool {
    let s = pre.entries();
    let k = enc_decoded(pre.lo@, k_enc);
    let i = seek(s, k);
    &&& post.id == pre.id
    &&& post.lo == pre.lo
    &&& post.hi == pre.hi
    &&& post.next == pre.next
    &&& post.data is Leaf
    &&& post.entries() == if i < s.len() && s[i].0 == k {
        s.update(i, (k, pid))
    } else {
        s.take(i) + seq![(k, pid)] + s.skip(i)
    }
}

/// What absorbing a `RemoveVersion` leaves behind: the binding for the
/// frag's key gone, or nothing changed when the key was absent.
pub open spec fn del_leaf_post(pre: Node, k_enc: Seq<u8>, post: Node) -> bool {
    let s = pre.entries();
    let k = enc_decoded(pre.lo@, k_enc);
    let i = seek(s, k);
    &&& post.id == pre.id
    &&& post.lo == pre.lo
    &&& post.hi == pre.hi
    &&& post.next == pre.next
    &&& post.data is Leaf
    &&& post.entries() == if i < s.len() && s[i].0 == k {
        s.remove(i)
    } else {
        s
    }
}

/// What absorbing a `ParentSplit` leaves behind: the separator bound to
/// the new child page, in sorted position.
pub open spec fn parent_split_post(pre: Node, at: Seq<u8>, to: PageId, post: Node) -> bool {
    let s = pre.entries();
    let i = seek(s, at);
    &&& post.id == pre.id
    &&& post.lo == pre.lo
    &&& post.hi == pre.hi
    &&& post.next == pre.next
    &&& post.data is Index
    &&& post.entries() == s.take(i) + seq![(at, to)] + s.skip(i)
}

/// What absorbing a `ChildSplit` leaves behind: records at or above the
/// separator dropped, the high bound lowered to it, the forward link aimed
/// at the new right sibling.
pub open spec fn child_split_post(pre: Node, at: Seq<u8>, to: PageId, post: Node) -> bool {
    &&& post.id == pre.id
    &&& post.lo == pre.lo
    &&& post.hi@ == at
    &&& post.next == Some(to)
    &&& (post.data is Leaf <==> pre.data is Leaf)
    &&& post.entries() == pre.entries().filter(|e: (Seq<u8>, PageId)| lex_lt(e.0, at))
}

/// What `split` returns: the upper half of the records, re-encoded against
/// the separator (the first right key), covering `[separator, hi)` and
/// inheriting the forward link.
pub open spec fn split_post(pre: Node, id: PageId, r: Node) -> bool {
    let s = pre.entries();
    let m = s.len() as int / 2;
    &&& r.id == id
    &&& r.lo@ == s[m].0
    &&& r.hi@ == pre.hi@
    &&& r.next == pre.next
    &&& (r.data is Leaf <==> pre.data is Leaf)
    &&& r.entries() == s.skip(m)
}

/// Keeps the records whose decoded key is below `at`, in order. Also hands
/// back, for the proof, the source index each kept record came from.
fn retain_below(records: &Vec<(Vec<u8>, PageId)>, lo: &[u8], at: &[u8]) -> (out: (
    Vec<(Vec<u8>, PageId)>,
    Ghost<Seq<int>>,
))
    requires
        forall|i: int| 0 <= i < records@.len() ==> enc_valid(lo@, (#[trigger] records@[i]).0@),
    ensures
        decoded_entries(lo@, out.0@) == decoded_entries(lo@, records@).filter(
            |e: (Seq<u8>, PageId)| lex_lt(e.0, at@),
        ),
        forall|i: int| 0 <= i < out.0@.len() ==> enc_valid(lo@, (#[trigger] out.0@[i]).0@),
        ({
            let s = decoded_entries(lo@, records@);
            let t = decoded_entries(lo@, out.0@);
            let src = out.1@;
            &&& src.len() == t.len()
            &&& (forall|m: int| 0 <= m < t.len() ==> 0 <= #[trigger] src[m] < s.len())
            &&& (forall|m1: int, m2: int|
                0 <= m1 < m2 < t.len() ==> #[trigger] src[m1] < #[trigger] src[m2])
            &&& (forall|m: int| 0 <= m < t.len() ==> #[trigger] t[m] == s[src[m]])
        }),
{
    let ghost s = decoded_entries(lo@, records@);
    let ghost pred = |e: (Seq<u8>, PageId)| lex_lt(e.0, at@);
    let n = records.len();
    let mut out: Vec<(Vec<u8>, PageId)> = Vec::new();
    let ghost mut src: Seq<int> = Seq::empty();
    let mut i: usize = 0;
    while i < n
        invariant
            0 <= i <= n,
            n == records@.len(),
            s == decoded_entries(lo@, records@),
            pred == (|e: (Seq<u8>, PageId)| lex_lt(e.0, at@)),
            forall|m: int| 0 <= m < records@.len() ==> enc_valid(lo@, (#[trigger] records@[m]).0@),
            forall|m: int| 0 <= m < out@.len() ==> enc_valid(lo@, (#[trigger] out@[m]).0@),
            decoded_entries(lo@, out@) == s.take(i as int).filter(pred),
            src.len() == out@.len(),
            forall|m: int| 0 <= m < src.len() ==> 0 <= #[trigger] src[m] < i,
            forall|m1: int, m2: int|
                0 <= m1 < m2 < src.len() ==> #[trigger] src[m1] < #[trigger] src[m2],
            forall|m: int|
                0 <= m < src.len() ==> #[trigger] decoded_entries(lo@, out@)[m] == s[src[m]],
        decreases n - i,
    {
        let ghost out_pre = decoded_entries(lo@, out@);
        let o = prefix_cmp_encoded(records[i].0.as_slice(), at, lo);
        let keep = match o {
            KeyOrd::Lt => true,
            _ => false,
        };
        if keep {
            let entry = (clone_bytes(&records[i].0), records[i].1);
            out.push(entry);
            proof {
                src = src.push(i as int);
            }
        }
        proof {
            reveal(Seq::filter);
            let tk = s.take(i + 1);
            assert(tk.drop_last() =~= s.take(i as int));
            assert(tk.last() == s[i as int]);
            if keep {
                assert(decoded_entries(lo@, out@) =~= out_pre.push(s[i as int]));
            } else {
                assert(decoded_entries(lo@, out@) =~= out_pre);
            }
        }
        i += 1;
    }
    proof {
        assert(s.take(n as int) =~= s);
    }
    (out, Ghost(src))
}

/// Copies the records from index `m` on, re-encoding each key from the old
/// prefix basis `lo` to the new basis `sep`.
fn reencode_from(records: &Vec<(Vec<u8>, PageId)>, m: usize, lo: &[u8], sep: &[u8]) -> (out: Vec<
    (Vec<u8>, PageId),
>)
    requires
        m <= records@.len(),
        forall|i: int| 0 <= i < records@.len() ==> enc_valid(lo@, (#[trigger] records@[i]).0@),
    ensures
        decoded_entries(sep@, out@) == decoded_entries(lo@, records@).skip(m as int),
        forall|i: int| 0 <= i < out@.len() ==> enc_valid(sep@, (#[trigger] out@[i]).0@),
{
    let ghost s = decoded_entries(lo@, records@);
    let n = records.len();
    let mut out: Vec<(Vec<u8>, PageId)> = Vec::new();
    let mut i: usize = m;
    while i < n
        invariant
            m <= i <= n,
            n == records@.len(),
            s == decoded_entries(lo@, records@),
            forall|j: int| 0 <= j < records@.len() ==> enc_valid(lo@, (#[trigger] records@[j]).0@),
            forall|j: int| 0 <= j < out@.len() ==> enc_valid(sep@, (#[trigger] out@[j]).0@),
            decoded_entries(sep@, out@) == s.subrange(m as int, i as int),
        decreases n - i,
    {
        let ghost dpre = decoded_entries(sep@, out@);
        let kd = prefix_decode(lo, records[i].0.as_slice());
        let enc = prefix_encode(sep, kd.as_slice());
        let entry = (enc, records[i].1);
        out.push(entry);
        proof {
            assert(s[i as int] == (enc_decoded(lo@, records@[i as int].0@), records@[i as int].1));
            assert(decoded_entries(sep@, out@) =~= dpre.push(s[i as int]));
            assert(s.subrange(m as int, i + 1) =~= s.subrange(m as int, i as int).push(
                s[i as int],
            ));
        }
        i += 1;
    }
    proof {
        assert(s.subrange(m as int, n as int) =~= s.skip(m as int));
    }
    out
}

/// Saturating addition on byte counts.
pub open spec fn spec_sat_add(a: u64, b: u64) -> u64 {
    if a + b > u64::MAX {
        u64::MAX
    } else {
        (a + b) as u64
    }
}

fn sat_add(a: u64, b: u64) -> (r: u64)
    ensures
        r == spec_sat_add(a, b),
{
    if a > u64::MAX - b {
        u64::MAX
    } else {
        a + b
    }
}

/// Fixed in-memory overhead charged to a node besides its byte vectors.
pub const NODE_BASE_SZ: u64 = 80;

/// Overhead charged to one record besides its key bytes.
pub const REC_BASE_SZ: u64 = 16;

/// Bytes charged to one record: its encoded key plus fixed overhead.
pub open spec fn rec_size(e: (Vec<u8>, PageId)) -> u64 {
    spec_sat_add(e.0@.len() as u64, REC_BASE_SZ)
}

/// Bytes charged to a record list, saturating at the top of `u64`.
pub open spec fn recs_size(s: Seq<(Vec<u8>, PageId)>) -> u64
    decreases s.len(),
{
    if s.len() == 0 {
        0
    } else {
        spec_sat_add(recs_size(s.drop_last()), rec_size(s.last()))
    }
}

/// Bytes charged to a whole node.
pub open spec fn spec_size_in_bytes(n: Node) -> u64 {
    spec_sat_add(
        spec_sat_add(spec_sat_add(NODE_BASE_SZ, n.lo@.len() as u64), n.hi@.len() as u64),
        recs_size(n.data.recs()),
    )
}

/// On entries whose keys are below `k` exactly up to position `m`,
/// filtering for keys below `k` keeps exactly the first `m` entries.
proof fn lemma_filter_sorted_prefix(s: Seq<(Seq<u8>, PageId)>, k: Seq<u8>, m: int)
    requires
        0 <= m <= s.len(),
        forall|j: int| 0 <= j < m ==> lex_lt((#[trigger] s[j]).0, k),
        forall|j: int| m <= j < s.len() ==> !lex_lt((#[trigger] s[j]).0, k),
    ensures
        s.filter(|e: (Seq<u8>, PageId)| lex_lt(e.0, k)) == s.take(m),
    decreases s.len(),
{
    reveal(Seq::filter);
    let pred = |e: (Seq<u8>, PageId)| lex_lt(e.0, k);
    if s.len() == 0 {
        assert(s.take(0) =~= s);
    } else {
        let d = s.drop_last();
        if m == s.len() {
            lemma_filter_sorted_prefix(d, k, m - 1);
            assert(d.take(m - 1) =~= d);
            assert(s.filter(pred) == d.filter(pred).push(s.last()));
            assert(d.push(s.last()) =~= s);
            assert(s.take(m) =~= s);
        } else {
            lemma_filter_sorted_prefix(d, k, m);
            assert(s.filter(pred) == d.filter(pred));
            assert(d.take(m) =~= s.take(m));
        }
    }
}

/// Split correctness: after carving the right half off with `split` and
/// folding the matching `ChildSplit` into the left half, the two halves
/// together carry exactly the records the node had, the left half's high
/// bound is the right half's low bound, the left half's forward link aims
/// at the new page, and the right half keeps the node's old high bound.
pub proof fn lemma_split_correct(n: Node, new_pid: PageId, l: Node, r: Node)
    requires
        n.wf(),
        n.data.recs().len() >= 2,
        split_post(n, new_pid, r),
        child_split_post(n, r.lo@, new_pid, l),
    ensures
        l.entries().to_multiset().add(r.entries().to_multiset()) == n.entries().to_multiset(),
        l.hi@ == r.lo@,
        l.next == Some(new_pid),
        r.hi@ == n.hi@,
{
    let s = n.entries();
    let m = s.len() as int / 2;
    let sep = s[m].0;
    assert forall|j: int| 0 <= j < m implies lex_lt((#[trigger] s[j]).0, sep) by {}
    assert forall|j: int| m <= j < s.len() implies !lex_lt((#[trigger] s[j]).0, sep) by {
        lemma_lex_trichotomy(s[j].0, sep);
        if j > m {
            lemma_lex_trichotomy(sep, s[j].0);
        }
    }
    lemma_filter_sorted_prefix(s, sep, m);
    assert(l.entries() == s.take(m));
    assert(r.entries() == s.skip(m));
    assert(s.take(m) + s.skip(m) =~= s);
    vstd::seq_lib::lemma_multiset_commutative(s.take(m), s.skip(m));
    assert(l.entries().to_multiset().add(r.entries().to_multiset()) =~= s.to_multiset());
}

/// A leaf or index page: records plus the bounds and forward link of the
/// B-link protocol.
#[derive(Clone, Debug)]
pub struct Node {
    /// The page this node was materialized from.
    pub id: PageId,
    /// The records, leaf or index.
    pub data: Data,
    /// Right-sibling link; present exactly while a right sibling covers
    /// keys from `hi` upward.
    pub next: Option<PageId>,
    /// Inclusive low bound of the covered range, and the prefix basis of
    /// the stored keys.
    pub lo: Vec<u8>,
    /// Exclusive high bound of the covered range; empty means unbounded.
    pub hi: Vec<u8>,
}

impl Node {
    /// The records with their keys decoded back to raw bytes.
    pub open spec fn entries(self) -> Seq<(Seq<u8>, PageId)> {
        decoded_entries(self.lo@, self.data.recs())
    }

    /// Node invariant: every stored key is well encoded against `lo`, the
    /// decoded keys strictly ascend, and all of them lie in `[lo, hi)`.
    pub open spec fn wf(self) -> bool {
        &&& forall|i: int|
            0 <= i < self.data.recs().len() ==> enc_valid(
                self.lo@,
                (#[trigger] self.data.recs()[i]).0@,
            )
        &&& sorted_entries(self.entries())
        &&& bounded_entries(self.lo@, self.hi@, self.entries())
    }

    /// Binds `key` (already prefix-encoded against `lo`) to the page of its
    /// version chain: replaces the page on a hit, inserts in sorted position
    /// on a miss.
    pub fn set_leaf(&mut self, key: Vec<u8>, pid: PageId)
        requires
            old(self).wf(),
            old(self).data is Leaf,
            enc_valid(old(self).lo@, key@),
            lex_le(old(self).lo@, enc_decoded(old(self).lo@, key@)),
            old(self).hi@.len() == 0 || lex_lt(
                enc_decoded(old(self).lo@, key@),
                old(self).hi@,
            ),
        ensures
            final(self).wf(),
            set_leaf_post(*old(self), key@, pid, *final(self)),
    {
        let ghost s = old(self).entries();
        let ghost k = enc_decoded(old(self).lo@, key@);
        let kd = prefix_decode(self.lo.as_slice(), key.as_slice());
        let (i, hit) = match &self.data {
            Data::Leaf(records) => find_slot(records, self.lo.as_slice(), kd.as_slice()),
            Data::Index(_) => {
                proof {
                    assert(false);
                }
                (0, false)
            },
        };
        proof {
            lemma_seek_props(s, k);
        }
        match &mut self.data {
            Data::Leaf(records) => {
                if hit {
                    records.set(i, (key, pid));
                } else {
                    records.insert(i, (key, pid));
                }
            },
            Data::Index(_) => {
                proof {
                    assert(false);
                }
            },
        }
        proof {
            lemma_seek_props(s, k);
            if hit {
                assert(self.entries() =~= s.update(seek(s, k), (k, pid)));
                assert forall|j1: int, j2: int|
                    #![trigger self.entries()[j1], self.entries()[j2]]
                    0 <= j1 < j2 < self.entries().len() implies lex_lt(
                    self.entries()[j1].0,
                    self.entries()[j2].0,
                ) by {
                    assert(self.entries()[j1].0 == s[j1].0);
                    assert(self.entries()[j2].0 == s[j2].0);
                }
            } else {
                assert(self.entries() =~= s.take(seek(s, k)) + seq![(k, pid)] + s.skip(
                    seek(s, k),
                ));
                lemma_insert_entry(s, k, pid, old(self).lo@, old(self).hi@);
            }
        }
    }

    /// Removes the binding for `key` (already prefix-encoded against `lo`);
    /// an absent key is a no-op.
    pub fn del_leaf(&mut self, key: &Vec<u8>)
        requires
            old(self).wf(),
            old(self).data is Leaf,
            enc_valid(old(self).lo@, key@),
            old(self).hi@.len() == 0 || lex_lt(
                enc_decoded(old(self).lo@, key@),
                old(self).hi@,
            ),
        ensures
            final(self).wf(),
            del_leaf_post(*old(self), key@, *final(self)),
    {
        let ghost s = old(self).entries();
        let ghost k = enc_decoded(old(self).lo@, key@);
        let kd = prefix_decode(self.lo.as_slice(), key.as_slice());
        let (i, hit) = match &self.data {
            Data::Leaf(records) => find_slot(records, self.lo.as_slice(), kd.as_slice()),
            Data::Index(_) => {
                proof {
                    assert(false);
                }
                (0, false)
            },
        };
        if hit {
            match &mut self.data {
                Data::Leaf(records) => {
                    records.remove(i);
                },
                Data::Index(_) => {
                    proof {
                        assert(false);
                    }
                },
            }
        }
        proof {
            if hit {
                assert(self.entries() =~= s.remove(seek(s, k)));
                let t = self.entries();
                let i0 = seek(s, k);
                assert forall|j1: int, j2: int|
                    #![trigger t[j1], t[j2]]
                    0 <= j1 < j2 < t.len() implies lex_lt(t[j1].0, t[j2].0) by {
                    assert(j1 < i0 ==> t[j1] == s[j1]);
                    assert(j1 >= i0 ==> t[j1] == s[j1 + 1]);
                    assert(j2 < i0 ==> t[j2] == s[j2]);
                    assert(j2 >= i0 ==> t[j2] == s[j2 + 1]);
                }
                assert forall|j: int| #![trigger t[j]] 0 <= j < t.len() implies lex_le(
                    self.lo@,
                    t[j].0,
                ) && (self.hi@.len() == 0 || lex_lt(t[j].0, self.hi@)) by {
                    assert(j < i0 ==> t[j] == s[j]);
                    assert(j >= i0 ==> t[j] == s[j + 1]);
                }
            }
        }
    }

    /// Records that a new child page covers the separator `ps.at`: inserts
    /// the encoded separator into this index node in sorted position.
    pub fn parent_split(&mut self, ps: &ParentSplit)
        requires
            old(self).wf(),
            old(self).data is Index,
            lex_le(old(self).lo@, ps.at@),
            old(self).hi@.len() == 0 || lex_lt(ps.at@, old(self).hi@),
            forall|i: int|
                0 <= i < old(self).entries().len() ==> (#[trigger] old(self).entries()[i]).0
                    != ps.at@,
        ensures
            final(self).wf(),
            parent_split_post(*old(self), ps.at@, ps.to, *final(self)),
    {
        let ghost s = old(self).entries();
        let enc = prefix_encode(self.lo.as_slice(), ps.at.as_slice());
        let (i, hit) = match &self.data {
            Data::Index(ptrs) => find_slot(ptrs, self.lo.as_slice(), ps.at.as_slice()),
            Data::Leaf(_) => {
                proof {
                    assert(false);
                }
                (0, false)
            },
        };
        proof {
            lemma_seek_props(s, ps.at@);
        }
        match &mut self.data {
            Data::Index(ptrs) => {
                ptrs.insert(i, (enc, ps.to));
            },
            Data::Leaf(_) => {
                proof {
                    assert(false);
                }
            },
        }
        proof {
            assert(self.entries() =~= s.take(seek(s, ps.at@)) + seq![(ps.at@, ps.to)] + s.skip(
                seek(s, ps.at@),
            ));
            lemma_insert_entry(s, ps.at@, ps.to, old(self).lo@, old(self).hi@);
        }
    }

    /// Absorbs a `ChildSplit`: drops the records at or above the separator,
    /// lowers the high bound to it and aims the forward link at the new
    /// right sibling.
    pub fn child_split(&mut self, cs: &ChildSplit)
        requires
            old(self).wf(),
        ensures
            final(self).wf(),
            child_split_post(*old(self), cs.at@, cs.to, *final(self)),
    {
        let ghost s = old(self).entries();
        let (retained, src) = match &self.data {
            Data::Leaf(records) => retain_below(records, self.lo.as_slice(), cs.at.as_slice()),
            Data::Index(ptrs) => retain_below(ptrs, self.lo.as_slice(), cs.at.as_slice()),
        };
        let ghost t = decoded_entries(self.lo@, retained@);
        match &mut self.data {
            Data::Leaf(records) => {
                *records = retained;
            },
            Data::Index(ptrs) => {
                *ptrs = retained;
            },
        }
        self.hi = clone_bytes(&cs.at);
        self.next = Some(cs.to);
        proof {
            let srcs = src@;
            assert forall|j1: int, j2: int|
                #![trigger t[j1], t[j2]]
                0 <= j1 < j2 < t.len() implies lex_lt(t[j1].0, t[j2].0) by {
                assert(t[j1] == s[srcs[j1]]);
                assert(t[j2] == s[srcs[j2]]);
            }
            assert forall|j: int| #![trigger t[j]] 0 <= j < t.len() implies lex_le(self.lo@, t[j].0)
                && (self.hi@.len() == 0 || lex_lt(t[j].0, self.hi@)) by {
                assert(t[j] == s[srcs[j]]);
                s.lemma_filter_pred(|e: (Seq<u8>, PageId)| lex_lt(e.0, cs.at@), j);
            }
        }
    }

    /// Carves off the upper half of this node's records into a new right
    /// sibling living on page `id`. The separator is the first right key;
    /// the right node covers `[separator, hi)` and inherits the forward
    /// link. This node is unchanged: the caller follows up by applying a
    /// `ChildSplit` at the separator.
    pub fn split(&self, id: PageId) -> (r: Node)
        requires
            self.wf(),
            self.data.recs().len() >= 2,
        ensures
            r.wf(),
            split_post(*self, id, r),
    {
        let ghost s = self.entries();
        let m = self.data.len() / 2;
        let (sep, right_records, leaf) = match &self.data {
            Data::Leaf(records) => {
                let sep = prefix_decode(self.lo.as_slice(), records[m].0.as_slice());
                let right = reencode_from(records, m, self.lo.as_slice(), sep.as_slice());
                (sep, right, true)
            },
            Data::Index(ptrs) => {
                let sep = prefix_decode(self.lo.as_slice(), ptrs[m].0.as_slice());
                let right = reencode_from(ptrs, m, self.lo.as_slice(), sep.as_slice());
                (sep, right, false)
            },
        };
        let r = Node {
            id,
            data: if leaf {
                Data::Leaf(right_records)
            } else {
                Data::Index(right_records)
            },
            next: self.next,
            lo: sep,
            hi: clone_bytes(&self.hi),
        };
        proof {
            let mi = m as int;
            let t = r.entries();
            assert(t == s.skip(mi));
            assert forall|j: int| #![trigger t[j]] 0 <= j < t.len() implies lex_le(r.lo@, t[j].0)
                && (r.hi@.len() == 0 || lex_lt(t[j].0, r.hi@)) by {
                assert(t[j] == s[mi + j]);
                assert(r.lo@ == s[mi].0);
            }
            assert forall|j1: int, j2: int|
                #![trigger t[j1], t[j2]]
                0 <= j1 < j2 < t.len() implies lex_lt(t[j1].0, t[j2].0) by {
                assert(t[j1] == s[mi + j1]);
                assert(t[j2] == s[mi + j2]);
            }
        }
        r
    }

    /// Bytes charged to this node in memory: a fixed overhead plus its
    /// bounds and records, saturating rather than overflowing.
    pub fn size_in_bytes(&self) -> (r: u64)
        ensures
            r == spec_size_in_bytes(*self),
    {
        let self_sz = NODE_BASE_SZ;
        let lo_sz = self.lo.len() as u64;
        let hi_sz = self.hi.len() as u64;
        let mut data_sz: u64 = 0;
        let records = match &self.data {
            Data::Leaf(records) => records,
            Data::Index(ptrs) => ptrs,
        };
        let n = records.len();
        let mut i: usize = 0;
        while i < n
            invariant
                0 <= i <= n,
                n == records@.len(),
                data_sz == recs_size(records@.take(i as int)),
            decreases n - i,
        {
            let key_sz = records[i].0.len() as u64;
            data_sz = sat_add(data_sz, sat_add(key_sz, REC_BASE_SZ));
            proof {
                assert(records@.take(i + 1).drop_last() =~= records@.take(i as int));
                assert(records@.take(i + 1).last() == records@[i as int]);
            }
            i += 1;
        }
        proof {
            assert(records@.take(n as int) =~= records@);
        }
        sat_add(sat_add(sat_add(self_sz, lo_sz), hi_sz), data_sz)
    }

    /// A node is ripe for splitting when it holds more than two records and
    /// its byte size is above the configured threshold.
    pub fn should_split(&self, max_sz: u64) -> (r: bool)
        ensures
            r == (self.data.recs().len() > 2 && spec_size_in_bytes(*self) > max_sz),
    {
        self.data.len() > 2 && self.size_in_bytes() > max_sz
    }

    /// Which frags this node absorbs: leaf writes routed into its range,
    /// splits of itself, and separators for an index. Everything else —
    /// a second `Base` mid-chain, version frags, merge-protocol frags —
    /// is a chain-building error.
    pub open spec fn node_accepts(self, frag: Frag) -> bool {
        match frag {
            Frag::InsertVersion(k, _) => self.data is Leaf && enc_valid(self.lo@, k@) && lex_le(
                self.lo@,
                enc_decoded(self.lo@, k@),
            ) && (self.hi@.len() == 0 || lex_lt(enc_decoded(self.lo@, k@), self.hi@)),
            Frag::RemoveVersion(k) => self.data is Leaf && enc_valid(self.lo@, k@) && (
            self.hi@.len() == 0 || lex_lt(enc_decoded(self.lo@, k@), self.hi@)),
            Frag::ChildSplit(_) => true,
            Frag::ParentSplit(ps) => self.data is Index && lex_le(self.lo@, ps.at@) && (
            self.hi@.len() == 0 || lex_lt(ps.at@, self.hi@)) && (forall|i: int|
                0 <= i < self.entries().len() ==> (#[trigger] self.entries()[i]).0 != ps.at@),
            _ => false,
        }
    }

    /// Folds one accepted frag into this node.
    pub fn apply(&mut self, frag: &Frag)
        requires
            old(self).wf(),
            old(self).node_accepts(*frag),
        ensures
            final(self).wf(),
            match *frag {
                Frag::InsertVersion(k, pid) => set_leaf_post(*old(self), k@, pid, *final(self)),
                Frag::RemoveVersion(k) => del_leaf_post(*old(self), k@, *final(self)),
                Frag::ChildSplit(cs) => child_split_post(*old(self), cs.at@, cs.to, *final(self)),
                Frag::ParentSplit(ps) => parent_split_post(
                    *old(self),
                    ps.at@,
                    ps.to,
                    *final(self),
                ),
                _ => false,
            },
    {
        match frag {
            Frag::InsertVersion(k, pid) => {
                let kc = clone_bytes(k);
                self.set_leaf(kc, *pid);
            },
            Frag::ChildSplit(cs) => {
                self.child_split(cs);
            },
            Frag::ParentSplit(ps) => {
                self.parent_split(ps);
            },
            Frag::RemoveVersion(k) => {
                self.del_leaf(k);
            },
            _ => {
                proof {
                    assert(false);
                }
            },
        }
    }
}

} // verus!
