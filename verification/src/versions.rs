//! Per-key multi-version value chains.
//!
//! A [`Versions`] holds the committed history of one key, strictly
//! ascending in timestamp, plus at most one pending (staged, uncommitted)
//! version and the highest read-timestamp any observer has claimed.
//! Writes arrive as frags in two phases: a staging frag places a pending
//! version, and a matching [`crate::frag::Frag::VersionCommit`] promotes it.

use vstd::prelude::*;

use crate::frag::Frag;

verus! {

/// One timestamped version of a key's value.
#[derive(Clone, Debug)]
pub enum Version {
    /// The key was deleted at this timestamp.
    Del(u64),
    /// The key was set to a value at this timestamp.
    Put(u64, Vec<u8>),
    /// A value was merged into the key at this timestamp.
    Merge(u64, Vec<u8>),
}

/// Mathematical image of a [`Version`].
pub enum VersionModel {
    /// A deletion at a timestamp.
    Del(u64),
    /// A set to a value at a timestamp.
    Put(u64, Seq<u8>),
    /// A merge of a value at a timestamp.
    Merge(u64, Seq<u8>),
}

impl View for Version {
    type V = VersionModel;

    open spec fn view(&self) -> VersionModel {
        match self {
            Version::Del(ts) => VersionModel::Del(*ts),
            Version::Put(ts, val) => VersionModel::Put(*ts, val@),
            Version::Merge(ts, val) => VersionModel::Merge(*ts, val@),
        }
    }
}

/// The timestamp a version carries.
pub open spec fn vsn_ts(v: VersionModel) -> u64 {
    match v {
        VersionModel::Del(ts) => ts,
        VersionModel::Put(ts, _) => ts,
        VersionModel::Merge(ts, _) => ts,
    }
}

impl Version {
    /// The timestamp this version carries.
    pub fn ts(&self) -> (r: u64)
        ensures
            r == vsn_ts(self@),
    {
        match self {
            Version::Del(ts) => *ts,
            Version::Put(ts, _) => *ts,
            Version::Merge(ts, _) => *ts,
        }
    }
}

/// The multi-version chain of one key.
#[derive(Clone, Debug)]
pub struct Versions {
    /// The staged, uncommitted write, if any.
    pub pending: Option<Version>,
    /// Committed history, strictly ascending in timestamp.
    pub versions: Vec<Version>,
    /// Highest read-timestamp any observer has claimed. Not part of the
    /// chain's visible state: reads ignore it. Updates go through
    /// [`Versions::bump_rts`], serialized like every other mutation by
    /// whoever owns the materialized chain.
    pub rts: u64,
}

/// Mathematical image of a [`Versions`] chain.
pub struct VersionsModel {
    /// The staged, uncommitted write, if any.
    pub pending: Option<VersionModel>,
    /// Committed history, newest last.
    pub versions: Seq<VersionModel>,
    /// Highest claimed read-timestamp.
    pub rts: u64,
}

impl View for Versions {
    type V = VersionsModel;

    open spec fn view(&self) -> VersionsModel {
        VersionsModel {
            pending: match self.pending {
                Some(p) => Some(p@),
                None => None,
            },
            versions: self.versions@.map_values(|v: Version| v@),
            rts: self.rts,
        }
    }
}

/// Timestamp of the newest committed version, 0 for an empty history.
pub open spec fn last_committed_ts(vs: Seq<VersionModel>) -> u64 {
    if vs.len() == 0 {
        0
    } else {
        vsn_ts(vs.last())
    }
}

/// Chain invariant: committed timestamps strictly ascend and are positive,
/// and a pending version is newer than everything committed.
pub open spec fn chain_wf(m: VersionsModel) -> bool {
    &&& forall|i: int, j: int|
        0 <= i < j < m.versions.len() ==> vsn_ts(#[trigger] m.versions[i]) < vsn_ts(
            #[trigger] m.versions[j],
        )
    &&& forall|i: int| 0 <= i < m.versions.len() ==> vsn_ts(#[trigger] m.versions[i]) >= 1
    &&& match m.pending {
        Some(p) => vsn_ts(p) > last_committed_ts(m.versions),
        None => true,
    }
}

/// Which frags a chain in state `m` accepts: a staging frag only with no
/// pending version and a timestamp above everything committed, a commit
/// only for the timestamp of the pending version, nothing else.
pub open spec fn chain_accepts(m: VersionsModel, frag: Frag) -> bool {
    match frag {
        Frag::VersionPendingSet(ts, _) => m.pending is None && last_committed_ts(m.versions) < ts,
        Frag::VersionPendingMerge(ts, _) => m.pending is None && last_committed_ts(m.versions)
            < ts,
        Frag::VersionPendingDel(ts) => m.pending is None && last_committed_ts(m.versions) < ts,
        Frag::VersionCommit(ts) => m.pending matches Some(p) && vsn_ts(p) == ts,
        _ => false,
    }
}

/// The chain state after an accepted frag; unchanged on anything else.
pub open spec fn chain_step(m: VersionsModel, frag: Frag) -> VersionsModel {
    match frag {
        Frag::VersionPendingSet(ts, val) => (VersionsModel {
            pending: Some(VersionModel::Put(ts, val@)),
            ..m
        }),
        Frag::VersionPendingMerge(ts, val) => (VersionsModel {
            pending: Some(VersionModel::Merge(ts, val@)),
            ..m
        }),
        Frag::VersionPendingDel(ts) => (VersionsModel {
            pending: Some(VersionModel::Del(ts)),
            ..m
        }),
        Frag::VersionCommit(_) => match m.pending {
            Some(p) => (VersionsModel { pending: None, versions: m.versions.push(p), ..m }),
            None => m,
        },
        _ => m,
    }
}

/// An accepted frag keeps the chain invariant.
pub proof fn lemma_chain_step_wf(m: VersionsModel, frag: Frag)
    requires
        chain_wf(m),
        chain_accepts(m, frag),
    ensures
        chain_wf(chain_step(m, frag)),
{
    match frag {
        Frag::VersionCommit(_) => {
            let p = m.pending->0;
            let vs = m.versions.push(p);
            assert forall|i: int, j: int| 0 <= i < j < vs.len() implies vsn_ts(#[trigger] vs[i])
                < vsn_ts(#[trigger] vs[j]) by {
                if j < vs.len() - 1 {
                    assert(vs[i] == m.versions[i]);
                    assert(vs[j] == m.versions[j]);
                } else {
                    assert(vs[j] == p);
                    if m.versions.len() > 0 {
                        assert(vs[i] == m.versions[i]);
                        assert(vsn_ts(m.versions[i]) <= vsn_ts(m.versions.last()));
                    }
                }
            }
        },
        _ => {},
    }
}

/// View of an optional owned byte value.
pub open spec fn view_opt_bytes(o: Option<Vec<u8>>) -> Option<Seq<u8>> {
    match o {
        Some(v) => Some(v@),
        None => None,
    }
}

/// View of an optional borrowed byte value.
pub open spec fn view_opt_slice(o: Option<&[u8]>) -> Option<Seq<u8>> {
    match o {
        Some(v) => Some(v@),
        None => None,
    }
}

/// A user-supplied merge operator: how a merged value combines with the
/// value below it (or with nothing, when no base exists).
pub trait MergeOp: Sized {
    /// The mathematical function the operator computes.
    spec fn merge_spec(&self, key: Seq<u8>, existing: Option<Seq<u8>>, incoming: Seq<u8>) -> Option<
        Seq<u8>,
    >;

    /// Combines `incoming` with the `existing` value under `key`.
    fn merge(&self, key: &[u8], existing: Option<&[u8]>, incoming: &[u8]) -> (r: Option<Vec<u8>>)
        ensures
            view_opt_bytes(r) == self.merge_spec(key@, view_opt_slice(existing), incoming@);
}

/// What the read path needs from the configuration: the optional merge
/// operator and the node-size threshold for splits.
pub struct Config<M> {
    /// Folds merge versions; required whenever a snapshot read meets a
    /// merge version.
    pub merge_operator: Option<M>,
    /// Node byte size above which `should_split` fires.
    pub max_node_size_bytes: u64,
}

impl<M: MergeOp> Config<M> {
    /// The configured operator as a mathematical function; a function that
    /// always returns nothing when no operator is configured (reads that
    /// would call it are ruled out beforehand).
    pub open spec fn op_spec(&self) -> spec_fn(Seq<u8>, Option<Seq<u8>>, Seq<u8>) -> Option<
        Seq<u8>,
    > {
        match self.merge_operator {
            Some(m) => |k: Seq<u8>, e: Option<Seq<u8>>, inc: Seq<u8>| m.merge_spec(k, e, inc),
            None => |k: Seq<u8>, e: Option<Seq<u8>>, inc: Seq<u8>| None::<Seq<u8>>,
        }
    }
}

/// A merge operator that appends the incoming bytes to the existing value,
/// or keeps the incoming bytes alone when no value exists yet.
pub struct ConcatMerge;

impl MergeOp for ConcatMerge {
    open spec fn merge_spec(&self, key: Seq<u8>, existing: Option<Seq<u8>>, incoming: Seq<u8>) -> Option<
        Seq<u8>,
    > {
        match existing {
            Some(e) => Some(e + incoming),
            None => Some(incoming),
        }
    }

    fn merge(&self, key: &[u8], existing: Option<&[u8]>, incoming: &[u8]) -> (r: Option<Vec<u8>>) {
        let mut out: Vec<u8> = match existing {
            Some(e) => vstd::slice::slice_to_vec(e),
            None => Vec::new(),
        };
        let ghost head = out@;
        let n = incoming.len();
        let mut i: usize = 0;
        while i < n
            invariant
                0 <= i <= n,
                n == incoming@.len(),
                out@ == head + incoming@.subrange(0, i as int),
            decreases n - i,
        {
            let byte = incoming[i];
            out.push(byte);
            proof {
                assert(out@ =~= head + incoming@.subrange(0, i + 1));
            }
            i += 1;
        }
        proof {
            assert(head + incoming@.subrange(0, n as int) =~= head + incoming@);
            if existing is None {
                assert(head + incoming@ =~= incoming@);
            }
        }
        Some(out)
    }
}

/// What remains under a stack of merges once the walk stops: a `Put`
/// value as the base, a deletion, or nothing at all.
pub enum FoldBase {
    /// The newest visible `Put`: its timestamp and value.
    Val(u64, Seq<u8>),
    /// The newest visible version is a deletion at this timestamp.
    Dropped(u64),
    /// No visible version remains.
    Absent,
}

/// Walks the committed history newest to oldest, skipping versions above
/// `ts`, collecting the merge values met (newest first, with their
/// timestamps) until a `Put` or deletion settles the base.
pub open spec fn gather(vs: Seq<VersionModel>, ts: u64) -> (Seq<(u64, Seq<u8>)>, FoldBase)
    decreases vs.len(),
{
    if vs.len() == 0 {
        (Seq::empty(), FoldBase::Absent)
    } else {
        let v = vs.last();
        if vsn_ts(v) > ts {
            gather(vs.drop_last(), ts)
        } else {
            match v {
                VersionModel::Del(t) => (Seq::empty(), FoldBase::Dropped(t)),
                VersionModel::Put(t, val) => (Seq::empty(), FoldBase::Val(t, val)),
                VersionModel::Merge(t, val) => {
                    let rest = gather(vs.drop_last(), ts);
                    (seq![(t, val)] + rest.0, rest.1)
                },
            }
        }
    }
}

/// Folds the collected merge values (newest first in `ms`) onto `acc`,
/// oldest first: the value merged latest in time is applied last.
pub open spec fn fold_merges(
    op: spec_fn(Seq<u8>, Option<Seq<u8>>, Seq<u8>) -> Option<Seq<u8>>,
    key: Seq<u8>,
    acc: Option<Seq<u8>>,
    ms: Seq<(u64, Seq<u8>)>,
) -> Option<Seq<u8>>
    decreases ms.len(),
{
    if ms.len() == 0 {
        acc
    } else {
        op(key, fold_merges(op, key, acc, ms.skip(1)), ms[0].1)
    }
}

/// Combines the collected merges and the base into the read result. With
/// no merges the base answers alone. With merges, the effective timestamp
/// is the newest merge's; a lone merge over no base asks the operator with
/// no existing value, while the oldest of several baseless merges itself
/// serves as the starting value.
pub open spec fn merge_result(
    ms: Seq<(u64, Seq<u8>)>,
    base: FoldBase,
    key: Seq<u8>,
    op: spec_fn(Seq<u8>, Option<Seq<u8>>, Seq<u8>) -> Option<Seq<u8>>,
) -> (u64, Option<Seq<u8>>) {
    if ms.len() == 0 {
        match base {
            FoldBase::Absent => (0, None),
            FoldBase::Dropped(t) => (t, None),
            FoldBase::Val(t, v) => (t, Some(v)),
        }
    } else {
        let rt = ms[0].0;
        match base {
            FoldBase::Val(_t, b) => (rt, fold_merges(op, key, Some(b), ms)),
            _ => if ms.len() == 1 {
                (rt, op(key, None, ms[0].1))
            } else {
                (rt, fold_merges(op, key, Some(ms.last().1), ms.drop_last()))
            },
        }
    }
}

/// The merge pair a pending version contributes to a read at exactly its
/// own timestamp; empty otherwise.
pub open spec fn pending_pairs(pend: Option<VersionModel>, ts: u64) -> Seq<(u64, Seq<u8>)> {
    match pend {
        Some(VersionModel::Merge(t, v)) => if t == ts {
            seq![(t, v)]
        } else {
            Seq::empty()
        },
        _ => Seq::empty(),
    }
}

/// The snapshot read, as a function of the chain's visible state alone.
pub open spec fn visible_spec(
    pend: Option<VersionModel>,
    vs: Seq<VersionModel>,
    key: Seq<u8>,
    ts: u64,
    op: spec_fn(Seq<u8>, Option<Seq<u8>>, Seq<u8>) -> Option<Seq<u8>>,
) -> (u64, Option<Seq<u8>>) {
    match pend {
        Some(p) => if vsn_ts(p) == ts {
            match p {
                VersionModel::Del(t) => (t, None),
                VersionModel::Put(t, v) => (t, Some(v)),
                VersionModel::Merge(t, v) => {
                    let g = gather(vs, ts);
                    merge_result(seq![(t, v)] + g.0, g.1, key, op)
                },
            }
        } else {
            let g = gather(vs, ts);
            merge_result(g.0, g.1, key, op)
        },
        None => {
            let g = gather(vs, ts);
            merge_result(g.0, g.1, key, op)
        },
    }
}

/// Whether a read at `ts` reaches a merge version and so needs the merge
/// operator.
pub open spec fn needs_merge_op(
    pend: Option<VersionModel>,
    vs: Seq<VersionModel>,
    ts: u64,
) -> bool {
    match pend {
        Some(p) => if vsn_ts(p) == ts {
            p is Merge
        } else {
            gather(vs, ts).0.len() > 0
        },
        None => gather(vs, ts).0.len() > 0,
    }
}

impl Default for Versions {
    /// An empty chain: no pending version, no history, no claimed reads.
    fn default() -> (r: Versions)
        ensures
            r@.pending is None,
            r@.versions.len() == 0,
            r@.rts == 0,
    {
        Versions { pending: None, versions: Vec::new(), rts: 0 }
    }
}

impl Versions {
    /// The chain invariant, stated over the chain's mathematical image.
    pub open spec fn wf(self) -> bool {
        chain_wf(self@)
    }

    /// Folds an accepted staging or commit frag into the chain.
    pub fn apply(&mut self, frag: &Frag)
        requires
            old(self).wf(),
            chain_accepts(old(self)@, *frag),
        ensures
            final(self).wf(),
            final(self)@ == chain_step(old(self)@, *frag),
    {
        proof {
            lemma_chain_step_wf(old(self)@, *frag);
        }
        match frag {
            Frag::VersionPendingSet(ts, val) => {
                self.pending = Some(Version::Put(*ts, crate::keys::clone_bytes(val)));
            },
            Frag::VersionPendingMerge(ts, val) => {
                self.pending = Some(Version::Merge(*ts, crate::keys::clone_bytes(val)));
            },
            Frag::VersionPendingDel(ts) => {
                self.pending = Some(Version::Del(*ts));
            },
            Frag::VersionCommit(_) => {
                let mut staged: Option<Version> = None;
                core::mem::swap(&mut staged, &mut self.pending);
                match staged {
                    Some(pending_vsn) => {
                        self.versions.push(pending_vsn);
                    },
                    None => {
                        proof {
                            assert(false);
                        }
                    },
                }
            },
            _ => {
                proof {
                    assert(false);
                }
            },
        }
        proof {
            assert(self@.versions =~= chain_step(old(self)@, *frag).versions);
            assert(self@ == chain_step(old(self)@, *frag));
        }
    }

    /// Timestamp of the newest committed version; 0 when nothing has been
    /// committed yet.
    pub fn highest_visible_timestamp(&self) -> (r: u64)
        ensures
            r == last_committed_ts(self@.versions),
    {
        let n = self.versions.len();
        if n == 0 {
            0
        } else {
            self.versions[n - 1].ts()
        }
    }

    /// Whether a staged, uncommitted version exists.
    pub fn has_pending(&self) -> (r: bool)
        ensures
            r == (self@.pending is Some),
    {
        self.pending.is_some()
    }

    /// Snapshot read at `ts`: the newest value visible at that timestamp,
    /// with the timestamp it became effective. A pending version is
    /// visible only to the reader at exactly its own timestamp. Merge
    /// versions are folded through the configured operator onto the
    /// newest `Put` base below them; `(0, None)` when nothing is visible.
    pub fn visible<M: MergeOp>(&self, key: &[u8], ts: u64, config: &Config<M>) -> (r: (
        u64,
        Option<Vec<u8>>,
    ))
        requires
            self.wf(),
            needs_merge_op(self@.pending, self@.versions, ts) ==> config.merge_operator is Some,
        ensures
            ({
                let v = visible_spec(self@.pending, self@.versions, key@, ts, config.op_spec());
                r.0 == v.0 && view_opt_bytes(r.1) == v.1
            }),
    {
        let ghost pend = self@.pending;
        let ghost pvs = self@.versions;
        let ghost op = config.op_spec();
        let mut to_merge: Vec<Vec<u8>> = Vec::new();
        let mut ret_ts: u64 = 0;
        let ghost pms = pending_pairs(pend, ts);
        match &self.pending {
            Some(pending_vsn) => {
                if pending_vsn.ts() == ts {
                    match pending_vsn {
                        Version::Del(t) => {
                            return (*t, None);
                        },
                        Version::Put(t, val) => {
                            return (*t, Some(crate::keys::clone_bytes(val)));
                        },
                        Version::Merge(t, val) => {
                            to_merge.push(crate::keys::clone_bytes(val));
                            ret_ts = *t;
                        },
                    }
                }
            },
            None => {},
        }
        let verlen = self.versions.len();
        let mut i = verlen;
        let mut base: Option<Vec<u8>> = None;
        let ghost mut gbase = FoldBase::Absent;
        let ghost mut cms: Seq<(u64, Seq<u8>)> = Seq::empty();
        proof {
            assert(pvs.take(verlen as int) =~= pvs);
            assert(cms + gather(pvs, ts).0 =~= gather(pvs, ts).0);
            assert(pms + cms =~= pms);
        }
        while i > 0
            invariant_except_break
                0 <= i <= pvs.len(),
                base is None,
                gbase == FoldBase::Absent,
                gather(pvs, ts) == (cms + gather(pvs.take(i as int), ts).0, gather(
                    pvs.take(i as int),
                    ts,
                ).1),
            invariant
                self.wf(),
                pend == self@.pending,
                pvs == self@.versions,
                verlen == pvs.len(),
                pms == pending_pairs(pend, ts),
                match pend {
                    Some(p) => vsn_ts(p) == ts ==> p is Merge,
                    None => true,
                },
                to_merge@.len() == pms.len() + cms.len(),
                forall|j: int|
                    0 <= j < to_merge@.len() ==> (#[trigger] to_merge@[j])@ == (pms + cms)[j].1,
                ret_ts == if pms.len() + cms.len() > 0 {
                    (pms + cms)[0].0
                } else {
                    0u64
                },
                forall|j: int| 0 <= j < pms.len() + cms.len() ==> (#[trigger] (pms + cms)[j]).0 >= 1,
                match gbase {
                    FoldBase::Val(t, v) => {
                        &&& base matches Some(b) && b@ == v
                        &&& pms.len() + cms.len() > 0
                        &&& gather(pvs, ts) == (cms, gbase)
                    },
                    FoldBase::Dropped(t) => {
                        &&& base is None
                        &&& pms.len() + cms.len() > 0
                        &&& gather(pvs, ts) == (cms, gbase)
                    },
                    FoldBase::Absent => base is None,
                },
            ensures
                gather(pvs, ts) == (cms, gbase),
            decreases i,
        {
            i = i - 1;
            let ghost tk = pvs.take(i + 1);
            proof {
                assert(tk.drop_last() =~= pvs.take(i as int));
                assert(tk.last() == pvs[i as int]);
                assert(self.versions@[i as int]@ == pvs[i as int]);
            }
            let vsn = &self.versions[i];
            if vsn.ts() <= ts {
                match vsn {
                    Version::Del(t) => {
                        if to_merge.is_empty() {
                            proof {
                                assert(pms + cms =~= Seq::<(u64, Seq<u8>)>::empty());
                                assert(cms =~= Seq::<(u64, Seq<u8>)>::empty());
                                assert(gather(pvs, ts) == (
                                    Seq::<(u64, Seq<u8>)>::empty(),
                                    FoldBase::Dropped(*t),
                                ));
                            }
                            return (*t, None);
                        } else {
                            proof {
                                gbase = FoldBase::Dropped(*t);
                                assert(gather(tk, ts) == (
                                    Seq::<(u64, Seq<u8>)>::empty(),
                                    FoldBase::Dropped(*t),
                                ));
                                assert(cms + gather(tk, ts).0 =~= cms);
                            }
                            break ;
                        }
                    },
                    Version::Put(t, val) => {
                        if to_merge.is_empty() {
                            proof {
                                assert(pms + cms =~= Seq::<(u64, Seq<u8>)>::empty());
                                assert(cms =~= Seq::<(u64, Seq<u8>)>::empty());
                                assert(gather(pvs, ts) == (
                                    Seq::<(u64, Seq<u8>)>::empty(),
                                    FoldBase::Val(*t, val@),
                                ));
                            }
                            return (*t, Some(crate::keys::clone_bytes(val)));
                        } else {
                            base = Some(crate::keys::clone_bytes(val));
                            if ret_ts == 0 {
                                ret_ts = *t;
                            }
                            proof {
                                gbase = FoldBase::Val(*t, val@);
                                assert(gather(tk, ts) == (
                                    Seq::<(u64, Seq<u8>)>::empty(),
                                    FoldBase::Val(*t, val@),
                                ));
                                assert(cms + gather(tk, ts).0 =~= cms);
                            }
                            break ;
                        }
                    },
                    Version::Merge(t, val) => {
                        to_merge.push(crate::keys::clone_bytes(val));
                        if ret_ts == 0 {
                            ret_ts = *t;
                        }
                        proof {
                            let ghost cms_pre = cms;
                            cms = cms.push((*t, val@));
                            assert(gather(tk, ts).0 == seq![(*t, val@)] + gather(
                                pvs.take(i as int),
                                ts,
                            ).0);
                            assert(cms_pre + gather(tk, ts).0 =~= cms + gather(
                                pvs.take(i as int),
                                ts,
                            ).0);
                            assert(pms + cms =~= (pms + cms_pre).push((*t, val@)));
                        }
                    },
                }
            } else {
                proof {
                    assert(gather(tk, ts) == gather(pvs.take(i as int), ts));
                }
            }
        }
        proof {
            if i == 0 && gbase is Absent {
                assert(pvs.take(0) =~= Seq::<VersionModel>::empty());
                assert(gather(pvs.take(0), ts) == (
                    Seq::<(u64, Seq<u8>)>::empty(),
                    FoldBase::Absent,
                ));
                assert(cms + gather(pvs.take(0), ts).0 =~= cms);
            }
        }
        let ghost ams = pms + cms;
        if to_merge.is_empty() {
            proof {
                assert(ams =~= Seq::<(u64, Seq<u8>)>::empty());
                assert(cms =~= Seq::<(u64, Seq<u8>)>::empty());
            }
            return (0, None);
        }
        let m = match &config.merge_operator {
            Some(m) => m,
            None => {
                proof {
                    assert(needs_merge_op(pend, pvs, ts));
                }
                unreached()
            },
        };
        let total = to_merge.len();
        let (mut acc, fold_len, ams_f_g, init_g): (
            Option<Vec<u8>>,
            usize,
            Ghost<Seq<(u64, Seq<u8>)>>,
            Ghost<Option<Seq<u8>>>,
        ) = match base {
            Some(b) => {
                proof {
                    assert(gbase matches FoldBase::Val(t, v) && b@ == v);
                }
                let ghost init = Some(b@);
                (Some(b), total, Ghost(ams), Ghost(init))
            },
            None => {
                if total == 1 {
                    let folded = m.merge(key, None, to_merge[0].as_slice());
                    proof {
                        assert(view_opt_bytes(folded) == m.merge_spec(key@, None, ams[0].1));
                        assert(op(key@, None::<Seq<u8>>, ams[0].1) == m.merge_spec(
                            key@,
                            None,
                            ams[0].1,
                        ));
                    }
                    return (ret_ts, folded);
                }
                let oldest = match to_merge.pop() {
                    Some(v) => v,
                    None => unreached(),
                };
                proof {
                    assert(oldest@ == ams.last().1);
                    assert forall|j: int| 0 <= j < to_merge@.len() implies (
                    #[trigger] to_merge@[j])@ == ams.drop_last()[j].1 by {
                        assert(to_merge@[j]@ == ams[j].1);
                    }
                }
                let ghost init = Some(oldest@);
                (Some(oldest), total - 1, Ghost(ams.drop_last()), Ghost(init))
            },
        };
        let ghost ams_f = ams_f_g@;
        let ghost init = init_g@;
        let mut j = fold_len;
        proof {
            assert(ams_f.skip(j as int) =~= Seq::<(u64, Seq<u8>)>::empty());
            assert(view_opt_bytes(acc) == fold_merges(op, key@, init, ams_f.skip(j as int)));
        }
        while j > 0
            invariant
                0 <= j <= fold_len,
                fold_len <= to_merge@.len(),
                fold_len == ams_f.len(),
                op == config.op_spec(),
                config.merge_operator matches Some(mm) && mm == *m,
                forall|j2: int|
                    0 <= j2 < fold_len ==> (#[trigger] to_merge@[j2])@ == ams_f[j2].1,
                view_opt_bytes(acc) == fold_merges(op, key@, init, ams_f.skip(j as int)),
            decreases j,
        {
            j = j - 1;
            let ghost acc_pre = view_opt_bytes(acc);
            let existing = match &acc {
                Some(a) => Some(a.as_slice()),
                None => None,
            };
            let merged = m.merge(key, existing, to_merge[j].as_slice());
            acc = merged;
            proof {
                assert(ams_f.skip(j as int)[0] == ams_f[j as int]);
                assert(ams_f.skip(j as int).skip(1) =~= ams_f.skip(j + 1));
                assert(view_opt_bytes(acc) == m.merge_spec(key@, acc_pre, ams_f[j as int].1));
                assert(op(key@, acc_pre, ams_f[j as int].1) == m.merge_spec(
                    key@,
                    acc_pre,
                    ams_f[j as int].1,
                ));
            }
        }
        proof {
            assert(ams_f.skip(0) =~= ams_f);
        }
        (ret_ts, acc)
    }

    /// Raises the claimed read-timestamp to at least `ts`; never lowers it.
    pub fn bump_rts(&mut self, ts: u64)
        ensures
            final(self)@.rts == if old(self)@.rts >= ts {
                old(self)@.rts
            } else {
                ts
            },
            final(self)@.pending == old(self)@.pending,
            final(self)@.versions == old(self)@.versions,
    {
        if self.rts < ts {
            self.rts = ts;
        }
    }
}

/// Reads a key's visible version out of a fetched version-chain page.
/// The external page cache performs the fetch; its outcome is handed in,
/// and a failed fetch propagates unchanged.
pub fn pull_version<M: MergeOp>(
    fetched: Result<&Frag, ()>,
    key: &[u8],
    ts: u64,
    config: &Config<M>,
) -> (r: Result<(u64, Option<Vec<u8>>), ()>)
    requires
        match fetched {
            Ok(f) => {
                &&& *f is Versions
                &&& f.spec_versions().wf()
                &&& needs_merge_op(f.spec_versions()@.pending, f.spec_versions()@.versions, ts)
                    ==> config.merge_operator is Some
            },
            Err(_) => true,
        },
    ensures
        match fetched {
            Ok(f) => {
                let v = visible_spec(
                    f.spec_versions()@.pending,
                    f.spec_versions()@.versions,
                    key@,
                    ts,
                    config.op_spec(),
                );
                r matches Ok(got) && got.0 == v.0 && view_opt_bytes(got.1) == v.1
            },
            Err(_) => r is Err,
        },
{
    match fetched {
        Ok(frag) => {
            let versions = frag.unwrap_versions();
            Ok(versions.visible(key, ts, config))
        },
        Err(_) => Err(()),
    }
}

/// Frags applied one after another, each accepted in the state the
/// previous ones produced.
pub open spec fn chain_accepts_all(m: VersionsModel, frags: Seq<Frag>) -> bool
    decreases frags.len(),
{
    frags.len() == 0 || (chain_accepts(m, frags[0]) && chain_accepts_all(
        chain_step(m, frags[0]),
        frags.skip(1),
    ))
}

/// The chain state a sequence of frags leaves behind.
pub open spec fn chain_run(m: VersionsModel, frags: Seq<Frag>) -> VersionsModel
    decreases frags.len(),
{
    if frags.len() == 0 {
        m
    } else {
        chain_run(chain_step(m, frags[0]), frags.skip(1))
    }
}

/// Version monotonicity: after any sequence of accepted frags, the
/// committed history is strictly ascending in timestamp.
pub proof fn lemma_version_monotonicity(m: VersionsModel, frags: Seq<Frag>)
    requires
        chain_wf(m),
        chain_accepts_all(m, frags),
    ensures
        chain_wf(chain_run(m, frags)),
        forall|i: int, j: int|
            0 <= i < j < chain_run(m, frags).versions.len() ==> vsn_ts(
                #[trigger] chain_run(m, frags).versions[i],
            ) < vsn_ts(#[trigger] chain_run(m, frags).versions[j]),
    decreases frags.len(),
{
    if frags.len() > 0 {
        lemma_chain_step_wf(m, frags[0]);
        lemma_version_monotonicity(chain_step(m, frags[0]), frags.skip(1));
    }
}

/// Whether a frag stages a pending version.
pub open spec fn is_staging(frag: Frag) -> bool {
    match frag {
        Frag::VersionPendingSet(..) => true,
        Frag::VersionPendingMerge(..) => true,
        Frag::VersionPendingDel(..) => true,
        _ => false,
    }
}

/// Pending uniqueness: the chain holds at most one pending version by
/// construction, and no staging frag is accepted while one is pending.
pub proof fn lemma_pending_uniqueness(m: VersionsModel, frag: Frag)
    requires
        m.pending is Some,
        is_staging(frag),
    ensures
        !chain_accepts(m, frag),
{
}

/// Snapshot stability, one step: a read at or below the newest committed
/// timestamp is unchanged by the next accepted frag.
pub proof fn lemma_snapshot_stability(
    m: VersionsModel,
    frag: Frag,
    key: Seq<u8>,
    ts_star: u64,
    op: spec_fn(Seq<u8>, Option<Seq<u8>>, Seq<u8>) -> Option<Seq<u8>>,
)
    requires
        chain_wf(m),
        chain_accepts(m, frag),
        ts_star <= last_committed_ts(m.versions),
    ensures
        visible_spec(
            chain_step(m, frag).pending,
            chain_step(m, frag).versions,
            key,
            ts_star,
            op,
        ) == visible_spec(m.pending, m.versions, key, ts_star, op),
{
    match frag {
        Frag::VersionCommit(_) => {
            let p = m.pending->0;
            let vs2 = m.versions.push(p);
            assert(vsn_ts(p) > ts_star);
            assert(vs2.drop_last() =~= m.versions);
            assert(gather(vs2, ts_star) == gather(m.versions, ts_star));
        },
        _ => {},
    }
}

/// Snapshot stability: a read at or below the newest committed timestamp
/// is unchanged by any sequence of later accepted frags.
pub proof fn lemma_snapshot_stability_seq(
    m: VersionsModel,
    frags: Seq<Frag>,
    key: Seq<u8>,
    ts_star: u64,
    op: spec_fn(Seq<u8>, Option<Seq<u8>>, Seq<u8>) -> Option<Seq<u8>>,
)
    requires
        chain_wf(m),
        chain_accepts_all(m, frags),
        ts_star <= last_committed_ts(m.versions),
    ensures
        visible_spec(
            chain_run(m, frags).pending,
            chain_run(m, frags).versions,
            key,
            ts_star,
            op,
        ) == visible_spec(m.pending, m.versions, key, ts_star, op),
    decreases frags.len(),
{
    if frags.len() > 0 {
        let m2 = chain_step(m, frags[0]);
        lemma_snapshot_stability(m, frags[0], key, ts_star, op);
        lemma_chain_step_wf(m, frags[0]);
        assert(last_committed_ts(m2.versions) >= last_committed_ts(m.versions));
        lemma_snapshot_stability_seq(m2, frags.skip(1), key, ts_star, op);
    }
}

/// The read-timestamp a sequence of bumps leaves behind, starting at `r0`.
pub open spec fn bump_run(r0: u64, bumps: Seq<u64>) -> u64
    decreases bumps.len(),
{
    if bumps.len() == 0 {
        r0
    } else {
        bump_run(
            if r0 >= bumps[0] {
                r0
            } else {
                bumps[0]
            },
            bumps.skip(1),
        )
    }
}

/// rts monotonicity: after any sequence of bumps, the stored
/// read-timestamp is exactly the maximum of the start value and every
/// bumped timestamp.
pub proof fn lemma_rts_is_max(r0: u64, bumps: Seq<u64>)
    ensures
        bump_run(r0, bumps) >= r0,
        forall|i: int| 0 <= i < bumps.len() ==> bump_run(r0, bumps) >= #[trigger] bumps[i],
        bump_run(r0, bumps) == r0 || exists|i: int|
            0 <= i < bumps.len() && bump_run(r0, bumps) == #[trigger] bumps[i],
    decreases bumps.len(),
{
    if bumps.len() > 0 {
        let r1 = if r0 >= bumps[0] {
            r0
        } else {
            bumps[0]
        };
        lemma_rts_is_max(r1, bumps.skip(1));
        assert forall|i: int| 0 <= i < bumps.len() implies bump_run(r0, bumps)
            >= #[trigger] bumps[i] by {
            if i > 0 {
                assert(bumps.skip(1)[i - 1] == bumps[i]);
            }
        }
        if bump_run(r0, bumps) != r0 {
            if bump_run(r1, bumps.skip(1)) == r1 {
                assert(bump_run(r0, bumps) == bumps[0]);
            } else {
                let i = choose|i: int|
                    0 <= i < bumps.skip(1).len() && bump_run(r1, bumps.skip(1))
                        == #[trigger] bumps.skip(1)[i];
                assert(bumps[i + 1] == bumps.skip(1)[i]);
                assert(bump_run(r0, bumps) == bumps[i + 1]);
            }
        }
    }
}

/// Reads ignore the read-timestamp: two chains with the same pending and
/// committed state read the same, whatever their `rts`.
pub proof fn lemma_visible_ignores_rts(
    a: VersionsModel,
    b: VersionsModel,
    key: Seq<u8>,
    ts: u64,
    op: spec_fn(Seq<u8>, Option<Seq<u8>>, Seq<u8>) -> Option<Seq<u8>>,
)
    requires
        a.pending == b.pending,
        a.versions == b.versions,
    ensures
        visible_spec(a.pending, a.versions, key, ts, op) == visible_spec(
            b.pending,
            b.versions,
            key,
            ts,
            op,
        ),
{
}

} // verus!
