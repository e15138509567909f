//! The delta forest: one node per pack entry in ascending offset order, each
//! delta node holding a resolved parent handle, each base node none.
use vstd::prelude::*;

verus! {

use crate::entry::entry_at;
use crate::entry::parse_entry_header;
use crate::entry::parse_ok;
use crate::entry::BaseRef;
use crate::entry::BaseSpec;
use crate::entry::EntryHeader;
use crate::entry::header_matches;
use crate::errors::Error;
use crate::index_file;
use crate::index_file::idx_count;
use crate::index_file::name_at;
use crate::index_file::offset_at;

/// The delta forest over the sorted entries: `parent[k]` is the node of the
/// base of entry `k`, always earlier in the order; `has_child[j]` says that
/// some entry names node `j` as its base.
pub struct DeltaTree {
    pub parent: Vec<Option<usize>>,
    pub has_child: Vec<bool>,
}

/// Some node of `parent` names `j` as its base.
pub open spec fn has_parent_ref(parent: Seq<Option<usize>>, j: int) -> bool {
    exists|k: int| 0 <= k < parent.len() && #[trigger] parent[k] == Some(j as usize)
}

/// `pj` resolves entry `k`'s base reference: no parent for a non-delta; for
/// an offset delta, the earlier entry at exactly the back distance; for a
/// reference delta, the earlier entry at the offset the index records for
/// the first position carrying the base name.
pub open spec fn base_ok(
    p: Seq<u8>,
    idx: Seq<u8>,
    ents: Seq<(u64, u32)>,
    k: int,
    pj: Option<usize>,
) -> bool {
    match entry_at(p, ents[k].0 as int) {
        Option::None => false,
        Option::Some(es) => match es.base {
            BaseSpec::NotDelta => pj is None,
            BaseSpec::Distance(dd) => pj matches Some(j) && (j as int) < k && ents[
                j as int
            ].0 as nat + dd == ents[k].0 as nat && (forall|t: int|
                0 <= t < j ==> (#[trigger] ents[t]).0 as nat + dd != ents[k].0 as nat),
            BaseSpec::Name(nm) => pj matches Some(j) && (j as int) < k && exists|pos: int|
                {
                    &&& 0 <= pos < idx_count(idx)
                    &&& #[trigger] name_at(idx, pos) == nm
                    &&& forall|q: int| 0 <= q < pos ==> name_at(idx, q) != nm
                    &&& ents[j as int].0 as nat == offset_at(idx, pos)
                    &&& forall|t: int|
                        0 <= t < j ==> (#[trigger] ents[t]).0 as nat != offset_at(idx, pos)
                },
        },
    }
}

/// Node `k`'s stored parent handle resolves its base reference.
pub open spec fn node_ok(
    p: Seq<u8>,
    idx: Seq<u8>,
    ents: Seq<(u64, u32)>,
    parent: Seq<Option<usize>>,
    k: int,
) -> bool {
    base_ok(p, idx, ents, k, parent[k])
}

/// Entry `k`'s base can be resolved at all: its header parses and, for a
/// delta, an earlier entry lies at the referenced offset.
pub open spec fn resolvable(p: Seq<u8>, idx: Seq<u8>, ents: Seq<(u64, u32)>, k: int) -> bool {
    &&& parse_ok(p, ents[k].0 as int)
    &&& match entry_at(p, ents[k].0 as int) {
        Option::None => false,
        Option::Some(es) => match es.base {
            BaseSpec::NotDelta => true,
            BaseSpec::Distance(dd) => dd <= ents[k].0 as nat && exists|j: int|
                0 <= j < k && (#[trigger] ents[j]).0 as nat + dd == ents[k].0 as nat,
            BaseSpec::Name(nm) => exists|pos: int|
                {
                    &&& 0 <= pos < idx_count(idx)
                    &&& #[trigger] name_at(idx, pos) == nm
                    &&& forall|q: int| 0 <= q < pos ==> name_at(idx, q) != nm
                    &&& exists|j: int|
                        0 <= j < k && (#[trigger] ents[j]).0 as nat == offset_at(idx, pos)
                },
        },
    }
}

/// Why building the forest failed at entry `k`, by error: an unparsable
/// header is malformed; an offset delta whose base is missing dangles; a
/// reference delta whose base is missing makes the pack thin.
pub open spec fn build_error_cause(
    p: Seq<u8>,
    idx: Seq<u8>,
    ents: Seq<(u64, u32)>,
    k: int,
    e: Error,
) -> bool {
    &&& !resolvable(p, idx, ents, k)
    &&& match e {
        Error::MalformedHeader => !parse_ok(p, ents[k].0 as int),
        Error::DanglingOffsetDelta => entry_at(p, ents[k].0 as int) matches Some(es)
            && es.base is Distance,
        Error::ThinPackUnsupported => entry_at(p, ents[k].0 as int) matches Some(es)
            && es.base is Name,
        _ => false,
    }
}

/// Find the first slot of `ents` holding pack offset `target`.
#[verifier::loop_isolation(false)]
fn find_offset(ents: &Vec<(u64, u32)>, target: u64) -> (r: Option<usize>)
    ensures
        match r {
            Some(j) => j < ents@.len() && ents@[j as int].0 == target && forall|t: int|
                0 <= t < j ==> (#[trigger] ents@[t]).0 != target,
            None => forall|j: int| 0 <= j < ents@.len() ==> (#[trigger] ents@[j]).0 != target,
        },
{
    let mut j: usize = 0;
    let n = ents.len();
    while j < n
        invariant
            j <= n,
            forall|t: int| 0 <= t < j ==> (#[trigger] ents@[t]).0 != target,
        decreases n - j,
    {
        if ents[j].0 == target {
            return Some(j);
        }
        j = j + 1;
    }
    None
}

/// Resolve the base reference of entry `k`, whose parsed header is `h`, to
/// an earlier node.
#[verifier::loop_isolation(false)]
#[verifier::rlimit(100)]
fn resolve_base(
    index: &index_file::File,
    ents: &Vec<(u64, u32)>,
    k: usize,
    h: &EntryHeader,
    Ghost(p): Ghost<Seq<u8>>,
) -> (r: Result<Option<usize>, Error>)
    requires
        index.wf(),
        k < ents@.len(),
        header_matches(*h, p, ents@[k as int].0 as int),
        parse_ok(p, ents@[k as int].0 as int),
        forall|k1: int, k2: int|
            0 <= k1 <= k2 < ents@.len() ==> (#[trigger] ents@[k1]).0 <= (#[trigger] ents@[
                k2
            ]).0,
    ensures
        match r {
            Ok(pj) => base_ok(p, index.data@, ents@, k as int, pj),
            Err(e) => build_error_cause(p, index.data@, ents@, k as int, e),
        },
{
    let ofs = ents[k].0;
    match &h.base {
        BaseRef::NotDelta => Ok(None),
        BaseRef::Distance(dd) => {
            let dd = *dd;
            if dd > ofs {
                return Err(Error::DanglingOffsetDelta);
            }
            match find_offset(ents, ofs - dd) {
                Some(j) => {
                    if j >= k {
                        proof {
                            assert(ents@[j as int].0 >= ents@[k as int].0);
                            assert(dd == 0);
                            assert forall|t: int|
                                0 <= t < k implies (#[trigger] ents@[t]).0 as nat + dd as nat
                                != ents@[k as int].0 as nat by {
                                assert(ents@[t].0 != ofs - dd);
                            }
                        }
                        return Err(Error::DanglingOffsetDelta);
                    }
                    Ok(Some(j))
                },
                None => {
                    proof {
                        assert forall|t: int|
                            0 <= t < k implies (#[trigger] ents@[t]).0 as nat + dd as nat
                            != ents@[k as int].0 as nat by {
                            assert(ents@[t].0 != ofs - dd);
                        }
                    }
                    Err(Error::DanglingOffsetDelta)
                },
            }
        },
        BaseRef::Name(nm) => {
            proof {
                crate::entry::lemma_size_tail_end(
                    p,
                    ents@[k as int].0 as int + 1,
                    4,
                );
                match entry_at(p, ents@[k as int].0 as int) {
                    Option::Some(es) => {
                        match es.base {
                            BaseSpec::Name(s) => {
                                assert(nm@ == s);
                                assert(s.len() == 20);
                            },
                            _ => {
                                assert(false);
                            },
                        }
                    },
                    Option::None => {
                        assert(false);
                    },
                }
                assert(nm@.len() == 20);
            }
            let pos = match index.lookup(nm.as_slice()) {
                Some(pos) => pos,
                None => {
                    return Err(Error::ThinPackUnsupported);
                },
            };
            let bofs = index.offset(pos);
            match find_offset(ents, bofs) {
                Some(j) => {
                    if j >= k {
                        proof {
                            lemma_same_least_pos(index.data@, nm@, pos as int);
                            assert forall|t: int|
                                0 <= t < k implies (#[trigger] ents@[t]).0 as nat != offset_at(
                                index.data@,
                                pos as int,
                            ) by {
                                assert(ents@[t].0 != bofs);
                            }
                        }
                        return Err(Error::ThinPackUnsupported);
                    }
                    Ok(Some(j))
                },
                None => {
                    proof {
                        lemma_same_least_pos(index.data@, nm@, pos as int);
                        assert forall|t: int|
                            0 <= t < k implies (#[trigger] ents@[t]).0 as nat != offset_at(
                            index.data@,
                            pos as int,
                        ) by {
                            assert(ents@[t].0 != bofs);
                        }
                    }
                    Err(Error::ThinPackUnsupported)
                },
            }
        },
    }
}

/// There is at most one first position carrying a given name.
proof fn lemma_same_least_pos(idx: Seq<u8>, nm: Seq<u8>, pos: int)
    requires
        0 <= pos,
        name_at(idx, pos) == nm,
        forall|q: int| 0 <= q < pos ==> name_at(idx, q) != nm,
    ensures
        forall|pos2: int|
            (0 <= pos2 && #[trigger] name_at(idx, pos2) == nm && (forall|q: int|
                0 <= q < pos2 ==> name_at(idx, q) != nm)) ==> pos2 == pos,
{
}

impl DeltaTree {
    /// The roots of the forest: every node without a parent, ascending.
    #[verifier::loop_isolation(false)]
    pub fn bases(&self) -> (r: Vec<usize>)
        ensures
            forall|t: int|
                0 <= t < r@.len() ==> (#[trigger] r@[t]) < self.parent@.len()
                    && self.parent@[r@[t] as int] is None,
            forall|k: int|
                0 <= k < self.parent@.len() && (#[trigger] self.parent@[k]) is None
                    ==> r@.contains(k as usize),
            forall|t1: int, t2: int|
                0 <= t1 < t2 < r@.len() ==> (#[trigger] r@[t1]) < (#[trigger] r@[t2]),
    {
        let n = self.parent.len();
        let mut r: Vec<usize> = Vec::new();
        let mut k: usize = 0;
        while k < n
            invariant
                k <= n,
                forall|t: int|
                    0 <= t < r@.len() ==> (#[trigger] r@[t]) < k && self.parent@[r@[
                        t
                    ] as int] is None,
                forall|q: int|
                    0 <= q < k && (#[trigger] self.parent@[q]) is None ==> r@.contains(
                        q as usize,
                    ),
                forall|t1: int, t2: int|
                    0 <= t1 < t2 < r@.len() ==> (#[trigger] r@[t1]) < (#[trigger] r@[t2]),
            decreases n - k,
        {
            let ghost old_r = r@;
            if self.parent[k].is_none() {
                r.push(k);
            }
            proof {
                assert forall|q: int|
                    0 <= q < k + 1 && (#[trigger] self.parent@[q]) is None implies r@.contains(
                    q as usize,
                ) by {
                    if q < k {
                        let w = choose|w: int| 0 <= w < old_r.len() && old_r[w] == q as usize;
                        assert(r@[w] == q as usize);
                    } else {
                        assert(r@[r@.len() - 1] == q as usize);
                    }
                }
            }
            k = k + 1;
        }
        r
    }

    /// Fill `out` with the children of `node`: every node whose parent it is.
    #[verifier::loop_isolation(false)]
    pub fn children(&self, node: usize, out: &mut Vec<usize>)
        ensures
            forall|t: int|
                0 <= t < final(out)@.len() ==> (#[trigger] final(out)@[t]) < self.parent@.len()
                    && self.parent@[final(out)@[t] as int] == Some(node),
            forall|k: int|
                0 <= k < self.parent@.len() && (#[trigger] self.parent@[k]) == Some(node)
                    ==> final(out)@.contains(k as usize),
            forall|t1: int, t2: int|
                0 <= t1 < t2 < final(out)@.len() ==> (#[trigger] final(out)@[t1]) < (
                #[trigger] final(out)@[t2]),
    {
        out.clear();
        let n = self.parent.len();
        let mut k: usize = 0;
        while k < n
            invariant
                k <= n,
                forall|t: int|
                    0 <= t < out@.len() ==> (#[trigger] out@[t]) < k && self.parent@[out@[
                        t
                    ] as int] == Some(node),
                forall|q: int|
                    0 <= q < k && (#[trigger] self.parent@[q]) == Some(node) ==> out@.contains(
                        q as usize,
                    ),
                forall|t1: int, t2: int|
                    0 <= t1 < t2 < out@.len() ==> (#[trigger] out@[t1]) < (#[trigger] out@[
                        t2
                    ]),
            decreases n - k,
        {
            let ghost old_out = out@;
            let is_child = match self.parent[k] {
                Some(j) => j == node,
                None => false,
            };
            if is_child {
                out.push(k);
            }
            proof {
                assert forall|q: int|
                    0 <= q < k + 1 && (#[trigger] self.parent@[q]) == Some(node) implies out@
                    .contains(q as usize) by {
                    if q < k {
                        let w = choose|w: int|
                            0 <= w < old_out.len() && old_out[w] == q as usize;
                        assert(out@[w] == q as usize);
                    } else {
                        assert(out@[out@.len() - 1] == q as usize);
                    }
                }
            }
            k = k + 1;
        }
    }

    /// Build the forest over the offset-sorted entries: parse each entry
    /// header in ascending order and resolve its base to an earlier node.
    /// A base outside the pack, or later in it, cannot be used.
    #[verifier::loop_isolation(false)]
    #[verifier::rlimit(100)]
    pub fn from_sorted_offsets(
        p: &[u8],
        index: &index_file::File,
        ents: &Vec<(u64, u32)>,
    ) -> (r: Result<DeltaTree, Error>)
        requires
            index.wf(),
            forall|k1: int, k2: int|
                0 <= k1 <= k2 < ents@.len() ==> (#[trigger] ents@[k1]).0 <= (#[trigger] ents@[
                    k2
                ]).0,
        ensures
            match r {
                Ok(t) => {
                    &&& t.parent@.len() == ents@.len()
                    &&& t.has_child@.len() == ents@.len()
                    &&& forall|k: int|
                        0 <= k < ents@.len() ==> parse_ok(p@, (#[trigger] ents@[k]).0 as int)
                            && node_ok(p@, index.data@, ents@, t.parent@, k)
                    &&& forall|j: int|
                        0 <= j < ents@.len() ==> (#[trigger] t.has_child@[j]
                            <==> has_parent_ref(t.parent@, j))
                },
                Err(e) => exists|k: int|
                    0 <= k < ents@.len() && #[trigger] build_error_cause(
                        p@,
                        index.data@,
                        ents@,
                        k,
                        e,
                    ),
            },
    {
        let n = ents.len();
        let mut parent: Vec<Option<usize>> = Vec::new();
        let mut has_child: Vec<bool> = Vec::new();
        let mut k: usize = 0;
        while k < n
            invariant
                k <= n,
                n == ents@.len(),
                parent@.len() == k,
                has_child@.len() == k,
                forall|t: int|
                    0 <= t < k ==> parse_ok(p@, (#[trigger] ents@[t]).0 as int) && node_ok(
                        p@,
                        index.data@,
                        ents@,
                        parent@,
                        t,
                    ),
                forall|j: int|
                    0 <= j < k ==> (#[trigger] has_child@[j] <==> has_parent_ref(parent@, j)),
                forall|t: int|
                    0 <= t < k ==> ((#[trigger] parent@[t]) matches Some(j) ==> (j as int)
                        < t),
            decreases n - k,
        {
            let ghost old_parent = parent@;
            let ghost old_has_child = has_child@;
            let ofs = ents[k].0;
            if ofs >= p.len() as u64 {
                proof {
                    assert(!parse_ok(p@, ents@[k as int].0 as int));
                    assert(build_error_cause(
                        p@,
                        index.data@,
                        ents@,
                        k as int,
                        Error::MalformedHeader,
                    ));
                }
                return Err(Error::MalformedHeader);
            }
            let h = match parse_entry_header(p, ofs as usize) {
                Ok(h) => h,
                Err(e) => {
                    proof {
                        assert(build_error_cause(p@, index.data@, ents@, k as int, e));
                    }
                    return Err(e);
                },
            };
            let pj = match resolve_base(index, ents, k, &h, Ghost(p@)) {
                Ok(pj) => pj,
                Err(e) => {
                    return Err(e);
                },
            };
            match pj {
                Some(j) => {
                    proof {
                        assert((j as int) < k);
                    }
                    has_child.set(j, true);
                },
                None => {},
            }
            parent.push(pj);
            has_child.push(false);
            proof {
                assert forall|t: int|
                    0 <= t < k + 1 implies parse_ok(p@, (#[trigger] ents@[t]).0 as int)
                    && node_ok(p@, index.data@, ents@, parent@, t) by {
                    if t < k {
                        assert(parent@[t] == old_parent[t]);
                        assert(node_ok(p@, index.data@, ents@, old_parent, t));
                        assert(base_ok(p@, index.data@, ents@, t, old_parent[t]));
                    } else {
                        assert(parent@[t] == pj);
                        assert(base_ok(p@, index.data@, ents@, t, pj));
                    }
                }
                assert forall|t: int|
                    0 <= t < k + 1 implies ((#[trigger] parent@[t]) matches Some(j) ==> (
                j as int) < t) by {
                    if t < k {
                        assert(parent@[t] == old_parent[t]);
                    } else {
                        assert(parent@[t] == pj);
                        if pj is Some {
                            assert(base_ok(p@, index.data@, ents@, t, pj));
                        }
                    }
                }
                assert forall|j: int|
                    0 <= j < k + 1 implies (#[trigger] has_child@[j] <==> has_parent_ref(
                    parent@,
                    j,
                )) by {
                    if has_child@[j] {
                        if j < k && old_has_child[j] {
                            assert(has_parent_ref(old_parent, j));
                            let k0 = choose|k0: int|
                                0 <= k0 < old_parent.len() && #[trigger] old_parent[k0] == Some(
                                    j as usize,
                                );
                            assert(parent@[k0] == Some(j as usize));
                        } else {
                            assert(parent@[k as int] == Some(j as usize));
                        }
                    } else {
                        assert forall|k0: int|
                            0 <= k0 < parent@.len() implies #[trigger] parent@[k0] != Some(
                            j as usize,
                        ) by {
                            if k0 < k {
                                assert(parent@[k0] == old_parent[k0]);
                                if old_parent[k0] == Some(j as usize) {
                                    assert((j as int) < k0);
                                    assert(has_parent_ref(old_parent, j));
                                    assert(old_has_child[j]);
                                    assert(false);
                                }
                            } else {
                                if parent@[k0] == Some(j as usize) {
                                    assert(pj == Some(j as usize));
                                    if j < k {
                                        assert(has_child@[j]);
                                        assert(false);
                                    } else {
                                        assert(j == k && (j as int) < k);
                                        assert(false);
                                    }
                                }
                            }
                        }
                    }
                }
            }
            k = k + 1;
        }
        Ok(DeltaTree { parent, has_child })
    }
}

} // verus!
