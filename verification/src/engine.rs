//! The verification engine: walk the sorted entries in pack order (every
//! base precedes its deltas), reconstruct each object through the delta
//! forest, and check it against the recorded name and checksum.
use vstd::prelude::*;

verus! {

use crate::data;
use crate::data::pack_trailer;
use crate::data::pack_object_count;
use crate::delta::apply_delta;
use crate::delta::delta_result;
use crate::delta::sizes_fit;
use crate::digest::crc32;
use crate::digest::crc32_of;
use crate::digest::inflate;
use crate::digest::inflate_of;
use crate::digest::sha1_of;
use crate::digest::sha1_pair;
use crate::entry::entry_at;
use crate::entry::parse_entry_header;
use crate::entry::parse_ok;
use crate::entry::lemma_header_end_bounds;
use crate::entry::EntryKind;
use crate::errors::Error;
use crate::graph::has_parent_ref;
use crate::graph::DeltaTree;
use crate::index_file;
use crate::index_file::contains_position;
use crate::index_file::crc32_at;
use crate::index_file::idx_count;
use crate::index_file::idx_pack_checksum;
use crate::index_file::name_at;
use crate::index_file::offset_at;
use crate::kinds::ObjectKind;
use crate::loose_header;
use crate::loose_header::encoded;

/// How much work is asked of the engine. Hashing and checksum verification
/// are always performed; the decode modes announce that the caller will also
/// feed each reconstructed object to its object-grammar decoder.
#[derive(Clone, Copy, PartialEq, Eq, Structural, Debug)]
pub enum Mode {
    Sha1CRC32,
    Sha1CRC32Decode,
    Sha1CRC32DecodeEncode,
}

/// What was found for one pack entry.
#[derive(Clone, PartialEq, Eq, Debug)]
pub struct EntryOutcome {
    pub pack_offset: u64,
    pub index_position: u32,
    pub kind: ObjectKind,
    pub inflated_size: u64,
    pub compressed_size: u64,
    pub num_deltas: u32,
    pub hash_match: bool,
    pub crc32_match: bool,
    /// Left open by the engine: the object-grammar decoder is the caller's.
    pub decoded_ok: Option<bool>,
    /// Left open by the engine, as `decoded_ok` is.
    pub re_encoded_matches: Option<bool>,
}

/// The result of verifying a whole pack.
pub struct Outcome {
    pub mode: Mode,
    pub entries: Vec<EntryOutcome>,
    /// Every entry's hash and checksum matched.
    pub success: bool,
}

/// Where the compressed bytes of entry `k` end: at the next entry, or at the
/// pack trailer for the last one.
pub open spec fn entry_end(p: Seq<u8>, ents: Seq<(u64, u32)>, k: int) -> int {
    if k + 1 < ents.len() {
        ents[k + 1].0 as int
    } else {
        p.len() - 20
    }
}

/// The compressed payload of entry `k`: after its header, up to its end.
pub open spec fn payload(p: Seq<u8>, ents: Seq<(u64, u32)>, k: int) -> Seq<u8> {
    match entry_at(p, ents[k].0 as int) {
        Option::None => Seq::empty(),
        Option::Some(es) => p.subrange(es.header_end, entry_end(p, ents, k)),
    }
}

/// The reconstructed bytes of entry `k`: a base inflates its payload, which
/// must have the declared size; a delta inflates its instruction stream and
/// applies it to the parent's reconstruction.
pub open spec fn recon(
    p: Seq<u8>,
    ents: Seq<(u64, u32)>,
    parent: Seq<Option<usize>>,
    k: int,
) -> Option<Seq<u8>>
    decreases k,
{
    if !(0 <= k < ents.len() && k < parent.len()) {
        None
    } else {
        match entry_at(p, ents[k].0 as int) {
            Option::None => None,
            Option::Some(es) => match parent[k] {
                Option::None => match inflate_of(payload(p, ents, k)) {
                    Option::None => None,
                    Option::Some(v) => if v.len() == es.size {
                        Some(v)
                    } else {
                        None
                    },
                },
                Option::Some(j) => if 0 <= (j as int) < k {
                    match recon(p, ents, parent, j as int) {
                        Option::None => None,
                        Option::Some(pb) => match inflate_of(payload(p, ents, k)) {
                            Option::None => None,
                            Option::Some(db) => if db.len() == es.size {
                                delta_result(pb, db)
                            } else {
                                None
                            },
                        },
                    }
                } else {
                    None
                },
            },
        }
    }
}

/// The object kind of entry `k`: its own for a base, the root's for a delta.
pub open spec fn rkind(
    p: Seq<u8>,
    ents: Seq<(u64, u32)>,
    parent: Seq<Option<usize>>,
    k: int,
) -> ObjectKind
    decreases k,
{
    if !(0 <= k < ents.len() && k < parent.len()) {
        ObjectKind::Blob
    } else {
        match parent[k] {
            Option::Some(j) => if 0 <= (j as int) < k {
                rkind(p, ents, parent, j as int)
            } else {
                ObjectKind::Blob
            },
            Option::None => match entry_at(p, ents[k].0 as int) {
                Option::Some(es) => match es.kind {
                    EntryKind::Commit => ObjectKind::Commit,
                    EntryKind::Tree => ObjectKind::Tree,
                    EntryKind::Blob => ObjectKind::Blob,
                    EntryKind::Tag => ObjectKind::Tag,
                    _ => ObjectKind::Blob,
                },
                Option::None => ObjectKind::Blob,
            },
        }
    }
}

/// The delta chain depth of entry `k`.
pub open spec fn depth(parent: Seq<Option<usize>>, k: int) -> nat
    decreases k,
{
    if !(0 <= k < parent.len()) {
        0
    } else {
        match parent[k] {
            Option::None => 0,
            Option::Some(j) => if (j as int) < k {
                depth(parent, j as int) + 1
            } else {
                0
            },
        }
    }
}

/// Entry `k` can be processed without a structural failure: its header
/// parses, its payload window is inside the pack, its reconstruction
/// succeeds, and a delta's declared sizes fit in 64 bits.
pub open spec fn entry_ok(
    p: Seq<u8>,
    ents: Seq<(u64, u32)>,
    parent: Seq<Option<usize>>,
    k: int,
) -> bool {
    &&& parse_ok(p, ents[k].0 as int)
    &&& match entry_at(p, ents[k].0 as int) {
        Option::None => false,
        Option::Some(es) => es.header_end <= entry_end(p, ents, k),
    }
    &&& entry_end(p, ents, k) <= p.len() - 20
    &&& recon(p, ents, parent, k) is Some
    &&& (parent[k] is Some ==> match inflate_of(payload(p, ents, k)) {
        Option::Some(db) => sizes_fit(db),
        Option::None => true,
    })
}

/// `ents` is the offset-sorted listing of the index: one slot per index
/// position, offsets as recorded, ascending, equal offsets ordered by
/// position. There is exactly one such listing for a given index.
pub open spec fn valid_listing(idx: Seq<u8>, ents: Seq<(u64, u32)>) -> bool {
    &&& ents.len() == idx_count(idx)
    &&& forall|k: int|
        0 <= k < ents.len() ==> (#[trigger] ents[k]).1 < idx_count(idx) && ents[k].0 as nat
            == offset_at(idx, ents[k].1 as int)
    &&& forall|k1: int, k2: int|
        0 <= k1 <= k2 < ents.len() ==> (#[trigger] ents[k1]).0 <= (#[trigger] ents[k2]).0
    &&& forall|k1: int, k2: int|
        0 <= k1 < k2 < ents.len() && (#[trigger] ents[k1]).0 == (#[trigger] ents[k2]).0
            ==> ents[k1].1 < ents[k2].1
    &&& forall|pp: int| 0 <= pp < idx_count(idx) ==> #[trigger] contains_position(ents, pp)
}

/// `parent` is the delta forest resolved over the listing: one handle per
/// entry, each resolving its base reference.
pub open spec fn forest_over(
    p: Seq<u8>,
    idx: Seq<u8>,
    ents: Seq<(u64, u32)>,
    parent: Seq<Option<usize>>,
) -> bool {
    &&& parent.len() == ents.len()
    &&& forall|k: int| 0 <= k < ents.len() ==> #[trigger] node_ok_at(p, idx, ents, parent, k)
}

/// Why the walk failed at entry `k`, by error: a header or payload window
/// that cannot be read is malformed; a payload that does not inflate fails
/// decompression; inflated bytes of the wrong length mismatch the size; a
/// delta stream that does not fit or apply to its base is malformed.
pub open spec fn walk_error_cause(
    p: Seq<u8>,
    ents: Seq<(u64, u32)>,
    parent: Seq<Option<usize>>,
    k: int,
    e: Error,
) -> bool {
    &&& !entry_ok(p, ents, parent, k)
    &&& match e {
        Error::MalformedHeader => !parse_ok(p, ents[k].0 as int) || (match entry_at(
            p,
            ents[k].0 as int,
        ) {
            Option::Some(es) => es.header_end > entry_end(p, ents, k) || entry_end(p, ents, k)
                > p.len() - 20,
            Option::None => true,
        }),
        Error::DecompressionError => inflate_of(payload(p, ents, k)) is None,
        Error::SizeMismatch => match entry_at(p, ents[k].0 as int) {
            Option::Some(es) => match inflate_of(payload(p, ents, k)) {
                Option::Some(v) => v.len() != es.size,
                Option::None => false,
            },
            Option::None => false,
        },
        Error::DeltaStreamMalformed => parent[k] matches Some(j) && match inflate_of(
            payload(p, ents, k),
        ) {
            Option::Some(db) => !sizes_fit(db) || (0 <= (j as int) < k && match recon(
                p,
                ents,
                parent,
                j as int,
            ) {
                Option::Some(pb) => delta_result(pb, db) is None,
                Option::None => false,
            }),
            Option::None => false,
        },
        _ => false,
    }
}

/// `ents` is the offset-sorted listing of the index and some entry of it
/// cannot be built into the forest, or cannot be walked, with `e` naming
/// the failure. A structural error after a passing preflight always carries
/// such a witness — and since the listing is unique, a pack whose every
/// entry resolves and reconstructs is owed a success.
pub open spec fn failing_listing(
    p: Seq<u8>,
    idx: Seq<u8>,
    e: Error,
    ents: Seq<(u64, u32)>,
) -> bool {
    &&& valid_listing(idx, ents)
    &&& ((exists|k: int|
        0 <= k < ents.len() && #[trigger] crate::graph::build_error_cause(p, idx, ents, k, e))
        || (exists|parent: Seq<Option<usize>>|
        #[trigger] forest_over(p, idx, ents, parent) && exists|k: int|
            0 <= k < ents.len() && #[trigger] walk_error_cause(p, ents, parent, k, e)))
}

/// The record the engine must produce for entry `k`: offsets and positions
/// as listed, the reconstruction's kind, sizes and depth, and the two
/// verdicts compared against exactly the recorded name and checksum.
pub open spec fn stat_ok(
    p: Seq<u8>,
    idx: Seq<u8>,
    ents: Seq<(u64, u32)>,
    parent: Seq<Option<usize>>,
    st: EntryOutcome,
    k: int,
) -> bool {
    &&& st.pack_offset == ents[k].0
    &&& st.index_position == ents[k].1
    &&& st.kind == rkind(p, ents, parent, k)
    &&& st.num_deltas as nat == depth(parent, k)
    &&& st.compressed_size as nat == payload(p, ents, k).len()
    &&& match recon(p, ents, parent, k) {
        Option::None => false,
        Option::Some(v) => {
            &&& st.inflated_size as nat == v.len()
            &&& (st.hash_match <==> sha1_of(encoded(st.kind, st.inflated_size) + v) == name_at(
                idx,
                ents[k].1 as int,
            ))
            &&& (st.crc32_match <==> crc32_of(
                p.subrange(ents[k].0 as int, entry_end(p, ents, k)),
            ) as nat == crc32_at(idx, ents[k].1 as int))
        },
    }
    &&& st.decoded_ok is None
    &&& st.re_encoded_matches is None
}

/// Walk the entries in ascending offset order, reconstructing and checking
/// each one. Produces one record per entry; fails only on a structural
/// error, never on a mere hash or checksum mismatch.
#[verifier::loop_isolation(false)]
#[verifier::rlimit(100)]
pub fn verify_entries(
    pack: &data::File,
    index: &index_file::File,
    ents: &Vec<(u64, u32)>,
    tree: &DeltaTree,
) -> (r: Result<Vec<EntryOutcome>, Error>)
    requires
        pack.wf(),
        index.wf(),
        ents@.len() <= 0xffffffff,
        forall|k: int| 0 <= k < ents@.len() ==> (#[trigger] ents@[k]).1 < index.count,
        tree.parent@.len() == ents@.len(),
        tree.has_child@.len() == ents@.len(),
        forall|k: int|
            0 <= k < ents@.len() ==> ((#[trigger] tree.parent@[k]) matches Some(j) ==> (
            j as int) < k),
        forall|j: int|
            0 <= j < ents@.len() ==> (#[trigger] tree.has_child@[j] <==> has_parent_ref(
                tree.parent@,
                j,
            )),
    ensures
        match r {
            Ok(st) => st@.len() == ents@.len() && forall|k: int|
                0 <= k < ents@.len() ==> stat_ok(
                    pack.data@,
                    index.data@,
                    ents@,
                    tree.parent@,
                    #[trigger] st@[k],
                    k,
                ),
            Err(e) => exists|k: int|
                0 <= k < ents@.len() && #[trigger] walk_error_cause(
                    pack.data@,
                    ents@,
                    tree.parent@,
                    k,
                    e,
                ),
        },
{
    let n = ents.len();
    let plen = pack.data.len();
    let mut stats: Vec<EntryOutcome> = Vec::new();
    let mut kinds: Vec<ObjectKind> = Vec::new();
    let mut depths: Vec<u32> = Vec::new();
    let mut cache: Vec<Option<Vec<u8>>> = Vec::new();
    let mut t: usize = 0;
    while t < n
        invariant
            cache@.len() == t <= n,
        decreases n - t,
    {
        cache.push(None);
        t = t + 1;
    }
    let mut k: usize = 0;
    while k < n
        invariant
            k <= n,
            n == ents@.len(),
            plen == pack.data@.len(),
            stats@.len() == k,
            kinds@.len() == k,
            depths@.len() == k,
            cache@.len() == n,
            forall|t: int|
                0 <= t < k ==> stat_ok(
                    pack.data@,
                    index.data@,
                    ents@,
                    tree.parent@,
                    #[trigger] stats@[t],
                    t,
                ),
            forall|t: int|
                0 <= t < k ==> #[trigger] kinds@[t] == rkind(
                    pack.data@,
                    ents@,
                    tree.parent@,
                    t,
                ),
            forall|t: int|
                0 <= t < k ==> (#[trigger] depths@[t]) as nat == depth(tree.parent@, t)
                    && depths@[t] <= t,
            forall|t: int|
                0 <= t < k && tree.has_child@[t] ==> ((#[trigger] cache@[t]) matches Some(v)
                    && recon(pack.data@, ents@, tree.parent@, t) == Some(v@)),
        decreases n - k,
    {
        let ofs = ents[k].0;
        let pos = ents[k].1;
        if ofs >= plen as u64 {
            proof {
                assert(walk_error_cause(
                    pack.data@,
                    ents@,
                    tree.parent@,
                    k as int,
                    Error::MalformedHeader,
                ));
            }
            return Err(Error::MalformedHeader);
        }
        let h = match parse_entry_header(pack.data.as_slice(), ofs as usize) {
            Ok(h) => h,
            Err(_) => {
                proof {
                    assert(walk_error_cause(
                        pack.data@,
                        ents@,
                        tree.parent@,
                        k as int,
                        Error::MalformedHeader,
                    ));
                }
                return Err(Error::MalformedHeader);
            },
        };
        proof {
            lemma_header_end_bounds(pack.data@, ofs as int);
        }
        let end_abs: usize = if k + 1 < n {
            let next_ofs = ents[k + 1].0;
            if next_ofs > plen as u64 - 20 {
                proof {
                    assert(walk_error_cause(
                        pack.data@,
                        ents@,
                        tree.parent@,
                        k as int,
                        Error::MalformedHeader,
                    ));
                }
                return Err(Error::MalformedHeader);
            }
            next_ofs as usize
        } else {
            plen - 20
        };
        let hstart = ofs as usize + h.header_len;
        if hstart > end_abs {
            proof {
                assert(walk_error_cause(
                    pack.data@,
                    ents@,
                    tree.parent@,
                    k as int,
                    Error::MalformedHeader,
                ));
            }
            return Err(Error::MalformedHeader);
        }
        let comp = vstd::slice::slice_subrange(pack.data.as_slice(), hstart, end_abs);
        proof {
            assert(comp@ == payload(pack.data@, ents@, k as int));
        }
        let inflated = match inflate(comp) {
            Some(v) => v,
            None => {
                proof {
                    assert(walk_error_cause(
                        pack.data@,
                        ents@,
                        tree.parent@,
                        k as int,
                        Error::DecompressionError,
                    ));
                }
                return Err(Error::DecompressionError);
            },
        };
        if inflated.len() as u64 != h.inflated_size {
            proof {
                assert(walk_error_cause(
                    pack.data@,
                    ents@,
                    tree.parent@,
                    k as int,
                    Error::SizeMismatch,
                ));
            }
            return Err(Error::SizeMismatch);
        }
        let parent_k = tree.parent[k];
        let (obj, kind, dep): (Vec<u8>, ObjectKind, u32) = match parent_k {
            None => {
                let kind = match h.kind {
                    EntryKind::Commit => ObjectKind::Commit,
                    EntryKind::Tree => ObjectKind::Tree,
                    EntryKind::Blob => ObjectKind::Blob,
                    EntryKind::Tag => ObjectKind::Tag,
                    EntryKind::OfsDelta => ObjectKind::Blob,
                    EntryKind::RefDelta => ObjectKind::Blob,
                };
                (inflated, kind, 0u32)
            },
            Some(j) => {
                proof {
                    assert(tree.has_child@[j as int]);
                }
                let obj = match &cache[j] {
                    Some(pb) => {
                        match apply_delta(pb.as_slice(), inflated.as_slice()) {
                            Ok(v) => v,
                            Err(_) => {
                                proof {
                                    assert(walk_error_cause(
                                        pack.data@,
                                        ents@,
                                        tree.parent@,
                                        k as int,
                                        Error::DeltaStreamMalformed,
                                    ));
                                }
                                return Err(Error::DeltaStreamMalformed);
                            },
                        }
                    },
                    None => {
                        proof {
                            assert(false);
                        }
                        return Err(Error::Internal);
                    },
                };
                (obj, kinds[j], depths[j] + 1)
            },
        };
        let mut hdr: Vec<u8> = Vec::new();
        loose_header::encode(kind, obj.len() as u64, &mut hdr);
        let digest = sha1_pair(hdr.as_slice(), obj.as_slice());
        proof {
            assert(Seq::<u8>::empty() + encoded(kind, obj@.len() as u64) =~= encoded(
                kind,
                obj@.len() as u64,
            ));
        }
        let name = index.name(pos);
        let hash_match = crate::bytes::range_eq(digest.as_slice(), 0, name.as_slice(), 0, 20);
        proof {
            assert(digest@.subrange(0, 20) =~= digest@);
            assert(name@.subrange(0, 20) =~= name@);
        }
        let crc_slice = vstd::slice::slice_subrange(pack.data.as_slice(), ofs as usize, end_abs);
        let crc_here = crc32(crc_slice);
        let crc_recorded = index.crc32(pos);
        let crc32_match = crc_here == crc_recorded;
        let st = EntryOutcome {
            pack_offset: ofs,
            index_position: pos,
            kind,
            inflated_size: obj.len() as u64,
            compressed_size: (end_abs - hstart) as u64,
            num_deltas: dep,
            hash_match,
            crc32_match,
            decoded_ok: None,
            re_encoded_matches: None,
        };
        proof {
            assert(recon(pack.data@, ents@, tree.parent@, k as int) == Some(obj@));
            assert(stat_ok(pack.data@, index.data@, ents@, tree.parent@, st, k as int));
        }
        stats.push(st);
        kinds.push(kind);
        depths.push(dep);
        if tree.has_child[k] {
            cache.set(k, Some(obj));
        }
        k = k + 1;
    }
    Ok(stats)
}

/// The two files agree before any entry work: the index stores the pack's
/// trailing checksum, both files hash to their own trailers, and both
/// declare the same object count.
pub open spec fn preflight_ok(p: Seq<u8>, idx: Seq<u8>) -> bool {
    &&& idx_pack_checksum(idx) == pack_trailer(p)
    &&& sha1_of(p.subrange(0, p.len() - 20)) == pack_trailer(p)
    &&& sha1_of(idx.subrange(0, idx.len() - 20)) == idx.subrange(idx.len() - 20, idx.len() as int)
    &&& idx_count(idx) == pack_object_count(p)
}

/// Verify a pack against its index: preflight the file checksums, sort the
/// entries by offset, build the delta forest, then walk and check every
/// entry. `Ok` holds one record per entry and is returned even when
/// entries fail their checks — `success` then says so; `Err` is reserved
/// for structural damage that stops the walk.
pub fn verify_pack(pack: &data::File, index: &index_file::File, mode: Mode) -> (r: Result<
    Outcome,
    Error,
>)
    requires
        pack.wf(),
        index.wf(),
    ensures
        match r {
            Ok(out) => {
                &&& preflight_ok(pack.data@, index.data@)
                &&& out.mode == mode
                &&& out.entries@.len() == idx_count(index.data@)
                &&& (out.success <==> forall|k: int|
                    0 <= k < out.entries@.len() ==> (#[trigger] out.entries@[k]).hash_match
                        && out.entries@[k].crc32_match)
                &&& exists|ents: Seq<(u64, u32)>, parent: Seq<Option<usize>>|
                    #[trigger] stats_follow(
                        pack.data@,
                        index.data@,
                        ents,
                        parent,
                        out.entries@,
                    )
            },
            Err(e) => {
                &&& (e == Error::ChecksumMismatch <==> !preflight_ok(pack.data@, index.data@))
                &&& e != Error::Internal
                &&& preflight_ok(pack.data@, index.data@) ==> exists|ents: Seq<(u64, u32)>|
                    #[trigger] failing_listing(pack.data@, index.data@, e, ents)
            },
        },
{
    let pd = pack.data.as_slice();
    let plen = pack.data.len();
    let idx_checksum = index.pack_checksum();
    let trailer_eq = crate::bytes::range_eq(pd, plen - 20, idx_checksum.as_slice(), 0, 20);
    proof {
        assert(pack.data@.subrange(plen - 20, plen as int) =~= pack_trailer(pack.data@));
        assert(idx_checksum@.subrange(0, 20) =~= idx_checksum@);
    }
    if !trailer_eq {
        return Err(Error::ChecksumMismatch);
    }
    let body = vstd::slice::slice_subrange(pd, 0, plen - 20);
    let empty: Vec<u8> = Vec::new();
    let pack_hash = sha1_pair(body, empty.as_slice());
    proof {
        assert(body@ + empty@ =~= pack.data@.subrange(0, plen - 20));
    }
    if !crate::bytes::range_eq(pack_hash.as_slice(), 0, idx_checksum.as_slice(), 0, 20) {
        proof {
            assert(pack_hash@.subrange(0, 20) =~= pack_hash@);
            assert(idx_checksum@.subrange(0, 20) =~= idx_checksum@);
        }
        return Err(Error::ChecksumMismatch);
    }
    proof {
        assert(pack_hash@.subrange(0, 20) =~= pack_hash@);
        assert(idx_checksum@.subrange(0, 20) =~= idx_checksum@);
    }
    let id = index.data.as_slice();
    let ilen = index.data_len();
    let ibody = vstd::slice::slice_subrange(id, 0, ilen - 20);
    let idx_hash = sha1_pair(ibody, empty.as_slice());
    proof {
        assert(ibody@ + empty@ =~= index.data@.subrange(0, ilen - 20));
    }
    let idx_hash_eq = crate::bytes::range_eq(idx_hash.as_slice(), 0, id, ilen - 20, 20);
    proof {
        assert(idx_hash@.subrange(0, 20) =~= idx_hash@);
        assert(index.data@.subrange(ilen - 20, ilen as int) =~= index.data@.subrange(
            index.data@.len() - 20,
            index.data@.len() as int,
        ));
    }
    if !idx_hash_eq {
        return Err(Error::ChecksumMismatch);
    }
    if index.count() != pack.num_objects() {
        return Err(Error::ChecksumMismatch);
    }
    let ents = index.sorted_by_offset();
    proof {
        assert(valid_listing(index.data@, ents@));
    }
    let tree = match DeltaTree::from_sorted_offsets(pd, index, &ents) {
        Ok(t) => t,
        Err(e) => {
            proof {
                assert(failing_listing(pack.data@, index.data@, e, ents@));
            }
            return Err(e);
        },
    };
    proof {
        assert(forest_over(pack.data@, index.data@, ents@, tree.parent@)) by {
            assert forall|k: int|
                0 <= k < ents@.len() implies #[trigger] node_ok_at(
                pack.data@,
                index.data@,
                ents@,
                tree.parent@,
                k,
            ) by {
                assert(crate::graph::node_ok(pack.data@, index.data@, ents@, tree.parent@, k));
            }
        }
    }
    proof {
        assert forall|k: int|
            0 <= k < ents@.len() implies ((#[trigger] tree.parent@[k]) matches Some(j) ==> (
        j as int) < k) by {
            if tree.parent@[k] is Some {
                assert(crate::graph::node_ok(pack.data@, index.data@, ents@, tree.parent@, k));
            }
        }
    }
    let entries = match verify_entries(pack, index, &ents, &tree) {
        Ok(st) => st,
        Err(e) => {
            proof {
                assert(failing_listing(pack.data@, index.data@, e, ents@));
            }
            return Err(e);
        },
    };
    let mut success = true;
    let mut k: usize = 0;
    let n = entries.len();
    while k < n
        invariant
            k <= n,
            n == entries@.len(),
            success <==> forall|t: int|
                0 <= t < k ==> (#[trigger] entries@[t]).hash_match && entries@[t].crc32_match,
        decreases n - k,
    {
        if !entries[k].hash_match || !entries[k].crc32_match {
            success = false;
        }
        k = k + 1;
    }
    proof {
        assert(stats_follow(pack.data@, index.data@, ents@, tree.parent@, entries@));
    }
    Ok(Outcome { mode, entries, success })
}

/// `st` is the statistics sequence the engine's walk produces over some
/// offset-sorted listing `ents` of the index and the delta forest `parent`
/// resolved over it.
pub open spec fn stats_follow(
    p: Seq<u8>,
    idx: Seq<u8>,
    ents: Seq<(u64, u32)>,
    parent: Seq<Option<usize>>,
    st: Seq<EntryOutcome>,
) -> bool {
    &&& valid_listing(idx, ents)
    &&& forest_over(p, idx, ents, parent)
    &&& st.len() == ents.len()
    &&& forall|k: int| 0 <= k < st.len() ==> stat_ok(p, idx, ents, parent, #[trigger] st[k], k)
}

/// Wrapper so that quantified clauses over the forest trigger well.
pub open spec fn node_ok_at(
    p: Seq<u8>,
    idx: Seq<u8>,
    ents: Seq<(u64, u32)>,
    parent: Seq<Option<usize>>,
    k: int,
) -> bool {
    crate::graph::node_ok(p, idx, ents, parent, k)
}

/// For every non-delta entry, the size its header declares equals the
/// length of its reconstructed bytes: reconstruction fails otherwise.
pub proof fn lemma_base_size_matches(
    p: Seq<u8>,
    ents: Seq<(u64, u32)>,
    parent: Seq<Option<usize>>,
    k: int,
)
    requires
        0 <= k < ents.len(),
        k < parent.len(),
        parent[k] is None,
        recon(p, ents, parent, k) is Some,
    ensures
        entry_at(p, ents[k].0 as int) matches Some(es) && es.size == recon(
            p,
            ents,
            parent,
            k,
        ).unwrap().len(),
{
}

/// A given index has at most one offset-sorted listing.
proof fn lemma_listing_prefix(idx: Seq<u8>, e1: Seq<(u64, u32)>, e2: Seq<(u64, u32)>, i: int)
    requires
        valid_listing(idx, e1),
        valid_listing(idx, e2),
        0 <= i <= e1.len(),
    ensures
        forall|j: int| 0 <= j < i ==> e1[j] == e2[j],
    decreases i,
{
    if i > 0 {
        lemma_listing_prefix(idx, e1, e2, i - 1);
        let a = e1[i - 1];
        let b = e2[i - 1];
        assert(contains_position(e2, a.1 as int));
        let m = choose|m: int| 0 <= m < e2.len() && (#[trigger] e2[m]).1 == a.1;
        assert(e2[m].0 as nat == offset_at(idx, a.1 as int));
        assert(e2[m].0 == a.0);
        if m < i - 1 {
            assert(e1[m] == e2[m]);
            assert(e1[m].1 < e1[i - 1].1);
            assert(false);
        }
        assert(contains_position(e1, b.1 as int));
        let m2 = choose|m2: int| 0 <= m2 < e1.len() && (#[trigger] e1[m2]).1 == b.1;
        assert(e1[m2].0 as nat == offset_at(idx, b.1 as int));
        assert(e1[m2].0 == b.0);
        if m2 < i - 1 {
            assert(e2[m2] == e1[m2]);
            assert(e2[m2].1 < e2[i - 1].1);
            assert(false);
        }
        if m == i - 1 {
            assert(b == a);
        } else if m2 == i - 1 {
            assert(a == b);
        } else {
            // each listing places the other's element strictly later
            assert(b.0 <= e2[m].0);
            assert(a.0 <= e1[m2].0);
            assert(a.0 == b.0);
            assert(b.1 < e2[m].1);
            assert(a.1 < e1[m2].1);
            assert(false);
        }
    }
}

/// The offset-sorted listing of an index is unique.
pub proof fn lemma_listing_unique(idx: Seq<u8>, e1: Seq<(u64, u32)>, e2: Seq<(u64, u32)>)
    requires
        valid_listing(idx, e1),
        valid_listing(idx, e2),
    ensures
        e1 == e2,
{
    lemma_listing_prefix(idx, e1, e2, e1.len() as int);
    assert(e1 =~= e2);
}

/// The delta forest over a listing is unique: every parent handle is pinned
/// to the first slot resolving the base reference.
pub proof fn lemma_forest_unique(
    p: Seq<u8>,
    idx: Seq<u8>,
    ents: Seq<(u64, u32)>,
    par1: Seq<Option<usize>>,
    par2: Seq<Option<usize>>,
)
    requires
        forest_over(p, idx, ents, par1),
        forest_over(p, idx, ents, par2),
    ensures
        par1 == par2,
{
    assert forall|k: int| 0 <= k < ents.len() implies #[trigger] par1[k] == par2[k] by {
        assert(node_ok_at(p, idx, ents, par1, k));
        assert(node_ok_at(p, idx, ents, par2, k));
        match entry_at(p, ents[k].0 as int) {
            Option::None => {
                assert(false);
            },
            Option::Some(es) => {
                match es.base {
                    crate::entry::BaseSpec::NotDelta => {},
                    crate::entry::BaseSpec::Distance(dd) => {
                        match (par1[k], par2[k]) {
                            (Some(j1), Some(j2)) => {
                                if (j1 as int) < (j2 as int) {
                                    assert(ents[j1 as int].0 as nat + dd != ents[k].0 as nat);
                                    assert(false);
                                }
                                if (j2 as int) < (j1 as int) {
                                    assert(ents[j2 as int].0 as nat + dd != ents[k].0 as nat);
                                    assert(false);
                                }
                            },
                            _ => {
                                assert(false);
                            },
                        }
                    },
                    crate::entry::BaseSpec::Name(nm) => {
                        match (par1[k], par2[k]) {
                            (Some(j1), Some(j2)) => {
                                let pos1 = choose|pos: int|
                                    {
                                        &&& 0 <= pos < idx_count(idx)
                                        &&& #[trigger] name_at(idx, pos) == nm
                                        &&& forall|q: int| 0 <= q < pos ==> name_at(idx, q) != nm
                                        &&& ents[j1 as int].0 as nat == offset_at(idx, pos)
                                        &&& forall|t: int|
                                            0 <= t < j1 ==> (#[trigger] ents[t]).0 as nat
                                                != offset_at(idx, pos)
                                    };
                                let pos2 = choose|pos: int|
                                    {
                                        &&& 0 <= pos < idx_count(idx)
                                        &&& #[trigger] name_at(idx, pos) == nm
                                        &&& forall|q: int| 0 <= q < pos ==> name_at(idx, q) != nm
                                        &&& ents[j2 as int].0 as nat == offset_at(idx, pos)
                                        &&& forall|t: int|
                                            0 <= t < j2 ==> (#[trigger] ents[t]).0 as nat
                                                != offset_at(idx, pos)
                                    };
                                if pos1 < pos2 {
                                    assert(name_at(idx, pos1) != nm);
                                }
                                if pos2 < pos1 {
                                    assert(name_at(idx, pos2) != nm);
                                }
                                if (j1 as int) < (j2 as int) {
                                    assert(ents[j1 as int].0 as nat != offset_at(idx, pos2));
                                    assert(false);
                                }
                                if (j2 as int) < (j1 as int) {
                                    assert(ents[j2 as int].0 as nat != offset_at(idx, pos1));
                                    assert(false);
                                }
                            },
                            _ => {
                                assert(false);
                            },
                        }
                    },
                }
            },
        }
    }
    assert(par1 =~= par2);
}

/// Two-run determinism: any two statistics sequences the engine's contract
/// admits for one pack and index are equal — running verification twice on
/// the same inputs yields identical records, and the same multiset of
/// records however the per-entry work is scheduled.
pub proof fn lemma_outcome_deterministic(
    p: Seq<u8>,
    idx: Seq<u8>,
    st1: Seq<EntryOutcome>,
    st2: Seq<EntryOutcome>,
)
    requires
        exists|ents: Seq<(u64, u32)>, parent: Seq<Option<usize>>|
            #[trigger] stats_follow(p, idx, ents, parent, st1),
        exists|ents: Seq<(u64, u32)>, parent: Seq<Option<usize>>|
            #[trigger] stats_follow(p, idx, ents, parent, st2),
    ensures
        st1 == st2,
        st1.to_multiset() == st2.to_multiset(),
{
    let (e1, p1) = choose|e1: Seq<(u64, u32)>, p1: Seq<Option<usize>>|
        #[trigger] stats_follow(p, idx, e1, p1, st1);
    let (e2, p2) = choose|e2: Seq<(u64, u32)>, p2: Seq<Option<usize>>|
        #[trigger] stats_follow(p, idx, e2, p2, st2);
    lemma_listing_unique(idx, e1, e2);
    lemma_forest_unique(p, idx, e1, p1, p2);
    lemma_stats_deterministic(p, idx, e1, p1, st1, st2);
}

/// Determinism of the engine: any two statistics sequences that satisfy the
/// walk's contract over the same pack, index, listing and forest are equal —
/// so two runs yield identical statistics, and any scheduling of the
/// per-entry work, over one thread or many, yields the same records as the
/// in-order walk, in particular the same multiset.
pub proof fn lemma_stats_deterministic(
    p: Seq<u8>,
    idx: Seq<u8>,
    ents: Seq<(u64, u32)>,
    parent: Seq<Option<usize>>,
    st1: Seq<EntryOutcome>,
    st2: Seq<EntryOutcome>,
)
    requires
        st1.len() == ents.len(),
        st2.len() == ents.len(),
        forall|k: int| 0 <= k < ents.len() ==> stat_ok(p, idx, ents, parent, #[trigger] st1[k], k),
        forall|k: int| 0 <= k < ents.len() ==> stat_ok(p, idx, ents, parent, #[trigger] st2[k], k),
    ensures
        st1 == st2,
        st1.to_multiset() == st2.to_multiset(),
{
    assert forall|k: int| 0 <= k < ents.len() implies #[trigger] st1[k] == st2[k] by {
        assert(stat_ok(p, idx, ents, parent, st1[k], k));
        assert(stat_ok(p, idx, ents, parent, st2[k], k));
        match recon(p, ents, parent, k) {
            Option::None => {
                assert(false);
            },
            Option::Some(v) => {
                assert(st1[k].inflated_size == st2[k].inflated_size);
                assert(st1[k].hash_match == st2[k].hash_match);
                assert(st1[k].crc32_match == st2[k].crc32_match);
                assert(st1[k].decoded_ok == st2[k].decoded_ok);
                assert(st1[k].re_encoded_matches == st2[k].re_encoded_matches);
            },
        }
    }
    assert(st1 =~= st2);
}

} // verus!
