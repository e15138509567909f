//! The pack index file, version 2: magic and version, a 256-entry fan-out
//! table, then four parallel tables — 20-byte names, CRC32 values, small
//! offsets, and 64-bit overflow offsets — and two trailing checksums.
use vstd::prelude::*;

verus! {

use crate::bytes::be32;
use crate::bytes::be64;
use crate::bytes::read_be32;
use crate::bytes::read_be64;
use crate::bytes::range_eq;
use crate::bytes::div_bounds_usize;
use crate::errors::Error;

/// Number of index entries, from the last fan-out bucket.
pub open spec fn idx_count(d: Seq<u8>) -> nat {
    be32(d, 1028)
}

/// Start of the CRC32 table.
pub open spec fn crc_base(d: Seq<u8>) -> int {
    1032 + 20 * (idx_count(d) as int)
}

/// Start of the small-offset table.
pub open spec fn small_base(d: Seq<u8>) -> int {
    1032 + 24 * (idx_count(d) as int)
}

/// Start of the overflow-offset table.
pub open spec fn large_base(d: Seq<u8>) -> int {
    1032 + 28 * (idx_count(d) as int)
}

/// Number of 8-byte overflow entries implied by the file length.
pub open spec fn idx_large_count(d: Seq<u8>) -> int {
    (d.len() - 40 - large_base(d)) / 8
}

/// The 4-byte small-offset field of entry `i`.
pub open spec fn small_at(d: Seq<u8>, i: int) -> nat {
    be32(d, small_base(d) + 4 * i)
}

/// The 20-byte object name of entry `i`.
pub open spec fn name_at(d: Seq<u8>, i: int) -> Seq<u8> {
    d.subrange(1032 + 20 * i, 1032 + 20 * i + 20)
}

/// The recorded CRC32 of entry `i`.
pub open spec fn crc32_at(d: Seq<u8>, i: int) -> nat {
    be32(d, crc_base(d) + 4 * i)
}

/// The pack offset of entry `i`: the small field, or, with its high bit set,
/// the named slot of the overflow table.
pub open spec fn offset_at(d: Seq<u8>, i: int) -> nat {
    if small_at(d, i) < 0x80000000 {
        small_at(d, i)
    } else {
        be64(d, d.len() - 40 - 8 * (idx_large_count(d) - (small_at(d, i) - 0x80000000)))
    }
}

/// The pack content checksum the index stores, 40 bytes from the end.
pub open spec fn idx_pack_checksum(d: Seq<u8>) -> Seq<u8> {
    d.subrange(d.len() - 40, d.len() - 20)
}

/// A version-2 index file is well formed when its magic, version and length
/// agree with the entry count, and every overflow reference is in range.
pub open spec fn idx_wf(d: Seq<u8>) -> bool {
    &&& d.len() >= 1072
    &&& d[0] == 255
    &&& d[1] == 116
    &&& d[2] == 79
    &&& d[3] == 99
    &&& be32(d, 4) == 2
    &&& d.len() - 40 - large_base(d) >= 0
    &&& (d.len() - 40 - large_base(d)) % 8 == 0
    &&& forall|i: int|
        0 <= i < idx_count(d) && #[trigger] small_at(d, i) >= 0x80000000 ==> small_at(d, i)
            - 0x80000000 < idx_large_count(d)
}

/// Some slot of `r` carries index position `p`.
pub open spec fn contains_position(r: Seq<(u64, u32)>, p: int) -> bool {
    exists|k: int| 0 <= k < r.len() && (#[trigger] r[k]).1 == p
}

/// A pack index held in memory, with its parsed entry count.
pub struct File {
    pub data: Vec<u8>,
    pub path: String,
    pub count: u32,
}

impl File {
    /// The parsed fields agree with the raw bytes.
    pub open spec fn wf(&self) -> bool {
        &&& idx_wf(self.data@)
        &&& self.count as nat == idx_count(self.data@)
    }

    /// Take ownership of an index file's bytes, validating the layout.
    #[verifier::loop_isolation(false)]
    pub fn parse(data: Vec<u8>, path: String) -> (r: Result<File, Error>)
        ensures
            match r {
                Ok(f) => f.wf() && f.data@ == data@ && f.path@ == path@,
                Err(e) => !idx_wf(data@) && e == Error::MalformedHeader,
            },
    {
        let len = data.len();
        if len < 1072 {
            return Err(Error::MalformedHeader);
        }
        let d = data.as_slice();
        if !(d[0] == 255 && d[1] == 116 && d[2] == 79 && d[3] == 99) {
            return Err(Error::MalformedHeader);
        }
        if read_be32(d, 4) != 2 {
            return Err(Error::MalformedHeader);
        }
        let count = read_be32(d, 1028);
        let n = count as usize;
        if n > (len - 1072) / 28 {
            proof {
                div_bounds_usize((len - 1072) as usize, 28);
            }
            return Err(Error::MalformedHeader);
        }
        proof {
            div_bounds_usize((len - 1072) as usize, 28);
            assert(28 * (n as int) <= len - 1072);
        }
        let tail = len - 1072 - 28 * n;
        if tail % 8 != 0 {
            return Err(Error::MalformedHeader);
        }
        let num_large = tail / 8;
        let small_table = 1032 + 24 * n;
        let mut i: usize = 0;
        while i < n
            invariant
                i <= n,
                n == count as int,
                len == data@.len(),
                idx_count(data@) == count as nat,
                large_base(data@) == 1032 + 28 * (n as int),
                idx_large_count(data@) == num_large as int,
                len >= 1072 + 28 * n,
                small_table == 1032 + 24 * n,
                forall|k: int|
                    0 <= k < i && #[trigger] small_at(data@, k) >= 0x80000000 ==> small_at(
                        data@,
                        k,
                    ) - 0x80000000 < num_large as int,
            decreases n - i,
        {
            let small = read_be32(d, small_table + 4 * i);
            if small >= 0x80000000 {
                let li = (small - 0x80000000) as usize;
                if li >= num_large {
                    proof {
                        assert(small_at(data@, i as int) == small as nat);
                    }
                    return Err(Error::MalformedHeader);
                }
            }
            proof {
                assert(small_at(data@, i as int) == small as nat);
            }
            i = i + 1;
        }
        Ok(File { data, path, count })
    }

    /// The number of entries the index lists.
    pub fn count(&self) -> (r: u32)
        requires
            self.wf(),
        ensures
            r == self.count,
            r as nat == idx_count(self.data@),
    {
        self.count
    }

    /// The 20-byte name recorded at position `i`.
    pub fn name(&self, i: u32) -> (r: Vec<u8>)
        requires
            self.wf(),
            i < self.count,
        ensures
            r@ == name_at(self.data@, i as int),
            r@.len() == 20,
    {
        let d = self.data.as_slice();
        let len = self.data.len();
        proof {
            assert(len >= 1072 + 28 * (self.count as int));
        }
        let start = 1032 + 20 * (i as usize);
        let s = vstd::slice::slice_subrange(d, start, start + 20);
        vstd::slice::slice_to_vec(s)
    }

    /// The CRC32 recorded at position `i`.
    pub fn crc32(&self, i: u32) -> (r: u32)
        requires
            self.wf(),
            i < self.count,
        ensures
            r as nat == crc32_at(self.data@, i as int),
    {
        let n = self.count as usize;
        let len = self.data.len();
        proof {
            assert(len >= 1072 + 28 * (n as int));
        }
        read_be32(self.data.as_slice(), 1032 + 20 * n + 4 * (i as usize))
    }

    /// The pack offset recorded at position `i`.
    pub fn offset(&self, i: u32) -> (r: u64)
        requires
            self.wf(),
            i < self.count,
        ensures
            r as nat == offset_at(self.data@, i as int),
    {
        let d = self.data.as_slice();
        let n = self.count as usize;
        let len = self.data.len();
        proof {
            assert(len >= 1072 + 28 * (n as int));
        }
        let small = read_be32(d, 1032 + 24 * n + 4 * (i as usize));
        if small < 0x80000000 {
            small as u64
        } else {
            let li = (small - 0x80000000) as usize;
            let large_total = (len - 1072 - 28 * n) / 8;
            proof {
                div_bounds_usize((len - 1072 - 28 * n) as usize, 8);
                assert(small_at(self.data@, i as int) == small as nat);
                assert(idx_large_count(self.data@) > li as int);
                assert(large_total as int == idx_large_count(self.data@));
            }
            read_be64(d, len - 40 - 8 * (large_total - li))
        }
    }

    /// Find the position holding `name20`, scanning the name table.
    #[verifier::loop_isolation(false)]
    pub fn lookup(&self, name20: &[u8]) -> (r: Option<u32>)
        requires
            self.wf(),
            name20@.len() == 20,
        ensures
            match r {
                Some(p) => p < self.count && name_at(self.data@, p as int) == name20@
                    && forall|q: int| 0 <= q < p ==> name_at(self.data@, q) != name20@,
                None => forall|p: int|
                    0 <= p < self.count ==> name_at(self.data@, p) != name20@,
            },
    {
        let d = self.data.as_slice();
        let n = self.count as usize;
        let len = self.data.len();
        proof {
            assert(len >= 1072 + 28 * (n as int));
        }
        let mut p: usize = 0;
        while p < n
            invariant
                p <= n,
                len == self.data@.len(),
                len >= 1072 + 28 * n,
                forall|q: int| 0 <= q < p ==> name_at(self.data@, q) != name20@,
            decreases n - p,
        {
            if range_eq(d, 1032 + 20 * p, name20, 0, 20) {
                proof {
                    assert(name20@.subrange(0, 20) =~= name20@);
                }
                return Some(p as u32);
            }
            proof {
                assert(name20@.subrange(0, 20) =~= name20@);
            }
            p = p + 1;
        }
        None
    }

    /// The pack content checksum the index stores.
    pub fn pack_checksum(&self) -> (r: Vec<u8>)
        requires
            self.wf(),
        ensures
            r@ == idx_pack_checksum(self.data@),
            r@.len() == 20,
    {
        let d = self.data.as_slice();
        let s = vstd::slice::slice_subrange(d, d.len() - 40, d.len() - 20);
        vstd::slice::slice_to_vec(s)
    }

    /// The index entries as `(pack offset, index position)` pairs in
    /// ascending pack-offset order: every position appears exactly once,
    /// paired with its recorded offset.
    #[verifier::loop_isolation(false)]
    #[verifier::rlimit(100)]
    pub fn sorted_by_offset(&self) -> (r: Vec<(u64, u32)>)
        requires
            self.wf(),
        ensures
            r@.len() == self.count,
            forall|k: int|
                0 <= k < r@.len() ==> (#[trigger] r@[k]).1 < self.count && r@[k].0 as nat
                    == offset_at(self.data@, r@[k].1 as int),
            forall|k1: int, k2: int|
                0 <= k1 <= k2 < r@.len() ==> (#[trigger] r@[k1]).0 <= (#[trigger] r@[k2]).0,
            forall|p: int| 0 <= p < self.count ==> #[trigger] contains_position(r@, p),
            forall|k1: int, k2: int|
                0 <= k1 < k2 < r@.len() ==> (#[trigger] r@[k1]).1 != (#[trigger] r@[k2]).1,
            forall|k1: int, k2: int|
                0 <= k1 < k2 < r@.len() && (#[trigger] r@[k1]).0 == (#[trigger] r@[k2]).0
                    ==> r@[k1].1 < r@[k2].1,
    {
        let n = self.count;
        let mut out: Vec<(u64, u32)> = Vec::new();
        let mut p: u32 = 0;
        while p < n
            invariant
                p <= n,
                out@.len() == p,
                forall|k: int|
                    0 <= k < out@.len() ==> (#[trigger] out@[k]).1 < p && out@[k].0 as nat
                        == offset_at(self.data@, out@[k].1 as int),
                forall|k1: int, k2: int|
                    0 <= k1 <= k2 < out@.len() ==> (#[trigger] out@[k1]).0 <= (
                    #[trigger] out@[k2]).0,
                forall|q: int| 0 <= q < p ==> #[trigger] contains_position(out@, q),
                forall|k1: int, k2: int|
                    0 <= k1 < k2 < out@.len() ==> (#[trigger] out@[k1]).1 != (
                    #[trigger] out@[k2]).1,
                forall|k1: int, k2: int|
                    0 <= k1 < k2 < out@.len() && (#[trigger] out@[k1]).0 == (#[trigger] out@[
                        k2
                    ]).0 ==> out@[k1].1 < out@[k2].1,
            decreases n - p,
        {
            let ofs = self.offset(p);
            let mut pos: usize = out.len();
            while pos > 0 && out[pos - 1].0 > ofs
                invariant
                    pos <= out@.len(),
                    forall|t: int| pos <= t < out@.len() ==> (#[trigger] out@[t]).0 > ofs,
                decreases pos,
            {
                pos = pos - 1;
            }
            let ghost old_out = out@;
            out.insert(pos, (ofs, p));
            proof {
                assert(out@ == old_out.insert(pos as int, (ofs, p)));
                assert forall|q: int| 0 <= q < p + 1 implies #[trigger] contains_position(
                    out@,
                    q,
                ) by {
                    if q == p {
                        assert(out@[pos as int].1 == q);
                    } else {
                        assert(contains_position(old_out, q));
                        let k0 = choose|k0: int|
                            0 <= k0 < old_out.len() && (#[trigger] old_out[k0]).1 == q;
                        if k0 < pos {
                            assert(out@[k0].1 == q);
                        } else {
                            assert(out@[k0 + 1].1 == q);
                        }
                    }
                }
            }
            p = p + 1;
        }
        out
    }

    /// The length of the whole file in bytes.
    pub fn data_len(&self) -> (r: usize)
        ensures
            r == self.data@.len(),
    {
        self.data.len()
    }
}

} // verus!
