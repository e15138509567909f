//! Parser for a single pack-entry header: the kind bits, the variable-length
//! inflated size, and, for delta entries, the back reference to the base.
use vstd::prelude::*;

verus! {

use crate::errors::Error;

/// The kind of one pack entry.
#[derive(Clone, Copy, PartialEq, Eq, Structural, Debug)]
pub enum EntryKind {
    Commit,
    Tree,
    Blob,
    Tag,
    OfsDelta,
    RefDelta,
}

/// How a delta entry names its base.
pub enum BaseRef {
    /// A non-delta entry: no base.
    NotDelta,
    /// An offset delta: the base lies `distance` bytes before this entry.
    Distance(u64),
    /// A reference delta: the base is the object with this 20-byte name.
    Name(Vec<u8>),
}

/// The spec-level value of a base reference.
pub enum BaseSpec {
    NotDelta,
    Distance(nat),
    Name(Seq<u8>),
}

/// The spec-level reading of one entry header.
pub struct EntrySpec {
    pub kind: EntryKind,
    pub size: nat,
    /// Index of the first byte after the header, the base reference included:
    /// the compressed payload starts here.
    pub header_end: int,
    pub base: BaseSpec,
}

/// The value of the size continuation bytes at `i`: little-endian groups of
/// seven bits, each byte's high bit saying whether another follows. `shift`
/// is the bit position the group at `i` lands on; a group past bit 60 cannot
/// belong to a 64-bit size and makes the header malformed.
pub open spec fn size_tail(s: Seq<u8>, i: int, shift: nat) -> Option<(nat, int)>
    decreases s.len() - i,
{
    if i < 0 || i >= s.len() || shift > 60 {
        None
    } else if s[i] < 128 {
        Some(((s[i] as nat), i + 1))
    } else {
        match size_tail(s, i + 1, shift + 7) {
            Option::None => None,
            Option::Some((v, e)) => Some(((s[i] - 128) as nat + 128 * v, e)),
        }
    }
}

/// Fold an already-accumulated value over the remaining continuation groups.
pub open spec fn combine(t: Option<(nat, int)>, size: nat, m: nat) -> Option<(nat, int)> {
    match t {
        Option::None => None,
        Option::Some((v, e)) => Some((size + m * v, e)),
    }
}

/// The declared inflated size of the entry at `o` and the index after the
/// size field: the low four bits of the first byte, then 7-bit groups.
pub open spec fn size_at(p: Seq<u8>, o: int) -> Option<(nat, int)> {
    if o < 0 || o >= p.len() {
        None
    } else if p[o] < 128 {
        Some(((p[o] % 16) as nat, o + 1))
    } else {
        combine(size_tail(p, o + 1, 4), (p[o] % 16) as nat, 16)
    }
}

/// The value of the offset-delta back reference continuing at `i` with
/// accumulator `acc`: each further byte adds one to the accumulator before
/// shifting seven more bits in.
pub open spec fn ofs_rest(s: Seq<u8>, i: int, acc: nat) -> Option<(nat, int)>
    decreases s.len() - i,
{
    if i < 0 || i >= s.len() {
        None
    } else {
        let a = (acc + 1) * 128 + (s[i] % 128) as nat;
        if s[i] < 128 {
            Some((a, i + 1))
        } else {
            ofs_rest(s, i + 1, a)
        }
    }
}

/// The biased back distance of an offset delta, read at `i`.
pub open spec fn ofs_delta_at(p: Seq<u8>, i: int) -> Option<(nat, int)> {
    if i < 0 || i >= p.len() {
        None
    } else if p[i] < 128 {
        Some((p[i] as nat, i + 1))
    } else {
        ofs_rest(p, i + 1, (p[i] - 128) as nat)
    }
}

/// The entry header at offset `o` of pack bytes `p`, or `None` when the kind
/// bits are undefined or a variable-length field runs past the end.
pub open spec fn entry_at(p: Seq<u8>, o: int) -> Option<EntrySpec> {
    match size_at(p, o) {
        Option::None => None,
        Option::Some((size, end)) => {
            let kind_bits = (p[o] / 16) % 8;
            if kind_bits == 1 {
                Some(EntrySpec { kind: EntryKind::Commit, size, header_end: end, base: BaseSpec::NotDelta })
            } else if kind_bits == 2 {
                Some(EntrySpec { kind: EntryKind::Tree, size, header_end: end, base: BaseSpec::NotDelta })
            } else if kind_bits == 3 {
                Some(EntrySpec { kind: EntryKind::Blob, size, header_end: end, base: BaseSpec::NotDelta })
            } else if kind_bits == 4 {
                Some(EntrySpec { kind: EntryKind::Tag, size, header_end: end, base: BaseSpec::NotDelta })
            } else if kind_bits == 6 {
                match ofs_delta_at(p, end) {
                    Option::None => None,
                    Option::Some((dist, e2)) => Some(
                        EntrySpec {
                            kind: EntryKind::OfsDelta,
                            size,
                            header_end: e2,
                            base: BaseSpec::Distance(dist),
                        },
                    ),
                }
            } else if kind_bits == 7 {
                if end + 20 <= p.len() {
                    Some(
                        EntrySpec {
                            kind: EntryKind::RefDelta,
                            size,
                            header_end: end + 20,
                            base: BaseSpec::Name(p.subrange(end, end + 20)),
                        },
                    )
                } else {
                    None
                }
            } else {
                None
            }
        },
    }
}

/// The parse succeeds exactly when the header is well formed and its size and
/// back distance fit in 64 bits.
pub open spec fn parse_ok(p: Seq<u8>, o: int) -> bool {
    match entry_at(p, o) {
        Option::None => false,
        Option::Some(e) => e.size <= u64::MAX && match e.base {
            BaseSpec::Distance(d) => d <= u64::MAX,
            _ => true,
        },
    }
}

/// A parsed entry header.
pub struct EntryHeader {
    pub kind: EntryKind,
    pub inflated_size: u64,
    /// Bytes the header occupies from the entry offset, base reference included.
    pub header_len: usize,
    pub base: BaseRef,
}

/// The parsed header agrees with the spec-level reading at `o`.
pub open spec fn header_matches(h: EntryHeader, p: Seq<u8>, o: int) -> bool {
    match entry_at(p, o) {
        Option::None => false,
        Option::Some(e) => {
            &&& h.kind == e.kind
            &&& h.inflated_size as nat == e.size
            &&& o + h.header_len == e.header_end
            &&& match (h.base, e.base) {
                (BaseRef::NotDelta, BaseSpec::NotDelta) => true,
                (BaseRef::Distance(d), BaseSpec::Distance(ds)) => d as nat == ds,
                (BaseRef::Name(v), BaseSpec::Name(s)) => v@ == s,
                _ => false,
            }
        },
    }
}

/// A size continuation always ends after where it starts, within the bytes.
pub proof fn lemma_size_tail_end(s: Seq<u8>, i: int, shift: nat)
    ensures
        match size_tail(s, i, shift) {
            Option::None => true,
            Option::Some(t) => i < t.1 <= s.len(),
        },
    decreases s.len() - i,
{
    if 0 <= i < s.len() && shift <= 60 && s[i] >= 128 {
        lemma_size_tail_end(s, i + 1, shift + 7);
    }
}

/// An offset-delta continuation always ends after where it starts, within
/// the bytes.
pub proof fn lemma_ofs_rest_end(s: Seq<u8>, i: int, acc: nat)
    ensures
        match ofs_rest(s, i, acc) {
            Option::None => true,
            Option::Some(t) => i < t.1 <= s.len(),
        },
    decreases s.len() - i,
{
    if 0 <= i < s.len() && s[i] >= 128 {
        lemma_ofs_rest_end(s, i + 1, (acc + 1) * 128 + (s[i] % 128) as nat);
    }
}

/// A parsed entry header ends after its offset and within the pack bytes.
pub proof fn lemma_header_end_bounds(p: Seq<u8>, o: int)
    ensures
        match entry_at(p, o) {
            Option::None => true,
            Option::Some(es) => o < es.header_end <= p.len(),
        },
{
    lemma_size_tail_end(p, o + 1, 4);
    if entry_at(p, o) is Some {
        match size_at(p, o) {
            Option::Some((size, end)) => {
                lemma_ofs_rest_end(p, end + 1, (p[end] - 128) as nat);
            },
            Option::None => {},
        }
    }
}

/// Bounds of truncating division: `m * (a / m) <= a < m * (a / m) + m`.
pub(crate) proof fn div_bounds(a: u64, m: u64)
    requires
        m > 0,
    ensures
        (a / m) as nat * (m as nat) <= a as nat,
        (a / m) as nat * (m as nat) + m > a as nat,
{
    vstd::arithmetic::div_mod::lemma_fundamental_div_mod(a as int, m as int);
    vstd::arithmetic::div_mod::lemma_mod_division_less_than_divisor(a as int, m as int);
    assert(a as int == m as int * (a as int / m as int) + (a as int) % (m as int));
    assert((a / m) as int == a as int / m as int);
    assert((a / m) as nat * (m as nat) == m as int * (a as int / m as int))
        by (nonlinear_arith)
        requires
            (a / m) as int == a as int / m as int,
            m > 0,
    ;
}

/// The value of an offset-delta continuation is at least what its first byte
/// already commits to.
proof fn lemma_ofs_rest_grows(s: Seq<u8>, i: int, acc: nat)
    ensures
        match ofs_rest(s, i, acc) {
            Option::None => true,
            Option::Some((v, e)) => v >= (acc + 1) * 128 + (s[i] % 128) as nat,
        },
    decreases s.len() - i,
{
    if 0 <= i < s.len() {
        let a = (acc + 1) * 128 + (s[i] % 128) as nat;
        if s[i] >= 128 {
            lemma_ofs_rest_grows(s, i + 1, a);
            if ofs_rest(s, i, acc) is Some {
                let (v, e) = ofs_rest(s, i + 1, a).unwrap();
                assert(v >= (a + 1) * 128 + (s[i + 1] % 128) as nat);
                assert((a + 1) * 128 >= a) by (nonlinear_arith);
            }
        }
    }
}

/// Parse the entry header at `offset`. Succeeds exactly on the inputs
/// `parse_ok` describes, and then returns the spec-level reading.
#[verifier::loop_isolation(false)]
#[verifier::rlimit(100)]
pub fn parse_entry_header(p: &[u8], offset: usize) -> (r: Result<EntryHeader, Error>)
    ensures
        match r {
            Ok(h) => parse_ok(p@, offset as int) && header_matches(h, p@, offset as int),
            Err(e) => !parse_ok(p@, offset as int) && e == Error::MalformedHeader,
        },
{
    let ghost o = offset as int;
    let n = p.len();
    if offset >= n {
        return Err(Error::MalformedHeader);
    }
    let b0 = p[offset];
    let kind_bits = (b0 / 16) % 8;
    let mut size: u64 = (b0 % 16) as u64;
    let mut end: usize = offset + 1;
    let mut cont = b0 >= 128;
    let mut shift: u64 = 4;
    let mut m: u64 = 16;
    proof {
        assert((1u64 << 4u64) == 16) by (bit_vector);
    }
    while cont
        invariant
            n == p@.len(),
            offset < n,
            offset < end <= n,
            cont ==> {
                &&& shift <= 60
                &&& m == (1u64 << shift)
                &&& m >= 16
                &&& size_at(p@, o) == combine(
                    size_tail(p@, end as int, shift as nat),
                    size as nat,
                    m as nat,
                )
            },
            !cont ==> size_at(p@, o) == Some((size as nat, end as int)),
        decreases n - end,
    {
        if end >= n {
            proof {
                assert(size_tail(p@, end as int, shift as nat) is None);
            }
            return Err(Error::MalformedHeader);
        }
        let b = p[end];
        let g = (b % 128) as u64;
        if b >= 128 && shift + 7 > 60 {
            proof {
                assert(size_tail(p@, end + 1, shift as nat + 7) is None);
                assert(size_tail(p@, end as int, shift as nat) is None);
            }
            return Err(Error::MalformedHeader);
        }
        if g > 0 && g > (u64::MAX - size) / m {
            proof {
                div_bounds((u64::MAX - size) as u64, m);
                assert(g as nat * (m as nat) > (u64::MAX - size) as nat) by (nonlinear_arith)
                    requires
                        g as nat >= ((u64::MAX - size) as u64 / m) as nat + 1,
                        ((u64::MAX - size) as u64 / m) as nat * (m as nat) + m > (u64::MAX
                            - size) as nat,
                        m >= 1,
                ;
                let t = size_tail(p@, end as int, shift as nat);
                if t is Some {
                    let (v, e) = t.unwrap();
                    if p@[end as int] >= 128 {
                        assert(v == (p@[end as int] - 128) as nat + 128 * size_tail(
                            p@,
                            end + 1,
                            shift as nat + 7,
                        ).unwrap().0);
                    }
                    assert(v >= g as nat);
                    assert(m as nat * v >= m as nat * (g as nat)) by (nonlinear_arith)
                        requires
                            v >= g as nat,
                            m as nat >= 1,
                    ;
                    assert(size as nat + (m as nat) * v > u64::MAX as nat);
                }
            }
            return Err(Error::MalformedHeader);
        }
        proof {
            if g > 0 {
                div_bounds((u64::MAX - size) as u64, m);
                assert(g as nat * (m as nat) <= ((u64::MAX - size) as u64 / m) as nat * (
                m as nat)) by (nonlinear_arith)
                    requires
                        g as nat <= ((u64::MAX - size) as u64 / m) as nat,
                        m as nat >= 1,
                ;
            } else {
                assert(g as nat * (m as nat) == 0) by (nonlinear_arith)
                    requires
                        g == 0,
                ;
            }
            assert(g as nat * (m as nat) <= (u64::MAX - size) as nat);
        }
        let add = g * m;
        if b < 128 {
            proof {
                assert(size_tail(p@, end as int, shift as nat) == Some((g as nat, end + 1)));
            }
            size = size + add;
            end = end + 1;
            cont = false;
        } else {
            proof {
                assert((1u64 << shift) as nat * 128 == (1u64 << ((shift + 7) as u64)) as nat)
                    by (bit_vector)
                    requires
                        shift <= 53,
                ;
                assert((1u64 << shift) <= (1u64 << 53u64)) by (bit_vector)
                    requires
                        shift <= 53,
                ;
                assert((1u64 << 53u64) == 9007199254740992u64) by (bit_vector);
                assert((1u64 << ((shift + 7) as u64)) >= 16) by (bit_vector)
                    requires
                        shift <= 53,
                ;
                let t2 = size_tail(p@, end + 1, shift as nat + 7);
                assert(size_tail(p@, end as int, shift as nat) == combine(t2, g as nat, 128));
                if t2 is Some {
                    let (v2, e2) = t2.unwrap();
                    assert(size as nat + (m as nat) * ((g as nat) + 128 * v2) == (size as nat
                        + (g as nat) * (m as nat)) + ((m as nat) * 128) * v2)
                        by (nonlinear_arith);
                }
            }
            size = size + add;
            m = m * 128;
            shift = shift + 7;
            end = end + 1;
        }
    }
    // size parsed; now the kind and the base reference
    if kind_bits == 1 || kind_bits == 2 || kind_bits == 3 || kind_bits == 4 {
        let kind = if kind_bits == 1 {
            EntryKind::Commit
        } else if kind_bits == 2 {
            EntryKind::Tree
        } else if kind_bits == 3 {
            EntryKind::Blob
        } else {
            EntryKind::Tag
        };
        Ok(EntryHeader { kind, inflated_size: size, header_len: end - offset, base: BaseRef::NotDelta })
    } else if kind_bits == 6 {
        // offset delta: the biased back distance
        if end >= n {
            return Err(Error::MalformedHeader);
        }
        let c0 = p[end];
        let mut dist: u64 = (c0 % 128) as u64;
        let mut j: usize = end + 1;
        let mut dcont = c0 >= 128;
        while dcont
            invariant
                n == p@.len(),
                end < j <= n,
                dcont ==> ofs_delta_at(p@, end as int) == ofs_rest(p@, j as int, dist as nat),
                !dcont ==> ofs_delta_at(p@, end as int) == Some((dist as nat, j as int)),
            decreases n - j,
        {
            if j >= n {
                return Err(Error::MalformedHeader);
            }
            let c = p[j];
            let g = (c % 128) as u64;
            if dist > (u64::MAX - 128 - g) / 128 {
                proof {
                    div_bounds((u64::MAX - 128 - g) as u64, 128);
                    assert((dist as nat + 1) * 128 + (g as nat) > u64::MAX as nat)
                        by (nonlinear_arith)
                        requires
                            dist as nat >= ((u64::MAX - 128 - g) as u64 / 128) as nat + 1,
                            ((u64::MAX - 128 - g) as u64 / 128) as nat * 128 + 128 > (u64::MAX
                                - 128 - g) as nat,
                            g <= 127,
                    ;
                    lemma_ofs_rest_grows(p@, j as int, dist as nat);
                }
                return Err(Error::MalformedHeader);
            }
            proof {
                div_bounds((u64::MAX - 128 - g) as u64, 128);
                assert((dist as nat + 1) * 128 + (g as nat) <= u64::MAX as nat)
                    by (nonlinear_arith)
                    requires
                        dist as nat <= ((u64::MAX - 128 - g) as u64 / 128) as nat,
                        ((u64::MAX - 128 - g) as u64 / 128) as nat * 128 <= (u64::MAX - 128
                            - g) as nat,
                        g <= 127,
                ;
            }
            dist = (dist + 1) * 128 + g;
            j = j + 1;
            dcont = c >= 128;
        }
        Ok(
            EntryHeader {
                kind: EntryKind::OfsDelta,
                inflated_size: size,
                header_len: j - offset,
                base: BaseRef::Distance(dist),
            },
        )
    } else if kind_bits == 7 {
        // reference delta: a 20-byte base name
        if n < 20 || end > n - 20 {
            return Err(Error::MalformedHeader);
        }
        let name_slice = vstd::slice::slice_subrange(p, end, end + 20);
        let name = vstd::slice::slice_to_vec(name_slice);
        Ok(
            EntryHeader {
                kind: EntryKind::RefDelta,
                inflated_size: size,
                header_len: end + 20 - offset,
                base: BaseRef::Name(name),
            },
        )
    } else {
        Err(Error::MalformedHeader)
    }
}

} // verus!
