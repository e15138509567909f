//! The delta instruction stream: two varint sizes (base and result), then
//! copy and insert instructions that rebuild an object from its base.
use vstd::prelude::*;

verus! {

use crate::entry::size_tail;
use crate::entry::combine;
use crate::errors::Error;

/// A plain little-endian 7-bit varint, as the two sizes at the front of a
/// delta stream are stored.
pub open spec fn delta_varint(d: Seq<u8>, i: int) -> Option<(nat, int)> {
    if i < 0 || i >= d.len() {
        None
    } else if d[i] < 128 {
        Some((d[i] as nat, i + 1))
    } else {
        combine(size_tail(d, i + 1, 7), (d[i] - 128) as nat, 128)
    }
}

/// Powers of two up to a byte's width.
pub open spec fn pow2j(j: int) -> nat {
    if j <= 0 {
        1
    } else if j == 1 {
        2
    } else if j == 2 {
        4
    } else if j == 3 {
        8
    } else if j == 4 {
        16
    } else if j == 5 {
        32
    } else {
        64
    }
}

/// 1 when bit `j` of `c` is set, else 0.
pub open spec fn bitv(c: u8, j: int) -> nat {
    if ((c as nat) / pow2j(j)) % 2 == 1 {
        1
    } else {
        0
    }
}

/// How many of the low `k` bits of `c` are set.
pub open spec fn nset(c: u8, k: int) -> nat
    decreases k,
{
    if k <= 0 {
        0
    } else {
        nset(c, k - 1) + bitv(c, k - 1)
    }
}

/// The value of optional byte field `j` of the copy instruction at `i`:
/// present exactly when bit `j` of the flag byte is set, and then stored
/// after the fields for the lower set bits.
pub open spec fn field(d: Seq<u8>, i: int, c: u8, j: int) -> nat {
    if bitv(c, j) == 1 {
        d[i + 1 + nset(c, j)] as nat
    } else {
        0
    }
}

/// The copy instruction at `i` with flag byte `c`: base offset, copy size
/// (zero stored means 65536), and the index after the instruction.
pub open spec fn copy_op(d: Seq<u8>, i: int, c: u8) -> Option<(nat, nat, int)> {
    let total = nset(c, 7);
    if i + 1 + total > d.len() {
        None
    } else {
        let cofs = field(d, i, c, 0) + 256 * field(d, i, c, 1) + 65536 * field(d, i, c, 2)
            + 16777216 * field(d, i, c, 3);
        let csz0 = field(d, i, c, 4) + 256 * field(d, i, c, 5) + 65536 * field(d, i, c, 6);
        let csz: nat = if csz0 == 0 {
            65536
        } else {
            csz0
        };
        Some((cofs, csz, i + 1 + total))
    }
}

/// Run the instructions from `i` with `acc` already produced: an insert
/// appends literal bytes, a copy appends a window of the base; flag byte 0
/// is reserved and malformed, as is any instruction that runs past the
/// stream or reads outside the base.
pub open spec fn apply_ops(base: Seq<u8>, d: Seq<u8>, i: int, acc: Seq<u8>) -> Option<Seq<u8>>
    decreases d.len() - i,
{
    if i == d.len() {
        Some(acc)
    } else if i < 0 || i > d.len() {
        None
    } else {
        let c = d[i];
        if c == 0 {
            None
        } else if c < 128 {
            if i + 1 + (c as int) <= d.len() {
                apply_ops(base, d, i + 1 + (c as int), acc + d.subrange(i + 1, i + 1 + (c as int)))
            } else {
                None
            }
        } else {
            match copy_op(d, i, c) {
                Option::None => None,
                Option::Some((cofs, csz, nx)) => {
                    if cofs + csz <= base.len() {
                        apply_ops(base, d, nx, acc + base.subrange(cofs as int, (cofs + csz) as int))
                    } else {
                        None
                    }
                },
            }
        }
    }
}

/// What applying delta stream `d` to `base` yields: the declared base size
/// must equal the base's length, and the produced bytes must have the
/// declared result length.
pub open spec fn delta_result(base: Seq<u8>, d: Seq<u8>) -> Option<Seq<u8>> {
    match delta_varint(d, 0) {
        Option::None => None,
        Option::Some((bs, i1)) => match delta_varint(d, i1) {
            Option::None => None,
            Option::Some((rs, i2)) => {
                if bs == base.len() {
                    match apply_ops(base, d, i2, Seq::empty()) {
                        Option::None => None,
                        Option::Some(r) => if r.len() == rs {
                            Some(r)
                        } else {
                            None
                        },
                    }
                } else {
                    None
                }
            },
        },
    }
}

/// Both declared sizes of the stream fit in 64 bits (vacuous where they are
/// absent or malformed).
pub open spec fn sizes_fit(d: Seq<u8>) -> bool {
    match delta_varint(d, 0) {
        Option::None => true,
        Option::Some((bs, i1)) => bs <= u64::MAX && match delta_varint(d, i1) {
            Option::None => true,
            Option::Some((rs, _)) => rs <= u64::MAX,
        },
    }
}

/// Read the varint at `pos`. `Err` exactly when it is malformed or does not
/// fit in 64 bits.
#[verifier::loop_isolation(false)]
#[verifier::rlimit(100)]
fn read_delta_varint(d: &[u8], pos: usize) -> (r: Result<(u64, usize), Error>)
    ensures
        match r {
            Ok((v, e)) => delta_varint(d@, pos as int) == Some((v as nat, e as int)) && pos < e
                <= d@.len(),
            Err(_) => match delta_varint(d@, pos as int) {
                Option::None => true,
                Option::Some((v, _)) => v > u64::MAX,
            },
        },
{
    let n = d.len();
    if pos >= n {
        return Err(Error::DeltaStreamMalformed);
    }
    let c0 = d[pos];
    let mut val: u64 = (c0 % 128) as u64;
    let mut end: usize = pos + 1;
    let mut cont = c0 >= 128;
    let mut shift: u64 = 7;
    let mut m: u64 = 128;
    proof {
        assert((1u64 << 7u64) == 128) by (bit_vector);
    }
    while cont
        invariant
            n == d@.len(),
            pos < end <= n,
            cont ==> {
                &&& shift <= 60
                &&& m == (1u64 << shift)
                &&& m >= 16
                &&& delta_varint(d@, pos as int) == combine(
                    size_tail(d@, end as int, shift as nat),
                    val as nat,
                    m as nat,
                )
            },
            !cont ==> delta_varint(d@, pos as int) == Some((val as nat, end as int)),
        decreases n - end,
    {
        if end >= n {
            proof {
                assert(size_tail(d@, end as int, shift as nat) is None);
            }
            return Err(Error::DeltaStreamMalformed);
        }
        let b = d[end];
        let g = (b % 128) as u64;
        if b >= 128 && shift + 7 > 60 {
            proof {
                assert(size_tail(d@, end + 1, shift as nat + 7) is None);
                assert(size_tail(d@, end as int, shift as nat) is None);
            }
            return Err(Error::DeltaStreamMalformed);
        }
        if g > 0 && g > (u64::MAX - val) / m {
            proof {
                crate::entry::div_bounds((u64::MAX - val) as u64, m);
                assert(g as nat * (m as nat) > (u64::MAX - val) as nat) by (nonlinear_arith)
                    requires
                        g as nat >= ((u64::MAX - val) as u64 / m) as nat + 1,
                        ((u64::MAX - val) as u64 / m) as nat * (m as nat) + m > (u64::MAX
                            - val) as nat,
                        m >= 1,
                ;
                let t = size_tail(d@, end as int, shift as nat);
                if t is Some {
                    let (v, e) = t.unwrap();
                    if d@[end as int] >= 128 {
                        assert(v == (d@[end as int] - 128) as nat + 128 * size_tail(
                            d@,
                            end + 1,
                            shift as nat + 7,
                        ).unwrap().0);
                    }
                    assert(v >= g as nat);
                    assert(m as nat * v >= m as nat * (g as nat)) by (nonlinear_arith)
                        requires
                            v >= g as nat,
                            m as nat >= 1,
                    ;
                }
            }
            return Err(Error::DeltaStreamMalformed);
        }
        proof {
            if g > 0 {
                crate::entry::div_bounds((u64::MAX - val) as u64, m);
                assert(g as nat * (m as nat) <= ((u64::MAX - val) as u64 / m) as nat * (
                m as nat)) by (nonlinear_arith)
                    requires
                        g as nat <= ((u64::MAX - val) as u64 / m) as nat,
                        m as nat >= 1,
                ;
            } else {
                assert(g as nat * (m as nat) == 0) by (nonlinear_arith)
                    requires
                        g == 0,
                ;
            }
            assert(g as nat * (m as nat) <= (u64::MAX - val) as nat);
        }
        let add = g * m;
        if b < 128 {
            proof {
                assert(size_tail(d@, end as int, shift as nat) == Some((g as nat, end + 1)));
            }
            val = val + add;
            end = end + 1;
            cont = false;
        } else {
            proof {
                assert((1u64 << shift) as nat * 128 == (1u64 << ((shift + 7) as u64)) as nat)
                    by (bit_vector)
                    requires
                        shift <= 53,
                ;
                assert((1u64 << shift) <= (1u64 << 53u64)) by (bit_vector)
                    requires
                        shift <= 53,
                ;
                assert((1u64 << 53u64) == 9007199254740992u64) by (bit_vector);
                assert((1u64 << ((shift + 7) as u64)) >= 16) by (bit_vector)
                    requires
                        shift <= 53,
                ;
                let t2 = size_tail(d@, end + 1, shift as nat + 7);
                assert(size_tail(d@, end as int, shift as nat) == combine(t2, g as nat, 128));
                if t2 is Some {
                    let (v2, e2) = t2.unwrap();
                    assert(val as nat + (m as nat) * ((g as nat) + 128 * v2) == (val as nat + (
                    g as nat) * (m as nat)) + ((m as nat) * 128) * v2) by (nonlinear_arith);
                }
            }
            val = val + add;
            m = m * 128;
            shift = shift + 7;
            end = end + 1;
        }
    }
    Ok((val, end))
}

/// Append bytes `from..to` of `src` to `out`.
#[verifier::loop_isolation(false)]
fn push_range(out: &mut Vec<u8>, src: &[u8], from: usize, to: usize)
    requires
        from <= to <= src@.len(),
    ensures
        final(out)@ == old(out)@ + src@.subrange(from as int, to as int),
{
    let ghost base = out@;
    let mut k = from;
    while k < to
        invariant
            from <= k <= to,
            out@ == base + src@.subrange(from as int, k as int),
        decreases to - k,
    {
        out.push(src[k]);
        proof {
            assert(base + src@.subrange(from as int, k as int) + seq![src@[k as int]] =~= base
                + src@.subrange(from as int, k + 1));
        }
        k = k + 1;
    }
    proof {
        if from == to {
            assert(base + src@.subrange(from as int, to as int) =~= base);
        }
    }
}

/// Read the optional offset bytes of the copy instruction at `i` with flag
/// byte `c`.
#[verifier::loop_isolation(false)]
#[verifier::rlimit(100)]
fn read_copy_ofs(d: &[u8], i: usize, c: u8) -> (r: Result<(u64, usize), Error>)
    requires
        i < d@.len(),
        c >= 128,
    ensures
        match r {
            Ok(t) => {
                &&& t.0 as nat == field(d@, i as int, c, 0) + 256 * field(d@, i as int, c, 1)
                    + 65536 * field(d@, i as int, c, 2) + 16777216 * field(d@, i as int, c, 3)
                &&& t.1 as int == i + 1 + nset(c, 4)
                &&& t.1 <= d@.len()
            },
            Err(_) => i + 1 + nset(c, 7) > d@.len(),
        },
{
    let dn = d.len();
    let mut j: usize = i + 1;
    let mut cofs: u64 = 0;
    proof {
        assert(nset(c, 0) == 0);
        assert(nset(c, 1) == nset(c, 0) + bitv(c, 0));
        assert(nset(c, 2) == nset(c, 1) + bitv(c, 1));
        assert(nset(c, 3) == nset(c, 2) + bitv(c, 2));
        assert(nset(c, 4) == nset(c, 3) + bitv(c, 3));
        assert(nset(c, 5) == nset(c, 4) + bitv(c, 4));
        assert(nset(c, 6) == nset(c, 5) + bitv(c, 5));
        assert(nset(c, 7) == nset(c, 6) + bitv(c, 6));
    }
    if c % 2 == 1 {
        if j >= dn {
            return Err(Error::DeltaStreamMalformed);
        }
        cofs = cofs + (d[j] as u64);
        j = j + 1;
    } else {
        proof {
            assert(field(d@, i as int, c, 0) == 0);
        }
    }
    if (c / 2) % 2 == 1 {
        if j >= dn {
            return Err(Error::DeltaStreamMalformed);
        }
        cofs = cofs + (d[j] as u64) * 256;
        j = j + 1;
    } else {
        proof {
            assert(field(d@, i as int, c, 1) == 0);
        }
    }
    if (c / 4) % 2 == 1 {
        if j >= dn {
            return Err(Error::DeltaStreamMalformed);
        }
        cofs = cofs + (d[j] as u64) * 65536;
        j = j + 1;
    } else {
        proof {
            assert(field(d@, i as int, c, 2) == 0);
        }
    }
    if (c / 8) % 2 == 1 {
        if j >= dn {
            return Err(Error::DeltaStreamMalformed);
        }
        cofs = cofs + (d[j] as u64) * 16777216;
        j = j + 1;
    } else {
        proof {
            assert(field(d@, i as int, c, 3) == 0);
        }
    }
    Ok((cofs, j))
}

/// Read the optional size bytes of the copy instruction, following at `j`.
#[verifier::loop_isolation(false)]
#[verifier::rlimit(100)]
fn read_copy_sz(d: &[u8], i: usize, c: u8, j0: usize) -> (r: Result<(u64, usize), Error>)
    requires
        i < d@.len(),
        c >= 128,
        j0 as int == i + 1 + nset(c, 4),
        j0 <= d@.len(),
    ensures
        match r {
            Ok(t) => {
                &&& t.0 as nat == field(d@, i as int, c, 4) + 256 * field(d@, i as int, c, 5)
                    + 65536 * field(d@, i as int, c, 6)
                &&& t.1 as int == i + 1 + nset(c, 7)
                &&& t.1 <= d@.len()
            },
            Err(_) => i + 1 + nset(c, 7) > d@.len(),
        },
{
    let dn = d.len();
    let mut j: usize = j0;
    let mut csz: u64 = 0;
    proof {
        assert(nset(c, 5) == nset(c, 4) + bitv(c, 4));
        assert(nset(c, 6) == nset(c, 5) + bitv(c, 5));
        assert(nset(c, 7) == nset(c, 6) + bitv(c, 6));
    }
    if (c / 16) % 2 == 1 {
        if j >= dn {
            return Err(Error::DeltaStreamMalformed);
        }
        csz = csz + (d[j] as u64);
        j = j + 1;
    } else {
        proof {
            assert(field(d@, i as int, c, 4) == 0);
        }
    }
    if (c / 32) % 2 == 1 {
        if j >= dn {
            return Err(Error::DeltaStreamMalformed);
        }
        csz = csz + (d[j] as u64) * 256;
        j = j + 1;
    } else {
        proof {
            assert(field(d@, i as int, c, 5) == 0);
        }
    }
    if (c / 64) % 2 == 1 {
        if j >= dn {
            return Err(Error::DeltaStreamMalformed);
        }
        csz = csz + (d[j] as u64) * 65536;
        j = j + 1;
    } else {
        proof {
            assert(field(d@, i as int, c, 6) == 0);
        }
    }
    Ok((csz, j))
}

/// Read the whole copy instruction at `i` with flag byte `c`.
#[verifier::rlimit(100)]
fn read_copy_op(d: &[u8], i: usize, c: u8) -> (r: Result<(u64, u64, usize), Error>)
    requires
        i < d@.len(),
        d@[i as int] == c,
        c >= 128,
    ensures
        match r {
            Ok(t) => copy_op(d@, i as int, c) == Some((t.0 as nat, t.1 as nat, t.2 as int))
                && i < t.2 <= d@.len(),
            Err(_) => copy_op(d@, i as int, c) is None,
        },
{
    let (cofs, j0) = match read_copy_ofs(d, i, c) {
        Ok(t) => t,
        Err(e) => {
            return Err(e);
        },
    };
    let (mut csz, nx) = match read_copy_sz(d, i, c, j0) {
        Ok(t) => t,
        Err(e) => {
            return Err(e);
        },
    };
    if csz == 0 {
        csz = 65536;
    }
    proof {
        assert(copy_op(d@, i as int, c) == Some(((cofs as nat, csz as nat, nx as int))));
    }
    Ok((cofs, csz, nx))
}

/// Apply the delta stream `delta` to `base`, reconstructing a new object.
/// Succeeds exactly when the stream is well formed for this base and its
/// declared sizes fit in 64 bits.
#[verifier::loop_isolation(false)]
#[verifier::rlimit(100)]
pub fn apply_delta(base: &[u8], delta: &[u8]) -> (r: Result<Vec<u8>, Error>)
    ensures
        match r {
            Ok(v) => delta_result(base@, delta@) == Some(v@),
            Err(_) => delta_result(base@, delta@) is None || !sizes_fit(delta@),
        },
{
    let bs = match read_delta_varint(delta, 0) {
        Ok(p) => p,
        Err(e) => {
            return Err(e);
        },
    };
    let rs = match read_delta_varint(delta, bs.1) {
        Ok(p) => p,
        Err(e) => {
            return Err(e);
        },
    };
    if bs.0 != base.len() as u64 {
        return Err(Error::SizeMismatch);
    }
    let dn = delta.len();
    let bn = base.len();
    let mut out: Vec<u8> = Vec::new();
    let mut i: usize = rs.1;
    proof {
        assert(Seq::<u8>::empty() + out@ =~= out@);
        assert(apply_ops(base@, delta@, i as int, Seq::empty()) == apply_ops(
            base@,
            delta@,
            i as int,
            out@,
        ));
    }
    while i < dn
        invariant
            dn == delta@.len(),
            bn == base@.len(),
            i <= dn,
            apply_ops(base@, delta@, rs.1 as int, Seq::empty()) == apply_ops(
                base@,
                delta@,
                i as int,
                out@,
            ),
        decreases dn - i,
    {
        let c = delta[i];
        if c == 0 {
            return Err(Error::DeltaStreamMalformed);
        } else if c < 128 {
            let cl = c as usize;
            if cl > dn - (i + 1) {
                return Err(Error::DeltaStreamMalformed);
            }
            push_range(&mut out, delta, i + 1, i + 1 + cl);
            i = i + 1 + cl;
        } else {
            // copy instruction
            let (cofs, csz, nx) = match read_copy_op(delta, i, c) {
                Ok(t) => t,
                Err(e) => {
                    return Err(e);
                },
            };
            if cofs > bn as u64 || csz > bn as u64 - cofs {
                return Err(Error::DeltaStreamMalformed);
            }
            push_range(&mut out, base, cofs as usize, (cofs + csz) as usize);
            i = nx;
        }
    }
    proof {
        assert(apply_ops(base@, delta@, i as int, out@) == Some(out@));
    }
    if (out.len() as u64) != rs.0 {
        return Err(Error::SizeMismatch);
    }
    Ok(out)
}

} // verus!
