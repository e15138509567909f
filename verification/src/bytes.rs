//! Big-endian integer fields and fixed-width byte comparisons, as used by the
//! pack and index file layouts.
use vstd::prelude::*;

verus! {

/// The value of the 4-byte big-endian field at `i`.
pub open spec fn be32(s: Seq<u8>, i: int) -> nat {
    (s[i] as nat) * 0x1000000 + (s[i + 1] as nat) * 0x10000 + (s[i + 2] as nat) * 0x100 + (s[i
        + 3] as nat)
}

/// The value of the 8-byte big-endian field at `i`.
pub open spec fn be64(s: Seq<u8>, i: int) -> nat {
    be32(s, i) * 0x100000000 + be32(s, i + 4)
}

/// Read the 4-byte big-endian field at `i`.
pub fn read_be32(d: &[u8], i: usize) -> (r: u32)
    requires
        i + 4 <= d@.len(),
    ensures
        r as nat == be32(d@, i as int),
{
    let n = d.len();
    (d[i] as u32) * 0x1000000 + (d[i + 1] as u32) * 0x10000 + (d[i + 2] as u32) * 0x100 + (d[i
        + 3] as u32)
}

/// Read the 8-byte big-endian field at `i`.
pub fn read_be64(d: &[u8], i: usize) -> (r: u64)
    requires
        i + 8 <= d@.len(),
    ensures
        r as nat == be64(d@, i as int),
{
    let n = d.len();
    let hi = read_be32(d, i);
    let lo = read_be32(d, i + 4);
    (hi as u64) * 0x100000000 + (lo as u64)
}

/// Bounds of truncating division on machine words:
/// `m * (a / m) <= a < m * (a / m) + m`.
pub proof fn div_bounds_usize(a: usize, m: usize)
    requires
        m > 0,
    ensures
        (a / m) as int * (m as int) <= a as int,
        (a / m) as int * (m as int) + m > a as int,
{
    vstd::arithmetic::div_mod::lemma_fundamental_div_mod(a as int, m as int);
    vstd::arithmetic::div_mod::lemma_mod_division_less_than_divisor(a as int, m as int);
    assert(a as int == m as int * (a as int / m as int) + (a as int) % (m as int));
    assert((a / m) as int == a as int / m as int);
    assert((a / m) as int * (m as int) == m as int * (a as int / m as int))
        by (nonlinear_arith)
        requires
            (a / m) as int == a as int / m as int,
            m > 0,
    ;
}

/// Compare the `n` bytes of `a` at `ai` with the `n` bytes of `b` at `bi`.
#[verifier::loop_isolation(false)]
pub fn range_eq(a: &[u8], ai: usize, b: &[u8], bi: usize, n: usize) -> (r: bool)
    requires
        ai + n <= a@.len(),
        bi + n <= b@.len(),
    ensures
        r <==> a@.subrange(ai as int, ai + n) == b@.subrange(bi as int, bi + n),
{
    let la = a.len();
    let lb = b.len();
    let mut k: usize = 0;
    while k < n
        invariant
            k <= n,
            la == a@.len(),
            lb == b@.len(),
            forall|j: int| ai <= j < ai + k ==> #[trigger] a@[j] == b@[j - ai + bi],
        decreases n - k,
    {
        if a[ai + k] != b[bi + k] {
            proof {
                assert(a@.subrange(ai as int, ai + n)[k as int] != b@.subrange(
                    bi as int,
                    bi + n,
                )[k as int]);
            }
            return false;
        }
        k = k + 1;
    }
    proof {
        assert(a@.subrange(ai as int, ai + n) =~= b@.subrange(bi as int, bi + n));
    }
    true
}

} // verus!
