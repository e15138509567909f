//! Codec for loose-object headers: the ASCII framing `"<kind> <decimal-size>\0"`
//! that prefixes every loose object, and that also names an object when its
//! content hash is computed.
use vstd::prelude::*;

verus! {

use crate::kinds::ObjectKind;
use crate::kinds::kind_name;
use crate::kinds::lemma_kind_name_bytes;
use crate::kinds::lemma_kind_name_injective;

/// Failure of `decode`.
#[derive(Clone, Copy, PartialEq, Eq, Structural, Debug)]
pub enum Error {
    /// The size field is empty, holds a non-digit, or does not fit in 64 bits.
    ParseIntegerError,
    /// There is no NUL terminator, or no space inside the header.
    InvalidHeader,
    /// The kind field names no known object kind.
    ObjectHeader,
}

pub open spec fn is_digit(b: u8) -> bool {
    48 <= b <= 57
}

pub open spec fn all_digits(s: Seq<u8>) -> bool {
    forall|i: int| 0 <= i < s.len() ==> is_digit(#[trigger] s[i])
}

/// The shortest decimal rendering of `n`, as ASCII bytes.
pub open spec fn dec_digits(n: nat) -> Seq<u8>
    decreases n,
{
    if n < 10 {
        seq![(48 + n) as u8]
    } else {
        dec_digits(n / 10) + seq![(48 + n % 10) as u8]
    }
}

/// The numeric value of a run of ASCII digits.
pub open spec fn dec_val(s: Seq<u8>) -> nat
    decreases s.len(),
{
    if s.len() == 0 {
        0
    } else {
        (dec_val(s.drop_last()) * 10 + (s.last() - 48)) as nat
    }
}

/// The encoded header for an object of kind `k` and size `n`:
/// `"<kind> <decimal n>\0"`.
pub open spec fn encoded(k: ObjectKind, n: u64) -> Seq<u8> {
    kind_name(k) + seq![32u8] + dec_digits(n as nat) + seq![0u8]
}

/// The exact shape `decode` accepts, with the scan positions made explicit:
/// `l - 1` is the first NUL of `s`, `sp` the first space before it, and the
/// size field runs from `sp + 1` to `se`, the next space or the header end.
/// Bytes after the NUL are ignored.
pub open spec fn decode_shape(
    s: Seq<u8>,
    k: ObjectKind,
    n: u64,
    l: int,
    sp: int,
    se: int,
) -> bool {
    &&& 1 <= l <= s.len()
    &&& s[l - 1] == 0
    &&& forall|j: int| 0 <= j < l - 1 ==> #[trigger] s[j] != 0
    &&& 0 <= sp < l - 1
    &&& s[sp] == 32
    &&& forall|j: int| 0 <= j < sp ==> #[trigger] s[j] != 32
    &&& s.subrange(0, sp) == kind_name(k)
    &&& sp + 1 < se <= l - 1
    &&& se == l - 1 || s[se] == 32
    &&& forall|j: int| sp < j < se ==> #[trigger] s[j] != 32
    &&& all_digits(s.subrange(sp + 1, se))
    &&& dec_val(s.subrange(sp + 1, se)) == n as nat
}

/// `decode(s)` succeeds with `(k, n, l)`.
pub open spec fn decodes_to(s: Seq<u8>, k: ObjectKind, n: u64, l: int) -> bool {
    exists|sp: int, se: int| decode_shape(s, k, n, l, sp, se)
}

/// `z` is the first NUL of `s`.
pub open spec fn is_first_nul(s: Seq<u8>, z: int) -> bool {
    &&& 0 <= z < s.len()
    &&& s[z] == 0
    &&& forall|j: int| 0 <= j < z ==> s[j] != 0
}

/// `sp` is the first space of `s`, inside the header that the first NUL at
/// `z` delimits.
pub open spec fn is_field_split(s: Seq<u8>, z: int, sp: int) -> bool {
    &&& is_first_nul(s, z)
    &&& 0 <= sp < z
    &&& s[sp] == 32
    &&& forall|j: int| 0 <= j < sp ==> s[j] != 32
}

/// The size field runs from `sp + 1` to `se`: the next space, or the header
/// end.
pub open spec fn is_size_field(s: Seq<u8>, z: int, sp: int, se: int) -> bool {
    &&& sp + 1 <= se <= z
    &&& (se == z || s[se] == 32)
    &&& forall|j: int| sp < j < se ==> s[j] != 32
}

/// No NUL terminates a header in `s`.
pub open spec fn missing_terminator(s: Seq<u8>) -> bool {
    forall|j: int| 0 <= j < s.len() ==> s[j] != 0
}

/// A header is terminated but holds no space.
pub open spec fn missing_space(s: Seq<u8>) -> bool {
    exists|z: int| #[trigger] is_first_nul(s, z) && forall|j: int| 0 <= j < z ==> s[j] != 32
}

/// The header splits into two fields, but the first names no object kind.
pub open spec fn unknown_kind(s: Seq<u8>) -> bool {
    exists|z: int, sp: int|
        #[trigger] is_field_split(s, z, sp) && forall|k: ObjectKind|
            s.subrange(0, sp) != kind_name(k)
}

/// The header splits, the kind is known, but the size field is empty, holds
/// a non-digit, or does not fit in 64 bits.
pub open spec fn bad_size_field(s: Seq<u8>) -> bool {
    exists|z: int, sp: int, se: int|
        {
            &&& #[trigger] is_field_split(s, z, sp)
            &&& (exists|k: ObjectKind| s.subrange(0, sp) == kind_name(k))
            &&& #[trigger] is_size_field(s, z, sp, se)
            &&& (se == sp + 1 || !all_digits(s.subrange(sp + 1, se)) || dec_val(
                s.subrange(sp + 1, se),
            ) > u64::MAX)
        }
}

/// The decimal rendering of `n` is a non-empty run of digits whose value is `n`.
pub proof fn lemma_dec_digits(n: nat)
    ensures
        dec_digits(n).len() >= 1,
        all_digits(dec_digits(n)),
        dec_val(dec_digits(n)) == n,
    decreases n,
{
    if n < 10 {
        let s = dec_digits(n);
        assert(s == seq![(48 + n) as u8]);
        assert(s.drop_last() =~= Seq::<u8>::empty());
        assert(s.last() == (48 + n) as u8);
        assert(dec_val(Seq::<u8>::empty()) == 0);
        assert(dec_val(s) == n);
        assert(is_digit(s[0]));
    } else {
        lemma_dec_digits(n / 10);
        let s = dec_digits(n);
        assert(s.drop_last() =~= dec_digits(n / 10));
        assert(s.last() == (48 + n % 10) as u8);
        assert(dec_val(s) == n / 10 * 10 + n % 10);
        assert(n / 10 * 10 + n % 10 == n) by {
            vstd::arithmetic::div_mod::lemma_fundamental_div_mod(n as int, 10);
        }
        assert forall|i: int| 0 <= i < s.len() implies is_digit(#[trigger] s[i]) by {
            if i < s.len() - 1 {
                assert(s[i] == dec_digits(n / 10)[i]);
            } else {
                assert(s[i] == (48 + n % 10) as u8);
            }
        }
    }
}

/// The value of a run of digits is at least the value of any of its prefixes.
pub proof fn lemma_dec_val_prefix(s: Seq<u8>, m: int)
    requires
        0 <= m <= s.len(),
        all_digits(s),
    ensures
        dec_val(s.subrange(0, m)) <= dec_val(s),
    decreases s.len() - m,
{
    if m == s.len() {
        assert(s.subrange(0, m) =~= s);
    } else {
        lemma_dec_val_prefix(s, m + 1);
        let t = s.subrange(0, m + 1);
        assert(t.drop_last() =~= s.subrange(0, m));
        assert(is_digit(t.last()));
        assert(dec_val(t) == dec_val(s.subrange(0, m)) * 10 + (t.last() - 48));
    }
}

/// The scan positions, and with them the decoded values, are unique for a
/// given input.
pub proof fn lemma_decodes_unique(
    s: Seq<u8>,
    k1: ObjectKind,
    n1: u64,
    l1: int,
    k2: ObjectKind,
    n2: u64,
    l2: int,
)
    requires
        decodes_to(s, k1, n1, l1),
        decodes_to(s, k2, n2, l2),
    ensures
        k1 == k2,
        n1 == n2,
        l1 == l2,
{
    let (sp1, se1) = choose|sp: int, se: int| decode_shape(s, k1, n1, l1, sp, se);
    let (sp2, se2) = choose|sp: int, se: int| decode_shape(s, k2, n2, l2, sp, se);
    assert(decode_shape(s, k1, n1, l1, sp1, se1));
    assert(decode_shape(s, k2, n2, l2, sp2, se2));
    if l1 < l2 {
        assert(s[l1 - 1] == 0 && s[l1 - 1] != 0);
    }
    if l2 < l1 {
        assert(s[l2 - 1] == 0 && s[l2 - 1] != 0);
    }
    if sp1 < sp2 {
        assert(s[sp1] == 32 && s[sp1] != 32);
    }
    if sp2 < sp1 {
        assert(s[sp2] == 32 && s[sp2] != 32);
    }
    lemma_kind_name_injective(k1, k2);
    if se1 < se2 {
        assert(s[se1] == 32 && s[se1] != 32);
    }
    if se2 < se1 {
        assert(s[se2] == 32 && s[se2] != 32);
    }
    assert(n1 as nat == n2 as nat);
}

/// Any input beginning with `encoded(k, n)` decodes to `(k, n)` with header
/// length `|encoded(k, n)|`.
pub proof fn lemma_encoded_decodes(s: Seq<u8>, k: ObjectKind, n: u64)
    requires
        encoded(k, n).is_prefix_of(s),
    ensures
        decodes_to(s, k, n, encoded(k, n).len() as int),
{
    lemma_kind_name_bytes(k);
    lemma_dec_digits(n as nat);
    let e = encoded(k, n);
    let kn = kind_name(k).len() as int;
    let d = dec_digits(n as nat);
    let l = e.len() as int;
    let sp = kn;
    let se = l - 1;
    assert(forall|j: int| 0 <= j < l ==> #[trigger] s[j] == e[j]);
    assert(s.subrange(0, sp) =~= kind_name(k));
    assert(s.subrange(sp + 1, se) =~= d);
    assert(s[l - 1] == 0);
    assert forall|j: int| 0 <= j < l - 1 implies #[trigger] s[j] != 0 by {
        if j < kn {
            assert(s[j] == kind_name(k)[j]);
        } else if j > kn {
            assert(s[j] == d[j - kn - 1]);
            assert(is_digit(d[j - kn - 1]));
        }
    }
    assert forall|j: int| 0 <= j < sp implies #[trigger] s[j] != 32 by {
        assert(s[j] == kind_name(k)[j]);
    }
    assert forall|j: int| sp < j < se implies #[trigger] s[j] != 32 by {
        assert(s[j] == d[j - kn - 1]);
        assert(is_digit(d[j - kn - 1]));
    }
    assert(decode_shape(s, k, n, l, sp, se));
}

/// Round trip of loose headers: an input that begins with `encoded(k, n)`
/// decodes exactly to `(k, n, |encoded(k, n)|)`; no other reading exists.
/// Together with the contracts of `encode` and `decode` this says
/// `decode(encode(k, n)) == Ok((k, n, written))` for every kind and size.
pub proof fn lemma_loose_header_round_trip(s: Seq<u8>, k: ObjectKind, n: u64)
    requires
        encoded(k, n).is_prefix_of(s),
    ensures
        decodes_to(s, k, n, encoded(k, n).len() as int),
        forall|k2: ObjectKind, n2: u64, l2: int|
            decodes_to(s, k2, n2, l2) ==> k2 == k && n2 == n && l2 == encoded(k, n).len(),
{
    lemma_encoded_decodes(s, k, n);
    assert forall|k2: ObjectKind, n2: u64, l2: int|
        decodes_to(s, k2, n2, l2) implies k2 == k && n2 == n && l2 == encoded(k, n).len() by {
        lemma_decodes_unique(s, k2, n2, l2, k, n, encoded(k, n).len() as int);
    }
}

/// Parse a loose-object header from the front of `input`: `"<kind> <size>\0"`,
/// returning the kind, the size and the number of bytes read, the NUL
/// included. Bytes after the NUL are left unread.
#[verifier::loop_isolation(false)]
pub fn decode(input: &[u8]) -> (r: Result<(ObjectKind, u64, usize), Error>)
    ensures
        match r {
            Ok(t) => decodes_to(input@, t.0, t.1, t.2 as int),
            Err(v) => {
                &&& (forall|k: ObjectKind, n: u64, l: int| !decodes_to(input@, k, n, l))
                &&& match v {
                    Error::InvalidHeader => missing_terminator(input@) || missing_space(
                        input@,
                    ),
                    Error::ObjectHeader => unknown_kind(input@),
                    Error::ParseIntegerError => bad_size_field(input@),
                }
            },
        },
        forall|k: ObjectKind, n: u64| #[trigger]
            encoded(k, n).is_prefix_of(input@) ==> r == Ok::<(ObjectKind, u64, usize), Error>(
                (k, n, encoded(k, n).len() as usize),
            ),
{
    let len = input.len();
    let mut zero: usize = 0;
    while zero < len && input[zero] != 0
        invariant
            zero <= len,
            forall|j: int| 0 <= j < zero ==> input@[j] != 0,
        decreases len - zero,
    {
        zero = zero + 1;
    }
    if zero == len {
        proof {
            assert forall|k: ObjectKind, n: u64, l: int| !decodes_to(input@, k, n, l) by {
                if decodes_to(input@, k, n, l) {
                    let (sp, se) = choose|sp: int, se: int|
                        decode_shape(input@, k, n, l, sp, se);
                    assert(input@[l - 1] == 0);
                }
            }
            assert forall|k: ObjectKind, n: u64| #[trigger]
                encoded(k, n).is_prefix_of(input@) implies false by {
                lemma_encoded_decodes(input@, k, n);
            }
            assert(missing_terminator(input@));
        }
        return Err(Error::InvalidHeader);
    }
    let mut sp: usize = 0;
    while sp < zero && input[sp] != 32
        invariant
            sp <= zero,
            forall|j: int| 0 <= j < sp ==> input@[j] != 32,
        decreases zero - sp,
    {
        sp = sp + 1;
    }
    proof {
        // in every accepted shape the first NUL fixes `l` and the first
        // space fixes `sp`
        assert forall|k: ObjectKind, n: u64, l: int, spx: int, sex: int|
            decode_shape(input@, k, n, l, spx, sex) implies l == zero + 1 && spx == sp by {
            if l - 1 < zero {
                assert(input@[l - 1] == 0);
            }
            if zero < l - 1 {
                assert(input@[zero as int] != 0);
            }
            if spx < sp {
                assert(input@[spx] == 32);
            }
            if sp < spx {
                assert(input@[sp as int] != 32);
            }
        }
    }
    if sp == zero {
        proof {
            assert forall|k: ObjectKind, n: u64, l: int| !decodes_to(input@, k, n, l) by {
                if decodes_to(input@, k, n, l) {
                    let (spx, sex) = choose|spx: int, sex: int|
                        decode_shape(input@, k, n, l, spx, sex);
                    assert(spx == sp && l == zero + 1);
                    assert(spx < l - 1);
                }
            }
            assert forall|k: ObjectKind, n: u64| #[trigger]
                encoded(k, n).is_prefix_of(input@) implies false by {
                lemma_encoded_decodes(input@, k, n);
            }
            assert(is_first_nul(input@, zero as int));
            assert(missing_space(input@));
        }
        return Err(Error::InvalidHeader);
    }
    let kind_bytes = vstd::slice::slice_subrange(input, 0, sp);
    let kind = match ObjectKind::from_bytes(kind_bytes) {
        Some(k) => k,
        None => {
            proof {
                assert forall|k: ObjectKind, n: u64, l: int| !decodes_to(input@, k, n, l) by {
                    if decodes_to(input@, k, n, l) {
                        let (spx, sex) = choose|spx: int, sex: int|
                            decode_shape(input@, k, n, l, spx, sex);
                        assert(spx == sp);
                        assert(input@.subrange(0, sp as int) == kind_name(k));
                    }
                }
                assert forall|k: ObjectKind, n: u64| #[trigger]
                    encoded(k, n).is_prefix_of(input@) implies false by {
                    lemma_encoded_decodes(input@, k, n);
                }
                assert(is_field_split(input@, zero as int, sp as int));
                assert(unknown_kind(input@));
            }
            return Err(Error::ObjectHeader);
        },
    };
    let mut se: usize = sp + 1;
    while se < zero && input[se] != 32
        invariant
            sp + 1 <= se <= zero,
            forall|j: int| sp < j < se ==> input@[j] != 32,
        decreases zero - se,
    {
        se = se + 1;
    }
    proof {
        // the size field always ends at the next space or at the header end
        assert forall|k: ObjectKind, n: u64, l: int, spx: int, sex: int|
            decode_shape(input@, k, n, l, spx, sex) implies sex == se by {
            assert(spx == sp && l == zero + 1);
            if sex < se {
                assert(input@[sex] == 32);
            }
            if se < sex {
                assert(input@[se as int] != 32);
            }
        }
    }
    if se == sp + 1 {
        proof {
            assert forall|k: ObjectKind, n: u64, l: int| !decodes_to(input@, k, n, l) by {
                if decodes_to(input@, k, n, l) {
                    let (spx, sex) = choose|spx: int, sex: int|
                        decode_shape(input@, k, n, l, spx, sex);
                    assert(spx + 1 < sex);
                }
            }
            assert forall|k: ObjectKind, n: u64| #[trigger]
                encoded(k, n).is_prefix_of(input@) implies false by {
                lemma_encoded_decodes(input@, k, n);
            }
            assert(is_field_split(input@, zero as int, sp as int));
            assert(input@.subrange(0, sp as int) == kind_name(kind));
            assert(is_size_field(input@, zero as int, sp as int, se as int));
            assert(bad_size_field(input@));
        }
        return Err(Error::ParseIntegerError);
    }
    let mut val: u64 = 0;
    let mut j: usize = sp + 1;
    while j < se
        invariant
            sp + 1 <= j <= se,
            all_digits(input@.subrange(sp + 1, j as int)),
            val == dec_val(input@.subrange(sp + 1, j as int)),
        decreases se - j,
    {
        let b = input[j];
        if b < 48 || b > 57 {
            proof {
                assert forall|k: ObjectKind, n: u64, l: int| !decodes_to(input@, k, n, l) by {
                    if decodes_to(input@, k, n, l) {
                        let (spx, sex) = choose|spx: int, sex: int|
                            decode_shape(input@, k, n, l, spx, sex);
                        assert(spx == sp && sex == se);
                        assert(is_digit(input@.subrange(sp + 1, se as int)[j - sp - 1]));
                    }
                }
                assert forall|k: ObjectKind, n: u64| #[trigger]
                    encoded(k, n).is_prefix_of(input@) implies false by {
                    lemma_encoded_decodes(input@, k, n);
                }
                assert(is_field_split(input@, zero as int, sp as int));
                assert(input@.subrange(0, sp as int) == kind_name(kind));
                assert(is_size_field(input@, zero as int, sp as int, se as int));
                assert(input@.subrange(sp + 1, se as int)[j - sp - 1] == input@[j as int]);
                assert(!all_digits(input@.subrange(sp + 1, se as int)));
                assert(bad_size_field(input@));
            }
            return Err(Error::ParseIntegerError);
        }
        let d = (b - 48) as u64;
        if val > (u64::MAX - d) / 10 {
            proof {
                let part = input@.subrange(sp + 1, j + 1);
                assert(part.drop_last() =~= input@.subrange(sp + 1, j as int));
                assert(dec_val(part) == val * 10 + d);
                assert((u64::MAX - d) < ((u64::MAX - d) / 10 + 1) * 10) by (nonlinear_arith);
                assert(val * 10 >= ((u64::MAX - d) / 10 + 1) * 10) by (nonlinear_arith)
                    requires
                        val >= (u64::MAX - d) / 10 + 1,
                ;
                assert(dec_val(part) > u64::MAX);
                assert forall|k: ObjectKind, n: u64, l: int| !decodes_to(input@, k, n, l) by {
                    if decodes_to(input@, k, n, l) {
                        let (spx, sex) = choose|spx: int, sex: int|
                            decode_shape(input@, k, n, l, spx, sex);
                        assert(spx == sp && sex == se);
                        let chunk = input@.subrange(sp + 1, se as int);
                        assert(part =~= chunk.subrange(0, j + 1 - (sp + 1)));
                        lemma_dec_val_prefix(chunk, j + 1 - (sp + 1));
                        assert(dec_val(chunk) >= dec_val(part));
                    }
                }
                assert forall|k: ObjectKind, n: u64| #[trigger]
                    encoded(k, n).is_prefix_of(input@) implies false by {
                    lemma_encoded_decodes(input@, k, n);
                }
                assert(is_field_split(input@, zero as int, sp as int));
                assert(input@.subrange(0, sp as int) == kind_name(kind));
                assert(is_size_field(input@, zero as int, sp as int, se as int));
                let chunk = input@.subrange(sp + 1, se as int);
                if all_digits(chunk) {
                    assert(part =~= chunk.subrange(0, j + 1 - (sp + 1)));
                    lemma_dec_val_prefix(chunk, j + 1 - (sp + 1));
                    assert(dec_val(chunk) > u64::MAX);
                }
                assert(bad_size_field(input@));
            }
            return Err(Error::ParseIntegerError);
        }
        proof {
            assert(((u64::MAX - d) / 10) * 10 <= u64::MAX - d) by (nonlinear_arith);
            assert(val * 10 <= ((u64::MAX - d) / 10) * 10) by (nonlinear_arith)
                requires
                    val <= (u64::MAX - d) / 10,
            ;
            let part = input@.subrange(sp + 1, j + 1);
            assert(part.drop_last() =~= input@.subrange(sp + 1, j as int));
            assert(part.last() == b);
        }
        val = val * 10 + d;
        j = j + 1;
    }
    let l = zero + 1;
    proof {
        assert(decode_shape(input@, kind, val, l as int, sp as int, se as int));
        assert forall|k: ObjectKind, n: u64| #[trigger]
            encoded(k, n).is_prefix_of(input@) implies (kind, val, l) == (
            k,
            n,
            encoded(k, n).len() as usize,
        ) by {
            lemma_encoded_decodes(input@, k, n);
            lemma_decodes_unique(
                input@,
                kind,
                val,
                l as int,
                k,
                n,
                encoded(k, n).len() as int,
            );
        }
    }
    Ok((kind, val, l))
}

/// The ASCII name of `k` followed by one space, as written at the front of a
/// loose-object header.
pub fn kind_to_bytes_with_space(k: ObjectKind) -> (r: Vec<u8>)
    ensures
        r@ == kind_name(k) + seq![32u8],
{
    let mut v: Vec<u8> = Vec::new();
    match k {
        ObjectKind::Tree => {
            v.push(116);
            v.push(114);
            v.push(101);
            v.push(101);
        },
        ObjectKind::Blob => {
            v.push(98);
            v.push(108);
            v.push(111);
            v.push(98);
        },
        ObjectKind::Commit => {
            v.push(99);
            v.push(111);
            v.push(109);
            v.push(109);
            v.push(105);
            v.push(116);
        },
        ObjectKind::Tag => {
            v.push(116);
            v.push(97);
            v.push(103);
        },
    }
    v.push(32);
    proof {
        assert(v@ =~= kind_name(k) + seq![32u8]);
    }
    v
}

/// Reversal of a byte sequence, last byte first.
pub open spec fn rev_bytes(s: Seq<u8>) -> Seq<u8>
    decreases s.len(),
{
    if s.len() == 0 {
        Seq::empty()
    } else {
        seq![s.last()] + rev_bytes(s.drop_last())
    }
}

proof fn lemma_rev_drop_first(s: Seq<u8>)
    requires
        s.len() >= 1,
    ensures
        rev_bytes(s) == rev_bytes(s.drop_first()) + seq![s[0]],
    decreases s.len(),
{
    if s.len() == 1 {
        assert(s.drop_first().len() == 0);
        assert(s.drop_last().len() == 0);
        assert(rev_bytes(s.drop_first()) =~= Seq::<u8>::empty());
        assert(rev_bytes(s.drop_last()) =~= Seq::<u8>::empty());
        assert(rev_bytes(s) == seq![s.last()] + rev_bytes(s.drop_last()));
        assert(s.last() == s[0]);
        assert(rev_bytes(s) =~= rev_bytes(s.drop_first()) + seq![s[0]]);
    } else {
        lemma_rev_drop_first(s.drop_last());
        assert(s.drop_last()[0] == s[0]);
        assert(s.drop_first().drop_last() =~= s.drop_last().drop_first());
        assert(s.drop_first().last() == s.last());
        assert(rev_bytes(s.drop_first()) == seq![s.last()] + rev_bytes(
            s.drop_first().drop_last(),
        ));
        assert(rev_bytes(s.drop_first()) + seq![s[0]] =~= seq![s.last()] + (rev_bytes(
            s.drop_first().drop_last(),
        ) + seq![s[0]]));
        assert(rev_bytes(s.drop_first().drop_last()) + seq![s[0]] == rev_bytes(
            s.drop_last().drop_first(),
        ) + seq![s.drop_last()[0]]);
        assert(rev_bytes(s.drop_last().drop_first()) + seq![s.drop_last()[0]] == rev_bytes(
            s.drop_last(),
        ));
        assert(rev_bytes(s) == seq![s.last()] + rev_bytes(s.drop_last()));
    }
}

/// Append the loose-object header for `(kind, size)` to `out`, returning the
/// number of bytes written.
#[verifier::loop_isolation(false)]
pub fn encode(kind: ObjectKind, size: u64, out: &mut Vec<u8>) -> (written: usize)
    ensures
        final(out)@ == old(out)@ + encoded(kind, size),
        written == encoded(kind, size).len(),
{
    let ghost start_seq = out@;
    let start = out.len();
    let kb = kind_to_bytes_with_space(kind);
    let mut i: usize = 0;
    while i < kb.len()
        invariant
            i <= kb.len(),
            out@ == start_seq + kb@.subrange(0, i as int),
        decreases kb.len() - i,
    {
        out.push(kb[i]);
        proof {
            assert(start_seq + kb@.subrange(0, i as int) + seq![kb@[i as int]] =~= start_seq
                + kb@.subrange(0, i + 1));
        }
        i = i + 1;
    }
    proof {
        assert(kb@.subrange(0, kb@.len() as int) =~= kb@);
    }
    let mut tmp: Vec<u8> = Vec::new();
    let mut n = size;
    proof {
        assert(rev_bytes(Seq::<u8>::empty()) =~= Seq::<u8>::empty());
    }
    if n == 0 {
        tmp.push(48);
        proof {
            assert(tmp@.drop_last() =~= Seq::<u8>::empty());
            assert(tmp@.last() == 48);
            assert(rev_bytes(tmp@) == seq![48u8] + rev_bytes(Seq::<u8>::empty()));
            assert(rev_bytes(tmp@) =~= seq![48u8]);
            assert(dec_digits(size as nat) == seq![48u8]);
        }
    } else {
        proof {
            assert(dec_digits(size as nat) + rev_bytes(Seq::<u8>::empty()) =~= dec_digits(
                size as nat,
            ));
        }
        while n > 0
            invariant
                n > 0 ==> dec_digits(size as nat) == dec_digits(n as nat) + rev_bytes(tmp@),
                n == 0 ==> dec_digits(size as nat) == rev_bytes(tmp@),
        decreases n,
        {
            let d = (n % 10) as u8 + 48;
            let ghost old_tmp = tmp@;
            tmp.push(d);
            proof {
                assert(tmp@.drop_last() =~= old_tmp);
                assert(tmp@.last() == d);
                assert(rev_bytes(tmp@) == seq![d] + rev_bytes(old_tmp));
                if n >= 10 {
                    assert(dec_digits(n as nat) == dec_digits(n as nat / 10) + seq![d]);
                    assert(dec_digits(n as nat / 10) + (seq![d] + rev_bytes(old_tmp)) =~= (
                    dec_digits(n as nat / 10) + seq![d]) + rev_bytes(old_tmp));
                    assert(n as nat / 10 == (n / 10) as nat);
                } else {
                    assert(dec_digits(n as nat) =~= seq![d]);
                    assert(seq![d] + rev_bytes(old_tmp) =~= dec_digits(n as nat) + rev_bytes(
                        old_tmp,
                    ));
                }
            }
            n = n / 10;
        }
    }
    let ghost mid_seq = out@;
    proof {
        assert(tmp@.subrange(tmp@.len() as int, tmp@.len() as int) =~= Seq::<u8>::empty());
        assert(mid_seq + rev_bytes(Seq::<u8>::empty()) =~= mid_seq);
    }
    let mut t = tmp.len();
    while t > 0
        invariant
            t <= tmp.len(),
            out@ == mid_seq + rev_bytes(tmp@.subrange(t as int, tmp@.len() as int)),
        decreases t,
    {
        t = t - 1;
        out.push(tmp[t]);
        proof {
            let suf = tmp@.subrange(t as int, tmp@.len() as int);
            assert(suf.drop_first() =~= tmp@.subrange(t + 1, tmp@.len() as int));
            lemma_rev_drop_first(suf);
            assert(mid_seq + rev_bytes(suf.drop_first()) + seq![suf[0]] =~= mid_seq + rev_bytes(
                suf,
            ));
        }
    }
    proof {
        assert(tmp@.subrange(0, tmp@.len() as int) =~= tmp@);
    }
    out.push(0);
    proof {
        assert(out@ =~= start_seq + encoded(kind, size));
    }
    out.len() - start
}

} // verus!
