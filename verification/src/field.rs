//! Elements of the BN254 scalar field `Fr`, held as four little-endian 64-bit limbs of
//! their canonical representative.

use vstd::prelude::*;
use vstd::arithmetic::power2::{pow2, lemma2_to64, lemma_pow2_adds, lemma_pow2_strictly_increases};
use ark_bn254::Fr;
use ark_ff::{BigInt, BigInteger, PrimeField};

verus! {

/// The BN254 scalar-field modulus `r`.
pub open spec fn fr_modulus() -> nat {
    21888242871839275222246405745257275088548364400416034343698204186575808495617nat
}

/// 2^64.
pub open spec fn limb_base() -> nat {
    0x1_0000_0000_0000_0000nat
}

/// The integer that four little-endian 64-bit limbs denote.
pub open spec fn limbs_val(l0: u64, l1: u64, l2: u64, l3: u64) -> nat {
    l0 as nat + limb_base() * (l1 as nat + limb_base() * (l2 as nat + limb_base() * (l3 as nat)))
}

/// The integer that a big-endian byte string denotes.
pub open spec fn be_bytes_val(s: Seq<u8>) -> nat
    decreases s.len(),
{
    if s.len() == 0 {
        0
    } else {
        be_bytes_val(s.drop_last()) * 256 + s.last() as nat
    }
}

/// The `n`-byte big-endian encoding of `v` (its low `8n` bits).
pub open spec fn be_encode(v: nat, n: nat) -> Seq<u8>
    decreases n,
{
    if n == 0 {
        Seq::empty()
    } else {
        be_encode(v / 256, (n - 1) as nat).push((v % 256) as u8)
    }
}

/// `pow2` at the limb boundaries, as literals.
pub proof fn lemma_pow2_limb_boundaries()
    ensures
        pow2(64) == limb_base(),
        pow2(128) == 0x100000000000000000000000000000000nat,
        pow2(192) == 0x1000000000000000000000000000000000000000000000000nat,
        pow2(254) == 0x4000000000000000000000000000000000000000000000000000000000000000nat,
        pow2(256) == 0x10000000000000000000000000000000000000000000000000000000000000000nat,
{
    lemma2_to64();
    vstd::arithmetic::power2::lemma2_to64_rest();
    lemma_pow2_adds(64, 64);
    assert(pow2(128) == 0x100000000000000000000000000000000nat);
    lemma_pow2_adds(128, 64);
    assert(pow2(192) == 0x1000000000000000000000000000000000000000000000000nat);
    lemma_pow2_adds(192, 62);
    assert(pow2(62) == 0x4000_0000_0000_0000nat);
    assert(pow2(254) == pow2(192) * 0x4000_0000_0000_0000nat);
    lemma_pow2_adds(192, 64);
    assert(pow2(256) == pow2(192) * 0x1_0000_0000_0000_0000nat);
}

/// A field element of BN254 `Fr`, stored canonically (its value is below the modulus).
#[derive(Clone, Copy, Debug, PartialEq, Eq, Structural)]
pub struct Fe {
    pub(crate) l0: u64,
    pub(crate) l1: u64,
    pub(crate) l2: u64,
    pub(crate) l3: u64,
}

impl Fe {
    /// The canonical integer representative of this element.
    pub closed spec fn val(self) -> nat {
        limbs_val(self.l0, self.l1, self.l2, self.l3)
    }

    #[verifier::type_invariant]
    spec fn canonical(self) -> bool {
        self.val() < fr_modulus()
    }

    /// Two elements are the same exactly when their values are.
    pub proof fn lemma_val_injective(a: Fe, b: Fe)
        ensures
            a == b <==> a.val() == b.val(),
    {
        if a.val() == b.val() {
            let ghost w = limb_base() as int;
            let ha = a.l1 as int + w * (a.l2 as int + w * (a.l3 as int));
            let hb = b.l1 as int + w * (b.l2 as int + w * (b.l3 as int));
            assert(a.l0 == b.l0 && ha == hb);
            let ga = a.l2 as int + w * (a.l3 as int);
            let gb = b.l2 as int + w * (b.l3 as int);
            assert(a.l1 == b.l1 && ga == gb);
            assert(a.l2 == b.l2 && a.l3 == b.l3);
        }
    }

    /// The four little-endian limbs of the canonical representative.
    pub fn limbs(&self) -> (r: [u64; 4])
        ensures
            limbs_val(r[0], r[1], r[2], r[3]) == self.val(),
            self.val() < fr_modulus(),
    {
        proof {
            use_type_invariant(self);
        }
        [self.l0, self.l1, self.l2, self.l3]
    }

    /// The element whose big-endian bytes are `bytes`, reduced modulo `r`.
    pub fn from_be_bytes_mod_order(bytes: &[u8]) -> (r: Fe)
        ensures
            r.val() == be_bytes_val(bytes@) % fr_modulus(),
    {
        fe_from_be_bytes_mod_order(bytes)
    }

    /// The 32 big-endian bytes of the canonical representative.
    pub fn to_bytes_be(&self) -> (bytes: Vec<u8>)
        ensures
            bytes@ == be_encode(self.val(), 32),
    {
        fe_to_bytes_be(self)
    }

    /// The element whose canonical limbs are `l`.
    pub(crate) fn from_canonical_limbs(l: [u64; 4]) -> (r: Fe)
        requires
            limbs_val(l[0], l[1], l[2], l[3]) < fr_modulus(),
        ensures
            r.val() == limbs_val(l[0], l[1], l[2], l[3]),
    {
        Fe { l0: l[0], l1: l[1], l2: l[2], l3: l[3] }
    }

    /// The additive identity.
    pub fn zero() -> (r: Fe)
        ensures
            r.val() == 0,
    {
        Fe { l0: 0, l1: 0, l2: 0, l3: 0 }
    }

    /// The element `x` (as ark-ff's `From<u64>`).
    pub fn from_u64(x: u64) -> (r: Fe)
        ensures
            r.val() == x,
    {
        Fe { l0: x, l1: 0, l2: 0, l3: 0 }
    }

    /// The element `x` (as ark-ff's `From<u128>`).
    pub fn from_u128(x: u128) -> (r: Fe)
        ensures
            r.val() == x,
    {
        let lo = x as u64;
        let hi = (x >> 64u32) as u64;
        assert(x == lo as u128 + (hi as u128) * 0x1_0000_0000_0000_0000u128) by (bit_vector)
            requires
                lo == x as u64,
                hi == (x >> 64u32) as u64,
        ;
        Fe { l0: lo, l1: hi, l2: 0, l3: 0 }
    }

    /// Whether the little-endian bit decomposition of this element has no set bit at
    /// position `bits` or above, i.e. whether its value is below `2^bits`.
    pub fn fits_bits(&self, bits: usize) -> (b: bool)
        ensures
            b == (self.val() < pow2(bits as nat)),
    {
        proof {
            use_type_invariant(self);
            lemma_pow2_limb_boundaries();
        }
        let ghost w = limb_base() as int;
        if bits >= 256 {
            proof {
                if bits > 256 {
                    lemma_pow2_strictly_increases(256, bits as nat);
                }
            }
            true
        } else if bits >= 192 {
            let s = (bits - 192) as u64;
            let t: u64 = 1u64 << s;
            proof {
                lemma_pow2_strictly_increases(s as nat, 64);
                vstd::bits::lemma_u64_shl_is_mul(1, s);
                vstd::arithmetic::power2::lemma_pow2_pos(s as nat);
                lemma_pow2_adds(192, s as nat);
                let low = self.l0 as int + w * (self.l1 as int + w * (self.l2 as int));
                assert(low < pow2(192));
                assert(self.val() == low + pow2(192) * self.l3);
                lemma_fits_split(low, pow2(192) as int, self.l3 as int, t as int);
            }
            self.l3 < t
        } else if bits >= 128 {
            let s = (bits - 128) as u64;
            let t: u64 = 1u64 << s;
            proof {
                lemma_pow2_strictly_increases(s as nat, 64);
                vstd::bits::lemma_u64_shl_is_mul(1, s);
                vstd::arithmetic::power2::lemma_pow2_pos(s as nat);
                lemma_pow2_adds(128, s as nat);
                let low = self.l0 as int + w * (self.l1 as int);
                let high = self.l2 as int + w * (self.l3 as int);
                assert(self.val() == low + pow2(128) * high);
                lemma_fits_split(low, pow2(128) as int, high, t as int);
            }
            self.l3 == 0 && self.l2 < t
        } else if bits >= 64 {
            let s = (bits - 64) as u64;
            let t: u64 = 1u64 << s;
            proof {
                lemma_pow2_strictly_increases(s as nat, 64);
                vstd::bits::lemma_u64_shl_is_mul(1, s);
                vstd::arithmetic::power2::lemma_pow2_pos(s as nat);
                lemma_pow2_adds(64, s as nat);
                let high = self.l1 as int + w * (self.l2 as int + w * (self.l3 as int));
                assert(self.val() == self.l0 + pow2(64) * high);
                lemma_fits_split(self.l0 as int, pow2(64) as int, high, t as int);
            }
            self.l3 == 0 && self.l2 == 0 && self.l1 < t
        } else {
            let s = bits as u64;
            let t: u64 = 1u64 << s;
            proof {
                lemma_pow2_strictly_increases(s as nat, 64);
                vstd::bits::lemma_u64_shl_is_mul(1, s);
                vstd::arithmetic::power2::lemma_pow2_pos(s as nat);
                if s < 64 {
                    lemma_pow2_strictly_increases(s as nat, 64);
                }
            }
            self.l3 == 0 && self.l2 == 0 && self.l1 == 0 && self.l0 < t
        }
    }
}

/// Field addition, computed by ark-ff's `Add` for BN254 `Fr`; the result is the sum
/// reduced modulo `r`.
#[verifier::external_body]
pub(crate) fn fe_add(a: &Fe, b: &Fe) -> (c: Fe)
    ensures
        c.val() == (a.val() + b.val()) % fr_modulus(),
{
    let x = Fr::from_bigint(BigInt::new([a.l0, a.l1, a.l2, a.l3])).unwrap();
    let y = Fr::from_bigint(BigInt::new([b.l0, b.l1, b.l2, b.l3])).unwrap();
    let z = (x + y).into_bigint().0;
    Fe { l0: z[0], l1: z[1], l2: z[2], l3: z[3] }
}

/// Field subtraction, computed by ark-ff's `Sub` for BN254 `Fr`; the result is the
/// difference reduced modulo `r` (a non-negative representative).
#[verifier::external_body]
pub(crate) fn fe_sub(a: &Fe, b: &Fe) -> (c: Fe)
    ensures
        c.val() == (a.val() - b.val()) % (fr_modulus() as int),
{
    let x = Fr::from_bigint(BigInt::new([a.l0, a.l1, a.l2, a.l3])).unwrap();
    let y = Fr::from_bigint(BigInt::new([b.l0, b.l1, b.l2, b.l3])).unwrap();
    let z = (x - y).into_bigint().0;
    Fe { l0: z[0], l1: z[1], l2: z[2], l3: z[3] }
}

/// ark-ff's `PrimeField::from_be_bytes_mod_order` for BN254 `Fr`: the big-endian
/// integer of the bytes, reduced modulo `r`.
#[verifier::external_body]
pub(crate) fn fe_from_be_bytes_mod_order(bytes: &[u8]) -> (c: Fe)
    ensures
        c.val() == be_bytes_val(bytes@) % fr_modulus(),
{
    let z = Fr::from_be_bytes_mod_order(bytes).into_bigint().0;
    Fe { l0: z[0], l1: z[1], l2: z[2], l3: z[3] }
}

/// ark-ff's `BigInteger::to_bytes_be` on the canonical representative of an `Fr`
/// element (`into_bigint`): its four limbs as 32 big-endian bytes.
#[verifier::external_body]
pub(crate) fn fe_to_bytes_be(a: &Fe) -> (bytes: Vec<u8>)
    ensures
        bytes@ == be_encode(a.val(), 32),
{
    BigInt::new([a.l0, a.l1, a.l2, a.l3]).to_bytes_be()
}

/// `low + base * high < base * t` exactly when `high < t`, for `low` below `base`.
proof fn lemma_fits_split(low: int, base: int, high: int, t: int)
    requires
        0 <= low < base,
        0 <= high,
        0 < t,
    ensures
        (low + base * high < base * t) <==> (high < t),
{
    if high < t {
        vstd::arithmetic::mul::lemma_mul_inequality(high + 1, t, base);
        vstd::arithmetic::mul::lemma_mul_is_distributive_add(base, high, 1);
    } else {
        vstd::arithmetic::mul::lemma_mul_inequality(t, high, base);
    }
}

} // verus!
