//! Schnorr signatures over the Grumpkin curve, whose base field is BN254's scalar field:
//! a public key is a Grumpkin point, a signature is a pair of Grumpkin scalars `(s, e)`,
//! and the challenge `e` is the Poseidon hash of the nonce point's coordinates followed by
//! the message.

use vstd::prelude::*;
use ark_bn254::Fr as Base;
use ark_ec::{AffineRepr, CurveGroup, PrimeGroup};
use ark_ff::{BigInt, PrimeField};
use ark_grumpkin::{Fr as GScalar, Projective};
use crate::field::{Fe, fr_modulus, limbs_val};
use crate::poseidon::{crh_evaluate, poseidon_crh, vals, PoseidonParams};

verus! {

/// The Grumpkin scalar-field modulus (BN254's base-field modulus `q`).
pub open spec fn fq_modulus() -> nat {
    21888242871839275222246405745257275088696311157297823662689037894645226208583nat
}

/// `a - b` in the Grumpkin scalar field.
pub open spec fn scalar_diff(a: nat, b: nat) -> nat {
    ((a as int - b as int) % (fq_modulus() as int)) as nat
}

/// A Grumpkin scalar, stored canonically as four little-endian 64-bit limbs.
#[derive(Clone, Copy, Debug, PartialEq, Eq, Structural)]
pub struct Scalar {
    l0: u64,
    l1: u64,
    l2: u64,
    l3: u64,
}

impl Scalar {
    /// The canonical integer representative.
    pub closed spec fn val(self) -> nat {
        limbs_val(self.l0, self.l1, self.l2, self.l3)
    }

    #[verifier::type_invariant]
    spec fn canonical(self) -> bool {
        self.val() < fq_modulus()
    }

    /// The scalar `x`.
    pub fn from_u64(x: u64) -> (r: Scalar)
        ensures
            r.val() == x,
    {
        Scalar { l0: x, l1: 0, l2: 0, l3: 0 }
    }

    /// The scalar with the value of a base-field element (every such value is below the
    /// scalar modulus).
    pub fn from_base(x: &Fe) -> (r: Scalar)
        ensures
            r.val() == x.val(),
    {
        let l = x.limbs();
        Scalar { l0: l[0], l1: l[1], l2: l[2], l3: l[3] }
    }

    /// The scalar whose big-endian bytes are `bytes`, reduced modulo the scalar modulus.
    pub fn from_be_bytes_mod_order(bytes: &[u8]) -> (r: Scalar)
        ensures
            r.val() == crate::field::be_bytes_val(bytes@) % fq_modulus(),
    {
        scalar_from_be_bytes_mod_order(bytes)
    }

    /// The four little-endian limbs of the canonical representative.
    pub fn limbs(&self) -> (r: [u64; 4])
        ensures
            limbs_val(r[0], r[1], r[2], r[3]) == self.val(),
            self.val() < fq_modulus(),
    {
        proof {
            use_type_invariant(self);
        }
        [self.l0, self.l1, self.l2, self.l3]
    }
}

/// ark-ff's `from_be_bytes_mod_order` for the Grumpkin scalar field: the big-endian
/// integer of the bytes, reduced modulo `q`.
#[verifier::external_body]
fn scalar_from_be_bytes_mod_order(bytes: &[u8]) -> (r: Scalar)
    ensures
        r.val() == crate::field::be_bytes_val(bytes@) % fq_modulus(),
{
    let z = GScalar::from_be_bytes_mod_order(bytes).into_bigint().0;
    Scalar { l0: z[0], l1: z[1], l2: z[2], l3: z[3] }
}

/// Scalar multiplication in the Grumpkin scalar field (ark-ff's `Mul`): the product
/// reduced modulo `q`.
#[verifier::external_body]
fn scalar_mul(a: &Scalar, b: &Scalar) -> (c: Scalar)
    ensures
        c.val() == (a.val() * b.val()) % fq_modulus(),
{
    let z = (GScalar::from(BigInt::new([a.l0, a.l1, a.l2, a.l3])) * GScalar::from(BigInt::new([b.l0, b.l1, b.l2, b.l3]))).into_bigint().0;
    Scalar { l0: z[0], l1: z[1], l2: z[2], l3: z[3] }
}

/// Scalar subtraction in the Grumpkin scalar field (ark-ff's `Sub`): the difference
/// reduced modulo `q`.
#[verifier::external_body]
fn scalar_sub(a: &Scalar, b: &Scalar) -> (c: Scalar)
    ensures
        c.val() == scalar_diff(a.val(), b.val()),
{
    let z = (GScalar::from(BigInt::new([a.l0, a.l1, a.l2, a.l3])) - GScalar::from(BigInt::new([b.l0, b.l1, b.l2, b.l3]))).into_bigint().0;
    Scalar { l0: z[0], l1: z[1], l2: z[2], l3: z[3] }
}

/// A Grumpkin point in Jacobian coordinates `(X, Y, Z)` (elements of BN254's scalar
/// field), standing for the affine point `(X / Z^2, Y / Z^3)`; `Z = 0` at the identity.
#[derive(Clone, Copy, Debug, PartialEq, Eq, Structural)]
pub struct GrumpkinPoint {
    pub x: Fe,
    pub y: Fe,
    pub z: Fe,
}

impl GrumpkinPoint {
    /// The point's coordinate values.
    pub open spec fn view(self) -> (nat, nat, nat) {
        (self.x.val(), self.y.val(), self.z.val())
    }

    fn from_limbs(c: [[u64; 4]; 3]) -> (p: GrumpkinPoint)
        requires
            limbs_val(c[0][0], c[0][1], c[0][2], c[0][3]) < fr_modulus(),
            limbs_val(c[1][0], c[1][1], c[1][2], c[1][3]) < fr_modulus(),
            limbs_val(c[2][0], c[2][1], c[2][2], c[2][3]) < fr_modulus(),
        ensures
            p.view() == (limbs_val(c[0][0], c[0][1], c[0][2], c[0][3]), limbs_val(c[1][0], c[1][1], c[1][2], c[1][3]), limbs_val(c[2][0], c[2][1], c[2][2], c[2][3])),
    {
        GrumpkinPoint { x: Fe::from_canonical_limbs(c[0]), y: Fe::from_canonical_limbs(c[1]), z: Fe::from_canonical_limbs(c[2]) }
    }

    fn to_limbs(&self) -> (c: [[u64; 4]; 3])
        ensures
            limbs_val(c[0][0], c[0][1], c[0][2], c[0][3]) == self.x.val(),
            limbs_val(c[1][0], c[1][1], c[1][2], c[1][3]) == self.y.val(),
            limbs_val(c[2][0], c[2][1], c[2][2], c[2][3]) == self.z.val(),
            self.x.val() < fr_modulus(),
            self.y.val() < fr_modulus(),
            self.z.val() < fr_modulus(),
    {
        [self.x.limbs(), self.y.limbs(), self.z.limbs()]
    }
}

/// The values of three coordinate limb quadruples.
pub open spec fn coords_val(c: [[u64; 4]; 3]) -> (nat, nat, nat) {
    (limbs_val(c[0][0], c[0][1], c[0][2], c[0][3]), limbs_val(c[1][0], c[1][1], c[1][2], c[1][3]), limbs_val(c[2][0], c[2][1], c[2][2], c[2][3]))
}

/// Whether three coordinate limb quadruples are canonical base-field elements.
pub open spec fn coords_canonical(c: [[u64; 4]; 3]) -> bool {
    &&& limbs_val(c[0][0], c[0][1], c[0][2], c[0][3]) < fr_modulus()
    &&& limbs_val(c[1][0], c[1][1], c[1][2], c[1][3]) < fr_modulus()
    &&& limbs_val(c[2][0], c[2][1], c[2][2], c[2][3]) < fr_modulus()
}

/// `k · G` on Grumpkin (`G` its generator), in Jacobian coordinate values.
pub uninterp spec fn grumpkin_mul_gen(k: nat) -> (nat, nat, nat);

/// `k · P` on Grumpkin, in Jacobian coordinate values.
pub uninterp spec fn grumpkin_mul(p: (nat, nat, nat), k: nat) -> (nat, nat, nat);

/// `P + Q` on Grumpkin, in Jacobian coordinate values.
pub uninterp spec fn grumpkin_add(p: (nat, nat, nat), q: (nat, nat, nat)) -> (nat, nat, nat);

/// The affine coordinates of a Grumpkin point, `None` at the identity.
pub uninterp spec fn grumpkin_affine(p: (nat, nat, nat)) -> Option<(nat, nat)>;

/// ark-ec's `generator().mul(k)` on Grumpkin (canonical coordinate limbs out).
#[verifier::external_body]
fn gen_mul(k: [u64; 4]) -> (r: [[u64; 4]; 3])
    requires
        limbs_val(k[0], k[1], k[2], k[3]) < fq_modulus(),
    ensures
        coords_canonical(r),
        coords_val(r) == grumpkin_mul_gen(limbs_val(k[0], k[1], k[2], k[3])),
{
    let r = Projective::generator() * GScalar::from(BigInt::new(k));
    [r.x.into_bigint().0, r.y.into_bigint().0, r.z.into_bigint().0]
}

/// ark-ec's `mul` of a Grumpkin point by a scalar (canonical coordinate limbs in and out).
/// Scalar multiplication in the group: the generator has prime order `q`, so `k · (a · G)`
/// is the point `(a · k mod q) · G`.
#[verifier::external_body]
fn point_mul(p: [[u64; 4]; 3], k: [u64; 4]) -> (r: [[u64; 4]; 3])
    requires
        coords_canonical(p),
        limbs_val(k[0], k[1], k[2], k[3]) < fq_modulus(),
    ensures
        coords_canonical(r),
        coords_val(r) == grumpkin_mul(coords_val(p), limbs_val(k[0], k[1], k[2], k[3])),
        forall|a: nat| a < fq_modulus() && grumpkin_affine(coords_val(p)) == grumpkin_affine(#[trigger] grumpkin_mul_gen(a))
            ==> grumpkin_affine(coords_val(r)) == grumpkin_affine(grumpkin_mul_gen((a * limbs_val(k[0], k[1], k[2], k[3])) % fq_modulus())),
{
    let a = Projective::new_unchecked(Base::from(BigInt::new(p[0])), Base::from(BigInt::new(p[1])), Base::from(BigInt::new(p[2])));
    let r = a * GScalar::from(BigInt::new(k));
    [r.x.into_bigint().0, r.y.into_bigint().0, r.z.into_bigint().0]
}

/// ark-ec's `add` of two Grumpkin points (canonical coordinate limbs in and out). The
/// group law: `a · G + b · G` is the point `(a + b mod q) · G`.
#[verifier::external_body]
fn point_add(p: [[u64; 4]; 3], q: [[u64; 4]; 3]) -> (r: [[u64; 4]; 3])
    requires
        coords_canonical(p),
        coords_canonical(q),
    ensures
        coords_canonical(r),
        coords_val(r) == grumpkin_add(coords_val(p), coords_val(q)),
        forall|a: nat, b: nat|
            #![trigger grumpkin_mul_gen(a), grumpkin_mul_gen(b)]
            a < fq_modulus() && b < fq_modulus()
                && grumpkin_affine(coords_val(p)) == grumpkin_affine(grumpkin_mul_gen(a))
                && grumpkin_affine(coords_val(q)) == grumpkin_affine(grumpkin_mul_gen(b))
            ==> grumpkin_affine(coords_val(r)) == grumpkin_affine(grumpkin_mul_gen((a + b) % fq_modulus())),
{
    let a = Projective::new_unchecked(Base::from(BigInt::new(p[0])), Base::from(BigInt::new(p[1])), Base::from(BigInt::new(p[2])));
    let b = Projective::new_unchecked(Base::from(BigInt::new(q[0])), Base::from(BigInt::new(q[1])), Base::from(BigInt::new(q[2])));
    let r = a + b;
    [r.x.into_bigint().0, r.y.into_bigint().0, r.z.into_bigint().0]
}

/// ark-ec's `into_affine().xy()` of a Grumpkin point: the affine coordinates (canonical
/// limbs), `None` at the identity.
#[verifier::external_body]
fn affine_xy(p: [[u64; 4]; 3]) -> (r: Option<([u64; 4], [u64; 4])>)
    requires
        coords_canonical(p),
    ensures
        match r {
            None => grumpkin_affine(coords_val(p)) is None,
            Some((x, y)) => {
                &&& limbs_val(x[0], x[1], x[2], x[3]) < fr_modulus()
                &&& limbs_val(y[0], y[1], y[2], y[3]) < fr_modulus()
                &&& grumpkin_affine(coords_val(p)) == Some((limbs_val(x[0], x[1], x[2], x[3]), limbs_val(y[0], y[1], y[2], y[3])))
            },
        },
{
    let a = Projective::new_unchecked(Base::from(BigInt::new(p[0])), Base::from(BigInt::new(p[1])), Base::from(BigInt::new(p[2])));
    match a.into_affine().xy() {
        Some((x, y)) => Some((x.into_bigint().0, y.into_bigint().0)),
        None => None,
    }
}

/// The affine coordinates of a point, `(0, 0)` at the identity.
pub open spec fn xy_or_default(a: Option<(nat, nat)>) -> (nat, nat) {
    match a {
        Some(xy) => xy,
        None => (0, 0),
    }
}

/// The Schnorr challenge of a nonce point and a message: Poseidon of the point's
/// coordinates followed by the message.
pub open spec fn challenge(xy: (nat, nat), message: Seq<Fe>) -> nat {
    poseidon_crh(seq![xy.0, xy.1] + vals(message))
}

/// The challenge hashes exactly `m.len() + 2` values: the nonce point's `x`, its `y`,
/// then every message element in order.
pub proof fn lemma_challenge_input(xy: (nat, nat), m: Seq<Fe>)
    ensures
        challenge(xy, m) == poseidon_crh(Seq::new(m.len() + 2, |i: int| if i == 0 { xy.0 } else if i == 1 { xy.1 } else { m[i - 2].val() })),
{
    let a = seq![xy.0, xy.1] + vals(m);
    let b = Seq::new(m.len() + 2, |i: int| if i == 0 { xy.0 } else if i == 1 { xy.1 } else { m[i - 2].val() });
    assert(a =~= b);
}

/// The challenge binds the whole message: two messages of one length that differ in any
/// element get the same challenge from one nonce point only through a Poseidon collision
/// (two different inputs of one length with one hash).
pub proof fn lemma_challenge_binds_message(xy: (nat, nat), m1: Seq<Fe>, m2: Seq<Fe>)
    requires
        m1.len() == m2.len(),
        vals(m1) != vals(m2),
        challenge(xy, m1) == challenge(xy, m2),
    ensures
        exists|a: Seq<nat>, b: Seq<nat>| a != b && a.len() == b.len() && poseidon_crh(a) == poseidon_crh(b),
{
    let a = seq![xy.0, xy.1] + vals(m1);
    let b = seq![xy.0, xy.1] + vals(m2);
    assert(a.subrange(2, a.len() as int) =~= vals(m1));
    assert(b.subrange(2, b.len() as int) =~= vals(m2));
    assert(a != b);
}

/// Schnorr signatures over Grumpkin, challenges hashed with Poseidon.
pub struct Schnorr {}

impl Schnorr {
    /// The key pair of secret scalar `sk` (drawn by the caller): `(sk, sk · G)`.
    pub fn key_gen(sk: Scalar) -> (r: (Scalar, GrumpkinPoint))
        ensures
            r.0 == sk,
            r.1.view() == grumpkin_mul_gen(sk.val()),
    {
        let pk = GrumpkinPoint::from_limbs(gen_mul(sk.limbs()));
        (sk, pk)
    }

    /// Sign `m` with secret `sk` and nonce `k` (drawn by the caller; its point must not be
    /// the identity): `e` is the challenge of `k · G` and `s = k - sk · e`.
    pub fn sign(pp: &PoseidonParams, sk: &Scalar, m: &[Fe], k: Scalar) -> (sig: (Scalar, Scalar))
        requires
            grumpkin_affine(grumpkin_mul_gen(k.val())) is Some,
        ensures
            sig.1.val() == challenge(xy_or_default(grumpkin_affine(grumpkin_mul_gen(k.val()))), m@),
            sig.0.val() == scalar_diff(k.val(), (sk.val() * sig.1.val()) % fq_modulus()),
    {
        let r = gen_mul(k.limbs());
        let xy = affine_xy(r);
        let (x, y) = match xy {
            Some((x, y)) => (Fe::from_canonical_limbs(x), Fe::from_canonical_limbs(y)),
            None => {
                proof {
                    assert(false);
                }
                (Fe::zero(), Fe::zero())
            },
        };
        let h = hash_point_message(pp, x, y, m);
        let e = Scalar::from_base(&h);
        let ske = scalar_mul(sk, &e);
        let s = scalar_sub(&k, &ske);
        (s, e)
    }

    /// Sign with nonce `k`, or `None` where `k · G` is the identity (no challenge can be
    /// taken from it).
    pub fn try_sign(pp: &PoseidonParams, sk: &Scalar, m: &[Fe], k: Scalar) -> (sig: Option<(Scalar, Scalar)>)
        ensures
            grumpkin_affine(grumpkin_mul_gen(k.val())) is None ==> sig is None,
            grumpkin_affine(grumpkin_mul_gen(k.val())) is Some ==> (sig matches Some(p) && {
                &&& p.1.val() == challenge(xy_or_default(grumpkin_affine(grumpkin_mul_gen(k.val()))), m@)
                &&& p.0.val() == scalar_diff(k.val(), (sk.val() * p.1.val()) % fq_modulus())
            }),
    {
        let r = gen_mul(k.limbs());
        match affine_xy(r) {
            None => None,
            Some(_) => Some(Schnorr::sign(pp, sk, m, k)),
        }
    }

    /// Verify signature `(s, e)` on `message` under `pk`: `e` must be the challenge of
    /// `s · G + e · pk` (the identity's coordinates taken as zero). A signature made by
    /// `sign` with the secret `x` of `pk = x · G` verifies.
    pub fn verify(pp: &PoseidonParams, pk: &GrumpkinPoint, message: &[Fe], sig: (Scalar, Scalar)) -> (b: bool)
        ensures
            b == (sig.1.val() == challenge(xy_or_default(grumpkin_affine(grumpkin_add(grumpkin_mul_gen(sig.0.val()), grumpkin_mul(pk.view(), sig.1.val())))), message@)),
            forall|x: nat, k: nat|
                #![trigger grumpkin_mul_gen(x), grumpkin_mul_gen(k)]
                x < fq_modulus() && k < fq_modulus()
                    && grumpkin_affine(pk.view()) == grumpkin_affine(grumpkin_mul_gen(x))
                    && grumpkin_affine(grumpkin_mul_gen(k)) is Some
                    && sig.1.val() == challenge(xy_or_default(grumpkin_affine(grumpkin_mul_gen(k))), message@)
                    && sig.0.val() == scalar_diff(k, (x * sig.1.val()) % fq_modulus())
                ==> b,
            forall|x: nat, k: nat, m0: Seq<Fe>|
                #![trigger grumpkin_mul_gen(x), challenge(xy_or_default(grumpkin_affine(grumpkin_mul_gen(k))), m0)]
                x < fq_modulus() && k < fq_modulus()
                    && grumpkin_affine(pk.view()) == grumpkin_affine(grumpkin_mul_gen(x))
                    && grumpkin_affine(grumpkin_mul_gen(k)) is Some
                    && sig.1.val() == challenge(xy_or_default(grumpkin_affine(grumpkin_mul_gen(k))), m0)
                    && sig.0.val() == scalar_diff(k, (x * sig.1.val()) % fq_modulus())
                ==> (b <==> challenge(xy_or_default(grumpkin_affine(grumpkin_mul_gen(k))), m0)
                    == challenge(xy_or_default(grumpkin_affine(grumpkin_mul_gen(k))), message@)),
    {
        let (s, e) = sig;
        let gs = gen_mul(s.limbs());
        let pe = point_mul(pk.to_limbs(), e.limbs());
        let r = point_add(gs, pe);
        let (x, y) = match affine_xy(r) {
            Some((x, y)) => (Fe::from_canonical_limbs(x), Fe::from_canonical_limbs(y)),
            None => (Fe::zero(), Fe::zero()),
        };
        let h = hash_point_message(pp, x, y, message);
        let c = Scalar::from_base(&h);
        proof {
            let q = fq_modulus();
            assert forall|xs: nat, k: nat|
                #![trigger grumpkin_mul_gen(xs), grumpkin_mul_gen(k)]
                xs < q && k < q
                    && grumpkin_affine(pk.view()) == grumpkin_affine(grumpkin_mul_gen(xs))
                    && grumpkin_affine(grumpkin_mul_gen(k)) is Some
                    && sig.1.val() == challenge(xy_or_default(grumpkin_affine(grumpkin_mul_gen(k))), message@)
                    && sig.0.val() == scalar_diff(k, (xs * sig.1.val()) % q)
                implies e == c by {
                let bb = (xs * e.val()) % q;
                assert(grumpkin_affine(coords_val(pe)) == grumpkin_affine(grumpkin_mul_gen(bb)));
                assert(grumpkin_affine(coords_val(gs)) == grumpkin_affine(grumpkin_mul_gen(s.val())));
                lemma_diff_add_back(k, bb);
                assert((s.val() + bb) % q == k);
                assert(grumpkin_affine(coords_val(r)) == grumpkin_affine(grumpkin_mul_gen((s.val() + bb) % q)));
                assert(e.val() == c.val());
                lemma_scalar_injective(e, c);
            }
            assert forall|xs: nat, k: nat, m0: Seq<Fe>|
                #![trigger grumpkin_mul_gen(xs), challenge(xy_or_default(grumpkin_affine(grumpkin_mul_gen(k))), m0)]
                xs < q && k < q
                    && grumpkin_affine(pk.view()) == grumpkin_affine(grumpkin_mul_gen(xs))
                    && grumpkin_affine(grumpkin_mul_gen(k)) is Some
                    && sig.1.val() == challenge(xy_or_default(grumpkin_affine(grumpkin_mul_gen(k))), m0)
                    && sig.0.val() == scalar_diff(k, (xs * sig.1.val()) % q)
                implies ((e == c) <==> challenge(xy_or_default(grumpkin_affine(grumpkin_mul_gen(k))), m0)
                    == challenge(xy_or_default(grumpkin_affine(grumpkin_mul_gen(k))), message@)) by {
                let bb = (xs * e.val()) % q;
                assert(grumpkin_affine(coords_val(pe)) == grumpkin_affine(grumpkin_mul_gen(bb)));
                assert(grumpkin_affine(coords_val(gs)) == grumpkin_affine(grumpkin_mul_gen(s.val())));
                lemma_diff_add_back(k, bb);
                assert((s.val() + bb) % q == k);
                assert(grumpkin_affine(coords_val(r)) == grumpkin_affine(grumpkin_mul_gen((s.val() + bb) % q)));
                assert(c.val() == challenge(xy_or_default(grumpkin_affine(grumpkin_mul_gen(k))), message@));
                if e.val() == c.val() {
                    lemma_scalar_injective(e, c);
                }
            }
            if e != c {
                assert(e.val() != c.val()) by {
                    if e.val() == c.val() {
                        lemma_scalar_injective(e, c);
                    }
                }
            }
        }
        e == c
    }
}

/// Adding `b` back to `k - b` in the scalar field gives `k`.
proof fn lemma_diff_add_back(k: nat, b: nat)
    requires
        k < fq_modulus(),
        b < fq_modulus(),
    ensures
        (scalar_diff(k, b) + b) % fq_modulus() == k,
{
    let q = fq_modulus() as int;
    let d = k as int - b as int;
    if d >= 0 {
        vstd::arithmetic::div_mod::lemma_small_mod(d as nat, q as nat);
        vstd::arithmetic::div_mod::lemma_small_mod(k, q as nat);
    } else {
        vstd::arithmetic::div_mod::lemma_fundamental_div_mod_converse(d, q, -1, d + q);
        vstd::arithmetic::div_mod::lemma_small_mod(k, q as nat);
    }
}

/// Two scalars are the same exactly when their values are.
proof fn lemma_scalar_injective(a: Scalar, b: Scalar)
    requires
        a.val() == b.val(),
    ensures
        a == b,
{
    let ghost w = crate::field::limb_base() as int;
    let ha = a.l1 as int + w * (a.l2 as int + w * (a.l3 as int));
    let hb = b.l1 as int + w * (b.l2 as int + w * (b.l3 as int));
    assert(a.l0 == b.l0 && ha == hb);
    let ga = a.l2 as int + w * (a.l3 as int);
    let gb = b.l2 as int + w * (b.l3 as int);
    assert(a.l1 == b.l1 && ga == gb);
}

/// Poseidon of the coordinates `x`, `y` followed by the message.
fn hash_point_message(pp: &PoseidonParams, x: Fe, y: Fe, m: &[Fe]) -> (h: Fe)
    ensures
        h.val() == challenge((x.val(), y.val()), m@),
{
    let mut input: Vec<Fe> = Vec::new();
    input.push(x);
    input.push(y);
    let ghost head = input@;
    let mut i: usize = 0;
    while i < m.len()
        invariant
            i <= m.len(),
            input@ == head + m@.take(i as int),
        decreases m.len() - i,
    {
        input.push(m[i]);
        i = i + 1;
        proof { assert(input@ =~= head + m@.take(i as int)); }
    }
    proof {
        assert(m@.take(m@.len() as int) =~= m@);
        assert(vals(input@) =~= seq![x.val(), y.val()] + vals(m@));
    }
    crh_evaluate(pp, input.as_slice())
}

/// The Schnorr verification gadget; its constraints are generated with the circuit.
pub struct SchnorrGadget {}

} // verus!
