//! Elements of the BN254 scalar field.
//!
//! A `Scalar` holds the canonical little-endian encoding of its value; the
//! arithmetic itself is done by `halo2curves`, and every operation states its
//! result over `val()`, the integer in `[0, modulus())` that the bytes encode.
use vstd::prelude::*;
use vstd::arithmetic::div_mod::lemma_mul_mod_noop_left;
use vstd::arithmetic::div_mod::lemma_mul_mod_noop_right;
use vstd::arithmetic::div_mod::lemma_small_mod;
use vstd::arithmetic::power::pow;
use halo2curves::bn256::Fr;
use halo2curves::ff::BatchInvert;
use halo2curves::ff::Field;
use core::cmp::Ordering;

verus! {

/// The order of the BN254 scalar field.
pub open spec fn modulus() -> int {
    let b: int = 0x1_0000_0000_0000_0000;
    ((0x30644e72e131a029 * b + 0xb85045b68181585d) * b + 0x2833e84879b97091) * b
        + 0x43e1f593f0000001
}

/// The integer that a little-endian byte string encodes.
pub open spec fn le_value(s: Seq<u8>) -> int
    decreases s.len(),
{
    if s.len() == 0 {
        0
    } else {
        s[0] as int + 256 * le_value(s.drop_first())
    }
}

pub open spec fn fadd(a: int, b: int) -> int {
    (a + b) % modulus()
}

pub open spec fn fmul(a: int, b: int) -> int {
    (a * b) % modulus()
}

pub open spec fn fneg(a: int) -> int {
    (-a) % modulus()
}

/// `r` is a multiplicative inverse of `a`.
pub open spec fn is_inverse(r: int, a: int) -> bool {
    0 <= r < modulus() && (r * a) % modulus() == 1
}

/// The multiplicative inverse of `a`, with zero for an element that has none.
pub open spec fn finv(a: int) -> int {
    if exists|r: int| is_inverse(r, a) {
        choose|r: int| is_inverse(r, a)
    } else {
        0
    }
}

/// The product of the first `i` entries of `s`, reduced after each step.
pub open spec fn prefix_product(s: Seq<int>, i: int) -> int
    decreases i,
{
    if i <= 0 {
        1
    } else {
        fmul(prefix_product(s, i - 1), s[i - 1])
    }
}

pub open spec fn fpow(a: int, e: nat) -> int {
    pow(a, e) % modulus()
}

proof fn lemma_le_value_nonneg(s: Seq<u8>)
    ensures
        le_value(s) >= 0,
    decreases s.len(),
{
    if s.len() > 0 {
        lemma_le_value_nonneg(s.drop_first());
    }
}

proof fn lemma_suffix_step(s: Seq<u8>, j: int)
    requires
        0 <= j < s.len(),
    ensures
        le_value(s.subrange(j, s.len() as int)) == s[j] as int + 256 * le_value(
            s.subrange(j + 1, s.len() as int),
        ),
{
    assert(s.subrange(j, s.len() as int).drop_first() =~= s.subrange(j + 1, s.len() as int));
}

/// Comparing from the most significant byte down decides the order of values.
proof fn lemma_lt_propagates(s: Seq<u8>, t: Seq<u8>, j: int)
    requires
        s.len() == t.len(),
        0 <= j <= s.len(),
        le_value(s.subrange(j, s.len() as int)) < le_value(t.subrange(j, t.len() as int)),
    ensures
        le_value(s) < le_value(t),
    decreases j,
{
    if j > 0 {
        lemma_suffix_step(s, j - 1);
        lemma_suffix_step(t, j - 1);
        lemma_lt_propagates(s, t, j - 1);
    } else {
        assert(s.subrange(0, s.len() as int) =~= s);
        assert(t.subrange(0, t.len() as int) =~= t);
    }
}

proof fn lemma_le_value_injective(s: Seq<u8>, t: Seq<u8>)
    requires
        s.len() == t.len(),
        le_value(s) == le_value(t),
    ensures
        s == t,
    decreases s.len(),
{
    if s.len() > 0 {
        let a = le_value(s.drop_first());
        let b = le_value(t.drop_first());
        assert(a == b) by {
            if a < b {
                assert(s[0] as int + 256 * a < t[0] as int + 256 * b);
            } else if b < a {
                assert(t[0] as int + 256 * b < s[0] as int + 256 * a);
            }
        }
        lemma_le_value_injective(s.drop_first(), t.drop_first());
        assert(s =~= t) by {
            assert forall|i: int| 0 <= i < s.len() implies s[i] == t[i] by {
                if i > 0 {
                    assert(s[i] == s.drop_first()[i - 1]);
                    assert(t[i] == t.drop_first()[i - 1]);
                }
            }
        }
    } else {
        assert(s =~= t);
    }
}

/// Multiplicative inverses are unique, so `finv` names the one that exists.
pub proof fn lemma_inverse_unique(a: int, r: int)
    requires
        is_inverse(r, a),
    ensures
        finv(a) == r,
{
    let m = modulus();
    let c = finv(a);
    assert(is_inverse(c, a));
    // (c * a) * r == c * (a * r), reduced two ways
    lemma_mul_mod_noop_left(c * a, r, m);
    lemma_small_mod(r as nat, m as nat);
    assert(((c * a) * r) % m == r) by {
        assert(((c * a) % m) * r == r);
    }
    lemma_mul_mod_noop_right(c, a * r, m);
    lemma_small_mod(c as nat, m as nat);
    assert((a * r) % m == 1) by {
        assert(a * r == r * a) by (nonlinear_arith);
    }
    assert((c * (a * r)) % m == c);
    assert((c * a) * r == c * (a * r)) by (nonlinear_arith);
}

#[derive(Clone, Copy, Debug)]
pub struct Scalar {
    bytes: [u8; 32],
}

impl Scalar {
    /// The value of the element: the integer its bytes encode, which the
    /// type's invariant keeps below the field order.
    pub closed spec fn val(self) -> int {
        if le_value(self.bytes@) < modulus() {
            le_value(self.bytes@)
        } else {
            0
        }
    }

    #[verifier::type_invariant]
    spec fn canonical(self) -> bool {
        le_value(self.bytes@) < modulus()
    }

    /// Every value lies in `[0, modulus())`.
    pub proof fn lemma_val_bound(self)
        ensures
            0 <= self.val() < modulus(),
    {
        lemma_le_value_nonneg(self.bytes@);
    }

    pub fn zero() -> (r: Scalar)
        ensures
            r.val() == 0,
    {
        let bytes = [0u8; 32];
        proof {
            lemma_zero_bytes(bytes@);
        }
        Scalar { bytes }
    }

    pub fn one() -> (r: Scalar)
        ensures
            r.val() == 1,
    {
        let mut bytes = [0u8; 32];
        proof {
            lemma_zero_bytes(bytes@);
        }
        bytes[0] = 1;
        proof {
            lemma_zero_bytes(bytes@.drop_first());
        }
        Scalar { bytes }
    }

    /// The element of the given canonical little-endian encoding.
    pub fn from_bytes(bytes: [u8; 32]) -> (r: Option<Scalar>)
        ensures
            r.is_some() == (le_value(bytes@) < modulus()),
            r.is_some() ==> r.unwrap().val() == le_value(bytes@),
    {
        if fr_is_canonical(bytes) {
            Some(Scalar { bytes })
        } else {
            None
        }
    }

    /// The canonical little-endian encoding of the element.
    pub fn to_bytes(&self) -> (r: [u8; 32])
        ensures
            le_value(r@) == self.val(),
    {
        proof {
            use_type_invariant(self);
        }
        self.bytes
    }

    pub fn from_u64(v: u64) -> (r: Scalar)
        ensures
            r.val() == v,
    {
        fr_from_u64(v)
    }

    /// Orders elements by value, as 256-bit unsigned integers.
    pub fn cmp_value(&self, other: &Scalar) -> (r: Ordering)
        ensures
            (r == Ordering::Less) == (self.val() < other.val()),
            (r == Ordering::Equal) == (self.val() == other.val()),
            (r == Ordering::Greater) == (self.val() > other.val()),
            (r == Ordering::Equal) ==> *self == *other,
    {
        proof {
            use_type_invariant(self);
            use_type_invariant(other);
        }
        let mut i: usize = 32;
        while i > 0
            invariant
                0 <= i <= 32,
                le_value(self.bytes@) < modulus(),
                le_value(other.bytes@) < modulus(),
                self.bytes@.subrange(i as int, 32) == other.bytes@.subrange(i as int, 32),
            decreases i,
        {
            let x = self.bytes[i - 1];
            let y = other.bytes[i - 1];
            proof {
                lemma_suffix_step(self.bytes@, i - 1);
                lemma_suffix_step(other.bytes@, i - 1);
            }
            if x < y {
                proof {
                    lemma_lt_propagates(self.bytes@, other.bytes@, i - 1);
                }
                return Ordering::Less;
            }
            if x > y {
                proof {
                    lemma_lt_propagates(other.bytes@, self.bytes@, i - 1);
                }
                return Ordering::Greater;
            }
            i -= 1;
            proof {
                assert(self.bytes@.subrange(i as int, 32) =~= other.bytes@.subrange(i as int, 32))
                    by {
                    assert(self.bytes@.subrange(i as int + 1, 32) == other.bytes@.subrange(
                        i as int + 1,
                        32,
                    ));
                    assert forall|j: int| 0 <= j < 32 - i implies #[trigger] self.bytes@.subrange(
                        i as int,
                        32,
                    )[j] == other.bytes@.subrange(i as int, 32)[j] by {
                        if j > 0 {
                            assert(self.bytes@.subrange(i as int, 32)[j] == self.bytes@.subrange(
                                i as int + 1,
                                32,
                            )[j - 1]);
                            assert(other.bytes@.subrange(i as int, 32)[j]
                                == other.bytes@.subrange(i as int + 1, 32)[j - 1]);
                        }
                    }
                }
            }
        }
        proof {
            assert(self.bytes@ =~= self.bytes@.subrange(0, 32));
            assert(other.bytes@ =~= other.bytes@.subrange(0, 32));
            assert(self.bytes =~= other.bytes);
        }
        Ordering::Equal
    }

    /// The sum of the two elements.
    pub fn add(&self, other: &Scalar) -> (r: Scalar)
        ensures
            r.val() == fadd(self.val(), other.val()),
    {
        fr_add(*self, *other)
    }

    /// Whether the two elements are equal.
    pub fn eq_value(&self, other: &Scalar) -> (r: bool)
        ensures
            r == (self.val() == other.val()),
            r ==> *self == *other,
    {
        match self.cmp_value(other) {
            Ordering::Equal => true,
            _ => false,
        }
    }

    pub fn is_zero(&self) -> (r: bool)
        ensures
            r == (self.val() == 0),
    {
        let z = Scalar::zero();
        self.eq_value(&z)
    }
}

impl PartialEq for Scalar {
    fn eq(&self, other: &Scalar) -> (r: bool) {
        self.eq_value(other)
    }
}

impl vstd::std_specs::cmp::PartialEqSpecImpl for Scalar {
    open spec fn obeys_eq_spec() -> bool {
        true
    }

    open spec fn eq_spec(&self, other: &Scalar) -> bool {
        self.val() == other.val()
    }
}

proof fn lemma_zero_bytes(s: Seq<u8>)
    requires
        forall|i: int| 0 <= i < s.len() ==> s[i] == 0,
    ensures
        le_value(s) == 0,
    decreases s.len(),
{
    if s.len() > 0 {
        lemma_zero_bytes(s.drop_first());
    }
}

/// Relies on halo2curves' `Fr::from_bytes`, which accepts exactly the
/// little-endian encodings of values below the field order.
#[verifier::external_body]
fn fr_is_canonical(bytes: [u8; 32]) -> (r: bool)
    ensures
        r == (le_value(bytes@) < modulus()),
{
    bool::from(Fr::from_bytes(&bytes).is_some())
}

/// Relies on halo2curves' `From<u64> for Fr`: the element of that value.
#[verifier::external_body]
fn fr_from_u64(v: u64) -> (r: Scalar)
    ensures
        r.val() == v,
{
    Scalar { bytes: Fr::from(v).to_bytes() }
}

/// Relies on halo2curves' addition of `Fr`: the sum modulo the field order.
#[verifier::external_body]
pub(crate) fn fr_add(a: Scalar, b: Scalar) -> (r: Scalar)
    ensures
        r.val() == fadd(a.val(), b.val()),
{
    let x = Fr::from_bytes(&a.bytes).unwrap() + Fr::from_bytes(&b.bytes).unwrap();
    Scalar { bytes: x.to_bytes() }
}

/// Relies on halo2curves' multiplication of `Fr`: the product modulo the field order.
#[verifier::external_body]
pub(crate) fn fr_mul(a: Scalar, b: Scalar) -> (r: Scalar)
    ensures
        r.val() == fmul(a.val(), b.val()),
{
    let x = Fr::from_bytes(&a.bytes).unwrap() * Fr::from_bytes(&b.bytes).unwrap();
    Scalar { bytes: x.to_bytes() }
}

/// Relies on halo2curves' negation of `Fr`: the additive inverse.
#[verifier::external_body]
pub(crate) fn fr_neg(a: Scalar) -> (r: Scalar)
    ensures
        r.val() == fneg(a.val()),
{
    let x = -Fr::from_bytes(&a.bytes).unwrap();
    Scalar { bytes: x.to_bytes() }
}

/// Relies on ff's `Field::pow_vartime` for `Fr`: `a` to the power `e`.
#[verifier::external_body]
pub(crate) fn fr_pow(a: Scalar, e: u64) -> (r: Scalar)
    ensures
        r.val() == fpow(a.val(), e as nat),
{
    let x = Fr::from_bytes(&a.bytes).unwrap().pow_vartime([e]);
    Scalar { bytes: x.to_bytes() }
}

/// Relies on ff's `BatchInvert` for `Fr`: each nonzero element is replaced by
/// its inverse, and zeros are left as they are.
#[verifier::external_body]
pub(crate) fn fr_batch_invert(v: &mut Vec<Scalar>)
    ensures
        final(v)@.len() == old(v)@.len(),
        forall|i: int|
            0 <= i < old(v)@.len() ==> (old(v)@[i].val() == 0 ==> #[trigger] final(v)@[i].val()
                == 0) && (old(v)@[i].val() != 0 ==> is_inverse(final(v)@[i].val(), old(v)@[i].val())),
{
    let mut xs: Vec<Fr> = v.iter().map(|s| Fr::from_bytes(&s.bytes).unwrap()).collect();
    xs.iter_mut().batch_invert();
    for (s, x) in v.iter_mut().zip(xs.iter()) {
        s.bytes = x.to_bytes();
    }
}

/// A zero element has no inverse, so `finv` gives zero for it.
pub proof fn lemma_finv_zero()
    ensures
        finv(0) == 0,
{
    assert forall|r: int| !is_inverse(r, 0) by {
        assert(r * 0 == 0);
    }
}

/// After `fr_batch_invert`, every element is `finv` of what it was.
pub proof fn lemma_batch_inverted(old_v: Seq<Scalar>, new_v: Seq<Scalar>)
    requires
        new_v.len() == old_v.len(),
        forall|i: int|
            0 <= i < old_v.len() ==> (old_v[i].val() == 0 ==> #[trigger] new_v[i].val() == 0) && (
            old_v[i].val() != 0 ==> is_inverse(new_v[i].val(), old_v[i].val())),
    ensures
        forall|i: int| 0 <= i < old_v.len() ==> #[trigger] new_v[i].val() == finv(old_v[i].val()),
{
    lemma_finv_zero();
    assert forall|i: int| 0 <= i < old_v.len() implies #[trigger] new_v[i].val() == finv(
        old_v[i].val(),
    ) by {
        if old_v[i].val() != 0 {
            lemma_inverse_unique(old_v[i].val(), new_v[i].val());
        }
    }
}

} // verus!
