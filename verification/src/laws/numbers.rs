//! What the operators mean on the numbers of the Goldilocks field.
use vstd::arithmetic::power2::*;
use vstd::arithmetic::power::*;
use vstd::prelude::*;

use crate::number::{FieldElement, GoldilocksField, GOLDILOCKS_MODULUS};
use crate::parsed::{BinaryOperator, UnaryOperator};

verus! {

/// The number of elements of the field is 2^64 - 2^32 + 1, and each integer below
/// it is the representative of its element, which is also its degree.
pub proof fn lemma_elements(a: int)
    requires
        0 <= a < GOLDILOCKS_MODULUS,
    ensures
        GOLDILOCKS_MODULUS == pow2(64) - pow2(32) + 1,
        GoldilocksField::of_int(a).representative() == a,
        GoldilocksField::of_int(a).degree() == Some(a as u64),
        GoldilocksField::of_int(a + GOLDILOCKS_MODULUS) == GoldilocksField::of_int(a),
{
    lemma2_to64();
    lemma2_to64_rest();
    GoldilocksField::lemma_representative_of_int(a);
    crate::number::lemma_ring_operations(a, GOLDILOCKS_MODULUS as int);
    assert(GoldilocksField::of_int(GOLDILOCKS_MODULUS as int).representative() == 0) by {
        GoldilocksField::lemma_representative_of_int(GOLDILOCKS_MODULUS as int);
    }
}

/// What `op` gives on two integers.
pub open spec fn applied(a: int, op: BinaryOperator, b: int) -> Option<GoldilocksField> {
    GoldilocksField::binary_operation(GoldilocksField::of_int(a), op, GoldilocksField::of_int(b))
}

/// The number that `op` gives on two integers.
pub open spec fn number(a: int, op: BinaryOperator, b: int) -> int {
    applied(a, op, b)->Some_0.representative() as int
}

/// Division is that of integers, with a remainder. There is none by zero.
pub proof fn lemma_division(a: int, b: int)
    requires
        0 <= a < GOLDILOCKS_MODULUS,
        0 <= b < GOLDILOCKS_MODULUS,
    ensures
        applied(a, BinaryOperator::Div, b) is None <==> b == 0,
        applied(a, BinaryOperator::Mod, b) is None <==> b == 0,
        b != 0 ==> {
            &&& a == b * number(a, BinaryOperator::Div, b) + number(a, BinaryOperator::Mod, b)
            &&& 0 <= number(a, BinaryOperator::Mod, b) < b
        },
{
    lemma_elements(a);
    lemma_elements(b);
    if b != 0 {
        vstd::arithmetic::div_mod::lemma_fundamental_div_mod(a, b);
        vstd::arithmetic::div_mod::lemma_mod_bound(a, b);
        vstd::arithmetic::div_mod::lemma_div_is_ordered_by_denominator(a, 1, b);
        vstd::arithmetic::div_mod::lemma_div_pos_is_pos(a, b);
        lemma_elements(a / b);
        lemma_elements(a % b);
    }
}

/// Nothing to the power of zero is one, and each further power is one further
/// product.
pub proof fn lemma_powers(a: int, k: int)
    requires
        0 <= a < GOLDILOCKS_MODULUS,
        0 <= k < GOLDILOCKS_MODULUS - 1,
    ensures
        number(a, BinaryOperator::Pow, 0) == 1,
        applied(a, BinaryOperator::Pow, k) is Some,
        applied(a, BinaryOperator::Pow, k + 1) == applied(
            a,
            BinaryOperator::Mul,
            number(a, BinaryOperator::Pow, k),
        ),
{
    lemma_elements(a);
    lemma_elements(0);
    lemma_elements(1);
    lemma_elements(k);
    lemma_elements(k + 1);
    lemma_pow0(a);
    let m = GOLDILOCKS_MODULUS as int;
    let p = pow(a, k as nat);
    lemma_pow_adds(a, 1, k as nat);
    lemma_pow1(a);
    assert(pow(a, (k + 1) as nat) == a * p);
    GoldilocksField::lemma_representative_of_int(p);
    assert(number(a, BinaryOperator::Pow, k) == p % m);
    crate::number::lemma_ring_operations(a, p);
    crate::number::lemma_ring_operations(a, p % m);
    lemma_elements(p % m);
    assert(GoldilocksField::of_int(p) == GoldilocksField::of_int(p % m)) by {
        vstd::arithmetic::div_mod::lemma_fundamental_div_mod(p, m);
        lemma_same_element(p, p % m);
    }
}

proof fn lemma_same_element(p: int, q: int)
    requires
        p % GOLDILOCKS_MODULUS as int == q % GOLDILOCKS_MODULUS as int,
    ensures
        GoldilocksField::of_int(p) == GoldilocksField::of_int(q),
{
    crate::number::lemma_ring_operations(p, 0);
    crate::number::lemma_ring_operations(q, 0);
    GoldilocksField::lemma_representative_of_int(p);
    GoldilocksField::lemma_representative_of_int(q);
}

/// A comparison is one where it holds and zero where it does not.
pub proof fn lemma_comparisons(a: int, b: int)
    requires
        0 <= a < GOLDILOCKS_MODULUS,
        0 <= b < GOLDILOCKS_MODULUS,
    ensures
        number(a, BinaryOperator::Less, b) == if a < b {
            1int
        } else {
            0
        },
        number(a, BinaryOperator::LessEqual, b) == if a <= b {
            1int
        } else {
            0
        },
        number(a, BinaryOperator::Equal, b) == if a == b {
            1int
        } else {
            0
        },
        number(a, BinaryOperator::NotEqual, b) == if a == b {
            0int
        } else {
            1
        },
        number(a, BinaryOperator::GreaterEqual, b) == if b <= a {
            1int
        } else {
            0
        },
        number(a, BinaryOperator::Greater, b) == if b < a {
            1int
        } else {
            0
        },
        applied(a, BinaryOperator::Less, b) is Some,
        applied(a, BinaryOperator::LessEqual, b) is Some,
        applied(a, BinaryOperator::Equal, b) is Some,
        applied(a, BinaryOperator::NotEqual, b) is Some,
        applied(a, BinaryOperator::GreaterEqual, b) is Some,
        applied(a, BinaryOperator::Greater, b) is Some,
{
    lemma_elements(a);
    lemma_elements(b);
    lemma_elements(0);
    lemma_elements(1);
}

/// Zero is false, any other number is true, and a logical operator gives one or
/// zero.
pub proof fn lemma_logic(a: int, b: int)
    requires
        0 <= a < GOLDILOCKS_MODULUS,
        0 <= b < GOLDILOCKS_MODULUS,
    ensures
        applied(a, BinaryOperator::LogicalOr, b) is Some,
        applied(a, BinaryOperator::LogicalAnd, b) is Some,
        number(a, BinaryOperator::LogicalOr, b) == if a == 0 && b == 0 {
            0int
        } else {
            1
        },
        number(a, BinaryOperator::LogicalAnd, b) == if a == 0 || b == 0 {
            0int
        } else {
            1
        },
        GoldilocksField::unary_operation(
            UnaryOperator::LogicalNot,
            GoldilocksField::of_int(a),
        ).representative() == if a == 0 {
            1int
        } else {
            0
        },
        GoldilocksField::unary_operation(UnaryOperator::Plus, GoldilocksField::of_int(a))
            == GoldilocksField::of_int(a),
{
    lemma_elements(a);
    lemma_elements(b);
    lemma_elements(0);
    lemma_elements(1);
}

/// The bit of `x` that stands for 2^i.
pub open spec fn bit(x: u64, i: u64) -> bool {
    (x >> i) & 1 == 1
}

/// `and` has the bits that both numbers have. `or` is what the sum of the two
/// exceeds it by, and exclusive `or` what `or` exceeds it by.
pub proof fn lemma_bits(a: u64, b: u64, i: u64)
    requires
        a < GOLDILOCKS_MODULUS,
        b < GOLDILOCKS_MODULUS,
        i < 64,
    ensures
        applied(a as int, BinaryOperator::BinaryAnd, b as int) is Some,
        bit(number(a as int, BinaryOperator::BinaryAnd, b as int) as u64, i) <==> bit(a, i) && bit(
            b,
            i,
        ),
        ({
            let common = number(a as int, BinaryOperator::BinaryAnd, b as int);
            &&& applied(a as int, BinaryOperator::BinaryOr, b as int) == Some(
                GoldilocksField::of_int(a + b - common),
            )
            &&& applied(a as int, BinaryOperator::BinaryXor, b as int) == Some(
                GoldilocksField::of_int(a + b - 2 * common),
            )
        }),
{
    lemma_elements(a as int);
    lemma_elements(b as int);
    assert(a & b <= a) by (bit_vector);
    lemma_elements((a & b) as int);
    assert(((a & b) >> i) & 1 == 1 <==> ((a >> i) & 1 == 1 && (b >> i) & 1 == 1)) by (bit_vector);
    assert((a | b) == a + b - (a & b)) by (bit_vector);
    assert((a ^ b) == a + b - 2 * (a & b)) by (bit_vector);
}

proof fn lemma_shifted(a: u64, k: u64)
    requires
        k < 64,
    ensures
        (a << k) as int == (a * pow2(k as nat)) % 0x1_0000_0000_0000_0000,
    decreases k,
{
    let m: int = 0x1_0000_0000_0000_0000;
    if k == 0 {
        lemma2_to64();
        assert(a << 0 == a) by (bit_vector);
        assert(a * 1 == a);
    } else {
        let j = (k - 1) as u64;
        lemma_shifted(a, j);
        lemma_pow2_unfold(k as nat);
        let p = pow2(j as nat) as int;
        let x = a << j;
        assert(a << k == x << 1) by (bit_vector)
            requires
                x == a << j,
                k == j + 1,
                k < 64,
        ;
        assert((x << 1) == (2 * x) % 0x1_0000_0000_0000_0000) by (bit_vector);
        assert(a * pow2(k as nat) == 2 * (a * p)) by (nonlinear_arith)
            requires
                pow2(k as nat) == 2 * p,
        ;
        vstd::arithmetic::div_mod::lemma_mul_mod_noop_right(2, a * p, m);
    }
}

/// A shift to the left is a product with a power of two of which the last 64 bits
/// stay, and a shift to the right is a quotient by a power of two.
pub proof fn lemma_shifts(a: u64, b: u64)
    requires
        a < GOLDILOCKS_MODULUS,
        b < GOLDILOCKS_MODULUS,
    ensures
        applied(a as int, BinaryOperator::ShiftLeft, b as int) == Some(
            GoldilocksField::of_int((a * pow2(b as nat)) % pow2(64) as int),
        ),
        applied(a as int, BinaryOperator::ShiftRight, b as int) == Some(
            GoldilocksField::of_int(a as int / pow2(b as nat) as int),
        ),
{
    lemma_elements(a as int);
    lemma_elements(b as int);
    lemma2_to64();
    lemma2_to64_rest();
    if b < 64 {
        lemma_shifted(a, b);
        vstd::bits::lemma_u64_shr_is_div(a, b);
    } else {
        let rest = pow2((b - 64) as nat) as int;
        let m = pow2(64) as int;
        lemma_pow2_adds(64, (b - 64) as nat);
        lemma_pow2_pos((b - 64) as nat);
        assert(a * pow2(b as nat) == (a * rest) * m) by (nonlinear_arith)
            requires
                pow2(b as nat) == m * rest,
        ;
        vstd::arithmetic::div_mod::lemma_mod_multiples_basic(a * rest, m);
        assert(pow2(b as nat) >= m) by (nonlinear_arith)
            requires
                pow2(b as nat) == m * rest,
                rest >= 1,
                m > 0,
        ;
        vstd::arithmetic::div_mod::lemma_basic_div(a as int, pow2(b as nat) as int);
    }
}

} // verus!
