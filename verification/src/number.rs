//! Field elements: the numbers that constant expressions evaluate to.
use vstd::arithmetic::power::*;
use vstd::prelude::*;

use crate::parsed::{BinaryOperator, UnaryOperator};

verus! {

/// The type of polynomial degrees, array lengths and row indices.
pub type DegreeType = u64;

/// A field in which the analyzer evaluates constant expressions.
///
/// Each executable method is tied to the mathematical function of the same
/// purpose, so what the analyzer states about a program is stated in terms of
/// these functions, whatever the field.
pub trait FieldElement: Copy {
    /// What `left op right` denotes, or `None` where it denotes nothing, such
    /// as a division by zero.
    spec fn binary_operation(left: Self, op: BinaryOperator, right: Self) -> Option<Self>;

    /// What `op value` denotes.
    spec fn unary_operation(op: UnaryOperator, value: Self) -> Self;

    /// The element as a degree, or `None` where it does not fit.
    spec fn degree(self) -> Option<DegreeType>;

    fn evaluate_binary_operation(left: Self, op: BinaryOperator, right: Self) -> (result: Option<
        Self,
    >)
        ensures
            result == Self::binary_operation(left, op, right),
    ;

    fn evaluate_unary_operation(op: UnaryOperator, value: Self) -> (result: Self)
        ensures
            result == Self::unary_operation(op, value),
    ;

    fn to_degree(&self) -> (result: Option<DegreeType>)
        ensures
            result == self.degree(),
    ;
}

/// The modulus of the Goldilocks field.
pub const GOLDILOCKS_MODULUS: u64 = 0xffff_ffff_0000_0001;

/// An element of the Goldilocks field, the integers modulo
/// [`GOLDILOCKS_MODULUS`].
#[derive(Debug, Clone, Copy, PartialEq, Eq, Structural)]
pub struct GoldilocksField {
    value: u64,
}

impl GoldilocksField {
    #[verifier::type_invariant]
    spec fn canonical(self) -> bool {
        self.value < GOLDILOCKS_MODULUS
    }

    /// The canonical representative, below the modulus.
    pub closed spec fn representative(self) -> u64 {
        self.value
    }

    /// The element that the integer `v` stands for.
    pub closed spec fn of_int(v: int) -> GoldilocksField {
        GoldilocksField { value: (v % GOLDILOCKS_MODULUS as int) as u64 }
    }

    /// One for true, zero for false.
    pub open spec fn of_bool(b: bool) -> GoldilocksField {
        GoldilocksField::of_int(if b { 1 } else { 0 })
    }

    /// Every integer stands for the element whose representative is its
    /// remainder modulo the modulus.
    pub proof fn lemma_representative_of_int(v: int)
        ensures
            GoldilocksField::of_int(v).representative() == v % GOLDILOCKS_MODULUS as int,
    {
    }

    /// The element that `value` stands for.
    pub fn new(value: u64) -> (result: GoldilocksField)
        ensures
            result == GoldilocksField::of_int(value as int),
    {
        GoldilocksField { value: value % GOLDILOCKS_MODULUS }
    }

    /// The canonical representative.
    pub fn to_integer(&self) -> (result: u64)
        ensures
            result == self.representative(),
            result < GOLDILOCKS_MODULUS,
    {
        proof {
            use_type_invariant(self);
        }
        self.value
    }

    fn reduce(value: u128) -> (result: GoldilocksField)
        ensures
            result == GoldilocksField::of_int(value as int),
    {
        GoldilocksField { value: (value % (GOLDILOCKS_MODULUS as u128)) as u64 }
    }

    fn from_bool(b: bool) -> (result: GoldilocksField)
        ensures
            result == GoldilocksField::of_bool(b),
    {
        GoldilocksField::new(if b { 1 } else { 0 })
    }

    fn multiply(left: u64, right: u64) -> (result: u64)
        ensures
            result == (left * right) % GOLDILOCKS_MODULUS as int,
    {
        assert(left * right <= 0xffff_ffff_ffff_ffff * 0xffff_ffff_ffff_ffff) by (nonlinear_arith)
            requires
                left <= 0xffff_ffff_ffff_ffff,
                right <= 0xffff_ffff_ffff_ffff,
        ;
        ((left as u128 * right as u128) % (GOLDILOCKS_MODULUS as u128)) as u64
    }

    /// Exponentiation by repeated squaring.
    fn power(self, exponent: u64) -> (result: GoldilocksField)
        ensures
            result == GoldilocksField::of_int(pow(self.representative() as int, exponent as nat)),
    {
        let ghost m = GOLDILOCKS_MODULUS as int;
        let mut accumulator: u64 = 1;
        let mut base: u64 = self.value;
        let mut remaining: u64 = exponent;
        proof {
            assert(1 * pow(base as int, remaining as nat) == pow(base as int, remaining as nat));
        }
        while remaining > 0
            invariant
                m == GOLDILOCKS_MODULUS as int,
                (accumulator * pow(base as int, remaining as nat)) % m == pow(
                    self.value as int,
                    exponent as nat,
                ) % m,
            decreases remaining,
        {
            let ghost before = accumulator * pow(base as int, remaining as nat);
            let half: u64 = remaining / 2;
            let square = GoldilocksField::multiply(base, base);
            let next: u64 = if remaining % 2 == 1 {
                GoldilocksField::multiply(accumulator, base)
            } else {
                accumulator
            };
            proof {
                lemma_squaring_step(
                    accumulator as int,
                    base as int,
                    remaining as nat,
                    next as int,
                    square as int,
                    m,
                );
            }
            accumulator = next;
            base = square;
            remaining = half;
        }
        proof {
            lemma_pow0(base as int);
            assert(accumulator * 1 == accumulator);
        }
        GoldilocksField::new(accumulator)
    }
}

/// One step of exponentiation by squaring keeps the product modulo `m`.
proof fn lemma_squaring_step(
    accumulator: int,
    base: int,
    remaining: nat,
    next: int,
    square: int,
    m: int,
)
    requires
        m > 0,
        remaining > 0,
        square == (base * base) % m,
        next == if remaining % 2 == 1 {
            (accumulator * base) % m
        } else {
            accumulator
        },
    ensures
        (next * pow(square, remaining / 2)) % m == (accumulator * pow(base, remaining)) % m,
{
    let half = remaining / 2;
    lemma_pow_mod_noop(base * base, half, m);
    lemma_pow_multiplies(base, 2, half);
    lemma_pow1(base);
    assert(pow(base, 2) == base * base) by {
        lemma_square_is_pow2(base);
    }
    assert(pow(base * base, half) == pow(base, 2 * half));
    let full = pow(base, 2 * half);
    vstd::arithmetic::div_mod::lemma_mul_mod_noop(next, pow(square, half), m);
    vstd::arithmetic::div_mod::lemma_mul_mod_noop(next, full, m);
    assert(pow(square, half) % m == full % m);
    if remaining % 2 == 1 {
        assert(remaining == 2 * half + 1);
        lemma_pow_adds(base, 2 * half, 1);
        assert((accumulator * base) * full == accumulator * (full * base)) by (nonlinear_arith);
        vstd::arithmetic::div_mod::lemma_mul_mod_noop(accumulator * base, full, m);
        vstd::arithmetic::div_mod::lemma_mod_twice(accumulator * base, m);
        vstd::arithmetic::div_mod::lemma_mul_mod_noop((accumulator * base) % m, full, m);
    } else {
        assert(remaining == 2 * half);
    }
}

/// The integer that `left op right` denotes on representatives.
pub open spec fn goldilocks_binary(left: u64, op: BinaryOperator, right: u64) -> Option<
    GoldilocksField,
> {
    match op {
        BinaryOperator::Add => Some(GoldilocksField::of_int(left + right)),
        BinaryOperator::Sub => Some(GoldilocksField::of_int(left - right)),
        BinaryOperator::Mul => Some(GoldilocksField::of_int(left * right)),
        BinaryOperator::Div => if right == 0 {
            None
        } else {
            Some(GoldilocksField::of_int(left as int / right as int))
        },
        BinaryOperator::Mod => if right == 0 {
            None
        } else {
            Some(GoldilocksField::of_int(left as int % right as int))
        },
        BinaryOperator::Pow => Some(GoldilocksField::of_int(pow(left as int, right as nat))),
        BinaryOperator::BinaryAnd => Some(GoldilocksField::of_int((left & right) as int)),
        BinaryOperator::BinaryXor => Some(GoldilocksField::of_int((left ^ right) as int)),
        BinaryOperator::BinaryOr => Some(GoldilocksField::of_int((left | right) as int)),
        BinaryOperator::ShiftLeft => Some(
            GoldilocksField::of_int(if right < 64 { (left << right) as int } else { 0 }),
        ),
        BinaryOperator::ShiftRight => Some(
            GoldilocksField::of_int(if right < 64 { (left >> right) as int } else { 0 }),
        ),
        BinaryOperator::LogicalOr => Some(GoldilocksField::of_bool(left != 0 || right != 0)),
        BinaryOperator::LogicalAnd => Some(GoldilocksField::of_bool(left != 0 && right != 0)),
        BinaryOperator::Less => Some(GoldilocksField::of_bool(left < right)),
        BinaryOperator::LessEqual => Some(GoldilocksField::of_bool(left <= right)),
        BinaryOperator::Equal => Some(GoldilocksField::of_bool(left == right)),
        BinaryOperator::NotEqual => Some(GoldilocksField::of_bool(left != right)),
        BinaryOperator::GreaterEqual => Some(GoldilocksField::of_bool(left >= right)),
        BinaryOperator::Greater => Some(GoldilocksField::of_bool(left > right)),
    }
}

/// Sums, differences and products of elements are those of the integers that
/// they stand for.
pub proof fn lemma_ring_operations(a: int, b: int)
    ensures
        GoldilocksField::binary_operation(
            GoldilocksField::of_int(a),
            BinaryOperator::Add,
            GoldilocksField::of_int(b),
        ) == Some(GoldilocksField::of_int(a + b)),
        GoldilocksField::binary_operation(
            GoldilocksField::of_int(a),
            BinaryOperator::Sub,
            GoldilocksField::of_int(b),
        ) == Some(GoldilocksField::of_int(a - b)),
        GoldilocksField::binary_operation(
            GoldilocksField::of_int(a),
            BinaryOperator::Mul,
            GoldilocksField::of_int(b),
        ) == Some(GoldilocksField::of_int(a * b)),
        GoldilocksField::unary_operation(UnaryOperator::Minus, GoldilocksField::of_int(a))
            == GoldilocksField::of_int(-a),
{
    let m = GOLDILOCKS_MODULUS as int;
    vstd::arithmetic::div_mod::lemma_add_mod_noop(a, b, m);
    vstd::arithmetic::div_mod::lemma_sub_mod_noop(a, b, m);
    vstd::arithmetic::div_mod::lemma_mul_mod_noop(a, b, m);
    vstd::arithmetic::div_mod::lemma_sub_mod_noop(0, a, m);
}

impl FieldElement for GoldilocksField {
    open spec fn binary_operation(left: Self, op: BinaryOperator, right: Self) -> Option<Self> {
        goldilocks_binary(left.representative(), op, right.representative())
    }

    open spec fn unary_operation(op: UnaryOperator, value: Self) -> Self {
        match op {
            UnaryOperator::Plus => value,
            UnaryOperator::Minus => GoldilocksField::of_int(-(value.representative() as int)),
            UnaryOperator::LogicalNot => GoldilocksField::of_bool(value.representative() == 0),
        }
    }

    open spec fn degree(self) -> Option<DegreeType> {
        Some(self.representative())
    }

    fn evaluate_binary_operation(left: Self, op: BinaryOperator, right: Self) -> (result: Option<
        Self,
    >) {
        let l = left.value;
        let r = right.value;
        match op {
            BinaryOperator::Add => Some(GoldilocksField::reduce(l as u128 + r as u128)),
            BinaryOperator::Sub => Some(
                GoldilocksField::reduce((l as u128 + 2 * (GOLDILOCKS_MODULUS as u128)) - r as u128),
            ),
            BinaryOperator::Mul => Some(GoldilocksField { value: GoldilocksField::multiply(l, r) }),
            BinaryOperator::Div => if r == 0 {
                None
            } else {
                Some(GoldilocksField::new(l / r))
            },
            BinaryOperator::Mod => if r == 0 {
                None
            } else {
                Some(GoldilocksField::new(l % r))
            },
            BinaryOperator::Pow => Some(left.power(r)),
            BinaryOperator::BinaryAnd => Some(GoldilocksField::new(l & r)),
            BinaryOperator::BinaryXor => Some(GoldilocksField::new(l ^ r)),
            BinaryOperator::BinaryOr => Some(GoldilocksField::new(l | r)),
            BinaryOperator::ShiftLeft => Some(
                GoldilocksField::new(if r < 64 { l << r } else { 0 }),
            ),
            BinaryOperator::ShiftRight => Some(
                GoldilocksField::new(if r < 64 { l >> r } else { 0 }),
            ),
            BinaryOperator::LogicalOr => Some(GoldilocksField::from_bool(l != 0 || r != 0)),
            BinaryOperator::LogicalAnd => Some(GoldilocksField::from_bool(l != 0 && r != 0)),
            BinaryOperator::Less => Some(GoldilocksField::from_bool(l < r)),
            BinaryOperator::LessEqual => Some(GoldilocksField::from_bool(l <= r)),
            BinaryOperator::Equal => Some(GoldilocksField::from_bool(l == r)),
            BinaryOperator::NotEqual => Some(GoldilocksField::from_bool(l != r)),
            BinaryOperator::GreaterEqual => Some(GoldilocksField::from_bool(l >= r)),
            BinaryOperator::Greater => Some(GoldilocksField::from_bool(l > r)),
        }
    }

    fn evaluate_unary_operation(op: UnaryOperator, value: Self) -> (result: Self) {
        match op {
            UnaryOperator::Plus => value,
            UnaryOperator::Minus => GoldilocksField::reduce(
                2 * (GOLDILOCKS_MODULUS as u128) - value.value as u128,
            ),
            UnaryOperator::LogicalNot => GoldilocksField::from_bool(value.value == 0),
        }
    }

    fn to_degree(&self) -> (result: Option<DegreeType>) {
        Some(self.value)
    }
}

} // verus!
