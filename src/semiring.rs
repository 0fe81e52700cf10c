use vstd::prelude::*;

verus! {

/// Side on which a weak division takes place.
#[derive(Clone, Copy, Debug, PartialEq, Eq, Structural)]
pub enum DivideType {
    DivideLeft,
    DivideRight,
    DivideAny,
}

/// A weight domain with `plus`, `times`, `zero` and `one`.
///
/// Each operation is tied to a spec function so that algorithms over any
/// semiring can state their results exactly; the laws the algorithms rely on
/// are proof obligations of each implementation.
pub trait Semiring: Sized {
    spec fn zero_spec() -> Self;

    spec fn one_spec() -> Self;

    spec fn plus_spec(self, rhs: Self) -> Self;

    spec fn times_spec(self, rhs: Self) -> Self;

    fn zero() -> (r: Self)
        ensures
            r == Self::zero_spec(),
    ;

    fn one() -> (r: Self)
        ensures
            r == Self::one_spec(),
    ;

    fn plus(&self, rhs: &Self) -> (r: Self)
        ensures
            r == self.plus_spec(*rhs),
    ;

    fn times(&self, rhs: &Self) -> (r: Self)
        ensures
            r == self.times_spec(*rhs),
    ;

    fn is_zero(&self) -> (r: bool)
        ensures
            r == (*self == Self::zero_spec()),
    ;

    fn is_one(&self) -> (r: bool)
        ensures
            r == (*self == Self::one_spec()),
    ;

    /// An equal copy of the weight.
    fn duplicate(&self) -> (r: Self)
        ensures
            r == *self,
    ;

    fn equals(&self, other: &Self) -> (r: bool)
        ensures
            r == (*self == *other),
    ;

    /// The weight in the reverse semiring (where `times` is reversed).
    spec fn reverse_spec(self) -> Self;

    fn reverse(&self) -> (r: Self)
        ensures
            r == self.reverse_spec(),
    ;

    /// `one` is a two-sided identity of `times`.
    proof fn lemma_times_one(a: Self)
        ensures
            a.times_spec(Self::one_spec()) == a,
            Self::one_spec().times_spec(a) == a,
    ;

    /// `one` and `zero` differ.
    proof fn lemma_one_not_zero()
        ensures
            Self::one_spec() != Self::zero_spec(),
    ;

    /// `times` is associative.
    proof fn lemma_times_assoc(a: Self, b: Self, c: Self)
        ensures
            a.times_spec(b.times_spec(c)) == a.times_spec(b).times_spec(c),
    ;

    /// `zero` is a two-sided identity of `plus`.
    proof fn lemma_plus_zero(a: Self)
        ensures
            a.plus_spec(Self::zero_spec()) == a,
            Self::zero_spec().plus_spec(a) == a,
    ;
}

/// A semiring in which a non-zero weight can be divided out.
pub trait WeaklyDivisibleSemiring: Semiring {
    spec fn divide_spec(self, rhs: Self, divide_type: DivideType) -> Self;

    fn divide(&self, rhs: &Self, divide_type: DivideType) -> (r: Self)
        requires
            *rhs != Self::zero_spec(),
        ensures
            r == self.divide_spec(*rhs, divide_type),
    ;

    /// Dividing by `one` leaves a weight unchanged.
    proof fn lemma_divide_one(a: Self, divide_type: DivideType)
        ensures
            a.divide_spec(Self::one_spec(), divide_type) == a,
    ;
}

/// A semiring whose weights can be rounded to a quantum `delta`, so that
/// weights that differ by less than the quantum compare equal.
pub trait WeightQuantize: Semiring {
    spec fn quantize_spec(self, delta: u64) -> Self;

    fn quantize(&self, delta: u64) -> (r: Self)
        ensures
            r == self.quantize_spec(delta),
    ;
}

/// The boolean semiring: `plus` is disjunction, `times` conjunction.
#[derive(Clone, Copy, Debug, PartialEq, Eq, Hash, Default, Structural)]
pub struct BooleanWeight {
    pub value: bool,
}

impl BooleanWeight {
    pub fn new(value: bool) -> (r: Self)
        ensures
            r.value == value,
    {
        BooleanWeight { value }
    }

    pub fn value(&self) -> (r: bool)
        ensures
            r == self.value,
    {
        self.value
    }

    pub fn set_value(&mut self, value: bool)
        ensures
            final(self).value == value,
    {
        self.value = value;
    }
}

impl Semiring for BooleanWeight {
    open spec fn zero_spec() -> Self {
        BooleanWeight { value: false }
    }

    open spec fn one_spec() -> Self {
        BooleanWeight { value: true }
    }

    open spec fn plus_spec(self, rhs: Self) -> Self {
        BooleanWeight { value: self.value || rhs.value }
    }

    open spec fn times_spec(self, rhs: Self) -> Self {
        BooleanWeight { value: self.value && rhs.value }
    }

    fn zero() -> (r: Self) {
        BooleanWeight { value: false }
    }

    fn one() -> (r: Self) {
        BooleanWeight { value: true }
    }

    fn plus(&self, rhs: &Self) -> (r: Self) {
        BooleanWeight { value: self.value || rhs.value }
    }

    fn times(&self, rhs: &Self) -> (r: Self) {
        BooleanWeight { value: self.value && rhs.value }
    }

    fn is_zero(&self) -> (r: bool) {
        !self.value
    }

    fn is_one(&self) -> (r: bool) {
        self.value
    }

    fn duplicate(&self) -> (r: Self) {
        *self
    }

    fn equals(&self, other: &Self) -> (r: bool) {
        self.value == other.value
    }

    open spec fn reverse_spec(self) -> Self {
        self
    }

    fn reverse(&self) -> (r: Self) {
        *self
    }

    proof fn lemma_times_one(a: Self) {
    }

    proof fn lemma_plus_zero(a: Self) {
    }

    proof fn lemma_times_assoc(a: Self, b: Self, c: Self) {
    }

    proof fn lemma_one_not_zero() {
    }
}

impl core::ops::Add for BooleanWeight {
    type Output = BooleanWeight;

    fn add(self, rhs: BooleanWeight) -> (r: BooleanWeight)
        ensures
            r == self.plus_spec(rhs),
    {
        self.plus(&rhs)
    }
}

impl vstd::std_specs::ops::AddSpecImpl for BooleanWeight {
    open spec fn obeys_add_spec() -> bool {
        true
    }

    open spec fn add_req(self, rhs: BooleanWeight) -> bool {
        true
    }

    open spec fn add_spec(self, rhs: BooleanWeight) -> BooleanWeight {
        self.plus_spec(rhs)
    }
}

impl core::ops::Mul for BooleanWeight {
    type Output = BooleanWeight;

    fn mul(self, rhs: BooleanWeight) -> (r: BooleanWeight)
        ensures
            r == self.times_spec(rhs),
    {
        self.times(&rhs)
    }
}

impl vstd::std_specs::ops::MulSpecImpl for BooleanWeight {
    open spec fn obeys_mul_spec() -> bool {
        true
    }

    open spec fn mul_req(self, rhs: BooleanWeight) -> bool {
        true
    }

    open spec fn mul_spec(self, rhs: BooleanWeight) -> BooleanWeight {
        self.times_spec(rhs)
    }
}

impl WeaklyDivisibleSemiring for BooleanWeight {
    open spec fn divide_spec(self, rhs: Self, divide_type: DivideType) -> Self {
        self
    }

    fn divide(&self, rhs: &Self, divide_type: DivideType) -> (r: Self) {
        *self
    }

    proof fn lemma_divide_one(a: Self, divide_type: DivideType) {
    }
}

impl WeightQuantize for BooleanWeight {
    open spec fn quantize_spec(self, delta: u64) -> Self {
        self
    }

    fn quantize(&self, delta: u64) -> (r: Self) {
        *self
    }
}

/// The tropical semiring over integer costs: `plus` keeps the smaller cost,
/// `times` adds costs, `u64::MAX` is the infinite cost (`zero`), `0` is
/// `one`. A sum reaching `u64::MAX` is infinite.
#[derive(Clone, Copy, Debug, PartialEq, Eq, Hash, Structural)]
pub struct TropicalWeight {
    pub value: u64,
}

/// The infinite cost.
pub const INFINITE_COST: u64 = u64::MAX;

pub open spec fn tropical_add(a: u64, b: u64) -> u64 {
    if a == INFINITE_COST || b == INFINITE_COST || a + b >= INFINITE_COST {
        INFINITE_COST
    } else {
        (a + b) as u64
    }
}

impl TropicalWeight {
    pub fn new(value: u64) -> (r: Self)
        ensures
            r.value == value,
    {
        TropicalWeight { value }
    }

    pub fn value(&self) -> (r: u64)
        ensures
            r == self.value,
    {
        self.value
    }
}

impl Semiring for TropicalWeight {
    open spec fn zero_spec() -> Self {
        TropicalWeight { value: INFINITE_COST }
    }

    open spec fn one_spec() -> Self {
        TropicalWeight { value: 0 }
    }

    open spec fn plus_spec(self, rhs: Self) -> Self {
        if self.value <= rhs.value {
            self
        } else {
            rhs
        }
    }

    open spec fn times_spec(self, rhs: Self) -> Self {
        TropicalWeight { value: tropical_add(self.value, rhs.value) }
    }

    fn zero() -> (r: Self) {
        TropicalWeight { value: INFINITE_COST }
    }

    fn one() -> (r: Self) {
        TropicalWeight { value: 0 }
    }

    fn plus(&self, rhs: &Self) -> (r: Self) {
        if self.value <= rhs.value {
            *self
        } else {
            *rhs
        }
    }

    fn times(&self, rhs: &Self) -> (r: Self) {
        if self.value == INFINITE_COST || rhs.value == INFINITE_COST || self.value >= INFINITE_COST - rhs.value {
            TropicalWeight { value: INFINITE_COST }
        } else {
            TropicalWeight { value: self.value + rhs.value }
        }
    }

    fn is_zero(&self) -> (r: bool) {
        self.value == INFINITE_COST
    }

    fn is_one(&self) -> (r: bool) {
        self.value == 0
    }

    fn duplicate(&self) -> (r: Self) {
        *self
    }

    fn equals(&self, other: &Self) -> (r: bool) {
        self.value == other.value
    }

    open spec fn reverse_spec(self) -> Self {
        self
    }

    fn reverse(&self) -> (r: Self) {
        *self
    }

    proof fn lemma_times_one(a: Self) {
    }

    proof fn lemma_plus_zero(a: Self) {
    }

    proof fn lemma_times_assoc(a: Self, b: Self, c: Self) {
    }

    proof fn lemma_one_not_zero() {
    }
}

/// Rounds a finite cost down to a multiple of `delta` (a `delta` of 0 keeps
/// it); the infinite cost stays infinite.
impl WeightQuantize for TropicalWeight {
    open spec fn quantize_spec(self, delta: u64) -> Self {
        if self.value == INFINITE_COST || delta == 0 {
            self
        } else {
            TropicalWeight { value: (self.value - self.value % delta) as u64 }
        }
    }

    fn quantize(&self, delta: u64) -> (r: Self) {
        if self.value == INFINITE_COST || delta == 0 {
            *self
        } else {
            let rem = self.value % delta;
            assert(rem <= self.value) by (nonlinear_arith)
                requires
                    rem == self.value % delta,
                    delta > 0,
            ;
            TropicalWeight { value: self.value - rem }
        }
    }
}

} // verus!
