//! Number types that compute exactly, with real numbers or with dual numbers.
//!
//! Rounding hides what the formulas of the model mean. The laws about what they mean are stated
//! for number types whose numbers can be read as real numbers on which the operations are exact.
//! No type of a fixed size is such a type. The laws speak of the formulas; what the model computes
//! in `f32` departs from them by rounding.
//! A dual number also carries a rate: how fast the value changes while some input changes. The
//! operations carry the rates along by the rules of differentiation, so the rate of a result is
//! its derivative along the rates of the inputs.
use vstd::prelude::*;

use crate::matrix::{dot_of, fma_chain, lane, plus_chain};
use crate::scalar::{
    cosine, exponential, fma, is_at_most, is_less, larger, logarithm, minus, negated, num, over,
    pi_num, plus, power, root, times, unit, Float,
};
use crate::sums::{lemma_sum_eq, lemma_sum_split, sum};

verus! {

/// `x` to the power `n`.
pub open spec fn nth_power(x: real, n: int) -> real
    decreases n,
{
    if n <= 0 {
        1real
    } else {
        x * nth_power(x, n - 1)
    }
}

/// The exponential, the natural logarithm and the cosine of real numbers, and the circle constant.
pub struct Curves {
    /// The exponential.
    pub exp: spec_fn(real) -> real,
    /// The natural logarithm.
    pub ln: spec_fn(real) -> real,
    /// The cosine.
    pub cos: spec_fn(real) -> real,
    /// The circle constant.
    pub pi: real,
}

impl Curves {
    /// `e` to the power `x`.
    pub open spec fn e(self, x: real) -> real {
        (self.exp)(x)
    }

    /// The natural logarithm of `x`.
    pub open spec fn l(self, x: real) -> real {
        (self.ln)(x)
    }

    /// The cosine of `x`.
    pub open spec fn c(self, x: real) -> real {
        (self.cos)(x)
    }

    /// What these functions are known by: the exponential is positive, increases, and turns sums
    /// into products; the logarithm undoes it; the cosine is not negative in the first and the
    /// last quarter of a turn and not positive in between, and is one at the start of the turn
    /// and minus one half a turn later.
    pub open spec fn known(self) -> bool {
        &&& forall|x: real| #[trigger] self.e(x) > 0real
        &&& forall|x: real, y: real| #[trigger] self.e(x) <= #[trigger] self.e(y) <==> x <= y
        &&& forall|x: real, y: real| #[trigger] self.e(x + y) == self.e(x) * self.e(y)
        &&& forall|x: real| self.l(#[trigger] self.e(x)) == x
        &&& forall|x: real| x > 0real ==> self.e(#[trigger] self.l(x)) == x
        &&& self.pi > 0real
        &&& self.c(0real) == 1real
        &&& self.c(self.pi) == -1real
        &&& forall|x: real|
            0real <= 2real * x <= self.pi ==> #[trigger] self.c(x) >= 0real
        &&& forall|x: real|
            self.pi <= 2real * x <= 3real * self.pi ==> #[trigger] self.c(x) <= 0real
        &&& forall|x: real|
            3real * self.pi <= 2real * x <= 4real * self.pi ==> #[trigger] self.c(x) >= 0real
    }
}

/// How numbers are read: each has a value and a rate.
#[verifier::reject_recursive_types(F)]
pub struct Reading<F> {
    /// The value of a number.
    pub val: spec_fn(F) -> real,
    /// The rate at which a number changes.
    pub rate: spec_fn(F) -> real,
}

impl<F: Float> Reading<F> {
    /// The value of a number.
    pub open spec fn v(self, a: F) -> real {
        (self.val)(a)
    }

    /// The rate of a number.
    pub open spec fn d(self, a: F) -> real {
        (self.rate)(a)
    }

    /// The four operations and the comparisons are exact on the values.
    pub open spec fn exact(self) -> bool {
        &&& forall|n: usize| self.v(#[trigger] num::<F>(n)) == n as real
        &&& forall|k: u64|
            self.v(#[trigger] unit::<F>(k)) * 0x20_0000_0000_0000real == k as real
        &&& forall|a: F, b: F| #[trigger] is_less(a, b) <==> self.v(a) < self.v(b)
        &&& forall|a: F, b: F| #[trigger] is_at_most(a, b) <==> self.v(a) <= self.v(b)
        &&& forall|a: F, b: F| self.v(#[trigger] plus(a, b)) == self.v(a) + self.v(b)
        &&& forall|a: F, b: F| self.v(#[trigger] minus(a, b)) == self.v(a) - self.v(b)
        &&& forall|a: F, b: F| self.v(#[trigger] times(a, b)) == self.v(a) * self.v(b)
        &&& forall|a: F| self.v(#[trigger] negated(a)) == -self.v(a)
        &&& forall|a: F, b: F, c: F|
            self.v(#[trigger] fma(a, b, c)) == self.v(a) * self.v(b) + self.v(c)
        &&& forall|a: F, b: F|
            self.v(b) != 0real ==> self.v(#[trigger] over(a, b)) * self.v(b) == self.v(a)
    }

    /// The exponential of a number is positive.
    pub open spec fn exponentials_positive(self) -> bool {
        forall|a: F| self.v(#[trigger] exponential(a)) > 0real
    }

    /// The exponential is positive, increases, and turns sums into products.
    pub open spec fn exponentials(self) -> bool {
        &&& self.exponentials_positive()
        &&& forall|a: F, b: F|
            self.v(#[trigger] exponential(a)) <= self.v(#[trigger] exponential(b)) <==> self.v(a)
                <= self.v(b)
        &&& forall|a: F, b: F, c: F|
            #![trigger exponential(a), exponential(b), exponential(c)]
            self.v(c) == self.v(a) + self.v(b) ==> self.v(exponential(c)) == self.v(exponential(a))
                * self.v(exponential(b))
    }

    /// The exponential, the logarithm and the cosine are those of real numbers.
    pub open spec fn follows(self, c: Curves) -> bool {
        &&& forall|a: F| self.v(#[trigger] exponential(a)) == c.e(self.v(a))
        &&& forall|a: F| self.v(a) > 0real ==> self.v(#[trigger] logarithm(a)) == c.l(self.v(a))
        &&& forall|a: F| self.v(#[trigger] cosine(a)) == c.c(self.v(a))
        &&& self.v(pi_num::<F>()) == c.pi
    }

    /// Square roots and integer powers are exact on the values.
    pub open spec fn roots_and_powers(self) -> bool {
        &&& forall|a: F|
            self.v(a) >= 0real ==> self.v(#[trigger] root(a)) >= 0real && self.v(root(a)) * self.v(
                root(a),
            ) == self.v(a)
        &&& forall|a: F, n: i32|
            n >= 0 ==> self.v(#[trigger] power(a, n)) == nth_power(self.v(a), n as int)
    }

    /// Of two numbers the larger is the one with the larger value; where the values are equal it
    /// is the second.
    pub open spec fn maxima(self) -> bool {
        forall|a: F, b: F|
            #[trigger] larger(a, b) == (if self.v(a) > self.v(b) {
                a
            } else {
                b
            })
    }

    /// The rate of `a * b`.
    pub open spec fn product_rate(self, a: F, b: F) -> real {
        self.v(a) * self.d(b) + self.d(a) * self.v(b)
    }

    /// The numbers are dual numbers: the operations are exact on the values and carry the rates
    /// along.
    pub open spec fn dual(self) -> bool {
        &&& self.exact()
        &&& forall|n: usize| self.d(#[trigger] num::<F>(n)) == 0real
        &&& forall|a: F, b: F| self.d(#[trigger] plus(a, b)) == self.d(a) + self.d(b)
        &&& forall|a: F, b: F| self.d(#[trigger] minus(a, b)) == self.d(a) - self.d(b)
        &&& forall|a: F, b: F| self.d(#[trigger] times(a, b)) == self.product_rate(a, b)
        &&& forall|a: F| self.d(#[trigger] negated(a)) == -self.d(a)
        &&& forall|a: F, b: F, c: F|
            self.d(#[trigger] fma(a, b, c)) == self.product_rate(a, b) + self.d(c)
        &&& forall|a: F, b: F|
            self.v(b) != 0real ==> self.product_rate(#[trigger] over(a, b), b) == self.d(a)
        &&& forall|a: F|
            self.v(a) > 0real ==> {
                let r = #[trigger] root(a);
                &&& self.v(r) > 0real
                &&& self.v(r) * self.v(r) == self.v(a)
                &&& self.product_rate(r, r) == self.d(a)
            }
        &&& self.exponentials_positive()
        &&& forall|a: F|
            self.d(#[trigger] exponential(a)) == self.v(exponential(a)) * self.d(a)
        &&& forall|a: F|
            self.v(a) > 0real ==> self.d(#[trigger] logarithm(a)) * self.v(a) == self.d(a)
        &&& self.maxima()
    }
}

/// The value of a chain of products.
pub proof fn lemma_chain_value<F: Float>(
    r: Reading<F>,
    x: Seq<F>,
    y: Seq<F>,
    init: F,
    n: int,
)
    requires
        r.exact(),
        0 <= n,
    ensures
        r.v(fma_chain(x, y, init, n)) == r.v(init) + sum(|i: int| r.v(x[i]) * r.v(y[i]), n),
    decreases n,
{
    if n > 0 {
        lemma_chain_value(r, x, y, init, n - 1);
    }
}

/// The rate of a chain of products.
pub proof fn lemma_chain_rate<F: Float>(r: Reading<F>, x: Seq<F>, y: Seq<F>, init: F, n: int)
    requires
        r.dual(),
        0 <= n,
    ensures
        r.d(fma_chain(x, y, init, n)) == r.d(init) + sum(
            |i: int| r.product_rate(x[i], y[i]),
            n,
        ),
    decreases n,
{
    if n > 0 {
        lemma_chain_rate(r, x, y, init, n - 1);
    }
}

/// The four lanes together hold every product once.
proof fn lemma_lanes_value<F: Float>(r: Reading<F>, a: Seq<F>, b: Seq<F>, c: int)
    requires
        r.exact(),
        0 <= c,
    ensures
        r.v(lane(a, b, 0, c)) + r.v(lane(a, b, 1, c)) + r.v(lane(a, b, 2, c)) + r.v(
            lane(a, b, 3, c),
        ) == sum(|i: int| r.v(a[i]) * r.v(b[i]), 4 * c),
    decreases c,
{
    let f = |i: int| r.v(a[i]) * r.v(b[i]);
    if c > 0 {
        lemma_lanes_value(r, a, b, c - 1);
        let k = 4 * (c - 1);
        assert(sum(f, k + 1) == sum(f, k) + f(k));
        assert(sum(f, k + 2) == sum(f, k + 1) + f(k + 1));
        assert(sum(f, k + 3) == sum(f, k + 2) + f(k + 2));
        assert(sum(f, k + 4) == sum(f, k + 3) + f(k + 3));
    }
}

/// The rates of the four lanes.
proof fn lemma_lanes_rate<F: Float>(r: Reading<F>, a: Seq<F>, b: Seq<F>, c: int)
    requires
        r.dual(),
        0 <= c,
    ensures
        r.d(lane(a, b, 0, c)) + r.d(lane(a, b, 1, c)) + r.d(lane(a, b, 2, c)) + r.d(
            lane(a, b, 3, c),
        ) == sum(|i: int| r.product_rate(a[i], b[i]), 4 * c),
    decreases c,
{
    let f = |i: int| r.product_rate(a[i], b[i]);
    if c > 0 {
        lemma_lanes_rate(r, a, b, c - 1);
        let k = 4 * (c - 1);
        assert(sum(f, k + 1) == sum(f, k) + f(k));
        assert(sum(f, k + 2) == sum(f, k + 1) + f(k + 1));
        assert(sum(f, k + 3) == sum(f, k + 2) + f(k + 2));
        assert(sum(f, k + 4) == sum(f, k + 3) + f(k + 3));
    }
}

/// In exact arithmetic the dot product is the sum of the products: the lanes do not matter.
pub proof fn lemma_dot_value<F: Float>(r: Reading<F>, a: Seq<F>, b: Seq<F>)
    requires
        r.exact(),
        a.len() == b.len(),
    ensures
        r.v(dot_of(a, b)) == sum(|i: int| r.v(a[i]) * r.v(b[i]), a.len() as int),
{
    let n = a.len() as int;
    let c = n / 4;
    let f = |i: int| r.v(a[i]) * r.v(b[i]);
    let (ra, rb) = (a.skip(4 * c), b.skip(4 * c));
    lemma_lanes_value(r, a, b, c);
    let lanes = plus(
        plus(lane(a, b, 0, c), lane(a, b, 1, c)),
        plus(lane(a, b, 2, c), lane(a, b, 3, c)),
    );
    lemma_chain_value(r, ra, rb, lanes, n - 4 * c);
    lemma_sum_split(f, 4 * c, n - 4 * c);
    lemma_sum_eq(
        |i: int| r.v(ra[i]) * r.v(rb[i]),
        |i: int| f(4 * c + i),
        n - 4 * c,
    );
}

/// The rate of a dot product.
pub proof fn lemma_dot_rate<F: Float>(r: Reading<F>, a: Seq<F>, b: Seq<F>)
    requires
        r.dual(),
        a.len() == b.len(),
    ensures
        r.d(dot_of(a, b)) == sum(|i: int| r.product_rate(a[i], b[i]), a.len() as int),
{
    let n = a.len() as int;
    let c = n / 4;
    let f = |i: int| r.product_rate(a[i], b[i]);
    let (ra, rb) = (a.skip(4 * c), b.skip(4 * c));
    lemma_lanes_rate(r, a, b, c);
    let lanes = plus(
        plus(lane(a, b, 0, c), lane(a, b, 1, c)),
        plus(lane(a, b, 2, c), lane(a, b, 3, c)),
    );
    lemma_chain_rate(r, ra, rb, lanes, n - 4 * c);
    lemma_sum_split(f, 4 * c, n - 4 * c);
    lemma_sum_eq(
        |i: int| r.product_rate(ra[i], rb[i]),
        |i: int| f(4 * c + i),
        n - 4 * c,
    );
}

/// The value of a chain of additions.
pub proof fn lemma_plus_chain_value<F: Float>(r: Reading<F>, x: Seq<F>, init: F, n: int)
    requires
        r.exact(),
        0 <= n,
    ensures
        r.v(plus_chain(x, init, n)) == r.v(init) + sum(|i: int| r.v(x[i]), n),
    decreases n,
{
    if n > 0 {
        lemma_plus_chain_value(r, x, init, n - 1);
    }
}

/// The rate of a chain of additions.
pub proof fn lemma_plus_chain_rate<F: Float>(r: Reading<F>, x: Seq<F>, init: F, n: int)
    requires
        r.dual(),
        0 <= n,
    ensures
        r.d(plus_chain(x, init, n)) == r.d(init) + sum(|i: int| r.d(x[i]), n),
    decreases n,
{
    if n > 0 {
        lemma_plus_chain_rate(r, x, init, n - 1);
    }
}

} // verus!
