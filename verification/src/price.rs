//! Exact prices: a whole number of units and a count of ten-thousandths.

use crate::error::EngineError;
use rust_decimal::Decimal;
use std::cmp::Ordering;
use vstd::arithmetic::div_mod::*;
use vstd::arithmetic::mul::*;
use vstd::arithmetic::power::*;
use vstd::prelude::*;

verus! {

/// `rust_decimal::Decimal`, an exact decimal number `m / 10^e`. The
/// library reads a value of it only through its mantissa and its scale.
#[verifier::external_type_specification]
#[verifier::external_body]
pub struct ExDecimal(rust_decimal::Decimal);

/// The integer `m` of a decimal `m / 10^e`: what `Decimal::mantissa` returns.
pub uninterp spec fn decimal_mantissa(value: Decimal) -> int;

/// The exponent `e` of a decimal `m / 10^e`: what `Decimal::scale` returns.
pub uninterp spec fn decimal_scale(value: Decimal) -> nat;

/// `Decimal::mantissa` reads the 96-bit integer and its sign out of the
/// value. Nothing is claimed beyond giving that integer its name.
pub assume_specification[ Decimal::mantissa ](value: &Decimal) -> (mantissa: i128)
    ensures
        mantissa == decimal_mantissa(*value),
;

/// `Decimal::scale` reads the exponent out of the value. Nothing is claimed
/// beyond giving that exponent its name.
pub assume_specification[ Decimal::scale ](value: &Decimal) -> (scale: u32)
    ensures
        scale == decimal_scale(*value),
;

/// The number of fractional units in one whole price step.
pub const PRICE_SCALAR: u64 = 10_000;

/// A price as the book orders and compares it.
#[derive(Clone, Copy, Debug, PartialEq, Eq, PartialOrd, Ord, Hash, Structural)]
pub struct Price {
    integral: u64,
    fractional: u64,
}

/// The mathematical content of a [`Price`].
pub struct PriceView {
    pub integral: nat,
    pub fractional: nat,
}

impl PriceView {
    /// The price counted in fractional units.
    pub open spec fn units(self) -> nat {
        self.integral * (PRICE_SCALAR as nat) + self.fractional
    }

    /// The strict order on prices: by integral component, then by
    /// fractional component.
    pub open spec fn lt(self, other: PriceView) -> bool {
        self.integral < other.integral || (self.integral == other.integral && self.fractional
            < other.fractional)
    }

    /// `self` is at most `other`.
    pub open spec fn le(self, other: PriceView) -> bool {
        self.lt(other) || self == other
    }
}

impl View for Price {
    type V = PriceView;

    closed spec fn view(&self) -> PriceView {
        PriceView { integral: self.integral as nat, fractional: self.fractional as nat }
    }
}

/// The value `mantissa / 10^scale` counted in fractional units, when it is a
/// natural number of them.
pub open spec fn decimal_units(mantissa: int, scale: nat) -> Option<nat> {
    if mantissa >= 0 && (mantissa * PRICE_SCALAR) % pow(10, scale) == 0 {
        Some(((mantissa * PRICE_SCALAR) / pow(10, scale)) as nat)
    } else {
        None
    }
}

/// The price that stands for `mantissa / 10^scale`, or `InvalidPrice` when
/// the value is negative, is finer than the resolution, or has an integral
/// component beyond 64 bits.
pub open spec fn price_of(mantissa: int, scale: nat) -> Result<PriceView, EngineError> {
    match decimal_units(mantissa, scale) {
        Some(units) => if units / (PRICE_SCALAR as nat) <= u64::MAX {
            Ok(
                PriceView {
                    integral: units / (PRICE_SCALAR as nat),
                    fractional: units % (PRICE_SCALAR as nat),
                },
            )
        } else {
            Err(EngineError::InvalidPrice)
        },
        None => Err(EngineError::InvalidPrice),
    }
}

/// What a construction result says of the price it holds.
pub open spec fn result_view(r: Result<Price, EngineError>) -> Result<PriceView, EngineError> {
    match r {
        Ok(p) => Ok(p@),
        Err(e) => Err(e),
    }
}

impl Price {
    /// Builds the price of an exact decimal value.
    pub fn new(value: Decimal) -> (r: Result<Price, EngineError>)
        ensures
            result_view(r) == price_of(decimal_mantissa(value), decimal_scale(value)),
            r matches Ok(p) ==> p@.fractional < PRICE_SCALAR,
    {
        Price::from_parts(value.mantissa(), value.scale())
    }

    /// Builds the price of `mantissa / 10^scale`.
    pub fn from_parts(mantissa: i128, scale: u32) -> (r: Result<Price, EngineError>)
        ensures
            result_view(r) == price_of(mantissa as int, scale as nat),
            r matches Ok(p) ==> p@.fractional < PRICE_SCALAR,
    {
        if mantissa < 0 {
            return Err(EngineError::InvalidPrice);
        }
        let mut units: u128 = mantissa as u128;
        let mut e: u32 = scale;
        proof {
            lemma_pow0(10);
        }
        while e > 4 && units != 0
            invariant
                e <= scale,
                mantissa >= 0,
                mantissa == units * pow(10, (scale - e) as nat),
            decreases e,
        {
            if units % 10 != 0 {
                proof {
                    lemma_not_whole(mantissa as int, scale as nat, units as int, e as nat);
                }
                return Err(EngineError::InvalidPrice);
            }
            proof {
                lemma_strip_digit(units as int, (scale - e) as nat);
            }
            units = units / 10;
            e = e - 1;
        }
        if units == 0 {
            proof {
                lemma_pow_positive(10, scale as nat);
                assert(mantissa == 0) by (nonlinear_arith)
                    requires
                        mantissa == units * pow(10, (scale - e) as nat),
                        units == 0,
                ;
                assert(0int * PRICE_SCALAR == 0);
                lemma_small_mod(0, pow(10, scale as nat) as nat);
                lemma_div_basics(pow(10, scale as nat));
            }
            return Ok(Price { integral: 0, fractional: 0 });
        }
        let mut factor: u128 = 1;
        let mut k: u32 = e;
        while k < 4
            invariant
                e <= k <= 4,
                factor == pow(10, (k - e) as nat),
                1 <= factor <= 10_000,
            decreases 4 - k,
        {
            proof {
                lemma_pow_adds(10, (k - e) as nat, 1);
                lemma_pow1(10);
            }
            factor = factor * 10;
            k = k + 1;
            assert(factor <= 10_000) by {
                lemma_pow_increases(10, (k - e) as nat, 4);
                assert(pow(10, 4) == 10_000) by {
                    reveal_with_fuel(pow, 5);
                }
            }
        }
        proof {
            lemma_whole(mantissa as int, scale as nat, units as int, e as nat);
        }
        match units.checked_mul(factor) {
            Some(scaled) => {
                let integral: u128 = scaled / 10_000;
                let fractional: u128 = scaled % 10_000;
                if integral > u64::MAX as u128 {
                    Err(EngineError::InvalidPrice)
                } else {
                    Ok(Price { integral: integral as u64, fractional: fractional as u64 })
                }
            },
            None => {
                assert(units * factor > u128::MAX);
                assert((units * factor) / 10_000 > u64::MAX);
                Err(EngineError::InvalidPrice)
            },
        }
    }

    /// The whole units of the price.
    pub fn integral(&self) -> (r: u64)
        ensures
            r == self@.integral,
    {
        self.integral
    }

    /// The fractional units of the price.
    pub fn fractional(&self) -> (r: u64)
        ensures
            r == self@.fractional,
    {
        self.fractional
    }

    /// The total order on prices.
    pub fn compare(&self, other: &Price) -> (r: Ordering)
        ensures
            match r {
                Ordering::Less => self@.lt(other@),
                Ordering::Equal => self@ == other@,
                Ordering::Greater => other@.lt(self@),
            },
    {
        if self.integral < other.integral {
            Ordering::Less
        } else if self.integral > other.integral {
            Ordering::Greater
        } else if self.fractional < other.fractional {
            Ordering::Less
        } else if self.fractional > other.fractional {
            Ordering::Greater
        } else {
            Ordering::Equal
        }
    }

    /// Whether `self` is strictly below `other`.
    pub fn less_than(&self, other: &Price) -> (r: bool)
        ensures
            r == self@.lt(other@),
    {
        self.integral < other.integral || (self.integral == other.integral && self.fractional
            < other.fractional)
    }

    /// Whether both prices are the same.
    pub fn same_as(&self, other: &Price) -> (r: bool)
        ensures
            r == (self@ == other@),
            r == (*self == *other),
    {
        self.integral == other.integral && self.fractional == other.fractional
    }
}

/// Whether two decimals stand for the same number.
pub open spec fn same_value(a: Decimal, b: Decimal) -> bool {
    decimal_mantissa(a) * pow(10, decimal_scale(b)) == decimal_mantissa(b) * pow(
        10,
        decimal_scale(a),
    )
}

/// Whether the number that `a` stands for is below the one that `b` stands for.
pub open spec fn value_below(a: Decimal, b: Decimal) -> bool {
    decimal_mantissa(a) * pow(10, decimal_scale(b)) < decimal_mantissa(b) * pow(
        10,
        decimal_scale(a),
    )
}

/// Two prices are the same value exactly when their components agree.
pub proof fn lemma_price_equality(a: Price, b: Price)
    ensures
        (a == b) <==> (a@ == b@),
        (a == b) <==> (a@.integral == b@.integral && a@.fractional == b@.fractional),
{
}

/// The order on prices is a strict total order.
pub proof fn lemma_price_order_total(a: PriceView, b: PriceView, c: PriceView)
    ensures
        !a.lt(a),
        a.lt(b) && b.lt(c) ==> a.lt(c),
        a.lt(b) || a == b || b.lt(a),
        !(a.lt(b) && b.lt(a)),
{
}

/// Decimals that stand for the same number give the same construction
/// result, whatever their scales: the same price, or both are rejected.
pub proof fn lemma_equal_values_equal_prices(
    a: Decimal,
    b: Decimal,
    pa: Result<Price, EngineError>,
    pb: Result<Price, EngineError>,
)
    requires
        same_value(a, b),
        result_view(pa) == price_of(decimal_mantissa(a), decimal_scale(a)),
        result_view(pb) == price_of(decimal_mantissa(b), decimal_scale(b)),
    ensures
        pa == pb,
{
    lemma_units_respect_value(
        decimal_mantissa(a),
        decimal_scale(a),
        decimal_mantissa(b),
        decimal_scale(b),
    );
}

/// Of two decimals that both have a price, the smaller number has the
/// smaller price.
pub proof fn lemma_smaller_value_smaller_price(a: Decimal, b: Decimal, pa: Price, pb: Price)
    requires
        value_below(a, b),
        price_of(decimal_mantissa(a), decimal_scale(a)) == Ok::<PriceView, EngineError>(pa@),
        price_of(decimal_mantissa(b), decimal_scale(b)) == Ok::<PriceView, EngineError>(pb@),
    ensures
        pa@.lt(pb@),
        pa != pb,
{
    lemma_units_respect_order(
        decimal_mantissa(a),
        decimal_scale(a),
        decimal_mantissa(b),
        decimal_scale(b),
    );
}

/// A price that a decimal has counts exactly the decimal's fractional units.
pub proof fn lemma_price_units(mantissa: int, scale: nat)
    requires
        price_of(mantissa, scale) is Ok,
    ensures
        decimal_units(mantissa, scale) == Some(price_of(mantissa, scale)->Ok_0.units()),
        price_of(mantissa, scale)->Ok_0.fractional < PRICE_SCALAR,
        price_of(mantissa, scale)->Ok_0.units() * pow(10, scale) == mantissa * PRICE_SCALAR,
{
    let units = decimal_units(mantissa, scale)->Some_0;
    lemma_pow_positive(10, scale);
    lemma_fundamental_div_mod(mantissa * PRICE_SCALAR, pow(10, scale));
    lemma_mul_is_commutative(units as int, pow(10, scale));
}

/// Equal numbers count the same fractional units, or neither is whole.
pub proof fn lemma_units_respect_value(ma: int, sa: nat, mb: int, sb: nat)
    requires
        ma * pow(10, sb) == mb * pow(10, sa),
    ensures
        decimal_units(ma, sa) == decimal_units(mb, sb),
{
    let pa = pow(10, sa);
    let pb = pow(10, sb);
    lemma_pow_positive(10, sa);
    lemma_pow_positive(10, sb);
    assert((ma >= 0) == (mb >= 0)) by (nonlinear_arith)
        requires
            ma * pb == mb * pa,
            pa > 0,
            pb > 0,
    ;
    assert((ma * PRICE_SCALAR) * pb == (mb * PRICE_SCALAR) * pa) by (nonlinear_arith)
        requires
            ma * pb == mb * pa,
    ;
    if (ma * PRICE_SCALAR) % pa == 0 {
        lemma_whole_transfers(ma * PRICE_SCALAR, pa, mb * PRICE_SCALAR, pb);
    }
    if (mb * PRICE_SCALAR) % pb == 0 {
        lemma_whole_transfers(mb * PRICE_SCALAR, pb, ma * PRICE_SCALAR, pa);
    }
}

/// Of two whole numbers of fractional units, the smaller number counts fewer.
pub proof fn lemma_units_respect_order(ma: int, sa: nat, mb: int, sb: nat)
    requires
        ma * pow(10, sb) < mb * pow(10, sa),
        price_of(ma, sa) is Ok,
        price_of(mb, sb) is Ok,
    ensures
        price_of(ma, sa)->Ok_0.lt(price_of(mb, sb)->Ok_0),
{
    let pa = pow(10, sa);
    let pb = pow(10, sb);
    let ua = price_of(ma, sa)->Ok_0.units() as int;
    let ub = price_of(mb, sb)->Ok_0.units() as int;
    lemma_pow_positive(10, sa);
    lemma_pow_positive(10, sb);
    lemma_price_units(ma, sa);
    lemma_price_units(mb, sb);
    assert(ua < ub) by (nonlinear_arith)
        requires
            ma * pb < mb * pa,
            ua * pa == ma * PRICE_SCALAR,
            ub * pb == mb * PRICE_SCALAR,
            PRICE_SCALAR == 10_000,
            pa > 0,
            pb > 0,
    ;
}

/// If `ua / pa` and `ub / pb` are the same fraction and the first is whole,
/// so is the second, with the same quotient.
proof fn lemma_whole_transfers(ua: int, pa: int, ub: int, pb: int)
    requires
        pa > 0,
        pb > 0,
        ua * pb == ub * pa,
        ua % pa == 0,
    ensures
        ub % pb == 0,
        ub / pb == ua / pa,
{
    let q = ua / pa;
    lemma_fundamental_div_mod(ua, pa);
    assert(ub == q * pb) by (nonlinear_arith)
        requires
            ua == pa * q,
            ua * pb == ub * pa,
            pa > 0,
    ;
    lemma_mod_multiples_basic(q, pb);
    lemma_div_multiples_vanish(q, pb);
    lemma_mul_is_commutative(q, pb);
}

/// A value with a nonzero last digit left after stripping fewer digits than
/// the scale exceeds the resolution by is not a whole number of units.
proof fn lemma_not_whole(mantissa: int, scale: nat, units: int, e: nat)
    requires
        4 < e <= scale,
        units >= 0,
        units % 10 != 0,
        mantissa == units * pow(10, (scale - e) as nat),
    ensures
        (mantissa * PRICE_SCALAR) % pow(10, scale) != 0,
{
    let low = pow(10, (scale - e + 4) as nat);
    let high = pow(10, (e - 4) as nat);
    let rest = pow(10, (e - 5) as nat);
    assert(pow(10, 4) == 10_000) by {
        reveal_with_fuel(pow, 5);
    }
    lemma_pow_adds(10, (scale - e) as nat, 4);
    lemma_pow_adds(10, (scale - e + 4) as nat, (e - 4) as nat);
    lemma_pow_adds(10, 1, (e - 5) as nat);
    lemma_pow1(10);
    lemma_pow_positive(10, (scale - e + 4) as nat);
    lemma_pow_positive(10, (e - 4) as nat);
    lemma_pow_positive(10, scale);
    assert(mantissa * PRICE_SCALAR == units * low) by (nonlinear_arith)
        requires
            mantissa == units * pow(10, (scale - e) as nat),
            low == pow(10, (scale - e) as nat) * pow(10, 4),
            pow(10, 4) == 10_000,
            PRICE_SCALAR == 10_000,
    ;
    assert(pow(10, scale) == low * high);
    assert(high == 10 * rest);
    if (units * low) % (low * high) == 0 {
        let q = (units * low) / (low * high);
        lemma_fundamental_div_mod(units * low, low * high);
        assert(units * low == (low * high) * q);
        assert(units == high * q) by (nonlinear_arith)
            requires
                units * low == (low * high) * q,
                low > 0,
        ;
        assert(units == 10 * (rest * q)) by (nonlinear_arith)
            requires
                units == high * q,
                high == 10 * rest,
        ;
        lemma_mod_multiples_basic(rest * q, 10);
        assert((10 * (rest * q)) % 10 == 0) by {
            lemma_mul_is_commutative(10, rest * q);
        }
        assert(false);
    }
}

/// Dropping a zero last digit moves one factor of ten into the power.
proof fn lemma_strip_digit(units: int, stripped: nat)
    requires
        units >= 0,
        units % 10 == 0,
    ensures
        units * pow(10, stripped) == (units / 10) * pow(10, stripped + 1),
{
    lemma_pow_adds(10, 1, stripped);
    lemma_pow1(10);
    lemma_fundamental_div_mod(units, 10);
    assert(units * pow(10, stripped) == (units / 10) * pow(10, stripped + 1))
        by (nonlinear_arith)
        requires
            units == 10 * (units / 10),
            pow(10, stripped + 1) == 10 * pow(10, stripped),
    ;
}

/// With at most four digits left behind the point, the value is a whole
/// number of units: the stripped mantissa times the missing power of ten.
proof fn lemma_whole(mantissa: int, scale: nat, units: int, e: nat)
    requires
        e <= 4,
        e <= scale,
        units >= 0,
        mantissa == units * pow(10, (scale - e) as nat),
    ensures
        (mantissa * PRICE_SCALAR) % pow(10, scale) == 0,
        (mantissa * PRICE_SCALAR) / pow(10, scale) == units * pow(10, (4 - e) as nat),
        units * pow(10, (4 - e) as nat) >= 0,
{
    let up = pow(10, (4 - e) as nat);
    let whole = pow(10, scale);
    assert(pow(10, 4) == 10_000) by {
        reveal_with_fuel(pow, 5);
    }
    lemma_pow_adds(10, (4 - e) as nat, e);
    lemma_pow_adds(10, (scale - e) as nat, e);
    lemma_pow_positive(10, scale);
    lemma_pow_positive(10, (4 - e) as nat);
    assert(mantissa * PRICE_SCALAR == (units * up) * whole) by (nonlinear_arith)
        requires
            mantissa == units * pow(10, (scale - e) as nat),
            PRICE_SCALAR == up * pow(10, e),
            whole == pow(10, (scale - e) as nat) * pow(10, e),
    ;
    lemma_mod_multiples_basic(units * up, whole);
    lemma_div_multiples_vanish(units * up, whole);
    lemma_mul_is_commutative(units * up, whole);
    lemma_mul_nonnegative(units, up);
}

} // verus!
