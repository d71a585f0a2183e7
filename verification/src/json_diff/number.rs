//! JSON numbers and their comparison as double-precision values.
use vstd::arithmetic::div_mod::{
    lemma_div_denominator, lemma_fundamental_div_mod, lemma_fundamental_div_mod_converse,
};
use vstd::arithmetic::power2::{
    lemma2_to64, lemma2_to64_rest, lemma_pow2_adds, lemma_pow2_pos, lemma_pow2_strictly_increases,
    lemma_pow2_unfold, pow2,
};
use vstd::prelude::*;

verus! {

/// Two to the power 52: the weight of the implicit leading bit of a
/// double's significand.
pub const HIDDEN_BIT: u64 = 0x10_0000_0000_0000;

/// Two to the power 53: every significand is below it.
pub const MANTISSA_LIMIT: u64 = 0x20_0000_0000_0000;

/// Two to the power 63: the sign bit of a double.
pub const SIGN_BIT: u64 = 0x8000_0000_0000_0000;

/// Two to the power 54, less one.  Two doubles are close when they differ
/// by less than this many steps of 2^-106.
pub const CLOSE_STEPS: u128 = 0x3f_ffff_ffff_ffff;

/// A JSON number: a non-negative integer, a negative integer, or a
/// double-precision floating-point number, held as its IEEE 754 bit
/// pattern.
#[derive(Clone, Copy, Debug)]
pub enum Number {
    PosInt(u64),
    NegInt(i64),
    Float(u64),
}

/// The exponent field of a double.
pub open spec fn exponent_field(bits: u64) -> nat {
    ((bits / HIDDEN_BIT) % 2048) as nat
}

/// The fraction field of a double.
pub open spec fn fraction_field(bits: u64) -> nat {
    (bits % HIDDEN_BIT) as nat
}

/// The distance between neighbouring doubles around the integer `n`.
pub open spec fn unit_of(n: nat) -> nat
    decreases n,
{
    if n < MANTISSA_LIMIT {
        1
    } else {
        2 * unit_of(n / 2)
    }
}

/// The integer nearest to `n` that a double can hold; of two that are
/// equally near, the one whose significand is even.
pub open spec fn nearest(n: nat) -> nat {
    let unit = unit_of(n);
    let q = n / unit;
    let r = n % unit;
    if 2 * r > unit || (2 * r == unit && q % 2 == 1) {
        (q + 1) * unit
    } else {
        q * unit
    }
}

impl Number {
    /// A double is finite unless its exponent field is all ones.
    pub open spec fn finite(self) -> bool {
        match self {
            Number::Float(bits) => exponent_field(bits) != 2047,
            _ => true,
        }
    }

    /// A number is well formed when it is finite, and negative where it is
    /// held as a negative integer.
    pub open spec fn wf(self) -> bool {
        match self {
            Number::PosInt(_) => true,
            Number::NegInt(i) => i < 0,
            Number::Float(_) => self.finite(),
        }
    }

    /// Whether the number carries a minus sign.
    pub open spec fn negative(self) -> bool {
        match self {
            Number::PosInt(_) => false,
            Number::NegInt(i) => i < 0,
            Number::Float(bits) => bits >= SIGN_BIT,
        }
    }

    /// The absolute value of the number as a double, in units of 2^-1074
    /// (the smallest positive double).  An integer counts as the double
    /// nearest to it.
    pub open spec fn magnitude(self) -> nat {
        match self {
            Number::PosInt(n) => nearest(n as nat) * pow2(1074),
            Number::NegInt(i) => nearest(
                (if i < 0 {
                    -i
                } else {
                    i as int
                }) as nat,
            ) * pow2(1074),
            Number::Float(bits) => if exponent_field(bits) == 0 {
                fraction_field(bits)
            } else {
                ((HIDDEN_BIT + fraction_field(bits)) * pow2((exponent_field(bits) - 1) as nat)) as nat
            },
        }
    }

    /// The value of the number as a double, in units of 2^-1074.
    pub open spec fn scaled(self) -> int {
        if self.negative() {
            -(self.magnitude() as int)
        } else {
            self.magnitude() as int
        }
    }

    /// Two numbers are close when both are finite and, as doubles, they
    /// differ by less than 2^-52 - 2^-106.  That is the case exactly when
    /// their difference, computed in double precision, is below the
    /// machine epsilon 2^-52 in absolute value.
    pub open spec fn close_to_spec(self, other: Number) -> bool {
        &&& self.finite()
        &&& other.finite()
        &&& self.scaled() - other.scaled() < pow2(1022) - pow2(968)
        &&& other.scaled() - self.scaled() < pow2(1022) - pow2(968)
    }

    /// Two numbers are the same when they are held in the same form and
    /// are equal in that form.  Doubles are equal as IEEE 754 has it: the
    /// two zeros are equal, and a NaN equals nothing.
    pub open spec fn same_as_spec(self, other: Number) -> bool {
        match (self, other) {
            (Number::PosInt(a), Number::PosInt(b)) => a == b,
            (Number::NegInt(a), Number::NegInt(b)) => a == b,
            (Number::Float(a), Number::Float(b)) => {
                &&& !is_nan(a)
                &&& !is_nan(b)
                &&& (a == b || (a % SIGN_BIT == 0 && b % SIGN_BIT == 0))
            },
            _ => false,
        }
    }
}

/// A double is a NaN when its exponent field is all ones and its fraction
/// field is not zero.
pub open spec fn is_nan(bits: u64) -> bool {
    exponent_field(bits) == 2047 && fraction_field(bits) != 0
}

/// A double taken apart: its value is `mantissa` times two to the power
/// `exponent`, in units of 2^-1074.
struct Dyadic {
    negative: bool,
    mantissa: u64,
    exponent: u32,
}

impl Dyadic {
    /// The absolute value, in units of 2^-1074.
    spec fn magnitude(self) -> nat {
        self.mantissa as nat * pow2(self.exponent as nat)
    }

    /// The value, in units of 2^-1074.
    spec fn scaled(self) -> int {
        if self.negative {
            -(self.magnitude() as int)
        } else {
            self.magnitude() as int
        }
    }

    /// The significand is below 2^53, and at least 2^52 unless the
    /// exponent is zero.
    spec fn normal(self) -> bool {
        &&& self.mantissa < MANTISSA_LIMIT
        &&& self.exponent <= 2100
        &&& (self.exponent > 0 ==> self.mantissa >= HIDDEN_BIT)
    }
}

/// Powers of two grow with their exponent.
proof fn lemma_pow2_ordered(a: nat, b: nat)
    requires
        a <= b,
    ensures
        pow2(a) <= pow2(b),
{
    if a < b {
        lemma_pow2_strictly_increases(a, b);
    }
}

/// Two to the power `k`.
fn power_of_two(k: u32) -> (p: u128)
    requires
        k <= 64,
    ensures
        p == pow2(k as nat),
        p <= 0x1_0000_0000_0000_0000,
{
    let mut p: u128 = 1;
    let mut i: u32 = 0;
    proof {
        lemma2_to64();
    }
    while i < k
        invariant
            i <= k <= 64,
            p == pow2(i as nat),
            pow2(64) == 0x1_0000_0000_0000_0000,
        decreases k - i,
    {
        proof {
            lemma_pow2_unfold((i + 1) as nat);
            lemma_pow2_ordered((i + 1) as nat, 64);
        }
        p = p * 2;
        i += 1;
    }
    proof {
        lemma_pow2_ordered(k as nat, 64);
    }
    p
}

/// A finite double, taken apart.
fn decode_float(bits: u64) -> (d: Dyadic)
    requires
        exponent_field(bits) != 2047,
    ensures
        d.normal(),
        d.exponent <= 2045,
        d.negative == Number::Float(bits).negative(),
        d.magnitude() == Number::Float(bits).magnitude(),
{
    let exponent = (bits / HIDDEN_BIT) % 2048;
    let fraction = bits % HIDDEN_BIT;
    let negative = bits >= SIGN_BIT;
    assert(exponent == exponent_field(bits) && fraction == fraction_field(bits));
    if exponent == 0 {
        let d = Dyadic { negative, mantissa: fraction, exponent: 0 };
        assert(d.magnitude() == fraction) by {
            lemma2_to64();
            assert(fraction as nat * 1 == fraction) by (nonlinear_arith);
        }
        d
    } else {
        Dyadic { negative, mantissa: HIDDEN_BIT + fraction, exponent: (exponent - 1) as u32 }
    }
}

/// The double nearest to the integer `n`, taken apart.
fn decode_integer(n: u64, negative: bool) -> (d: Dyadic)
    ensures
        d.normal(),
        d.negative == negative,
        d.magnitude() == nearest(n as nat) * pow2(1074),
{
    if n == 0 {
        proof {
            lemma2_to64();
            assert(0 * pow2(1074) == 0);
        }
        return Dyadic { negative, mantissa: 0, exponent: 0 };
    }
    let mut top = n;
    let mut unit: u64 = 1;
    let mut shift: u32 = 0;
    proof {
        lemma2_to64();
    }
    while top >= MANTISSA_LIMIT
        invariant
            unit == pow2(shift as nat),
            unit > 0,
            top == n / unit,
            top > 0,
            unit_of(n as nat) == unit * unit_of(top as nat),
            shift <= 11,
            unit <= 2048,
            shift > 0 ==> top >= HIDDEN_BIT,
        decreases top,
    {
        proof {
            lemma2_to64();
            lemma_pow2_unfold((shift + 1) as nat);
            lemma_div_denominator(n as int, unit as int, 2);
            lemma_fundamental_div_mod(n as int, unit as int);
            assert(unit * top <= n) by (nonlinear_arith)
                requires
                    n == unit * (n / unit) + n % unit,
                    top == n / unit,
                    0 <= n % unit,
            ;
            assert(unit < 2048) by (nonlinear_arith)
                requires
                    unit * top <= n,
                    top >= 0x20_0000_0000_0000,
                    n < 0x1_0000_0000_0000_0000,
                    unit >= 0,
            ;
            assert(unit * (2 * unit_of((top / 2) as nat)) == (unit * 2) * unit_of(
                (top / 2) as nat,
            )) by (nonlinear_arith);
            if shift >= 11 {
                lemma_pow2_ordered(11, shift as nat);
            }
        }
        top = top / 2;
        unit = unit * 2;
        shift += 1;
    }
    let r = n % unit;
    let round_up = 2 * r > unit || (2 * r == unit && top % 2 == 1);
    let rounded = if round_up {
        top + 1
    } else {
        top
    };
    assert(unit_of(n as nat) == unit) by {
        assert(unit_of(top as nat) == 1);
        assert(unit * unit_of(top as nat) == unit) by (nonlinear_arith)
            requires
                unit_of(top as nat) == 1,
        ;
    }
    assert(nearest(n as nat) == rounded * unit);
    let ghost target = nearest(n as nat) * pow2(1074);
    let mut mantissa = rounded;
    let mut exponent: u32 = shift + 1074;
    proof {
        lemma2_to64_rest();
        lemma_pow2_adds(shift as nat, 1074);
        assert(rounded * unit * pow2(1074) == rounded * (unit * pow2(1074))) by (nonlinear_arith);
    }
    if mantissa == MANTISSA_LIMIT {
        proof {
            lemma_pow2_unfold((exponent + 1) as nat);
            assert(MANTISSA_LIMIT * pow2(exponent as nat) == HIDDEN_BIT * (2 * pow2(
                exponent as nat,
            ))) by (nonlinear_arith);
        }
        mantissa = HIDDEN_BIT;
        exponent += 1;
    }
    let ghost mut doublings: nat = 0;
    while mantissa < HIDDEN_BIT
        invariant
            0 < mantissa < MANTISSA_LIMIT,
            mantissa * pow2(exponent as nat) == target,
            mantissa >= pow2(doublings),
            exponent + doublings == 1074 || mantissa >= HIDDEN_BIT,
            1022 <= exponent <= 1086,
            doublings <= 52,
            pow2(52) == HIDDEN_BIT,
        decreases MANTISSA_LIMIT - mantissa,
    {
        proof {
            lemma_pow2_unfold(exponent as nat);
            lemma_pow2_unfold(doublings + 1);
            assert((mantissa * 2) * pow2((exponent - 1) as nat) == mantissa * (2 * pow2(
                (exponent - 1) as nat,
            ))) by (nonlinear_arith);
            if doublings >= 52 {
                lemma_pow2_ordered(52, doublings);
            }
            if doublings + 1 > 52 {
                lemma_pow2_ordered(52, doublings);
            }
        }
        mantissa = mantissa * 2;
        exponent -= 1;
        proof {
            doublings = doublings + 1;
        }
    }
    Dyadic { negative, mantissa, exponent }
}

/// A number as a double, taken apart; none if it is not finite.
fn decode(number: &Number) -> (d: Option<Dyadic>)
    ensures
        d is Some <==> number.finite(),
        d matches Some(d) ==> {
            &&& d.normal()
            &&& d.negative == number.negative()
            &&& d.magnitude() == number.magnitude()
        },
{
    match number {
        Number::PosInt(n) => Some(decode_integer(*n, false)),
        Number::NegInt(i) => {
            if *i < 0 {
                let n: u64 = (0 - (*i as i128)) as u64;
                Some(decode_integer(n, true))
            } else {
                Some(decode_integer(*i as u64, false))
            }
        },
        Number::Float(bits) => {
            if (*bits / HIDDEN_BIT) % 2048 == 2047 {
                None
            } else {
                Some(decode_float(*bits))
            }
        },
    }
}

/// Two different doubles, one of them of magnitude 2 or more, are at
/// least 2^-52 apart.
proof fn lemma_large_apart(a: Dyadic, b: Dyadic)
    requires
        a.normal(),
        b.normal(),
        a.exponent >= 1023,
        a.negative != b.negative || a.mantissa != b.mantissa || a.exponent != b.exponent,
    ensures
        a.scaled() - b.scaled() >= pow2(1022) || b.scaled() - a.scaled() >= pow2(1022),
{
    let ma = a.mantissa as int;
    let mb = b.mantissa as int;
    let pa = pow2(a.exponent as nat) as int;
    let pb = pow2(b.exponent as nat) as int;
    lemma_pow2_pos(a.exponent as nat);
    lemma_pow2_pos(b.exponent as nat);
    lemma_pow2_ordered(1022, (a.exponent - 1) as nat);
    lemma_pow2_unfold(a.exponent as nat);
    let half = pow2((a.exponent - 1) as nat) as int;
    assert(ma * pa >= half) by (nonlinear_arith)
        requires
            ma >= 0x10_0000_0000_0000,
            pa == 2 * half,
            half > 0,
    ;
    assert(mb * pb >= 0) by (nonlinear_arith)
        requires
            mb >= 0,
            pb > 0,
    ;
    if a.negative != b.negative {
    } else if a.exponent == b.exponent {
        assert(ma * pa - mb * pa >= pa || mb * pa - ma * pa >= pa) by (nonlinear_arith)
            requires
                ma != mb,
                pa > 0,
        ;
    } else if a.exponent > b.exponent {
        lemma_pow2_ordered(b.exponent as nat, (a.exponent - 1) as nat);
        assert(ma * pa - mb * pb >= half) by (nonlinear_arith)
            requires
                ma >= 0x10_0000_0000_0000,
                0 <= mb < 0x20_0000_0000_0000,
                pa == 2 * half,
                0 < pb <= half,
        ;
    } else {
        lemma_pow2_unfold(b.exponent as nat);
        let other = pow2((b.exponent - 1) as nat) as int;
        lemma_pow2_ordered(a.exponent as nat, (b.exponent - 1) as nat);
        lemma_pow2_ordered(1022, (b.exponent - 1) as nat);
        assert(mb * pb - ma * pa >= other) by (nonlinear_arith)
            requires
                mb >= 0x10_0000_0000_0000,
                0 <= ma < 0x20_0000_0000_0000,
                pb == 2 * other,
                0 < pa <= other,
        ;
    }
}

/// Where two doubles lie on a grid of step `unit`, up to a remainder that
/// at most one of them has, their distance is below `steps` units exactly
/// when their grid positions say so.
proof fn lemma_grid_distance(
    a: int,
    qa: int,
    ra: int,
    b: int,
    qb: int,
    rb: int,
    unit: int,
    steps: int,
    opposite: bool,
)
    requires
        unit > 0,
        0 <= ra < unit,
        0 <= rb < unit,
        ra == 0 || rb == 0,
        0 <= qa,
        0 <= qb,
        a == qa * unit + ra,
        b == qb * unit + rb,
    ensures
        opposite ==> (a + b < steps * unit <==> qa + qb < steps),
        !opposite ==> (a - b < steps * unit <==> qa - qb < steps + (if rb > 0 {
            1int
        } else {
            0int
        })),
{
    assert(a + b < steps * unit <==> qa + qb < steps) by (nonlinear_arith)
        requires
            unit > 0,
            0 <= ra < unit,
            0 <= rb < unit,
            ra == 0 || rb == 0,
            a == qa * unit + ra,
            b == qb * unit + rb,
    ;
    let extra = if rb > 0 {
        1int
    } else {
        0int
    };
    assert(a - b < steps * unit <==> qa - qb < steps + extra) by (nonlinear_arith)
        requires
            unit > 0,
            0 <= ra < unit,
            0 <= rb < unit,
            ra == 0 || rb == 0,
            a == qa * unit + ra,
            b == qb * unit + rb,
            extra == (if rb > 0 {
                1int
            } else {
                0int
            }),
    ;
}

/// The remainder that a magnitude leaves on the grid of step 2^-106.
spec fn grid_rest(magnitude: nat) -> nat {
    magnitude % pow2(968)
}

/// The place of a double below 2 on the grid of step 2^-106: the number
/// of whole steps in its magnitude, and whether a remainder is left.
fn on_grid(d: &Dyadic) -> (place: (u128, bool))
    requires
        d.normal(),
        d.exponent <= 1022,
    ensures
        place.0 == d.magnitude() / pow2(968),
        place.1 == (grid_rest(d.magnitude()) != 0),
        place.0 < 0x800_0000_0000_0000_0000_0000_0000,
        place.1 ==> d.magnitude() < pow2(1020),
{
    let ghost unit = pow2(968) as int;
    let ghost low = pow2(d.exponent as nat) as int;
    let ghost m = d.mantissa as int;
    proof {
        lemma_pow2_pos(968);
        lemma_pow2_pos(d.exponent as nat);
        lemma2_to64();
        lemma2_to64_rest();
    }
    if d.exponent >= 968 {
        let up = power_of_two(d.exponent - 968);
        proof {
            let high = up as int;
            lemma_pow2_adds((d.exponent - 968) as nat, 968);
            lemma_pow2_ordered((d.exponent - 968) as nat, 54);
            assert(m * high < 0x20_0000_0000_0000 * 0x40_0000_0000_0000) by (nonlinear_arith)
                requires
                    0 <= m < 0x20_0000_0000_0000,
                    0 < high <= 0x40_0000_0000_0000,
            ;
            assert(m * low == (m * high) * unit + 0) by (nonlinear_arith)
                requires
                    low == high * unit,
            ;
            lemma_fundamental_div_mod_converse(m * low, unit, m * high, 0);
        }
        let whole = (d.mantissa as u128) * up;
        (whole, false)
    } else {
        let down: u32 = 968 - d.exponent;
        proof {
            lemma_pow2_adds(down as nat, d.exponent as nat);
            lemma_pow2_adds(53, d.exponent as nat);
            lemma_pow2_ordered((53 + d.exponent) as nat, 1020);
            assert(m * low < 0x20_0000_0000_0000 * low) by (nonlinear_arith)
                requires
                    0 <= m < 0x20_0000_0000_0000,
                    low > 0,
            ;
            assert(d.magnitude() < pow2(1020));
        }
        if down >= 53 {
            proof {
                lemma_pow2_ordered((53 + d.exponent) as nat, 968);
                lemma_fundamental_div_mod_converse(m * low, unit, 0, m * low);
                assert(m * low != 0 <==> m != 0) by (nonlinear_arith)
                    requires
                        low > 0,
                        m >= 0,
                ;
            }
            (0, d.mantissa != 0)
        } else {
            let cut = power_of_two(down) as u64;
            let whole = d.mantissa / cut;
            let rest = d.mantissa % cut;
            proof {
                let c = cut as int;
                let w = whole as int;
                let r = rest as int;
                lemma_fundamental_div_mod(m, c);
                assert(m * low == w * unit + r * low) by (nonlinear_arith)
                    requires
                        m == c * w + r,
                        unit == c * low,
                ;
                assert(0 <= r * low < unit) by (nonlinear_arith)
                    requires
                        0 <= r < c,
                        unit == c * low,
                        low > 0,
                ;
                lemma_fundamental_div_mod_converse(m * low, unit, w, r * low);
                assert(r * low != 0 <==> r != 0) by (nonlinear_arith)
                    requires
                        low > 0,
                        r >= 0,
                ;
            }
            (whole as u128, rest != 0)
        }
    }
}

/// Whether two doubles differ by less than 2^-52 - 2^-106.
fn dyadic_close(a: &Dyadic, b: &Dyadic) -> (close: bool)
    requires
        a.normal(),
        b.normal(),
    ensures
        close == (a.scaled() - b.scaled() < pow2(1022) - pow2(968) && b.scaled() - a.scaled()
            < pow2(1022) - pow2(968)),
{
    proof {
        lemma_pow2_pos(968);
        lemma_pow2_strictly_increases(968, 1022);
    }
    if a.exponent >= 1023 || b.exponent >= 1023 {
        let same = a.negative == b.negative && a.mantissa == b.mantissa && a.exponent
            == b.exponent;
        proof {
            lemma_pow2_pos(1022);
            if !same {
                if a.exponent >= 1023 {
                    lemma_large_apart(*a, *b);
                } else {
                    lemma_large_apart(*b, *a);
                }
            }
        }
        return same;
    }
    let (qa, fa) = on_grid(a);
    let (qb, fb) = on_grid(b);
    proof {
        lemma_pow2_unfold(1022);
        lemma_pow2_unfold(1021);
        lemma_pow2_ordered(968, 1021);
    }
    if fa && fb {
        return true;
    }
    proof {
        let unit = pow2(968) as int;
        let ma = a.magnitude() as int;
        let mb = b.magnitude() as int;
        let ra = grid_rest(a.magnitude()) as int;
        let rb = grid_rest(b.magnitude()) as int;
        lemma2_to64_rest();
        lemma_pow2_adds(54, 968);
        lemma_fundamental_div_mod(ma, unit);
        lemma_fundamental_div_mod(mb, unit);
        assert(0 <= ra < unit && 0 <= rb < unit);
        assert(ma == (qa as int) * unit + ra) by (nonlinear_arith)
            requires
                ma == unit * (qa as int) + ra,
        ;
        assert(mb == (qb as int) * unit + rb) by (nonlinear_arith)
            requires
                mb == unit * (qb as int) + rb,
        ;
        assert(pow2(1022) - pow2(968) == CLOSE_STEPS * unit) by (nonlinear_arith)
            requires
                pow2(1022) == 0x40_0000_0000_0000 * unit,
                pow2(968) == unit,
                CLOSE_STEPS == 0x3f_ffff_ffff_ffff,
        ;
        lemma_grid_distance(
            ma,
            qa as int,
            ra,
            mb,
            qb as int,
            rb,
            unit,
            CLOSE_STEPS as int,
            a.negative != b.negative,
        );
        lemma_grid_distance(
            mb,
            qb as int,
            rb,
            ma,
            qa as int,
            ra,
            unit,
            CLOSE_STEPS as int,
            a.negative != b.negative,
        );
    }
    if a.negative != b.negative {
        qa + qb < CLOSE_STEPS
    } else {
        let slack_a: u128 = if fb {
            1
        } else {
            0
        };
        let slack_b: u128 = if fa {
            1
        } else {
            0
        };
        qa < qb + CLOSE_STEPS + slack_a && qb < qa + CLOSE_STEPS + slack_b
    }
}

impl Number {
    /// Whether two numbers differ, as doubles, by less than the machine
    /// epsilon.
    pub fn close_to(&self, other: &Number) -> (close: bool)
        ensures
            close == self.close_to_spec(*other),
    {
        match (decode(self), decode(other)) {
            (Some(a), Some(b)) => dyadic_close(&a, &b),
            _ => false,
        }
    }

    /// Whether the number is well formed.
    pub fn is_well_formed(&self) -> (ok: bool)
        ensures
            ok == self.wf(),
    {
        match self {
            Number::PosInt(_) => true,
            Number::NegInt(i) => *i < 0,
            Number::Float(bits) => (*bits / HIDDEN_BIT) % 2048 != 2047,
        }
    }

    /// Whether two numbers are held in the same form and are equal in it.
    pub fn same_as(&self, other: &Number) -> (same: bool)
        ensures
            same == self.same_as_spec(*other),
    {
        match (self, other) {
            (Number::PosInt(a), Number::PosInt(b)) => *a == *b,
            (Number::NegInt(a), Number::NegInt(b)) => *a == *b,
            (Number::Float(a), Number::Float(b)) => {
                let a_nan = (*a / HIDDEN_BIT) % 2048 == 2047 && *a % HIDDEN_BIT != 0;
                let b_nan = (*b / HIDDEN_BIT) % 2048 == 2047 && *b % HIDDEN_BIT != 0;
                !a_nan && !b_nan && (*a == *b || (*a % SIGN_BIT == 0 && *b % SIGN_BIT == 0))
            },
            _ => false,
        }
    }
}

impl PartialEq for Number {
    /// Equality in the same form: see `same_as`.
    fn eq(&self, other: &Number) -> (same: bool) {
        self.same_as(other)
    }
}

impl vstd::std_specs::cmp::PartialEqSpecImpl for Number {
    open spec fn obeys_eq_spec() -> bool {
        true
    }

    open spec fn eq_spec(&self, other: &Number) -> bool {
        self.same_as_spec(*other)
    }
}

} // verus!
