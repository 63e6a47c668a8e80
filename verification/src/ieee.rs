//! Binary floating-point numbers as bit patterns.
//!
//! A finite binary64 number is a whole number of steps of 2^-1074, and a finite
//! binary32 number a whole number of steps of 2^-149. The specifications speak of
//! those whole numbers, so every comparison and rounding below is exact.

use vstd::arithmetic::div_mod::{
    lemma_fundamental_div_mod, lemma_fundamental_div_mod_converse,
};
use vstd::arithmetic::power2::{
    lemma2_to64, lemma2_to64_rest, lemma_pow2_adds, lemma_pow2_pos, lemma_pow2_strictly_increases,
    lemma_pow2_unfold, pow2,
};
use vstd::prelude::*;

verus! {

/// A binary64 number, held as its bit pattern.
#[derive(Clone, Copy, Debug)]
pub struct Double {
    pub bits: u64,
}

/// A binary32 number, held as its bit pattern.
#[derive(Clone, Copy, Debug)]
pub struct Single {
    pub bits: u32,
}

/// 2^52, the weight of the hidden bit of a binary64 number.
pub const HIDDEN64: u64 = 0x10_0000_0000_0000;

/// The exponent field of a binary64 number with all bits set: an infinity.
pub const INFINITE64: u64 = 0x7ff0_0000_0000_0000;

/// 2^63, the sign bit of a binary64 number.
pub const SIGN64: u64 = 0x8000_0000_0000_0000;

/// 2^23, the weight of the hidden bit of a binary32 number.
pub const HIDDEN32: u32 = 0x80_0000;

/// The exponent field of a binary32 number with all bits set: an infinity.
pub const INFINITE32: u32 = 0x7f80_0000;

/// 2^31, the sign bit of a binary32 number.
pub const SIGN32: u32 = 0x8000_0000;

/// The steps that a sign-free bit pattern stands for, where `hidden` is the
/// weight of the hidden bit. An infinity comes out above every finite number.
pub open spec fn steps(magnitude: int, hidden: int) -> int {
    let exponent = magnitude / hidden;
    let fraction = magnitude % hidden;
    if exponent == 0 {
        fraction
    } else {
        (hidden + fraction) * pow2((exponent - 1) as nat)
    }
}

impl Double {
    pub open spec fn magnitude(self) -> int {
        self.bits as int % 0x8000_0000_0000_0000
    }

    pub open spec fn negative(self) -> bool {
        self.bits >= SIGN64
    }

    pub open spec fn is_nan(self) -> bool {
        self.magnitude() > INFINITE64
    }

    pub open spec fn is_finite(self) -> bool {
        self.magnitude() < INFINITE64
    }

    /// The number, in steps of 2^-1074.
    pub open spec fn value(self) -> int {
        if self.negative() {
            -steps(self.magnitude(), HIDDEN64 as int)
        } else {
            steps(self.magnitude(), HIDDEN64 as int)
        }
    }

    /// `self < other`.
    pub open spec fn below(self, other: Double) -> bool {
        !self.is_nan() && !other.is_nan() && self.value() < other.value()
    }

    /// `self <= other`.
    pub open spec fn at_most(self, other: Double) -> bool {
        !self.is_nan() && !other.is_nan() && self.value() <= other.value()
    }

    /// The signed magnitude, whose order is the order of the numbers.
    pub open spec fn key(self) -> int {
        if self.negative() {
            -self.magnitude()
        } else {
            self.magnitude()
        }
    }

    /// The place of a bit pattern in the total order of binary64 numbers:
    /// negative patterns come first, the largest magnitude foremost, and
    /// minus zero stands right before zero.
    pub open spec fn rank(self) -> int {
        if self.negative() {
            -1 - self.magnitude()
        } else {
            self.magnitude()
        }
    }
}

proof fn lemma_pow2_above(e: nat)
    ensures
        pow2(e) >= 1,
{
    lemma_pow2_pos(e);
}

/// A larger bit pattern stands for a larger number.
pub proof fn steps_increase(a: int, b: int, hidden: int)
    requires
        0 <= a < b,
        hidden > 0,
    ensures
        0 <= steps(a, hidden) < steps(b, hidden),
{
    let ea = a / hidden;
    let fa = a % hidden;
    let eb = b / hidden;
    let fb = b % hidden;
    lemma_fundamental_div_mod(a, hidden);
    lemma_fundamental_div_mod(b, hidden);
    assert(0 <= fa < hidden && 0 <= fb < hidden);
    assert(0 <= ea <= eb) by (nonlinear_arith)
        requires
            a == hidden * ea + fa,
            b == hidden * eb + fb,
            0 <= fa < hidden,
            0 <= fb < hidden,
            0 <= a < b,
    ;
    if ea > 0 {
        lemma_pow2_above((ea - 1) as nat);
        let p = pow2((ea - 1) as nat) as int;
        assert((hidden + fa) * p >= 0) by (nonlinear_arith)
            requires
                hidden + fa >= 0,
                p >= 1,
        ;
    }
    if ea == eb {
        assert(fa < fb);
        if ea > 0 {
            let p = pow2((ea - 1) as nat) as int;
            assert((hidden + fa) * p < (hidden + fb) * p) by (nonlinear_arith)
                requires
                    fa < fb,
                    p >= 1,
            ;
        }
    } else {
        let q = pow2((eb - 1) as nat) as int;
        lemma_pow2_above((eb - 1) as nat);
        assert((hidden + fb) * q >= hidden * q) by (nonlinear_arith)
            requires
                fb >= 0,
                q >= 1,
        ;
        if ea == 0 {
            assert(hidden * q >= hidden) by (nonlinear_arith)
                requires
                    hidden > 0,
                    q >= 1,
            ;
        } else {
            let p = pow2((ea - 1) as nat) as int;
            lemma_pow2_unfold(ea as nat);
            if ea < eb - 1 {
                lemma_pow2_strictly_increases(ea as nat, (eb - 1) as nat);
            }
            assert(2 * p <= q);
            assert((hidden + fa) * p < hidden * q) by (nonlinear_arith)
                requires
                    2 * p <= q,
                    p >= 1,
                    0 <= fa < hidden,
            ;
        }
    }
}

/// The order of the keys is the order of the numbers.
pub proof fn key_orders(a: Double, b: Double)
    ensures
        a.value() < b.value() <==> a.key() < b.key(),
        a.value() == b.value() <==> a.key() == b.key(),
{
    let h = HIDDEN64 as int;
    let ma = a.magnitude();
    let mb = b.magnitude();
    assert(steps(0, h) == 0);
    if ma < mb {
        steps_increase(ma, mb, h);
    }
    if mb < ma {
        steps_increase(mb, ma, h);
    }
    if ma > 0 {
        steps_increase(0, ma, h);
    }
    if mb > 0 {
        steps_increase(0, mb, h);
    }
}

impl Double {
    fn signed_key(self) -> (r: i64)
        ensures
            r == self.key(),
    {
        if self.bits >= SIGN64 {
            -((self.bits - SIGN64) as i64)
        } else {
            self.bits as i64
        }
    }

    pub fn nan(self) -> (r: bool)
        ensures
            r == self.is_nan(),
    {
        if self.bits >= SIGN64 {
            self.bits - SIGN64 > INFINITE64
        } else {
            self.bits > INFINITE64
        }
    }

    pub fn less(self, other: Double) -> (r: bool)
        ensures
            r == self.below(other),
    {
        proof {
            key_orders(self, other);
        }
        !self.nan() && !other.nan() && self.signed_key() < other.signed_key()
    }

    pub fn less_or_same(self, other: Double) -> (r: bool)
        ensures
            r == self.at_most(other),
    {
        proof {
            key_orders(self, other);
        }
        !self.nan() && !other.nan() && self.signed_key() <= other.signed_key()
    }

    pub fn total_rank(self) -> (r: i64)
        ensures
            r == self.rank(),
    {
        if self.bits >= SIGN64 {
            -1 - ((self.bits - SIGN64) as i64)
        } else {
            self.bits as i64
        }
    }
}

impl PartialEq for Double {
    fn eq(&self, other: &Double) -> (r: bool) {
        proof {
            key_orders(*self, *other);
        }
        !self.nan() && !other.nan() && self.signed_key() == other.signed_key()
    }
}

impl vstd::std_specs::cmp::PartialEqSpecImpl for Double {
    open spec fn obeys_eq_spec() -> bool {
        true
    }

    open spec fn eq_spec(&self, other: &Double) -> bool {
        !self.is_nan() && !other.is_nan() && self.value() == other.value()
    }
}


pub open spec fn clamped(x: int, low: int, high: int) -> int {
    if x < low {
        low
    } else if x > high {
        high
    } else {
        x
    }
}

/// How many low bits of `n` lie below its `width` leading ones.
pub open spec fn excess(n: nat, width: nat) -> nat
    decreases n,
{
    if n < pow2(width) || n == 0 {
        0
    } else {
        1 + excess(n / 2, width)
    }
}

/// `n` rounded to `width` significant bits, to the nearest and on a tie to even.
/// This is how binary64 (with 53 bits) and binary32 (with 24) round a sum, a
/// difference or a product that stays in range.
pub open spec fn nearest(n: nat, width: nat) -> nat {
    let unit = pow2(excess(n, width));
    let low = n / unit;
    let left = n % unit;
    if 2 * left > unit || (2 * left == unit && low % 2 == 1) {
        (low + 1) * unit
    } else {
        low * unit
    }
}

/// `n / unit`, rounded to the nearest whole number and on a tie upwards.
pub open spec fn half_up(n: nat, unit: nat) -> nat {
    (2 * n + unit) / (2 * unit)
}

impl Double {
    /// The number without its fraction, as a 64-bit integer: what lies outside is
    /// cut to the nearer end, and a NaN gives 0.
    pub open spec fn whole(self) -> int {
        let size = steps(self.magnitude(), HIDDEN64 as int) / pow2(1074) as int;
        if self.is_nan() {
            0
        } else {
            clamped(
                if self.negative() {
                    -size
                } else {
                    size
                },
                i64::MIN as int,
                i64::MAX as int,
            )
        }
    }

    /// Ten times the number (as a binary64 product), rounded to a whole number with
    /// ties away from zero and cut to 32 bits; a NaN gives 0.
    pub open spec fn tenths(self) -> int {
        let product = nearest((10 * steps(self.magnitude(), HIDDEN64 as int)) as nat, 53);
        let size = half_up(product, pow2(1074)) as int;
        if self.is_nan() {
            0
        } else {
            clamped(
                if self.negative() {
                    -size
                } else {
                    size
                },
                i32::MIN as int,
                i32::MAX as int,
            )
        }
    }
}

proof fn lemma_scale_down(n: int, a: nat, b: nat)
    requires
        n >= 0,
    ensures
        a >= b ==> (n * pow2(a)) / pow2(b) as int == n * pow2((a - b) as nat) && (n * pow2(a))
            % pow2(b) as int == 0,
        a < b ==> (n * pow2(a)) / pow2(b) as int == n / pow2((b - a) as nat) as int && (n * pow2(
            a,
        )) % pow2(b) as int == (n % pow2((b - a) as nat) as int) * pow2(a),
{
    lemma_pow2_pos(a);
    lemma_pow2_pos(b);
    let pa = pow2(a) as int;
    let pb = pow2(b) as int;
    if a >= b {
        let d = (a - b) as nat;
        lemma_pow2_adds(d, b);
        let pd = pow2(d) as int;
        assert(n * pa == pb * (n * pd) + 0) by (nonlinear_arith)
            requires
                pa == pd * pb,
        ;
        lemma_fundamental_div_mod_converse(n * pa, pb, n * pd, 0);
    } else {
        let d = (b - a) as nat;
        lemma_pow2_adds(d, a);
        lemma_pow2_pos(d);
        let pd = pow2(d) as int;
        let q = n / pd;
        let r = n % pd;
        lemma_fundamental_div_mod(n, pd);
        assert(n * pa == pb * q + r * pa) by (nonlinear_arith)
            requires
                pb == pd * pa,
                n == pd * q + r,
        ;
        assert(0 <= r * pa < pb) by (nonlinear_arith)
            requires
                pb == pd * pa,
                0 <= r < pd,
                pa >= 1,
        ;
        lemma_fundamental_div_mod_converse(n * pa, pb, q, r * pa);
    }
}

/// A power of two.
fn power(k: u32) -> (r: u128)
    requires
        k <= 127,
    ensures
        r == pow2(k as nat),
{
    let mut r: u128 = 1;
    let mut i: u32 = 0;
    proof {
        lemma2_to64();
    }
    while i < k
        invariant
            i <= k <= 127,
            r == pow2(i as nat),
        decreases k - i,
    {
        proof {
            lemma_pow2_unfold((i + 1) as nat);
            if i + 1 < 127 {
                lemma_pow2_strictly_increases((i + 1) as nat, 127);
            }
            lemma_pow2_127();
        }
        r = r * 2;
        i = i + 1;
    }
    r
}

proof fn lemma_pow2_127()
    ensures
        pow2(127) == 0x8000_0000_0000_0000_0000_0000_0000_0000,
{
    lemma2_to64();
    lemma2_to64_rest();
    lemma_pow2_adds(63, 64);
    assert(0x8000_0000_0000_0000 * 0x1_0000_0000_0000_0000
        == 0x8000_0000_0000_0000_0000_0000_0000_0000int);
}

impl Double {
    /// `x as i64`.
    pub fn to_whole(self) -> (r: i64)
        ensures
            r == self.whole(),
    {
        if self.nan() {
            return 0;
        }
        let negative = self.bits >= SIGN64;
        let magnitude: u64 = if negative {
            self.bits - SIGN64
        } else {
            self.bits
        };
        let exponent: u64 = magnitude / HIDDEN64;
        let fraction: u64 = magnitude % HIDDEN64;
        let significand: u64 = HIDDEN64 + fraction;
        proof {
            lemma2_to64();
            lemma2_to64_rest();
            lemma_pow2_pos(1074);
        }
        if exponent < 1023 {
            proof {
                lemma_small(magnitude as int, 1023);
                let size = steps(magnitude as int, HIDDEN64 as int);
                lemma_fundamental_div_mod_converse(size, pow2(1074) as int, 0, size);
            }
            return 0;
        }
        let ghost e = (exponent - 1) as nat;
        if exponent >= 1086 {
            proof {
                lemma_scale_down(significand as int, e, 1074);
                let d = (e - 1074) as nat;
                if d > 11 {
                    lemma_pow2_strictly_increases(11, d);
                }
                assert(significand * pow2(d) >= 0x10_0000_0000_0000 * 0x800) by (nonlinear_arith)
                    requires
                        significand >= 0x10_0000_0000_0000,
                        pow2(d) >= 0x800,
                ;
            }
            return if negative {
                i64::MIN
            } else {
                i64::MAX
            };
        }
        let size: u64 = if exponent >= 1075 {
            let k: u32 = (exponent - 1075) as u32;
            let factor: u128 = power(k);
            proof {
                lemma_scale_down(significand as int, e, 1074);
                if k < 10 {
                    lemma_pow2_strictly_increases(k as nat, 10);
                }
                assert(significand * factor <= 0x20_0000_0000_0000 * 0x400) by (nonlinear_arith)
                    requires
                        significand <= 0x20_0000_0000_0000,
                        factor <= 0x400,
                ;
                assert(significand * factor < 0x20_0000_0000_0000 * 0x400) by (nonlinear_arith)
                    requires
                        significand < 0x20_0000_0000_0000,
                        1 <= factor <= 0x400,
                ;
            }
            (significand as u128 * factor) as u64
        } else {
            let k: u32 = (1075 - exponent) as u32;
            let divisor: u128 = power(k);
            proof {
                lemma_scale_down(significand as int, e, 1074);
                lemma_pow2_pos(k as nat);
                assert(0 <= significand as int / divisor as int <= significand)
                    by (nonlinear_arith)
                    requires
                        divisor >= 1,
                        significand >= 0,
                ;
            }
            (significand as u128 / divisor) as u64
        };
        if negative {
            -(size as i64)
        } else {
            size as i64
        }
    }
}

/// A pattern whose exponent field lies below `bound` stands for less than
/// 2^(51 + bound) steps.
proof fn lemma_small(magnitude: int, bound: nat)
    requires
        0 <= magnitude,
        bound >= 2,
        magnitude / (HIDDEN64 as int) < bound,
    ensures
        0 <= steps(magnitude, HIDDEN64 as int) < pow2((51 + bound) as nat),
{
    lemma2_to64();
    lemma2_to64_rest();
    let e = magnitude / HIDDEN64 as int;
    let f = magnitude % HIDDEN64 as int;
    let top = (bound - 2) as nat;
    lemma_pow2_adds(53, top);
    assert(53 + top == 51 + bound);
    lemma_pow2_pos(top);
    let pt = pow2(top) as int;
    if e <= 1 {
        assert(0x20_0000_0000_0000 * pt >= 0x20_0000_0000_0000) by (nonlinear_arith)
            requires
                pt >= 1,
        ;
        if e == 1 {
            assert((HIDDEN64 + f) * pow2((e - 1) as nat) == HIDDEN64 + f) by (nonlinear_arith)
                requires
                    pow2((e - 1) as nat) == 1,
            ;
        }
    } else {
        let d = (e - 1) as nat;
        lemma_pow2_pos(d);
        if d < top {
            lemma_pow2_strictly_increases(d, top);
        }
        let pd = pow2(d) as int;
        assert(0 <= (0x10_0000_0000_0000 + f) * pd < 0x20_0000_0000_0000 * pt) by (nonlinear_arith)
            requires
                0 <= f < 0x10_0000_0000_0000,
                1 <= pd <= pt,
        ;
    }
}

/// Twice a number that fills its bits has one bit more to drop.
proof fn lemma_excess_scaled(n: nat, j: nat, width: nat)
    requires
        n >= pow2(width),
    ensures
        excess(n * pow2(j), width) == excess(n, width) + j,
    decreases j,
{
    lemma2_to64();
    lemma_pow2_pos(width);
    if j > 0 {
        let i = (j - 1) as nat;
        lemma_excess_scaled(n, i, width);
        lemma_pow2_unfold(j);
        lemma_pow2_pos(i);
        let p = pow2(i) as int;
        assert(n * pow2(j) == 2 * (n * p)) by (nonlinear_arith)
            requires
                pow2(j) == 2 * p,
        ;
        assert(n * p >= n) by (nonlinear_arith)
            requires
                p >= 1,
        ;
    } else {
        assert(n * pow2(0) == n) by (nonlinear_arith)
            requires
                pow2(0) == 1,
        ;
    }
}

/// Rounding commutes with scaling by a power of two.
proof fn lemma_nearest_scaled(n: nat, j: nat, width: nat)
    requires
        n >= pow2(width),
    ensures
        nearest(n * pow2(j), width) == nearest(n, width) * pow2(j),
{
    lemma_excess_scaled(n, j, width);
    let k = excess(n, width);
    let pk = pow2(k) as int;
    let pj = pow2(j) as int;
    lemma_pow2_pos(k);
    lemma_pow2_pos(j);
    lemma_pow2_adds(k, j);
    lemma_scale_down(n as int, j, k + j);
    let low = n as int / pk;
    let left = n as int % pk;
    let unit = pk * pj;
    assert(k + j - j == k);
    if k > 0 {
        assert((n * pj) / unit == low && (n * pj) % unit == left * pj);
    } else {
        lemma2_to64();
        assert(pk == 1);
        assert(unit == pj);
        assert(low == n && left == 0);
        assert(left * pj == 0) by (nonlinear_arith)
            requires
                left == 0,
        ;
    }
    assert((2 * left > pk) == (2 * (left * pj) > unit)) by (nonlinear_arith)
        requires
            unit == pk * pj,
            pj >= 1,
    ;
    assert((2 * left == pk) == (2 * (left * pj) == unit)) by (nonlinear_arith)
        requires
            unit == pk * pj,
            pj >= 1,
    ;
    assert((low + 1) * unit == ((low + 1) * pk) * pj) by (nonlinear_arith)
        requires
            unit == pk * pj,
    ;
    assert(low * unit == (low * pk) * pj) by (nonlinear_arith)
        requires
            unit == pk * pj,
    ;
}

proof fn lemma_nearest_bound(n: nat, width: nat)
    ensures
        nearest(n, width) <= 2 * n,
{
    let unit = pow2(excess(n, width)) as int;
    lemma_pow2_pos(excess(n, width));
    let low = n as int / unit;
    let left = n as int % unit;
    lemma_fundamental_div_mod(n as int, unit);
    assert(low >= 0) by (nonlinear_arith)
        requires
            low == n as int / unit,
            unit >= 1,
            n >= 0,
    ;
    assert(low * unit <= n) by (nonlinear_arith)
        requires
            n == unit * low + left,
            left >= 0,
    ;
    if 2 * left >= unit && left > 0 {
        assert((low + 1) * unit <= 2 * n) by (nonlinear_arith)
            requires
                n == unit * low + left,
                2 * left >= unit,
                low >= 0,
                unit >= 1,
        ;
    }
}

proof fn lemma_half_up_scaled(n: nat, a: nat)
    requires
        a < 1074,
    ensures
        half_up(n * pow2(a), pow2(1074)) == (2 * n + pow2((1074 - a) as nat)) / pow2(
            (1075 - a) as nat,
        ),
{
    let s = (1074 - a) as nat;
    lemma_pow2_adds(s, a);
    lemma_pow2_unfold(1075);
    lemma_pow2_adds(s + 1, a);
    let pa = pow2(a) as int;
    let ps = pow2(s) as int;
    assert(2 * (n * pa) + ps * pa == (2 * n + ps) * pa) by (nonlinear_arith);
    lemma_scale_down(2 * n + ps, a, 1075);
}

/// Ten times a significand drops three bits, or four.
proof fn lemma_ten_excess(ten: nat)
    requires
        0x80_0000_0000_0000 <= ten < 0x200_0000_0000_0000,
    ensures
        ten < 0x100_0000_0000_0000 ==> excess(ten, 53) == 3,
        ten >= 0x100_0000_0000_0000 ==> excess(ten, 53) == 4,
        pow2(3) == 8,
        pow2(4) == 16,
        ten >= pow2(53),
{
    lemma2_to64();
    lemma2_to64_rest();
    if ten < 0x100_0000_0000_0000 {
        lemma_excess_value(ten, 56, 53);
    } else {
        lemma_excess_value(ten, 57, 53);
    }
}

impl Double {
    /// `(x * 10.0).round() as i32`.
    pub fn to_tenths(self) -> (r: i32)
        ensures
            r == self.tenths(),
    {
        if self.nan() {
            return 0;
        }
        let negative = self.bits >= SIGN64;
        let magnitude: u64 = if negative {
            self.bits - SIGN64
        } else {
            self.bits
        };
        let exponent: u64 = magnitude / HIDDEN64;
        let fraction: u64 = magnitude % HIDDEN64;
        let ghost size = steps(magnitude as int, HIDDEN64 as int);
        if exponent < 1000 {
            proof {
                lemma2_to64();
                lemma_small(magnitude as int, 1000);
                lemma_nearest_bound((10 * size) as nat, 53);
                lemma_pow2_adds(1051, 23);
                let n = nearest((10 * size) as nat, 53);
                let unit = pow2(1074) as int;
                assert(2 * n + unit < 2 * unit);
                lemma_fundamental_div_mod_converse(2 * n + unit, 2 * unit, 0, 2 * n + unit);
            }
            return 0;
        }
        let ten: u64 = 10 * (HIDDEN64 + fraction);
        let wide = ten >= 0x100_0000_0000_0000;
        let unit: u64 = if wide {
            16
        } else {
            8
        };
        let dropped: u32 = if wide {
            4
        } else {
            3
        };
        let low: u64 = ten / unit;
        let left: u64 = ten % unit;
        let rounded: u64 = if 2 * left > unit || (2 * left == unit && low % 2 == 1) {
            low + 1
        } else {
            low
        };
        let ghost e = (exponent - 1) as nat;
        let a: u64 = exponent - 1 + dropped as u64;
        proof {
            lemma_ten_excess(ten as nat);
            assert(nearest(ten as nat, 53) == rounded * unit);
            lemma_nearest_scaled(ten as nat, e, 53);
            assert(10 * size == ten * pow2(e)) by (nonlinear_arith)
                requires
                    size == (HIDDEN64 + fraction) * pow2(e),
                    ten == 10 * (HIDDEN64 + fraction),
            ;
            lemma_pow2_adds(dropped as nat, e);
            assert((rounded * unit) * pow2(e) == rounded * pow2(a as nat)) by (nonlinear_arith)
                requires
                    pow2(a as nat) == unit * pow2(e),
            ;
            assert(nearest((10 * size) as nat, 53) == rounded * pow2(a as nat));
        }
        let limit: u128 = 0x8000_0000;
        let count: u128 = if a >= 1074 {
            proof {
                let d = (a - 1074) as nat;
                let unit1074 = pow2(1074) as int;
                let t = rounded * pow2(d);
                lemma_pow2_pos(1074);
                lemma_pow2_pos(d);
                lemma_pow2_adds(d, 1074);
                assert(rounded * pow2(a as nat) == t * unit1074) by (nonlinear_arith)
                    requires
                        pow2(a as nat) == pow2(d) * unit1074,
                        t == rounded * pow2(d),
                ;
                assert(2 * (t * unit1074) + unit1074 == (2 * unit1074) * t + unit1074)
                    by (nonlinear_arith);
                lemma_fundamental_div_mod_converse(
                    2 * (t * unit1074) + unit1074,
                    2 * unit1074,
                    t,
                    unit1074,
                );
                assert(t >= rounded) by (nonlinear_arith)
                    requires
                        t == rounded * pow2(d),
                        pow2(d) >= 1,
                        rounded >= 0,
                ;
            }
            limit
        } else {
            let s: u32 = (1074 - a) as u32;
            let half: u128 = power(s);
            let whole: u128 = power(s + 1);
            proof {
                lemma2_to64();
                lemma_half_up_scaled(rounded as nat, a as nat);
                lemma_pow2_pos((s + 1) as nat);
                if s < 72 {
                    lemma_pow2_strictly_increases(s as nat, 72);
                }
                lemma_pow2_adds(64, 8);
                lemma2_to64_rest();
                assert(0x1_0000_0000_0000_0000 * 0x100 == 0x100_0000_0000_0000_0000int);
            }
            (2 * (rounded as u128) + half) / whole
        };
        if negative {
            if count >= limit {
                i32::MIN
            } else {
                -(count as i32)
            }
        } else if count >= limit {
            i32::MAX
        } else {
            count as i32
        }
    }
}

/// `n / 2`, rounded to the nearest whole number and on a tie to even.
pub open spec fn half_even(n: int) -> int {
    if n % 2 == 0 || (n / 2) % 2 == 0 {
        n / 2
    } else {
        n / 2 + 1
    }
}

pub open spec fn distance(a: int, b: int) -> nat {
    if a < b {
        (b - a) as nat
    } else {
        (a - b) as nat
    }
}

impl Single {
    pub open spec fn magnitude(self) -> int {
        self.bits as int % 0x8000_0000
    }

    pub open spec fn negative(self) -> bool {
        self.bits >= SIGN32
    }

    pub open spec fn is_nan(self) -> bool {
        self.magnitude() > INFINITE32
    }

    pub open spec fn is_finite(self) -> bool {
        self.magnitude() < INFINITE32
    }

    /// The number, in steps of 2^-149.
    pub open spec fn value(self) -> int {
        if self.negative() {
            -steps(self.magnitude(), HIDDEN32 as int)
        } else {
            steps(self.magnitude(), HIDDEN32 as int)
        }
    }

    /// `self <= other`.
    pub open spec fn at_most(self, other: Single) -> bool {
        !self.is_nan() && !other.is_nan() && self.value() <= other.value()
    }

    /// `(self - other).abs() < 1.0`: the rounded difference is below 2^149 steps.
    pub open spec fn near(self, other: Single) -> bool {
        self.is_finite() && other.is_finite() && nearest(
            distance(self.value(), other.value()),
            24,
        ) < pow2(149)
    }

    /// The half of a number, where a half step rounds to even.
    pub open spec fn half_value(self) -> int {
        if self.is_finite() {
            half_even(self.value())
        } else {
            self.value()
        }
    }

    pub open spec fn key(self) -> int {
        if self.negative() {
            -self.magnitude()
        } else {
            self.magnitude()
        }
    }
}

/// The order of the keys is the order of the numbers.
pub proof fn single_key_orders(a: Single, b: Single)
    ensures
        a.value() < b.value() <==> a.key() < b.key(),
        a.value() == b.value() <==> a.key() == b.key(),
{
    let h = HIDDEN32 as int;
    let ma = a.magnitude();
    let mb = b.magnitude();
    assert(steps(0, h) == 0);
    if ma < mb {
        steps_increase(ma, mb, h);
    }
    if mb < ma {
        steps_increase(mb, ma, h);
    }
    if ma > 0 {
        steps_increase(0, ma, h);
    }
    if mb > 0 {
        steps_increase(0, mb, h);
    }
}

impl Single {
    fn sign_free(self) -> (r: u32)
        ensures
            r == self.magnitude(),
    {
        if self.bits >= SIGN32 {
            self.bits - SIGN32
        } else {
            self.bits
        }
    }

    fn signed_key(self) -> (r: i32)
        ensures
            r == self.key(),
    {
        if self.bits >= SIGN32 {
            -((self.bits - SIGN32) as i32)
        } else {
            self.bits as i32
        }
    }

    pub fn nan(self) -> (r: bool)
        ensures
            r == self.is_nan(),
    {
        self.sign_free() > INFINITE32
    }

    pub fn finite(self) -> (r: bool)
        ensures
            r == self.is_finite(),
    {
        self.sign_free() < INFINITE32
    }

    pub fn less_or_same(self, other: Single) -> (r: bool)
        ensures
            r == self.at_most(other),
    {
        proof {
            single_key_orders(self, other);
        }
        !self.nan() && !other.nan() && self.signed_key() <= other.signed_key()
    }

    /// `self / 2.0`.
    pub fn half(self) -> (r: Single)
        ensures
            r.is_nan() == self.is_nan(),
            r.is_finite() == self.is_finite(),
            !self.is_nan() ==> r.value() == self.half_value(),
    {
        let magnitude: u32 = self.sign_free();
        if magnitude >= INFINITE32 {
            return self;
        }
        let halved: u32 = if magnitude >= 2 * HIDDEN32 {
            proof {
                let h = HIDDEN32 as int;
                let e = magnitude as int / h;
                let f = magnitude as int % h;
                let rest = magnitude as int - h;
                lemma_fundamental_div_mod(magnitude as int, h);
                lemma_fundamental_div_mod_converse(rest, h, e - 1, f);
                lemma_pow2_unfold((e - 1) as nat);
                let p = pow2((e - 2) as nat) as int;
                assert((h + f) * pow2((e - 1) as nat) == 2 * ((h + f) * p)) by (nonlinear_arith)
                    requires
                        pow2((e - 1) as nat) == 2 * p,
                ;
            }
            magnitude - HIDDEN32
        } else {
            let floor: u32 = magnitude / 2;
            let halved: u32 = if magnitude % 2 == 0 || floor % 2 == 0 {
                floor
            } else {
                floor + 1
            };
            proof {
                lemma_step_patterns(magnitude as int);
                lemma_step_patterns(halved as int);
            }
            halved
        };
        if self.bits >= SIGN32 {
            Single { bits: SIGN32 + halved }
        } else {
            Single { bits: halved }
        }
    }

    /// The same number as a binary64 number.
    pub fn widen(self) -> (r: Double)
        ensures
            r.is_nan() == self.is_nan(),
            r.is_finite() == self.is_finite(),
            self.is_finite() ==> r.value() == self.value() * pow2(925),
            !self.is_nan() && !self.is_finite() ==> r.magnitude() == INFINITE64 && r.negative()
                == self.negative(),
    {
        let magnitude: u32 = self.sign_free();
        let exponent: u32 = magnitude / HIDDEN32;
        let fraction: u32 = magnitude % HIDDEN32;
        let wide: u64 = if magnitude >= INFINITE32 {
            INFINITE64 + fraction as u64 * 0x2000_0000
        } else if exponent > 0 {
            proof {
                lemma_widened(exponent as int, fraction as int);
            }
            (exponent as u64 + 896) * HIDDEN64 + fraction as u64 * 0x2000_0000
        } else {
            widen_fraction(fraction)
        };
        proof {
            let narrow = steps(magnitude as int, HIDDEN32 as int);
            assert((-narrow) * pow2(925) == -(narrow * pow2(925))) by (nonlinear_arith);
        }
        if self.bits >= SIGN32 {
            Double { bits: SIGN64 + wide }
        } else {
            Double { bits: wide }
        }
    }
}

/// The binary64 pattern of so many binary32 steps.
fn widen_fraction(fraction: u32) -> (r: u64)
    requires
        fraction < HIDDEN32,
    ensures
        r < INFINITE64,
        steps(r as int, HIDDEN64 as int) == fraction * pow2(925),
{
    if fraction == 0 {
        return 0;
    }
    let mut scaled: u32 = fraction;
    let mut shift: u64 = 0;
    proof {
        lemma2_to64();
    }
    while scaled < HIDDEN32
        invariant
            0 < fraction < HIDDEN32,
            0 < scaled < 2 * HIDDEN32,
            scaled == fraction * pow2(shift as nat),
            shift <= 23,
            pow2(shift as nat) <= scaled,
        decreases 2 * HIDDEN32 - scaled,
    {
        proof {
            lemma_pow2_unfold((shift + 1) as nat);
            assert(fraction * pow2((shift + 1) as nat) == 2 * (fraction * pow2(shift as nat)))
                by (nonlinear_arith)
                requires
                    pow2((shift + 1) as nat) == 2 * pow2(shift as nat),
            ;
            if shift >= 23 {
                lemma2_to64();
            }
        }
        scaled = scaled * 2;
        shift = shift + 1;
    }
    let pattern: u64 = (897 - shift) * HIDDEN64 + (scaled - HIDDEN32) as u64 * 0x2000_0000;
    proof {
        let h = HIDDEN64 as int;
        let f = (scaled - HIDDEN32) * 0x2000_0000;
        lemma_fundamental_div_mod_converse(pattern as int, h, 897 - shift, f);
        let e = (896 - shift) as nat;
        lemma_pow2_adds(shift as nat, e);
        lemma_pow2_adds(29, 896);
        let ps = pow2(shift as nat) as int;
        let pe = pow2(e) as int;
        lemma2_to64();
        assert((h + f) * pe == fraction * pow2(925)) by (nonlinear_arith)
            requires
                h + f == scaled * 0x2000_0000,
                scaled == fraction * ps,
                pow2(896) == ps * pe,
                pow2(925) == 0x2000_0000 * pow2(896),
        ;
    }
    pattern
}

/// Patterns below twice the hidden bit stand for as many steps.
proof fn lemma_step_patterns(magnitude: int)
    requires
        0 <= magnitude < 2 * HIDDEN32,
    ensures
        steps(magnitude, HIDDEN32 as int) == magnitude,
{
    lemma2_to64();
    let h = HIDDEN32 as int;
    let e = magnitude / h;
    let f = magnitude % h;
    if e > 0 {
        assert((h + f) * pow2((e - 1) as nat) == h + f) by (nonlinear_arith)
            requires
                pow2((e - 1) as nat) == 1,
        ;
    }
}

/// A binary32 pattern with a hidden bit and its binary64 counterpart.
proof fn lemma_widened(exponent: int, fraction: int)
    requires
        0 < exponent < 255,
        0 <= fraction < HIDDEN32,
    ensures
        steps((exponent + 896) * HIDDEN64 + fraction * 0x2000_0000, HIDDEN64 as int) == steps(
            exponent * HIDDEN32 + fraction,
            HIDDEN32 as int,
        ) * pow2(925),
{
    lemma2_to64();
    let h = HIDDEN64 as int;
    let g = HIDDEN32 as int;
    let f = fraction * 0x2000_0000;
    let wide = (exponent + 896) * h + f;
    let narrow = exponent * g + fraction;
    lemma_fundamental_div_mod_converse(wide, h, exponent + 896, f);
    lemma_fundamental_div_mod_converse(narrow, g, exponent, fraction);
    let e = (exponent - 1) as nat;
    lemma_pow2_adds(e, 896);
    lemma_pow2_adds(29, 896);
    assert(e + 896 == exponent + 895);
    let pe = pow2(e) as int;
    let p = pow2(896) as int;
    let m = g + fraction;
    assert(h + f == m * 0x2000_0000);
    assert((m * 0x2000_0000) * (pe * p) == (m * pe) * (0x2000_0000 * p)) by (nonlinear_arith);
}

proof fn lemma_excess_value(n: nat, k: nat, width: nat)
    requires
        1 <= width <= k,
        pow2((k - 1) as nat) <= n < pow2(k),
    ensures
        excess(n, width) == k - width,
    decreases k,
{
    lemma_pow2_pos((k - 1) as nat);
    if k > width {
        if width < k - 1 {
            lemma_pow2_strictly_increases(width, (k - 1) as nat);
        }
        lemma_pow2_unfold(k);
        lemma_pow2_unfold((k - 1) as nat);
        lemma_excess_value(n / 2, (k - 1) as nat, width);
    }
}

proof fn lemma_excess_fits(n: nat, width: nat)
    requires
        n >= 1,
        width >= 1,
    ensures
        pow2(excess(n, width)) <= n,
    decreases n,
{
    lemma2_to64();
    lemma_pow2_strictly_increases(0, width);
    if n >= pow2(width) {
        lemma_excess_fits(n / 2, width);
        lemma_pow2_unfold(excess(n, width));
    }
}

/// A difference rounds to less than 1 exactly below 1 - 2^-25.
proof fn lemma_near(d: nat)
    ensures
        nearest(d, 24) < pow2(149) <==> d < pow2(149) - pow2(124),
{
    lemma2_to64();
    lemma_pow2_adds(24, 124);
    lemma_pow2_adds(25, 124);
    lemma_pow2_adds(24, 125);
    lemma_pow2_unfold(125);
    lemma_pow2_unfold(149);
    lemma_pow2_pos(124);
    if d < pow2(148) {
        lemma_nearest_bound(d, 24);
    } else if d < pow2(149) {
        lemma_excess_value(d, 149, 24);
        let unit = pow2(125) as int;
        let low = d as int / unit;
        let left = d as int % unit;
        lemma_fundamental_div_mod(d as int, unit);
        assert(low < 0x100_0000) by (nonlinear_arith)
            requires
                d == unit * low + left,
                left >= 0,
                d < 0x100_0000 * unit,
                unit >= 1,
        ;
        if low == 0xff_ffff {
            assert(unit * low == 0xff_ffff * unit) by (nonlinear_arith)
                requires
                    low == 0xff_ffff,
            ;
            assert((low + 1) * unit == 0x100_0000 * unit) by (nonlinear_arith)
                requires
                    low == 0xff_ffff,
            ;
            assert(low * unit == 0xff_ffff * unit) by (nonlinear_arith)
                requires
                    low == 0xff_ffff,
            ;
        } else {
            assert(unit * low + left < 0xff_ffff * unit) by (nonlinear_arith)
                requires
                    low + 1 <= 0xff_ffff,
                    left < unit,
                    unit >= 1,
            ;
            assert((low + 1) * unit <= 0xff_ffff * unit) by (nonlinear_arith)
                requires
                    low + 1 <= 0xff_ffff,
                    unit >= 1,
            ;
            assert(low * unit <= 0xff_ffff * unit) by (nonlinear_arith)
                requires
                    low + 1 <= 0xff_ffff,
                    unit >= 1,
            ;
        }
    } else {
        lemma_pow2_pos(149);
        lemma_excess_fits(d, 24);
        let x = excess(d, 24);
        let unit = pow2(x) as int;
        lemma_pow2_pos(x);
        let low = d as int / unit;
        let left = d as int % unit;
        lemma_fundamental_div_mod(d as int, unit);
        if x <= 149 {
            let c = pow2((149 - x) as nat) as int;
            lemma_pow2_adds((149 - x) as nat, x);
            assert(low >= c) by (nonlinear_arith)
                requires
                    d == unit * low + left,
                    left < unit,
                    d >= c * unit,
                    unit >= 1,
            ;
            assert(low * unit >= c * unit) by (nonlinear_arith)
                requires
                    low >= c,
                    unit >= 1,
            ;
        } else {
            lemma_pow2_strictly_increases(149, x);
            assert(low >= 1) by (nonlinear_arith)
                requires
                    d == unit * low + left,
                    left < unit,
                    d >= unit,
                    unit >= 1,
            ;
            assert(low * unit >= unit) by (nonlinear_arith)
                requires
                    low >= 1,
                    unit >= 1,
            ;
        }
        assert((low + 1) * unit == low * unit + unit) by (nonlinear_arith);
    }
}

/// The steps of a finite binary32 pattern as a significand and a power of two.
pub open spec fn significand(magnitude: int) -> int {
    if magnitude < HIDDEN32 {
        magnitude
    } else {
        HIDDEN32 + magnitude % (HIDDEN32 as int)
    }
}

pub open spec fn power_of(magnitude: int) -> nat {
    if magnitude < HIDDEN32 {
        0
    } else {
        (magnitude / (HIDDEN32 as int) - 1) as nat
    }
}

proof fn lemma_parts(magnitude: int)
    requires
        0 <= magnitude,
    ensures
        steps(magnitude, HIDDEN32 as int) == significand(magnitude) * pow2(power_of(magnitude)),
        0 <= significand(magnitude) < 0x100_0000,
{
    lemma2_to64();
    let h = HIDDEN32 as int;
    lemma_fundamental_div_mod(magnitude, h);
    if magnitude < h {
        assert(magnitude * pow2(0) == magnitude) by (nonlinear_arith)
            requires
                pow2(0) == 1,
        ;
    }
}

/// Whether `a - b` (for numbers of one sign) or `a + b` (for opposite signs) lies
/// below the bound, from the two parts of each number at 2^83 steps.
proof fn lemma_near_split(a: int, b: int, ah: int, bh: int, bl: int, opposite: bool)
    requires
        0 <= b <= a,
        0 <= bl < pow2(83),
        b == bh * pow2(83) + bl,
        a == ah * pow2(83),
    ensures
        opposite ==> (a + b < pow2(149) - pow2(124) <==> ah + bh < 0x1ff_ffff * 0x200_0000_0000),
        !opposite ==> (a - b < pow2(149) - pow2(124) <==> ah - bh < 0x1ff_ffff * 0x200_0000_0000
            || (ah - bh == 0x1ff_ffff * 0x200_0000_0000 && bl > 0)),
{
    lemma2_to64();
    lemma2_to64_rest();
    lemma_pow2_adds(25, 124);
    lemma_pow2_adds(41, 83);
    let u = pow2(83) as int;
    let t: int = 0x1ff_ffffint * 0x200_0000_0000int;
    assert(pow2(149) - pow2(124) == t * u) by (nonlinear_arith)
        requires
            pow2(149) == 0x200_0000 * pow2(124),
            pow2(124) == 0x200_0000_0000 * u,
            t == 0x1ff_ffff * 0x200_0000_0000,
    ;
    if opposite {
        assert((ah * u + (bh * u + bl) < t * u) <==> ah + bh < t) by (nonlinear_arith)
            requires
                0 <= bl < u,
        ;
    } else {
        assert((ah * u - (bh * u + bl) < t * u) <==> (ah - bh < t || (ah - bh == t && bl > 0)))
            by (nonlinear_arith)
            requires
                0 <= bl < u,
        ;
    }
}

/// Small numbers are near each other.
proof fn lemma_near_small(a: int)
    requires
        0 <= a < pow2(107),
    ensures
        2 * a < pow2(149) - pow2(124),
{
    lemma2_to64();
    lemma_pow2_adds(25, 124);
    lemma_pow2_strictly_increases(107, 124);
    lemma_pow2_pos(124);
}

/// Numbers of at least 2^25 in size are near only when they are the same.
proof fn lemma_near_large(ma: int, mb: int)
    requires
        0 <= mb <= ma,
        ma >= 152 * HIDDEN32,
    ensures
        steps(ma, HIDDEN32 as int) >= pow2(174),
        mb < ma ==> steps(ma, HIDDEN32 as int) - steps(mb, HIDDEN32 as int) >= pow2(150),
{
    let h = HIDDEN32 as int;
    let a = steps(ma, h);
    let b = steps(mb, h);
    lemma_parts(ma);
    lemma_parts(mb);
    lemma2_to64();
    let pa = power_of(ma);
    let pb = power_of(mb);
    lemma_fundamental_div_mod(ma, h);
    lemma_fundamental_div_mod(mb, h);
    assert(pa >= 151);
    let x = pow2((pa - 150) as nat) as int;
    lemma_pow2_adds((pa - 150) as nat, 150);
    lemma_pow2_unfold((pa - 150) as nat);
    lemma_pow2_pos((pa - 151) as nat);
    lemma_pow2_pos(150);
    let u = pow2(150) as int;
    let sa = significand(ma);
    assert(a == (sa * x) * u) by (nonlinear_arith)
        requires
            a == sa * pow2(pa),
            pow2(pa) == x * u,
    ;
    lemma_pow2_adds(24, 150);
    assert(sa * x >= 0x80_0000 * 2) by (nonlinear_arith)
        requires
            sa >= 0x80_0000,
            x >= 2,
    ;
    let ka = sa * x;
    assert(ka * u >= 0x100_0000 * u) by (nonlinear_arith)
        requires
            ka >= 0x100_0000,
            u >= 1,
    ;
    if mb < ma {
        steps_increase(mb, ma, h);
        let sb = significand(mb);
        if pb >= 150 {
            let y = pow2((pb - 150) as nat) as int;
            lemma_pow2_adds((pb - 150) as nat, 150);
            let kb = sb * y;
            assert(b == kb * u) by (nonlinear_arith)
                requires
                    b == sb * pow2(pb),
                    pow2(pb) == y * u,
                    kb == sb * y,
            ;
            assert(ka * u - kb * u >= u) by (nonlinear_arith)
                requires
                    ka * u > kb * u,
                    u >= 1,
            ;
        } else {
            lemma_pow2_pos(pb);
            if pb < 149 {
                lemma_pow2_strictly_increases(pb, 149);
            }
            lemma_pow2_unfold(150);
            let v = pow2(149) as int;
            assert(b <= 0x100_0000 * v) by (nonlinear_arith)
                requires
                    b == sb * pow2(pb),
                    0 <= sb < 0x100_0000,
                    1 <= pow2(pb) <= v,
            ;
        }
    }
}

/// The part of a finite number above 2^83 steps, and whether anything lies below.
fn split(magnitude: u32) -> (r: (u128, bool))
    requires
        magnitude < 152 * HIDDEN32,
    ensures
        r.0 == steps(magnitude as int, HIDDEN32 as int) / pow2(83) as int,
        r.1 == (steps(magnitude as int, HIDDEN32 as int) % pow2(83) as int > 0),
        r.0 < 0x800_0000_0000_0000_0000_0000,
        magnitude < 84 * HIDDEN32 ==> r.0 < 0x100_0000 && steps(
            magnitude as int,
            HIDDEN32 as int,
        ) < pow2(107),
        magnitude >= 84 * HIDDEN32 ==> !r.1,
{
    let head: u128 = if magnitude < HIDDEN32 {
        magnitude as u128
    } else {
        (HIDDEN32 + magnitude % HIDDEN32) as u128
    };
    let p: u32 = if magnitude < HIDDEN32 {
        0
    } else {
        magnitude / HIDDEN32 - 1
    };
    proof {
        lemma_parts(magnitude as int);
        lemma_scale_down(head as int, p as nat, 83);
        lemma2_to64();
        lemma2_to64_rest();
    }
    if p >= 83 {
        let factor: u128 = power(p - 83);
        proof {
            let k = (p - 83) as nat;
            if k < 67 {
                lemma_pow2_strictly_increases(k, 67);
            }
            lemma_pow2_adds(64, 3);
            assert(0x1_0000_0000_0000_0000 * 8 == 0x8_0000_0000_0000_0000int);
            lemma_pow2_pos(k);
            assert(head * factor < 0x100_0000 * 0x8_0000_0000_0000_0000) by (nonlinear_arith)
                requires
                    head < 0x100_0000,
                    1 <= factor <= 0x8_0000_0000_0000_0000,
            ;
        }
        (head * factor, false)
    } else {
        let divisor: u128 = power(83 - p);
        proof {
            let k = (83 - p) as nat;
            lemma_pow2_pos(k);
            lemma_pow2_pos(p as nat);
            if p < 83 {
                lemma_pow2_strictly_increases(p as nat, 83);
            }
            lemma_pow2_adds(24, 83);
            let low = head as int % divisor as int;
            assert((low * pow2(p as nat) > 0) == (low > 0)) by (nonlinear_arith)
                requires
                    low >= 0,
                    pow2(p as nat) >= 1,
            ;
            assert(0 <= head as int / divisor as int <= head) by (nonlinear_arith)
                requires
                    divisor >= 1,
                    head >= 0,
            ;
            assert(head * pow2(p as nat) < 0x100_0000 * pow2(83)) by (nonlinear_arith)
                requires
                    0 <= head < 0x100_0000,
                    1 <= pow2(p as nat) <= pow2(83),
            ;
        }
        (head / divisor, head % divisor > 0)
    }
}

impl Single {
    /// `(self - other).abs() < 1.0`.
    pub fn close_to(self, other: Single) -> (r: bool)
        ensures
            r == self.near(other),
    {
        if !self.finite() || !other.finite() {
            return false;
        }
        let first: u32 = self.sign_free();
        let second: u32 = other.sign_free();
        let opposite = (self.bits >= SIGN32) != (other.bits >= SIGN32);
        let large: u32 = if first >= second {
            first
        } else {
            second
        };
        let small: u32 = if first >= second {
            second
        } else {
            first
        };
        let ghost a = steps(large as int, HIDDEN32 as int);
        let ghost b = steps(small as int, HIDDEN32 as int);
        let ghost d = distance(self.value(), other.value());
        proof {
            lemma_near(d);
            assert(steps(0, HIDDEN32 as int) == 0);
            if small < large {
                steps_increase(small as int, large as int, HIDDEN32 as int);
            }
            if small > 0 {
                steps_increase(0, small as int, HIDDEN32 as int);
            }
            assert(0 <= b <= a);
            assert(d == if opposite {
                a + b
            } else {
                a - b
            });
        }
        if large >= 152 * HIDDEN32 {
            proof {
                lemma_near_large(large as int, small as int);
                lemma_pow2_strictly_increases(149, 150);
                lemma_pow2_strictly_increases(149, 174);
                lemma_pow2_strictly_increases(124, 149);
                lemma_pow2_pos(124);
            }
            return !opposite && large == small;
        }
        let (ah, al): (u128, bool) = split(large);
        let (bh, bl): (u128, bool) = split(small);
        let bound: u128 = 0x1ff_ffff * 0x200_0000_0000;
        proof {
            lemma_pow2_pos(83);
            let u = pow2(83) as int;
            lemma_fundamental_div_mod(a, u);
            lemma_fundamental_div_mod(b, u);
            assert(u * (a / u) == (a / u) * u) by (nonlinear_arith);
            assert(u * (b / u) == (b / u) * u) by (nonlinear_arith);
            if large >= 84 * HIDDEN32 {
                lemma_near_split(a, b, a / u, b / u, b % u, opposite);
            } else {
                lemma_near_small(a);
            }
        }
        if opposite {
            ah + bh < bound
        } else {
            ah < bound + bh || (ah == bound + bh && bl)
        }
    }
}

proof fn lemma_excess_range(n: nat, width: nat)
    requires
        width >= 1,
    ensures
        n < pow2(width + excess(n, width)),
        excess(n, width) > 0 ==> n >= pow2((width - 1 + excess(n, width)) as nat),
    decreases n,
{
    if n >= pow2(width) && n > 0 {
        lemma_excess_range(n / 2, width);
        let x = excess(n, width);
        let y = excess(n / 2, width);
        lemma_pow2_unfold(width + x);
        if y > 0 {
            lemma_pow2_unfold((width - 1 + x) as nat);
        }
    } else if n == 0 {
        lemma_pow2_pos(width);
    }
}

proof fn lemma_excess_ordered(m: nat, n: nat, width: nat)
    requires
        m <= n,
    ensures
        excess(m, width) <= excess(n, width),
    decreases n,
{
    if m >= pow2(width) && m > 0 {
        lemma_excess_ordered(m / 2, n / 2, width);
    }
}

/// Rounding keeps the order.
proof fn lemma_nearest_ordered(m: nat, n: nat, width: nat)
    requires
        m <= n,
        width >= 1,
    ensures
        nearest(m, width) <= nearest(n, width),
{
    let x = excess(m, width);
    let y = excess(n, width);
    lemma_excess_ordered(m, n, width);
    lemma_excess_range(m, width);
    lemma_excess_range(n, width);
    lemma_pow2_pos(x);
    lemma_pow2_pos(y);
    let ux = pow2(x) as int;
    let uy = pow2(y) as int;
    let lm = m as int / ux;
    let rm = m as int % ux;
    let ln = n as int / uy;
    let rn = n as int % uy;
    lemma_fundamental_div_mod(m as int, ux);
    lemma_fundamental_div_mod(n as int, uy);
    if x == y {
        if lm < ln {
            assert((lm + 1) * ux <= ln * ux && lm * ux <= ln * ux && ln * ux <= (ln + 1) * ux)
                by (nonlinear_arith)
                requires
                    lm + 1 <= ln,
                    ux >= 1,
            ;
        } else {
            assert(lm == ln) by (nonlinear_arith)
                requires
                    lm >= ln,
                    m == ux * lm + rm,
                    n == ux * ln + rn,
                    m <= n,
                    0 <= rm < ux,
                    0 <= rn < ux,
            ;
            assert(rm <= rn);
            assert(lm * ux <= (lm + 1) * ux) by (nonlinear_arith)
                requires
                    ux >= 1,
            ;
        }
    } else {
        let w = pow2(width) as int;
        lemma_pow2_adds(width, x);
        assert(lm + 1 <= w) by (nonlinear_arith)
            requires
                m == ux * lm + rm,
                0 <= rm,
                m < w * ux,
                ux >= 1,
        ;
        assert((lm + 1) * ux <= w * ux && lm * ux <= w * ux) by (nonlinear_arith)
            requires
                lm + 1 <= w,
                ux >= 1,
        ;
        let h = pow2((width - 1) as nat) as int;
        lemma_pow2_adds((width - 1) as nat, y);
        assert(ln >= h) by (nonlinear_arith)
            requires
                n == uy * ln + rn,
                rn < uy,
                n >= h * uy,
                uy >= 1,
        ;
        assert(ln * uy >= h * uy && (ln + 1) * uy >= h * uy) by (nonlinear_arith)
            requires
                ln >= h,
                uy >= 1,
        ;
        if width + x < width - 1 + y {
            lemma_pow2_strictly_increases(width + x, (width - 1 + y) as nat);
        }
    }
}

/// A number that fits its bits is not rounded.
proof fn lemma_nearest_exact(k: nat, j: nat, width: nat)
    requires
        width >= 1,
        k < pow2(width),
    ensures
        nearest(k * pow2(j), width) == k * pow2(j),
{
    let n = k * pow2(j);
    let x = excess(n, width);
    lemma_excess_range(n, width);
    lemma_pow2_pos(j);
    lemma_pow2_pos(x);
    if x > j {
        lemma_pow2_adds(width, j);
        assert(n < pow2(width) * pow2(j)) by (nonlinear_arith)
            requires
                n == k * pow2(j),
                k < pow2(width),
                pow2(j) >= 1,
        ;
        if width + j < width - 1 + x {
            lemma_pow2_strictly_increases(width + j, (width - 1 + x) as nat);
        }
        assert(false);
    }
    lemma_scale_down(k as int, j, x);
    lemma_pow2_adds((j - x) as nat, x);
    assert((k * pow2((j - x) as nat)) * pow2(x) == n) by (nonlinear_arith)
        requires
            n == k * pow2(j),
            pow2(j) == pow2((j - x) as nat) * pow2(x),
    ;
}

pub open spec fn exponent_of(x: Double) -> int {
    x.magnitude() / (HIDDEN64 as int)
}

pub open spec fn significand_of(x: Double) -> int {
    HIDDEN64 + x.magnitude() % (HIDDEN64 as int)
}

/// How many patterns away from `center` a number may stand and still lie within
/// `tolerance` of it.
pub open spec fn reach(center: Double, tolerance: Double) -> int {
    significand_of(tolerance) / (pow2((exponent_of(center) - exponent_of(tolerance)) as nat) as int)
}

/// The numbers within `tolerance` of `center` share its exponent.
pub open spec fn tolerance_fits(center: Double, tolerance: Double) -> bool {
    &&& !tolerance.negative()
    &&& 1 <= exponent_of(tolerance) < exponent_of(center) <= exponent_of(tolerance) + 52
    &&& center.is_finite()
    &&& center.magnitude() % (HIDDEN64 as int) > reach(center, tolerance)
    &&& center.magnitude() % (HIDDEN64 as int) + reach(center, tolerance) + 1 < HIDDEN64
}

impl Double {
    /// `(self - center).abs() > tolerance`, with the difference rounded to 53 bits.
    pub open spec fn apart(self, center: Double, tolerance: Double) -> bool {
        !self.is_nan() && nearest(distance(self.value(), center.value()), 53) > tolerance.value()
    }
}

/// The number `k` patterns above or below `center`, where they share an exponent.
proof fn lemma_neighbour(center: Double, other: int, u: int)
    requires
        exponent_of(center) >= 1,
        u == pow2((exponent_of(center) - 1) as nat),
        other / (HIDDEN64 as int) == exponent_of(center),
        other >= 0,
    ensures
        steps(other, HIDDEN64 as int) - steps(center.magnitude(), HIDDEN64 as int) == (other
            - center.magnitude()) * u,
{
    let h = HIDDEN64 as int;
    let m = center.magnitude();
    let e = exponent_of(center);
    lemma_fundamental_div_mod(other, h);
    lemma_fundamental_div_mod(m, h);
    let f = other % h;
    let g = m % h;
    assert((h + f) * u - (h + g) * u == (other - m) * u) by (nonlinear_arith)
        requires
            other == h * e + f,
            m == h * e + g,
    ;
}

proof fn lemma_apart(x: Double, center: Double, tolerance: Double)
    requires
        tolerance_fits(center, tolerance),
    ensures
        x.apart(center, tolerance) <==> !x.is_nan() && !(center.key() - reach(center, tolerance)
            <= x.key() <= center.key() + reach(center, tolerance)),
        0 <= reach(center, tolerance) < HIDDEN64,
{
    let h = HIDDEN64 as int;
    let e = exponent_of(center);
    let et = exponent_of(tolerance);
    let s = (e - et) as nat;
    let k = reach(center, tolerance);
    let u = pow2((e - 1) as nat) as int;
    let ut = pow2((et - 1) as nat) as int;
    let ps = pow2(s) as int;
    let mt = significand_of(tolerance);
    let c = center.magnitude();
    let t = tolerance.value();
    lemma2_to64();
    lemma2_to64_rest();
    lemma_pow2_pos(s);
    lemma_pow2_pos((e - 1) as nat);
    lemma_pow2_pos((et - 1) as nat);
    lemma_pow2_adds(s, (et - 1) as nat);
    lemma_fundamental_div_mod(mt, ps);
    lemma_fundamental_div_mod(c, h);
    assert(t == mt * ut);
    assert(0 <= k) by (nonlinear_arith)
        requires
            k == mt / ps,
            mt >= 0,
            ps >= 1,
    ;
    assert(k * u <= t < (k + 1) * u) by (nonlinear_arith)
        requires
            t == mt * ut,
            u == ps * ut,
            mt == ps * k + mt % ps,
            0 <= mt % ps < ps,
            ut >= 1,
    ;
    assert((k + 1) * u == k * u + u) by (nonlinear_arith);
    lemma_nearest_exact((k + 1) as nat, (e - 1) as nat, 53);
    let d = distance(x.value(), center.value());
    let offset = x.key() - center.key();
    // The two numbers just out of reach.
    lemma_fundamental_div_mod_converse(c + k + 1, h, e, c % h + k + 1);
    lemma_fundamental_div_mod_converse(c - k - 1, h, e, c % h - k - 1);
    lemma_neighbour(center, c + k + 1, u);
    lemma_neighbour(center, c - k - 1, u);
    let far = Double { bits: (c + k + 1) as u64 };
    let near = Double { bits: (c - k - 1) as u64 };
    assert(far.magnitude() == c + k + 1);
    assert(near.magnitude() == c - k - 1);
    let minus_far = Double { bits: (c + k + 1 + SIGN64) as u64 };
    let minus_near = Double { bits: (c - k - 1 + SIGN64) as u64 };
    assert(minus_far.magnitude() == c + k + 1);
    assert(minus_near.magnitude() == c - k - 1);
    assert((c + k + 1 - c) * u == (k + 1) * u);
    assert((c - k - 1 - c) * u == -((k + 1) * u)) by (nonlinear_arith);
    if -k <= offset <= k {
        let m = x.magnitude();
        assert(x.negative() == center.negative());
        assert(c - k <= m <= c + k);
        lemma_fundamental_div_mod_converse(m, h, e, c % h + (m - c));
        lemma_neighbour(center, m, u);
        let gap = distance(m, c);
        assert(d == gap * u) by {
            assert((m - c) * u == -((c - m) * u)) by (nonlinear_arith);
            assert((m - c) * u >= 0 <==> m >= c) by (nonlinear_arith)
                requires
                    u >= 1,
            ;
        }
        lemma_nearest_exact(gap, (e - 1) as nat, 53);
        assert(gap * u <= k * u) by (nonlinear_arith)
            requires
                gap <= k,
                u >= 1,
        ;
    } else {
        if offset > k {
            let edge = if center.negative() {
                minus_near
            } else {
                far
            };
            key_orders(edge, x);
        } else {
            let edge = if center.negative() {
                minus_far
            } else {
                near
            };
            key_orders(x, edge);
        }
        assert(d >= (k + 1) * u);
        lemma_nearest_ordered(((k + 1) * u) as nat, d, 53);
    }
}

impl Double {
    /// `(self - center).abs() > tolerance`.
    pub fn away_from(self, center: Double, tolerance: Double) -> (r: bool)
        requires
            tolerance_fits(center, tolerance),
        ensures
            r == self.apart(center, tolerance),
    {
        proof {
            lemma_apart(self, center, tolerance);
        }
        if self.nan() {
            return false;
        }
        let c: u64 = if center.bits >= SIGN64 {
            center.bits - SIGN64
        } else {
            center.bits
        };
        let shift: u32 = (c / HIDDEN64 - tolerance.bits / HIDDEN64) as u32;
        let significand: u64 = HIDDEN64 + tolerance.bits % HIDDEN64;
        let divisor: u128 = power(shift);
        proof {
            lemma_pow2_pos(shift as nat);
        }
        let reach: i64 = (significand as u128 / divisor) as i64;
        let key: i64 = self.signed_key();
        let middle: i64 = center.signed_key();
        key > middle + reach || key < middle - reach
    }
}

/// Numbers compare as their patterns do. A NaN compares with nothing; among numbers
/// without a sign the larger pattern is the larger number, among those with one the
/// smaller, and one with a sign lies below one without, unless both are zero.
pub proof fn patterns_tell_the_order(a: Double, b: Double)
    ensures
        a.is_nan() <==> 0x7ff0_0000_0000_0000 < a.bits < 0x8000_0000_0000_0000
            || 0xfff0_0000_0000_0000 < a.bits,
        a.below(b) ==> !a.is_nan() && !b.is_nan(),
        a.at_most(b) ==> !a.is_nan() && !b.is_nan(),
        !a.is_nan() && !b.is_nan() ==> {
            &&& a.at_most(b) <==> !b.below(a)
            &&& a.below(b) <==> (if a.bits < 0x8000_0000_0000_0000 && b.bits
                < 0x8000_0000_0000_0000 {
                a.bits < b.bits
            } else if a.bits >= 0x8000_0000_0000_0000 && b.bits >= 0x8000_0000_0000_0000 {
                a.bits > b.bits
            } else {
                b.bits < a.bits && (a.bits != 0x8000_0000_0000_0000 || b.bits != 0)
            })
            &&& a.below(b) <==> a.value() < b.value()
            &&& a.at_most(b) <==> a.value() <= b.value()
        },
{
    key_orders(a, b);
    key_orders(b, a);
}

/// In the total order a pattern with a sign comes before one without, the larger ones
/// with a sign first, the smaller ones without a sign first.
pub proof fn patterns_tell_the_rank(a: Double, b: Double)
    ensures
        a.rank() < b.rank() <==> (if a.bits < 0x8000_0000_0000_0000 && b.bits
            < 0x8000_0000_0000_0000 {
            a.bits < b.bits
        } else {
            b.bits < a.bits && a.bits >= 0x8000_0000_0000_0000
        }),
        a.rank() == b.rank() <==> a.bits == b.bits,
        a.below(b) ==> a.rank() < b.rank(),
{
    key_orders(a, b);
}

/// The smallest patterns count the steps of 2^-1074; one more in the exponent doubles a
/// number; and the sign turns it round.
pub proof fn patterns_tell_the_value(x: Double)
    ensures
        x.bits <= 0x20_0000_0000_0000 ==> x.value() == x.bits,
        0x10_0000_0000_0000 <= x.bits < 0x7fe0_0000_0000_0000 ==> (Double {
            bits: (x.bits + 0x10_0000_0000_0000) as u64,
        }).value() == 2 * x.value(),
        x.bits < 0x8000_0000_0000_0000 ==> (Double {
            bits: (x.bits + 0x8000_0000_0000_0000) as u64,
        }).value() == -x.value(),
        x.is_finite() <==> x.bits < 0x7ff0_0000_0000_0000 || 0x8000_0000_0000_0000 <= x.bits
            < 0xfff0_0000_0000_0000,
{
    lemma2_to64();
    let h = HIDDEN64 as int;
    let m = x.bits as int;
    if m <= 0x20_0000_0000_0000 {
        lemma_small_pattern(m, h);
    }
    if 0x10_0000_0000_0000 <= x.bits < 0x7fe0_0000_0000_0000 {
        lemma_doubled(m, h);
    }
}

proof fn lemma_small_pattern(m: int, h: int)
    requires
        0 < h,
        0 <= m <= 2 * h,
    ensures
        steps(m, h) == m,
{
    lemma2_to64();
    if m < h {
        lemma_fundamental_div_mod_converse(m, h, 0, m);
    } else if m < 2 * h {
        lemma_fundamental_div_mod_converse(m, h, 1, m - h);
        assert((h + (m - h)) * pow2(0) == m) by (nonlinear_arith)
            requires
                pow2(0) == 1,
        ;
    } else {
        lemma_fundamental_div_mod_converse(m, h, 2, 0);
        assert((h + 0) * pow2(1) == m) by (nonlinear_arith)
            requires
                pow2(1) == 2,
                m == 2 * h,
        ;
    }
}

proof fn lemma_doubled(m: int, h: int)
    requires
        0 < h <= m,
    ensures
        steps(m + h, h) == 2 * steps(m, h),
{
    let e = m / h;
    let f = m % h;
    lemma_fundamental_div_mod(m, h);
    assert(e >= 1) by (nonlinear_arith)
        requires
            m == h * e + f,
            m >= h,
            0 <= f < h,
            h > 0,
    ;
    assert(m + h == h * (e + 1) + f) by (nonlinear_arith)
        requires
            m == h * e + f,
    ;
    lemma_fundamental_div_mod_converse(m + h, h, e + 1, f);
    lemma_pow2_unfold(e as nat);
    let p = pow2((e - 1) as nat) as int;
    assert((h + f) * (2 * p) == 2 * ((h + f) * p)) by (nonlinear_arith);
}

/// The smallest patterns count the steps of 2^-149; one more in the exponent doubles a
/// number; the sign turns it round; and the larger pattern is the larger number.
pub proof fn single_patterns_tell_the_value(x: Single)
    ensures
        x.bits <= 0x100_0000 ==> x.value() == x.bits,
        0x80_0000 <= x.bits < 0x7f00_0000 ==> (Single { bits: (x.bits + 0x80_0000) as u32 }).value()
            == 2 * x.value(),
        x.bits < 0x8000_0000 ==> (Single { bits: (x.bits + 0x8000_0000) as u32 }).value()
            == -x.value(),
        x.is_finite() <==> x.bits < 0x7f80_0000 || 0x8000_0000 <= x.bits < 0xff80_0000,
        x.is_nan() <==> 0x7f80_0000 < x.bits < 0x8000_0000 || 0xff80_0000 < x.bits,
{
    lemma2_to64();
    let h = HIDDEN32 as int;
    let m = x.bits as int;
    if m <= 0x100_0000 {
        lemma_small_pattern(m, h);
    }
    if 0x80_0000 <= x.bits < 0x7f00_0000 {
        lemma_doubled(m, h);
    }
}

/// The number `n`, written with its significand `n * 2^k`.
pub proof fn whole_number_pattern(x: Double, n: nat, k: nat)
    requires
        x.bits < 0x8000_0000_0000_0000,
        k <= 52,
        x.bits as int == (1074 - k) * 0x10_0000_0000_0000 + n * pow2(k),
        0x10_0000_0000_0000 <= n * pow2(k) < 0x20_0000_0000_0000,
    ensures
        x.value() == n * pow2(1074),
        x.is_finite(),
{
    let h = HIDDEN64 as int;
    let s = n * pow2(k);
    let e = 1075 - k;
    assert(x.bits as int == h * e + (s - h)) by (nonlinear_arith)
        requires
            x.bits as int == (1074 - k) * h + s,
            e == 1075 - k,
    ;
    lemma_fundamental_div_mod_converse(x.bits as int, h, e, s - h);
    lemma_pow2_adds(k, (1074 - k) as nat);
    let p = pow2((1074 - k) as nat) as int;
    assert((n * pow2(k)) * p == n * (pow2(k) * p)) by (nonlinear_arith);
    assert(e < 2047);
}

/// Cutting a number to a whole one drops its fraction: what is left lies less than one
/// nearer to zero. What does not fit 64 bits is cut to the nearer end.
pub proof fn whole_drops_the_fraction(x: Double)
    ensures
        x.is_nan() ==> x.whole() == 0,
        !x.is_nan() && 0 <= x.value() < 0x8000_0000_0000_0000 * pow2(1074) ==> x.whole() * pow2(
            1074,
        ) <= x.value() < (x.whole() + 1) * pow2(1074),
        !x.is_nan() && -0x8000_0000_0000_0000 * pow2(1074) < x.value() <= 0 ==> (x.whole() - 1)
            * pow2(1074) < x.value() <= x.whole() * pow2(1074),
        !x.is_nan() && x.value() >= 0x8000_0000_0000_0000 * pow2(1074) ==> x.whole() == i64::MAX,
        !x.is_nan() && x.value() <= -0x8000_0000_0000_0000 * pow2(1074) ==> x.whole() == i64::MIN,
{
    let u = pow2(1074) as int;
    lemma_pow2_pos(1074);
    let m = steps(x.magnitude(), HIDDEN64 as int);
    if x.magnitude() > 0 {
        steps_increase(0, x.magnitude(), HIDDEN64 as int);
    }
    assert(steps(0, HIDDEN64 as int) == 0);
    let size = m / u;
    let left = m % u;
    let top = 0x8000_0000_0000_0000int;
    lemma_fundamental_div_mod(m, u);
    assert(size >= 0 && size * u <= m < (size + 1) * u) by (nonlinear_arith)
        requires
            m == u * size + left,
            0 <= left < u,
            m >= 0,
            u >= 1,
    ;
    assert(m < top * u ==> size < top) by (nonlinear_arith)
        requires
            size * u <= m,
            u >= 1,
    ;
    assert(m >= top * u ==> size >= top) by (nonlinear_arith)
        requires
            m < (size + 1) * u,
            u >= 1,
    ;
    assert((-size) * u == -(size * u) && (-size - 1) * u == -((size + 1) * u)) by (nonlinear_arith);
}

/// A number that fits its bits stays; any other moves by no more than half of its last
/// bit; and what comes out fits the bits.
pub proof fn rounding_moves_little(n: nat, width: nat)
    requires
        width >= 1,
    ensures
        n < pow2(width) ==> nearest(n, width) == n,
        distance(nearest(n, width) as int, n as int) * pow2(width) <= n,
        exists|k: nat, j: nat| k <= pow2(width) && nearest(n, width) == #[trigger] (k * pow2(j)),
{
    let x = excess(n, width);
    let unit = pow2(x) as int;
    let w = pow2(width) as int;
    lemma_pow2_pos(x);
    lemma_pow2_pos(width);
    lemma_excess_range(n, width);
    lemma2_to64();
    let low = n as int / unit;
    let left = n as int % unit;
    lemma_fundamental_div_mod(n as int, unit);
    assert(low * unit + left == n && (low + 1) * unit == low * unit + unit) by (nonlinear_arith)
        requires
            n == unit * low + left,
    ;
    assert(low >= 0) by (nonlinear_arith)
        requires
            low * unit + left == n,
            n >= 0,
            left < unit,
            unit >= 1,
    ;
    let d = distance(nearest(n, width) as int, n as int) as int;
    assert(2 * d <= unit);
    lemma_pow2_adds(width, x);
    assert(low + 1 <= w) by (nonlinear_arith)
        requires
            low * unit + left == n,
            left >= 0,
            n < w * unit,
            unit >= 1,
    ;
    if x == 0 {
        assert(unit == 1);
        assert(left == 0);
        assert(d == 0);
        assert(0 * pow2(width) == 0);
    } else {
        lemma_pow2_adds((width - 1) as nat, x);
        lemma_pow2_unfold(width);
        let h = pow2((width - 1) as nat) as int;
        assert(d * w <= n) by (nonlinear_arith)
            requires
                2 * d <= unit,
                w == 2 * h,
                n >= h * unit,
                h >= 1,
        ;
    }
    if nearest(n, width) == (low + 1) * unit {
        assert(nearest(n, width) == ((low + 1) as nat) * pow2(x));
    } else {
        assert(nearest(n, width) == (low as nat) * pow2(x));
    }
}

/// Two numbers are near each other where they lie less than 1 - 2^-25 apart, which is
/// where their binary32 difference comes out below one.
pub proof fn near_is_less_than_one_apart(a: Single, b: Single)
    ensures
        a.near(b) <==> a.is_finite() && b.is_finite() && a.value() - b.value() < pow2(149) - pow2(
            124,
        ) && b.value() - a.value() < pow2(149) - pow2(124),
        a.near(b) == b.near(a),
{
    lemma_near(distance(a.value(), b.value()));
    lemma_near(distance(b.value(), a.value()));
    lemma_pow2_pos(124);
    lemma2_to64();
    lemma_pow2_strictly_increases(124, 149);
}

/// Half of a number, doubled, is the number again, or one step off where it was odd.
pub proof fn half_is_half(x: Single)
    requires
        x.is_finite(),
    ensures
        -1 <= 2 * x.half_value() - x.value() <= 1,
        x.value() % 2 == 0 ==> 2 * x.half_value() == x.value(),
{
}

/// A number within the tolerance of another is not apart from it, and one that lies
/// beyond the tolerance by more than a rounding is; a NaN is apart from nothing.
pub proof fn apart_is_beyond_the_tolerance(x: Double, center: Double, tolerance: Double)
    requires
        tolerance.bits < 0x7ff0_0000_0000_0000,
    ensures
        x.is_nan() ==> !x.apart(center, tolerance),
        -tolerance.value() <= x.value() - center.value() <= tolerance.value() ==> !x.apart(
            center,
            tolerance,
        ),
        !x.is_nan() && (x.value() - center.value()) * (pow2(53) - 1) > tolerance.value() * pow2(53)
            ==> x.apart(center, tolerance),
        !x.is_nan() && (center.value() - x.value()) * (pow2(53) - 1) > tolerance.value() * pow2(53)
            ==> x.apart(center, tolerance),
{
    let d = distance(x.value(), center.value());
    let t = tolerance.value();
    let m = tolerance.bits as int;
    let h = HIDDEN64 as int;
    let w = pow2(53) as int;
    lemma2_to64();
    lemma2_to64_rest();
    rounding_moves_little(d, 53);
    let r = nearest(d, 53) as int;
    let off = distance(r, d as int) as int;
    assert(t >= 0) by {
        if m > 0 {
            steps_increase(0, m, h);
        }
        assert(steps(0, h) == 0);
    }
    if -t <= x.value() - center.value() <= t {
        lemma_nearest_ordered(d, t as nat, 53);
        let e = m / h;
        let f = m % h;
        lemma_fundamental_div_mod(m, h);
        if e == 0 {
            lemma_nearest_exact(f as nat, 0, 53);
            assert(f * pow2(0) == f) by (nonlinear_arith)
                requires
                    pow2(0) == 1,
            ;
        } else {
            lemma_nearest_exact((h + f) as nat, (e - 1) as nat, 53);
        }
    }
    if d * (w - 1) > t * w {
        assert(r > t) by (nonlinear_arith)
            requires
                d * (w - 1) > t * w,
                off * w <= d,
                r >= d - off,
                w >= 1,
        ;
    }
    assert((x.value() - center.value()) * (w - 1) > t * w ==> x.value() > center.value())
        by (nonlinear_arith)
        requires
            t >= 0,
            w > 1,
    ;
    assert((center.value() - x.value()) * (w - 1) > t * w ==> x.value() < center.value())
        by (nonlinear_arith)
        requires
            t >= 0,
            w > 1,
    ;
}

/// A number in tenths is ten times the number, as binary64 rounds it, brought to the
/// nearest whole number; a tie goes away from zero, and the sign is kept.
pub proof fn tenths_are_ten_times(x: Double)
    requires
        x.bits < 0x8000_0000_0000_0000,
        !x.is_nan(),
    ensures
        exists|p: int| #[trigger]
            in_tenths(p, x.value()) && (x.tenths() < i32::MAX ==> (2 * x.tenths() - 1) * pow2(1074)
                <= 2 * p < (2 * x.tenths() + 1) * pow2(1074)) && (x.tenths() == i32::MAX ==> 2 * p
                >= (2 * i32::MAX - 1) * pow2(1074)),
        0 <= x.tenths() <= i32::MAX,
        x.tenths() < i32::MAX ==> (Double {
            bits: (x.bits + 0x8000_0000_0000_0000) as u64,
        }).tenths() == -x.tenths(),
{
    let u = pow2(1074) as int;
    lemma_pow2_pos(1074);
    let v = x.value();
    assert(steps(0, HIDDEN64 as int) == 0);
    if x.bits > 0 {
        steps_increase(0, x.bits as int, HIDDEN64 as int);
    }
    let n = (10 * v) as nat;
    rounding_moves_little(n, 53);
    let p = nearest(n, 53) as int;
    let off = distance(p, n as int) as int;
    lemma_pow2_pos(53);
    assert((p - n) * pow2(53) <= n && (n - p) * pow2(53) <= n) by (nonlinear_arith)
        requires
            off * pow2(53) <= n,
            -off <= p - n <= off,
            n >= 0,
            pow2(53) >= 1,
    ;
    assert(in_tenths(p, v));
    let size = half_up(p as nat, pow2(1074)) as int;
    let left = (2 * p + u) % (2 * u);
    lemma_fundamental_div_mod(2 * p + u, 2 * u);
    assert((2 * size - 1) * u <= 2 * p < (2 * size + 1) * u && size >= 0) by (nonlinear_arith)
        requires
            2 * p + u == (2 * u) * size + left,
            0 <= left < 2 * u,
            p >= 0,
            u >= 1,
    ;
    assert(size >= i32::MAX ==> (2 * i32::MAX - 1) * u <= 2 * p) by (nonlinear_arith)
        requires
            (2 * size - 1) * u <= 2 * p,
            u >= 1,
    ;
}

/// Whether `p` is ten times `v` up to a rounding to 53 bits.
pub open spec fn in_tenths(p: int, v: int) -> bool {
    &&& (p - 10 * v) * pow2(53) <= 10 * v
    &&& (10 * v - p) * pow2(53) <= 10 * v
}

} // verus!
