use vstd::arithmetic::div_mod::lemma_div_is_ordered;
use vstd::arithmetic::mul::lemma_mul_inequality;
use vstd::prelude::*;

verus! {

/// Error for a combined game value whose exact fraction no longer fits
/// the fixed-width representation.
#[derive(Clone, Copy, PartialEq, Eq, Structural, Debug)]
pub struct ValueError {}

/// An exact game value: the rational `num / den`, always within
/// [-1, 1]. A certain win is +1, a certain loss is -1, an undecided
/// depth-limit leaf is 0, and blended positions carry the exact
/// arithmetic mean of their children.
#[derive(Clone, Copy, PartialEq, Eq, Structural, Debug)]
pub struct Value {
    pub num: i64,
    pub den: i64,
}

impl Value {
    /// A value is well-formed when its denominator is positive and the
    /// fraction lies within [-1, 1].
    pub open spec fn wf(self) -> bool {
        1 <= self.den && -self.den <= self.num <= self.den
    }

    /// The fraction equals +1.
    pub open spec fn is_win(self) -> bool {
        self.num == self.den
    }

    /// The fraction equals -1.
    pub open spec fn is_loss(self) -> bool {
        self.num == -self.den
    }

    /// The certain-win value +1.
    pub fn win() -> (v: Value)
        ensures
            v == (Value { num: 1i64, den: 1i64 }),
            v.wf() && v.is_win() && !v.is_loss(),
    {
        Value { num: 1, den: 1 }
    }

    /// The certain-loss value -1.
    pub fn loss() -> (v: Value)
        ensures
            v == (Value { num: -1i64, den: 1i64 }),
            v.wf() && v.is_loss() && !v.is_win(),
    {
        Value { num: -1, den: 1 }
    }

    /// The undecided value 0.
    pub fn neutral() -> (v: Value)
        ensures
            v == (Value { num: 0i64, den: 1i64 }),
            v.wf() && !v.is_win() && !v.is_loss(),
    {
        Value { num: 0, den: 1 }
    }

    /// Whether the value equals +1.
    pub fn equals_win(&self) -> (r: bool)
        ensures
            r == self.is_win(),
    {
        self.num == self.den
    }

    /// Whether the value equals -1.
    pub fn equals_loss(&self) -> (r: bool)
        requires
            self.wf(),
        ensures
            r == self.is_loss(),
    {
        self.num == -self.den
    }

    /// The strict order of two values as rationals.
    pub open spec fn spec_lt(self, other: Value) -> bool {
        self.num * other.den < other.num * self.den
    }

    /// Compares two values as rationals by cross-multiplying.
    pub fn lt(&self, other: &Value) -> (r: bool)
        requires
            self.wf(),
            other.wf(),
        ensures
            r == self.spec_lt(*other),
    {
        proof {
            assert(i128::MIN <= (self.num as int) * (other.den as int) <= i128::MAX)
                by (nonlinear_arith)
                requires
                    -0x8000_0000_0000_0000 <= self.num <= 0x7fff_ffff_ffff_ffff,
                    -0x8000_0000_0000_0000 <= other.den <= 0x7fff_ffff_ffff_ffff,
            ;
            assert(i128::MIN <= (other.num as int) * (self.den as int) <= i128::MAX)
                by (nonlinear_arith)
                requires
                    -0x8000_0000_0000_0000 <= other.num <= 0x7fff_ffff_ffff_ffff,
                    -0x8000_0000_0000_0000 <= self.den <= 0x7fff_ffff_ffff_ffff,
            ;
        }
        let a = (self.num as i128) * (other.den as i128);
        let b = (other.num as i128) * (self.den as i128);
        a < b
    }
}

/// Euclid's greatest common divisor.
pub open spec fn gcd(a: nat, b: nat) -> nat
    decreases b,
{
    if b == 0 {
        a
    } else {
        gcd(b, a % b)
    }
}

/// The common multiple that the mean computation scales to.
pub open spec fn lcm(a: nat, b: nat) -> nat {
    (a / gcd(a, b)) * b
}

/// The gcd is positive when an argument is, and at most each positive
/// argument.
pub proof fn lemma_gcd_bounds(a: nat, b: nat)
    ensures
        b == 0 ==> gcd(a, b) == a,
        a >= 1 || b >= 1 ==> gcd(a, b) >= 1,
        a >= 1 ==> gcd(a, b) <= a,
        b >= 1 ==> gcd(a, b) <= b,
    decreases b,
{
    if b != 0 {
        lemma_gcd_bounds(b, a % b);
        if a >= 1 && a < b {
            vstd::arithmetic::div_mod::lemma_small_mod(a, b);
        }
    }
}

/// Euclid's algorithm, verified against the gcd specification.
pub fn gcd_i64(a: i64, b: i64) -> (g: i64)
    requires
        0 <= a,
        0 <= b,
    ensures
        g == gcd(a as nat, b as nat),
        0 <= g,
{
    let mut x = a;
    let mut y = b;
    while y != 0
        invariant
            0 <= x,
            0 <= y,
            gcd(x as nat, y as nat) == gcd(a as nat, b as nat),
        decreases y,
    {
        let t = x % y;
        x = y;
        y = t;
    }
    x
}

/// Every entry is a well-formed value.
pub open spec fn all_wf(vals: Seq<Value>) -> bool {
    forall|i: int| 0 <= i < vals.len() ==> (#[trigger] vals[i]).wf()
}

/// The running common denominator of the first `i` values.
pub open spec fn dens_lcm_to(vals: Seq<Value>, i: int) -> nat
    decreases i,
{
    if i <= 0 {
        1
    } else {
        lcm(dens_lcm_to(vals, i - 1), vals[i - 1].den as nat)
    }
}

/// The common denominator of all the values.
pub open spec fn dens_lcm(vals: Seq<Value>) -> nat {
    dens_lcm_to(vals, vals.len() as int)
}

/// Every running common denominator over the first `i` values fits the
/// representation.
pub open spec fn dens_lcm_fits_to(vals: Seq<Value>, i: int) -> bool
    decreases i,
{
    if i <= 0 {
        true
    } else {
        dens_lcm_fits_to(vals, i - 1) && dens_lcm_to(vals, i) <= i64::MAX
    }
}

/// A failed running common denominator never recovers: once some prefix
/// does not fit, no longer prefix does.
proof fn lemma_fits_prefix(vals: Seq<Value>, j: int, n: int)
    requires
        0 <= j <= n,
        dens_lcm_fits_to(vals, n),
    ensures
        dens_lcm_fits_to(vals, j),
    decreases n,
{
    if j < n {
        lemma_fits_prefix(vals, j, n - 1);
    }
}

/// The numerators of the first `i` values, brought to the common
/// denominator `l` and summed.
pub open spec fn weighted_sum_to(vals: Seq<Value>, l: int, i: int) -> int
    decreases i,
{
    if i <= 0 {
        0
    } else {
        weighted_sum_to(vals, l, i - 1) + vals[i - 1].num * (l / (vals[i - 1].den as int))
    }
}

/// The numerator of the mean before reduction.
pub open spec fn mean_num_raw(vals: Seq<Value>) -> int {
    weighted_sum_to(vals, dens_lcm(vals) as int, vals.len() as int)
}

/// The denominator of the mean before reduction: the count of values
/// times the common denominator.
pub open spec fn mean_den_raw(vals: Seq<Value>) -> int {
    (vals.len() * dens_lcm(vals)) as int
}

pub open spec fn abs_int(a: int) -> int {
    if a < 0 {
        -a
    } else {
        a
    }
}

/// The factor the mean is reduced by.
pub open spec fn mean_gcd(vals: Seq<Value>) -> nat {
    gcd(abs_int(mean_num_raw(vals)) as nat, mean_den_raw(vals) as nat)
}

/// The numerator of the arithmetic mean of the values, reduced.
pub open spec fn mean_num(vals: Seq<Value>) -> int {
    let q = abs_int(mean_num_raw(vals)) as nat / mean_gcd(vals);
    if mean_num_raw(vals) < 0 {
        -q
    } else {
        q as int
    }
}

/// The denominator of the arithmetic mean of the values, reduced.
pub open spec fn mean_den(vals: Seq<Value>) -> int {
    (mean_den_raw(vals) as nat / mean_gcd(vals)) as int
}

/// The exact mean is representable: every running common denominator
/// and the final scaled denominator fit the fixed width.
pub open spec fn mean_fits(vals: Seq<Value>) -> bool {
    &&& dens_lcm_fits_to(vals, vals.len() as int)
    &&& vals.len() * dens_lcm(vals) <= i64::MAX
}

/// `x` is a multiple of `d`.
pub open spec fn divides(d: int, x: int) -> bool
    recommends
        d >= 1,
{
    x % d == 0
}

/// The numerator of the textbook sum of the first `i` fractions,
/// formed by cross-multiplying pair by pair.
pub open spec fn sum_num_to(vals: Seq<Value>, i: int) -> int
    decreases i,
{
    if i <= 0 {
        0
    } else {
        sum_num_to(vals, i - 1) * (vals[i - 1].den as int) + (vals[i - 1].num as int)
            * sum_den_to(vals, i - 1)
    }
}

/// The denominator of the textbook sum of the first `i` fractions:
/// the product of their denominators.
pub open spec fn sum_den_to(vals: Seq<Value>, i: int) -> int
    decreases i,
{
    if i <= 0 {
        1
    } else {
        sum_den_to(vals, i - 1) * (vals[i - 1].den as int)
    }
}

/// The gcd divides both of its arguments.
proof fn lemma_gcd_divides(a: nat, b: nat)
    requires
        a + b >= 1,
    ensures
        gcd(a, b) >= 1,
        divides(gcd(a, b) as int, a as int),
        divides(gcd(a, b) as int, b as int),
    decreases b,
{
    lemma_gcd_bounds(a, b);
    if b == 0 {
        assert(a as int % (a as int) == 0) by (nonlinear_arith)
            requires
                a >= 1,
        ;
    } else {
        lemma_gcd_divides(b, a % b);
        let g = gcd(b, a % b) as int;
        // a = b * (a / b) + a % b, and g divides both summands.
        vstd::arithmetic::div_mod::lemma_fundamental_div_mod(a as int, b as int);
        let q1 = b as int / g;
        let q2 = (a % b) as int / g;
        vstd::arithmetic::div_mod::lemma_fundamental_div_mod(b as int, g);
        vstd::arithmetic::div_mod::lemma_fundamental_div_mod((a % b) as int, g);
        assert(b as int == g * q1);
        assert((a % b) as int == g * q2);
        assert(a as int == g * (q1 * (a as int / b as int) + q2)) by (nonlinear_arith)
            requires
                a as int == b as int * (a as int / b as int) + (a % b) as int,
                b as int == g * q1,
                (a % b) as int == g * q2,
        ;
        vstd::arithmetic::div_mod::lemma_fundamental_div_mod_converse_mod(
            a as int,
            g,
            q1 * (a as int / b as int) + q2,
            0,
        );
    }
}

/// A divisor of either argument divides their common multiple.
proof fn lemma_lcm_multiple(a: nat, b: nat, x: int)
    requires
        a >= 1,
        b >= 1,
        x >= 1,
        divides(x, a as int),
    ensures
        lcm(a, b) >= 1,
        divides(x, lcm(a, b) as int),
        divides(b as int, lcm(a, b) as int),
    decreases b,
{
    let g = gcd(a, b) as int;
    lemma_gcd_divides(a, b);
    vstd::arithmetic::div_mod::lemma_fundamental_div_mod(a as int, g);
    vstd::arithmetic::div_mod::lemma_fundamental_div_mod(b as int, g);
    let qa = a as int / g;
    let qb = b as int / g;
    assert(a as int == g * qa && b as int == g * qb);
    assert(qa >= 1) by (nonlinear_arith)
        requires
            a as int == g * qa,
            a >= 1,
            g >= 1,
    ;
    // lcm(a, b) = (a / g) * b = a * (b / g), a multiple of b and of a.
    assert(lcm(a, b) as int == qa * (b as int));
    assert(lcm(a, b) >= 1) by (nonlinear_arith)
        requires
            lcm(a, b) as int == qa * (b as int),
            qa >= 1,
            b >= 1,
    ;
    vstd::arithmetic::div_mod::lemma_fundamental_div_mod(a as int, x);
    let qx = a as int / x;
    assert(a as int == x * qx);
    assert(lcm(a, b) as int == x * (qx * qb)) by (nonlinear_arith)
        requires
            lcm(a, b) as int == qa * (b as int),
            a as int == g * qa,
            b as int == g * qb,
            a as int == x * qx,
            g >= 1,
    ;
    vstd::arithmetic::div_mod::lemma_fundamental_div_mod_converse_mod(
        lcm(a, b) as int,
        x,
        qx * qb,
        0,
    );
    assert(lcm(a, b) as int == (b as int) * qa);
    vstd::arithmetic::div_mod::lemma_fundamental_div_mod_converse_mod(
        lcm(a, b) as int,
        b as int,
        qa,
        0,
    );
}

/// Every denominator divides the running common denominator.
proof fn lemma_dens_divide_lcm(vals: Seq<Value>, i: int)
    requires
        all_wf(vals),
        0 <= i <= vals.len(),
    ensures
        dens_lcm_to(vals, i) >= 1,
        forall|j: int|
            0 <= j < i ==> divides((#[trigger] vals[j]).den as int, dens_lcm_to(vals, i) as int),
    decreases i,
{
    if i > 0 {
        lemma_dens_divide_lcm(vals, i - 1);
        let prev = dens_lcm_to(vals, i - 1);
        let d = vals[i - 1].den as nat;
        assert(vals[i - 1].wf());
        assert forall|j: int|
            0 <= j < i implies divides((#[trigger] vals[j]).den as int, dens_lcm_to(vals, i) as int) by {
            assert(vals[j].wf());
            if j < i - 1 {
                lemma_lcm_multiple(prev, d, vals[j].den as int);
            } else {
                lemma_lcm_multiple(prev, d, prev as int);
            }
        }
        lemma_lcm_multiple(prev, d, prev as int);
    }
}

/// The sum over the common denominator equals the textbook sum of the
/// fractions, as rationals: cross-multiplied, the two agree.
proof fn lemma_weighted_eq(vals: Seq<Value>, l: int, i: int)
    requires
        all_wf(vals),
        0 <= i <= vals.len(),
        l >= 1,
        forall|j: int| 0 <= j < i ==> divides((#[trigger] vals[j]).den as int, l),
    ensures
        sum_den_to(vals, i) >= 1,
        weighted_sum_to(vals, l, i) * sum_den_to(vals, i) == sum_num_to(vals, i) * l,
    decreases i,
{
    if i > 0 {
        lemma_weighted_eq(vals, l, i - 1);
        assert(vals[i - 1].wf());
        let d = vals[i - 1].den as int;
        let n = vals[i - 1].num as int;
        let w1 = weighted_sum_to(vals, l, i - 1);
        let d1 = sum_den_to(vals, i - 1);
        let s1 = sum_num_to(vals, i - 1);
        assert(divides(d, l));
        vstd::arithmetic::div_mod::lemma_fundamental_div_mod(l, d);
        assert(d * (l / d) == l);
        assert(sum_den_to(vals, i) >= 1) by (nonlinear_arith)
            requires
                sum_den_to(vals, i) == d1 * d,
                d1 >= 1,
                d >= 1,
        ;
        let q = l / d;
        assert(n * q * (d1 * d) == n * d1 * l) by (nonlinear_arith)
            requires
                d * q == l,
        ;
        assert(w1 * (d1 * d) == (s1 * d) * l) by (nonlinear_arith)
            requires
                w1 * d1 == s1 * l,
        ;
        assert((w1 + n * q) * (d1 * d) == (s1 * d + n * d1) * l) by (nonlinear_arith)
            requires
                n * q * (d1 * d) == n * d1 * l,
                w1 * (d1 * d) == (s1 * d) * l,
        ;
        assert(weighted_sum_to(vals, l, i) == w1 + n * q);
        assert(sum_den_to(vals, i) == d1 * d);
        assert(sum_num_to(vals, i) == s1 * d + n * d1);
    }
}

/// Rule 5 really is the arithmetic mean: as a rational, the reduced
/// value the mean computation defines equals the textbook sum of the
/// given fractions divided by their count.
pub proof fn lemma_mean_is_arithmetic_mean(vals: Seq<Value>)
    requires
        vals.len() >= 1,
        all_wf(vals),
    ensures
        sum_den_to(vals, vals.len() as int) >= 1,
        mean_den(vals) >= 1,
        mean_num(vals) * ((vals.len() as int) * sum_den_to(vals, vals.len() as int)) == sum_num_to(
            vals,
            vals.len() as int,
        ) * mean_den(vals),
{
    let k = vals.len() as int;
    lemma_dens_divide_lcm(vals, k);
    let l = dens_lcm(vals) as int;
    lemma_weighted_eq(vals, l, k);
    let w = mean_num_raw(vals);
    let s = sum_num_to(vals, k);
    let dd = sum_den_to(vals, k);
    let draw = mean_den_raw(vals);
    assert(draw == k * l);
    assert(draw >= 1) by (nonlinear_arith)
        requires
            draw == k * l,
            k >= 1,
            l >= 1,
    ;
    let g = mean_gcd(vals) as int;
    lemma_gcd_divides(abs_int(w) as nat, draw as nat);
    assert(g >= 1);
    // Reduction is exact: the gcd divides both parts.
    vstd::arithmetic::div_mod::lemma_fundamental_div_mod(abs_int(w), g);
    vstd::arithmetic::div_mod::lemma_fundamental_div_mod(draw, g);
    assert(g * (abs_int(w) / g) == abs_int(w));
    assert(g * (draw / g) == draw);
    let q = abs_int(mean_num_raw(vals)) as nat / mean_gcd(vals);
    assert(q == abs_int(w) / g);
    // The reduced numerator and denominator scale back by g.
    assert(mean_num(vals) * g == w) by {
        if w < 0 {
            assert(mean_num(vals) == -(q as int));
            assert((-(q as int)) * g == -(g * (abs_int(w) / g))) by (nonlinear_arith)
                requires
                    q == abs_int(w) / g,
            ;
        } else {
            assert(mean_num(vals) == q as int);
            assert((q as int) * g == g * (abs_int(w) / g)) by (nonlinear_arith)
                requires
                    q == abs_int(w) / g,
            ;
        }
    }
    assert(mean_den(vals) * g == draw) by (nonlinear_arith)
        requires
            mean_den(vals) == draw / g,
            g * (draw / g) == draw,
    ;
    assert(mean_den(vals) >= 1) by (nonlinear_arith)
        requires
            mean_den(vals) * g == draw,
            draw >= 1,
            g >= 1,
            mean_den(vals) >= 0,
    ;
    assert(mean_den(vals) >= 0) by {
        lemma_gcd_bounds(abs_int(w) as nat, draw as nat);
        lemma_div_is_ordered(0, draw, g);
    }
    // Cross-multiplied goal, first scaled by g * l, then cancelled.
    let gl = g * l;
    let mn = mean_num(vals);
    let md = mean_den(vals);
    let lhs = mn * (k * dd);
    let rhs = s * md;
    assert(gl >= 1) by (nonlinear_arith)
        requires
            g >= 1,
            l >= 1,
            gl == g * l,
    ;
    assert(lhs * gl == w * (k * dd) * l) by (nonlinear_arith)
        requires
            lhs == mn * (k * dd),
            mn * g == w,
            gl == g * l,
    ;
    assert(w * (k * dd) * l == s * (k * l) * l) by (nonlinear_arith)
        requires
            w * dd == s * l,
    ;
    assert(rhs * gl == s * (k * l) * l) by (nonlinear_arith)
        requires
            rhs == s * md,
            md * g == draw,
            draw == k * l,
            gl == g * l,
    ;
    assert(lhs * gl == rhs * gl);
    assert(lhs == rhs) by (nonlinear_arith)
        requires
            lhs * gl == rhs * gl,
            gl >= 1,
    ;
}

/// The arithmetic mean of the given values, as an exact reduced
/// rational; reports an error exactly when the exact fraction does not
/// fit the fixed-width representation.
pub fn mean_value(vals: &Vec<Value>) -> (r: Result<Value, ValueError>)
    requires
        vals@.len() >= 1,
        all_wf(vals@),
    ensures
        r matches Ok(v) ==> v.num == mean_num(vals@) && v.den == mean_den(vals@) && v.wf(),
        r is Ok <==> mean_fits(vals@),
{
    let ghost n = vals@.len() as int;

    // Fold the running common denominator of all the values.
    let mut l: i64 = 1;
    let mut i: usize = 0;
    while i < vals.len()
        invariant
            vals@.len() >= 1,
            all_wf(vals@),
            i <= vals@.len(),
            1 <= l,
            l == dens_lcm_to(vals@, i as int),
            dens_lcm_fits_to(vals@, i as int),
        decreases vals@.len() - i,
    {
        assert(vals@[i as int].wf());
        let d = vals[i].den;
        let g = gcd_i64(l, d);
        proof {
            lemma_gcd_bounds(l as nat, d as nat);
        }
        let q = l / g;
        assert(q >= 1) by {
            lemma_div_is_ordered(g as int, l as int, g as int);
        }
        match q.checked_mul(d) {
            Some(nl) => {
                assert(nl >= 1) by (nonlinear_arith)
                    requires
                        q >= 1,
                        d >= 1,
                        nl == q * d,
                ;
                l = nl;
            },
            None => {
                proof {
                    assert(!dens_lcm_fits_to(vals@, i as int + 1));
                    if dens_lcm_fits_to(vals@, vals@.len() as int) {
                        lemma_fits_prefix(vals@, i as int + 1, vals@.len() as int);
                    }
                }
                return Err(ValueError {});
            },
        }
        i = i + 1;
    }

    // Scale the denominator by the count of values.
    if (vals.len() as u64) > 0x7fff_ffff_ffff_ffffu64 {
        proof {
            assert(vals@.len() * dens_lcm(vals@) > i64::MAX) by (nonlinear_arith)
                requires
                    vals@.len() > i64::MAX,
                    dens_lcm(vals@) >= 1,
            ;
        }
        return Err(ValueError {});
    }
    let k = vals.len() as i64;
    let den_total = match k.checked_mul(l) {
        Some(dt) => dt,
        None => {
            return Err(ValueError {});
        },
    };
    assert(den_total >= 1) by (nonlinear_arith)
        requires
            k >= 1,
            l >= 1,
            den_total == k * l,
    ;

    // Sum the numerators over the common denominator.
    let mut sum: i64 = 0;
    let mut j: usize = 0;
    while j < vals.len()
        invariant
            all_wf(vals@),
            j <= vals@.len(),
            1 <= l,
            l == dens_lcm(vals@),
            den_total == vals@.len() * (l as int),
            den_total <= i64::MAX,
            sum == weighted_sum_to(vals@, l as int, j as int),
            -((j as int) * (l as int)) <= sum <= (j as int) * (l as int),
        decreases vals@.len() - j,
    {
        assert(vals@[j as int].wf());
        let v = vals[j];
        let q = l / v.den;
        proof {
            assert(0 <= q <= l) by {
                lemma_div_is_ordered(0, l as int, v.den as int);
                assert(l <= l * v.den) by (nonlinear_arith)
                    requires
                        l >= 1,
                        v.den >= 1,
                ;
                assert((l as int * v.den) / (v.den as int) == l) by (nonlinear_arith)
                    requires
                        v.den >= 1,
                ;
                lemma_div_is_ordered(l as int, l as int * v.den, v.den as int);
            }
            assert((v.den as int) * q <= l) by {
                vstd::arithmetic::div_mod::lemma_remainder_lower(l as int, v.den as int);
                assert((l as int) / (v.den as int) * (v.den as int) == (v.den as int) * q)
                    by (nonlinear_arith)
                    requires
                        q == (l as int) / (v.den as int),
                ;
            }
            assert(-(l as int) <= v.num * q <= l as int) by (nonlinear_arith)
                requires
                    -v.den <= v.num <= v.den,
                    0 <= q,
                    (v.den as int) * q <= l,
            ;
        }
        let term = v.num * q;
        proof {
            assert((j as int + 1) * (l as int) == (j as int) * (l as int) + l) by (nonlinear_arith);
            assert((j as int + 1) * (l as int) <= den_total) by {
                lemma_mul_inequality(j as int + 1, vals@.len() as int, l as int);
            }
        }
        sum = sum + term;
        j = j + 1;
    }

    // Reduce the fraction.
    let sum_abs = if sum < 0 {
        -sum
    } else {
        sum
    };
    let g = gcd_i64(sum_abs, den_total);
    proof {
        lemma_gcd_bounds(sum_abs as nat, den_total as nat);
    }
    let num_red = sum_abs / g;
    let den_red = den_total / g;
    proof {
        lemma_div_is_ordered(sum_abs as int, den_total as int, g as int);
        lemma_div_is_ordered(g as int, den_total as int, g as int);
    }
    let num_final = if sum < 0 {
        -num_red
    } else {
        num_red
    };
    Ok(Value { num: num_final, den: den_red })
}

} // verus!
