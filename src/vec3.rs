use vstd::prelude::*;

verus! {

/// Largest magnitude of a coordinate or radius accepted by the geometry kernel.
/// Coordinates are integers on a lattice; the bound keeps every intermediate
/// product of the distance formulas inside `i128`.
pub const COORD_MAX: i64 = 4096;

/// The fixed-point value that stands for the fraction 1 (surface parameters,
/// gradient positions).
pub const FRAC_ONE: i64 = 65536;

/// Bound on vector components for which dot products stay inside `i64`.
pub const DOT_MAX: i64 = 0x4000_0000;

/// A 3-component vector.
#[derive(Clone, Copy, Debug, PartialEq, Eq, Structural)]
pub struct Vec3<T> {
    pub x: T,
    pub y: T,
    pub z: T,
}

impl<T> Vec3<T> {
    pub fn new(x: T, y: T, z: T) -> (r: Vec3<T>)
        ensures
            r.x == x,
            r.y == y,
            r.z == z,
    {
        Vec3 { x, y, z }
    }
}

impl<T: Copy> Vec3<T> {
    /// The vector of a three-element list; none for any other length.
    pub fn try_from_vec(v: &Vec<T>) -> (r: Option<Vec3<T>>)
        ensures
            v.len() == 3 ==> r == Some(Vec3 { x: v@[0], y: v@[1], z: v@[2] }),
            v.len() != 3 ==> r is None,
    {
        if v.len() == 3 {
            Some(Vec3 { x: v[0], y: v[1], z: v[2] })
        } else {
            None
        }
    }
}

/// A lattice point or vector.
pub type Vec3i = Vec3<i64>;

pub open spec fn abs(a: int) -> int {
    if a < 0 { -a } else { a }
}

pub open spec fn min_int(a: int, b: int) -> int {
    if a < b { a } else { b }
}

pub open spec fn max_int(a: int, b: int) -> int {
    if a > b { a } else { b }
}

/// Every component has magnitude at most `m`.
pub open spec fn bounded_by(v: Vec3i, m: int) -> bool {
    abs(v.x as int) <= m && abs(v.y as int) <= m && abs(v.z as int) <= m
}

pub open spec fn dot_spec(a: Vec3i, b: Vec3i) -> int {
    a.x * b.x + a.y * b.y + a.z * b.z
}

pub open spec fn is_i64(v: int) -> bool {
    i64::MIN <= v <= i64::MAX
}

pub open spec fn add_spec(a: Vec3i, b: Vec3i) -> Vec3i {
    Vec3 { x: (a.x + b.x) as i64, y: (a.y + b.y) as i64, z: (a.z + b.z) as i64 }
}

pub open spec fn sub_spec(a: Vec3i, b: Vec3i) -> Vec3i {
    Vec3 { x: (a.x - b.x) as i64, y: (a.y - b.y) as i64, z: (a.z - b.z) as i64 }
}

pub open spec fn mul_spec(a: Vec3i, b: Vec3i) -> Vec3i {
    Vec3 { x: (a.x * b.x) as i64, y: (a.y * b.y) as i64, z: (a.z * b.z) as i64 }
}

/// Componentwise quotient, rounded down.
pub open spec fn div_spec(a: Vec3i, b: Vec3i) -> Vec3i {
    Vec3 {
        x: (a.x as int / b.x as int) as i64,
        y: (a.y as int / b.y as int) as i64,
        z: (a.z as int / b.z as int) as i64,
    }
}

pub open spec fn add_scalar_spec(a: Vec3i, k: int) -> Vec3i {
    Vec3 { x: (a.x + k) as i64, y: (a.y + k) as i64, z: (a.z + k) as i64 }
}

pub open spec fn minimum_spec(a: Vec3i, b: Vec3i) -> Vec3i {
    Vec3 {
        x: min_int(a.x as int, b.x as int) as i64,
        y: min_int(a.y as int, b.y as int) as i64,
        z: min_int(a.z as int, b.z as int) as i64,
    }
}

pub open spec fn maximum_spec(a: Vec3i, b: Vec3i) -> Vec3i {
    Vec3 {
        x: max_int(a.x as int, b.x as int) as i64,
        y: max_int(a.y as int, b.y as int) as i64,
        z: max_int(a.z as int, b.z as int) as i64,
    }
}

/// `k` of `a` plus the rest of `b`, with `k` a fraction of `FRAC_ONE`, rounded down.
pub open spec fn interpolate_spec(a: Vec3i, b: Vec3i, k: int) -> Vec3i {
    Vec3 {
        x: ((a.x * k + b.x * (FRAC_ONE - k)) / (FRAC_ONE as int)) as i64,
        y: ((a.y * k + b.y * (FRAC_ONE - k)) / (FRAC_ONE as int)) as i64,
        z: ((a.z * k + b.z * (FRAC_ONE - k)) / (FRAC_ONE as int)) as i64,
    }
}

pub proof fn lemma_mul_bound(a: int, b: int, ma: int, mb: int)
    requires
        abs(a) <= ma,
        abs(b) <= mb,
    ensures
        abs(a * b) <= ma * mb,
        -(ma * mb) <= a * b <= ma * mb,
{
    assert(abs(a * b) == abs(a) * abs(b)) by (nonlinear_arith);
    assert(abs(a) * abs(b) <= ma * mb) by (nonlinear_arith)
        requires
            0 <= abs(a) <= ma,
            0 <= abs(b) <= mb,
    ;
}

impl Vec3<i64> {
    pub fn add(self, rhs: Vec3i) -> (r: Vec3i)
        requires
            is_i64(self.x + rhs.x),
            is_i64(self.y + rhs.y),
            is_i64(self.z + rhs.z),
        ensures
            r == add_spec(self, rhs),
    {
        Vec3::new(self.x + rhs.x, self.y + rhs.y, self.z + rhs.z)
    }

    pub fn sub(self, rhs: Vec3i) -> (r: Vec3i)
        requires
            is_i64(self.x - rhs.x),
            is_i64(self.y - rhs.y),
            is_i64(self.z - rhs.z),
        ensures
            r == sub_spec(self, rhs),
    {
        Vec3::new(self.x - rhs.x, self.y - rhs.y, self.z - rhs.z)
    }

    pub fn add_scalar(self, k: i64) -> (r: Vec3i)
        requires
            is_i64(self.x + k),
            is_i64(self.y + k),
            is_i64(self.z + k),
        ensures
            r == add_scalar_spec(self, k as int),
    {
        Vec3::new(self.x + k, self.y + k, self.z + k)
    }

    pub fn sub_scalar(self, k: i64) -> (r: Vec3i)
        requires
            is_i64(self.x - k),
            is_i64(self.y - k),
            is_i64(self.z - k),
        ensures
            r == add_scalar_spec(self, -k),
    {
        Vec3::new(self.x - k, self.y - k, self.z - k)
    }

    /// Componentwise product.
    pub fn mul(self, rhs: Vec3i) -> (r: Vec3i)
        requires
            bounded_by(self, DOT_MAX as int),
            bounded_by(rhs, DOT_MAX as int),
        ensures
            r == mul_spec(self, rhs),
    {
        proof {
            let m = DOT_MAX as int;
            lemma_mul_bound(self.x as int, rhs.x as int, m, m);
            lemma_mul_bound(self.y as int, rhs.y as int, m, m);
            lemma_mul_bound(self.z as int, rhs.z as int, m, m);
        }
        Vec3::new(self.x * rhs.x, self.y * rhs.y, self.z * rhs.z)
    }

    /// Componentwise quotient by positive divisors, rounded down.
    pub fn div(self, rhs: Vec3i) -> (r: Vec3i)
        requires
            self.x > i64::MIN && self.y > i64::MIN && self.z > i64::MIN,
            rhs.x > 0 && rhs.y > 0 && rhs.z > 0,
        ensures
            r == div_spec(self, rhs),
    {
        Vec3::new(floor_div(self.x, rhs.x), floor_div(self.y, rhs.y), floor_div(self.z, rhs.z))
    }

    /// Every component over a positive `k`, rounded down.
    pub fn div_scalar(self, k: i64) -> (r: Vec3i)
        requires
            self.x > i64::MIN && self.y > i64::MIN && self.z > i64::MIN,
            k > 0,
        ensures
            r == div_spec(self, Vec3 { x: k, y: k, z: k }),
    {
        self.div(Vec3::new(k, k, k))
    }

    /// Every component times `k`.
    pub fn scale(self, k: i64) -> (r: Vec3i)
        requires
            bounded_by(self, DOT_MAX as int),
            abs(k as int) <= DOT_MAX,
        ensures
            r == mul_spec(self, Vec3 { x: k, y: k, z: k }),
    {
        self.mul(Vec3::new(k, k, k))
    }

    pub fn dot(self, b: Vec3i) -> (r: i64)
        requires
            bounded_by(self, DOT_MAX as int),
            bounded_by(b, DOT_MAX as int),
        ensures
            r == dot_spec(self, b),
    {
        dot(self, b)
    }

    pub fn dot2(self) -> (r: i64)
        requires
            bounded_by(self, DOT_MAX as int),
        ensures
            r == dot_spec(self, self),
            r >= 0,
    {
        proof {
            assert(self.x * self.x >= 0 && self.y * self.y >= 0 && self.z * self.z >= 0)
                by (nonlinear_arith);
        }
        dot(self, self)
    }

    /// Euclidean norm, rounded down.
    pub fn norm(self) -> (r: i64)
        requires
            bounded_by(self, DOT_MAX as int),
        ensures
            r >= 0,
            r * r <= dot_spec(self, self) < (r + 1) * (r + 1),
    {
        norm(self)
    }

    /// This vector scaled to length `FRAC_ONE`; zero stays zero.
    pub fn normalize(self) -> (r: Vec3i)
        requires
            bounded_by(self, DOT_MAX as int),
        ensures
            r == normalize_spec(self),
    {
        normalize(self)
    }

    pub fn interpolate(self, v: Vec3i, k: i64) -> (r: Vec3i)
        requires
            bounded_by(self, DOT_MAX as int),
            bounded_by(v, DOT_MAX as int),
            abs(k as int) <= DOT_MAX,
        ensures
            r == interpolate_spec(self, v, k as int),
    {
        interpolate(self, v, k)
    }
}

pub fn dot(a: Vec3i, b: Vec3i) -> (r: i64)
    requires
        bounded_by(a, DOT_MAX as int),
        bounded_by(b, DOT_MAX as int),
    ensures
        r == dot_spec(a, b),
{
    proof {
        let m = DOT_MAX as int;
        lemma_mul_bound(a.x as int, b.x as int, m, m);
        lemma_mul_bound(a.y as int, b.y as int, m, m);
        lemma_mul_bound(a.z as int, b.z as int, m, m);
    }
    a.x * b.x + a.y * b.y + a.z * b.z
}

pub fn maximum(a: Vec3i, b: Vec3i) -> (r: Vec3i)
    ensures
        r == maximum_spec(a, b),
{
    let x = if a.x > b.x { a.x } else { b.x };
    let y = if a.y > b.y { a.y } else { b.y };
    let z = if a.z > b.z { a.z } else { b.z };
    Vec3::new(x, y, z)
}

pub fn minimum(a: Vec3i, b: Vec3i) -> (r: Vec3i)
    ensures
        r == minimum_spec(a, b),
{
    let x = if a.x < b.x { a.x } else { b.x };
    let y = if a.y < b.y { a.y } else { b.y };
    let z = if a.z < b.z { a.z } else { b.z };
    Vec3::new(x, y, z)
}

/// Bound on the argument of `isqrt`.
pub const SQRT_ARG_MAX: u128 = 0x100_0000_0000_0000_0000_0000_0000_0000;

/// Largest `r` with `r * r <= n`.
pub fn isqrt(n: u128) -> (r: u128)
    requires
        n < SQRT_ARG_MAX,
    ensures
        r * r <= n < (r + 1) * (r + 1),
        r < 0x1000_0000_0000_0000u128,
{
    let mut lo: u128 = 0;
    let mut hi: u128 = 0x1000_0000_0000_0000u128;
    assert(hi * hi == SQRT_ARG_MAX) by (nonlinear_arith)
        requires hi == 0x1000_0000_0000_0000u128;
    while lo + 1 < hi
        invariant
            lo < hi <= 0x1000_0000_0000_0000u128,
            lo * lo <= n,
            n < hi * hi,
        decreases hi - lo,
    {
        let mid = lo + (hi - lo) / 2;
        assert(mid * mid <= 0x1000_0000_0000_0000u128 * 0x1000_0000_0000_0000u128)
            by (nonlinear_arith)
            requires mid <= 0x1000_0000_0000_0000u128, 0 <= mid;
        if mid * mid <= n {
            lo = mid;
        } else {
            hi = mid;
        }
    }
    lo
}

/// Euclidean norm, rounded down.
pub fn norm(v: Vec3i) -> (r: i64)
    requires
        bounded_by(v, DOT_MAX as int),
    ensures
        r >= 0,
        r * r <= dot_spec(v, v) < (r + 1) * (r + 1),
{
    let d = v.dot2();
    proof {
        let m = DOT_MAX as int;
        lemma_mul_bound(v.x as int, v.x as int, m, m);
        lemma_mul_bound(v.y as int, v.y as int, m, m);
        lemma_mul_bound(v.z as int, v.z as int, m, m);
    }
    let s = isqrt(d as u128);
    assert(s <= 0x8000_0000u128) by {
        if s > 0x8000_0000u128 {
            assert(s * s > 0x8000_0000u128 * 0x8000_0000u128) by (nonlinear_arith)
                requires s > 0x8000_0000u128;
        }
    }
    s as i64
}

/// `a k + b (1 - k)` with `k` a fraction of `FRAC_ONE`, rounded down:
/// `k == FRAC_ONE` gives `a`, `k == 0` gives `b`; other `k`, negative or beyond
/// `FRAC_ONE`, extrapolate.
pub fn interpolate(a: Vec3i, b: Vec3i, k: i64) -> (r: Vec3i)
    requires
        bounded_by(a, DOT_MAX as int),
        bounded_by(b, DOT_MAX as int),
        abs(k as int) <= DOT_MAX,
    ensures
        r == interpolate_spec(a, b, k as int),
{
    let j = FRAC_ONE - k;
    proof {
        let m = DOT_MAX as int;
        let f = FRAC_ONE as int;
        lemma_mul_bound(a.x as int, k as int, m, m);
        lemma_mul_bound(a.y as int, k as int, m, m);
        lemma_mul_bound(a.z as int, k as int, m, m);
        lemma_mul_bound(b.x as int, j as int, m, m + f);
        lemma_mul_bound(b.y as int, j as int, m, m + f);
        lemma_mul_bound(b.z as int, j as int, m, m + f);
    }
    Vec3::new(
        floor_div(a.x * k + b.x * j, FRAC_ONE),
        floor_div(a.y * k + b.y * j, FRAC_ONE),
        floor_div(a.z * k + b.z * j, FRAC_ONE),
    )
}

/// Division rounded toward negative infinity.
pub fn floor_div(a: i64, b: i64) -> (r: i64)
    requires
        b > 0,
        a > i64::MIN,
    ensures
        r == a as int / b as int,
{
    if a >= 0 {
        a / b
    } else {
        let q = (-a - 1) / b;
        assert(q == ((-a - 1) as int) / (b as int));
        proof { lemma_floor_div_neg(a as int, b as int); }
        -q - 1
    }
}

pub proof fn lemma_floor_div_neg(a: int, b: int)
    requires
        a < 0,
        b > 0,
    ensures
        a / b == -((-a - 1) / b) - 1,
{
    let q = (-a - 1) / b;
    let r = (-a - 1) % b;
    assert(-a - 1 == q * b + r && 0 <= r < b) by (nonlinear_arith)
        requires q == (-a - 1) / b, r == (-a - 1) % b, b > 0;
    assert(a == (-q - 1) * b + (b - 1 - r)) by (nonlinear_arith)
        requires -a - 1 == q * b + r;
    vstd::arithmetic::div_mod::lemma_fundamental_div_mod_converse(a, b, -q - 1, b - 1 - r);
}

/// Floor of the square root of `n` (zero for negative `n`).
pub open spec fn floor_sqrt(n: int) -> int
    decreases n,
{
    if n <= 0 {
        0
    } else {
        let r = floor_sqrt(n - 1);
        if (r + 1) * (r + 1) <= n {
            r + 1
        } else {
            r
        }
    }
}

pub proof fn lemma_floor_sqrt(n: int)
    requires
        n >= 0,
    ensures
        floor_sqrt(n) >= 0,
        floor_sqrt(n) * floor_sqrt(n) <= n < (floor_sqrt(n) + 1) * (floor_sqrt(n) + 1),
        floor_sqrt(n) <= n,
    decreases n,
{
    if n > 0 {
        lemma_floor_sqrt(n - 1);
        let r = floor_sqrt(n - 1);
        if (r + 1) * (r + 1) <= n {
            assert((r + 1) * (r + 1) <= n < (r + 2) * (r + 2)) by (nonlinear_arith)
                requires r >= 0, r * r <= n - 1 < (r + 1) * (r + 1), (r + 1) * (r + 1) <= n;
            assert(r + 1 <= n) by (nonlinear_arith)
                requires r >= 0, (r + 1) * (r + 1) <= n;
        }
    }
}

/// The floor square root is the one value that brackets `n`.
pub proof fn lemma_floor_sqrt_unique(n: int, s: int)
    requires
        s >= 0,
        s * s <= n < (s + 1) * (s + 1),
    ensures
        floor_sqrt(n) == s,
{
    lemma_floor_sqrt(n);
    let t = floor_sqrt(n);
    if t < s {
        assert((t + 1) * (t + 1) <= s * s) by (nonlinear_arith)
            requires 0 <= t, t + 1 <= s;
    } else if t > s {
        assert((s + 1) * (s + 1) <= t * t) by (nonlinear_arith)
            requires 0 <= s, s + 1 <= t;
    }
}

/// `floor_sqrt` does not decrease.
pub proof fn lemma_floor_sqrt_monotone(m: int, n: int)
    requires
        0 <= m <= n,
    ensures
        floor_sqrt(m) <= floor_sqrt(n),
{
    lemma_floor_sqrt(m);
    lemma_floor_sqrt(n);
    let a = floor_sqrt(m);
    let b = floor_sqrt(n);
    if a > b {
        assert((b + 1) * (b + 1) <= a * a) by (nonlinear_arith)
            requires 0 <= b, b + 1 <= a;
    }
}

/// Floor square root of a value below `SQRT_ARG_MAX`.
pub fn floor_sqrt_exec(n: u128) -> (r: u128)
    requires
        n < SQRT_ARG_MAX,
    ensures
        r == floor_sqrt(n as int),
        r < 0x1000_0000_0000_0000u128,
{
    let r = isqrt(n);
    proof {
        lemma_floor_sqrt_unique(n as int, r as int);
    }
    r
}

/// Floor division of `n` by a positive `d`, in `i128`.
pub fn floor_div_i128(n: i128, d: i128) -> (r: i128)
    requires
        d > 0,
        n > i128::MIN,
    ensures
        r == n as int / d as int,
{
    if n >= 0 {
        n / d
    } else {
        let q = (-n - 1) / d;
        proof {
            lemma_floor_div_neg(n as int, d as int);
        }
        -q - 1
    }
}

/// Dividing by a positive integer does not grow a magnitude.
pub proof fn lemma_div_abs_le(n: int, d: int)
    requires
        d >= 1,
    ensures
        abs(n / d) <= abs(n),
{
    let q = n / d;
    let r = n % d;
    assert(n == q * d + r && 0 <= r < d) by (nonlinear_arith)
        requires
            q == n / d,
            r == n % d,
            d >= 1,
    ;
    if n >= 0 {
        assert(0 <= q <= n) by (nonlinear_arith)
            requires
                n == q * d + r,
                0 <= r < d,
                d >= 1,
                n >= 0,
        ;
    } else {
        assert(n <= q < 0) by (nonlinear_arith)
            requires
                n == q * d + r,
                0 <= r < d,
                d >= 1,
                n < 0,
        ;
    }
}

/// Dividing by `d` a value of magnitude at most `m * d` leaves at most `m`.
pub proof fn lemma_div_bound(n: int, d: int, m: int)
    requires
        d >= 1,
        m >= 0,
        abs(n) <= m * d,
    ensures
        abs(n / d) <= m,
{
    let q = n / d;
    let r = n % d;
    assert(n == q * d + r && 0 <= r < d) by (nonlinear_arith)
        requires
            q == n / d,
            r == n % d,
            d >= 1,
    ;
    assert(-m <= q <= m) by (nonlinear_arith)
        requires
            n == q * d + r,
            0 <= r < d,
            d >= 1,
            m >= 0,
            -(m * d) <= n <= m * d,
    ;
}

/// Each component over the norm (rounded down), as fractions of `FRAC_ONE`; the
/// zero vector stays as it is.
pub open spec fn normalize_spec(v: Vec3i) -> Vec3i {
    let n = floor_sqrt(dot_spec(v, v));
    if n == 0 {
        v
    } else {
        Vec3 {
            x: ((v.x * FRAC_ONE) / n) as i64,
            y: ((v.y * FRAC_ONE) / n) as i64,
            z: ((v.z * FRAC_ONE) / n) as i64,
        }
    }
}

/// `v` scaled to length `FRAC_ONE`; the zero vector is returned unchanged.
pub fn normalize(v: Vec3i) -> (r: Vec3i)
    requires
        bounded_by(v, DOT_MAX as int),
    ensures
        r == normalize_spec(v),
{
    let n = norm(v);
    proof {
        lemma_floor_sqrt_unique(dot_spec(v, v), n as int);
    }
    if n == 0 {
        return v;
    }
    proof {
        let m = DOT_MAX as int;
        lemma_mul_bound(v.x as int, FRAC_ONE as int, m, FRAC_ONE as int);
        lemma_mul_bound(v.y as int, FRAC_ONE as int, m, FRAC_ONE as int);
        lemma_mul_bound(v.z as int, FRAC_ONE as int, m, FRAC_ONE as int);
    }
    Vec3::new(
        floor_div(v.x * FRAC_ONE, n),
        floor_div(v.y * FRAC_ONE, n),
        floor_div(v.z * FRAC_ONE, n),
    )
}

} // verus!
