//! Points in 3-D integer space and the floored Euclidean distance between them.

use crate::parse::{find_comma, first_comma, parse_signed, signed_field};
use vstd::prelude::*;
use vstd::string::StringSliceAdditionalSpecFns;

verus! {

/// A point with signed integer coordinates.
#[derive(Debug, Clone, Copy, PartialEq, Eq, Structural)]
pub struct JBox {
    pub x: i64,
    pub y: i64,
    pub z: i64,
}

/// The squared Euclidean distance between two points.
pub open spec fn sq_dist(a: JBox, b: JBox) -> int {
    (a.x - b.x) * (a.x - b.x) + (a.y - b.y) * (a.y - b.y) + (a.z - b.z) * (a.z - b.z)
}

/// The point that a line of three comma-separated integers writes. A third
/// comma, or anything else that is no part of a number, leaves no point.
pub open spec fn point_of(s: Seq<u8>) -> Option<JBox> {
    let first = first_comma(s, 0);
    let second = first_comma(s, first + 1);
    if first < s.len() && second < s.len() {
        match (
            signed_field(s, 0, first),
            signed_field(s, first + 1, second),
            signed_field(s, second + 1, s.len() as int),
        ) {
            (Some(x), Some(y), Some(z)) => Some(JBox { x, y, z }),
            _ => None,
        }
    } else {
        None
    }
}

/// `r` is the integer square root of `n`: the largest integer whose square is at most `n`.
pub open spec fn is_floor_sqrt(n: int, r: int) -> bool {
    0 <= r && r * r <= n && n < (r + 1) * (r + 1)
}

/// Every pair of points is close enough for its squared distance to fit in an `i64`.
pub open spec fn distances_fit(points: Seq<JBox>) -> bool {
    forall|i: int, j: int|
        0 <= i < points.len() && 0 <= j < points.len() ==> sq_dist(
            #[trigger] points[i],
            #[trigger] points[j],
        ) <= i64::MAX
}

/// The largest integer whose square fits in an `i64`.
pub const ROOT_LIMIT: i128 = 3037000499;

/// A square is not negative; it fits in an `i64` only if its root is within the limit.
proof fn lemma_square_bounds(d: int)
    ensures
        d * d >= 0,
        -3037000499 <= d <= 3037000499 ==> d * d <= 3037000499 * 3037000499,
        d < -3037000499 || d > 3037000499 ==> d * d > i64::MAX,
{
    assert(d * d >= 0) by (nonlinear_arith);
    if -3037000499 <= d <= 3037000499 {
        assert(d * d <= 3037000499 * 3037000499) by (nonlinear_arith)
            requires
                -3037000499 <= d <= 3037000499,
        ;
    } else {
        assert(d * d >= 3037000500 * 3037000500) by (nonlinear_arith)
            requires
                d <= -3037000500 || d >= 3037000500,
        ;
    }
}

/// The integer square root is monotone.
pub proof fn lemma_floor_sqrt_monotone(n: int, r: int, m: int, s: int)
    requires
        is_floor_sqrt(n, r),
        is_floor_sqrt(m, s),
        n <= m,
    ensures
        r <= s,
{
    if r > s {
        assert((s + 1) * (s + 1) <= r * r) by (nonlinear_arith)
            requires
                0 <= s + 1 <= r,
        ;
    }
}

/// The integer square root is unique.
pub proof fn lemma_floor_sqrt_unique(n: int, r: int, s: int)
    requires
        is_floor_sqrt(n, r),
        is_floor_sqrt(n, s),
    ensures
        r == s,
{
    lemma_floor_sqrt_monotone(n, r, n, s);
    lemma_floor_sqrt_monotone(n, s, n, r);
}

/// Integer square root by bisection.
pub fn isqrt(n: u64) -> (r: u64)
    ensures
        is_floor_sqrt(n as int, r as int),
        r < 0x1_0000_0000,
{
    let mut lo: u64 = 0;
    let mut hi: u64 = 0x1_0000_0000;
    assert(hi * hi > n) by (nonlinear_arith)
        requires
            hi == 0x1_0000_0000,
            n <= u64::MAX,
    ;
    while hi - lo > 1
        invariant
            lo < hi <= 0x1_0000_0000,
            lo * lo <= n,
            n < hi * hi,
        decreases hi - lo,
    {
        let mid: u64 = lo + (hi - lo) / 2;
        assert(mid * mid <= 0xffff_ffff * 0xffff_ffff) by (nonlinear_arith)
            requires
                0 <= mid <= 0xffff_ffff,
        ;
        if mid * mid <= n {
            lo = mid;
        } else {
            hi = mid;
        }
    }
    lo
}

impl JBox {
    /// Reads a point from three comma-separated integers; nothing where the
    /// text is not that.
    pub fn new(txt: &str) -> (p: Option<JBox>)
        ensures
            p == point_of(txt.spec_bytes()),
    {
        let bytes = txt.as_bytes();
        let first: usize = find_comma(bytes, 0);
        if first >= bytes.len() {
            return None;
        }
        let second: usize = find_comma(bytes, first + 1);
        if second >= bytes.len() {
            return None;
        }
        let x = parse_signed(bytes, 0, first);
        let y = parse_signed(bytes, first + 1, second);
        let z = parse_signed(bytes, second + 1, bytes.len());
        match (x, y, z) {
            (Some(x), Some(y), Some(z)) => Some(JBox { x, y, z }),
            _ => None,
        }
    }

    /// The floored Euclidean distance between two points.
    pub fn distance(&self, other: &JBox) -> (d: i64)
        requires
            sq_dist(*self, *other) <= i64::MAX,
        ensures
            is_floor_sqrt(sq_dist(*self, *other), d as int),
    {
        let s: u64 = sq_distance(self, other);
        let r: u64 = isqrt(s);
        r as i64
    }

    /// The distance from this point to each of `others`, in order.
    pub fn get_distances(&self, others: &[JBox]) -> (out: Vec<(i64, JBox)>)
        requires
            forall|k: int| 0 <= k < others@.len() ==> sq_dist(*self, #[trigger] others@[k]) <= i64::MAX,
        ensures
            out@.len() == others@.len(),
            forall|k: int|
                0 <= k < others@.len() ==> (#[trigger] out@[k]).1 == others@[k] && is_floor_sqrt(
                    sq_dist(*self, others@[k]),
                    out@[k].0 as int,
                ),
    {
        let mut out: Vec<(i64, JBox)> = Vec::new();
        let mut k: usize = 0;
        while k < others.len()
            invariant
                k <= others@.len(),
                out@.len() == k,
                forall|m: int| 0 <= m < others@.len() ==> sq_dist(*self, #[trigger] others@[m]) <= i64::MAX,
                forall|m: int|
                    0 <= m < k ==> (#[trigger] out@[m]).1 == others@[m] && is_floor_sqrt(
                        sq_dist(*self, others@[m]),
                        out@[m].0 as int,
                    ),
            decreases others@.len() - k,
        {
            let pos: JBox = others[k];
            out.push((self.distance(&pos), pos));
            k += 1;
        }
        out
    }
}

/// Whether the squared distance between two points fits in an `i64`.
pub fn sq_dist_fits(a: &JBox, b: &JBox) -> (fits: bool)
    ensures
        fits == (sq_dist(*a, *b) <= i64::MAX),
{
    let dx: i128 = a.x as i128 - b.x as i128;
    let dy: i128 = a.y as i128 - b.y as i128;
    let dz: i128 = a.z as i128 - b.z as i128;
    proof {
        lemma_square_bounds(dx as int);
        lemma_square_bounds(dy as int);
        lemma_square_bounds(dz as int);
    }
    if dx < -ROOT_LIMIT || dx > ROOT_LIMIT || dy < -ROOT_LIMIT || dy > ROOT_LIMIT || dz < -ROOT_LIMIT || dz
        > ROOT_LIMIT {
        return false;
    }
    dx * dx + dy * dy + dz * dz <= i64::MAX as i128
}

/// Whether every pair of the points is close enough for the edge generator.
pub fn all_distances_fit(points: &[JBox]) -> (fits: bool)
    ensures
        fits == distances_fit(points@),
{
    let mut i: usize = 0;
    while i < points.len()
        invariant
            i <= points@.len(),
            forall|c: int, d: int|
                0 <= c < i && 0 <= d < points@.len() ==> sq_dist(#[trigger] points@[c], #[trigger] points@[d])
                    <= i64::MAX,
        decreases points@.len() - i,
    {
        let mut j: usize = 0;
        while j < points.len()
            invariant
                i < points@.len(),
                j <= points@.len(),
                forall|c: int, d: int|
                    0 <= c < i && 0 <= d < points@.len() ==> sq_dist(
                        #[trigger] points@[c],
                        #[trigger] points@[d],
                    ) <= i64::MAX,
                forall|d: int| 0 <= d < j ==> sq_dist(points@[i as int], #[trigger] points@[d]) <= i64::MAX,
            decreases points@.len() - j,
        {
            if !sq_dist_fits(&points[i], &points[j]) {
                return false;
            }
            j += 1;
        }
        i += 1;
    }
    true
}

/// The squared Euclidean distance between two points, where it fits.
pub fn sq_distance(a: &JBox, b: &JBox) -> (s: u64)
    requires
        sq_dist(*a, *b) <= i64::MAX,
    ensures
        s == sq_dist(*a, *b),
{
    let dx: i128 = a.x as i128 - b.x as i128;
    let dy: i128 = a.y as i128 - b.y as i128;
    let dz: i128 = a.z as i128 - b.z as i128;
    assert(dx * dx >= 0 && dy * dy >= 0 && dz * dz >= 0) by (nonlinear_arith);
    let s: i128 = dx * dx + dy * dy + dz * dz;
    s as u64
}

} // verus!
