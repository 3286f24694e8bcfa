//! The path sampler: a polyline in the horizontal plane with a table of
//! cumulative arc lengths, queried by the normalised path parameter.
use vstd::prelude::*;
use crate::chain::S_ONE;

verus! {

/// Largest absolute value of a path coordinate, in micrometres.
pub const COORD_LIMIT: i64 = 100_000_000;

/// Largest number of points of a path.
pub const MAX_PATH_POINTS: usize = 60_000;

/// Upper bound of the length of one segment between two admissible points.
pub const MAX_SEGMENT: u64 = 300_000_000;

/// Number of segments into which a cubic curve is sampled.
pub const CURVE_STEPS: u64 = 64;

pub open spec fn coord_ok(c: i64) -> bool {
    -COORD_LIMIT <= c <= COORD_LIMIT
}

pub open spec fn point_ok(p: (i64, i64)) -> bool {
    coord_ok(p.0) && coord_ok(p.1)
}

pub open spec fn points_ok(pts: Seq<(i64, i64)>) -> bool {
    &&& pts.len() <= MAX_PATH_POINTS
    &&& forall|k: int| 0 <= k < pts.len() ==> point_ok(#[trigger] pts[k])
}

/// Squared distance between two points of the plane.
pub open spec fn dist2(a: (i64, i64), b: (i64, i64)) -> int {
    (b.0 - a.0) * (b.0 - a.0) + (b.1 - a.1) * (b.1 - a.1)
}

/// `r` is the square root of `n`, rounded down.
pub open spec fn is_floor_sqrt(n: int, r: int) -> bool {
    0 <= r && r * r <= n < (r + 1) * (r + 1)
}

/// Segment `k` of the table `cum` measures the distance from point `k` to
/// point `k + 1`.
pub open spec fn seg_ok(pts: Seq<(i64, i64)>, cum: Seq<u64>, k: int) -> bool {
    is_floor_sqrt(dist2(pts[k], pts[k + 1]), cum[k + 1] - cum[k])
}

/// Square root rounded down.
pub fn floor_sqrt(n: u64) -> (r: u64)
    ensures
        is_floor_sqrt(n as int, r as int),
{
    let mut lo: u64 = 0;
    let mut hi: u64 = 0x1_0000_0000;
    assert(n < hi * hi) by (nonlinear_arith)
        requires
            n <= 0xffff_ffff_ffff_ffffu64,
            hi == 0x1_0000_0000u64,
    ;
    while hi - lo > 1
        invariant
            lo < hi <= 0x1_0000_0000u64,
            lo * lo <= n,
            n < hi * hi,
        decreases hi - lo,
    {
        let mid = lo + (hi - lo) / 2;
        assert((mid as u128) * (mid as u128) <= 0x1_0000_0000u128 * 0x1_0000_0000u128)
            by (nonlinear_arith)
            requires
                mid <= 0x1_0000_0000u64,
        ;
        let sq: u128 = (mid as u128) * (mid as u128);
        if sq <= n as u128 {
            lo = mid;
        } else {
            hi = mid;
        }
    }
    assert(hi == lo + 1);
    lo
}

/// A polyline path. `cum[k]` is the arc length from the first point to point
/// `k`; each segment's length is the rounded-down Euclidean distance.
pub struct Path {
    pub points: Vec<(i64, i64)>,
    pub cum: Vec<u64>,
    pub total: u64,
}

impl Path {
    pub open spec fn wf(&self) -> bool {
        &&& points_ok(self.points@)
        &&& self.cum@.len() == self.points@.len()
        &&& self.points@.len() > 0 ==> self.cum@[0] == 0
        &&& forall|k: int|
            0 <= k < self.points@.len() - 1 ==> #[trigger] seg_ok(self.points@, self.cum@, k)
        &&& self.total == if self.points@.len() == 0 {
            0
        } else {
            self.cum@[self.points@.len() - 1]
        }
        &&& forall|k: int|
            0 <= k < self.cum@.len() ==> #[trigger] self.cum@[k] <= k * MAX_SEGMENT
    }

    /// Builds a path through `points`, measuring each segment.
    pub fn from_points(points: Vec<(i64, i64)>) -> (r: Path)
        requires
            points_ok(points@),
        ensures
            r.wf(),
            r.points@ == points@,
    {
        let n = points.len();
        let mut cum: Vec<u64> = Vec::new();
        if n > 0 {
            cum.push(0);
        }
        let mut k: usize = 1;
        while k < n
            invariant
                points_ok(points@),
                n == points@.len(),
                1 <= k,
                n > 0 ==> k <= n,
                n > 0 ==> cum@.len() == k,
                n == 0 ==> cum@.len() == 0,
                n > 0 ==> cum@[0] == 0,
                forall|j: int| 0 <= j < cum@.len() - 1 ==> #[trigger] seg_ok(points@, cum@, j),
                forall|j: int| 0 <= j < cum@.len() ==> #[trigger] cum@[j] <= j * MAX_SEGMENT,
            decreases n - k,
        {
            let a = points[k - 1];
            let b = points[k];
            proof {
                assert(point_ok(points@[k - 1]));
                assert(point_ok(points@[k as int]));
            }
            let seg = segment_length(a, b);
            let prev = cum[k - 1];
            assert(prev <= (k - 1) * MAX_SEGMENT);
            assert((k - 1) * MAX_SEGMENT + MAX_SEGMENT == k * MAX_SEGMENT) by (nonlinear_arith);
            assert(k * MAX_SEGMENT <= MAX_PATH_POINTS * MAX_SEGMENT) by (nonlinear_arith)
                requires
                    k <= MAX_PATH_POINTS,
            ;
            let ghost before = cum@;
            cum.push(prev + seg);
            assert forall|j: int| 0 <= j < cum@.len() - 1 implies #[trigger] seg_ok(
                points@,
                cum@,
                j,
            ) by {
                if j < k - 1 {
                    assert(seg_ok(points@, before, j));
                }
            }
            k = k + 1;
        }
        let total = if n == 0 {
            0
        } else {
            cum[n - 1]
        };
        Path { points, cum, total }
    }
}

/// Length of the segment from `a` to `b`, rounded down.
fn segment_length(a: (i64, i64), b: (i64, i64)) -> (r: u64)
    requires
        point_ok(a),
        point_ok(b),
    ensures
        is_floor_sqrt(dist2(a, b), r as int),
        r <= MAX_SEGMENT,
{
    let dx: u64 = if b.0 >= a.0 {
        (b.0 - a.0) as u64
    } else {
        (a.0 - b.0) as u64
    };
    let dz: u64 = if b.1 >= a.1 {
        (b.1 - a.1) as u64
    } else {
        (a.1 - b.1) as u64
    };
    assert(dx * dx <= 40_000_000_000_000_000) by (nonlinear_arith)
        requires
            dx <= 200_000_000,
    ;
    assert(dz * dz <= 40_000_000_000_000_000) by (nonlinear_arith)
        requires
            dz <= 200_000_000,
    ;
    let d = dx * dx + dz * dz;
    assert(d == dist2(a, b)) by (nonlinear_arith)
        requires
            dx == if b.0 >= a.0 { b.0 - a.0 } else { a.0 - b.0 },
            dz == if b.1 >= a.1 { b.1 - a.1 } else { a.1 - b.1 },
            d == dx * dx + dz * dz,
    ;
    let r = floor_sqrt(d);
    assert(r <= MAX_SEGMENT) by (nonlinear_arith)
        requires
            r * r <= d,
            d <= 80_000_000_000_000_000,
            0 <= r,
    ;
    r
}

/// Linear interpolation from `a` to `b` at fraction `num / den`, rounded
/// toward `a`.
pub open spec fn lerp(a: int, b: int, num: int, den: int) -> int {
    if b >= a {
        a + (b - a) * num / den
    } else {
        a - (a - b) * num / den
    }
}

/// Segment `j` of the table is the first one whose far end reaches arc
/// length `t`.
pub open spec fn is_bracket(cum: Seq<u64>, t: int, j: int) -> bool {
    &&& 0 <= j < cum.len() - 1
    &&& t <= cum[j + 1]
    &&& (j == 0 || cum[j] < t)
}

/// Arc length from the start to path parameter `s` (clamped to `[0, 1]`).
pub open spec fn length_at(total: int, s: int) -> int {
    (if s > S_ONE { S_ONE as int } else { s }) * total / (S_ONE as int)
}

/// Path parameter at arc length `len` (clamped to the path's length).
pub open spec fn param_at(total: int, len: int) -> int {
    if total == 0 {
        0
    } else {
        (if len > total { total } else { len }) * (S_ONE as int) / total
    }
}

impl Path {
    /// The world point at path parameter `s`: the origin for an empty path,
    /// otherwise the point at arc length `length_at(total, s)`, interpolated
    /// on the first segment that reaches it.
    pub open spec fn pos_at(&self, s: int) -> (int, int) {
        let n = self.points@.len();
        if n == 0 {
            (0, 0)
        } else if n == 1 {
            (self.points@[0].0 as int, self.points@[0].1 as int)
        } else {
            let t = length_at(self.total as int, s);
            let j = choose|j: int| is_bracket(self.cum@, t, j);
            let a = self.points@[j];
            let b = self.points@[j + 1];
            let seg = self.cum@[j + 1] - self.cum@[j];
            if seg == 0 {
                (a.0 as int, a.1 as int)
            } else {
                (lerp(a.0 as int, b.0 as int, t - self.cum@[j], seg), lerp(a.1 as int, b.1 as int, t - self.cum@[j], seg))
            }
        }
    }
}

/// The cumulative length table never decreases, and the path's total length
/// is its last entry.
pub proof fn lemma_cum_monotone(p: &Path)
    requires
        p.wf(),
    ensures
        forall|i: int, j: int| 0 <= i <= j < p.cum@.len() ==> p.cum@[i] <= p.cum@[j],
        p.points@.len() > 0 ==> p.total == p.cum@[p.cum@.len() - 1],
{
    assert forall|i: int, j: int| 0 <= i <= j < p.cum@.len() implies p.cum@[i] <= p.cum@[j] by {
        lemma_cum_step_up(p, i, j);
    }
}

proof fn lemma_cum_step_up(p: &Path, i: int, j: int)
    requires
        p.wf(),
        0 <= i <= j < p.cum@.len(),
    ensures
        p.cum@[i] <= p.cum@[j],
    decreases j - i,
{
    if i < j {
        assert(seg_ok(p.points@, p.cum@, j - 1));
        lemma_cum_step_up(p, i, j - 1);
    }
}

proof fn lemma_zero_segment(a: (i64, i64), b: (i64, i64))
    requires
        is_floor_sqrt(dist2(a, b), 0),
    ensures
        a == b,
{
    assert((b.0 - a.0) * (b.0 - a.0) >= 0) by (nonlinear_arith);
    assert((b.1 - a.1) * (b.1 - a.1) >= 0) by (nonlinear_arith);
    assert((b.0 - a.0) * (b.0 - a.0) == 0);
    assert(b.0 - a.0 == 0) by (nonlinear_arith)
        requires
            (b.0 - a.0) * (b.0 - a.0) == 0,
    ;
    assert(b.1 - a.1 == 0) by (nonlinear_arith)
        requires
            (b.1 - a.1) * (b.1 - a.1) == 0,
    ;
}

/// Points joined by segments of no length are the same point.
proof fn lemma_flat_run_same_point(p: &Path, i: int, j: int)
    requires
        p.wf(),
        0 <= i <= j < p.cum@.len(),
        p.cum@[i] == p.cum@[j],
    ensures
        p.points@[i] == p.points@[j],
    decreases j - i,
{
    if i < j {
        lemma_cum_monotone(p);
        assert(seg_ok(p.points@, p.cum@, j - 1));
        assert(p.cum@[j - 1] == p.cum@[j]);
        lemma_zero_segment(p.points@[j - 1], p.points@[j]);
        lemma_flat_run_same_point(p, i, j - 1);
    }
}

proof fn lemma_bracket_unique(p: &Path, t: int, j1: int, j2: int)
    requires
        p.wf(),
        is_bracket(p.cum@, t, j1),
        is_bracket(p.cum@, t, j2),
    ensures
        j1 == j2,
{
    lemma_cum_monotone(p);
    if j1 < j2 {
        assert(p.cum@[j1 + 1] <= p.cum@[j2]);
    } else if j2 < j1 {
        assert(p.cum@[j2 + 1] <= p.cum@[j1]);
    }
}

/// At parameter 0 the sampler gives the path's first point, and at parameter
/// `S_ONE` (or beyond) its last point.
pub proof fn lemma_pos_at_ends(p: &Path)
    requires
        p.wf(),
        p.points@.len() > 0,
    ensures
        p.pos_at(0) == (p.points@[0].0 as int, p.points@[0].1 as int),
        p.pos_at(S_ONE as int) == (
            p.points@[p.points@.len() - 1].0 as int,
            p.points@[p.points@.len() - 1].1 as int,
        ),
{
    let n = p.points@.len();
    lemma_cum_monotone(p);
    if n > 1 {
        let t0 = length_at(p.total as int, 0);
        assert(t0 == 0) by (nonlinear_arith)
            requires
                t0 == length_at(p.total as int, 0),
        ;
        assert(is_bracket(p.cum@, 0, 0));
        let j0 = choose|j: int| is_bracket(p.cum@, t0, j);
        lemma_bracket_unique(p, 0, j0, 0);
        let a = p.points@[0];
        let b = p.points@[1];
        let seg = p.cum@[1] - p.cum@[0];
        if seg != 0 {
            lemma_lerp_zero(a.0 as int, b.0 as int, seg);
            lemma_lerp_zero(a.1 as int, b.1 as int, seg);
        }
        let t1 = length_at(p.total as int, S_ONE as int);
        assert(t1 == p.total) by (nonlinear_arith)
            requires
                t1 == length_at(p.total as int, S_ONE as int),
        ;
        lemma_bracket_exists(p, t1);
        let j = choose|j: int| is_bracket(p.cum@, t1, j);
        assert(p.cum@[j + 1] == p.total);
        lemma_flat_run_same_point(p, j + 1, n - 1);
        let seg1 = p.cum@[j + 1] - p.cum@[j];
        if seg1 == 0 {
            assert(j == 0);
            lemma_flat_run_same_point(p, 0, n - 1);
        } else {
            let a1 = p.points@[j];
            let b1 = p.points@[j + 1];
            assert(t1 - p.cum@[j] == seg1);
            lemma_lerp_full(a1.0 as int, b1.0 as int, seg1);
            lemma_lerp_full(a1.1 as int, b1.1 as int, seg1);
        }
    }
}

proof fn lemma_lerp_zero(a: int, b: int, den: int)
    requires
        den > 0,
    ensures
        lerp(a, b, 0, den) == a,
{
    assert((b - a) * 0 / den == 0) by (nonlinear_arith)
        requires
            den > 0,
    ;
    assert((a - b) * 0 / den == 0) by (nonlinear_arith)
        requires
            den > 0,
    ;
}

proof fn lemma_lerp_full(a: int, b: int, den: int)
    requires
        den > 0,
    ensures
        lerp(a, b, den, den) == b,
{
    if b >= a {
        assert((b - a) * den / den == b - a) by (nonlinear_arith)
            requires
                den > 0,
        ;
    } else {
        assert((a - b) * den / den == a - b) by (nonlinear_arith)
            requires
                den > 0,
        ;
    }
}

/// Every arc length within the path falls in some segment.
proof fn lemma_bracket_exists(p: &Path, t: int)
    requires
        p.wf(),
        p.points@.len() > 1,
        0 <= t <= p.total,
    ensures
        exists|j: int| is_bracket(p.cum@, t, j),
{
    let n = p.points@.len();
    lemma_cum_monotone(p);
    lemma_first_reaching(p, t, n - 2);
}

proof fn lemma_first_reaching(p: &Path, t: int, k: int)
    requires
        p.wf(),
        0 <= k < p.points@.len() - 1,
        0 <= t <= p.cum@[k + 1],
    ensures
        exists|j: int| is_bracket(p.cum@, t, j),
    decreases k,
{
    if k == 0 || p.cum@[k] < t {
        assert(is_bracket(p.cum@, t, k));
    } else {
        lemma_first_reaching(p, t, k - 1);
    }
}

/// Interpolates from `a` toward `b` at fraction `num / den`.
fn lerp_coord(a: i64, b: i64, num: u64, den: u64) -> (r: i64)
    requires
        coord_ok(a),
        coord_ok(b),
        0 < den <= MAX_SEGMENT,
        num <= den,
    ensures
        r == lerp(a as int, b as int, num as int, den as int),
        coord_ok(r),
{
    if b >= a {
        let d = (b - a) as u64;
        assert(d * num <= 200_000_000 * MAX_SEGMENT) by (nonlinear_arith)
            requires
                d <= 200_000_000,
                num <= MAX_SEGMENT,
        ;
        let q = d * num / den;
        assert(q <= d) by (nonlinear_arith)
            requires
                q as int == (d as int) * (num as int) / (den as int),
                num <= den,
                den > 0,
        ;
        a + q as i64
    } else {
        let d = (a - b) as u64;
        assert(d * num <= 200_000_000 * MAX_SEGMENT) by (nonlinear_arith)
            requires
                d <= 200_000_000,
                num <= MAX_SEGMENT,
        ;
        let q = d * num / den;
        assert(q <= d) by (nonlinear_arith)
            requires
                q as int == (d as int) * (num as int) / (den as int),
                num <= den,
                den > 0,
        ;
        a - q as i64
    }
}

impl Path {
    proof fn lemma_total_bound(&self)
        requires
            self.wf(),
        ensures
            self.total <= MAX_PATH_POINTS * MAX_SEGMENT,
    {
        let n = self.points@.len();
        if n > 0 {
            assert(self.cum@[n - 1] <= (n - 1) * MAX_SEGMENT);
            assert((n - 1) * MAX_SEGMENT <= MAX_PATH_POINTS * MAX_SEGMENT) by (nonlinear_arith)
                requires
                    n <= MAX_PATH_POINTS,
            ;
        }
    }

    /// Arc length from the path's start to parameter `s`.
    pub fn arc_length_to(&self, s: u64) -> (r: u64)
        requires
            self.wf(),
        ensures
            r == length_at(self.total as int, s as int),
            r <= self.total,
    {
        proof {
            self.lemma_total_bound();
        }
        let sc = if s > S_ONE {
            S_ONE
        } else {
            s
        };
        assert(sc * self.total <= S_ONE * (MAX_PATH_POINTS * MAX_SEGMENT)) by (nonlinear_arith)
            requires
                sc <= S_ONE,
                self.total <= MAX_PATH_POINTS * MAX_SEGMENT,
        ;
        let r = sc * self.total / S_ONE;
        assert(r <= self.total) by (nonlinear_arith)
            requires
                r as int == (sc as int) * (self.total as int) / (S_ONE as int),
                sc <= S_ONE,
        ;
        r
    }

    /// Path parameter at arc length `len`; lengths past the end give the end.
    pub fn s_at_length(&self, len: u64) -> (r: u64)
        requires
            self.wf(),
        ensures
            r == param_at(self.total as int, len as int),
            r <= S_ONE,
    {
        proof {
            self.lemma_total_bound();
        }
        if self.total == 0 {
            return 0;
        }
        let lc = if len > self.total {
            self.total
        } else {
            len
        };
        assert(lc * S_ONE <= S_ONE * (MAX_PATH_POINTS * MAX_SEGMENT)) by (nonlinear_arith)
            requires
                lc <= MAX_PATH_POINTS * MAX_SEGMENT,
        ;
        let r = lc * S_ONE / self.total;
        assert(r <= S_ONE) by (nonlinear_arith)
            requires
                r as int == (lc as int) * (S_ONE as int) / (self.total as int),
                lc <= self.total,
                self.total > 0,
        ;
        r
    }

    /// The world point `(x, z)` at path parameter `s`.
    pub fn world_pos(&self, s: u64) -> (r: (i64, i64))
        requires
            self.wf(),
        ensures
            (r.0 as int, r.1 as int) == self.pos_at(s as int),
            point_ok(r),
    {
        let n = self.points.len();
        if n == 0 {
            return (0, 0);
        }
        if n == 1 {
            assert(point_ok(self.points@[0]));
            return self.points[0];
        }
        let t = self.arc_length_to(s);
        proof {
            lemma_cum_monotone(self);
        }
        let mut lo: usize = 0;
        let mut hi: usize = n - 2;
        while lo < hi
            invariant
                self.wf(),
                n == self.points@.len(),
                n > 1,
                lo <= hi <= n - 2,
                t <= self.cum@[hi + 1],
                forall|j: int| 0 <= j < lo ==> #[trigger] self.cum@[j + 1] < t,
            decreases hi - lo,
        {
            let mid = lo + (hi - lo) / 2;
            if t <= self.cum[mid + 1] {
                hi = mid;
            } else {
                proof {
                    lemma_cum_monotone(self);
                    assert forall|j: int| 0 <= j < mid + 1 implies #[trigger] self.cum@[j + 1] < t by {
                        assert(self.cum@[j + 1] <= self.cum@[mid + 1]);
                    }
                }
                lo = mid + 1;
            }
        }
        proof {
            if lo > 0 {
                assert(self.cum@[(lo - 1) as int + 1] < t);
            }
            assert(is_bracket(self.cum@, t as int, lo as int));
            let j = choose|j: int| is_bracket(self.cum@, t as int, j);
            lemma_bracket_unique(self, t as int, j, lo as int);
            assert(point_ok(self.points@[lo as int]));
            assert(point_ok(self.points@[lo + 1]));
            assert(seg_ok(self.points@, self.cum@, lo as int));
        }
        let a = self.points[lo];
        let b = self.points[lo + 1];
        let base = self.cum[lo];
        let seg = self.cum[lo + 1] - base;
        if seg == 0 {
            return a;
        }
        assert(seg <= MAX_SEGMENT) by (nonlinear_arith)
            requires
                is_floor_sqrt(dist2(a, b), seg as int),
                point_ok(a),
                point_ok(b),
        {
            assert(dist2(a, b) <= 80_000_000_000_000_000) by (nonlinear_arith)
                requires
                    point_ok(a),
                    point_ok(b),
            ;
        }
        let off = t - base;
        (lerp_coord(a.0, b.0, off, seg), lerp_coord(a.1, b.1, off, seg))
    }
}

/// One coordinate of the cubic Bezier curve with control coordinates
/// `c0 .. c3` at parameter `k / CURVE_STEPS`, rounded down.
pub open spec fn bezier_coord(c0: int, c1: int, c2: int, c3: int, k: int) -> int {
    let n = CURVE_STEPS as int;
    let a = n - k;
    let lim = COORD_LIMIT as int;
    (a * a * a * (c0 + lim) + 3 * a * a * k * (c1 + lim) + 3 * a * k * k * (c2 + lim) + k * k * k * (
    c3 + lim)) / (n * n * n) - lim
}

pub open spec fn bezier_point(ctrl: [(i64, i64); 4], k: int) -> (i64, i64) {
    (
        bezier_coord(ctrl[0].0 as int, ctrl[1].0 as int, ctrl[2].0 as int, ctrl[3].0 as int, k) as i64,
        bezier_coord(ctrl[0].1 as int, ctrl[1].1 as int, ctrl[2].1 as int, ctrl[3].1 as int, k) as i64,
    )
}

fn curve_coord(c0: i64, c1: i64, c2: i64, c3: i64, k: u64) -> (r: i64)
    requires
        coord_ok(c0),
        coord_ok(c1),
        coord_ok(c2),
        coord_ok(c3),
        k <= CURVE_STEPS,
    ensures
        r == bezier_coord(c0 as int, c1 as int, c2 as int, c3 as int, k as int),
        coord_ok(r),
{
    let a: u64 = CURVE_STEPS - k;
    assert(a * a <= 4096 && a * a * a <= 262144 && 3 * a * a * k <= 3 * 262144 && 3 * a * k * k
        <= 3 * 262144 && 3 * a * a <= 12288 && 3 * a * k <= 12288 && k * k <= 4096 && k * k * k <= 262144 && a * k <= 4096) by (nonlinear_arith)
        requires
            a <= 64,
            k <= 64,
    ;
    let w0: u64 = a * a * a;
    let w1: u64 = 3 * a * a * k;
    let w2: u64 = 3 * a * k * k;
    let w3: u64 = k * k * k;
    assert(w0 + w1 + w2 + w3 == 262144) by (nonlinear_arith)
        requires
            a + k == 64,
            w0 == a * a * a,
            w1 == 3 * a * a * k,
            w2 == 3 * a * k * k,
            w3 == k * k * k,
    ;
    let u0 = (c0 + COORD_LIMIT) as u64;
    let u1 = (c1 + COORD_LIMIT) as u64;
    let u2 = (c2 + COORD_LIMIT) as u64;
    let u3 = (c3 + COORD_LIMIT) as u64;
    assert(w0 * u0 + w1 * u1 + w2 * u2 + w3 * u3 <= 262144 * 200_000_000) by (nonlinear_arith)
        requires
            w0 + w1 + w2 + w3 == 262144,
            u0 <= 200_000_000,
            u1 <= 200_000_000,
            u2 <= 200_000_000,
            u3 <= 200_000_000,
    ;
    let num = w0 * u0 + w1 * u1 + w2 * u2 + w3 * u3;
    let q = num / 262144;
    assert(q <= 200_000_000);
    (q as i64) - COORD_LIMIT
}

impl Path {
    /// Builds a path by sampling the cubic Bezier curve with control points
    /// `ctrl` at `CURVE_STEPS + 1` evenly spaced parameters.
    pub fn from_curve(ctrl: [(i64, i64); 4]) -> (r: Path)
        requires
            forall|i: int| 0 <= i < 4 ==> point_ok(#[trigger] ctrl[i]),
        ensures
            r.wf(),
            r.points@.len() == CURVE_STEPS + 1,
            forall|k: int| 0 <= k <= CURVE_STEPS ==> #[trigger] r.points@[k] == bezier_point(ctrl, k),
    {
        assert(point_ok(ctrl[0]) && point_ok(ctrl[1]) && point_ok(ctrl[2]) && point_ok(ctrl[3]));
        let mut pts: Vec<(i64, i64)> = Vec::new();
        let mut k: u64 = 0;
        while k <= CURVE_STEPS
            invariant
                point_ok(ctrl[0]) && point_ok(ctrl[1]) && point_ok(ctrl[2]) && point_ok(ctrl[3]),
                k <= CURVE_STEPS + 1,
                pts@.len() == k,
                forall|j: int| 0 <= j < k ==> #[trigger] pts@[j] == bezier_point(ctrl, j),
                forall|j: int| 0 <= j < k ==> point_ok(#[trigger] pts@[j]),
            decreases CURVE_STEPS + 1 - k,
        {
            let x = curve_coord(ctrl[0].0, ctrl[1].0, ctrl[2].0, ctrl[3].0, k);
            let z = curve_coord(ctrl[0].1, ctrl[1].1, ctrl[2].1, ctrl[3].1, k);
            pts.push((x, z));
            k = k + 1;
        }
        Path::from_points(pts)
    }
}

/// A coordinate step along a segment is no longer than the segment.
proof fn lemma_coord_step_within_segment(a: (i64, i64), b: (i64, i64), seg: int)
    requires
        is_floor_sqrt(dist2(a, b), seg),
    ensures
        -seg <= b.0 - a.0 <= seg,
        -seg <= b.1 - a.1 <= seg,
{
    let dx = b.0 - a.0;
    let dz = b.1 - a.1;
    assert(dz * dz >= 0) by (nonlinear_arith);
    assert(dx * dx >= 0) by (nonlinear_arith);
    assert(dx * dx < (seg + 1) * (seg + 1));
    assert(dz * dz < (seg + 1) * (seg + 1));
    assert(-seg <= dx <= seg) by (nonlinear_arith)
        requires
            dx * dx < (seg + 1) * (seg + 1),
            seg >= 0,
    ;
    assert(-seg <= dz <= seg) by (nonlinear_arith)
        requires
            dz * dz < (seg + 1) * (seg + 1),
            seg >= 0,
    ;
}

/// Moving the interpolation fraction from `o1 / seg` to `o2 / seg` moves the
/// interpolated coordinate by at most `o2 - o1 + 1`, when the two ends are
/// at most `seg` apart.
proof fn lemma_lerp_step(a: int, b: int, o1: int, o2: int, seg: int)
    requires
        0 <= o1 <= o2 <= seg,
        seg > 0,
        -seg <= b - a <= seg,
    ensures
        -(o2 - o1 + 1) <= lerp(a, b, o2, seg) - lerp(a, b, o1, seg) <= o2 - o1 + 1,
{
    let d = if b >= a { b - a } else { a - b };
    let q1 = d * o1 / seg;
    let q2 = d * o2 / seg;
    lemma_floor_div(d * o1, seg);
    lemma_floor_div(d * o2, seg);
    assert(d * o2 - d * o1 <= seg * (o2 - o1)) by (nonlinear_arith)
        requires
            0 <= d <= seg,
            o1 <= o2,
    ;
    assert(d * o1 <= d * o2) by (nonlinear_arith)
        requires
            0 <= d,
            o1 <= o2,
    ;
    assert(0 <= q2 - q1 <= o2 - o1 + 1) by (nonlinear_arith)
        requires
            q1 * seg <= d * o1 < q1 * seg + seg,
            q2 * seg <= d * o2 < q2 * seg + seg,
            d * o2 - d * o1 <= seg * (o2 - o1),
            d * o1 <= d * o2,
            seg > 0,
    ;
}

proof fn lemma_floor_div(x: int, d: int)
    requires
        d > 0,
    ensures
        (x / d) * d <= x < (x / d) * d + d,
{
    vstd::arithmetic::div_mod::lemma_fundamental_div_mod(x, d);
    vstd::arithmetic::div_mod::lemma_mod_bound(x, d);
    assert(d * (x / d) == (x / d) * d) by (nonlinear_arith);
}

/// Along one segment the sampler is continuous in the arc length: between
/// two parameters whose arc lengths fall in the same segment, each world
/// coordinate moves by at most the arc length between them, plus one for
/// rounding.
proof fn lemma_pos_at_steady_on_segment(p: &Path, s1: int, s2: int, j: int)
    requires
        p.wf(),
        p.points@.len() > 1,
        0 <= s1 <= s2,
        is_bracket(p.cum@, length_at(p.total as int, s1), j),
        is_bracket(p.cum@, length_at(p.total as int, s2), j),
    ensures
        ({
            let d = length_at(p.total as int, s2) - length_at(p.total as int, s1);
            &&& d >= 0
            &&& -(d + 1) <= p.pos_at(s2).0 - p.pos_at(s1).0 <= d + 1
            &&& -(d + 1) <= p.pos_at(s2).1 - p.pos_at(s1).1 <= d + 1
        }),
{
    let total = p.total as int;
    let t1 = length_at(total, s1);
    let t2 = length_at(total, s2);
    let c1 = if s1 > S_ONE { S_ONE as int } else { s1 };
    let c2 = if s2 > S_ONE { S_ONE as int } else { s2 };
    assert(c1 * total <= c2 * total) by (nonlinear_arith)
        requires
            0 <= c1 <= c2,
            total >= 0,
    ;
    vstd::arithmetic::div_mod::lemma_div_is_ordered(c1 * total, c2 * total, S_ONE as int);
    let j1 = choose|k: int| is_bracket(p.cum@, t1, k);
    let j2 = choose|k: int| is_bracket(p.cum@, t2, k);
    lemma_bracket_unique(p, t1, j1, j);
    lemma_bracket_unique(p, t2, j2, j);
    let seg = p.cum@[j + 1] - p.cum@[j];
    if seg != 0 {
        assert(seg_ok(p.points@, p.cum@, j));
        lemma_coord_step_within_segment(p.points@[j], p.points@[j + 1], seg);
        lemma_cum_monotone(p);
        assert(p.cum@[j] <= t1) by {
            if j > 0 {
            } else {
                assert(p.cum@[0] == 0);
                assert(t1 >= 0) by (nonlinear_arith)
                    requires
                        t1 == c1 * total / (S_ONE as int),
                        c1 >= 0,
                        total >= 0,
                ;
            }
        }
        let a = p.points@[j];
        let b = p.points@[j + 1];
        lemma_lerp_step(a.0 as int, b.0 as int, t1 - p.cum@[j], t2 - p.cum@[j], seg);
        lemma_lerp_step(a.1 as int, b.1 as int, t1 - p.cum@[j], t2 - p.cum@[j], seg);
    }
}

/// Between two points of the polyline, each coordinate changes by at most
/// the arc length between them.
proof fn lemma_points_steady(p: &Path, i: int, k: int)
    requires
        p.wf(),
        0 <= i <= k < p.points@.len(),
    ensures
        -(p.cum@[k] - p.cum@[i]) <= p.points@[k].0 - p.points@[i].0 <= p.cum@[k] - p.cum@[i],
        -(p.cum@[k] - p.cum@[i]) <= p.points@[k].1 - p.points@[i].1 <= p.cum@[k] - p.cum@[i],
    decreases k - i,
{
    if i < k {
        lemma_points_steady(p, i, k - 1);
        assert(seg_ok(p.points@, p.cum@, k - 1));
        lemma_coord_step_within_segment(
            p.points@[k - 1],
            p.points@[k],
            p.cum@[k] - p.cum@[k - 1],
        );
    }
}

/// The arc length at a parameter is within the path.
proof fn lemma_length_at_range(total: int, s: int)
    requires
        total >= 0,
        s >= 0,
    ensures
        0 <= length_at(total, s) <= total,
{
    let c = if s > S_ONE { S_ONE as int } else { s };
    assert(0 <= c * total <= (S_ONE as int) * total) by (nonlinear_arith)
        requires
            0 <= c <= S_ONE,
            total >= 0,
    ;
    lemma_floor_div(c * total, S_ONE as int);
    assert(0 <= c * total / (S_ONE as int) <= total) by (nonlinear_arith)
        requires
            (c * total / (S_ONE as int)) * (S_ONE as int) <= c * total,
            c * total < (c * total / (S_ONE as int)) * (S_ONE as int) + S_ONE,
            0 <= c * total <= (S_ONE as int) * total,
    ;
}

/// The sampler is continuous in the arc length: between two parameters,
/// each world coordinate moves by at most the arc length between them, plus
/// two for rounding.
pub proof fn lemma_pos_at_steady(p: &Path, s1: int, s2: int)
    requires
        p.wf(),
        0 <= s1 <= s2,
    ensures
        ({
            let d = length_at(p.total as int, s2) - length_at(p.total as int, s1);
            &&& d >= 0
            &&& -(d + 2) <= p.pos_at(s2).0 - p.pos_at(s1).0 <= d + 2
            &&& -(d + 2) <= p.pos_at(s2).1 - p.pos_at(s1).1 <= d + 2
        }),
{
    let total = p.total as int;
    let t1 = length_at(total, s1);
    let t2 = length_at(total, s2);
    let c1 = if s1 > S_ONE { S_ONE as int } else { s1 };
    let c2 = if s2 > S_ONE { S_ONE as int } else { s2 };
    assert(c1 * total <= c2 * total) by (nonlinear_arith)
        requires
            0 <= c1 <= c2,
            total >= 0,
    ;
    vstd::arithmetic::div_mod::lemma_div_is_ordered(c1 * total, c2 * total, S_ONE as int);
    let n = p.points@.len();
    if n > 1 {
        lemma_length_at_range(total, s1);
        lemma_length_at_range(total, s2);
        lemma_bracket_exists(p, t1);
        lemma_bracket_exists(p, t2);
        lemma_cum_monotone(p);
        let j = choose|k: int| is_bracket(p.cum@, t1, k);
        let m = choose|k: int| is_bracket(p.cum@, t2, k);
        if j == m {
            lemma_pos_at_steady_on_segment(p, s1, s2, j);
        } else {
            // the later arc length lies in a later segment
            assert(j < m) by {
                if m < j {
                    assert(p.cum@[m + 1] <= p.cum@[j]);
                }
            }
            let a = p.points@[j];
            let b = p.points@[j + 1];
            let seg = p.cum@[j + 1] - p.cum@[j];
            // from the first parameter to point j + 1
            if seg == 0 {
                assert(j == 0);
                assert(seg_ok(p.points@, p.cum@, 0));
                lemma_zero_segment(a, b);
            } else {
                assert(seg_ok(p.points@, p.cum@, j));
                lemma_coord_step_within_segment(a, b, seg);
                assert(p.cum@[j] <= t1);
                lemma_lerp_step(a.0 as int, b.0 as int, t1 - p.cum@[j], seg, seg);
                lemma_lerp_step(a.1 as int, b.1 as int, t1 - p.cum@[j], seg, seg);
                lemma_lerp_full(a.0 as int, b.0 as int, seg);
                lemma_lerp_full(a.1 as int, b.1 as int, seg);
            }
            // from point j + 1 to point m
            lemma_points_steady(p, j + 1, m);
            // from point m to the second parameter
            let a2 = p.points@[m];
            let b2 = p.points@[m + 1];
            let seg2 = p.cum@[m + 1] - p.cum@[m];
            assert(p.cum@[m] < t2);
            if seg2 != 0 {
                assert(seg_ok(p.points@, p.cum@, m));
                lemma_coord_step_within_segment(a2, b2, seg2);
                lemma_lerp_step(a2.0 as int, b2.0 as int, 0, t2 - p.cum@[m], seg2);
                lemma_lerp_step(a2.1 as int, b2.1 as int, 0, t2 - p.cum@[m], seg2);
                lemma_lerp_zero(a2.0 as int, b2.0 as int, seg2);
                lemma_lerp_zero(a2.1 as int, b2.1 as int, seg2);
            }
        }
    }
}

} // verus!
