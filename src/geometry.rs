//! Points, segments, rays and the exact ray/segment crossing test.
use vstd::prelude::*;

verus! {

/// Largest absolute value of a coordinate of a source or an obstacle endpoint.
pub const COORD_LIMIT: i64 = 65536;

/// Largest absolute value of a component of a ray's direction (`end - start`).
pub const DIR_LIMIT: i64 = 33554432;

/// The crossing test admits a segment parameter `u` within `1 / TOLERANCE_DIV`
/// (`1e-5`) outside `[0, 1]`, so that a ray aimed at a corner keeps its hit
/// there.
pub const TOLERANCE_DIV: i128 = 100000;

/// A point (or a vector) of the integer lattice.
#[derive(Clone, Copy, Debug, PartialEq, Eq, Structural)]
pub struct Point {
    pub x: i64,
    pub y: i64,
}

/// A point with rational coordinates `(x / den, y / den)`, `den > 0`.
#[derive(Clone, Copy, Debug, PartialEq, Eq, Structural)]
pub struct RatPoint {
    pub x: i128,
    pub y: i128,
    pub den: i128,
}

/// An opaque wall between two points.
#[derive(Clone, Copy, Debug, PartialEq, Eq, Structural)]
pub struct Segment {
    pub start: Point,
    pub end: Point,
}

/// A directed probe from `start_point` toward `end_point`.
#[derive(Clone, Copy, Debug, PartialEq, Eq, Structural)]
pub struct Ray {
    pub start_point: Point,
    pub end_point: Point,
}

/// Where a ray crosses a segment: the point, and the ray parameter
/// `t = t_num / t_den` at which it lies (`point = start + t * (end - start)`).
#[derive(Clone, Copy, Debug, PartialEq, Eq, Structural)]
pub struct Collision {
    pub point: RatPoint,
    pub t_num: i128,
    pub t_den: i128,
}

impl RatPoint {
    pub open spec fn view(&self) -> (int, int, int) {
        (self.x as int, self.y as int, self.den as int)
    }
}

pub open spec fn fits_i64(v: int) -> bool {
    i64::MIN <= v <= i64::MAX
}

impl Ray {
    /// The ray from `start_point` toward `end_point`.
    pub fn new(start_point: Point, end_point: Point) -> (r: Ray)
        ensures
            r.start_point == start_point,
            r.end_point == end_point,
    {
        Ray { start_point, end_point }
    }

    /// Moves the origin to `pos`, leaving the target where it is.
    pub fn set_source_pos(&mut self, pos: Point)
        ensures
            final(self).start_point == pos,
            final(self).end_point == old(self).end_point,
    {
        self.start_point = pos;
    }

    /// Moves the target to `pos`, leaving the origin where it is.
    pub fn set_end_pos(&mut self, pos: Point)
        ensures
            final(self).start_point == old(self).start_point,
            final(self).end_point == pos,
    {
        self.end_point = pos;
    }

    /// Shifts both ends by `vec`.
    pub fn translate(&mut self, vec: Point)
        requires
            fits_i64(old(self).start_point.x + vec.x),
            fits_i64(old(self).start_point.y + vec.y),
            fits_i64(old(self).end_point.x + vec.x),
            fits_i64(old(self).end_point.y + vec.y),
        ensures
            final(self).start_point.x == old(self).start_point.x + vec.x,
            final(self).start_point.y == old(self).start_point.y + vec.y,
            final(self).end_point.x == old(self).end_point.x + vec.x,
            final(self).end_point.y == old(self).end_point.y + vec.y,
    {
        self.start_point = Point { x: self.start_point.x + vec.x, y: self.start_point.y + vec.y };
        self.end_point = Point { x: self.end_point.x + vec.x, y: self.end_point.y + vec.y };
    }

    /// Shifts both ends so that the origin lands on `point`; the direction is
    /// kept.
    pub fn translate_to(&mut self, point: Point)
        requires
            fits_i64(point.x - old(self).start_point.x),
            fits_i64(point.y - old(self).start_point.y),
            fits_i64(old(self).end_point.x + point.x - old(self).start_point.x),
            fits_i64(old(self).end_point.y + point.y - old(self).start_point.y),
        ensures
            final(self).start_point == point,
            final(self).end_point.x == old(self).end_point.x + point.x - old(self).start_point.x,
            final(self).end_point.y == old(self).end_point.y + point.y - old(self).start_point.y,
    {
        let ox = point.x - self.start_point.x;
        let oy = point.y - self.start_point.y;
        self.start_point = point;
        self.end_point = Point { x: self.end_point.x + ox, y: self.end_point.y + oy };
    }

    /// Scales the ray about its origin: the target becomes
    /// `start + value * (end - start)`.
    pub fn scale(&mut self, value: i64)
        requires
            fits_i64(old(self).end_point.x - old(self).start_point.x),
            fits_i64(old(self).end_point.y - old(self).start_point.y),
            fits_i64((old(self).end_point.x - old(self).start_point.x) * value),
            fits_i64((old(self).end_point.y - old(self).start_point.y) * value),
            fits_i64(old(self).start_point.x + (old(self).end_point.x - old(self).start_point.x) * value),
            fits_i64(old(self).start_point.y + (old(self).end_point.y - old(self).start_point.y) * value),
        ensures
            final(self).start_point == old(self).start_point,
            final(self).end_point.x == old(self).start_point.x + (old(self).end_point.x
                - old(self).start_point.x) * value,
            final(self).end_point.y == old(self).start_point.y + (old(self).end_point.y
                - old(self).start_point.y) * value,
    {
        let vx = self.end_point.x - self.start_point.x;
        let vy = self.end_point.y - self.start_point.y;
        self.end_point = Point { x: self.start_point.x + vx * value, y: self.start_point.y + vy * value };
    }
}

impl Default for Ray {
    /// The ray with both ends at the origin.
    fn default() -> (r: Ray)
        ensures
            r.start_point == (Point { x: 0, y: 0 }),
            r.end_point == (Point { x: 0, y: 0 }),
    {
        Ray { start_point: Point { x: 0, y: 0 }, end_point: Point { x: 0, y: 0 } }
    }
}

/// An opaque wall given by its two ends relative to an anchor that may move.
#[derive(Clone, Copy, Debug, PartialEq, Eq, Structural)]
pub struct Obstacle {
    pub start_offset: Point,
    pub end_offset: Point,
}

impl Obstacle {
    /// The wall in world space, with its anchor at `anchor`.
    pub fn at(&self, anchor: Point) -> (s: Segment)
        requires
            fits_i64(anchor.x + self.start_offset.x),
            fits_i64(anchor.y + self.start_offset.y),
            fits_i64(anchor.x + self.end_offset.x),
            fits_i64(anchor.y + self.end_offset.y),
        ensures
            s.start.x == anchor.x + self.start_offset.x,
            s.start.y == anchor.y + self.start_offset.y,
            s.end.x == anchor.x + self.end_offset.x,
            s.end.y == anchor.y + self.end_offset.y,
    {
        Segment {
            start: Point { x: anchor.x + self.start_offset.x, y: anchor.y + self.start_offset.y },
            end: Point { x: anchor.x + self.end_offset.x, y: anchor.y + self.end_offset.y },
        }
    }
}

pub open spec fn coord_ok(v: int) -> bool {
    -COORD_LIMIT <= v <= COORD_LIMIT
}

pub open spec fn point_ok(p: Point) -> bool {
    coord_ok(p.x as int) && coord_ok(p.y as int)
}

pub open spec fn segment_ok(s: Segment) -> bool {
    point_ok(s.start) && point_ok(s.end)
}

pub open spec fn dir_ok(v: int) -> bool {
    -DIR_LIMIT <= v <= DIR_LIMIT
}

/// A ray whose origin and direction are small enough for exact arithmetic.
pub open spec fn ray_ok(r: Ray) -> bool {
    &&& point_ok(r.start_point)
    &&& dir_ok(r.end_point.x - r.start_point.x)
    &&& dir_ok(r.end_point.y - r.start_point.y)
}

pub open spec fn cross(ax: int, ay: int, bx: int, by: int) -> int {
    ax * by - ay * bx
}

/// `den` of the two-line parametric form, `cross(d, e)` for the ray's direction
/// `d` and the segment's direction `e`: zero exactly when the two are parallel
/// (or one of them has no length).
pub open spec fn den_of(r: Ray, s: Segment) -> int {
    cross(
        r.end_point.x - r.start_point.x,
        r.end_point.y - r.start_point.y,
        s.end.x - s.start.x,
        s.end.y - s.start.y,
    )
}

/// Numerator of the ray parameter `t`: `cross(o, e)`, with `o` the offset from
/// the ray's origin to the segment's start.
pub open spec fn tn_of(r: Ray, s: Segment) -> int {
    cross(
        s.start.x - r.start_point.x,
        s.start.y - r.start_point.y,
        s.end.x - s.start.x,
        s.end.y - s.start.y,
    )
}

/// Numerator of the segment parameter `u`: `cross(o, d)`.
pub open spec fn un_of(r: Ray, s: Segment) -> int {
    cross(
        s.start.x - r.start_point.x,
        s.start.y - r.start_point.y,
        r.end_point.x - r.start_point.x,
        r.end_point.y - r.start_point.y,
    )
}

pub open spec fn sign_of(v: int) -> int {
    if v > 0 {
        1
    } else {
        -1
    }
}

pub open spec fn abs(v: int) -> int {
    if v >= 0 {
        v
    } else {
        -v
    }
}

/// `t` and `u` with a positive denominator `|den|`.
pub open spec fn t_num(r: Ray, s: Segment) -> int {
    sign_of(den_of(r, s)) * tn_of(r, s)
}

pub open spec fn u_num(r: Ray, s: Segment) -> int {
    sign_of(den_of(r, s)) * un_of(r, s)
}

pub open spec fn t_den(r: Ray, s: Segment) -> int {
    abs(den_of(r, s))
}

/// `u = u_num / t_den` lies in `[-1e-5, 1 + 1e-5]`.
pub open spec fn u_in_band(u_num: int, t_den: int) -> bool {
    -t_den <= TOLERANCE_DIV * u_num <= (TOLERANCE_DIV + 1) * t_den
}

/// The ray crosses the segment's line strictly ahead of its origin (`t > 0`),
/// at a point of the segment up to the tolerance (`-1e-5 <= u <= 1 + 1e-5`).
pub open spec fn hits(r: Ray, s: Segment) -> bool {
    &&& den_of(r, s) != 0
    &&& t_num(r, s) > 0
    &&& u_in_band(u_num(r, s), t_den(r, s))
}

/// The crossing point `start + t * (end - start)`, over the denominator `|den|`.
pub open spec fn crossing_point(r: Ray, s: Segment) -> (int, int, int) {
    (
        r.start_point.x * t_den(r, s) + t_num(r, s) * (r.end_point.x - r.start_point.x),
        r.start_point.y * t_den(r, s) + t_num(r, s) * (r.end_point.y - r.start_point.y),
        t_den(r, s),
    )
}

/// `c` is the crossing of `r` and `s`, as the formulas give it.
pub open spec fn is_crossing(c: Collision, r: Ray, s: Segment) -> bool {
    &&& c.point@ == crossing_point(r, s)
    &&& c.t_num == t_num(r, s)
    &&& c.t_den == t_den(r, s)
}

pub(crate) proof fn lemma_mul_bound(a: int, b: int, ma: int, mb: int)
    requires
        -ma <= a <= ma,
        -mb <= b <= mb,
    ensures
        -(ma * mb) <= a * b <= ma * mb,
{
    assert(-(ma * mb) <= a * b <= ma * mb) by (nonlinear_arith)
        requires
            -ma <= a <= ma,
            -mb <= b <= mb,
    ;
}

/// Bounds on the quantities of the crossing test, for rays and segments in range.
proof fn lemma_crossing_bounds(r: Ray, s: Segment)
    requires
        ray_ok(r),
        segment_ok(s),
    ensures
        -0x400_0000_0000 <= (r.end_point.x - r.start_point.x) * (s.end.y - s.start.y)
            <= 0x400_0000_0000,
        -0x400_0000_0000 <= (r.end_point.y - r.start_point.y) * (s.end.x - s.start.x)
            <= 0x400_0000_0000,
        -0x4_0000_0000 <= (s.start.x - r.start_point.x) * (s.end.y - s.start.y) <= 0x4_0000_0000,
        -0x4_0000_0000 <= (s.start.y - r.start_point.y) * (s.end.x - s.start.x) <= 0x4_0000_0000,
        -0x400_0000_0000 <= (s.start.x - r.start_point.x) * (r.end_point.y - r.start_point.y)
            <= 0x400_0000_0000,
        -0x400_0000_0000 <= (s.start.y - r.start_point.y) * (r.end_point.x - r.start_point.x)
            <= 0x400_0000_0000,
        -0x800_0000_0000 <= den_of(r, s) <= 0x800_0000_0000,
        -0x8_0000_0000 <= tn_of(r, s) <= 0x8_0000_0000,
        -0x800_0000_0000 <= un_of(r, s) <= 0x800_0000_0000,
{
    let dx = r.end_point.x - r.start_point.x;
    let dy = r.end_point.y - r.start_point.y;
    let ex = s.end.x - s.start.x;
    let ey = s.end.y - s.start.y;
    let ox = s.start.x - r.start_point.x;
    let oy = s.start.y - r.start_point.y;
    lemma_mul_bound(dx, ey, DIR_LIMIT as int, 0x2_0000);
    lemma_mul_bound(dy, ex, DIR_LIMIT as int, 0x2_0000);
    lemma_mul_bound(ox, ey, 0x2_0000, 0x2_0000);
    lemma_mul_bound(oy, ex, 0x2_0000, 0x2_0000);
    lemma_mul_bound(ox, dy, 0x2_0000, DIR_LIMIT as int);
    lemma_mul_bound(oy, dx, 0x2_0000, DIR_LIMIT as int);
}

/// Bounds on the crossing point of a ray that hits.
pub(crate) proof fn lemma_point_bounds(r: Ray, s: Segment)
    requires
        ray_ok(r),
        segment_ok(s),
        hits(r, s),
    ensures
        0 < t_den(r, s) <= 0x800_0000_0000,
        0 < t_num(r, s) <= 0x8_0000_0000,
        -0x1000_0000_0000_0000 <= t_num(r, s) * (r.end_point.x - r.start_point.x)
            <= 0x1000_0000_0000_0000,
        -0x1000_0000_0000_0000 <= t_num(r, s) * (r.end_point.y - r.start_point.y)
            <= 0x1000_0000_0000_0000,
        -0x800_0000_0000_0000 <= r.start_point.x * t_den(r, s) <= 0x800_0000_0000_0000,
        -0x800_0000_0000_0000 <= r.start_point.y * t_den(r, s) <= 0x800_0000_0000_0000,
{
    lemma_crossing_bounds(r, s);
    lemma_mul_bound(t_num(r, s), r.end_point.x - r.start_point.x, 0x8_0000_0000, DIR_LIMIT as int);
    lemma_mul_bound(t_num(r, s), r.end_point.y - r.start_point.y, 0x8_0000_0000, DIR_LIMIT as int);
    lemma_mul_bound(r.start_point.x as int, t_den(r, s), COORD_LIMIT as int, 0x800_0000_0000);
    lemma_mul_bound(r.start_point.y as int, t_den(r, s), COORD_LIMIT as int, 0x800_0000_0000);
}

/// Where `ray` crosses `seg`, or `None` when it does not: parallel lines
/// (`den == 0`, which includes a segment of zero length), a crossing at or
/// behind the origin, or one off the segment by more than the tolerance on `u`.
pub fn intersect(ray: &Ray, seg: &Segment) -> (res: Option<Collision>)
    requires
        ray_ok(*ray),
        segment_ok(*seg),
    ensures
        res is Some <==> hits(*ray, *seg),
        res matches Some(c) ==> is_crossing(c, *ray, *seg),
        res matches Some(c) ==> 0 < c.t_num <= 0x8_0000_0000 && 0 < c.t_den <= 0x800_0000_0000,
{
    proof {
        lemma_crossing_bounds(*ray, *seg);
    }
    let dx = (ray.end_point.x as i128) - (ray.start_point.x as i128);
    let dy = (ray.end_point.y as i128) - (ray.start_point.y as i128);
    let ex = (seg.end.x as i128) - (seg.start.x as i128);
    let ey = (seg.end.y as i128) - (seg.start.y as i128);
    let ox = (seg.start.x as i128) - (ray.start_point.x as i128);
    let oy = (seg.start.y as i128) - (ray.start_point.y as i128);
    let den: i128 = dx * ey - dy * ex;
    let tn: i128 = ox * ey - oy * ex;
    let un: i128 = ox * dy - oy * dx;
    if den == 0 {
        return None;
    }
    let (d, t, u) = if den > 0 {
        (den, tn, un)
    } else {
        (-den, -tn, -un)
    };
    assert(0 < d <= 0x800_0000_0000 && -0x800_0000_0000 <= u <= 0x800_0000_0000);
    if t > 0 && -d <= TOLERANCE_DIV * u && TOLERANCE_DIV * u <= TOLERANCE_DIV * d + d {
        proof {
            lemma_point_bounds(*ray, *seg);
        }
        let px = (ray.start_point.x as i128) * d + t * dx;
        let py = (ray.start_point.y as i128) * d + t * dy;
        Some(Collision { point: RatPoint { x: px, y: py, den: d }, t_num: t, t_den: d })
    } else {
        None
    }
}

/// A ray parallel to a segment (directions with zero cross product) never
/// crosses it.
pub proof fn lemma_parallel_never_hits(r: Ray, s: Segment)
    requires
        cross(
            r.end_point.x - r.start_point.x,
            r.end_point.y - r.start_point.y,
            s.end.x - s.start.x,
            s.end.y - s.start.y,
        ) == 0,
    ensures
        !hits(r, s),
{
}

/// A segment of zero length is never crossed.
pub proof fn lemma_degenerate_never_hit(r: Ray, s: Segment)
    requires
        s.start == s.end,
    ensures
        !hits(r, s),
{
    let dx = r.start_point.x - r.end_point.x;
    let dy = r.start_point.y - r.end_point.y;
    let sx = s.start.x - s.end.x;
    let sy = s.start.y - s.end.y;
    assert(dx * sy - dy * sx == 0) by (nonlinear_arith)
        requires
            sx == 0,
            sy == 0,
    ;
}

proof fn lemma_mul3(a: int, b: int, c: int)
    ensures
        a * (b * c) == (a * c) * b,
        a * (b * c) == (a * b) * c,
{
    assert(a * (b * c) == (a * c) * b) by (nonlinear_arith);
    assert(a * (b * c) == (a * b) * c) by (nonlinear_arith);
}

proof fn lemma_distrib(a: int, b: int, c: int)
    ensures
        a * (b - c) == a * b - a * c,
        (b - c) * a == b * a - c * a,
{
    assert(a * (b - c) == a * b - a * c) by (nonlinear_arith);
    assert((b - c) * a == b * a - c * a) by (nonlinear_arith);
}

/// `o * cross(d, e) == cross(o, e) * d - cross(o, d) * e`, one coordinate at a time.
proof fn lemma_crossing_identity(ox: int, oy: int, dx: int, dy: int, ex: int, ey: int)
    ensures
        ox * (dx * ey - dy * ex) == (ox * ey - oy * ex) * dx - (ox * dy - oy * dx) * ex,
        oy * (dx * ey - dy * ex) == (ox * ey - oy * ex) * dy - (ox * dy - oy * dx) * ey,
{
    lemma_distrib(ox, dx * ey, dy * ex);
    lemma_distrib(oy, dx * ey, dy * ex);
    lemma_distrib(dx, ox * ey, oy * ex);
    lemma_distrib(ex, ox * dy, oy * dx);
    lemma_distrib(dy, ox * ey, oy * ex);
    lemma_distrib(ey, ox * dy, oy * dx);
    lemma_mul3(ox, dx, ey);
    lemma_mul3(ox, dy, ex);
    lemma_mul3(oy, ex, dx);
    lemma_mul3(oy, dx, ex);
    lemma_mul3(oy, dx, ey);
    lemma_mul3(oy, dy, ex);
    lemma_mul3(ox, ey, dy);
    lemma_mul3(ox, dy, ey);
    lemma_mul3(oy, ey, dx);
    lemma_mul3(oy, ex, dy);
}

/// A crossing lies on both lines where the formulas put it: with
/// `d = t_den(r, s)`, the point is `start + (t_num / d) * (end - start)` with
/// `t_num > 0`, and also `seg.start + (u_num / d) * (seg.end - seg.start)` with
/// `u_num / d` in `[-1e-5, 1 + 1e-5]`.
pub proof fn lemma_crossing_on_segment(r: Ray, s: Segment)
    requires
        hits(r, s),
    ensures
        t_den(r, s) > 0,
        t_num(r, s) > 0,
        u_in_band(u_num(r, s), t_den(r, s)),
        crossing_point(r, s).0 == s.start.x * t_den(r, s) + u_num(r, s) * (s.end.x - s.start.x),
        crossing_point(r, s).1 == s.start.y * t_den(r, s) + u_num(r, s) * (s.end.y - s.start.y),
        crossing_point(r, s).2 == t_den(r, s),
{
    let (x1, y1, x3, y3) = (
        r.start_point.x as int,
        r.start_point.y as int,
        s.start.x as int,
        s.start.y as int,
    );
    let dx = r.end_point.x - r.start_point.x;
    let dy = r.end_point.y - r.start_point.y;
    let ex = s.end.x - s.start.x;
    let ey = s.end.y - s.start.y;
    let ox = x3 - x1;
    let oy = y3 - y1;
    let den = den_of(r, s);
    let tn = tn_of(r, s);
    let un = un_of(r, s);
    lemma_crossing_identity(ox, oy, dx, dy, ex, ey);
    if den < 0 {
        assert(x1 * (-den) + (-tn) * dx == x3 * (-den) + (-un) * ex) by (nonlinear_arith)
            requires
                ox * den == tn * dx - un * ex,
                ox == x3 - x1,
        ;
        assert(y1 * (-den) + (-tn) * dy == y3 * (-den) + (-un) * ey) by (nonlinear_arith)
            requires
                oy * den == tn * dy - un * ey,
                oy == y3 - y1,
        ;
    } else {
        assert(x1 * den + tn * dx == x3 * den + un * ex) by (nonlinear_arith)
            requires
                ox * den == tn * dx - un * ex,
                ox == x3 - x1,
        ;
        assert(y1 * den + tn * dy == y3 * den + un * ey) by (nonlinear_arith)
            requires
                oy * den == tn * dy - un * ey,
                oy == y3 - y1,
        ;
    }
}

} // verus!
