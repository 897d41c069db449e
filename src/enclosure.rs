//! A source inside a closed box of walls: every ray it casts hits a wall.
use vstd::prelude::*;

use crate::frame::hits_of_rays;
use crate::geometry::{
    den_of, hits, lemma_mul_bound, point_ok, segment_ok, sign_of, t_den, t_num, tn_of, u_num, un_of,
    Point, Ray, Segment,
};
use crate::nearest::{lemma_nearest_is_first_minimum, nearest, obstacles_ok};
use crate::probe::{corner_ray, obstacle_rays, probe_fan, ANGLE_SLOPE};

verus! {

/// The four walls of the box with corners `lo` and `hi`: top, bottom, left,
/// right.
pub open spec fn box_sides(lo: Point, hi: Point) -> Seq<Segment> {
    seq![
        Segment { start: Point { x: lo.x, y: hi.y }, end: Point { x: hi.x, y: hi.y } },
        Segment { start: Point { x: lo.x, y: lo.y }, end: Point { x: hi.x, y: lo.y } },
        Segment { start: Point { x: lo.x, y: lo.y }, end: Point { x: lo.x, y: hi.y } },
        Segment { start: Point { x: hi.x, y: lo.y }, end: Point { x: hi.x, y: hi.y } },
    ]
}

pub open spec fn reversed(s: Segment) -> Segment {
    Segment { start: s.end, end: s.start }
}

pub open spec fn strictly_inside(p: Point, lo: Point, hi: Point) -> bool {
    lo.x < p.x < hi.x && lo.y < p.y < hi.y
}

/// Every wall of the box is among `obs`, either way round.
pub open spec fn encloses(obs: Seq<Segment>, lo: Point, hi: Point) -> bool {
    forall|k: int|
        0 <= k < 4 ==> obs.contains(#[trigger] box_sides(lo, hi)[k]) || obs.contains(
            reversed(box_sides(lo, hi)[k]),
        )
}

/// Turning a segment round does not change whether a ray crosses it.
pub proof fn lemma_hits_reversed(r: Ray, s: Segment)
    ensures
        hits(r, reversed(s)) == hits(r, s),
{
    let dx = r.end_point.x - r.start_point.x;
    let dy = r.end_point.y - r.start_point.y;
    let ex = s.end.x - s.start.x;
    let ey = s.end.y - s.start.y;
    let ox = s.start.x - r.start_point.x;
    let oy = s.start.y - r.start_point.y;
    let s2 = reversed(s);
    assert(den_of(r, s2) == -den_of(r, s)) by (nonlinear_arith)
        requires
            den_of(r, s2) == dx * (-ey) - dy * (-ex),
            den_of(r, s) == dx * ey - dy * ex,
    ;
    assert(tn_of(r, s2) == -tn_of(r, s)) by (nonlinear_arith)
        requires
            tn_of(r, s2) == (ox + ex) * (-ey) - (oy + ey) * (-ex),
            tn_of(r, s) == ox * ey - oy * ex,
    ;
    assert(un_of(r, s2) == un_of(r, s) - den_of(r, s)) by (nonlinear_arith)
        requires
            un_of(r, s2) == (ox + ex) * dy - (oy + ey) * dx,
            un_of(r, s) == ox * dy - oy * dx,
            den_of(r, s) == dx * ey - dy * ex,
    ;
    let (d, tn, un) = (den_of(r, s), tn_of(r, s), un_of(r, s));
    if d > 0 {
        assert(t_num(r, s2) == t_num(r, s) && u_num(r, s2) == t_den(r, s) - u_num(r, s)) by (
        nonlinear_arith)
            requires
                d > 0,
                t_num(r, s2) == -1 * (-tn),
                t_num(r, s) == 1 * tn,
                u_num(r, s2) == -1 * (un - d),
                u_num(r, s) == 1 * un,
                t_den(r, s) == d,
        ;
    } else if d < 0 {
        assert(t_num(r, s2) == t_num(r, s) && u_num(r, s2) == t_den(r, s) - u_num(r, s)) by (
        nonlinear_arith)
            requires
                d < 0,
                t_num(r, s2) == 1 * (-tn),
                t_num(r, s) == -1 * tn,
                u_num(r, s2) == 1 * (un - d),
                u_num(r, s) == -1 * un,
                t_den(r, s) == -d,
        ;
    }
}

/// The ray from a source strictly inside the box, in any direction but none,
/// crosses one of its four walls.
pub proof fn lemma_box_side_hit(r: Ray, lo: Point, hi: Point)
    requires
        strictly_inside(r.start_point, lo, hi),
        r.end_point != r.start_point,
    ensures
        exists|k: int| 0 <= k < 4 && hits(r, #[trigger] box_sides(lo, hi)[k]),
{
    let sides = box_sides(lo, hi);
    let dx = r.end_point.x - r.start_point.x;
    let dy = r.end_point.y - r.start_point.y;
    // distances from the source to the right, left, top and bottom walls
    let a = hi.x - r.start_point.x;
    let a2 = r.start_point.x - lo.x;
    let c = hi.y - r.start_point.y;
    let b = r.start_point.y - lo.y;
    let w = a + a2;
    let h = b + c;
    // top: o = (-a2, c), e = (w, 0)
    assert(den_of(r, sides[0]) == -(dy * w) && tn_of(r, sides[0]) == -(c * w) && un_of(r, sides[0])
        == -(a2 * dy) - c * dx) by (nonlinear_arith)
        requires
            den_of(r, sides[0]) == dx * 0 - dy * w,
            tn_of(r, sides[0]) == (-a2) * 0 - c * w,
            un_of(r, sides[0]) == (-a2) * dy - c * dx,
    ;
    // bottom: o = (-a2, -b), e = (w, 0)
    assert(den_of(r, sides[1]) == -(dy * w) && tn_of(r, sides[1]) == b * w && un_of(r, sides[1])
        == b * dx - a2 * dy) by (nonlinear_arith)
        requires
            den_of(r, sides[1]) == dx * 0 - dy * w,
            tn_of(r, sides[1]) == (-a2) * 0 - (-b) * w,
            un_of(r, sides[1]) == (-a2) * dy - (-b) * dx,
    ;
    // left: o = (-a2, -b), e = (0, h)
    assert(den_of(r, sides[2]) == dx * h && tn_of(r, sides[2]) == -(a2 * h) && un_of(r, sides[2])
        == b * dx - a2 * dy) by (nonlinear_arith)
        requires
            den_of(r, sides[2]) == dx * h - dy * 0,
            tn_of(r, sides[2]) == (-a2) * h - (-b) * 0,
            un_of(r, sides[2]) == (-a2) * dy - (-b) * dx,
    ;
    // right: o = (a, -b), e = (0, h)
    assert(den_of(r, sides[3]) == dx * h && tn_of(r, sides[3]) == a * h && un_of(r, sides[3]) == a
        * dy + b * dx) by (nonlinear_arith)
        requires
            den_of(r, sides[3]) == dx * h - dy * 0,
            tn_of(r, sides[3]) == a * h - (-b) * 0,
            un_of(r, sides[3]) == a * dy - (-b) * dx,
    ;
    if dx > 0 && dy >= 0 {
        if a * dy <= c * dx {
            assert(dx * h > 0 && a * h > 0 && 0 <= a * dy + b * dx <= dx * h) by (nonlinear_arith)
                requires a > 0, b > 0, c > 0, h == b + c, dx > 0, dy >= 0, a * dy <= c * dx;
            assert(hits(r, sides[3]));
        } else {
            assert(dy * w > 0 && c * w > 0 && 0 <= a2 * dy + c * dx <= dy * w) by (nonlinear_arith)
                requires a > 0, a2 > 0, c > 0, w == a + a2, dx > 0, dy >= 0, a * dy > c * dx;
            assert(hits(r, sides[0]));
        }
    } else if dx > 0 {
        if -(b * dx) <= a * dy {
            assert(dx * h > 0 && a * h > 0 && 0 <= a * dy + b * dx <= dx * h) by (nonlinear_arith)
                requires a > 0, b > 0, c > 0, h == b + c, dx > 0, dy < 0, -(b * dx) <= a * dy;
            assert(hits(r, sides[3]));
        } else {
            assert(dy * w < 0 && b * w > 0 && 0 <= b * dx - a2 * dy <= -(dy * w)) by (nonlinear_arith)
                requires a > 0, a2 > 0, b > 0, w == a + a2, dx > 0, dy < 0, -(b * dx) > a * dy;
            assert(hits(r, sides[1]));
        }
    } else if dx < 0 && dy >= 0 {
        if a2 * dy <= -(c * dx) {
            assert(dx * h < 0 && a2 * h > 0 && 0 <= a2 * dy - b * dx <= -(dx * h)) by (nonlinear_arith)
                requires a2 > 0, b > 0, c > 0, h == b + c, dx < 0, dy >= 0, a2 * dy <= -(c * dx);
            assert(den_of(r, sides[2]) < 0);
            assert(sign_of(den_of(r, sides[2])) == -1);
            assert(tn_of(r, sides[2]) == -(a2 * h));
            assert(t_num(r, sides[2]) == a2 * h);
            assert(u_num(r, sides[2]) == a2 * dy - b * dx);
            assert(t_den(r, sides[2]) == -(dx * h));
            assert(hits(r, sides[2]));
        } else {
            assert(dy * w > 0 && c * w > 0 && 0 <= a2 * dy + c * dx <= dy * w) by (nonlinear_arith)
                requires a > 0, a2 > 0, c > 0, w == a + a2, dx < 0, dy >= 0, a2 * dy > -(c * dx);
            assert(hits(r, sides[0]));
        }
    } else if dx < 0 {
        if a2 * dy >= b * dx {
            assert(dx * h < 0 && a2 * h > 0 && 0 <= a2 * dy - b * dx <= -(dx * h)) by (nonlinear_arith)
                requires a2 > 0, b > 0, c > 0, h == b + c, dx < 0, dy < 0, a2 * dy >= b * dx;
            assert(den_of(r, sides[2]) < 0);
            assert(sign_of(den_of(r, sides[2])) == -1);
            assert(tn_of(r, sides[2]) == -(a2 * h));
            assert(t_num(r, sides[2]) == a2 * h);
            assert(u_num(r, sides[2]) == a2 * dy - b * dx);
            assert(t_den(r, sides[2]) == -(dx * h));
            assert(hits(r, sides[2]));
        } else {
            assert(dy * w < 0 && b * w > 0 && 0 <= b * dx - a2 * dy <= -(dy * w)) by (nonlinear_arith)
                requires a > 0, a2 > 0, b > 0, w == a + a2, dx < 0, dy < 0, a2 * dy < b * dx;
            assert(hits(r, sides[1]));
        }
    } else if dy > 0 {
        assert(dy * w > 0 && c * w > 0 && 0 <= a2 * dy + c * dx <= dy * w) by (nonlinear_arith)
            requires a > 0, a2 > 0, c > 0, w == a + a2, dx == 0, dy > 0;
        assert(hits(r, sides[0]));
    } else {
        assert(dy < 0);
        assert(dy * w < 0 && b * w > 0 && 0 <= b * dx - a2 * dy <= -(dy * w)) by (nonlinear_arith)
            requires a > 0, a2 > 0, b > 0, w == a + a2, dx == 0, dy < 0;
        assert(hits(r, sides[1]));
    }
}

/// A ray cast from strictly inside a box of walls, in any direction but none,
/// has a nearest hit among obstacles that include those walls.
pub proof fn lemma_enclosed_ray_resolves(r: Ray, obs: Seq<Segment>, lo: Point, hi: Point)
    requires
        strictly_inside(r.start_point, lo, hi),
        r.end_point != r.start_point,
        encloses(obs, lo, hi),
    ensures
        nearest(r, obs) is Some,
{
    lemma_box_side_hit(r, lo, hi);
    let k = choose|k: int| 0 <= k < 4 && hits(r, #[trigger] box_sides(lo, hi)[k]);
    let side = box_sides(lo, hi)[k];
    lemma_hits_reversed(r, side);
    assert(obs.contains(side) || obs.contains(reversed(side)));
    let j = if obs.contains(side) {
        choose|j: int| 0 <= j < obs.len() && obs[j] == side
    } else {
        choose|j: int| 0 <= j < obs.len() && obs[j] == reversed(side)
    };
    assert(hits(r, obs[j]));
    lemma_nearest_is_first_minimum(r, obs, obs.len());
}

/// A probe ray at a corner other than the source has a direction.
proof fn lemma_corner_rays_move(source: Point, corner: Point, k: int)
    requires
        point_ok(source),
        point_ok(corner),
        corner != source,
        0 <= k < 3,
    ensures
        corner_ray(source, corner, k).start_point == source,
        corner_ray(source, corner, k).end_point != source,
{
    let dx = corner.x - source.x;
    let dy = corner.y - source.y;
    let m = ANGLE_SLOPE as int;
    assert(dx != 0 || dy != 0);
    assert(m * dx - dy != 0 || dx + m * dy != 0) by (nonlinear_arith)
        requires
            dx != 0 || dy != 0,
            m == 200,
    ;
    assert(m * dx + dy != 0 || m * dy - dx != 0) by (nonlinear_arith)
        requires
            dx != 0 || dy != 0,
            m == 200,
    ;
    lemma_mul_bound(m, dx, 200, 0x2_0000);
    lemma_mul_bound(m, dy, 200, 0x2_0000);
}

/// Every probe ray starts at the source and, when no obstacle ends there,
/// has a direction.
proof fn lemma_probe_rays_move(source: Point, obs: Seq<Segment>)
    requires
        point_ok(source),
        obstacles_ok(obs),
        forall|i: int| 0 <= i < obs.len() ==> (#[trigger] obs[i]).start != source && obs[i].end != source,
    ensures
        forall|i: int|
            0 <= i < probe_fan(source, obs).len() ==> (#[trigger] probe_fan(source, obs)[i]).start_point
                == source && probe_fan(source, obs)[i].end_point != source,
    decreases obs.len(),
{
    if obs.len() > 0 {
        let rest = obs.drop_last();
        assert forall|i: int| 0 <= i < rest.len() implies segment_ok(#[trigger] rest[i]) by {
            assert(rest[i] == obs[i]);
        }
        assert forall|i: int| 0 <= i < rest.len() implies (#[trigger] rest[i]).start != source
            && rest[i].end != source by {
            assert(rest[i] == obs[i]);
        }
        lemma_probe_rays_move(source, rest);
        let last = obs[obs.len() - 1];
        assert(segment_ok(last));
        let pre = probe_fan(source, rest);
        let six = obstacle_rays(source, last);
        assert forall|k: int| 0 <= k < 6 implies (#[trigger] six[k]).start_point == source
            && six[k].end_point != source by {
            if k < 3 {
                lemma_corner_rays_move(source, last.start, k);
            } else {
                lemma_corner_rays_move(source, last.end, k - 3);
            }
        }
        let all = probe_fan(source, obs);
        assert forall|i: int| 0 <= i < all.len() implies (#[trigger] all[i]).start_point == source
            && all[i].end_point != source by {
            if i < pre.len() {
                assert(all[i] == pre[i]);
            } else {
                assert(all[i] == six[i - pre.len()]);
            }
        }
    }
}

/// Rays that all have a nearest hit each give one hit point.
proof fn lemma_all_resolved_count(rays: Seq<Ray>, obs: Seq<Segment>)
    requires
        forall|i: int| 0 <= i < rays.len() ==> nearest(#[trigger] rays[i], obs) is Some,
    ensures
        hits_of_rays(rays, obs).len() == rays.len(),
    decreases rays.len(),
{
    if rays.len() > 0 {
        let rest = rays.drop_last();
        assert forall|i: int| 0 <= i < rest.len() implies nearest(#[trigger] rest[i], obs) is Some by {
            assert(rest[i] == rays[i]);
        }
        lemma_all_resolved_count(rest, obs);
        assert(nearest(rays[rays.len() - 1], obs) is Some);
    }
}

/// With the source strictly inside a box of walls that the obstacles include,
/// and no obstacle ending at the source, every probe ray has a nearest hit: the
/// light region has one hit point per probe ray, six per obstacle.
pub proof fn lemma_enclosed_probe_rays_resolve(source: Point, obs: Seq<Segment>, lo: Point, hi: Point)
    requires
        point_ok(source),
        obstacles_ok(obs),
        strictly_inside(source, lo, hi),
        encloses(obs, lo, hi),
        forall|i: int| 0 <= i < obs.len() ==> (#[trigger] obs[i]).start != source && obs[i].end != source,
    ensures
        forall|i: int| 0 <= i < probe_fan(source, obs).len() ==> nearest(#[trigger] probe_fan(source, obs)[i], obs) is Some,
        hits_of_rays(probe_fan(source, obs), obs).len() == 6 * obs.len(),
{
    lemma_probe_rays_move(source, obs);
    crate::probe::lemma_probe_fan_ok(source, obs);
    let rays = probe_fan(source, obs);
    assert forall|i: int| 0 <= i < rays.len() implies nearest(#[trigger] rays[i], obs) is Some by {
        lemma_enclosed_ray_resolves(rays[i], obs, lo, hi);
    }
    lemma_all_resolved_count(rays, obs);
}

} // verus!
