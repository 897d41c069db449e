//! The probe rays cast from the source at every obstacle corner.
use vstd::prelude::*;

use crate::geometry::{point_ok, ray_ok, segment_ok, Point, Ray, Segment};
use crate::nearest::obstacles_ok;

verus! {

/// Slope of the small side-step around a corner: a ray turned by the angle
/// whose tangent is `1 / ANGLE_SLOPE` (about 0.005 radians), each way.
pub const ANGLE_SLOPE: i64 = 200;

/// The ray from `source` along `(dx, dy)`.
pub open spec fn ray_along(source: Point, dx: int, dy: int) -> Ray {
    Ray { start_point: source, end_point: Point { x: (source.x + dx) as i64, y: (source.y + dy) as i64 } }
}

/// Ray `k` of the three cast at `corner`: straight at it (`k == 0`), turned
/// counter-clockwise (`k == 1`) or clockwise (`k == 2`) by `atan(1 / ANGLE_SLOPE)`.
pub open spec fn corner_ray(source: Point, corner: Point, k: int) -> Ray {
    let dx = corner.x - source.x;
    let dy = corner.y - source.y;
    if k == 0 {
        Ray { start_point: source, end_point: corner }
    } else if k == 1 {
        ray_along(source, ANGLE_SLOPE * dx - dy, dx + ANGLE_SLOPE * dy)
    } else {
        ray_along(source, ANGLE_SLOPE * dx + dy, ANGLE_SLOPE * dy - dx)
    }
}

/// The six rays cast for one obstacle: three at its start, three at its end.
pub open spec fn obstacle_rays(source: Point, s: Segment) -> Seq<Ray> {
    seq![
        corner_ray(source, s.start, 0),
        corner_ray(source, s.start, 1),
        corner_ray(source, s.start, 2),
        corner_ray(source, s.end, 0),
        corner_ray(source, s.end, 1),
        corner_ray(source, s.end, 2),
    ]
}

/// All probe rays, obstacle by obstacle in list order.
pub open spec fn probe_fan(source: Point, obs: Seq<Segment>) -> Seq<Ray>
    decreases obs.len(),
{
    if obs.len() == 0 {
        seq![]
    } else {
        probe_fan(source, obs.drop_last()) + obstacle_rays(source, obs.last())
    }
}

/// Every probe ray is small enough for the exact crossing test.
pub proof fn lemma_probe_fan_ok(source: Point, obs: Seq<Segment>)
    requires
        point_ok(source),
        obstacles_ok(obs),
    ensures
        probe_fan(source, obs).len() == 6 * obs.len(),
        forall|i: int| 0 <= i < probe_fan(source, obs).len() ==> ray_ok(#[trigger] probe_fan(source, obs)[i]),
    decreases obs.len(),
{
    if obs.len() > 0 {
        let rest = obs.drop_last();
        assert(obstacles_ok(rest)) by {
            assert forall|i: int| 0 <= i < rest.len() implies segment_ok(#[trigger] rest[i]) by {
                assert(rest[i] == obs[i]);
            }
        }
        lemma_probe_fan_ok(source, rest);
        let last = obs.last();
        assert(segment_ok(obs[obs.len() - 1]));
        let six = obstacle_rays(source, last);
        assert forall|k: int| 0 <= k < 6 implies ray_ok(#[trigger] six[k]) by {}
        let all = probe_fan(source, obs);
        assert forall|i: int| 0 <= i < all.len() implies ray_ok(#[trigger] all[i]) by {
            if i < probe_fan(source, rest).len() {
                assert(all[i] == probe_fan(source, rest)[i]);
            } else {
                assert(all[i] == six[i - probe_fan(source, rest).len()]);
            }
        }
    }
}

/// The ray from `source` along `(dx, dy)`.
fn cast_along(source: Point, dx: i64, dy: i64) -> (r: Ray)
    requires
        point_ok(source),
        -0x200_0000 <= dx <= 0x200_0000,
        -0x200_0000 <= dy <= 0x200_0000,
    ensures
        r == ray_along(source, dx as int, dy as int),
{
    Ray { start_point: source, end_point: Point { x: source.x + dx, y: source.y + dy } }
}

/// The three rays cast at one corner: straight at it, then turned each way.
fn push_corner_rays(rays: &mut Vec<Ray>, source: Point, corner: Point)
    requires
        point_ok(source),
        point_ok(corner),
    ensures
        final(rays)@ == old(rays)@ + seq![
            corner_ray(source, corner, 0),
            corner_ray(source, corner, 1),
            corner_ray(source, corner, 2),
        ],
{
    let dx = corner.x - source.x;
    let dy = corner.y - source.y;
    rays.push(Ray { start_point: source, end_point: corner });
    rays.push(cast_along(source, ANGLE_SLOPE * dx - dy, dx + ANGLE_SLOPE * dy));
    rays.push(cast_along(source, ANGLE_SLOPE * dx + dy, ANGLE_SLOPE * dy - dx));
    assert(final(rays)@ =~= old(rays)@ + seq![
        corner_ray(source, corner, 0),
        corner_ray(source, corner, 1),
        corner_ray(source, corner, 2),
    ]);
}

/// The probe rays from `source`: for each obstacle in order, six rays, at its
/// start and at its end, each straight at the corner and turned either way.
pub fn probe_rays(source: Point, obstacles: &Vec<Segment>) -> (rays: Vec<Ray>)
    requires
        point_ok(source),
        obstacles_ok(obstacles@),
    ensures
        rays@ == probe_fan(source, obstacles@),
        rays@.len() == 6 * obstacles@.len(),
{
    let mut rays: Vec<Ray> = Vec::new();
    let mut i: usize = 0;
    while i < obstacles.len()
        invariant
            i <= obstacles.len(),
            point_ok(source),
            obstacles_ok(obstacles@),
            rays@ == probe_fan(source, obstacles@.subrange(0, i as int)),
        decreases obstacles.len() - i,
    {
        let seg = obstacles[i];
        assert(segment_ok(obstacles@[i as int]));
        push_corner_rays(&mut rays, source, seg.start);
        push_corner_rays(&mut rays, source, seg.end);
        proof {
            let next = obstacles@.subrange(0, i + 1);
            assert(next.drop_last() =~= obstacles@.subrange(0, i as int));
            assert(next.last() == seg);
            assert(rays@ =~= probe_fan(source, next));
        }
        i = i + 1;
    }
    proof {
        assert(obstacles@.subrange(0, i as int) =~= obstacles@);
        lemma_probe_fan_ok(source, obstacles@);
    }
    rays
}

} // verus!
