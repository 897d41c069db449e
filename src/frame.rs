//! One frame: probe rays, nearest hits, angular sort, triangle fan.
use vstd::prelude::*;

use crate::geometry::{crossing_point, lemma_point_bounds, point_ok, ray_ok, segment_ok, Point, Ray, RatPoint, Segment};
use crate::nearest::{lemma_nearest_is_first_minimum, lemma_nearest_skips_degenerate, nearest, obstacles_ok, resolve, shifted};
use crate::polygon::{
    angle_class, angle_sorted, angular_sort, fan, fan_triangles, hit_ok, hits_ok,
    lemma_angular_sort_is_sorted_permutation, lemma_angular_sort_is_stable, sort_by_angle, tri_views,
    views, Triangle,
};
use crate::probe::{lemma_probe_fan_ok, obstacle_rays, probe_fan, probe_rays};

verus! {

/// The nearest hit point of each ray in turn; rays that cross no obstacle are
/// left out.
pub open spec fn hits_of_rays(rays: Seq<Ray>, obs: Seq<Segment>) -> Seq<(int, int, int)>
    decreases rays.len(),
{
    if rays.len() == 0 {
        seq![]
    } else {
        let prev = hits_of_rays(rays.drop_last(), obs);
        match nearest(rays.last(), obs) {
            Some(k) => prev.push(crossing_point(rays.last(), obs[k])),
            None => prev,
        }
    }
}

/// The light region seen from `src`: the closed fan over the nearest hits of
/// all probe rays, sorted by angle.
pub open spec fn light_region(src: Point, obs: Seq<Segment>) -> Seq<
    ((int, int, int), (int, int, int), (int, int, int)),
> {
    fan(src, angular_sort(src, hits_of_rays(probe_fan(src, obs), obs)))
}

/// Rays cast from `src`, each small enough for the exact crossing test.
pub open spec fn rays_from(src: Point, rays: Seq<Ray>) -> bool {
    forall|i: int| 0 <= i < rays.len() ==> ray_ok(#[trigger] rays[i]) && rays[i].start_point == src
}

/// The nearest hit point of each ray, in ray order; a ray that crosses no
/// obstacle gives none.
pub fn collect_hits(source: Point, rays: &Vec<Ray>, obstacles: &Vec<Segment>) -> (hits: Vec<RatPoint>)
    requires
        point_ok(source),
        rays_from(source, rays@),
        obstacles_ok(obstacles@),
    ensures
        views(hits@) == hits_of_rays(rays@, obstacles@),
        hits_ok(source, hits@),
{
    let mut hits: Vec<RatPoint> = Vec::new();
    let mut i: usize = 0;
    while i < rays.len()
        invariant
            i <= rays.len(),
            point_ok(source),
            rays_from(source, rays@),
            obstacles_ok(obstacles@),
            views(hits@) == hits_of_rays(rays@.subrange(0, i as int), obstacles@),
            hits_ok(source, hits@),
        decreases rays.len() - i,
    {
        let ray = &rays[i];
        assert(ray_ok(rays@[i as int]) && rays@[i as int].start_point == source);
        let found = resolve(ray, obstacles);
        let ghost before = hits@;
        match found {
            Some(c) => {
                proof {
                    let k = nearest(*ray, obstacles@)->0;
                    lemma_nearest_is_first_minimum(*ray, obstacles@, obstacles@.len());
                    assert(segment_ok(obstacles@[k]));
                    lemma_point_bounds(*ray, obstacles@[k]);
                }
                hits.push(c.point);
                proof {
                    assert forall|j: int| 0 <= j < hits@.len() implies hit_ok(
                        source,
                        #[trigger] hits@[j],
                    ) by {
                        if j < before.len() {
                            assert(hits@[j] == before[j]);
                        }
                    }
                }
            },
            None => {},
        }
        proof {
            let next = rays@.subrange(0, i + 1);
            assert(next.drop_last() =~= rays@.subrange(0, i as int));
            assert(next.last() == *ray);
            assert(views(hits@) =~= hits_of_rays(next, obstacles@));
        }
        i = i + 1;
    }
    proof {
        assert(rays@.subrange(0, i as int) =~= rays@);
    }
    hits
}

/// The triangles of the light region seen from `source` among `obstacles`,
/// computed afresh from these two inputs alone.
pub fn light_polygon(source: Point, obstacles: &Vec<Segment>) -> (tris: Vec<Triangle>)
    requires
        point_ok(source),
        obstacles_ok(obstacles@),
    ensures
        tri_views(tris@) == light_region(source, obstacles@),
{
    let rays = probe_rays(source, obstacles);
    proof {
        lemma_probe_fan_ok(source, obstacles@);
        lemma_probe_fan_from(source, obstacles@);
    }
    let hits = collect_hits(source, &rays, obstacles);
    let sorted = sort_by_angle(source, &hits);
    fan_triangles(source, &sorted)
}

/// The light region is the closed fan over the hit points stably sorted by
/// angle around the source: ascending, each hit kept as often as it was
/// found, and hits at one angle in the order their rays were cast.
pub proof fn lemma_light_region_is_fan_of_stable_sort(src: Point, obs: Seq<Segment>)
    ensures
        ({
            let found = hits_of_rays(probe_fan(src, obs), obs);
            let sorted = angular_sort(src, found);
            &&& light_region(src, obs) == fan(src, sorted)
            &&& angle_sorted(src, sorted)
            &&& sorted.to_multiset() == found.to_multiset()
            &&& forall|p: (int, int, int)| #[trigger] sorted.filter(angle_class(src, p)) == found.filter(angle_class(src, p))
        }),
{
    let found = hits_of_rays(probe_fan(src, obs), obs);
    lemma_angular_sort_is_sorted_permutation(src, found);
    assert forall|p: (int, int, int)| #[trigger] angular_sort(src, found).filter(angle_class(src, p)) == found.filter(angle_class(src, p)) by {
        lemma_angular_sort_is_stable(src, found, p);
    }
}

/// Two frames with the same source and the same obstacles give the same
/// triangles, field for field: the light region depends on these inputs alone.
pub proof fn lemma_frame_repeatable(source: Point, obs: Seq<Segment>, first: Seq<Triangle>, second: Seq<Triangle>)
    requires
        tri_views(first) == light_region(source, obs),
        tri_views(second) == light_region(source, obs),
    ensures
        first == second,
{
    assert(first.len() == tri_views(first).len());
    assert forall|i: int| 0 <= i < first.len() implies first[i] == second[i] by {
        assert(tri_views(first)[i] == first[i]@);
        assert(tri_views(second)[i] == second[i]@);
    }
    assert(first =~= second);
}

/// A zero-length obstacle is as good as absent: inserted anywhere among the
/// obstacles, it leaves every ray's nearest hit, the hit points and the
/// triangles built from them unchanged.
pub proof fn lemma_zero_length_obstacle_is_absent(rays: Seq<Ray>, obs: Seq<Segment>, k: int, z: Segment)
    requires
        z.start == z.end,
        0 <= k <= obs.len(),
    ensures
        forall|r: Ray| #[trigger] nearest(r, obs.insert(k, z)) == shifted(nearest(r, obs), k),
        hits_of_rays(rays, obs.insert(k, z)) == hits_of_rays(rays, obs),
        forall|src: Point|
            #[trigger] fan(src, angular_sort(src, hits_of_rays(rays, obs.insert(k, z)))) == fan(
                src,
                angular_sort(src, hits_of_rays(rays, obs)),
            ),
    decreases rays.len(),
{
    let obs2 = obs.insert(k, z);
    assert forall|r: Ray| #[trigger] nearest(r, obs2) == shifted(nearest(r, obs), k) by {
        lemma_nearest_skips_degenerate(r, obs, k, z, (obs.len() + 1) as nat);
    }
    if rays.len() > 0 {
        lemma_zero_length_obstacle_is_absent(rays.drop_last(), obs, k, z);
        let r = rays.last();
        lemma_nearest_is_first_minimum(r, obs, obs.len());
        if let Some(p) = nearest(r, obs) {
            assert(obs2[shifted(Some(p), k)->0] == obs[p]);
        }
    }
}

/// Every probe ray starts at the source.
proof fn lemma_probe_fan_from(source: Point, obs: Seq<Segment>)
    requires
        point_ok(source),
        obstacles_ok(obs),
    ensures
        rays_from(source, probe_fan(source, obs)),
    decreases obs.len(),
{
    lemma_probe_fan_ok(source, obs);
    if obs.len() > 0 {
        let rest = obs.drop_last();
        assert(obstacles_ok(rest)) by {
            assert forall|i: int| 0 <= i < rest.len() implies segment_ok(#[trigger] rest[i]) by {
                assert(rest[i] == obs[i]);
            }
        }
        lemma_probe_fan_from(source, rest);
        let all = probe_fan(source, obs);
        let pre = probe_fan(source, rest);
        let six = obstacle_rays(source, obs.last());
        assert forall|i: int| 0 <= i < all.len() implies #[trigger] all[i].start_point == source by {
            if i < pre.len() {
                assert(all[i] == pre[i]);
            } else {
                assert(all[i] == six[i - pre.len()]);
            }
        }
    }
}

/// The probe rays of one source, rebuilt every frame.
pub struct CastRays {
    pub rays: Vec<Ray>,
}

impl CastRays {
    /// Discards the previous rays and casts the probe rays from `source` at
    /// the corners of `obstacles`.
    pub fn update_rays(&mut self, source: Point, obstacles: &Vec<Segment>)
        requires
            point_ok(source),
            obstacles_ok(obstacles@),
        ensures
            final(self).rays@ == probe_fan(source, obstacles@),
            rays_from(source, final(self).rays@),
    {
        self.rays = probe_rays(source, obstacles);
        proof {
            lemma_probe_fan_from(source, obstacles@);
        }
    }

    /// The light triangles of these rays: their nearest hits among
    /// `obstacles`, sorted by angle around `source` and closed into a fan.
    pub fn light_triangles(&self, source: Point, obstacles: &Vec<Segment>) -> (tris: Vec<Triangle>)
        requires
            point_ok(source),
            rays_from(source, self.rays@),
            obstacles_ok(obstacles@),
        ensures
            tri_views(tris@) == fan(source, angular_sort(source, hits_of_rays(self.rays@, obstacles@))),
    {
        let hits = collect_hits(source, &self.rays, obstacles);
        let sorted = sort_by_angle(source, &hits);
        fan_triangles(source, &sorted)
    }
}

} // verus!
