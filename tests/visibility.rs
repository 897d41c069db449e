use light_cast::frame::{light_polygon, collect_hits, CastRays};
use light_cast::geometry::{intersect, Obstacle, Point, RatPoint, Ray, Segment};
use light_cast::nearest::resolve;
use light_cast::polygon::{fan_triangles, sort_by_angle, Triangle};
use light_cast::probe::probe_rays;

fn pt(x: i64, y: i64) -> Point {
    Point { x, y }
}

fn seg(ax: i64, ay: i64, bx: i64, by: i64) -> Segment {
    Segment { start: pt(ax, ay), end: pt(bx, by) }
}

fn ray(ax: i64, ay: i64, bx: i64, by: i64) -> Ray {
    Ray::new(pt(ax, ay), pt(bx, by))
}

fn rp(x: i128, y: i128) -> RatPoint {
    RatPoint { x, y, den: 1 }
}

/// The sixteen walls of the demo scene: an outer box and interior fragments.
fn scene() -> Vec<Segment> {
    vec![
        seg(-800, 500, 800, 500),
        seg(-800, -500, 800, -500),
        seg(-800, -500, -800, 500),
        seg(800, 500, 800, -500),
        seg(100, 400, 400, 400),
        seg(400, 100, 400, 400),
        seg(-100, -400, -400, -400),
        seg(-400, -100, -400, -400),
        seg(-100, 400, -400, 400),
        seg(-400, 100, -400, 400),
        seg(100, -400, 400, -400),
        seg(400, -100, 400, -400),
        seg(100, 100, 100, -100),
        seg(-100, -100, 100, -100),
        seg(-100, -100, -100, 100),
        seg(-100, 100, 100, 100),
    ]
}

fn close(p: &RatPoint, x: f64, y: f64) -> bool {
    let px = p.x as f64 / p.den as f64;
    let py = p.y as f64 / p.den as f64;
    (px - x).abs() < 1e-4 && (py - y).abs() < 1e-4
}

#[test]
fn crossing_of_known_lines() {
    let c = intersect(&ray(0, 0, 10, 0), &seg(5, -5, 5, 5)).unwrap();
    assert!(close(&c.point, 5.0, 0.0));
    assert_eq!(c.point.x, 5 * c.point.den);
    assert_eq!(c.point.y, 0);
    assert_eq!(c.t_num * 2, c.t_den);
}

#[test]
fn crossing_at_segment_endpoint() {
    let c = intersect(&ray(0, 0, 10, 10), &seg(5, 5, 9, 0)).unwrap();
    assert_eq!((c.point.x, c.point.y), (5 * c.point.den, 5 * c.point.den));
}

#[test]
fn crossing_behind_origin_is_none() {
    assert!(intersect(&ray(0, 0, 10, 0), &seg(-5, -5, -5, 5)).is_none());
    assert!(intersect(&ray(0, 0, 10, 0), &seg(5, 1, 5, 5)).is_none());
}

#[test]
fn parallel_lines_never_cross() {
    assert!(intersect(&ray(0, 0, 10, 0), &seg(0, 1, 10, 1)).is_none());
    assert!(intersect(&ray(0, 0, 10, 0), &seg(0, 0, 10, 0)).is_none());
}

#[test]
fn zero_length_segment_is_never_hit() {
    assert!(intersect(&ray(0, 0, 10, 0), &seg(5, 0, 5, 0)).is_none());
    assert!(resolve(&ray(0, 0, 10, 0), &vec![seg(5, 0, 5, 0)]).is_none());
}

#[test]
fn nearest_hit_wins() {
    let obstacles = vec![seg(7, -5, 7, 5), seg(3, -5, 3, 5)];
    let c = resolve(&ray(0, 0, 10, 0), &obstacles).unwrap();
    assert!(close(&c.point, 3.0, 0.0));
    assert_eq!(c.t_num * 10, 3 * c.t_den);
}

#[test]
fn equal_distance_keeps_first_obstacle() {
    let obstacles = vec![seg(5, 0, 5, 5), seg(5, -5, 5, 0)];
    let c = resolve(&ray(0, 0, 10, 0), &obstacles).unwrap();
    assert_eq!(c, intersect(&ray(0, 0, 10, 0), &obstacles[0]).unwrap());
}

#[test]
fn no_obstacle_no_hit() {
    assert!(resolve(&ray(0, 0, 10, 0), &vec![]).is_none());
}

#[test]
fn six_probe_rays_per_obstacle() {
    let rays = probe_rays(pt(0, 0), &vec![seg(10, 0, 0, 10)]);
    assert_eq!(rays.len(), 6);
    assert_eq!(rays[0], ray(0, 0, 10, 0));
    assert_eq!(rays[1], ray(0, 0, 2000, 10));
    assert_eq!(rays[2], ray(0, 0, 2000, -10));
    assert_eq!(rays[3], ray(0, 0, 0, 10));
    assert_eq!(rays[4], ray(0, 0, -10, 2000));
    assert_eq!(rays[5], ray(0, 0, 10, 2000));
    for r in &rays {
        assert_eq!(r.start_point, pt(0, 0));
    }
}

#[test]
fn side_rays_turn_by_about_five_thousandths() {
    let rays = probe_rays(pt(3, -2), &vec![seg(50, 40, 60, 45)]);
    let base = ((40.0f64 + 2.0).atan2(50.0 - 3.0)) as f64;
    for (k, sign) in [(1usize, 1.0f64), (2, -1.0)] {
        let r = rays[k];
        let a = ((r.end_point.y - r.start_point.y) as f64).atan2((r.end_point.x - r.start_point.x) as f64);
        assert!((a - base - sign * 0.005).abs() < 1e-6);
    }
}

#[test]
fn angular_sort_and_closure() {
    // 10, 350 and 170 degrees around the origin
    let hits = vec![rp(1000, 176), rp(1000, -176), rp(-1000, 176)];
    let sorted = sort_by_angle(pt(0, 0), &hits);
    // atan2 order over (-180, 180]: -10 (= 350), 10, 170
    assert_eq!(sorted, vec![rp(1000, -176), rp(1000, 176), rp(-1000, 176)]);
    let tris = fan_triangles(pt(0, 0), &sorted);
    assert_eq!(tris.len(), 3);
    let src = rp(0, 0);
    assert_eq!(tris[0], Triangle { a: rp(1000, -176), b: rp(1000, 176), c: src });
    assert_eq!(tris[1], Triangle { a: rp(1000, 176), b: rp(-1000, 176), c: src });
    assert_eq!(tris[2], Triangle { a: rp(-1000, 176), b: rp(1000, -176), c: src });
    for t in &tris {
        assert_eq!(t.c, src);
    }
}

#[test]
fn angular_sort_cardinal_directions() {
    let hits = vec![rp(-5, 0), rp(0, 5), rp(5, 0), rp(0, -5), rp(-3, -3), rp(3, 3)];
    let sorted = sort_by_angle(pt(0, 0), &hits);
    assert_eq!(sorted, vec![rp(-3, -3), rp(0, -5), rp(5, 0), rp(3, 3), rp(0, 5), rp(-5, 0)]);
}

#[test]
fn angular_sort_around_offset_source_with_rational_points() {
    let source = pt(10, 10);
    let hits = vec![
        RatPoint { x: 21, y: 20, den: 2 },
        RatPoint { x: 19, y: 20, den: 2 },
        RatPoint { x: 20, y: 21, den: 2 },
    ];
    let sorted = sort_by_angle(source, &hits);
    assert_eq!(sorted, vec![hits[0], hits[2], hits[1]]);
}

#[test]
fn angular_sort_keeps_order_of_equal_angles() {
    let hits = vec![rp(4, 4), rp(1, 1), rp(2, 2)];
    assert_eq!(sort_by_angle(pt(0, 0), &hits), hits);
}

#[test]
fn empty_hits_give_no_triangles() {
    assert!(fan_triangles(pt(0, 0), &vec![]).is_empty());
    assert!(light_polygon(pt(0, 0), &vec![]).is_empty());
}

#[test]
fn single_hit_gives_degenerate_triangle() {
    let tris = fan_triangles(pt(0, 0), &vec![rp(3, 4)]);
    assert_eq!(tris, vec![Triangle { a: rp(3, 4), b: rp(3, 4), c: rp(0, 0) }]);
}

#[test]
fn enclosed_source_resolves_every_probe_ray() {
    let obstacles = scene();
    let source = pt(0, 250);
    let rays = probe_rays(source, &obstacles);
    assert_eq!(rays.len(), 96);
    let hits = collect_hits(source, &rays, &obstacles);
    assert_eq!(hits.len(), 96);
    let tris = light_polygon(source, &obstacles);
    assert_eq!(tris.len(), 96);
    for h in &hits {
        let x = h.x as f64 / h.den as f64;
        let y = h.y as f64 / h.den as f64;
        assert!(x >= -800.0 && x <= 800.0 && y >= -500.0 && y <= 500.0);
    }
}

#[test]
fn open_scene_drops_unresolved_rays() {
    // a single wall: rays cast beside its ends find nothing
    let obstacles = vec![seg(10, -5, 10, 5)];
    let hits = collect_hits(pt(0, 0), &probe_rays(pt(0, 0), &obstacles), &obstacles);
    assert_eq!(hits.len(), 4);
}

#[test]
fn pipeline_is_repeatable() {
    let obstacles = scene();
    let a = light_polygon(pt(-250, 30), &obstacles);
    let b = light_polygon(pt(-250, 30), &obstacles);
    assert_eq!(a, b);
    assert!(!a.is_empty());
}

#[test]
fn light_region_bounded_by_near_wall() {
    // source between two walls; everything seen lies between them
    let obstacles = vec![
        seg(-10, -10, 10, -10),
        seg(-10, 10, 10, 10),
        seg(-10, -10, -10, 10),
        seg(10, -10, 10, 10),
        seg(2, -3, 2, 3),
    ];
    let tris = light_polygon(pt(0, 0), &obstacles);
    assert_eq!(tris.len(), 30);
    for t in &tris {
        let x = t.a.x as f64 / t.a.den as f64;
        // nothing right of the inner wall is lit at height |y| < 3 * x / 2
        let y = t.a.y as f64 / t.a.den as f64;
        if x > 2.0 + 1e-9 {
            assert!(y.abs() >= 1.5 * x - 1e-6);
        }
    }
}

#[test]
fn cast_rays_stages_match_pipeline() {
    let obstacles = scene();
    let source = pt(600, -300);
    let mut cast = CastRays { rays: vec![Ray::default()] };
    cast.update_rays(source, &obstacles);
    assert_eq!(cast.rays, probe_rays(source, &obstacles));
    assert_eq!(cast.light_triangles(source, &obstacles), light_polygon(source, &obstacles));
}

#[test]
fn ray_editing() {
    let mut r = ray(1, 2, 5, 6);
    r.translate(pt(10, -1));
    assert_eq!(r, ray(11, 1, 15, 5));
    r.translate_to(pt(0, 0));
    assert_eq!(r, ray(0, 0, 4, 4));
    r.scale(3);
    assert_eq!(r, ray(0, 0, 12, 12));
    r.set_source_pos(pt(1, 1));
    assert_eq!(r, ray(1, 1, 12, 12));
    r.set_end_pos(pt(7, 8));
    assert_eq!(r, ray(1, 1, 7, 8));
    assert_eq!(Ray::default(), ray(0, 0, 0, 0));
}

#[test]
fn obstacle_moves_with_anchor() {
    let o = Obstacle { start_offset: pt(-3, 1), end_offset: pt(4, 1) };
    assert_eq!(o.at(pt(10, 20)), seg(7, 21, 14, 21));
    assert_eq!(o.at(pt(0, 0)), seg(-3, 1, 4, 1));
}

#[test]
fn source_on_wall_corner_loses_its_zero_length_rays() {
    // (100, 100) ends two interior walls: the six rays cast at it have no direction
    let obstacles = scene();
    let source = pt(100, 100);
    let hits = collect_hits(source, &probe_rays(source, &obstacles), &obstacles);
    assert_eq!(hits.len(), 90);
}

#[test]
fn near_corner_crossing_within_tolerance() {
    // t = 1.001, u = -1e-6: just past the segment's start, inside the tolerance
    let c = intersect(&ray(0, 0, 1000, 1), &seg(1001, 1, 1001, -999)).unwrap();
    assert!(close(&c.point, 1001.0, 1.001));
    assert_eq!(c.t_num * 1000, 1001 * c.t_den);
}

#[test]
fn tolerance_band_edges() {
    // u = -1e-5 exactly: still a hit
    assert!(intersect(&ray(0, 0, 100000, 101), &seg(1000, 1, 1000, -999)).is_some());
    // u = -2e-5: beyond the tolerance
    assert!(intersect(&ray(0, 0, 100000, 102), &seg(1000, 1, 1000, -999)).is_none());
}

#[test]
fn zero_length_obstacle_changes_nothing_for_the_same_rays() {
    let obstacles = scene();
    let source = pt(-250, 30);
    let mut cast = CastRays { rays: vec![] };
    cast.update_rays(source, &obstacles);
    let mut with_point = obstacles.clone();
    with_point.insert(5, seg(-250, 200, -250, 200));
    assert_eq!(
        cast.light_triangles(source, &with_point),
        cast.light_triangles(source, &obstacles)
    );
    assert_eq!(
        collect_hits(source, &cast.rays, &with_point),
        collect_hits(source, &cast.rays, &obstacles)
    );
}
