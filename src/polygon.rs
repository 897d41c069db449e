//! Sorting hit points by angle around the source and closing them into a
//! fan of triangles.
use vstd::prelude::*;

use crate::geometry::{abs, lemma_mul_bound, point_ok, Point, RatPoint};

verus! {

/// A triangle of the fan: two consecutive hit points and the source.
#[derive(Clone, Copy, Debug, PartialEq, Eq, Structural)]
pub struct Triangle {
    pub a: RatPoint,
    pub b: RatPoint,
    pub c: RatPoint,
}

impl Triangle {
    pub open spec fn view(&self) -> ((int, int, int), (int, int, int), (int, int, int)) {
        (self.a@, self.b@, self.c@)
    }
}

pub open spec fn views(s: Seq<RatPoint>) -> Seq<(int, int, int)> {
    s.map_values(|p: RatPoint| p@)
}

pub open spec fn tri_views(s: Seq<Triangle>) -> Seq<((int, int, int), (int, int, int), (int, int, int))> {
    s.map_values(|t: Triangle| t@)
}

/// The source as a rational point.
pub open spec fn source_view(src: Point) -> (int, int, int) {
    (src.x as int, src.y as int, 1)
}

/// A rational key that grows strictly with `atan2(vy, vx)` over `(-pi, pi]`
/// (the "diamond angle"): with `s = |vx| + |vy|`, the key `num / s` runs over
/// `(-2, 2]`, one unit per quadrant. The zero vector gets `0 / 1`, as `atan2(0, 0)`
/// is `0`.
pub open spec fn angle_key(vx: int, vy: int) -> (int, int) {
    let s = abs(vx) + abs(vy);
    if s == 0 {
        (0, 1)
    } else if vy >= 0 && vx >= 0 {
        (vy, s)
    } else if vy >= 0 {
        (s - vx, s)
    } else if vx < 0 {
        (-2 * s - vy, s)
    } else {
        (vx - s, s)
    }
}

/// The offset from the source to a hit point, scaled by the point's
/// denominator (a positive factor, so its angle is the angle of the hit).
pub open spec fn offset_of(src: Point, p: (int, int, int)) -> (int, int) {
    (p.0 - src.x * p.2, p.1 - src.y * p.2)
}

/// The angle of `p` around `src` is at most that of `q`.
pub open spec fn angle_le(src: Point, p: (int, int, int), q: (int, int, int)) -> bool {
    let kp = angle_key(offset_of(src, p).0, offset_of(src, p).1);
    let kq = angle_key(offset_of(src, q).0, offset_of(src, q).1);
    kp.0 * kq.1 <= kq.0 * kp.1
}

/// Inserts `a` into `s` after every element whose angle is at most its own.
pub open spec fn insert_sorted(src: Point, s: Seq<(int, int, int)>, a: (int, int, int)) -> Seq<(int, int, int)>
    decreases s.len(),
{
    if s.len() == 0 {
        seq![a]
    } else if angle_le(src, s.last(), a) {
        s.push(a)
    } else {
        insert_sorted(src, s.drop_last(), a).push(s.last())
    }
}

/// The points sorted by angle around `src`, ascending; points of equal angle
/// keep their order.
pub open spec fn angular_sort(src: Point, s: Seq<(int, int, int)>) -> Seq<(int, int, int)>
    decreases s.len(),
{
    if s.len() == 0 {
        seq![]
    } else {
        insert_sorted(src, angular_sort(src, s.drop_last()), s.last())
    }
}

/// The closed fan over `s`: triangle `i` joins `s[i]`, `s[i + 1]` (the first
/// point again after the last) and the source.
pub open spec fn fan(src: Point, s: Seq<(int, int, int)>) -> Seq<((int, int, int), (int, int, int), (int, int, int))> {
    Seq::new(s.len(), |i: int| (s[i], s[(i + 1) % (s.len() as int)], source_view(src)))
}

/// A hit point small enough for the angle comparison.
pub open spec fn hit_ok(src: Point, p: RatPoint) -> bool {
    &&& 0 < p.den <= 0x1000_0000_0000
    &&& -0x2000_0000_0000_0000 <= p.x <= 0x2000_0000_0000_0000
    &&& -0x2000_0000_0000_0000 <= p.y <= 0x2000_0000_0000_0000
    &&& -0x1000_0000_0000_0000 <= offset_of(src, p@).0 <= 0x1000_0000_0000_0000
    &&& -0x1000_0000_0000_0000 <= offset_of(src, p@).1 <= 0x1000_0000_0000_0000
}

pub open spec fn hits_ok(src: Point, s: Seq<RatPoint>) -> bool {
    forall|i: int| 0 <= i < s.len() ==> hit_ok(src, #[trigger] s[i])
}

/// The angle key of `p` around `source`.
fn key_of(source: Point, p: &RatPoint) -> (k: (i128, i128))
    requires
        point_ok(source),
        hit_ok(source, *p),
    ensures
        k.0 as int == angle_key(offset_of(source, p@).0, offset_of(source, p@).1).0,
        k.1 as int == angle_key(offset_of(source, p@).0, offset_of(source, p@).1).1,
        -0x6000_0000_0000_0000 <= k.0 <= 0x6000_0000_0000_0000,
        0 < k.1 <= 0x2000_0000_0000_0000,
{
    proof {
        lemma_mul_bound(source.x as int, p.den as int, 0x1_0000, 0x1000_0000_0000);
        lemma_mul_bound(source.y as int, p.den as int, 0x1_0000, 0x1000_0000_0000);
    }
    let vx = p.x - (source.x as i128) * p.den;
    let vy = p.y - (source.y as i128) * p.den;
    let ax = if vx >= 0 { vx } else { -vx };
    let ay = if vy >= 0 { vy } else { -vy };
    let s = ax + ay;
    if s == 0 {
        (0, 1)
    } else if vy >= 0 && vx >= 0 {
        (vy, s)
    } else if vy >= 0 {
        (s - vx, s)
    } else if vx < 0 {
        (-2 * s - vy, s)
    } else {
        (vx - s, s)
    }
}

/// Whether the angle of `p` around `source` is at most that of `q`.
fn angle_at_most(source: Point, p: &RatPoint, q: &RatPoint) -> (r: bool)
    requires
        point_ok(source),
        hit_ok(source, *p),
        hit_ok(source, *q),
    ensures
        r == angle_le(source, p@, q@),
{
    let kp = key_of(source, p);
    let kq = key_of(source, q);
    proof {
        lemma_mul_bound(kp.0 as int, kq.1 as int, 0x6000_0000_0000_0000, 0x2000_0000_0000_0000);
        lemma_mul_bound(kq.0 as int, kp.1 as int, 0x6000_0000_0000_0000, 0x2000_0000_0000_0000);
    }
    kp.0 * kq.1 <= kq.0 * kp.1
}

/// The hit points sorted by ascending angle around `source` (the order of
/// `atan2(y - source.y, x - source.x)`), points of equal angle in their given
/// order.
pub fn sort_by_angle(source: Point, hits: &Vec<RatPoint>) -> (sorted: Vec<RatPoint>)
    requires
        point_ok(source),
        hits_ok(source, hits@),
    ensures
        views(sorted@) == angular_sort(source, views(hits@)),
{
    let mut out: Vec<RatPoint> = Vec::new();
    let mut i: usize = 0;
    while i < hits.len()
        invariant
            i <= hits.len(),
            point_ok(source),
            hits_ok(source, hits@),
            hits_ok(source, out@),
            views(out@) == angular_sort(source, views(hits@.subrange(0, i as int))),
        decreases hits.len() - i,
    {
        let a = hits[i];
        assert(hit_ok(source, hits@[i as int]));
        let ghost before = views(out@);
        let ghost before_vec = out@;
        let mut j: usize = out.len();
        proof {
            assert(before.subrange(0, j as int) =~= before);
            assert(insert_sorted(source, before, a@) =~= insert_sorted(source, before, a@) + before.subrange(
                j as int,
                before.len() as int,
            ));
        }
        while j > 0 && !angle_at_most(source, &out[j - 1], &a)
            invariant
                j <= out.len(),
                out@ == before_vec,
                point_ok(source),
                hit_ok(source, a),
                hits_ok(source, out@),
                before == views(out@),
                insert_sorted(source, before, a@) == insert_sorted(
                    source,
                    before.subrange(0, j as int),
                    a@,
                ) + before.subrange(j as int, before.len() as int),
            decreases j,
        {
            proof {
                let pre = before.subrange(0, j as int);
                assert(pre.drop_last() =~= before.subrange(0, j - 1));
                assert(pre.last() == before[j - 1]);
                assert(before.subrange(j - 1, before.len() as int) =~= seq![before[j - 1]]
                    + before.subrange(j as int, before.len() as int));
                assert(insert_sorted(source, pre, a@) == insert_sorted(source, pre.drop_last(), a@).push(
                    pre.last(),
                ));
                assert(insert_sorted(source, pre.drop_last(), a@).push(pre.last())
                    + before.subrange(j as int, before.len() as int) =~= insert_sorted(
                    source,
                    before.subrange(0, j - 1),
                    a@,
                ) + before.subrange(j - 1, before.len() as int));
            }
            j = j - 1;
        }
        proof {
            let pre = before.subrange(0, j as int);
            if j == 0 {
                assert(insert_sorted(source, pre, a@) == seq![a@]);
            } else {
                assert(pre.last() == before[j - 1]);
                assert(insert_sorted(source, pre, a@) == pre.push(a@));
            }
        }
        out.insert(j, a);
        proof {
            let pre = before.subrange(0, j as int);
            assert(views(out@) =~= insert_sorted(source, pre, a@) + before.subrange(
                j as int,
                before.len() as int,
            ));
            let next = hits@.subrange(0, i + 1);
            assert(views(next).drop_last() =~= views(hits@.subrange(0, i as int)));
            assert(views(next).last() == a@);
            assert(hits_ok(source, out@)) by {
                assert forall|k: int| 0 <= k < out@.len() implies hit_ok(source, #[trigger] out@[k]) by {
                    if k > j {
                        assert(out@[k] == before_vec[k - 1]);
                    } else if k < j {
                        assert(out@[k] == before_vec[k]);
                    }
                }
            }
        }
        i = i + 1;
    }
    proof {
        assert(hits@.subrange(0, i as int) =~= hits@);
    }
    out
}

/// The closed fan over `sorted`: one triangle `(sorted[i], sorted[i + 1], source)`
/// per point, the last joining back to the first; none when `sorted` is empty.
pub fn fan_triangles(source: Point, sorted: &Vec<RatPoint>) -> (tris: Vec<Triangle>)
    ensures
        tri_views(tris@) == fan(source, views(sorted@)),
{
    let n = sorted.len();
    let src = RatPoint { x: source.x as i128, y: source.y as i128, den: 1 };
    let mut tris: Vec<Triangle> = Vec::new();
    let mut i: usize = 0;
    while i < n
        invariant
            i <= n,
            n == sorted@.len(),
            src@ == source_view(source),
            tri_views(tris@) =~= fan(source, views(sorted@)).subrange(0, i as int),
        decreases n - i,
    {
        let next = if i + 1 == n { 0 } else { i + 1 };
        proof {
            if i + 1 == n {
                vstd::arithmetic::div_mod::lemma_mod_self_0(n as int);
            } else {
                vstd::arithmetic::div_mod::lemma_small_mod((i + 1) as nat, n as nat);
            }
            assert(next as int == (i + 1) % (n as int));
        }
        let ghost prev = tris@;
        tris.push(Triangle { a: sorted[i], b: sorted[next], c: src });
        proof {
            assert(tri_views(tris@) =~= tri_views(prev).push(tris@[i as int]@));
            assert(tri_views(tris@) =~= fan(source, views(sorted@)).subrange(0, i + 1));
        }
        i = i + 1;
    }
    tris
}

/// The points are in ascending order of angle around `src`.
pub open spec fn angle_sorted(src: Point, s: Seq<(int, int, int)>) -> bool {
    forall|i: int, j: int| 0 <= i < j < s.len() ==> angle_le(src, #[trigger] s[i], #[trigger] s[j])
}

proof fn lemma_key_den_positive(vx: int, vy: int)
    ensures
        angle_key(vx, vy).1 > 0,
{
}

/// Any two points compare one way or the other.
proof fn lemma_angle_total(src: Point, p: (int, int, int), q: (int, int, int))
    ensures
        angle_le(src, p, q) || angle_le(src, q, p),
{
}

proof fn lemma_angle_trans(src: Point, p: (int, int, int), q: (int, int, int), r: (int, int, int))
    requires
        angle_le(src, p, q),
        angle_le(src, q, r),
    ensures
        angle_le(src, p, r),
{
    let kp = angle_key(offset_of(src, p).0, offset_of(src, p).1);
    let kq = angle_key(offset_of(src, q).0, offset_of(src, q).1);
    let kr = angle_key(offset_of(src, r).0, offset_of(src, r).1);
    lemma_key_den_positive(offset_of(src, p).0, offset_of(src, p).1);
    lemma_key_den_positive(offset_of(src, q).0, offset_of(src, q).1);
    lemma_key_den_positive(offset_of(src, r).0, offset_of(src, r).1);
    let (n1, d1, n2, d2, n3, d3) = (kp.0, kp.1, kq.0, kq.1, kr.0, kr.1);
    assert(n1 * d3 <= n3 * d1) by (nonlinear_arith)
        requires
            d1 > 0,
            d2 > 0,
            d3 > 0,
            n1 * d2 <= n2 * d1,
            n2 * d3 <= n3 * d2,
    ;
}

proof fn lemma_insert_sorted(src: Point, s: Seq<(int, int, int)>, a: (int, int, int))
    requires
        angle_sorted(src, s),
    ensures
        angle_sorted(src, insert_sorted(src, s, a)),
        insert_sorted(src, s, a).to_multiset() == s.to_multiset().insert(a),
    decreases s.len(),
{
    broadcast use vstd::seq_lib::group_to_multiset_ensures, vstd::multiset::group_multiset_axioms;

    if s.len() == 0 {
        assert(seq![a] =~= s.push(a));
    } else {
        let last = s.last();
        if angle_le(src, last, a) {
            let r = s.push(a);
            assert forall|i: int, j: int| 0 <= i < j < r.len() implies angle_le(src, #[trigger] r[i], #[trigger] r[j]) by {
                if j == s.len() {
                    if i < s.len() - 1 {
                        lemma_angle_trans(src, s[i], last, a);
                    }
                } else {
                    assert(r[i] == s[i] && r[j] == s[j]);
                }
            }
        } else {
            let rest = s.drop_last();
            assert(angle_sorted(src, rest)) by {
                assert forall|i: int, j: int| 0 <= i < j < rest.len() implies angle_le(src, #[trigger] rest[i], #[trigger] rest[j]) by {
                    assert(rest[i] == s[i] && rest[j] == s[j]);
                }
            }
            lemma_insert_sorted(src, rest, a);
            let inner = insert_sorted(src, rest, a);
            lemma_angle_total(src, last, a);
            assert forall|i: int| 0 <= i < inner.len() implies angle_le(src, #[trigger] inner[i], last) by {
                let x = inner[i];
                assert(inner.contains(x));
                assert(inner.to_multiset().count(x) > 0);
                if x != a {
                    assert(rest.to_multiset().count(x) > 0);
                    assert(rest.contains(x));
                    let k = choose|k: int| 0 <= k < rest.len() && rest[k] == x;
                    assert(s[k] == x);
                    assert(angle_le(src, s[k], s[s.len() - 1]));
                }
            }
            let r = inner.push(last);
            assert forall|i: int, j: int| 0 <= i < j < r.len() implies angle_le(src, #[trigger] r[i], #[trigger] r[j]) by {
                if j == inner.len() {
                    assert(r[i] == inner[i]);
                } else {
                    assert(r[i] == inner[i] && r[j] == inner[j]);
                }
            }
            assert(rest.push(last) =~= s);
            assert(r.to_multiset() =~= s.to_multiset().insert(a));
        }
    }
}

/// The angular sort puts the points in ascending order of angle around the
/// source and keeps each of them, as many times as it was given.
pub proof fn lemma_angular_sort_is_sorted_permutation(src: Point, s: Seq<(int, int, int)>)
    ensures
        angle_sorted(src, angular_sort(src, s)),
        angular_sort(src, s).to_multiset() == s.to_multiset(),
    decreases s.len(),
{
    broadcast use vstd::seq_lib::group_to_multiset_ensures;

    if s.len() > 0 {
        lemma_angular_sort_is_sorted_permutation(src, s.drop_last());
        lemma_insert_sorted(src, angular_sort(src, s.drop_last()), s.last());
        assert(s.drop_last().push(s.last()) =~= s);
    } else {
        assert(angular_sort(src, s) =~= s);
    }
}

/// `p` and `q` lie at the same angle around `src`.
pub open spec fn same_angle(src: Point, p: (int, int, int), q: (int, int, int)) -> bool {
    angle_le(src, p, q) && angle_le(src, q, p)
}

/// The points at the same angle around `src` as `p`.
pub open spec fn angle_class(src: Point, p: (int, int, int)) -> spec_fn((int, int, int)) -> bool {
    |x: (int, int, int)| same_angle(src, x, p)
}

proof fn lemma_filter_push(t: Seq<(int, int, int)>, x: (int, int, int), f: spec_fn((int, int, int)) -> bool)
    ensures
        t.push(x).filter(f) == (if f(x) { t.filter(f).push(x) } else { t.filter(f) }),
{
    reveal(Seq::filter);
    assert(t.push(x).drop_last() =~= t);
}

proof fn lemma_insert_sorted_filter(src: Point, t: Seq<(int, int, int)>, a: (int, int, int), p: (int, int, int))
    ensures
        insert_sorted(src, t, a).filter(angle_class(src, p)) == (if angle_class(src, p)(a) {
            t.filter(angle_class(src, p)).push(a)
        } else {
            t.filter(angle_class(src, p))
        }),
    decreases t.len(),
{
    let f = angle_class(src, p);
    if t.len() == 0 {
        lemma_filter_push(t, a, f);
        assert(seq![a] =~= t.push(a));
    } else {
        let last = t.last();
        let rest = t.drop_last();
        assert(rest.push(last) =~= t);
        lemma_filter_push(rest, last, f);
        if angle_le(src, last, a) {
            lemma_filter_push(t, a, f);
        } else {
            lemma_insert_sorted_filter(src, rest, a, p);
            let inner = insert_sorted(src, rest, a);
            lemma_filter_push(inner, last, f);
            if f(a) && f(last) {
                lemma_angle_trans(src, last, p, a);
            }
        }
    }
}

/// The angular sort is stable: the points at any one angle come out in the
/// order in which they were given.
pub proof fn lemma_angular_sort_is_stable(src: Point, s: Seq<(int, int, int)>, p: (int, int, int))
    ensures
        angular_sort(src, s).filter(angle_class(src, p)) == s.filter(angle_class(src, p)),
    decreases s.len(),
{
    if s.len() == 0 {
        assert(angular_sort(src, s) =~= s);
    } else {
        let rest = s.drop_last();
        lemma_angular_sort_is_stable(src, rest, p);
        lemma_insert_sorted_filter(src, angular_sort(src, rest), s.last(), p);
        assert(rest.push(s.last()) =~= s);
        lemma_filter_push(rest, s.last(), angle_class(src, p));
    }
}

} // verus!
