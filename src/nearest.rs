//! Choosing, for one ray, the nearest obstacle it crosses.
use vstd::prelude::*;

use crate::geometry::{
    hits, intersect, is_crossing, lemma_mul_bound, ray_ok, segment_ok, t_den, t_num, Collision, Ray, Segment,
};

verus! {

/// `r` meets `a` strictly before `b`: `t(a) < t(b)`, both denominators positive.
pub open spec fn before(r: Ray, a: Segment, b: Segment) -> bool {
    t_num(r, a) * t_den(r, b) < t_num(r, b) * t_den(r, a)
}

/// Index of the nearest crossed obstacle among the first `n`: the smallest `t`,
/// and of equal ones the first.
pub open spec fn nearest_among(r: Ray, obs: Seq<Segment>, n: nat) -> Option<int>
    decreases n,
{
    if n == 0 {
        None
    } else {
        let prev = nearest_among(r, obs, (n - 1) as nat);
        let k = n - 1;
        if hits(r, obs[k]) && (prev is None || before(r, obs[k], obs[prev->0])) {
            Some(k)
        } else {
            prev
        }
    }
}

/// Index of the nearest obstacle that `r` crosses, if any.
pub open spec fn nearest(r: Ray, obs: Seq<Segment>) -> Option<int> {
    nearest_among(r, obs, obs.len())
}

pub open spec fn obstacles_ok(obs: Seq<Segment>) -> bool {
    forall|i: int| 0 <= i < obs.len() ==> segment_ok(#[trigger] obs[i])
}

/// The nearest crossing of `ray` over all `obstacles`, or `None` when it
/// crosses none of them. Of crossings at equal `t`, the first obstacle wins.
pub fn resolve(ray: &Ray, obstacles: &Vec<Segment>) -> (res: Option<Collision>)
    requires
        ray_ok(*ray),
        obstacles_ok(obstacles@),
    ensures
        res is Some <==> nearest(*ray, obstacles@) is Some,
        res matches Some(c) ==> is_crossing(c, *ray, obstacles@[nearest(*ray, obstacles@)->0]),
{
    let mut best: Option<Collision> = None;
    let ghost mut best_idx: Option<int> = None;
    let mut i: usize = 0;
    while i < obstacles.len()
        invariant
            i <= obstacles.len(),
            ray_ok(*ray),
            obstacles_ok(obstacles@),
            best_idx == nearest_among(*ray, obstacles@, i as nat),
            best is Some <==> best_idx is Some,
            best_idx matches Some(k) ==> 0 <= k < i,
            best matches Some(c) ==> is_crossing(c, *ray, obstacles@[best_idx->0]),
            best matches Some(c) ==> 0 < c.t_num <= 0x8_0000_0000 && 0 < c.t_den
                <= 0x800_0000_0000,
        decreases obstacles.len() - i,
    {
        let seg = &obstacles[i];
        let found = intersect(ray, seg);
        match found {
            Some(c) => {
                let closer = match best {
                    None => true,
                    Some(b) => {
                        proof {
                            lemma_mul_bound(c.t_num as int, b.t_den as int, 0x8_0000_0000, 0x800_0000_0000);
                            lemma_mul_bound(b.t_num as int, c.t_den as int, 0x8_0000_0000, 0x800_0000_0000);
                        }
                        c.t_num * b.t_den < b.t_num * c.t_den
                    },
                };
                if closer {
                    best = Some(c);
                    proof {
                        best_idx = Some(i as int);
                    }
                }
            },
            None => {},
        }
        i = i + 1;
    }
    best
}

/// The resolved obstacle is crossed, no crossed obstacle lies strictly nearer,
/// and every crossed obstacle before it in the list lies strictly farther.
pub proof fn lemma_nearest_is_first_minimum(r: Ray, obs: Seq<Segment>, n: nat)
    requires
        n <= obs.len(),
    ensures
        nearest_among(r, obs, n) is None ==> forall|j: int| 0 <= j < n ==> !hits(r, obs[j]),
        nearest_among(r, obs, n) matches Some(k) ==> {
            &&& 0 <= k < n
            &&& hits(r, obs[k])
            &&& forall|j: int| 0 <= j < n && hits(r, obs[j]) ==> !before(r, obs[j], obs[k])
            &&& forall|j: int| 0 <= j < k && hits(r, obs[j]) ==> before(r, obs[k], obs[j])
        },
    decreases n,
{
    if n > 0 {
        lemma_nearest_is_first_minimum(r, obs, (n - 1) as nat);
        let prev = nearest_among(r, obs, (n - 1) as nat);
        let k = n - 1;
        if hits(r, obs[k]) && (prev is None || before(r, obs[k], obs[prev->0])) {
            if prev is Some {
                let p = prev->0;
                assert forall|j: int| 0 <= j < n && hits(r, obs[j]) implies !before(r, obs[j], obs[k]) by {
                    if j != k && before(r, obs[j], obs[k]) {
                        lemma_before_trans(r, obs[j], obs[k], obs[p]);
                    }
                }
                assert forall|j: int| 0 <= j < k && hits(r, obs[j]) implies before(r, obs[k], obs[j]) by {
                    lemma_before_not_trans(r, obs[k], obs[p], obs[j]);
                }
            }
        } else if prev is Some {
            let p = prev->0;
            if hits(r, obs[k]) {
                assert(!before(r, obs[k], obs[p]));
            }
        }
    }
}

/// With positive denominators, `a < b` and `b <= c` give `a < c`.
proof fn lemma_before_not_trans(r: Ray, a: Segment, b: Segment, c: Segment)
    requires
        hits(r, a),
        hits(r, b),
        hits(r, c),
        before(r, a, b),
        !before(r, c, b),
    ensures
        before(r, a, c),
{
    let (na, da) = (t_num(r, a), t_den(r, a));
    let (nb, db) = (t_num(r, b), t_den(r, b));
    let (nc, dc) = (t_num(r, c), t_den(r, c));
    assert(na * dc < nc * da) by (nonlinear_arith)
        requires
            da > 0,
            db > 0,
            dc > 0,
            na * db < nb * da,
            nb * dc <= nc * db,
    ;
}

/// With positive denominators, `a < b` and `b < c` give `a < c`.
proof fn lemma_before_trans(r: Ray, a: Segment, b: Segment, c: Segment)
    requires
        hits(r, a),
        hits(r, b),
        hits(r, c),
        before(r, a, b),
        before(r, b, c),
    ensures
        before(r, a, c),
{
    let (na, da) = (t_num(r, a), t_den(r, a));
    let (nb, db) = (t_num(r, b), t_den(r, b));
    let (nc, dc) = (t_num(r, c), t_den(r, c));
    assert(na * dc < nc * da) by (nonlinear_arith)
        requires
            da > 0,
            db > 0,
            dc > 0,
            na * db < nb * da,
            nb * dc < nc * db,
    ;
}

/// Where an index of `obs` lands once an obstacle is inserted at `k`.
pub open spec fn shifted(o: Option<int>, k: int) -> Option<int> {
    match o {
        None => None,
        Some(i) => Some(if i < k { i } else { i + 1 }),
    }
}

/// Inserting a zero-length obstacle at `k` changes no choice of nearest
/// obstacle: the same obstacle wins, at its shifted index.
pub proof fn lemma_nearest_skips_degenerate(r: Ray, obs: Seq<Segment>, k: int, z: Segment, n: nat)
    requires
        z.start == z.end,
        0 <= k <= obs.len(),
        n <= obs.len() + 1,
    ensures
        n <= k ==> nearest_among(r, obs.insert(k, z), n) == nearest_among(r, obs, n),
        n > k ==> nearest_among(r, obs.insert(k, z), n) == shifted(
            nearest_among(r, obs, (n - 1) as nat),
            k,
        ),
    decreases n,
{
    let obs2 = obs.insert(k, z);
    if n > 0 {
        lemma_nearest_skips_degenerate(r, obs, k, z, (n - 1) as nat);
        let m = n - 1;
        if n <= k {
            lemma_nearest_is_first_minimum(r, obs, m as nat);
            assert(obs2[m] == obs[m]);
            if let Some(p) = nearest_among(r, obs, m as nat) {
                assert(obs2[p] == obs[p]);
            }
        } else if m == k {
            crate::geometry::lemma_degenerate_never_hit(r, z);
            assert(obs2[m] == z);
            lemma_nearest_is_first_minimum(r, obs, m as nat);
        } else {
            lemma_nearest_is_first_minimum(r, obs, (m - 1) as nat);
            assert(obs2[m] == obs[m - 1]);
            if let Some(p) = nearest_among(r, obs, (m - 1) as nat) {
                assert(obs2[shifted(Some(p), k)->0] == obs[p]);
            }
        }
    }
}

} // verus!
