use vstd::prelude::*;

use crate::geometry::dist_sq;
use crate::geometry::Rect;

verus! {

/// Number of rays the visibility sampler casts by default, evenly spaced
/// over the full circle.
pub const NUM_RAYS: usize = 90;

/// Fixed-point scale of ray direction vectors: a direction is a unit
/// vector whose components are multiplied by this scale and truncated
/// toward zero.
pub const DIR_SCALE: i64 = 1_000_000;

/// Whether `(dx, dy)` is a direction vector at the fixed-point scale: no
/// longer than one scaled unit.
pub open spec fn dir_in_scale(dx: int, dy: int) -> bool {
    &&& -1_000_000 <= dx <= 1_000_000
    &&& -1_000_000 <= dy <= 1_000_000
    &&& dx * dx + dy * dy <= 1_000_000_000_000
}

/// Whether a ray origin is small enough for the cast arithmetic.
pub open spec fn origin_in_range(ox: int, oy: int) -> bool {
    &&& -0x100_0000_0000 <= ox <= 0x100_0000_0000
    &&& -0x100_0000_0000 <= oy <= 0x100_0000_0000
}

/// Whether a collider rectangle is small enough for the cast arithmetic.
pub open spec fn rect_in_range(r: Rect) -> bool {
    &&& -0x4000_0000 <= r.cx2 <= 0x4000_0000
    &&& -0x4000_0000 <= r.cy2 <= 0x4000_0000
    &&& 0 <= r.hx2 <= 0x4000_0000
    &&& 0 <= r.hy2 <= 0x4000_0000
}

/// Numerator of the ray parameter at which the moving coordinate
/// `o + d * t / DIR_SCALE` enters the slab `[lo, hi]`; the denominator is
/// `slab_den(d)`, which is positive, so fractions compare by
/// cross-multiplication.
pub open spec fn slab_lo_num(o: int, d: int, lo: int, hi: int) -> int {
    if d > 0 {
        1_000_000 * (lo - o)
    } else {
        1_000_000 * (o - hi)
    }
}

/// Numerator of the ray parameter at which the moving coordinate leaves
/// the slab `[lo, hi]`.
pub open spec fn slab_hi_num(o: int, d: int, lo: int, hi: int) -> int {
    if d > 0 {
        1_000_000 * (hi - o)
    } else {
        1_000_000 * (o - lo)
    }
}

/// Positive denominator of the slab crossing parameters.
pub open spec fn slab_den(d: int) -> int {
    if d > 0 {
        d
    } else {
        -d
    }
}

/// Whether the ray from `(ox, oy)` along `(dx, dy)` first meets rectangle
/// `r` at a parameter in `(0, tmax]`.  A ray that starts inside or on the
/// rectangle passes through it (its entry parameter is not positive), and
/// a ray with a zero direction hits nothing; both fall back to the
/// maximum distance, never an error.
pub open spec fn ray_hits_rect(ox: int, oy: int, dx: int, dy: int, r: Rect, tmax: int) -> bool {
    let xlo = r.cx2 - r.hx2;
    let xhi = r.cx2 + r.hx2;
    let ylo = r.cy2 - r.hy2;
    let yhi = r.cy2 + r.hy2;
    if dx == 0 && dy == 0 {
        false
    } else if dy == 0 {
        let ln = slab_lo_num(ox, dx, xlo, xhi);
        let hn = slab_hi_num(ox, dx, xlo, xhi);
        let dn = slab_den(dx);
        &&& ylo <= oy <= yhi
        &&& ln > 0
        &&& ln <= hn
        &&& ln <= tmax * dn
    } else if dx == 0 {
        let ln = slab_lo_num(oy, dy, ylo, yhi);
        let hn = slab_hi_num(oy, dy, ylo, yhi);
        let dn = slab_den(dy);
        &&& xlo <= ox <= xhi
        &&& ln > 0
        &&& ln <= hn
        &&& ln <= tmax * dn
    } else {
        let lnx = slab_lo_num(ox, dx, xlo, xhi);
        let hnx = slab_hi_num(ox, dx, xlo, xhi);
        let dnx = slab_den(dx);
        let lny = slab_lo_num(oy, dy, ylo, yhi);
        let hny = slab_hi_num(oy, dy, ylo, yhi);
        let dny = slab_den(dy);
        &&& (lnx > 0 || lny > 0)
        &&& lnx <= hnx
        &&& lny <= hny
        &&& lnx * dny <= hny * dnx
        &&& lny * dnx <= hnx * dny
        &&& lnx <= tmax * dnx
        &&& lny <= tmax * dny
    }
}

/// The entry parameter of a hitting ray, rounded down to a whole doubled
/// world unit: the larger of the two slab entry fractions.
pub open spec fn rect_enter_floor(ox: int, oy: int, dx: int, dy: int, r: Rect) -> int {
    let xlo = r.cx2 - r.hx2;
    let xhi = r.cx2 + r.hx2;
    let ylo = r.cy2 - r.hy2;
    let yhi = r.cy2 + r.hy2;
    let lnx = slab_lo_num(ox, dx, xlo, xhi);
    let dnx = slab_den(dx);
    let lny = slab_lo_num(oy, dy, ylo, yhi);
    let dny = slab_den(dy);
    if dx != 0 && dy != 0 {
        if lnx * dny >= lny * dnx {
            lnx / dnx
        } else {
            lny / dny
        }
    } else if dx != 0 {
        lnx / dnx
    } else if dy != 0 {
        lny / dny
    } else {
        0
    }
}

/// The distance (in doubled world units, along the ray) at which the ray
/// stops: the nearest rectangle entry within `tmax`, or `tmax` itself
/// when nothing is hit.
pub open spec fn cast_result(ox: int, oy: int, dx: int, dy: int, rects: Seq<Rect>, tmax: int) -> int
    decreases rects.len(),
{
    if rects.len() == 0 {
        tmax
    } else {
        let rest = cast_result(ox, oy, dx, dy, rects.drop_last(), tmax);
        if ray_hits_rect(ox, oy, dx, dy, rects.last(), tmax) {
            let t = rect_enter_floor(ox, oy, dx, dy, rects.last());
            if t < rest {
                t
            } else {
                rest
            }
        } else {
            rest
        }
    }
}

/// Whether any rectangle stops the ray within `tmax`.
pub open spec fn cast_hits(ox: int, oy: int, dx: int, dy: int, rects: Seq<Rect>, tmax: int) -> bool
    decreases rects.len(),
{
    if rects.len() == 0 {
        false
    } else {
        cast_hits(ox, oy, dx, dy, rects.drop_last(), tmax) || ray_hits_rect(
            ox,
            oy,
            dx,
            dy,
            rects.last(),
            tmax,
        )
    }
}

/// Decide whether one rectangle stops the ray, and at which floored
/// parameter.
fn rect_hit(ox: i64, oy: i64, dx: i64, dy: i64, r: Rect, tmax: i64) -> (res: (bool, i64))
    requires
        origin_in_range(ox as int, oy as int),
        dir_in_scale(dx as int, dy as int),
        rect_in_range(r),
        0 <= tmax <= 0x8000_0000,
    ensures
        res.0 == ray_hits_rect(ox as int, oy as int, dx as int, dy as int, r, tmax as int),
        res.0 ==> res.1 == rect_enter_floor(ox as int, oy as int, dx as int, dy as int, r) && 0
            <= res.1 <= tmax,
{
    let s: i128 = 1_000_000;
    let oxw: i128 = ox as i128;
    let oyw: i128 = oy as i128;
    let tmw: i128 = tmax as i128;
    let xlo: i128 = (r.cx2 as i128) - (r.hx2 as i128);
    let xhi: i128 = (r.cx2 as i128) + (r.hx2 as i128);
    let ylo: i128 = (r.cy2 as i128) - (r.hy2 as i128);
    let yhi: i128 = (r.cy2 as i128) + (r.hy2 as i128);
    if dx == 0 && dy == 0 {
        return (false, 0);
    }
    if dy == 0 {
        if !(ylo <= oyw && oyw <= yhi) {
            return (false, 0);
        }
        let (ln, hn, dn): (i128, i128, i128) = if dx > 0 {
            (s * (xlo - oxw), s * (xhi - oxw), dx as i128)
        } else {
            (s * (oxw - xhi), s * (oxw - xlo), (-dx) as i128)
        };
        proof {
            lemma_mul_bounds(tmw as int, dn as int, 0x8000_0000, 1_000_000);
        }
        if ln > 0 && ln <= hn && ln <= tmw * dn {
            let q: i128 = ((ln as u128) / (dn as u128)) as i128;
            proof {
                lemma_floor_le(ln as int, dn as int, tmax as int);
            }
            return (true, q as i64);
        }
        return (false, 0);
    }
    if dx == 0 {
        if !(xlo <= oxw && oxw <= xhi) {
            return (false, 0);
        }
        let (ln, hn, dn): (i128, i128, i128) = if dy > 0 {
            (s * (ylo - oyw), s * (yhi - oyw), dy as i128)
        } else {
            (s * (oyw - yhi), s * (oyw - ylo), (-dy) as i128)
        };
        proof {
            lemma_mul_bounds(tmw as int, dn as int, 0x8000_0000, 1_000_000);
        }
        if ln > 0 && ln <= hn && ln <= tmw * dn {
            let q: i128 = ((ln as u128) / (dn as u128)) as i128;
            proof {
                lemma_floor_le(ln as int, dn as int, tmax as int);
            }
            return (true, q as i64);
        }
        return (false, 0);
    }
    let (lnx, hnx, dnx): (i128, i128, i128) = if dx > 0 {
        (s * (xlo - oxw), s * (xhi - oxw), dx as i128)
    } else {
        (s * (oxw - xhi), s * (oxw - xlo), (-dx) as i128)
    };
    let (lny, hny, dny): (i128, i128, i128) = if dy > 0 {
        (s * (ylo - oyw), s * (yhi - oyw), dy as i128)
    } else {
        (s * (oyw - yhi), s * (oyw - ylo), (-dy) as i128)
    };
    proof {
        let bn: int = 0x2000_0000_0000_0000;
        lemma_mul_bounds(lnx as int, dny as int, bn, 1_000_000);
        lemma_mul_bounds(hnx as int, dny as int, bn, 1_000_000);
        lemma_mul_bounds(lny as int, dnx as int, bn, 1_000_000);
        lemma_mul_bounds(hny as int, dnx as int, bn, 1_000_000);
        lemma_mul_bounds(tmw as int, dnx as int, 0x8000_0000, 1_000_000);
        lemma_mul_bounds(tmw as int, dny as int, 0x8000_0000, 1_000_000);
    }
    let hit = (lnx > 0 || lny > 0) && lnx <= hnx && lny <= hny && lnx * dny <= hny * dnx && lny
        * dnx <= hnx * dny && lnx <= tmw * dnx && lny <= tmw * dny;
    if !hit {
        return (false, 0);
    }
    if lnx * dny >= lny * dnx {
        proof {
            lemma_max_fraction_pos(lnx as int, dnx as int, lny as int, dny as int);
            lemma_floor_le(lnx as int, dnx as int, tmax as int);
        }
        let q: i128 = ((lnx as u128) / (dnx as u128)) as i128;
        (true, q as i64)
    } else {
        proof {
            lemma_max_fraction_pos(lny as int, dny as int, lnx as int, dnx as int);
            lemma_floor_le(lny as int, dny as int, tmax as int);
        }
        let q: i128 = ((lny as u128) / (dny as u128)) as i128;
        (true, q as i64)
    }
}

/// Bounds on a product follow from bounds on its factors.
proof fn lemma_mul_bounds(a: int, b: int, amax: int, bmax: int)
    requires
        -amax <= a <= amax,
        0 <= b <= bmax,
        0 <= amax,
        0 <= bmax,
    ensures
        -amax * bmax <= a * b <= amax * bmax,
{
    assert(-amax * bmax <= a * b <= amax * bmax) by (nonlinear_arith)
        requires
            -amax <= a <= amax,
            0 <= b <= bmax,
            0 <= amax,
            0 <= bmax,
    ;
}

/// A fraction bounded by a whole number stays bounded after flooring.
proof fn lemma_floor_le(a: int, b: int, c: int)
    requires
        0 < a,
        0 < b,
        a <= c * b,
        0 <= c,
    ensures
        0 <= a / b <= c,
{
    assert(0 <= a / b <= c) by (nonlinear_arith)
        requires
            0 < a,
            0 < b,
            a <= c * b,
            0 <= c,
    ;
}

/// The larger of two positive-denominator fractions is positive when the
/// other one is.
proof fn lemma_max_fraction_pos(a: int, b: int, a2: int, b2: int)
    requires
        0 < b,
        0 < b2,
        a * b2 >= a2 * b,
        a > 0 || a2 > 0,
    ensures
        a > 0,
{
    assert(a > 0) by (nonlinear_arith)
        requires
            0 < b,
            0 < b2,
            a * b2 >= a2 * b,
            a > 0 || a2 > 0,
    ;
}

/// Cast one ray against every collider: the stopping distance in doubled
/// world units and whether anything was hit.
pub fn cast_ray(ox: i64, oy: i64, dx: i64, dy: i64, walls: &Vec<Rect>, tmax: i64) -> (res: (
    bool,
    i64,
))
    requires
        origin_in_range(ox as int, oy as int),
        dir_in_scale(dx as int, dy as int),
        forall|i: int| 0 <= i < walls@.len() ==> rect_in_range(#[trigger] walls@[i]),
        0 <= tmax <= 0x8000_0000,
    ensures
        res.0 == cast_hits(ox as int, oy as int, dx as int, dy as int, walls@, tmax as int),
        res.1 == cast_result(ox as int, oy as int, dx as int, dy as int, walls@, tmax as int),
        0 <= res.1 <= tmax,
{
    let mut best: i64 = tmax;
    let mut hit: bool = false;
    let mut i: usize = 0;
    while i < walls.len()
        invariant
            origin_in_range(ox as int, oy as int),
            dir_in_scale(dx as int, dy as int),
            forall|j: int| 0 <= j < walls@.len() ==> rect_in_range(#[trigger] walls@[j]),
            0 <= tmax <= 0x8000_0000,
            i <= walls@.len(),
            hit == cast_hits(ox as int, oy as int, dx as int, dy as int, walls@.take(i as int), tmax as int),
            best == cast_result(ox as int, oy as int, dx as int, dy as int, walls@.take(i as int), tmax as int),
            0 <= best <= tmax,
        decreases walls@.len() - i,
    {
        let r = walls[i];
        let (h, t) = rect_hit(ox, oy, dx, dy, r, tmax);
        proof {
            assert(walls@.take(i + 1).drop_last() =~= walls@.take(i as int));
            assert(walls@.take(i + 1).last() == walls@[i as int]);
        }
        if h {
            hit = true;
            if t < best {
                best = t;
            }
        }
        i += 1;
    }
    proof {
        assert(walls@.take(walls@.len() as int) =~= walls@);
    }
    (hit, best)
}

/// A hitting ray's floored entry parameter lies within `[0, tmax]`.
proof fn lemma_enter_floor_bounds(ox: int, oy: int, dx: int, dy: int, r: Rect, tmax: int)
    requires
        ray_hits_rect(ox, oy, dx, dy, r, tmax),
        0 <= tmax,
    ensures
        0 <= rect_enter_floor(ox, oy, dx, dy, r) <= tmax,
{
    let xlo = r.cx2 - r.hx2;
    let xhi = r.cx2 + r.hx2;
    let ylo = r.cy2 - r.hy2;
    let yhi = r.cy2 + r.hy2;
    let lnx = slab_lo_num(ox, dx, xlo, xhi);
    let dnx = slab_den(dx);
    let lny = slab_lo_num(oy, dy, ylo, yhi);
    let dny = slab_den(dy);
    if dx != 0 && dy != 0 {
        if lnx * dny >= lny * dnx {
            lemma_max_fraction_pos(lnx, dnx, lny, dny);
            lemma_floor_le(lnx, dnx, tmax);
        } else {
            lemma_max_fraction_pos(lny, dny, lnx, dnx);
            lemma_floor_le(lny, dny, tmax);
        }
    } else if dx != 0 {
        lemma_floor_le(lnx, dnx, tmax);
    } else if dy != 0 {
        lemma_floor_le(lny, dny, tmax);
    }
}

/// The cast distance always lands in `[0, tmax]`.
proof fn lemma_cast_result_bounds(ox: int, oy: int, dx: int, dy: int, rects: Seq<Rect>, tmax: int)
    requires
        0 <= tmax,
    ensures
        0 <= cast_result(ox, oy, dx, dy, rects, tmax) <= tmax,
    decreases rects.len(),
{
    if rects.len() > 0 {
        lemma_cast_result_bounds(ox, oy, dx, dy, rects.drop_last(), tmax);
        if ray_hits_rect(ox, oy, dx, dy, rects.last(), tmax) {
            lemma_enter_floor_bounds(ox, oy, dx, dy, rects.last(), tmax);
        }
    }
}

/// One recorded visibility point: whether the ray hit a collider, the
/// stopping distance along the ray, and the stopping point, all in
/// doubled world units.
#[derive(Debug, Clone, Copy, PartialEq, Eq, Structural)]
pub struct VisSample {
    pub hit: bool,
    pub dist: i64,
    pub x2: i64,
    pub y2: i64,
}

/// How far the stopping point moves along one axis: the direction
/// component times the stopping distance, scaled back down and truncated
/// toward zero.
pub open spec fn point_off(d: int, t: int) -> int {
    if d >= 0 {
        (d * t) / 1_000_000
    } else {
        -(((-d) * t) / 1_000_000)
    }
}

/// The sample a single ray produces.
pub open spec fn sample_spec(ox: int, oy: int, dx: int, dy: int, rects: Seq<Rect>, tmax: int) -> VisSample {
    let t = cast_result(ox, oy, dx, dy, rects, tmax);
    VisSample {
        hit: cast_hits(ox, oy, dx, dy, rects, tmax),
        dist: t as i64,
        x2: (ox + point_off(dx, t)) as i64,
        y2: (oy + point_off(dy, t)) as i64,
    }
}

/// Scale a direction component down to the offset it contributes over
/// distance `t`.
fn scaled_offset(d: i64, t: i64) -> (off: i64)
    requires
        -1_000_000 <= d <= 1_000_000,
        0 <= t <= 0x8000_0000,
    ensures
        off as int == point_off(d as int, t as int),
        -t <= off <= t,
{
    let neg = d < 0;
    let ad: u128 = if neg {
        (-d) as u128
    } else {
        d as u128
    };
    proof {
        lemma_mul_bounds(ad as int, t as int, 1_000_000, 0x8000_0000);
    }
    let prod: u128 = ad * (t as u128);
    let q: u128 = prod / 1_000_000;
    proof {
        assert(prod as int <= (t as int) * 1_000_000) by (nonlinear_arith)
            requires
                prod == ad * t,
                0 <= ad <= 1_000_000,
                0 <= t,
        ;
        if prod > 0 {
            lemma_floor_le(prod as int, 1_000_000, t as int);
        }
    }
    if neg {
        -(q as i64)
    } else {
        q as i64
    }
}

/// Cast one ray and record where it stops: at the nearest collider
/// within `tmax`, or at `tmax` along the ray when nothing is hit.
pub fn sample_ray(ox: i64, oy: i64, dx: i64, dy: i64, walls: &Vec<Rect>, tmax: i64) -> (smp:
    VisSample)
    requires
        origin_in_range(ox as int, oy as int),
        dir_in_scale(dx as int, dy as int),
        forall|i: int| 0 <= i < walls@.len() ==> rect_in_range(#[trigger] walls@[i]),
        0 <= tmax <= 0x8000_0000,
    ensures
        smp == sample_spec(ox as int, oy as int, dx as int, dy as int, walls@, tmax as int),
{
    let (h, t) = cast_ray(ox, oy, dx, dy, walls, tmax);
    let offx = scaled_offset(dx, t);
    let offy = scaled_offset(dy, t);
    VisSample { hit: h, dist: t, x2: ox + offx, y2: oy + offy }
}

/// The per-tick visibility sample set: one point per cast ray, rebuilt
/// wholesale on every update with no carry-over state.
#[derive(Debug)]
pub struct VisibilityMap {
    pub visible_points: Vec<VisSample>,
}

impl VisibilityMap {
    /// An empty map with no samples yet.
    pub fn new() -> (v: VisibilityMap)
        ensures
            v.visible_points@.len() == 0,
    {
        VisibilityMap { visible_points: Vec::new() }
    }

    /// Recompute the visibility sample set: cast one ray per direction
    /// from the observer against the given colliders, up to the doubled
    /// view distance `tmax`.  The previous samples are discarded
    /// wholesale, and exactly one sample is recorded per ray.
    pub fn update(
        &mut self,
        ox: i64,
        oy: i64,
        dirs: &Vec<(i64, i64)>,
        walls: &Vec<Rect>,
        tmax: i64,
    )
        requires
            origin_in_range(ox as int, oy as int),
            forall|k: int|
                0 <= k < dirs@.len() ==> dir_in_scale(
                    (#[trigger] dirs@[k]).0 as int,
                    dirs@[k].1 as int,
                ),
            forall|i: int| 0 <= i < walls@.len() ==> rect_in_range(#[trigger] walls@[i]),
            0 <= tmax <= 0x8000_0000,
        ensures
            final(self).visible_points@.len() == dirs@.len(),
            forall|k: int|
                0 <= k < dirs@.len() ==> final(self).visible_points@[k] == sample_spec(
                    ox as int,
                    oy as int,
                    (#[trigger] dirs@[k]).0 as int,
                    dirs@[k].1 as int,
                    walls@,
                    tmax as int,
                ),
    {
        self.visible_points.clear();
        let mut k: usize = 0;
        while k < dirs.len()
            invariant
                origin_in_range(ox as int, oy as int),
                forall|j: int|
                    0 <= j < dirs@.len() ==> dir_in_scale(
                        (#[trigger] dirs@[j]).0 as int,
                        dirs@[j].1 as int,
                    ),
                forall|i: int| 0 <= i < walls@.len() ==> rect_in_range(#[trigger] walls@[i]),
                0 <= tmax <= 0x8000_0000,
                k <= dirs@.len(),
                self.visible_points@.len() == k,
                forall|j: int|
                    0 <= j < k ==> self.visible_points@[j] == sample_spec(
                        ox as int,
                        oy as int,
                        (#[trigger] dirs@[j]).0 as int,
                        dirs@[j].1 as int,
                        walls@,
                        tmax as int,
                    ),
            decreases dirs@.len() - k,
        {
            let dir = dirs[k];
            let smp = sample_ray(ox, oy, dir.0, dir.1, walls, tmax);
            self.visible_points.push(smp);
            k += 1;
        }
    }
}

/// Whether sample `smp` lies strictly within half a cell of the centre
/// of rectangle `r` (squared comparison in doubled world units, where
/// half a cell doubled is `cell_size` itself).
pub open spec fn reveals(smp: VisSample, r: Rect, cell_size: int) -> bool {
    dist_sq(smp.x2 as int, smp.y2 as int, r.cx2 as int, r.cy2 as int) < cell_size * cell_size
}

/// Whether every sample coordinate is small enough for the reveal
/// arithmetic.
pub open spec fn samples_in_range(samples: Seq<VisSample>) -> bool {
    forall|k: int|
        0 <= k < samples.len() ==> {
            let s = #[trigger] samples[k];
            &&& -0x200_0000_0000 <= s.x2 <= 0x200_0000_0000
            &&& -0x200_0000_0000 <= s.y2 <= 0x200_0000_0000
        }
}

impl VisibilityMap {
    /// Which walls the current sample set reveals: a wall stays hidden in
    /// the fog unless some visibility point lies strictly within half a
    /// cell of its centre.
    pub fn revealed_walls(&self, walls: &Vec<crate::walls::Wall>, cell_size: u32) -> (out: Vec<
        bool,
    >)
        requires
            samples_in_range(self.visible_points@),
            forall|i: int| 0 <= i < walls@.len() ==> rect_in_range((#[trigger] walls@[i]).rect),
            cell_size <= 0x10000,
        ensures
            out@.len() == walls@.len(),
            forall|i: int|
                0 <= i < walls@.len() ==> out@[i] == exists|k: int|
                    0 <= k < self.visible_points@.len() && reveals(
                        #[trigger] self.visible_points@[k],
                        (#[trigger] walls@[i]).rect,
                        cell_size as int,
                    ),
    {
        let mut out: Vec<bool> = Vec::new();
        let mut i: usize = 0;
        while i < walls.len()
            invariant
                samples_in_range(self.visible_points@),
                forall|j: int| 0 <= j < walls@.len() ==> rect_in_range((#[trigger] walls@[j]).rect),
                cell_size <= 0x10000,
                i <= walls@.len(),
                out@.len() == i,
                forall|j: int|
                    0 <= j < i ==> out@[j] == exists|k: int|
                        0 <= k < self.visible_points@.len() && reveals(
                            #[trigger] self.visible_points@[k],
                            (#[trigger] walls@[j]).rect,
                            cell_size as int,
                        ),
            decreases walls@.len() - i,
        {
            let wr = walls[i].rect;
            let mut found = false;
            let mut k: usize = 0;
            while k < self.visible_points.len()
                invariant
                    samples_in_range(self.visible_points@),
                    rect_in_range(wr),
                    cell_size <= 0x10000,
                    k <= self.visible_points@.len(),
                    found == exists|k2: int|
                        0 <= k2 < k && reveals(
                            #[trigger] self.visible_points@[k2],
                            wr,
                            cell_size as int,
                        ),
                decreases self.visible_points@.len() - k,
            {
                let p = self.visible_points[k];
                let ddx: i128 = (p.x2 as i128) - (wr.cx2 as i128);
                let ddy: i128 = (p.y2 as i128) - (wr.cy2 as i128);
                proof {
                    assert(0 <= ddx * ddx <= 0x400_0000_0000 * 0x400_0000_0000 && 0 <= ddy * ddy
                        <= 0x400_0000_0000 * 0x400_0000_0000) by (nonlinear_arith)
                        requires
                            -0x400_0000_0000 <= ddx <= 0x400_0000_0000,
                            -0x400_0000_0000 <= ddy <= 0x400_0000_0000,
                    ;
                }
                proof {
                    assert(0 <= (cell_size as int) * (cell_size as int) <= 0x10000 * 0x10000)
                        by (nonlinear_arith)
                        requires
                            0 <= cell_size <= 0x10000,
                    ;
                }
                let cc: i128 = (cell_size as i128) * (cell_size as i128);
                if ddx * ddx + ddy * ddy < cc {
                    found = true;
                }
                k += 1;
            }
            out.push(found);
            i += 1;
        }
        out
    }
}

/// Law: a visibility sample never lands farther from the observer than
/// the cast limit — the recorded distance along the ray stays within
/// `tmax`, and the recorded point's squared distance from the observer
/// is at most `tmax` squared (all in doubled world units).
pub proof fn lemma_visibility_bound(ox: int, oy: int, dx: int, dy: int, rects: Seq<Rect>, tmax: int)
    requires
        origin_in_range(ox, oy),
        dir_in_scale(dx, dy),
        0 <= tmax <= 0x8000_0000,
    ensures
        ({
            let smp = sample_spec(ox, oy, dx, dy, rects, tmax);
            &&& 0 <= smp.dist <= tmax
            &&& dist_sq(smp.x2 as int, smp.y2 as int, ox, oy) <= tmax * tmax
        }),
{
    let t = cast_result(ox, oy, dx, dy, rects, tmax);
    lemma_cast_result_bounds(ox, oy, dx, dy, rects, tmax);
    let a = if dx >= 0 {
        dx
    } else {
        -dx
    };
    let b = if dy >= 0 {
        dy
    } else {
        -dy
    };
    let qa = (a * t) / 1_000_000;
    let qb = (b * t) / 1_000_000;
    let sx = point_off(dx, t);
    let sy = point_off(dy, t);
    assert(sx == qa || sx == -qa);
    assert(sy == qb || sy == -qb);
    assert(0 <= a * t && 0 <= b * t) by (nonlinear_arith)
        requires
            0 <= a,
            0 <= b,
            0 <= t,
    ;
    assert(0 <= qa && qa * 1_000_000 <= a * t);
    assert(0 <= qb && qb * 1_000_000 <= b * t);
    assert(sx * sx == qa * qa && sy * sy == qb * qb) by (nonlinear_arith)
        requires
            sx == qa || sx == -qa,
            sy == qb || sy == -qb,
    ;
    assert(qa * qa * 1_000_000_000_000 <= (a * t) * (a * t)) by (nonlinear_arith)
        requires
            0 <= qa * 1_000_000 <= a * t,
    ;
    assert(qb * qb * 1_000_000_000_000 <= (b * t) * (b * t)) by (nonlinear_arith)
        requires
            0 <= qb * 1_000_000 <= b * t,
    ;
    assert((a * t) * (a * t) == (a * a) * (t * t) && (b * t) * (b * t) == (b * b) * (t * t))
        by (nonlinear_arith);
    assert(a * a == dx * dx && b * b == dy * dy) by (nonlinear_arith)
        requires
            a == dx || a == -dx,
            b == dy || b == -dy,
    ;
    assert((a * a) * (t * t) + (b * b) * (t * t) <= 1_000_000_000_000 * (t * t))
        by (nonlinear_arith)
        requires
            a * a + b * b <= 1_000_000_000_000,
            0 <= t * t,
    ;
    assert(qa * qa + qb * qb <= t * t);
    assert(t * t <= tmax * tmax) by (nonlinear_arith)
        requires
            0 <= t <= tmax,
    ;
    assert(a * t <= 1_000_000 * t && b * t <= 1_000_000 * t) by (nonlinear_arith)
        requires
            a <= 1_000_000,
            b <= 1_000_000,
            0 <= t,
    ;
    assert(qa <= t && qb <= t);
    let smp = sample_spec(ox, oy, dx, dy, rects, tmax);
    assert(smp.dist == t);
    assert(smp.x2 == ox + sx && smp.y2 == oy + sy);
    assert(dist_sq(smp.x2 as int, smp.y2 as int, ox, oy) == sx * sx + sy * sy);
}

} // verus!
