//! Fixed-point geometry of the globe.
//!
//! Coordinates are whole micro-units (one unit is `1_000_000`) held in `i32`,
//! so every rule below is decided exactly, in integer arithmetic, without
//! rounding. Lengths are compared through their squares.

use vstd::prelude::*;

verus! {

/// Radius of the globe, centred at the origin.
pub const SPHERE_RADIUS: i128 = 1_000_000;

/// Radius of a ball.
pub const BALL_RADIUS: i128 = 50_000;

/// Slack allowed above a resting ball's centre.
pub const SURFACE_TOLERANCE: i128 = 1_000;

/// Largest distance of a ball's centre from the globe's centre.
pub const OUTER_RADIUS: i128 = SPHERE_RADIUS + BALL_RADIUS + SURFACE_TOLERANCE;

/// Smallest distance allowed between two fixed balls.
pub const MIN_SEPARATION: i128 = 100_000;

/// Bounds on the length of an impulse.
pub const MIN_IMPULSE: i128 = 0;

pub const MAX_IMPULSE: i128 = 1_000_000;

/// Largest allowed cosine between an impulse and the radial direction, in
/// thousandths.
pub const TANGENT_TOLERANCE_PER_MILLE: i128 = 1;

/// Where a ball's centre sits, in micro-units.
#[derive(Clone, Copy, Debug, PartialEq, Eq, Structural)]
pub struct PositionEntity {
    pub x: i32,
    pub y: i32,
    pub z: i32,
}

/// The launch vector of a moving ball, in micro-units.
#[derive(Clone, Copy, Debug, PartialEq, Eq, Structural)]
pub struct ImpulseEntity {
    pub x: i32,
    pub y: i32,
    pub z: i32,
}

pub open spec fn norm_sq(x: int, y: int, z: int) -> int {
    x * x + y * y + z * z
}

pub open spec fn dot(ax: int, ay: int, az: int, bx: int, by: int, bz: int) -> int {
    ax * bx + ay * by + az * bz
}

/// A square is non-negative and grows with the magnitude of its root.
pub proof fn lemma_square_bound(a: int, b: int)
    requires
        -b <= a <= b,
    ensures
        0 <= a * a <= b * b,
{
    assert(0 <= a * a <= b * b) by (nonlinear_arith)
        requires
            -b <= a <= b,
    ;
}

impl PositionEntity {
    pub open spec fn norm_sq(self) -> int {
        norm_sq(self.x as int, self.y as int, self.z as int)
    }

    pub open spec fn dist_sq(self, other: PositionEntity) -> int {
        norm_sq(self.x - other.x, self.y - other.y, self.z - other.z)
    }

    /// Squared straight-line distance to `other`.
    pub fn distance_squared(&self, other: &PositionEntity) -> (r: i128)
        ensures
            r == self.dist_sq(*other),
    {
        let dx = self.x as i128 - other.x as i128;
        let dy = self.y as i128 - other.y as i128;
        let dz = self.z as i128 - other.z as i128;
        proof {
            lemma_square_bound(dx as int, 0x1_0000_0000);
            lemma_square_bound(dy as int, 0x1_0000_0000);
            lemma_square_bound(dz as int, 0x1_0000_0000);
        }
        dx * dx + dy * dy + dz * dz
    }
}

/// A product is bounded by the product of its factors' bounds.
pub proof fn lemma_product_bound(a: int, b: int, ba: int, bb: int)
    requires
        -ba <= a <= ba,
        -bb <= b <= bb,
    ensures
        -(ba * bb) <= a * b <= ba * bb,
{
    assert(-(ba * bb) <= a * b <= ba * bb) by (nonlinear_arith)
        requires
            -ba <= a <= ba,
            -bb <= b <= bb,
    ;
}

/// A coordinate is no longer than the vector it belongs to.
pub proof fn lemma_coordinate_bound(a: int, rest: int, bound: int)
    requires
        0 <= rest,
        0 <= bound,
        a * a + rest <= bound * bound,
    ensures
        -bound <= a <= bound,
{
    assert(-bound <= a <= bound) by (nonlinear_arith)
        requires
            0 <= rest,
            0 <= bound,
            a * a + rest <= bound * bound,
    ;
}

impl ImpulseEntity {
    pub open spec fn norm_sq(self) -> int {
        norm_sq(self.x as int, self.y as int, self.z as int)
    }
}

/// The ball's centre lies in the shell between the globe's surface and the
/// surface raised by a ball's radius and the tolerance:
/// `SPHERE_RADIUS <= |p| <= OUTER_RADIUS`, compared through squares.
pub open spec fn on_surface(p: PositionEntity) -> bool {
    SPHERE_RADIUS * SPHERE_RADIUS <= p.norm_sq() <= OUTER_RADIUS * OUTER_RADIUS
}

/// `p` is at least `MIN_SEPARATION` away from `q`.
pub open spec fn well_separated(p: PositionEntity, q: PositionEntity) -> bool {
    p.dist_sq(q) >= MIN_SEPARATION * MIN_SEPARATION
}

/// `p` is well separated from every position of `others`.
pub open spec fn separated_from_all(p: PositionEntity, others: Seq<PositionEntity>) -> bool {
    forall|j: int| 0 <= j < others.len() ==> well_separated(p, #[trigger] others[j])
}

pub open spec fn impulse_dot(p: PositionEntity, i: ImpulseEntity) -> int {
    dot(p.x as int, p.y as int, p.z as int, i.x as int, i.y as int, i.z as int)
}

/// The cosine between `i` and the radial direction at `p` is at most
/// `TANGENT_TOLERANCE_PER_MILLE / 1000` in absolute value:
/// `(1000 * (p . i))^2 <= T^2 * |p|^2 * |i|^2`. A zero impulse passes.
pub open spec fn tangential(p: PositionEntity, i: ImpulseEntity) -> bool {
    1_000_000 * (impulse_dot(p, i) * impulse_dot(p, i)) <= TANGENT_TOLERANCE_PER_MILLE
        * TANGENT_TOLERANCE_PER_MILLE * (p.norm_sq() * i.norm_sq())
}

/// `MIN_IMPULSE <= |i| <= MAX_IMPULSE`, compared through squares.
pub open spec fn magnitude_in_bounds(i: ImpulseEntity) -> bool {
    MIN_IMPULSE * MIN_IMPULSE <= i.norm_sq() <= MAX_IMPULSE * MAX_IMPULSE
}

/// The globe, centred at the origin.
pub struct Globe;

impl Globe {
    /// Whether a ball centred at `ball` rests on the globe's surface.
    pub fn contains(ball: &PositionEntity) -> (r: bool)
        ensures
            r == on_surface(*ball),
    {
        let d = ball.distance_squared(&PositionEntity { x: 0, y: 0, z: 0 });
        assert(OUTER_RADIUS == 1_051_000);
        SPHERE_RADIUS * SPHERE_RADIUS <= d && d <= OUTER_RADIUS * OUTER_RADIUS
    }
}

/// Whether `point` keeps at least `MIN_SEPARATION` from each of `others`.
pub fn is_valid_distance_from_others(point: &PositionEntity, others: &Vec<PositionEntity>) -> (r:
    bool)
    ensures
        r == separated_from_all(*point, others@),
{
    let mut j: usize = 0;
    while j < others.len()
        invariant
            j <= others.len(),
            separated_from_all(*point, others@.take(j as int)),
        decreases others.len() - j,
    {
        if point.distance_squared(&others[j]) < MIN_SEPARATION * MIN_SEPARATION {
            assert(!well_separated(*point, others@.take(j as int + 1)[j as int]));
            return false;
        }
        assert(others@.take(j as int + 1) =~= others@.take(j as int).push(others@[j as int]));
        j = j + 1;
    }
    assert(others@.take(j as int) =~= others@);
    true
}

/// Whether `impulse` is tangential to the globe at `position`.
///
/// `position` lies no farther than `OUTER_RADIUS` from the centre, as every
/// position on the surface does.
pub fn is_tangential(position: &PositionEntity, impulse: &ImpulseEntity) -> (r: bool)
    requires
        position.norm_sq() <= OUTER_RADIUS * OUTER_RADIUS,
    ensures
        r == tangential(*position, *impulse),
{
    let (px, py, pz) = (position.x as i128, position.y as i128, position.z as i128);
    let (ix, iy, iz) = (impulse.x as i128, impulse.y as i128, impulse.z as i128);
    proof {
        let (a, b, c) = (px as int, py as int, pz as int);
        lemma_square_bound(a, 0x8000_0000);
        lemma_square_bound(b, 0x8000_0000);
        lemma_square_bound(c, 0x8000_0000);
        lemma_coordinate_bound(a, b * b + c * c, OUTER_RADIUS as int);
        lemma_coordinate_bound(b, a * a + c * c, OUTER_RADIUS as int);
        lemma_coordinate_bound(c, a * a + b * b, OUTER_RADIUS as int);
        lemma_product_bound(a, ix as int, OUTER_RADIUS as int, 0x8000_0000);
        lemma_product_bound(b, iy as int, OUTER_RADIUS as int, 0x8000_0000);
        lemma_product_bound(c, iz as int, OUTER_RADIUS as int, 0x8000_0000);
    }
    let d = px * ix + py * iy + pz * iz;
    let np = px * px + py * py + pz * pz;
    proof {
        lemma_square_bound(ix as int, 0x8000_0000);
        lemma_square_bound(iy as int, 0x8000_0000);
        lemma_square_bound(iz as int, 0x8000_0000);
    }
    let ni = ix * ix + iy * iy + iz * iz;
    proof {
        lemma_square_bound(d as int, 6_771_015_942_144_000);
        lemma_product_bound(np as int, ni as int, (OUTER_RADIUS * OUTER_RADIUS) as int, 3 * 0x4000_0000_0000_0000int);
    }
    assert(OUTER_RADIUS == 1_051_000);
    assert(d * d <= 45_846_656_888_768_199_955_316_736_000_000);
    let t = TANGENT_TOLERANCE_PER_MILLE;
    1_000_000 * (d * d) <= t * t * (np * ni)
}

/// Whether the length of `impulse` lies within `[MIN_IMPULSE, MAX_IMPULSE]`.
pub fn is_magnitude_in_bounds(impulse: &ImpulseEntity) -> (r: bool)
    ensures
        r == magnitude_in_bounds(*impulse),
{
    let (ix, iy, iz) = (impulse.x as i128, impulse.y as i128, impulse.z as i128);
    proof {
        lemma_square_bound(ix as int, 0x8000_0000);
        lemma_square_bound(iy as int, 0x8000_0000);
        lemma_square_bound(iz as int, 0x8000_0000);
    }
    let n = ix * ix + iy * iy + iz * iz;
    MIN_IMPULSE * MIN_IMPULSE <= n && n <= MAX_IMPULSE * MAX_IMPULSE
}

} // verus!
