use vstd::prelude::*;

verus! {

/// A point in 3D space with unsigned components.
#[derive(Clone, Copy, Debug, Default, Hash, PartialEq, Eq, Structural)]
pub struct Point3D {
    pub x: u32,
    pub y: u32,
    pub z: u32,
}

/// The location of a chunk in chunk units.
pub type ChunkLocation = Point3D;

/// The location of a voxel in relation to the world.
pub type GlobalLocation = Point3D;

/// The location of a voxel in relation to its chunk.
pub type VoxelLocation = Point3D;

/// 2^32, the radix of one packed component.
pub const COMPONENT_RADIX: u128 = 0x1_0000_0000;

/// The packed key of a point: x, then y, then z as base-2^32 digits, so that
/// keys order points lexicographically.
pub open spec fn packed(p: Point3D) -> int {
    (p.x as int) * 0x1_0000_0000_0000_0000 + (p.y as int) * 0x1_0000_0000 + ((p.z as int))
}

/// A two-digit number in radix `m` has unique digits.
pub proof fn lemma_mixed_radix_unique(a1: int, b1: int, a2: int, b2: int, m: int)
    requires
        m > 0,
        0 <= a1,
        0 <= a2,
        0 <= b1 < m,
        0 <= b2 < m,
        a1 * m + b1 == a2 * m + b2,
    ensures
        a1 == a2,
        b1 == b2,
{
    if a1 < a2 {
        assert(a1 * m + m <= a2 * m) by (nonlinear_arith)
            requires a1 < a2, m > 0;
    } else if a2 < a1 {
        assert(a2 * m + m <= a1 * m) by (nonlinear_arith)
            requires a2 < a1, m > 0;
    }
}

/// Distinct points have distinct packed keys.
pub proof fn lemma_packed_injective(p: Point3D, q: Point3D)
    ensures
        packed(p) == packed(q) <==> p == q,
{
    if packed(p) == packed(q) {
        let m: int = 0x1_0000_0000;
        assert(packed(p) == (p.x as int) * (m * m) + ((p.y as int) * m + (p.z as int)));
        assert(packed(q) == (q.x as int) * (m * m) + ((q.y as int) * m + (q.z as int)));
        assert((p.y as int) * m + (p.z as int) < m * m) by (nonlinear_arith)
            requires p.y < m, p.z < m, 0 <= p.z, m == 0x1_0000_0000;
        assert((q.y as int) * m + (q.z as int) < m * m) by (nonlinear_arith)
            requires q.y < m, q.z < m, 0 <= q.z, m == 0x1_0000_0000;
        let (pl, ql) = ((p.y as int) * m + (p.z as int), (q.y as int) * m + (q.z as int));
        lemma_mixed_radix_unique(p.x as int, pl, q.x as int, ql, m * m);
        lemma_mixed_radix_unique(p.y as int, (p.z as int), q.y as int, (q.z as int), m);
    }
}

/// A packed key takes 96 bits.
pub proof fn lemma_packed_bound(p: Point3D)
    ensures
        0 <= packed(p) < 0x1_0000_0000_0000_0000_0000_0000,
{
    let (x, y, z) = (p.x as int, p.y as int, p.z as int);
    assert(0 <= x * 0x1_0000_0000_0000_0000 + y * 0x1_0000_0000 + z < 0x1_0000_0000_0000_0000_0000_0000)
        by (nonlinear_arith)
        requires 0 <= x < 0x1_0000_0000, 0 <= y < 0x1_0000_0000, 0 <= z < 0x1_0000_0000;
}

impl Point3D {
    pub fn new(x: u32, y: u32, z: u32) -> (r: Point3D)
        ensures
            r.x == x,
            r.y == y,
            r.z == z,
    {
        Point3D { x, y, z }
    }

    /// Component-wise sum, or `None` where a component would exceed `u32::MAX`.
    pub fn checked_add(self, other: Point3D) -> (r: Option<Point3D>)
        ensures
            match r {
                Some(p) => p.x == self.x + other.x && p.y == self.y + other.y && p.z == self.z
                    + other.z,
                None => self.x + other.x > u32::MAX || self.y + other.y > u32::MAX || self.z
                    + other.z > u32::MAX,
            },
    {
        match (self.x.checked_add(other.x), self.y.checked_add(other.y), self.z.checked_add(other.z)) {
            (Some(x), Some(y), Some(z)) => Some(Point3D { x, y, z }),
            _ => None,
        }
    }

    /// Component-wise difference, or `None` where a component would go below zero.
    pub fn checked_sub(self, other: Point3D) -> (r: Option<Point3D>)
        ensures
            match r {
                Some(p) => p.x == self.x - other.x && p.y == self.y - other.y && p.z == self.z
                    - other.z,
                None => self.x < other.x || self.y < other.y || self.z < other.z,
            },
    {
        match (self.x.checked_sub(other.x), self.y.checked_sub(other.y), self.z.checked_sub(other.z)) {
            (Some(x), Some(y), Some(z)) => Some(Point3D { x, y, z }),
            _ => None,
        }
    }

    /// The packed key of this point (see `packed`).
    pub fn packed_key(&self) -> (r: u128)
        ensures
            r as int == packed(*self),
    {
        let x = self.x as u128;
        let y = self.y as u128;
        let z = self.z as u128;
        assert(x * COMPONENT_RADIX * COMPONENT_RADIX + y * COMPONENT_RADIX + z <= u128::MAX) by (nonlinear_arith)
            requires x < COMPONENT_RADIX, y < COMPONENT_RADIX, z < COMPONENT_RADIX, COMPONENT_RADIX == 0x1_0000_0000;
        x * COMPONENT_RADIX * COMPONENT_RADIX + y * COMPONENT_RADIX + z
    }
}

} // verus!
