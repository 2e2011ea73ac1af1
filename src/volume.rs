use vstd::prelude::*;
use vstd::arithmetic::div_mod::{lemma_fundamental_div_mod, lemma_mod_pos_bound, lemma_div_pos_is_pos};
use crate::point::{Point3D, GlobalLocation, lemma_mixed_radix_unique};

verus! {

/// Linear position of relative coordinates in a cuboid of extents `xl` and `yl`.
pub open spec fn flat_index(dx: int, dy: int, dz: int, xl: int, yl: int) -> int {
    dz * (xl * yl) + dy * xl + dx
}

/// Relative coordinates inside the extents have their position inside the cuboid.
pub proof fn lemma_flat_index_bound(dx: int, dy: int, dz: int, xl: int, yl: int, zl: int)
    requires
        0 <= dx < xl,
        0 <= dy < yl,
        0 <= dz < zl,
    ensures
        0 <= flat_index(dx, dy, dz, xl, yl) < xl * yl * zl,
        0 <= dy * xl + dx < xl * yl,
{
    assert(0 <= dy * xl + dx < xl * yl) by (nonlinear_arith)
        requires 0 <= dx < xl, 0 <= dy < yl;
    assert(0 <= dz * (xl * yl) + (dy * xl + dx) < xl * yl * zl) by (nonlinear_arith)
        requires 0 <= dy * xl + dx < xl * yl, 0 <= dz < zl, xl > 0, yl > 0;
}

/// A dense copy of the voxels of an axis-aligned cuboid: `start` inclusive,
/// `end` exclusive.
pub struct Volume<T> {
    start_location: GlobalLocation,
    end_location: GlobalLocation,
    x_size: u32,
    y_size: u32,
    z_size: u32,
    voxels: Vec<T>,
}

impl<T: Copy + Default> Volume<T> {
    pub closed spec fn start(&self) -> Point3D {
        self.start_location
    }

    pub closed spec fn end(&self) -> Point3D {
        self.end_location
    }

    /// The voxels in flat layout order.
    pub closed spec fn cells(&self) -> Seq<T> {
        self.voxels@
    }

    pub closed spec fn sizes_match(&self) -> bool {
        &&& self.x_size == self.end_location.x - self.start_location.x
        &&& self.y_size == self.end_location.y - self.start_location.y
        &&& self.z_size == self.end_location.z - self.start_location.z
    }

    pub open spec fn x_len(&self) -> int {
        self.end().x - self.start().x
    }

    pub open spec fn y_len(&self) -> int {
        self.end().y - self.start().y
    }

    pub open spec fn z_len(&self) -> int {
        self.end().z - self.start().z
    }

    /// Number of voxels in the cuboid.
    pub open spec fn volume(&self) -> int {
        self.x_len() * self.y_len() * self.z_len()
    }

    pub open spec fn wf(&self) -> bool {
        &&& self.start().x <= self.end().x
        &&& self.start().y <= self.end().y
        &&& self.start().z <= self.end().z
        &&& self.cells().len() == self.volume()
        &&& self.sizes_match()
    }

    pub open spec fn in_bounds(&self, l: GlobalLocation) -> bool {
        &&& self.start().x <= l.x < self.end().x
        &&& self.start().y <= l.y < self.end().y
        &&& self.start().z <= l.z < self.end().z
    }

    /// Position of a location in the flat layout: z-major, then y, then x,
    /// relative to `start`.
    pub open spec fn index_of(&self, l: GlobalLocation) -> int {
        flat_index(
            l.x - self.start().x,
            l.y - self.start().y,
            l.z - self.start().z,
            self.x_len(),
            self.y_len(),
        )
    }

    /// The location at a position of the flat layout.
    pub open spec fn location_of(&self, i: int) -> GlobalLocation {
        let plane = self.x_len() * self.y_len();
        Point3D {
            x: (self.start().x + (i % plane) % self.x_len()) as u32,
            y: (self.start().y + (i % plane) / self.x_len()) as u32,
            z: (self.start().z + i / plane) as u32,
        }
    }

    /// The voxel at an in-bounds location.
    pub open spec fn at(&self, l: GlobalLocation) -> T {
        self.cells()[self.index_of(l)]
    }

    /// An in-bounds location lies inside the flat layout.
    pub proof fn lemma_index_in_range(&self, l: GlobalLocation)
        requires
            self.wf(),
            self.in_bounds(l),
        ensures
            0 <= self.index_of(l) < self.cells().len(),
    {
        lemma_flat_index_bound(
            l.x - self.start().x,
            l.y - self.start().y,
            l.z - self.start().z,
            self.x_len(),
            self.y_len(),
            self.z_len(),
        );
    }

    /// Distinct in-bounds locations have distinct positions.
    pub proof fn lemma_index_injective(&self, l: GlobalLocation, m: GlobalLocation)
        requires
            self.wf(),
            self.in_bounds(l),
            self.in_bounds(m),
        ensures
            self.index_of(l) == self.index_of(m) <==> l == m,
    {
        let (xl, yl, zl) = (self.x_len(), self.y_len(), self.z_len());
        let (lx, ly, lz) = (l.x - self.start().x, l.y - self.start().y, l.z - self.start().z);
        let (mx, my, mz) = (m.x - self.start().x, m.y - self.start().y, m.z - self.start().z);
        lemma_flat_index_bound(lx, ly, lz, xl, yl, zl);
        lemma_flat_index_bound(mx, my, mz, xl, yl, zl);
        if self.index_of(l) == self.index_of(m) {
            lemma_mixed_radix_unique(lz, ly * xl + lx, mz, my * xl + mx, xl * yl);
            lemma_mixed_radix_unique(ly, lx, my, mx, xl);
        }
    }

    /// Windowing round trip: every position of the flat layout is the position
    /// of the location found at it, and that location is in bounds.
    pub proof fn lemma_index_location_round_trip(&self, i: int)
        requires
            self.wf(),
            0 <= i < self.cells().len(),
        ensures
            self.in_bounds(self.location_of(i)),
            self.index_of(self.location_of(i)) == i,
            0 <= (i % (self.x_len() * self.y_len())) % self.x_len() < self.x_len(),
            0 <= (i % (self.x_len() * self.y_len())) / self.x_len() < self.y_len(),
            0 <= i / (self.x_len() * self.y_len()) < self.z_len(),
            0 < self.x_len() * self.y_len() <= self.volume(),
    {
        let (xl, yl, zl) = (self.x_len(), self.y_len(), self.z_len());
        let plane = xl * yl;
        assert(xl > 0 && yl > 0 && zl > 0) by (nonlinear_arith)
            requires 0 <= i < xl * yl * zl, xl >= 0, yl >= 0, zl >= 0;
        assert(plane > 0) by (nonlinear_arith)
            requires xl > 0, yl > 0, plane == xl * yl;
        let r = i % plane;
        let dz = i / plane;
        lemma_fundamental_div_mod(i, plane);
        lemma_mod_pos_bound(i, plane);
        lemma_div_pos_is_pos(i, plane);
        lemma_fundamental_div_mod(r, xl);
        lemma_mod_pos_bound(r, xl);
        lemma_div_pos_is_pos(r, xl);
        let dy = r / xl;
        let dx = r % xl;
        assert(dy < yl) by (nonlinear_arith)
            requires r == xl * dy + dx, 0 <= dx, r < plane, plane == xl * yl, xl > 0;
        assert(dz < zl) by (nonlinear_arith)
            requires i == plane * dz + r, 0 <= r, i < plane * zl, plane > 0;
        assert(i < plane * zl) by (nonlinear_arith)
            requires i < xl * yl * zl, plane == xl * yl;
        assert(flat_index(dx, dy, dz, xl, yl) == i) by (nonlinear_arith)
            requires i == plane * dz + r, r == xl * dy + dx, plane == xl * yl;
        assert(plane <= xl * yl * zl) by (nonlinear_arith)
            requires plane == xl * yl, zl >= 1, plane > 0;
    }

    /// A volume over `[start_location, end_location)` with every voxel set to `value`.
    pub fn new(start_location: GlobalLocation, end_location: GlobalLocation, value: T) -> (r: Volume<T>)
        requires
            start_location.x <= end_location.x,
            start_location.y <= end_location.y,
            start_location.z <= end_location.z,
            (end_location.x - start_location.x) * (end_location.y - start_location.y) * (
            end_location.z - start_location.z) <= usize::MAX,
        ensures
            r.wf(),
            r.start() == start_location,
            r.end() == end_location,
            r.cells() == Seq::new(r.volume() as nat, |i: int| value),
            forall|l: GlobalLocation| #[trigger] r.in_bounds(l) ==> r.at(l) == value,
    {
        let x_size = end_location.x - start_location.x;
        let y_size = end_location.y - start_location.y;
        let z_size = end_location.z - start_location.z;
        let n: usize = if z_size == 0 {
            0
        } else {
            assert((x_size as int) * (y_size as int) <= usize::MAX) by (nonlinear_arith)
                requires x_size * y_size * z_size <= usize::MAX, x_size >= 0, y_size >= 0, z_size > 0;
            (x_size as usize) * (y_size as usize) * (z_size as usize)
        };
        assert(n == x_size * y_size * z_size) by (nonlinear_arith)
            requires z_size == 0 ==> n == 0, z_size != 0 ==> n == x_size * y_size * z_size;
        let mut voxels: Vec<T> = Vec::new();
        let mut i: usize = 0;
        while i < n
            invariant
                i <= n,
                voxels@ == Seq::new(i as nat, |j: int| value),
            decreases n - i,
        {
            voxels.push(value);
            i = i + 1;
            assert(voxels@ =~= Seq::new(i as nat, |j: int| value));
        }
        let r = Volume { start_location, end_location, x_size, y_size, z_size, voxels };
        assert forall|l: GlobalLocation| #[trigger] r.in_bounds(l) implies r.at(l) == value by {
            r.lemma_index_in_range(l);
        }
        r
    }

    pub fn start_location(&self) -> (r: GlobalLocation)
        ensures
            r == self.start(),
    {
        self.start_location
    }

    pub fn end_location(&self) -> (r: GlobalLocation)
        ensures
            r == self.end(),
    {
        self.end_location
    }

    /// Number of voxels held.
    pub fn len(&self) -> (r: usize)
        ensures
            r == self.cells().len(),
    {
        self.voxels.len()
    }

    /// Position of an in-bounds location in the flat layout.
    pub fn get_index(&self, location: GlobalLocation) -> (r: usize)
        requires
            self.wf(),
            self.in_bounds(location),
        ensures
            r == self.index_of(location),
            r < self.cells().len(),
    {
        let n = self.voxels.len();
        proof {
            self.lemma_index_in_range(location);
        }
        let dx = (location.x - self.start_location.x) as usize;
        let dy = (location.y - self.start_location.y) as usize;
        let dz = (location.z - self.start_location.z) as usize;
        let xs = self.x_size as usize;
        let ys = self.y_size as usize;
        proof {
            let (xl, yl, zl) = (xs as int, ys as int, self.z_len());
            assert(xl * yl <= xl * yl * zl && dz * (xl * yl) <= xl * yl * zl) by (nonlinear_arith)
                requires 0 <= dz < zl, xl >= 0, yl >= 0;
            assert(dy * xl <= xl * yl) by (nonlinear_arith)
                requires 0 <= dy < yl, xl >= 0;
            assert(dz * (xs * ys) + dy * xs + dx == self.index_of(location));
        }
        dz * (xs * ys) + dy * xs + dx
    }

    /// The location at a position of the flat layout.
    pub fn get_location(&self, index: usize) -> (r: GlobalLocation)
        requires
            self.wf(),
            index < self.cells().len(),
        ensures
            r == self.location_of(index as int),
            self.in_bounds(r),
            self.index_of(r) == index,
    {
        let n = self.voxels.len();
        proof {
            self.lemma_index_location_round_trip(index as int);
        }
        let xs = self.x_size as usize;
        let ys = self.y_size as usize;
        assert(xs as int == self.x_len() && ys as int == self.y_len());
        assert((xs as int) * (ys as int) == self.x_len() * self.y_len());
        assert(self.x_len() * self.y_len() <= self.volume());
        assert(self.volume() == n as int);
        assert((xs as int) * (ys as int) <= n as int);
        let plane = xs * ys;
        let r = index % plane;
        assert(r as int == (index as int) % (self.x_len() * self.y_len()));
        assert((r / xs) as int == (r as int) / self.x_len());
        assert((index / plane) as int == (index as int) / (self.x_len() * self.y_len()));
        Point3D {
            x: self.start_location.x + ((r % xs) as u32),
            y: self.start_location.y + ((r / xs) as u32),
            z: self.start_location.z + ((index / plane) as u32),
        }
    }

    /// Whether a location lies inside the cuboid.
    pub fn within_bounds(&self, location: GlobalLocation) -> (r: bool)
        ensures
            r == self.in_bounds(location),
    {
        self.start_location.x <= location.x && location.x < self.end_location.x
            && self.start_location.y <= location.y && location.y < self.end_location.y
            && self.start_location.z <= location.z && location.z < self.end_location.z
    }

    pub fn get(&self, location: GlobalLocation) -> (r: T)
        requires
            self.wf(),
            self.in_bounds(location),
        ensures
            r == self.at(location),
    {
        self.voxels[self.get_index(location)]
    }

    /// Writes one voxel; every other voxel keeps its value.
    pub fn set(&mut self, location: GlobalLocation, value: T)
        requires
            old(self).wf(),
            old(self).in_bounds(location),
        ensures
            final(self).wf(),
            final(self).start() == old(self).start(),
            final(self).end() == old(self).end(),
            final(self).at(location) == value,
            final(self).cells() == old(self).cells().update(old(self).index_of(location), value),
            forall|l: GlobalLocation|
                #[trigger] final(self).in_bounds(l) && l != location ==> final(self).at(l) == old(
                    self,
                ).at(l),
    {
        let i = self.get_index(location);
        self.voxels.set(i, value);
        assert forall|l: GlobalLocation|
            #[trigger] self.in_bounds(l) && l != location implies self.at(l) == old(self).at(l) by {
            old(self).lemma_index_injective(l, location);
            old(self).lemma_index_in_range(l);
        }
    }
}

} // verus!
