use vstd::prelude::*;
use vstd::string::StringSliceAdditionalSpecFns;
use crate::point::{VoxelLocation, lemma_mixed_radix_unique};

verus! {

/// Edge length of a chunk along x.
pub const CHUNK_X_SIZE: usize = 16;
/// Edge length of a chunk along y.
pub const CHUNK_Y_SIZE: usize = 16;
/// Edge length of a chunk along z.
pub const CHUNK_Z_SIZE: usize = 16;
/// Number of voxels in a chunk.
pub const CHUNK_VOLUME: usize = 4096;
/// Size of the auxiliary data block, in bytes.
pub const DATA_SEGMENT_SIZE: usize = 256;

/// 256 bytes of data, to be used for any purpose.
#[derive(Clone, Copy, Debug)]
pub struct DataSegment {
    data: [u8; DATA_SEGMENT_SIZE],
}

impl DataSegment {
    /// The bytes held.
    pub closed spec fn bytes(&self) -> Seq<u8> {
        self.data@
    }

    /// The bytes held.
    pub fn data(&self) -> (r: [u8; DATA_SEGMENT_SIZE])
        ensures
            r@ == self.bytes(),
    {
        self.data
    }

    /// A segment of zero bytes.
    pub fn new() -> (r: DataSegment)
        ensures
            r.bytes() == Seq::new(DATA_SEGMENT_SIZE as nat, |i: int| 0u8),
    {
        let r = DataSegment { data: [0u8; DATA_SEGMENT_SIZE] };
        assert(r.bytes() =~= Seq::new(DATA_SEGMENT_SIZE as nat, |i: int| 0u8));
        r
    }

    /// A segment holding the bytes of `string`, truncated so that at least the
    /// last byte stays zero; the rest is zero.
    pub fn from(string: &str) -> (r: DataSegment)
        ensures
            r.bytes().len() == DATA_SEGMENT_SIZE,
            forall|i: int|
                0 <= i < DATA_SEGMENT_SIZE ==> #[trigger] r.bytes()[i] == if i < string.spec_bytes().len()
                    && i < DATA_SEGMENT_SIZE - 1 {
                    string.spec_bytes()[i]
                } else {
                    0u8
                },
    {
        let mut segment = DataSegment::new();
        let bytes = string.as_bytes();
        let n: usize = if bytes.len() < DATA_SEGMENT_SIZE - 1 {
            bytes.len()
        } else {
            DATA_SEGMENT_SIZE - 1
        };
        let mut i: usize = 0;
        while i < n
            invariant
                n <= bytes@.len(),
                n < DATA_SEGMENT_SIZE,
                bytes@ == string.spec_bytes(),
                n == bytes@.len() || n == DATA_SEGMENT_SIZE - 1,
                0 <= i <= n,
                segment.data@.len() == DATA_SEGMENT_SIZE,
                forall|j: int|
                    0 <= j < DATA_SEGMENT_SIZE ==> #[trigger] segment.data@[j] == if j < i {
                        bytes@[j]
                    } else {
                        0u8
                    },
            decreases n - i,
        {
            segment.data[i] = bytes[i];
            i = i + 1;
        }
        segment
    }
}

/// Whether `l` addresses a voxel inside a chunk.
pub open spec fn in_chunk(l: VoxelLocation) -> bool {
    l.x < CHUNK_X_SIZE && l.y < CHUNK_Y_SIZE && l.z < CHUNK_Z_SIZE
}

/// Position of a chunk-local voxel in the flat layout: z-major, then y, then x.
pub open spec fn chunk_index(l: VoxelLocation) -> int {
    (l.z as int) * (CHUNK_X_SIZE * CHUNK_Y_SIZE) + (l.y as int) * CHUNK_X_SIZE + (l.x as int)
}

/// The flat layout puts each chunk-local voxel at its own position inside the chunk.
pub proof fn lemma_chunk_index(l: VoxelLocation, m: VoxelLocation)
    requires
        in_chunk(l),
        in_chunk(m),
    ensures
        0 <= chunk_index(l) < CHUNK_VOLUME,
        chunk_index(l) == chunk_index(m) <==> l == m,
{
    let (x, y, z) = (l.x as int, l.y as int, l.z as int);
    assert(0 <= z * 256 + y * 16 + x < 4096) by (nonlinear_arith)
        requires 0 <= x < 16, 0 <= y < 16, 0 <= z < 16;
    if chunk_index(l) == chunk_index(m) {
        let (ll, ml) = ((l.y as int) * 16 + (l.x as int), (m.y as int) * 16 + (m.x as int));
        lemma_mixed_radix_unique(l.z as int, ll, m.z as int, ml, 256);
        lemma_mixed_radix_unique(l.y as int, l.x as int, m.y as int, m.x as int, 16);
    }
}

/// A cube of voxels that is loaded and unloaded as one.
pub struct Chunk<T> {
    voxels: [T; CHUNK_VOLUME],
    extra_data: Option<DataSegment>,
}

impl<T: Copy + Default> Chunk<T> {
    /// The voxels in flat layout order.
    pub closed spec fn cells(&self) -> Seq<T> {
        self.voxels@
    }

    /// The auxiliary block.
    pub closed spec fn extra(&self) -> Option<DataSegment> {
        self.extra_data
    }

    /// The voxel at a chunk-local location.
    pub open spec fn at(&self, l: VoxelLocation) -> T {
        self.cells()[chunk_index(l)]
    }

    /// A chunk holding the default value everywhere.
    pub fn new() -> (r: Chunk<T>)
        ensures
            r.cells().len() == CHUNK_VOLUME,
            forall|i: int| 0 <= i < CHUNK_VOLUME ==> #[trigger] r.cells()[i] == r.cells()[0],
            r.extra() is None,
    {
        Chunk::from_value(T::default())
    }

    /// A chunk holding `value` everywhere.
    pub fn from_value(value: T) -> (r: Chunk<T>)
        ensures
            r.cells() == Seq::new(CHUNK_VOLUME as nat, |i: int| value),
            r.extra() is None,
    {
        Chunk::from_value_with_extra_data(value, None)
    }

    /// A chunk holding `value` everywhere, with the given auxiliary block.
    pub fn from_value_with_extra_data(value: T, extra_data: Option<DataSegment>) -> (r: Chunk<T>)
        ensures
            r.cells() == Seq::new(CHUNK_VOLUME as nat, |i: int| value),
            r.extra() == extra_data,
    {
        let r = Chunk { voxels: [value; CHUNK_VOLUME], extra_data };
        assert(r.cells() =~= Seq::new(CHUNK_VOLUME as nat, |i: int| value));
        r
    }

    /// A chunk made of the given voxels, in flat layout order, and auxiliary block.
    pub fn from_cells(voxels: [T; CHUNK_VOLUME], extra_data: Option<DataSegment>) -> (r: Chunk<T>)
        ensures
            r.cells() == voxels@,
            r.extra() == extra_data,
    {
        Chunk { voxels, extra_data }
    }

    /// The voxels in flat layout order, as a persistence layer stores them.
    pub fn cell_values(&self) -> (r: &[T; CHUNK_VOLUME])
        ensures
            r@ == self.cells(),
    {
        &self.voxels
    }

    /// The auxiliary block.
    pub fn extra_data(&self) -> (r: Option<DataSegment>)
        ensures
            r == self.extra(),
    {
        self.extra_data
    }

    /// Position of a chunk-local location in the flat layout.
    pub fn get_index(location: VoxelLocation) -> (r: usize)
        requires
            in_chunk(location),
        ensures
            r == chunk_index(location),
            r < CHUNK_VOLUME,
    {
        proof {
            lemma_chunk_index(location, location);
        }
        (location.z as usize) * CHUNK_X_SIZE * CHUNK_Y_SIZE + (location.y as usize) * CHUNK_X_SIZE
            + (location.x as usize)
    }

    pub fn get(&self, location: VoxelLocation) -> (r: T)
        requires
            in_chunk(location),
        ensures
            r == self.at(location),
    {
        self.voxels[Self::get_index(location)]
    }

    /// Writes one voxel; every other voxel keeps its value.
    pub fn set(&mut self, location: VoxelLocation, value: T)
        requires
            in_chunk(location),
        ensures
            final(self).at(location) == value,
            forall|l: VoxelLocation|
                in_chunk(l) && l != location ==> #[trigger] final(self).at(l) == old(self).at(l),
            final(self).cells().len() == CHUNK_VOLUME,
            final(self).extra() == old(self).extra(),
    {
        let i = Self::get_index(location);
        self.voxels[i] = value;
        assert forall|l: VoxelLocation| in_chunk(l) && l != location implies #[trigger] self.at(l)
            == old(self).at(l) by {
            lemma_chunk_index(l, location);
        }
    }
}

} // verus!
