use vstd::prelude::*;
use vstd::arithmetic::div_mod::lemma_fundamental_div_mod;
use std::collections::HashMap;
use crate::chunk::{Chunk, in_chunk, CHUNK_X_SIZE, CHUNK_Y_SIZE, CHUNK_Z_SIZE};
use crate::point::{Point3D, ChunkLocation, GlobalLocation, VoxelLocation, packed, lemma_packed_injective, lemma_packed_bound};
use crate::volume::Volume;
use crate::seq_lemmas::{lemma_remove_no_duplicates, lemma_push_no_duplicates};

verus! {

broadcast use vstd::std_specs::hash::group_hash_axioms;

/// Why a chunk or voxel of a world could not be had.
#[derive(Clone, Copy, Debug, PartialEq, Eq, Structural)]
pub enum WorldError {
    /// The chunk location was never defined.
    UndefinedChunk,
    /// The chunk is defined but not in memory: it must be loaded first.
    ChunkNotLoaded,
    /// The persistence layer could not produce the chunk.
    PersistenceFailure,
}

/// The chunk that holds a global location.
pub open spec fn chunk_location_of(g: GlobalLocation) -> ChunkLocation {
    Point3D {
        x: (g.x / CHUNK_X_SIZE as u32) as u32,
        y: (g.y / CHUNK_Y_SIZE as u32) as u32,
        z: (g.z / CHUNK_Z_SIZE as u32) as u32,
    }
}

/// The location of a global location inside its chunk.
pub open spec fn voxel_location_of(g: GlobalLocation) -> VoxelLocation {
    Point3D {
        x: (g.x % CHUNK_X_SIZE as u32) as u32,
        y: (g.y % CHUNK_Y_SIZE as u32) as u32,
        z: (g.z % CHUNK_Z_SIZE as u32) as u32,
    }
}

/// Addressing round trip: a global location is its chunk's location times the
/// chunk size plus its location inside the chunk, which lies in the chunk.
pub proof fn lemma_addressing_round_trip(g: GlobalLocation)
    ensures
        chunk_location_of(g).x * CHUNK_X_SIZE + voxel_location_of(g).x == g.x,
        chunk_location_of(g).y * CHUNK_Y_SIZE + voxel_location_of(g).y == g.y,
        chunk_location_of(g).z * CHUNK_Z_SIZE + voxel_location_of(g).z == g.z,
        in_chunk(voxel_location_of(g)),
{
    lemma_fundamental_div_mod(g.x as int, 16);
    lemma_fundamental_div_mod(g.y as int, 16);
    lemma_fundamental_div_mod(g.z as int, 16);
}

/// Key of a chunk location in the map of loaded chunks.
pub open spec fn key_of(l: ChunkLocation) -> u128 {
    packed(l) as u128
}

/// Many chunks forming one world. A chunk location is defined (it exists,
/// whether or not it is in memory) or not; a loaded chunk is in memory, and
/// its location is always defined.
pub struct Dimension<T> {
    loaded_chunks: HashMap<u128, Chunk<T>>,
    all_chunk_locations: Vec<ChunkLocation>,
    disk_cache: Option<String>,
}

impl<T: Copy + Default> Dimension<T> {
    /// The defined chunk locations.
    pub closed spec fn defined(&self) -> Set<ChunkLocation> {
        self.all_chunk_locations@.to_set()
    }

    /// The chunks in memory, by location.
    pub closed spec fn loaded(&self) -> Map<ChunkLocation, Chunk<T>> {
        Map::new(
            |l: ChunkLocation| self.loaded_chunks@.dom().contains(key_of(l)),
            |l: ChunkLocation| self.loaded_chunks@[key_of(l)],
        )
    }

    /// Where the world is stored, if anywhere.
    pub closed spec fn store(&self) -> Option<String> {
        self.disk_cache
    }

    /// Whether the chunk holding global location `l` is in memory.
    pub open spec fn voxel_loaded(&self, l: GlobalLocation) -> bool {
        self.loaded().dom().contains(chunk_location_of(l))
    }

    /// The voxel at global location `l`, where its chunk is in memory.
    pub open spec fn voxel_at(&self, l: GlobalLocation) -> T {
        self.loaded()[chunk_location_of(l)].at(voxel_location_of(l))
    }

    pub closed spec fn wf(&self) -> bool {
        &&& self.all_chunk_locations@.no_duplicates()
        &&& forall|l: ChunkLocation| #[trigger]
            self.loaded_chunks@.dom().contains(key_of(l)) ==> self.all_chunk_locations@.contains(l)
    }

    /// Every loaded chunk is defined.
    pub proof fn lemma_loaded_defined(&self)
        requires
            self.wf(),
        ensures
            self.loaded().dom().subset_of(self.defined()),
    {
    }

    proof fn lemma_key_frame(&self, l: ChunkLocation)
        ensures
            forall|m: ChunkLocation| #[trigger] key_of(m) == key_of(l) ==> m == l,
    {
        assert forall|m: ChunkLocation| #[trigger] key_of(m) == key_of(l) implies m == l by {
            lemma_packed_injective(m, l);
            lemma_packed_bound(m);
            lemma_packed_bound(l);
        }
    }

    /// An empty world with no backing store.
    pub fn new() -> (r: Dimension<T>)
        ensures
            r.wf(),
            r.defined() == Set::<ChunkLocation>::empty(),
            r.loaded() == Map::<ChunkLocation, Chunk<T>>::empty(),
            r.store() is None,
    {
        let r = Dimension {
            loaded_chunks: HashMap::new(),
            all_chunk_locations: Vec::new(),
            disk_cache: None,
        };
        assert(r.defined() =~= Set::<ChunkLocation>::empty());
        assert(r.loaded() =~= Map::<ChunkLocation, Chunk<T>>::empty());
        r
    }

    /// Position of `location` among the defined locations.
    fn position_of(&self, location: ChunkLocation) -> (r: Option<usize>)
        ensures
            match r {
                Some(i) => i < self.all_chunk_locations@.len() && self.all_chunk_locations@[i as int]
                    == location,
                None => !self.all_chunk_locations@.contains(location),
            },
    {
        let mut i: usize = 0;
        while i < self.all_chunk_locations.len()
            invariant
                i <= self.all_chunk_locations@.len(),
                forall|j: int| 0 <= j < i ==> self.all_chunk_locations@[j] != location,
            decreases self.all_chunk_locations@.len() - i,
        {
            if self.all_chunk_locations[i] == location {
                return Some(i);
            }
            i = i + 1;
        }
        None
    }

    /// Whether a chunk is in memory.
    pub fn chunk_loaded(&self, location: ChunkLocation) -> (r: bool)
        ensures
            r == self.loaded().dom().contains(location),
    {
        self.loaded_chunks.contains_key(&location.packed_key())
    }

    /// Whether a chunk location has been defined to exist.
    pub fn chunk_defined(&self, location: ChunkLocation) -> (r: bool)
        ensures
            r == self.defined().contains(location),
    {
        self.position_of(location).is_some()
    }

    /// Defines `location` and puts `chunk` in memory there, replacing any chunk
    /// held before.
    pub fn add_chunk_in_place(&mut self, location: ChunkLocation, chunk: Chunk<T>)
        requires
            old(self).wf(),
        ensures
            final(self).wf(),
            final(self).defined() == old(self).defined().insert(location),
            final(self).loaded() == old(self).loaded().insert(location, chunk),
            final(self).store() == old(self).store(),
    {
        let ghost before = self.loaded_chunks@;
        if self.position_of(location).is_none() {
            proof {
                lemma_push_no_duplicates(self.all_chunk_locations@, location);
            }
            self.all_chunk_locations.push(location);
        } else {
            proof {
                assert(self.defined() =~= old(self).defined().insert(location));
            }
        }
        self.loaded_chunks.insert(location.packed_key(), chunk);
        proof {
            self.lemma_key_frame(location);
            assert(self.loaded() =~= old(self).loaded().insert(location, chunk));
            assert(self.defined() == old(self).defined().insert(location));
            assert forall|l: ChunkLocation| #[trigger]
                self.loaded_chunks@.dom().contains(key_of(l)) implies self.all_chunk_locations@.contains(l) by {
                assert(self.defined().contains(l));
            }
        }
    }

    /// Undefines `location` and drops its chunk from memory, if there is one.
    pub fn remove_chunk_in_place(&mut self, location: ChunkLocation)
        requires
            old(self).wf(),
        ensures
            final(self).wf(),
            final(self).defined() == old(self).defined().remove(location),
            final(self).loaded() == old(self).loaded().remove(location),
            final(self).store() == old(self).store(),
    {
        match self.position_of(location) {
            Some(i) => {
                proof {
                    lemma_remove_no_duplicates(self.all_chunk_locations@, i as int);
                }
                self.all_chunk_locations.remove(i);
            },
            None => {
                proof {
                    assert(self.defined() =~= old(self).defined().remove(location));
                }
            },
        }
        self.loaded_chunks.remove(&location.packed_key());
        proof {
            self.lemma_key_frame(location);
            assert(self.loaded() =~= old(self).loaded().remove(location));
            assert forall|l: ChunkLocation| #[trigger]
                self.loaded_chunks@.dom().contains(key_of(l)) implies self.all_chunk_locations@.contains(l) by {
                assert(old(self).all_chunk_locations@.contains(l));
                assert(self.defined().contains(l));
            }
        }
    }

    /// Defines `location` without putting a chunk in memory: its chunk is kept
    /// by the persistence layer. A chunk already in memory stays there.
    pub fn define_chunk(&mut self, location: ChunkLocation)
        requires
            old(self).wf(),
        ensures
            final(self).wf(),
            final(self).defined() == old(self).defined().insert(location),
            final(self).loaded() == old(self).loaded(),
            final(self).store() == old(self).store(),
    {
        if self.position_of(location).is_none() {
            proof {
                lemma_push_no_duplicates(self.all_chunk_locations@, location);
            }
            self.all_chunk_locations.push(location);
            proof {
                assert forall|l: ChunkLocation| #[trigger]
                    self.loaded_chunks@.dom().contains(key_of(l)) implies self.all_chunk_locations@.contains(l) by {
                    assert(old(self).all_chunk_locations@.contains(l));
                    assert(self.defined().contains(l));
                }
            }
        } else {
            proof {
                assert(self.defined() =~= old(self).defined().insert(location));
            }
        }
        proof {
            assert(self.loaded() =~= old(self).loaded());
        }
    }

    /// Drops the chunk at `location` from memory and hands it back; the
    /// location stays defined, and a later load brings the chunk back.
    pub fn unload_chunk(&mut self, location: ChunkLocation) -> (r: Option<Chunk<T>>)
        requires
            old(self).wf(),
        ensures
            final(self).wf(),
            final(self).defined() == old(self).defined(),
            final(self).loaded() == old(self).loaded().remove(location),
            final(self).store() == old(self).store(),
            r == if old(self).loaded().dom().contains(location) {
                Some(old(self).loaded()[location])
            } else {
                None
            },
    {
        let r = self.loaded_chunks.remove(&location.packed_key());
        proof {
            self.lemma_key_frame(location);
            assert(self.loaded() =~= old(self).loaded().remove(location));
        }
        r
    }

    /// The chunk at `location` if it is in memory. A defined chunk that is not
    /// in memory gives `ChunkNotLoaded`: the caller loads it through
    /// `load_chunk` and asks again.
    pub fn get_chunk(&self, location: ChunkLocation) -> (r: Result<&Chunk<T>, WorldError>)
        requires
            self.wf(),
        ensures
            r is Ok <==> self.loaded().dom().contains(location),
            r is Ok ==> *r->Ok_0 == self.loaded()[location],
            r == Err::<&Chunk<T>, WorldError>(WorldError::UndefinedChunk) <==> !self.defined().contains(location),
            r == Err::<&Chunk<T>, WorldError>(WorldError::ChunkNotLoaded) <==> self.defined().contains(location)
                && !self.loaded().dom().contains(location),
    {
        if !self.chunk_defined(location) {
            proof {
                assert(!self.loaded_chunks@.dom().contains(key_of(location)));
            }
            return Err(WorldError::UndefinedChunk);
        }
        match self.loaded_chunks.get(&location.packed_key()) {
            Some(c) => Ok(c),
            None => Err(WorldError::ChunkNotLoaded),
        }
    }

    /// Puts in memory the chunk that the persistence layer produced for
    /// `location` (`None` where it failed). Only a defined chunk that is not in
    /// memory is loaded; a chunk already in memory is kept as it is.
    pub fn load_chunk(&mut self, location: ChunkLocation, fetched: Option<Chunk<T>>) -> (r: Result<(), WorldError>)
        requires
            old(self).wf(),
        ensures
            final(self).wf(),
            final(self).defined() == old(self).defined(),
            final(self).store() == old(self).store(),
            !old(self).defined().contains(location) ==> r == Err::<(), WorldError>(WorldError::UndefinedChunk)
                && final(self).loaded() == old(self).loaded(),
            old(self).defined().contains(location) && old(self).loaded().dom().contains(location) ==> r
                == Ok::<(), WorldError>(()) && final(self).loaded() == old(self).loaded(),
            old(self).defined().contains(location) && !old(self).loaded().dom().contains(location)
                && fetched is None ==> r == Err::<(), WorldError>(WorldError::PersistenceFailure)
                && final(self).loaded() == old(self).loaded(),
            old(self).defined().contains(location) && !old(self).loaded().dom().contains(location)
                && fetched is Some ==> r == Ok::<(), WorldError>(()) && final(self).loaded() == old(
                self,
            ).loaded().insert(location, fetched->0),
    {
        if !self.chunk_defined(location) {
            return Err(WorldError::UndefinedChunk);
        }
        if self.chunk_loaded(location) {
            return Ok(());
        }
        match fetched {
            None => Err(WorldError::PersistenceFailure),
            Some(chunk) => {
                self.loaded_chunks.insert(location.packed_key(), chunk);
                proof {
                    self.lemma_key_frame(location);
                    assert(self.loaded() =~= old(self).loaded().insert(location, chunk));
                    assert forall|l: ChunkLocation| #[trigger]
                        self.loaded_chunks@.dom().contains(key_of(l)) implies self.all_chunk_locations@.contains(
                        l,
                    ) by {
                        assert(self.defined().contains(l));
                    }
                }
                Ok(())
            },
        }
    }

    /// The chunk to hand to the persistence layer to bring the stored copy of
    /// `location` up to date. A chunk that is not in memory is no newer than
    /// its stored copy, and gives `ChunkNotLoaded`.
    pub fn sync_chunk(&self, location: ChunkLocation) -> (r: Result<&Chunk<T>, WorldError>)
        requires
            self.wf(),
        ensures
            r is Ok <==> self.loaded().dom().contains(location),
            r is Ok ==> *r->Ok_0 == self.loaded()[location],
            r == Err::<&Chunk<T>, WorldError>(WorldError::UndefinedChunk) <==> !self.defined().contains(location),
            r == Err::<&Chunk<T>, WorldError>(WorldError::ChunkNotLoaded) <==> self.defined().contains(location)
                && !self.loaded().dom().contains(location),
    {
        self.get_chunk(location)
    }

    /// The locations of all chunks in memory, each once, in the order they were
    /// defined: those a flush writes out.
    pub fn flush(&self) -> (r: Vec<ChunkLocation>)
        requires
            self.wf(),
        ensures
            r@.no_duplicates(),
            r@.to_set() == self.loaded().dom(),
            self.loaded().dom() == Set::<ChunkLocation>::empty() ==> r@.len() == 0,
    {
        let mut r: Vec<ChunkLocation> = Vec::new();
        let mut i: usize = 0;
        while i < self.all_chunk_locations.len()
            invariant
                self.wf(),
                i <= self.all_chunk_locations@.len(),
                r@.no_duplicates(),
                forall|x: ChunkLocation| #[trigger] r@.contains(x) <==> (exists|j: int|
                    0 <= j < i && self.all_chunk_locations@[j] == x) && self.loaded().dom().contains(x),
            decreases self.all_chunk_locations@.len() - i,
        {
            let location = self.all_chunk_locations[i];
            if self.chunk_loaded(location) {
                proof {
                    assert(!r@.contains(location)) by {
                        if r@.contains(location) {
                            let j = choose|j: int| 0 <= j < i && self.all_chunk_locations@[j] == location;
                            assert(self.all_chunk_locations@[i as int] == location);
                        }
                    }
                    lemma_push_no_duplicates(r@, location);
                }
                let ghost before = r@;
                r.push(location);
                proof {
                    assert forall|x: ChunkLocation| #[trigger] r@.contains(x) <==> (exists|j: int|
                        0 <= j < i + 1 && self.all_chunk_locations@[j] == x) && self.loaded().dom().contains(x) by {
                        crate::seq_lemmas::lemma_push_contains(before, location, x);
                        if x == location {
                            assert(self.all_chunk_locations@[i as int] == x);
                        }
                    }
                }
            } else {
                proof {
                    assert forall|x: ChunkLocation| #[trigger] r@.contains(x) <==> (exists|j: int|
                        0 <= j < i + 1 && self.all_chunk_locations@[j] == x) && self.loaded().dom().contains(x) by {
                        if (exists|j: int| 0 <= j < i + 1 && self.all_chunk_locations@[j] == x)
                            && self.loaded().dom().contains(x) {
                            let j = choose|j: int| 0 <= j < i + 1 && self.all_chunk_locations@[j] == x;
                            if j == i {
                                assert(x == location);
                            }
                        }
                    }
                }
            }
            i = i + 1;
        }
        proof {
            assert forall|x: ChunkLocation| self.loaded().dom().contains(x) implies #[trigger] r@.contains(x) by {
                assert(self.all_chunk_locations@.contains(x));
                let j = choose|j: int| 0 <= j < self.all_chunk_locations@.len() && self.all_chunk_locations@[j] == x;
            }
            assert(r@.to_set() =~= self.loaded().dom());
            if r@.len() > 0 {
                assert(r@.contains(r@[0]));
            }
        }
        r
    }

    /// The location of the chunk where a global location lies.
    pub fn get_chunk_location(location: GlobalLocation) -> (r: ChunkLocation)
        ensures
            r == chunk_location_of(location),
    {
        ChunkLocation {
            x: location.x / (CHUNK_X_SIZE as u32),
            y: location.y / (CHUNK_Y_SIZE as u32),
            z: location.z / (CHUNK_Z_SIZE as u32),
        }
    }

    /// The location of a global location inside its chunk.
    pub fn get_voxel_location(location: GlobalLocation) -> (r: VoxelLocation)
        ensures
            r == voxel_location_of(location),
            in_chunk(r),
    {
        VoxelLocation {
            x: location.x % (CHUNK_X_SIZE as u32),
            y: location.y % (CHUNK_Y_SIZE as u32),
            z: location.z % (CHUNK_Z_SIZE as u32),
        }
    }

    /// The voxel at a global location, if its chunk is in memory; errors as
    /// `get_chunk` on that chunk otherwise.
    pub fn get_voxel(&self, location: GlobalLocation) -> (r: Result<T, WorldError>)
        requires
            self.wf(),
        ensures
            r is Ok <==> self.voxel_loaded(location),
            r is Ok ==> r->Ok_0 == self.voxel_at(location),
            r == Err::<T, WorldError>(WorldError::UndefinedChunk) <==> !self.defined().contains(
                chunk_location_of(location),
            ),
            r == Err::<T, WorldError>(WorldError::ChunkNotLoaded) <==> self.defined().contains(
                chunk_location_of(location),
            ) && !self.loaded().dom().contains(chunk_location_of(location)),
    {
        match self.get_chunk(Self::get_chunk_location(location)) {
            Ok(chunk) => Ok(chunk.get(Self::get_voxel_location(location))),
            Err(e) => Err(e),
        }
    }

    /// A copy of the voxels of the cuboid `[start, end)`, read through
    /// `get_voxel`, or the error of the first voxel whose chunk is not in memory.
    pub fn get_volume(&self, start: GlobalLocation, end: GlobalLocation, fill: T) -> (r: Result<
        Volume<T>,
        WorldError,
    >)
        requires
            self.wf(),
            start.x <= end.x,
            start.y <= end.y,
            start.z <= end.z,
            (end.x - start.x) * (end.y - start.y) * (end.z - start.z) <= usize::MAX,
        ensures
            r is Ok <==> forall|l: GlobalLocation|
                start.x <= l.x < end.x && start.y <= l.y < end.y && start.z <= l.z < end.z
                    ==> #[trigger] self.voxel_loaded(l),
            match r {
                Ok(v) => {
                    &&& v.wf()
                    &&& v.start() == start
                    &&& v.end() == end
                    &&& forall|l: GlobalLocation|
                        #[trigger] v.in_bounds(l) ==> v.at(l) == self.voxel_at(l)
                },
                Err(e) => e == WorldError::UndefinedChunk || e == WorldError::ChunkNotLoaded,
            },
    {
        let mut v = Volume::new(start, end, fill);
        let n = v.len();
        let mut i: usize = 0;
        while i < n
            invariant
                self.wf(),
                v.wf(),
                v.start() == start,
                v.end() == end,
                n == v.cells().len(),
                i <= n,
                forall|j: int| 0 <= j < i ==> #[trigger] self.voxel_loaded(v.location_of(j)),
                forall|j: int|
                    0 <= j < i ==> v.at(#[trigger] v.location_of(j)) == self.voxel_at(v.location_of(j)),
            decreases n - i,
        {
            let l = v.get_location(i);
            match self.get_voxel(l) {
                Ok(value) => {
                    let ghost before = v;
                    v.set(l, value);
                    proof {
                        assert forall|j: int| 0 <= j < i + 1 implies #[trigger] self.voxel_loaded(
                            v.location_of(j),
                        ) by {
                            assert(v.location_of(j) == before.location_of(j));
                        }
                        assert forall|j: int| 0 <= j < i + 1 implies v.at(#[trigger] v.location_of(j))
                            == self.voxel_at(v.location_of(j)) by {
                            before.lemma_index_location_round_trip(j);
                            if j < i {
                                before.lemma_index_injective(before.location_of(j), l);
                            }
                        }
                    }
                },
                Err(e) => {
                    return Err(e);
                },
            }
            i = i + 1;
        }
        proof {
            assert forall|l: GlobalLocation| #[trigger]
                v.in_bounds(l) implies v.at(l) == self.voxel_at(l) && self.voxel_loaded(l) by {
                v.lemma_index_in_range(l);
                let j = v.index_of(l);
                v.lemma_index_location_round_trip(j);
                v.lemma_index_injective(v.location_of(j), l);
            }
            assert forall|l: GlobalLocation|
                start.x <= l.x < end.x && start.y <= l.y < end.y && start.z <= l.z < end.z
                    implies #[trigger] self.voxel_loaded(l) by {
                assert(v.in_bounds(l));
            }
        }
        Ok(v)
    }

    /// Where the world is stored, if anywhere.
    pub fn disk_cache(&self) -> (r: &Option<String>)
        ensures
            *r == self.store(),
    {
        &self.disk_cache
    }

    /// Sets where the world is stored.
    pub fn set_disk_cache(&mut self, disk_cache: Option<String>)
        requires
            old(self).wf(),
        ensures
            final(self).wf(),
            final(self).store() == disk_cache,
            final(self).defined() == old(self).defined(),
            final(self).loaded() == old(self).loaded(),
    {
        self.disk_cache = disk_cache;
        proof {
            assert(self.loaded() =~= old(self).loaded());
        }
    }
}

} // verus!
