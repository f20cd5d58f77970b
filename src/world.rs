//! The sparse world: chunks keyed by chunk coordinate, created on demand, and
//! the splice of a world coordinate into a chunk and a slot.
use vstd::prelude::*;
use crate::block::{Rgba, Spot};
use crate::chunk::{cached, mesh_upto, slot, Chunk, SIZE_I, VOLUME};

verus! {

/// Chunk coordinate of the voxel at `(x, y, z)`.
pub open spec fn key_of(x: int, y: int, z: int) -> (int, int, int) {
    (x / 16, y / 16, z / 16)
}

/// Slot, inside its chunk, of the voxel at `(x, y, z)`.
pub open spec fn slot_of(x: int, y: int, z: int) -> int {
    slot(x % 16, y % 16, z % 16)
}

/// A voxel is told apart from every other by its chunk coordinate and slot.
pub proof fn lemma_splice_injective(a: (int, int, int), b: (int, int, int))
    requires
        key_of(a.0, a.1, a.2) == key_of(b.0, b.1, b.2),
        slot_of(a.0, a.1, a.2) == slot_of(b.0, b.1, b.2),
    ensures
        a == b,
{
    assert(a.0 == 16 * (a.0 / 16) + a.0 % 16);
    assert(b.0 == 16 * (b.0 / 16) + b.0 % 16);
    assert(a.1 == 16 * (a.1 / 16) + a.1 % 16);
    assert(b.1 == 16 * (b.1 / 16) + b.1 % 16);
    assert(a.2 == 16 * (a.2 / 16) + a.2 % 16);
    assert(b.2 == 16 * (b.2 / 16) + b.2 % 16);
}

pub proof fn lemma_slot_in_range(x: int, y: int, z: int)
    ensures
        0 <= slot_of(x, y, z) < VOLUME,
{
}

/// Colour and texture pattern of the block in `s`, if it holds one.
pub open spec fn look_of(s: Option<Spot>) -> Option<(Rgba, usize)> {
    match s {
        Some(Spot::Rich(b)) => Some((b.color, b.pattern)),
        _ => None,
    }
}

/// Both absent, or both present with the same state and look.
pub open spec fn same_look_opt(a: Option<Spot>, b: Option<Spot>) -> bool {
    match (a, b) {
        (None, None) => true,
        (Some(s), Some(t)) => s.same_look(&t),
        _ => false,
    }
}

/// Both absent, or both present with the same state and, for blocks, the
/// same colour.
pub open spec fn same_color_opt(a: Option<Spot>, b: Option<Spot>) -> bool {
    match (a, b) {
        (None, None) => true,
        (Some(Spot::Empty), Some(Spot::Empty)) => true,
        (Some(Spot::Full), Some(Spot::Full)) => true,
        (Some(Spot::Rich(x)), Some(Spot::Rich(y))) => x.color == y.color,
        _ => false,
    }
}

/// The voxel in slot `j` of the chunk with coordinate `k`.
pub open spec fn cell_of_slot(k: (int, int, int), j: int) -> (int, int, int) {
    (16 * k.0 + j / 256, 16 * k.1 + (j / 16) % 16, 16 * k.2 + j % 16)
}

pub proof fn lemma_cell_of_slot(k: (int, int, int), j: int)
    requires
        0 <= j < VOLUME,
    ensures
        ({
            let c = cell_of_slot(k, j);
            key_of(c.0, c.1, c.2) == k && slot_of(c.0, c.1, c.2) == j
        }),
{
    let c = cell_of_slot(k, j);
    assert(0 <= j / 256 < 16);
    assert(j == 256 * (j / 256) + 16 * ((j / 16) % 16) + j % 16);
    assert(c.0 / 16 == k.0 && c.0 % 16 == j / 256) by {
        vstd::arithmetic::div_mod::lemma_fundamental_div_mod_converse(c.0, 16, k.0, j / 256);
    }
    assert(c.1 / 16 == k.1 && c.1 % 16 == (j / 16) % 16) by {
        vstd::arithmetic::div_mod::lemma_fundamental_div_mod_converse(c.1, 16, k.1, (j / 16) % 16);
    }
    assert(c.2 / 16 == k.2 && c.2 % 16 == j % 16) by {
        vstd::arithmetic::div_mod::lemma_fundamental_div_mod_converse(c.2, 16, k.2, j % 16);
    }
}

proof fn lemma_mesh_upto_quads(spots: Seq<Spot>, n: int)
    requires
        0 <= n <= spots.len(),
        forall|j: int| 0 <= j < n ==> #[trigger] cached(spots[j]).len() % 4 == 0,
    ensures
        mesh_upto(spots, n).len() % 4 == 0,
    decreases n,
{
    if n > 0 {
        lemma_mesh_upto_quads(spots, n - 1);
        assert(cached(spots[n - 1]).len() % 4 == 0);
    }
}

pub struct InfiniteWorld {
    pub chunks: Vec<Chunk>,
}

impl InfiniteWorld {
    pub open spec fn holds(&self, i: int, k: (int, int, int)) -> bool {
        0 <= i < self.chunks@.len() && self.chunks@[i].key() == k
    }

    /// Every chunk is complete and no two share a chunk coordinate.
    pub open spec fn wf(&self) -> bool {
        &&& forall|i: int| 0 <= i < self.chunks@.len() ==> #[trigger] self.chunks@[i].wf()
        &&& forall|i: int, j: int|
            0 <= i < self.chunks@.len() && 0 <= j < self.chunks@.len() && i != j
                ==> #[trigger] self.chunks@[i].key() != #[trigger] self.chunks@[j].key()
    }

    /// Index of the chunk with coordinate `k`, if there is one.
    pub open spec fn find(&self, k: (int, int, int)) -> Option<int> {
        if exists|i: int| self.holds(i, k) {
            Some(choose|i: int| self.holds(i, k))
        } else {
            None
        }
    }

    /// The state of voxel `(x, y, z)`; `None` where its chunk was never made.
    pub open spec fn spot(&self, x: int, y: int, z: int) -> Option<Spot> {
        match self.find(key_of(x, y, z)) {
            Some(i) => Some(self.chunks@[i].small@[slot_of(x, y, z)]),
            None => None,
        }
    }

    /// The voxel is known to be `Empty`.
    pub open spec fn is_open(&self, x: int, y: int, z: int) -> bool {
        match self.spot(x, y, z) {
            Some(Spot::Empty) => true,
            _ => false,
        }
    }

    /// The voxel exists and is not `Empty`: it stops movement.
    pub open spec fn is_solid(&self, x: int, y: int, z: int) -> bool {
        match self.spot(x, y, z) {
            Some(Spot::Empty) => false,
            Some(_) => true,
            None => false,
        }
    }

    /// Every voxel has the same state and look in both worlds; only cached
    /// surfaces may differ.
    pub open spec fn looks_like(&self, o: &InfiniteWorld) -> bool {
        forall|a: int, b: int, d: int| #[trigger]
            same_look_opt(self.spot(a, b, d), o.spot(a, b, d))
    }

    pub open spec fn same_openness(&self, o: &InfiniteWorld) -> bool {
        forall|a: int, b: int, d: int| #[trigger] self.is_open(a, b, d) == o.is_open(a, b, d)
    }

    /// `new` keeps the chunks of `self` in order with their meshes, appends
    /// fresh ones, and flags for rebuild the chunks that were flagged or whose
    /// coordinate is in `marked`; every appended chunk has its coordinate in
    /// `marked`.
    pub open spec fn kept_in(&self, new: &InfiniteWorld, marked: Set<(int, int, int)>) -> bool {
        &&& self.chunks@.len() <= new.chunks@.len()
        &&& forall|i: int|
            0 <= i < self.chunks@.len() ==> {
                &&& (#[trigger] new.chunks@[i]).key() == self.chunks@[i].key()
                &&& new.chunks@[i].mesh == self.chunks@[i].mesh
                &&& new.chunks@[i].request == (self.chunks@[i].request || marked.contains(
                    self.chunks@[i].key(),
                ))
            }
        &&& forall|i: int|
            self.chunks@.len() <= i < new.chunks@.len() ==> {
                &&& (#[trigger] new.chunks@[i]).request
                &&& new.chunks@[i].mesh@.len() == 0
                &&& marked.contains(new.chunks@[i].key())
            }
    }

    /// The block at `(a, b, c)`, if any, caches whole quads.
    pub open spec fn cell_quads(&self, a: int, b: int, c: int) -> bool {
        self.spot(a, b, c) matches Some(Spot::Rich(bl)) ==> bl.vertices@.len() % 4 == 0
    }

    /// Every chunk mesh is made of whole quads.
    pub open spec fn mesh_quads(&self) -> bool {
        forall|i: int| 0 <= i < self.chunks@.len() ==> (#[trigger] self.chunks@[i]).mesh@.len() % 4 == 0
    }

    /// Every cached block surface and chunk mesh is made of whole quads.
    pub open spec fn quads(&self) -> bool {
        &&& forall|a: int, b: int, c: int| #[trigger] self.cell_quads(a, b, c)
        &&& self.mesh_quads()
    }

    pub proof fn lemma_kept_mesh_quads(&self, new: &InfiniteWorld, marked: Set<(int, int, int)>)
        requires
            self.mesh_quads(),
            self.kept_in(new, marked),
        ensures
            new.mesh_quads(),
    {
        assert forall|i: int| 0 <= i < new.chunks@.len() implies (#[trigger] new.chunks@[i]).mesh@.len() % 4
            == 0 by {
            if i < self.chunks@.len() {
                assert(self.chunks@[i].mesh@.len() % 4 == 0);
            }
        }
    }

    /// In a world of whole quads, every chunk's blocks together cache whole
    /// quads.
    pub proof fn lemma_chunk_quads(&self, i: int)
        requires
            self.wf(),
            self.quads(),
            0 <= i < self.chunks@.len(),
        ensures
            self.chunks@[i].surface().len() % 4 == 0,
    {
        let k = self.chunks@[i].key();
        self.lemma_find(i, k);
        assert(self.chunks@[i].wf());
        assert forall|j: int| 0 <= j < VOLUME implies #[trigger] cached(self.chunks@[i].small@[j]).len() % 4 == 0 by {
            lemma_cell_of_slot(k, j);
            let c = cell_of_slot(k, j);
            assert(self.cell_quads(c.0, c.1, c.2));
        }
        lemma_mesh_upto_quads(self.chunks@[i].small@, VOLUME as int);
    }

    pub proof fn lemma_kept_trans(
        &self,
        mid: &InfiniteWorld,
        new: &InfiniteWorld,
        m1: Set<(int, int, int)>,
        m2: Set<(int, int, int)>,
    )
        requires
            self.kept_in(mid, m1),
            mid.kept_in(new, m2),
        ensures
            self.kept_in(new, m1 + m2),
    {
        assert forall|i: int| self.chunks@.len() <= i < new.chunks@.len() implies {
            &&& (#[trigger] new.chunks@[i]).request
            &&& new.chunks@[i].mesh@.len() == 0
            &&& (m1 + m2).contains(new.chunks@[i].key())
        } by {
            if i < mid.chunks@.len() {
                assert(mid.chunks@[i].request);
            }
        }
    }

    pub proof fn lemma_find(&self, i: int, k: (int, int, int))
        requires
            self.wf(),
            self.holds(i, k),
        ensures
            self.find(k) == Some(i),
    {
        let j = choose|j: int| self.holds(j, k);
        assert(self.holds(j, k));
        if j != i {
            assert(self.chunks@[i].key() != self.chunks@[j].key());
        }
    }

    pub proof fn lemma_find_holds(&self, k: (int, int, int))
        requires
            self.find(k) is Some,
        ensures
            self.holds(self.find(k)->Some_0, k),
    {
    }

    /// Two worlds whose chunks carry the same coordinates and contents hold
    /// the same voxels.
    pub proof fn lemma_same_cells(&self, other: &InfiniteWorld)
        requires
            self.wf(),
            self.chunks@.len() == other.chunks@.len(),
            forall|i: int|
                0 <= i < self.chunks@.len() ==> (#[trigger] other.chunks@[i]).key()
                    == self.chunks@[i].key() && other.chunks@[i].small@ == self.chunks@[i].small@,
        ensures
            other.wf(),
            forall|x: int, y: int, z: int| #[trigger] other.spot(x, y, z) == self.spot(x, y, z),
    {
        assert forall|i: int| 0 <= i < other.chunks@.len() implies #[trigger] other.chunks@[i].wf() by {
            assert(self.chunks@[i].wf());
            assert(other.chunks@[i].small@ == self.chunks@[i].small@);
        }
        assert forall|i: int, j: int|
            0 <= i < other.chunks@.len() && 0 <= j < other.chunks@.len() && i != j
                implies #[trigger] other.chunks@[i].key() != #[trigger] other.chunks@[j].key() by {
            assert(self.chunks@[i].key() != self.chunks@[j].key());
        }
        assert forall|x: int, y: int, z: int| #[trigger] other.spot(x, y, z) == self.spot(x, y, z) by {
            let k = key_of(x, y, z);
            if self.find(k) is Some {
                let i = self.find(k)->Some_0;
                other.lemma_find(i, k);
            } else if other.find(k) is Some {
                let i = other.find(k)->Some_0;
                assert(self.holds(i, k));
            }
        }
    }

    /// Chunks at the same coordinate whose voxels all agree hold the same
    /// storage.
    pub proof fn lemma_same_small(&self, other: &InfiniteWorld, i: int, j: int)
        requires
            self.wf(),
            other.wf(),
            0 <= i < self.chunks@.len(),
            0 <= j < other.chunks@.len(),
            other.chunks@[j].key() == self.chunks@[i].key(),
            forall|a: int, b: int, c: int|
                key_of(a, b, c) == self.chunks@[i].key() ==> #[trigger] other.spot(a, b, c) == self.spot(a, b, c),
        ensures
            other.chunks@[j].small@ == self.chunks@[i].small@,
    {
        let k = self.chunks@[i].key();
        self.lemma_find(i, k);
        other.lemma_find(j, k);
        assert(self.chunks@[i].wf());
        assert(other.chunks@[j].wf());
        assert forall|s: int| 0 <= s < VOLUME implies other.chunks@[j].small@[s] == self.chunks@[i].small@[s] by {
            lemma_cell_of_slot(k, s);
            let c = cell_of_slot(k, s);
            assert(other.spot(c.0, c.1, c.2) == self.spot(c.0, c.1, c.2));
        }
        assert(other.chunks@[j].small@ =~= self.chunks@[i].small@);
    }

    pub fn new_full() -> (w: InfiniteWorld)
        ensures
            w.wf(),
            w.chunks@.len() == 0,
            forall|x: int, y: int, z: int| #[trigger] w.spot(x, y, z) is None,
    {
        InfiniteWorld { chunks: Vec::new() }
    }

    fn find_chunk(&self, x: i32, y: i32, z: i32) -> (r: Option<usize>)
        requires
            self.wf(),
        ensures
            r matches Some(i) ==> self.find((x as int, y as int, z as int)) == Some(i as int),
            r is None ==> self.find((x as int, y as int, z as int)) is None,
    {
        let ghost k = (x as int, y as int, z as int);
        let mut i: usize = 0;
        while i < self.chunks.len()
            invariant
                self.wf(),
                k == (x as int, y as int, z as int),
                i <= self.chunks@.len(),
                forall|j: int| 0 <= j < i ==> !self.holds(j, k),
            decreases self.chunks@.len() - i,
        {
            if self.chunks[i].key_is(x, y, z) {
                proof {
                    self.lemma_find(i as int, k);
                }
                return Some(i);
            }
            i += 1;
        }
        None
    }

    pub fn get_chunk(&self, x: i32, y: i32, z: i32) -> (r: Option<&Chunk>)
        requires
            self.wf(),
        ensures
            r matches Some(c) ==> self.find((x as int, y as int, z as int)) matches Some(i)
                && *c == self.chunks@[i],
            r is None ==> self.find((x as int, y as int, z as int)) is None,
    {
        match self.find_chunk(x, y, z) {
            Some(i) => Some(&self.chunks[i]),
            None => None,
        }
    }

    /// Index of the chunk with coordinate `(x, y, z)`, made fresh if missing.
    fn chunk_index(&mut self, x: i32, y: i32, z: i32) -> (i: usize)
        requires
            old(self).wf(),
        ensures
            final(self).wf(),
            final(self).holds(i as int, (x as int, y as int, z as int)),
            old(self).find((x as int, y as int, z as int)) is Some ==> final(self).chunks@ == old(
                self,
            ).chunks@,
            old(self).find((x as int, y as int, z as int)) is None ==> {
                &&& final(self).chunks@.len() == old(self).chunks@.len() + 1
                &&& final(self).chunks@.drop_last() == old(self).chunks@
                &&& final(self).chunks@.last().is_fresh((x as int, y as int, z as int))
            },
    {
        match self.find_chunk(x, y, z) {
            Some(i) => {
                proof {
                    self.lemma_find_holds((x as int, y as int, z as int));
                }
                i
            },
            None => {
                let ghost k = (x as int, y as int, z as int);
                let c = Chunk::new_full(x, y, z);
                let ghost before = self.chunks@;
                self.chunks.push(c);
                proof {
                    assert(self.chunks@.drop_last() =~= before);
                    assert forall|i: int, j: int|
                        0 <= i < self.chunks@.len() && 0 <= j < self.chunks@.len() && i != j
                            implies #[trigger] self.chunks@[i].key()
                            != #[trigger] self.chunks@[j].key() by {
                        if i < before.len() && j < before.len() {
                            assert(before[i] == self.chunks@[i]);
                            assert(before[j] == self.chunks@[j]);
                        } else if i < before.len() {
                            assert(!old(self).holds(i, k));
                        } else {
                            assert(!old(self).holds(j, k));
                        }
                    }
                }
                self.chunks.len() - 1
            },
        }
    }

    /// The chunk with coordinate `(x, y, z)`, made fresh if missing.
    pub fn get_chunk_mut(&mut self, x: i32, y: i32, z: i32) -> (c: &mut Chunk)
        requires
            old(self).wf(),
        ensures
            c.key() == (x as int, y as int, z as int),
            old(self).find((x as int, y as int, z as int)) matches Some(i) ==> {
                &&& *c == old(self).chunks@[i]
                &&& final(self).chunks@ == old(self).chunks@.update(i, *final(c))
            },
            old(self).find((x as int, y as int, z as int)) is None ==> {
                &&& c.is_fresh((x as int, y as int, z as int))
                &&& final(self).chunks@ == old(self).chunks@.push(*final(c))
            },
    {
        let i = self.chunk_index(x, y, z);
        proof {
            if old(self).find((x as int, y as int, z as int)) is Some {
                self.lemma_find(i as int, (x as int, y as int, z as int));
                old(self).lemma_find_holds((x as int, y as int, z as int));
                self.lemma_find(old(self).find((x as int, y as int, z as int))->Some_0, (x as int, y as int, z as int));
            } else {
                assert(self.chunks@.drop_last() == old(self).chunks@);
            }
        }
        let ghost mid = self.chunks@;
        let r = &mut self.chunks[i];
        proof {
            if old(self).find((x as int, y as int, z as int)) is None {
                assert(mid.drop_last().push(*final(r)) =~= mid.update(i as int, *final(r)));
            }
        }
        r
    }

    /// Chunk index and slot of voxel `(x, y, z)`, if its chunk exists.
    pub fn splice(&self, x: i32, y: i32, z: i32) -> (r: Option<(usize, usize)>)
        requires
            self.wf(),
        ensures
            r matches Some((i, j)) ==> self.find(key_of(x as int, y as int, z as int)) == Some(
                i as int,
            ) && j as int == slot_of(x as int, y as int, z as int),
            r is None ==> self.find(key_of(x as int, y as int, z as int)) is None,
    {
        let (bx, sx) = split(x);
        let (by, sy) = split(y);
        let (bz, sz) = split(z);
        match self.find_chunk(bx, by, bz) {
            Some(i) => Some((i, sx * 256 + sy * 16 + sz)),
            None => None,
        }
    }

    /// Chunk index and slot of voxel `(x, y, z)`; its chunk is made fresh if
    /// missing and is flagged for rebuild.
    pub fn splice_mut(&mut self, x: i32, y: i32, z: i32) -> (r: (usize, usize))
        requires
            old(self).wf(),
        ensures
            final(self).wf(),
            final(self).find(key_of(x as int, y as int, z as int)) == Some(r.0 as int),
            r.1 as int == slot_of(x as int, y as int, z as int),
            final(self).chunks@[r.0 as int].request,
            old(self).kept_in(&*final(self), set![key_of(x as int, y as int, z as int)]),
            old(self).chunks@.len() <= final(self).chunks@.len() <= old(self).chunks@.len() + 1,
            forall|i: int|
                0 <= i < old(self).chunks@.len() && i != r.0 ==> #[trigger] final(self).chunks@[i]
                    == old(self).chunks@[i],
            forall|i: int|
                old(self).chunks@.len() <= i < final(self).chunks@.len() ==> i == r.0
                    && #[trigger] final(self).chunks@[i].is_fresh(
                    key_of(x as int, y as int, z as int),
                ),
            r.0 < old(self).chunks@.len() ==> {
                &&& final(self).chunks@[r.0 as int].small == old(self).chunks@[r.0 as int].small
                &&& final(self).chunks@[r.0 as int].bigpos == old(self).chunks@[r.0 as int].bigpos
                &&& final(self).chunks@[r.0 as int].mesh == old(self).chunks@[r.0 as int].mesh
            },
            forall|a: int, b: int, c: int|
                #[trigger] final(self).spot(a, b, c) == if old(self).spot(a, b, c) is None
                    && key_of(a, b, c) == key_of(x as int, y as int, z as int) {
                    Some(Spot::Full)
                } else {
                    old(self).spot(a, b, c)
                },
    {
        let (bx, sx) = split(x);
        let (by, sy) = split(y);
        let (bz, sz) = split(z);
        let ghost k = (bx as int, by as int, bz as int);
        let i = self.chunk_index(bx, by, bz);
        let ghost mid = *self;
        self.chunks[i].update();
        proof {
            let ghost fin = *self;
            mid.lemma_same_cells(&fin);
            fin.lemma_find(i as int, k);
            assert forall|a: int, b: int, c: int|
                #[trigger] fin.spot(a, b, c) == if old(self).spot(a, b, c) is None && key_of(a, b, c)
                    == k {
                    Some(Spot::Full)
                } else {
                    old(self).spot(a, b, c)
                } by {
                assert(fin.spot(a, b, c) == mid.spot(a, b, c));
                let ka = key_of(a, b, c);
                if old(self).find(ka) is Some {
                    let m = old(self).find(ka)->Some_0;
                    old(self).lemma_find_holds(ka);
                    assert(mid.holds(m, ka));
                    mid.lemma_find(m, ka);
                } else if ka == k {
                    mid.lemma_find(i as int, k);
                    lemma_slot_in_range(a, b, c);
                } else {
                    if mid.find(ka) is Some {
                        let m = mid.find(ka)->Some_0;
                        mid.lemma_find_holds(ka);
                        if m < old(self).chunks@.len() {
                            assert(old(self).holds(m, ka));
                        }
                    }
                }
            }
            let marked = set![k];
            assert forall|m: int| 0 <= m < old(self).chunks@.len() implies {
                &&& (#[trigger] fin.chunks@[m]).key() == old(self).chunks@[m].key()
                &&& fin.chunks@[m].mesh == old(self).chunks@[m].mesh
                &&& fin.chunks@[m].request == (old(self).chunks@[m].request || marked.contains(
                    old(self).chunks@[m].key(),
                ))
            } by {
                if m != i && old(self).chunks@[m].key() == k {
                    assert(fin.holds(m, k));
                    fin.lemma_find(m, k);
                }
            }
            assert forall|m: int| old(self).chunks@.len() <= m < fin.chunks@.len() implies {
                &&& (#[trigger] fin.chunks@[m]).request
                &&& fin.chunks@[m].mesh@.len() == 0
                &&& marked.contains(fin.chunks@[m].key())
            } by {
                assert(mid.chunks@[m].is_fresh(k));
            }
        }
        (i, sx * 256 + sy * 16 + sz)
    }

    pub fn at(&self, x: i32, y: i32, z: i32) -> (r: Option<&Spot>)
        requires
            self.wf(),
        ensures
            r matches Some(s) ==> self.spot(x as int, y as int, z as int) == Some(*s),
            r is None ==> self.spot(x as int, y as int, z as int) is None,
    {
        match self.splice(x, y, z) {
            Some((i, j)) => {
                proof {
                    lemma_slot_in_range(x as int, y as int, z as int);
                    assert(self.chunks@[i as int].wf());
                }
                Some(&self.chunks[i].small[j])
            },
            None => None,
        }
    }

    /// Flags the chunk holding `(x, y, z)` for rebuild, if it exists, and
    /// tells whether it does.
    pub fn at_update(&mut self, x: i32, y: i32, z: i32) -> (found: bool)
        requires
            old(self).wf(),
        ensures
            found == (old(self).spot(x as int, y as int, z as int) is Some),
            final(self).wf(),
            final(self).chunks@.len() == old(self).chunks@.len(),
            forall|i: int|
                0 <= i < old(self).chunks@.len() ==> {
                    &&& (#[trigger] final(self).chunks@[i]).small == old(self).chunks@[i].small
                    &&& final(self).chunks@[i].bigpos == old(self).chunks@[i].bigpos
                    &&& final(self).chunks@[i].mesh == old(self).chunks@[i].mesh
                    &&& final(self).chunks@[i].request == (old(self).chunks@[i].request
                        || old(self).chunks@[i].key() == key_of(x as int, y as int, z as int))
                },
            forall|a: int, b: int, c: int| #[trigger]
                final(self).spot(a, b, c) == old(self).spot(a, b, c),
    {
        match self.splice(x, y, z) {
            Some((i, _)) => {
                self.chunks[i].update();
                proof {
                    old(self).lemma_same_cells(self);
                    old(self).lemma_find_holds(key_of(x as int, y as int, z as int));
                }
                true
            },
            None => {
                proof {
                    old(self).lemma_same_cells(self);
                    assert forall|i: int| 0 <= i < old(self).chunks@.len() implies #[trigger] old(
                        self,
                    ).chunks@[i].key() != key_of(x as int, y as int, z as int) by {
                        assert(!old(self).holds(i, key_of(x as int, y as int, z as int)));
                    }
                }
                false
            },
        }
    }

    /// Two worlds whose chunks carry the same coordinates, in the same order,
    /// find each coordinate at the same index.
    pub proof fn lemma_same_keys(&self, other: &InfiniteWorld)
        requires
            self.wf(),
            other.wf(),
            self.chunks@.len() == other.chunks@.len(),
            forall|i: int|
                0 <= i < self.chunks@.len() ==> (#[trigger] other.chunks@[i]).key()
                    == self.chunks@[i].key(),
        ensures
            forall|k: (int, int, int)| #[trigger] other.find(k) == self.find(k),
    {
        assert forall|k: (int, int, int)| #[trigger] other.find(k) == self.find(k) by {
            if self.find(k) is Some {
                let i = self.find(k)->Some_0;
                other.lemma_find(i, k);
            } else if other.find(k) is Some {
                let i = other.find(k)->Some_0;
                assert(self.holds(i, k));
            }
        }
    }

    /// Puts `s` in chunk `i`, slot `j`, which hold voxel `c`, and returns what
    /// was there.
    pub(crate) fn replace(&mut self, i: usize, j: usize, s: Spot, Ghost(c): Ghost<(int, int, int)>) -> (prev: Spot)
        requires
            old(self).wf(),
            old(self).find(key_of(c.0, c.1, c.2)) == Some(i as int),
            j as int == slot_of(c.0, c.1, c.2),
        ensures
            final(self).wf(),
            old(self).spot(c.0, c.1, c.2) == Some(prev),
            forall|a: int, b: int, d: int| #[trigger]
                final(self).spot(a, b, d) == if (a, b, d) == c {
                    Some(s)
                } else {
                    old(self).spot(a, b, d)
                },
            final(self).chunks@.len() == old(self).chunks@.len(),
            forall|m: int|
                0 <= m < old(self).chunks@.len() ==> {
                    &&& (#[trigger] final(self).chunks@[m]).bigpos == old(self).chunks@[m].bigpos
                    &&& final(self).chunks@[m].request == old(self).chunks@[m].request
                    &&& final(self).chunks@[m].mesh == old(self).chunks@[m].mesh
                    &&& m != i ==> final(self).chunks@[m] == old(self).chunks@[m]
                },
            final(self).chunks@[i as int].small@ == old(self).chunks@[i as int].small@.update(
                j as int,
                s,
            ),
            forall|k: (int, int, int)| #[trigger] final(self).find(k) == old(self).find(k),
            old(self).kept_in(&*final(self), Set::empty()),
    {
        proof {
            old(self).lemma_find_holds(key_of(c.0, c.1, c.2));
            assert(self.chunks@[i as int].wf());
            lemma_slot_in_range(c.0, c.1, c.2);
        }
        let mut taken = s;
        std::mem::swap(&mut self.chunks[i].small[j], &mut taken);
        proof {
            let w = *self;
            assert forall|m: int| 0 <= m < w.chunks@.len() implies #[trigger] w.chunks@[m].wf() by {
                assert(old(self).chunks@[m].wf());
            }
            assert forall|m: int, n: int|
                0 <= m < w.chunks@.len() && 0 <= n < w.chunks@.len() && m != n
                    implies #[trigger] w.chunks@[m].key() != #[trigger] w.chunks@[n].key() by {
                assert(old(self).chunks@[m].key() != old(self).chunks@[n].key());
            }
            old(self).lemma_same_keys(&w);
            assert forall|a: int, b: int, d: int| #[trigger]
                w.spot(a, b, d) == if (a, b, d) == c {
                    Some(s)
                } else {
                    old(self).spot(a, b, d)
                } by {
                if (a, b, d) != c && w.find(key_of(a, b, d)) == Some(i as int) && slot_of(a, b, d) == j {
                    lemma_splice_injective((a, b, d), c);
                }
            }
        }
        taken
    }

    /// A voxel of the box from `lo` to `hi` (inclusive) that stops movement,
    /// if there is one; the box is scanned by `x`, then `y`, then `z`.
    pub fn solid_in(&self, lo: (i32, i32, i32), hi: (i32, i32, i32)) -> (r: Option<(i32, i32, i32)>)
        requires
            self.wf(),
            hi.0 < i32::MAX,
            hi.1 < i32::MAX,
            hi.2 < i32::MAX,
        ensures
            r is None <==> forall|a: int, b: int, c: int|
                lo.0 <= a <= hi.0 && lo.1 <= b <= hi.1 && lo.2 <= c <= hi.2 ==> !#[trigger] self.is_solid(
                    a,
                    b,
                    c,
                ),
            r matches Some(p) ==> lo.0 <= p.0 <= hi.0 && lo.1 <= p.1 <= hi.1 && lo.2 <= p.2 <= hi.2
                && self.is_solid(p.0 as int, p.1 as int, p.2 as int),
    {
        let mut x = lo.0;
        while x <= hi.0
            invariant
                self.wf(),
                hi.0 < i32::MAX,
                hi.1 < i32::MAX,
                hi.2 < i32::MAX,
                lo.0 <= x,
                x <= hi.0 + 1 || x == lo.0,
                forall|a: int, b: int, c: int|
                    lo.0 <= a < x && lo.1 <= b <= hi.1 && lo.2 <= c <= hi.2 ==> !#[trigger] self.is_solid(
                        a,
                        b,
                        c,
                    ),
            decreases hi.0 + 1 - x,
        {
            let mut y = lo.1;
            while y <= hi.1
                invariant
                    self.wf(),
                    hi.0 < i32::MAX,
                    hi.1 < i32::MAX,
                    hi.2 < i32::MAX,
                    lo.0 <= x <= hi.0,
                    lo.1 <= y,
                    y <= hi.1 + 1 || y == lo.1,
                    forall|a: int, b: int, c: int|
                        lo.0 <= a < x && lo.1 <= b <= hi.1 && lo.2 <= c <= hi.2 ==> !#[trigger] self.is_solid(
                            a,
                            b,
                            c,
                        ),
                    forall|b: int, c: int|
                        lo.1 <= b < y && lo.2 <= c <= hi.2 ==> !#[trigger] self.is_solid(x as int, b, c),
                decreases hi.1 + 1 - y,
            {
                let mut z = lo.2;
                while z <= hi.2
                    invariant
                        self.wf(),
                        hi.0 < i32::MAX,
                        hi.1 < i32::MAX,
                        hi.2 < i32::MAX,
                        lo.0 <= x <= hi.0,
                        lo.1 <= y <= hi.1,
                        lo.2 <= z,
                        z <= hi.2 + 1 || z == lo.2,
                        forall|a: int, b: int, c: int|
                            lo.0 <= a < x && lo.1 <= b <= hi.1 && lo.2 <= c <= hi.2 ==> !#[trigger] self.is_solid(
                                a,
                                b,
                                c,
                            ),
                        forall|b: int, c: int|
                            lo.1 <= b < y && lo.2 <= c <= hi.2 ==> !#[trigger] self.is_solid(x as int, b, c),
                        forall|c: int| lo.2 <= c < z ==> !#[trigger] self.is_solid(x as int, y as int, c),
                    decreases hi.2 + 1 - z,
                {
                    let solid = match self.at(x, y, z) {
                        Some(Spot::Empty) => false,
                        Some(_) => true,
                        None => false,
                    };
                    if solid {
                        assert(self.is_solid(x as int, y as int, z as int));
                        return Some((x, y, z));
                    }
                    z += 1;
                }
                y += 1;
            }
            x += 1;
        }
        None
    }

    pub fn chunks(&self) -> (r: &Vec<Chunk>)
        ensures
            r@ == self.chunks@,
    {
        &self.chunks
    }
}

/// Chunk coordinate and in-chunk offset of a world coordinate.
fn split(x: i32) -> (r: (i32, usize))
    ensures
        r.0 as int == x as int / 16,
        r.1 as int == x as int % 16,
        r.1 < 16,
{
    let q = match x.checked_div_euclid(SIZE_I) {
        Some(q) => q,
        None => 0,
    };
    let m = match x.checked_rem_euclid(SIZE_I) {
        Some(m) => m,
        None => 0,
    };
    (q, m as usize)
}

} // verus!
