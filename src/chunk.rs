//! A dense cubic tile of voxels with a rebuild flag and its cached mesh.
use vstd::prelude::*;
use crate::block::{Block, Spot, Vertex};

verus! {

/// Edge length of a chunk, in voxels.
pub const SIZE_I: i32 = 16;
/// Edge length of a chunk, in voxels.
pub const SIZE_U: usize = 16;
/// Number of voxels in a chunk.
pub const VOLUME: usize = 4096;

/// Position in a chunk's storage of the voxel at local coordinates.
pub open spec fn slot(x: int, y: int, z: int) -> int {
    x * 256 + y * 16 + z
}

/// What a spot contributes to its chunk's mesh: a block's cached surface.
pub open spec fn cached(s: Spot) -> Seq<Vertex> {
    match s {
        Spot::Rich(b) => b.vertices@,
        _ => Seq::empty(),
    }
}

/// The cached surfaces of the first `n` spots, concatenated in storage order.
pub open spec fn mesh_upto(spots: Seq<Spot>, n: int) -> Seq<Vertex>
    decreases n,
{
    if n <= 0 {
        Seq::empty()
    } else {
        mesh_upto(spots, n - 1) + cached(spots[n - 1])
    }
}

pub struct Chunk {
    /// Chunk coordinate: the world coordinate of its voxels divided by the size.
    pub bigpos: [i32; 3],
    pub small: Vec<Spot>,
    /// Set when the chunk's mesh must be rebuilt.
    pub request: bool,
    /// The mesh last built for this chunk.
    pub mesh: Vec<Vertex>,
}

impl Chunk {
    pub open spec fn wf(&self) -> bool {
        self.small@.len() == VOLUME
    }

    pub open spec fn key(&self) -> (int, int, int) {
        (self.bigpos[0] as int, self.bigpos[1] as int, self.bigpos[2] as int)
    }

    /// The concatenation of the cached surfaces of the chunk's blocks.
    pub open spec fn surface(&self) -> Seq<Vertex> {
        mesh_upto(self.small@, VOLUME as int)
    }

    /// A fresh chunk: all `Full`, flagged for rebuild, with no mesh.
    pub open spec fn is_fresh(&self, k: (int, int, int)) -> bool {
        &&& self.wf()
        &&& self.key() == k
        &&& forall|j: int| 0 <= j < VOLUME ==> #[trigger] self.small@[j] is Full
        &&& self.request
        &&& self.mesh@.len() == 0
    }

    pub fn new_full(x: i32, y: i32, z: i32) -> (c: Chunk)
        ensures
            c.is_fresh((x as int, y as int, z as int)),
    {
        let mut small: Vec<Spot> = Vec::new();
        let mut i: usize = 0;
        while i < VOLUME
            invariant
                i <= VOLUME,
                small@.len() == i,
                forall|j: int| 0 <= j < i ==> #[trigger] small@[j] is Full,
            decreases VOLUME - i,
        {
            small.push(Spot::Full);
            i += 1;
        }
        Chunk { bigpos: [x, y, z], small, request: true, mesh: Vec::new() }
    }

    pub fn key_is(&self, x: i32, y: i32, z: i32) -> (r: bool)
        ensures
            r == (self.key() == (x as int, y as int, z as int)),
    {
        self.bigpos[0] == x && self.bigpos[1] == y && self.bigpos[2] == z
    }

    pub fn at(&self, x: usize, y: usize, z: usize) -> (s: &Spot)
        requires
            self.wf(),
            x < SIZE_U,
            y < SIZE_U,
            z < SIZE_U,
        ensures
            *s == self.small@[slot(x as int, y as int, z as int)],
    {
        &self.small[x * 256 + y * 16 + z]
    }

    pub fn put(&mut self, x: usize, y: usize, z: usize, b: Block)
        requires
            old(self).wf(),
            x < SIZE_U,
            y < SIZE_U,
            z < SIZE_U,
        ensures
            final(self).small@ == old(self).small@.update(
                slot(x as int, y as int, z as int),
                Spot::Rich(Box::new(b)),
            ),
            final(self).bigpos == old(self).bigpos,
            final(self).request == old(self).request,
            final(self).mesh == old(self).mesh,
    {
        self.small[x * 256 + y * 16 + z] = Spot::Rich(Box::new(b));
    }

    pub fn yank(&mut self, x: usize, y: usize, z: usize) -> (r: Option<Block>)
        requires
            old(self).wf(),
            x < SIZE_U,
            y < SIZE_U,
            z < SIZE_U,
        ensures
            ({
                let j = slot(x as int, y as int, z as int);
                match old(self).small@[j] {
                    Spot::Rich(b) => r == Some(*b) && final(self).small@ == old(
                        self,
                    ).small@.update(j, Spot::Empty),
                    _ => r is None && final(self).small@ == old(self).small@,
                }
            }),
            final(self).bigpos == old(self).bigpos,
            final(self).request == old(self).request,
            final(self).mesh == old(self).mesh,
    {
        let j = x * 256 + y * 16 + z;
        let mut taken = Spot::Empty;
        std::mem::swap(&mut self.small[j], &mut taken);
        match taken {
            Spot::Rich(b) => Some(*b),
            other => {
                self.small[j] = other;
                None
            },
        }
    }

    /// Flags the chunk for rebuild.
    pub fn update(&mut self)
        ensures
            final(self).request,
            final(self).small == old(self).small,
            final(self).bigpos == old(self).bigpos,
            final(self).mesh == old(self).mesh,
    {
        self.request = true;
    }

    /// Concatenates the cached surfaces of the chunk's blocks, in storage order.
    pub fn build_surface(&self) -> (v: Vec<Vertex>)
        requires
            self.wf(),
        ensures
            v@ == self.surface(),
    {
        let mut vertices: Vec<Vertex> = Vec::new();
        let mut j: usize = 0;
        while j < VOLUME
            invariant
                self.wf(),
                j <= VOLUME,
                vertices@ == mesh_upto(self.small@, j as int),
            decreases VOLUME - j,
        {
            if let Spot::Rich(b) = &self.small[j] {
                let n = b.vertices.len();
                let ghost before = vertices@;
                let mut k: usize = 0;
                while k < n
                    invariant
                        k <= n,
                        n == b.vertices@.len(),
                        vertices@ == before + b.vertices@.subrange(0, k as int),
                    decreases n - k,
                {
                    vertices.push(b.vertices[k]);
                    k += 1;
                    assert(b.vertices@.subrange(0, k as int) =~= b.vertices@.subrange(
                        0,
                        k - 1,
                    ).push(b.vertices@[k - 1]));
                }
                assert(b.vertices@.subrange(0, n as int) =~= b.vertices@);
            } else {
                assert(cached(self.small@[j as int]) =~= Seq::<Vertex>::empty());
                assert(vertices@ + Seq::<Vertex>::empty() =~= vertices@);
            }
            j += 1;
        }
        vertices
    }
}

} // verus!
