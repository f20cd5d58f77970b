//! Voxel contents: the three states of a cell and the block that a solid,
//! generated cell holds.
use vstd::prelude::*;

verus! {

/// A colour, each channel held as the bit pattern of an IEEE-754 single
/// precision number, so that the store carries it exactly without doing
/// arithmetic on it.
#[derive(Clone, Copy, Debug, PartialEq, Eq)]
pub struct Rgba {
    pub r: u32,
    pub g: u32,
    pub b: u32,
    pub a: u32,
}

/// One corner of a face quad.
///
/// `uv` is in quarters of the texture atlas; `light` is in ten-thousandths.
#[derive(Clone, Copy, Debug, PartialEq, Eq)]
pub struct Vertex {
    pub pos: (i32, i32, i32),
    pub uv: (u8, u8),
    pub color: Rgba,
    pub light: u64,
}

impl Vertex {
    pub fn new(pos: (i32, i32, i32), uv: (u8, u8), color: Rgba, light: u64) -> (v: Vertex)
        ensures
            v == (Vertex { pos, uv, color, light }),
    {
        Vertex { pos, uv, color, light }
    }
}

/// A generated, textured, collidable voxel.
///
/// `pattern` picks, three bits per face, which of the eight texture templates
/// each face uses; `vertices` caches the block's last computed surface.
#[derive(Clone, Debug)]
pub struct Block {
    pub color: Rgba,
    pub pattern: usize,
    pub vertices: Vec<Vertex>,
}

/// The texture template (0 to 7) of face `f` of a block with `pattern`.
pub open spec fn turn(pattern: usize, f: int) -> int {
    ((pattern >> ((3 * f) as usize)) % 8) as int
}

impl Block {
    pub fn new(rng: usize, c: Rgba) -> (b: Block)
        ensures
            b.color == c,
            b.pattern == rng,
            b.vertices@.len() == 0,
    {
        Block { color: c, pattern: rng, vertices: Vec::new() }
    }

    pub fn get_vertex_data(&self) -> (r: &Vec<Vertex>)
        ensures
            r@ == self.vertices@,
    {
        &self.vertices
    }

    /// Same colour and texture pattern; the cached surface is not compared.
    pub open spec fn same_look(&self, o: &Block) -> bool {
        self.color == o.color && self.pattern == o.pattern
    }
}

/// The state of one voxel cell.
#[derive(Clone, Debug)]
pub enum Spot {
    /// Traversable void.
    Empty,
    /// Not generated yet; counts as solid.
    Full,
    /// Generated and solid.
    Rich(Box<Block>),
}

impl Default for Spot {
    fn default() -> (s: Spot)
        ensures
            s is Full,
    {
        Spot::Full
    }
}

impl Spot {
    pub fn is_empty(&self) -> (r: bool)
        ensures
            r == (*self is Empty),
    {
        match self {
            Spot::Empty => true,
            _ => false,
        }
    }

    pub fn is_rich(&self) -> (r: bool)
        ensures
            r == (*self is Rich),
    {
        match self {
            Spot::Rich(_) => true,
            _ => false,
        }
    }

    pub fn unwrap_mut(&mut self) -> (b: &mut Box<Block>)
        requires
            *old(self) is Rich,
        ensures
            *b == old(self)->Rich_0,
            *final(self) == Spot::Rich(*final(b)),
    {
        match self {
            Spot::Rich(b) => b,
            _ => vstd::pervasive::unreached(),
        }
    }

    /// Same state, and for blocks the same look.
    pub open spec fn same_look(&self, o: &Spot) -> bool {
        match (*self, *o) {
            (Spot::Empty, Spot::Empty) => true,
            (Spot::Full, Spot::Full) => true,
            (Spot::Rich(a), Spot::Rich(b)) => a.same_look(&b),
            _ => false,
        }
    }
}

} // verus!
