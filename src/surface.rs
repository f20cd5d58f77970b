//! The surface of one block: a quad for each face that looks into an open
//! voxel, lit by face direction and by how open each corner is.
use vstd::prelude::*;
use crate::block::{turn, Block, Rgba, Spot, Vertex};
use crate::geometry::{
    direction, face_corner, face_dir, get_light, light_value, uv, uv_template, vertices_int,
    FACES,
};
use crate::world::InfiniteWorld;

verus! {

/// Coordinates far enough from the ends of `i32` that every voxel touching
/// a block at `(x, y, z)` is addressable.
pub open spec fn inside(x: int, y: int, z: int) -> bool {
    &&& i32::MIN + 1 <= x <= i32::MAX - 1
    &&& i32::MIN + 1 <= y <= i32::MAX - 1
    &&& i32::MIN + 1 <= z <= i32::MAX - 1
}

pub open spec fn open_count(w: InfiniteWorld, x: int, y: int, z: int) -> int {
    if w.is_open(x, y, z) {
        1
    } else {
        0
    }
}

/// How many of the eight voxels that share the vertex at `(x, y, z)` are open.
pub open spec fn crowd(w: InfiniteWorld, x: int, y: int, z: int) -> int {
    open_count(w, x, y, z) + open_count(w, x, y, z - 1) + open_count(w, x, y - 1, z)
        + open_count(w, x, y - 1, z - 1) + open_count(w, x - 1, y, z) + open_count(
        w,
        x - 1,
        y,
        z - 1,
    ) + open_count(w, x - 1, y - 1, z) + open_count(w, x - 1, y - 1, z - 1)
}

/// Vertex `i` of face `f` of the block at `(x, y, z)`.
#[verifier::opaque]
pub open spec fn face_vertex(
    w: InfiniteWorld,
    x: int,
    y: int,
    z: int,
    color: Rgba,
    pattern: usize,
    shine: int,
    f: int,
    i: int,
) -> Vertex {
    let o = face_corner(f, i);
    let p = (x + o.0, y + o.1, z + o.2);
    let t = uv_template(turn(pattern, f), i);
    Vertex {
        pos: (p.0 as i32, p.1 as i32, p.2 as i32),
        uv: (t.0 as u8, t.1 as u8),
        color,
        light: light_value(shine, f, crowd(w, p.0, p.1, p.2)) as u64,
    }
}

/// The quad of face `f`, or nothing where the neighbour across it is not open.
pub open spec fn face_quad(
    w: InfiniteWorld,
    x: int,
    y: int,
    z: int,
    color: Rgba,
    pattern: usize,
    shine: int,
    f: int,
) -> Seq<Vertex> {
    let d = face_dir(f);
    if w.is_open(x + d.0, y + d.1, z + d.2) {
        seq![
            face_vertex(w, x, y, z, color, pattern, shine, f, 0),
            face_vertex(w, x, y, z, color, pattern, shine, f, 1),
            face_vertex(w, x, y, z, color, pattern, shine, f, 2),
            face_vertex(w, x, y, z, color, pattern, shine, f, 3),
        ]
    } else {
        Seq::empty()
    }
}

pub open spec fn surface_upto(
    w: InfiniteWorld,
    x: int,
    y: int,
    z: int,
    color: Rgba,
    pattern: usize,
    shine: int,
    n: int,
) -> Seq<Vertex>
    decreases n,
{
    if n <= 0 {
        Seq::empty()
    } else {
        surface_upto(w, x, y, z, color, pattern, shine, n - 1) + face_quad(
            w,
            x,
            y,
            z,
            color,
            pattern,
            shine,
            n - 1,
        )
    }
}

/// The surface of a block with `color` and `pattern` standing at `(x, y, z)`
/// in `w`, under highlight factor `shine` (hundredths): its faces in the
/// order down, up, north, south, west, east.
pub open spec fn surface(
    w: InfiniteWorld,
    x: int,
    y: int,
    z: int,
    color: Rgba,
    pattern: usize,
    shine: int,
) -> Seq<Vertex> {
    surface_upto(w, x, y, z, color, pattern, shine, FACES as int)
}

/// The voxels around `(x, y, z)`, itself included, are open in `w1` exactly
/// where they are open in `w2`.
pub open spec fn same_openness_near(w1: InfiniteWorld, w2: InfiniteWorld, x: int, y: int, z: int) -> bool {
    forall|a: int, b: int, d: int|
        x - 1 <= a <= x + 1 && y - 1 <= b <= y + 1 && z - 1 <= d <= z + 1 ==> #[trigger] w1.is_open(a, b, d)
            == w2.is_open(a, b, d)
}

/// A block's surface depends only on which voxels around it are open.
pub proof fn lemma_surface_local(
    w1: InfiniteWorld,
    w2: InfiniteWorld,
    x: int,
    y: int,
    z: int,
    color: Rgba,
    pattern: usize,
    shine: int,
    n: int,
)
    requires
        same_openness_near(w1, w2, x, y, z),
    ensures
        surface_upto(w1, x, y, z, color, pattern, shine, n) == surface_upto(
            w2,
            x,
            y,
            z,
            color,
            pattern,
            shine,
            n,
        ),
    decreases n,
{
    reveal(face_vertex);
    if n > 0 {
        lemma_surface_local(w1, w2, x, y, z, color, pattern, shine, n - 1);
        let f = n - 1;
        assert forall|i: int| 0 <= i < 4 implies #[trigger] face_vertex(w1, x, y, z, color, pattern, shine, f, i)
            == face_vertex(w2, x, y, z, color, pattern, shine, f, i) by {
            let o = face_corner(f, i);
            assert(0 <= o.0 <= 1 && 0 <= o.1 <= 1 && 0 <= o.2 <= 1);
            let p = (x + o.0, y + o.1, z + o.2);
            assert(crowd(w1, p.0, p.1, p.2) == crowd(w2, p.0, p.1, p.2)) by {
                assert(w1.is_open(p.0, p.1, p.2) == w2.is_open(p.0, p.1, p.2));
                assert(w1.is_open(p.0, p.1, p.2 - 1) == w2.is_open(p.0, p.1, p.2 - 1));
                assert(w1.is_open(p.0, p.1 - 1, p.2) == w2.is_open(p.0, p.1 - 1, p.2));
                assert(w1.is_open(p.0, p.1 - 1, p.2 - 1) == w2.is_open(p.0, p.1 - 1, p.2 - 1));
                assert(w1.is_open(p.0 - 1, p.1, p.2) == w2.is_open(p.0 - 1, p.1, p.2));
                assert(w1.is_open(p.0 - 1, p.1, p.2 - 1) == w2.is_open(p.0 - 1, p.1, p.2 - 1));
                assert(w1.is_open(p.0 - 1, p.1 - 1, p.2) == w2.is_open(p.0 - 1, p.1 - 1, p.2));
                assert(w1.is_open(p.0 - 1, p.1 - 1, p.2 - 1) == w2.is_open(p.0 - 1, p.1 - 1, p.2 - 1));
            }
        }
        let d = face_dir(f);
        assert(w1.is_open(x + d.0, y + d.1, z + d.2) == w2.is_open(x + d.0, y + d.1, z + d.2));
        assert(face_quad(w1, x, y, z, color, pattern, shine, f) == face_quad(w2, x, y, z, color, pattern, shine, f));
    }
}

/// A block's surface depends on which voxels are open, and on nothing else
/// of the world.
pub proof fn lemma_surface_openness(
    w1: InfiniteWorld,
    w2: InfiniteWorld,
    x: int,
    y: int,
    z: int,
    color: Rgba,
    pattern: usize,
    shine: int,
    n: int,
)
    requires
        w1.same_openness(&w2),
    ensures
        surface_upto(w1, x, y, z, color, pattern, shine, n) == surface_upto(
            w2,
            x,
            y,
            z,
            color,
            pattern,
            shine,
            n,
        ),
{
    lemma_surface_local(w1, w2, x, y, z, color, pattern, shine, n);
}

/// A surface is made of whole quads.
pub proof fn lemma_surface_quads(
    w: InfiniteWorld,
    x: int,
    y: int,
    z: int,
    color: Rgba,
    pattern: usize,
    shine: int,
    n: int,
)
    ensures
        surface_upto(w, x, y, z, color, pattern, shine, n).len() % 4 == 0,
    decreases n,
{
    if n > 0 {
        lemma_surface_quads(w, x, y, z, color, pattern, shine, n - 1);
    }
}

fn is_open_at(w: &InfiniteWorld, x: i32, y: i32, z: i32) -> (r: bool)
    requires
        w.wf(),
    ensures
        r == w.is_open(x as int, y as int, z as int),
{
    match w.at(x, y, z) {
        Some(Spot::Empty) => true,
        _ => false,
    }
}

/// Counts the open voxels among the eight that share the vertex `pos`.
pub fn get_surroundings(pos: (i32, i32, i32), w: &InfiniteWorld) -> (n: u8)
    requires
        w.wf(),
        pos.0 > i32::MIN,
        pos.1 > i32::MIN,
        pos.2 > i32::MIN,
    ensures
        n as int == crowd(*w, pos.0 as int, pos.1 as int, pos.2 as int),
{
    let (x, y, z) = pos;
    let mut total: u8 = 0;
    if is_open_at(w, x, y, z) {
        total += 1;
    }
    if is_open_at(w, x, y, z - 1) {
        total += 1;
    }
    if is_open_at(w, x, y - 1, z) {
        total += 1;
    }
    if is_open_at(w, x, y - 1, z - 1) {
        total += 1;
    }
    if is_open_at(w, x - 1, y, z) {
        total += 1;
    }
    if is_open_at(w, x - 1, y, z - 1) {
        total += 1;
    }
    if is_open_at(w, x - 1, y - 1, z) {
        total += 1;
    }
    if is_open_at(w, x - 1, y - 1, z - 1) {
        total += 1;
    }
    total
}

fn make_vertex(
    w: &InfiniteWorld,
    x: i32,
    y: i32,
    z: i32,
    color: Rgba,
    pattern: usize,
    shine: u32,
    f: usize,
    i: usize,
    p: (i32, i32, i32),
) -> (v: Vertex)
    requires
        w.wf(),
        inside(x as int, y as int, z as int),
        f < FACES,
        i < 4,
        (p.0 as int, p.1 as int, p.2 as int) == (
            x + face_corner(f as int, i as int).0,
            y + face_corner(f as int, i as int).1,
            z + face_corner(f as int, i as int).2,
        ),
    ensures
        v == face_vertex(*w, x as int, y as int, z as int, color, pattern, shine as int, f as int, i as int),
{
    let ghost o = face_corner(f as int, i as int);
    assert(0 <= o.0 <= 1 && 0 <= o.1 <= 1 && 0 <= o.2 <= 1);
    let t = (pattern >> (3 * f)) % 8;
    let c = get_surroundings(p, w);
    let tc = uv(t, i);
    let light = get_light(f, c, shine);
    proof {
        reveal(face_vertex);
    }
    Vertex::new(p, tc, color, light)
}

/// Appends the quad of face `f` of the block at `(x, y, z)`.
fn push_quad(
    out: &mut Vec<Vertex>,
    w: &InfiniteWorld,
    x: i32,
    y: i32,
    z: i32,
    color: Rgba,
    pattern: usize,
    shine: u32,
    f: usize,
)
    requires
        w.wf(),
        inside(x as int, y as int, z as int),
        f < FACES,
    ensures
        final(out)@ == old(out)@ + seq![
            face_vertex(*w, x as int, y as int, z as int, color, pattern, shine as int, f as int, 0),
            face_vertex(*w, x as int, y as int, z as int, color, pattern, shine as int, f as int, 1),
            face_vertex(*w, x as int, y as int, z as int, color, pattern, shine as int, f as int, 2),
            face_vertex(*w, x as int, y as int, z as int, color, pattern, shine as int, f as int, 3),
        ],
{
    let v = vertices_int(f, (x, y, z));
    out.push(make_vertex(w, x, y, z, color, pattern, shine, f, 0, v[0]));
    out.push(make_vertex(w, x, y, z, color, pattern, shine, f, 1, v[1]));
    out.push(make_vertex(w, x, y, z, color, pattern, shine, f, 2, v[2]));
    out.push(make_vertex(w, x, y, z, color, pattern, shine, f, 3, v[3]));
    proof {
        let q = seq![
            face_vertex(*w, x as int, y as int, z as int, color, pattern, shine as int, f as int, 0),
            face_vertex(*w, x as int, y as int, z as int, color, pattern, shine as int, f as int, 1),
            face_vertex(*w, x as int, y as int, z as int, color, pattern, shine as int, f as int, 2),
            face_vertex(*w, x as int, y as int, z as int, color, pattern, shine as int, f as int, 3),
        ];
        assert(out@ =~= old(out)@ + q);
    }
}

/// Computes the surface of a block with `color` and `pattern` at `(x, y, z)`.
pub fn compute_surface(
    w: &InfiniteWorld,
    x: i32,
    y: i32,
    z: i32,
    color: Rgba,
    pattern: usize,
    shine: u32,
) -> (v: Vec<Vertex>)
    requires
        w.wf(),
        inside(x as int, y as int, z as int),
    ensures
        v@ == surface(*w, x as int, y as int, z as int, color, pattern, shine as int),
{
    let mut vertices: Vec<Vertex> = Vec::new();
    let mut f: usize = 0;
    while f < FACES
        invariant
            w.wf(),
            inside(x as int, y as int, z as int),
            f <= FACES,
            vertices@ == surface_upto(
                *w,
                x as int,
                y as int,
                z as int,
                color,
                pattern,
                shine as int,
                f as int,
            ),
        decreases FACES - f,
    {
        let d = direction(f);
        if is_open_at(w, x + d.0, y + d.1, z + d.2) {
            push_quad(&mut vertices, w, x, y, z, color, pattern, shine, f);
        } else {
            proof {
                assert(vertices@ + Seq::<Vertex>::empty() =~= vertices@);
            }
        }
        f += 1;
    }
    vertices
}

impl Block {
    /// Recomputes the block's cached surface as if it stood at `(x, y, z)`
    /// in `w`, under highlight factor `shiny` (hundredths).
    pub fn update_surface(&mut self, x: i32, y: i32, z: i32, w: &InfiniteWorld, shiny: u32)
        requires
            w.wf(),
            inside(x as int, y as int, z as int),
        ensures
            final(self).color == old(self).color,
            final(self).pattern == old(self).pattern,
            final(self).vertices@ == surface(
                *w,
                x as int,
                y as int,
                z as int,
                old(self).color,
                old(self).pattern,
                shiny as int,
            ),
    {
        self.vertices = compute_surface(w, x, y, z, self.color, self.pattern, shiny);
    }
}

} // verus!
