//! Fixed tables of the unit cube: face directions, the corners of each face
//! quad, texture-coordinate templates and the lighting weights.
use vstd::prelude::*;

verus! {

/// Number of faces of a cube.
pub const FACES: usize = 6;

/// Unit offset towards the neighbour across face `f`, in the order
/// down, up, north, south, west, east.
pub open spec fn face_dir(f: int) -> (int, int, int) {
    if f == 0 {
        (0, -1, 0)
    } else if f == 1 {
        (0, 1, 0)
    } else if f == 2 {
        (0, 0, -1)
    } else if f == 3 {
        (0, 0, 1)
    } else if f == 4 {
        (-1, 0, 0)
    } else {
        (1, 0, 0)
    }
}

/// The eight corners of the unit cube.
pub open spec fn cube_corner(k: int) -> (int, int, int) {
    if k == 0 {
        (0, 0, 0)
    } else if k == 1 {
        (1, 0, 0)
    } else if k == 2 {
        (1, 1, 0)
    } else if k == 3 {
        (0, 1, 0)
    } else if k == 4 {
        (1, 0, 1)
    } else if k == 5 {
        (0, 0, 1)
    } else if k == 6 {
        (0, 1, 1)
    } else {
        (1, 1, 1)
    }
}

/// Which cube corner is the `i`-th vertex of the quad of face `f` (clockwise).
pub open spec fn quad_corner(f: int, i: int) -> int {
    let q = if f == 0 {
        seq![1int, 0, 5, 4]
    } else if f == 1 {
        seq![7int, 6, 3, 2]
    } else if f == 2 {
        seq![0int, 1, 2, 3]
    } else if f == 3 {
        seq![4int, 5, 6, 7]
    } else if f == 4 {
        seq![5int, 0, 3, 6]
    } else {
        seq![1int, 4, 7, 2]
    };
    q[i]
}

/// Offset from a voxel's origin of the `i`-th vertex of its face `f`.
pub open spec fn face_corner(f: int, i: int) -> (int, int, int) {
    cube_corner(quad_corner(f, i))
}

/// Texture coordinates (in quarters of the atlas) of the `i`-th vertex of a
/// face whose template is rotated or mirrored by `t` (one of eight).
pub open spec fn uv_template(t: int, i: int) -> (int, int) {
    let (u, v) = if t == 0 {
        (seq![1int, 0, 0, 1], seq![1int, 1, 0, 0])
    } else if t == 1 {
        (seq![0int, 0, 1, 1], seq![1int, 0, 0, 1])
    } else if t == 2 {
        (seq![0int, 1, 1, 0], seq![0int, 0, 1, 1])
    } else if t == 3 {
        (seq![1int, 1, 0, 0], seq![0int, 1, 1, 0])
    } else if t == 4 {
        (seq![0int, 1, 1, 0], seq![1int, 1, 0, 0])
    } else if t == 5 {
        (seq![1int, 1, 0, 0], seq![1int, 0, 0, 1])
    } else if t == 6 {
        (seq![1int, 0, 0, 1], seq![0int, 0, 1, 1])
    } else {
        (seq![0int, 0, 1, 1], seq![0int, 1, 1, 0])
    };
    (u[i], v[i])
}

/// Sunlight reaching face `f`, in tenths.
pub open spec fn face_weight(f: int) -> int {
    if f == 0 {
        2
    } else if f == 1 {
        8
    } else if f == 2 {
        7
    } else if f == 3 {
        3
    } else if f == 4 {
        4
    } else {
        6
    }
}

/// Ambient term, in tenths, for a vertex with `n` open voxels among the
/// eight that share it.
pub open spec fn exposure(n: int) -> int {
    if n == 0 {
        0
    } else if n == 1 {
        5
    } else if n == 2 {
        8
    } else {
        10
    }
}

/// Light of a vertex in ten-thousandths: the highlight factor (hundredths)
/// times the face weight times the ambient term.
pub open spec fn light_value(shine: int, f: int, n: int) -> int {
    shine * face_weight(f) * exposure(n)
}

/// Offset towards the neighbour across face `f`.
pub fn direction(f: usize) -> (d: (i32, i32, i32))
    requires
        f < FACES,
    ensures
        (d.0 as int, d.1 as int, d.2 as int) == face_dir(f as int),
{
    match f {
        0 => (0, -1, 0),
        1 => (0, 1, 0),
        2 => (0, 0, -1),
        3 => (0, 0, 1),
        4 => (-1, 0, 0),
        _ => (1, 0, 0),
    }
}

fn corner(k: usize) -> (c: (i32, i32, i32))
    requires
        k < 8,
    ensures
        (c.0 as int, c.1 as int, c.2 as int) == cube_corner(k as int),
{
    match k {
        0 => (0, 0, 0),
        1 => (1, 0, 0),
        2 => (1, 1, 0),
        3 => (0, 1, 0),
        4 => (1, 0, 1),
        5 => (0, 0, 1),
        6 => (0, 1, 1),
        _ => (1, 1, 1),
    }
}

fn quad(f: usize) -> (q: [usize; 4])
    requires
        f < FACES,
    ensures
        forall|i: int| 0 <= i < 4 ==> #[trigger] q[i] as int == quad_corner(f as int, i) && q[i] < 8,
{
    match f {
        0 => [1, 0, 5, 4],
        1 => [7, 6, 3, 2],
        2 => [0, 1, 2, 3],
        3 => [4, 5, 6, 7],
        4 => [5, 0, 3, 6],
        _ => [1, 4, 7, 2],
    }
}

/// The four vertices of face `f` of the voxel at `base`, clockwise.
pub fn vertices_int(f: usize, base: (i32, i32, i32)) -> (v: [(i32, i32, i32); 4])
    requires
        f < FACES,
        base.0 < i32::MAX,
        base.1 < i32::MAX,
        base.2 < i32::MAX,
    ensures
        forall|i: int|
            0 <= i < 4 ==> (#[trigger] v[i]).0 as int == base.0 + face_corner(f as int, i).0
                && v[i].1 as int == base.1 + face_corner(f as int, i).1 && v[i].2 as int == base.2
                + face_corner(f as int, i).2,
{
    let q = quad(f);
    let c0 = corner(q[0]);
    let c1 = corner(q[1]);
    let c2 = corner(q[2]);
    let c3 = corner(q[3]);
    let v = [
        (base.0 + c0.0, base.1 + c0.1, base.2 + c0.2),
        (base.0 + c1.0, base.1 + c1.1, base.2 + c1.2),
        (base.0 + c2.0, base.1 + c2.1, base.2 + c2.2),
        (base.0 + c3.0, base.1 + c3.1, base.2 + c3.2),
    ];
    assert forall|i: int| 0 <= i < 4 implies (#[trigger] v[i]).0 as int == base.0 + face_corner(f as int, i).0
        && v[i].1 as int == base.1 + face_corner(f as int, i).1 && v[i].2 as int == base.2
        + face_corner(f as int, i).2 by {
        assert(q[i] as int == quad_corner(f as int, i));
    }
    v
}

/// Texture coordinates of vertex `i` under template `t`.
pub fn uv(t: usize, i: usize) -> (r: (u8, u8))
    requires
        t < 8,
        i < 4,
    ensures
        (r.0 as int, r.1 as int) == uv_template(t as int, i as int),
{
    let (u, v): ([u8; 4], [u8; 4]) = match t {
        0 => ([1, 0, 0, 1], [1, 1, 0, 0]),
        1 => ([0, 0, 1, 1], [1, 0, 0, 1]),
        2 => ([0, 1, 1, 0], [0, 0, 1, 1]),
        3 => ([1, 1, 0, 0], [0, 1, 1, 0]),
        4 => ([0, 1, 1, 0], [1, 1, 0, 0]),
        5 => ([1, 1, 0, 0], [1, 0, 0, 1]),
        6 => ([1, 0, 0, 1], [0, 0, 1, 1]),
        _ => ([0, 0, 1, 1], [0, 1, 1, 0]),
    };
    (u[i], v[i])
}

/// Light of a vertex of face `f` with `crowd` open voxels around it, under
/// highlight factor `shine` (hundredths).
pub fn get_light(f: usize, crowd: u8, shine: u32) -> (r: u64)
    requires
        f < FACES,
    ensures
        r as int == light_value(shine as int, f as int, crowd as int),
{
    let a: u64 = match crowd {
        0 => 0,
        1 => 5,
        2 => 8,
        _ => 10,
    };
    let w: u64 = match f {
        0 => 2,
        1 => 8,
        2 => 7,
        3 => 3,
        4 => 4,
        _ => 6,
    };
    assert(shine as int * w * a <= 0xffff_ffff * 8 * 10) by (nonlinear_arith)
        requires
            shine <= 0xffff_ffff,
            w <= 8,
            a <= 10,
    ;
    (shine as u64) * w * a
}

} // verus!
