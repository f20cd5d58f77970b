//! The voxel store: edits, lazy reveal of unexplored space, highlight state
//! and collection of the world mesh.
use vstd::prelude::*;
use crate::block::{Block, Spot, Vertex};
use crate::chunk::Chunk;
use crate::geometry::{direction, face_dir};
use crate::surface::{compute_surface, inside, lemma_surface_openness, lemma_surface_quads, surface};
use crate::world::{key_of, same_look_opt, InfiniteWorld};

verus! {

/// Highlight factor, in hundredths, of ordinary lighting.
pub const PLAIN: u32 = 100;

pub struct Milieu {
    pub world: InfiniteWorld,
    /// Seed of the terrain that reveals fill unexplored voxels with.
    pub seed: usize,
    /// Highlighted voxels and their factors, restored at the next collection.
    pub shiny: Vec<(i32, i32, i32, u32)>,
}

/// The chunk coordinate of voxel `c`, as a one-element set.
pub open spec fn key_set(c: (int, int, int)) -> Set<(int, int, int)> {
    set![key_of(c.0, c.1, c.2)]
}

/// The neighbour of `t` across face `k`.
pub open spec fn nb(t: (int, int, int), k: int) -> (int, int, int) {
    let d = face_dir(k);
    (t.0 + d.0, t.1 + d.1, t.2 + d.2)
}

/// Which face of `t` voxel `c` lies across, or 6 where `c` is no face
/// neighbour of `t`.
pub open spec fn face_index(t: (int, int, int), c: (int, int, int)) -> int {
    if c == nb(t, 0) {
        0
    } else if c == nb(t, 1) {
        1
    } else if c == nb(t, 2) {
        2
    } else if c == nb(t, 3) {
        3
    } else if c == nb(t, 4) {
        4
    } else if c == nb(t, 5) {
        5
    } else {
        6
    }
}

pub open spec fn args_of(c: (int, int, int)) -> (i32, i32, i32) {
    (c.0 as i32, c.1 as i32, c.2 as i32)
}

/// Never generated: no chunk yet, or `Full`.
pub open spec fn unexplored(s: Option<Spot>) -> bool {
    match s {
        None => true,
        Some(Spot::Full) => true,
        _ => false,
    }
}

/// An unexplored voxel `c` became a block that `gen` returns for `c`; any
/// other state stayed.
pub open spec fn generated<F: Fn(i32, i32, i32) -> Block>(
    before: Option<Spot>,
    after: Option<Spot>,
    gen: F,
    c: (int, int, int),
) -> bool {
    if unexplored(before) {
        after matches Some(Spot::Rich(bx)) && gen.ensures(args_of(c), *bx)
    } else {
        after == before
    }
}

/// Unchanged, except that a voxel without a chunk may now be `Full`.
pub open spec fn untouched(before: Option<Spot>, after: Option<Spot>) -> bool {
    after == before || (before is None && after == Some(Spot::Full))
}

/// Voxel `c` once the chunks with coordinates in `keys` exist: unchanged,
/// or `Full` where its chunk is among them and was missing.
pub open spec fn made(s: Option<Spot>, c: (int, int, int), keys: Set<(int, int, int)>) -> Option<Spot> {
    if s is None && keys.contains(key_of(c.0, c.1, c.2)) {
        Some(Spot::Full)
    } else {
        s
    }
}

/// Chunk coordinates of `t` and of its face neighbours: the chunks a reveal
/// around `t` makes where they are missing.
pub open spec fn reveal_keys(t: (int, int, int)) -> Set<(int, int, int)> {
    key_set(t) + face_keys(t, 6)
}

/// `c` lies in the 3x3x3 cube centred on `t`.
pub open spec fn in_box(t: (int, int, int), c: (int, int, int)) -> bool {
    &&& t.0 - 1 <= c.0 <= t.0 + 1
    &&& t.1 - 1 <= c.1 <= t.1 + 1
    &&& t.2 - 1 <= c.2 <= t.2 + 1
}

/// The `m`-th voxel (0 to 26) of the 3x3x3 cube centred on `t`.
pub open spec fn box_cell(t: (int, int, int), m: int) -> (int, int, int) {
    (t.0 + m / 9 - 1, t.1 + (m / 3) % 3 - 1, t.2 + m % 3 - 1)
}

/// Chunk coordinates of the first `n` voxels of the cube centred on `t`.
pub open spec fn box_keys(t: (int, int, int), n: int) -> Set<(int, int, int)>
    decreases n,
{
    if n <= 0 {
        Set::empty()
    } else {
        box_keys(t, n - 1).insert(key_of(box_cell(t, n - 1).0, box_cell(t, n - 1).1, box_cell(t, n - 1).2))
    }
}

/// Chunk coordinates of the first `n` face neighbours of `t`.
pub open spec fn face_keys(t: (int, int, int), n: int) -> Set<(int, int, int)>
    decreases n,
{
    if n <= 0 {
        Set::empty()
    } else {
        face_keys(t, n - 1).insert(key_of(nb(t, n - 1).0, nb(t, n - 1).1, nb(t, n - 1).2))
    }
}

/// Far enough from the ends of `i32` for an edit around `(x, y, z)`, which
/// recomputes the surfaces of the 3x3x3 cube centred there.
pub open spec fn roomy(x: int, y: int, z: int) -> bool {
    &&& i32::MIN + 2 <= x <= i32::MAX - 2
    &&& i32::MIN + 2 <= y <= i32::MAX - 2
    &&& i32::MIN + 2 <= z <= i32::MAX - 2
}

/// The cached surface of the block at `c`, if one stands there, is the one
/// its place in `w` gives it under ordinary lighting.
pub open spec fn settled(w: InfiniteWorld, c: (int, int, int)) -> bool {
    w.spot(c.0, c.1, c.2) matches Some(Spot::Rich(b)) ==> b.vertices@ == surface(
        w,
        c.0,
        c.1,
        c.2,
        b.color,
        b.pattern,
        PLAIN as int,
    )
}

pub proof fn lemma_looks_like_openness(w1: InfiniteWorld, w2: InfiniteWorld)
    requires
        w1.looks_like(&w2),
    ensures
        w1.same_openness(&w2),
{
    assert forall|a: int, b: int, d: int| #[trigger] w1.is_open(a, b, d) == w2.is_open(a, b, d) by {
        assert(same_look_opt(w1.spot(a, b, d), w2.spot(a, b, d)));
    }
}

pub proof fn lemma_looks_like_trans(w1: InfiniteWorld, w2: InfiniteWorld, w3: InfiniteWorld)
    requires
        w1.looks_like(&w2),
        w2.looks_like(&w3),
    ensures
        w1.looks_like(&w3),
{
    assert forall|a: int, b: int, d: int| #[trigger] same_look_opt(w1.spot(a, b, d), w3.spot(a, b, d)) by {
        assert(same_look_opt(w1.spot(a, b, d), w2.spot(a, b, d)));
        assert(same_look_opt(w2.spot(a, b, d), w3.spot(a, b, d)));
    }
}

/// What voxel `e` holds once the chunk of `c` exists: unchanged, or `Full`
/// where the chunk was missing.
pub open spec fn with_chunk_of(pre: Milieu, c: (int, int, int), e: (int, int, int)) -> Option<Spot> {
    if pre.world.spot(e.0, e.1, e.2) is None && key_of(e.0, e.1, e.2) == key_of(c.0, c.1, c.2) {
        Some(Spot::Full)
    } else {
        pre.world.spot(e.0, e.1, e.2)
    }
}

/// Around an edit at `c`: every other voxel keeps its state and look (its
/// chunk made if it was `c`'s), and nothing else changes outside the 3x3x3
/// cube centred on `c`; every block in that cube has the surface of its
/// place in `post`, and the cube's chunks are flagged for rebuild.
pub open spec fn edited_around(pre: Milieu, post: Milieu, c: (int, int, int)) -> bool {
    &&& post.wf()
    &&& post.shiny == pre.shiny
    &&& post.seed == pre.seed
    &&& pre.world.kept_in(&post.world, box_keys(c, 27))
    &&& forall|a: int, e: int, d: int|
        (a, e, d) != c ==> same_look_opt(with_chunk_of(pre, c, (a, e, d)), #[trigger] post.world.spot(a, e, d))
    &&& forall|a: int, e: int, d: int|
        !in_box(c, (a, e, d)) ==> #[trigger] post.world.spot(a, e, d) == with_chunk_of(pre, c, (a, e, d))
    &&& forall|m: int| 0 <= m < 27 ==> settled(post.world, #[trigger] box_cell(c, m))
}

/// `post` is `pre` with block `b` placed at `c`; the surfaces around `c`
/// are recomputed (see [`edited_around`]).
pub open spec fn placed(pre: Milieu, post: Milieu, c: (int, int, int), b: Block) -> bool {
    &&& edited_around(pre, post, c)
    &&& post.world.spot(c.0, c.1, c.2) matches Some(Spot::Rich(nb)) && nb.color == b.color && nb.pattern
        == b.pattern
}

/// `post` and `r` are what removing the block at `c` from `pre` gives: a
/// block there is returned and leaves `Empty`; anything else stays. The
/// surfaces around `c` are recomputed (see [`edited_around`]).
pub open spec fn removed(pre: Milieu, post: Milieu, c: (int, int, int), r: Option<Block>) -> bool {
    &&& edited_around(pre, post, c)
    &&& pre.world.spot(c.0, c.1, c.2) matches Some(Spot::Rich(b)) ==> r == Some(*b)
        && post.world.spot(c.0, c.1, c.2) == Some(Spot::Empty)
    &&& !(pre.world.spot(c.0, c.1, c.2) matches Some(Spot::Rich(_))) ==> r is None && same_look_opt(
        with_chunk_of(pre, c, c),
        post.world.spot(c.0, c.1, c.2),
    )
}

/// `post` and `r` are what revealing around `t` in `pre` gives, with blocks
/// drawn from `gen`:
/// - `t` becomes `Empty`, whatever it held; the block it held, if any, is
///   returned;
/// - each face neighbour of `t` that was unexplored now holds a block with
///   the look of one that `gen` returns for it;
/// - every other voxel keeps its state and look, except that a voxel
///   without a chunk becomes `Full` where its chunk is that of `t` or of a
///   face neighbour; outside the 3x3x3 cube centred on `t` nothing else
///   changes;
/// - every block in that cube has the surface of its new place, and the
///   cube's chunks are flagged for rebuild.
pub open spec fn revealed<F: Fn(i32, i32, i32) -> Block>(
    pre: Milieu,
    post: Milieu,
    t: (int, int, int),
    gen: F,
    r: Option<Block>,
) -> bool {
    &&& post.wf()
    &&& post.shiny == pre.shiny
    &&& post.seed == pre.seed
    &&& pre.world.kept_in(&post.world, box_keys(t, 27))
    &&& post.world.spot(t.0, t.1, t.2) == Some(Spot::Empty)
    &&& pre.world.spot(t.0, t.1, t.2) matches Some(Spot::Rich(b)) ==> r == Some(*b)
    &&& !(pre.world.spot(t.0, t.1, t.2) matches Some(Spot::Rich(_))) ==> r is None
    &&& forall|a: int, b: int, c: int|
        face_index(t, (a, b, c)) < 6 && unexplored(pre.world.spot(a, b, c))
            ==> (#[trigger] post.world.spot(a, b, c) matches Some(Spot::Rich(nb))
            && exists|b0: Block| gen.ensures((a as i32, b as i32, c as i32), b0) && nb.same_look(&b0))
    &&& forall|a: int, b: int, c: int|
        (a, b, c) != t && !(face_index(t, (a, b, c)) < 6 && unexplored(pre.world.spot(a, b, c)))
            ==> same_look_opt(
            made(pre.world.spot(a, b, c), (a, b, c), reveal_keys(t)),
            #[trigger] post.world.spot(a, b, c),
        )
    &&& forall|a: int, b: int, c: int|
        !in_box(t, (a, b, c)) ==> #[trigger] post.world.spot(a, b, c) == made(
            pre.world.spot(a, b, c),
            (a, b, c),
            reveal_keys(t),
        )
    &&& forall|m: int| 0 <= m < 27 ==> settled(post.world, #[trigger] box_cell(t, m))
}

/// A block stands at `c`.
pub open spec fn rich_at(w: InfiniteWorld, c: (i32, i32, i32)) -> bool {
    w.spot(c.0 as int, c.1 as int, c.2 as int) matches Some(Spot::Rich(_))
}

/// Index of the first voxel of `path`, from `i` on, that holds a block.
pub open spec fn first_rich_from(w: InfiniteWorld, path: Seq<(i32, i32, i32)>, i: int) -> Option<int>
    decreases path.len() - i,
{
    if i < 0 || i >= path.len() {
        None
    } else if rich_at(w, path[i]) {
        Some(i)
    } else {
        first_rich_from(w, path, i + 1)
    }
}

/// Selection along `path`: the first voxel that holds a block, and the
/// voxel visited just before it; neither where no block is on the path.
pub open spec fn cast(w: InfiniteWorld, path: Seq<(i32, i32, i32)>) -> (
    Option<(i32, i32, i32)>,
    Option<(i32, i32, i32)>,
) {
    match first_rich_from(w, path, 0) {
        Some(k) => (Some(path[k]), if k > 0 {
            Some(path[k - 1])
        } else {
            None
        }),
        None => (None, None),
    }
}

/// The voxel of a highlight entry.
pub open spec fn entry_cell(e: (i32, i32, i32, u32)) -> (int, int, int) {
    (e.0 as int, e.1 as int, e.2 as int)
}

/// Voxel `c` is among the first `n` highlight entries.
pub open spec fn listed(s: Seq<(i32, i32, i32, u32)>, n: int, c: (int, int, int)) -> bool
    decreases n,
{
    n > 0 && (entry_cell(s[n - 1]) == c || listed(s, n - 1, c))
}

/// Chunk coordinates of the first `n` highlight entries.
pub open spec fn entry_keys(s: Seq<(i32, i32, i32, u32)>, n: int) -> Set<(int, int, int)>
    decreases n,
{
    if n <= 0 {
        Set::empty()
    } else {
        entry_keys(s, n - 1).insert(key_of(s[n - 1].0 as int, s[n - 1].1 as int, s[n - 1].2 as int))
    }
}

/// The meshes of the first `n` chunks, concatenated in order.
pub open spec fn meshes_upto(cs: Seq<Chunk>, n: int) -> Seq<Vertex>
    decreases n,
{
    if n <= 0 {
        Seq::empty()
    } else {
        meshes_upto(cs, n - 1) + cs[n - 1].mesh@
    }
}

/// The meshes of all chunks, concatenated in order.
pub open spec fn meshes(cs: Seq<Chunk>) -> Seq<Vertex> {
    meshes_upto(cs, cs.len() as int)
}

/// Offset, inside its quad, of the `j`-th index of a quad's two triangles.
pub open spec fn quad_offset(j: int) -> int {
    if j == 0 {
        0
    } else if j == 1 {
        1
    } else if j == 2 {
        2
    } else if j == 3 {
        0
    } else if j == 4 {
        2
    } else {
        3
    }
}

/// Triangle indices for `n` quads of four consecutive vertices each.
pub open spec fn quad_indices(n: int) -> Seq<u32> {
    Seq::new((6 * n) as nat, |p: int| (4 * (p / 6) + quad_offset(p % 6)) as u32)
}

/// The mesh a chunk has after a rebuild pass: rebuilt where it was flagged.
pub open spec fn rebuilt(c: Chunk) -> Seq<Vertex> {
    if c.request {
        c.surface()
    } else {
        c.mesh@
    }
}

/// `post` and the buffers `v`, `ix` are what collecting the geometry of
/// `pre` gives: every highlighted block is first restored to ordinary
/// lighting and the highlight list emptied; then every chunk that was
/// flagged, or holds a highlighted voxel, has its mesh rebuilt from its
/// blocks, no chunk stays flagged, the meshes are concatenated into `v`, and
/// `ix` indexes `v` quad by quad.
pub open spec fn collected(pre: Milieu, post: Milieu, v: Seq<Vertex>, ix: Seq<u32>) -> bool {
    let n = pre.shiny@.len() as int;
    &&& post.wf()
    &&& post.seed == pre.seed
    &&& post.shiny@.len() == 0
    &&& post.world.chunks@.len() == pre.world.chunks@.len()
    &&& forall|i: int|
        0 <= i < pre.world.chunks@.len() ==> {
            &&& (#[trigger] post.world.chunks@[i]).key() == pre.world.chunks@[i].key()
            &&& !post.world.chunks@[i].request
            &&& post.world.chunks@[i].mesh@ == if pre.world.chunks@[i].request || entry_keys(
                pre.shiny@,
                n,
            ).contains(pre.world.chunks@[i].key()) {
                post.world.chunks@[i].surface()
            } else {
                pre.world.chunks@[i].mesh@
            }
        }
    &&& pre.world.looks_like(&post.world)
    &&& forall|a: int, b: int, c: int|
        !listed(pre.shiny@, n, (a, b, c)) ==> #[trigger] post.world.spot(a, b, c) == pre.world.spot(
            a,
            b,
            c,
        )
    &&& forall|k: int| 0 <= k < n ==> settled(post.world, entry_cell(#[trigger] pre.shiny@[k]))
    &&& v == meshes(post.world.chunks@)
    &&& v.len() % 4 == 0
    &&& ix == quad_indices(v.len() as int / 4)
}

/// `post` is `pre` with the block at `c`, if any, lit with factor `shine`
/// and `c` listed for restoration.
pub open spec fn highlighted(pre: Milieu, post: Milieu, c: (int, int, int), shine: u32) -> bool {
    &&& post.wf()
    &&& post.seed == pre.seed
    &&& post.shiny@ == pre.shiny@.push((c.0 as i32, c.1 as i32, c.2 as i32, shine))
    &&& pre.world.looks_like(&post.world)
    &&& pre.world.kept_in(&post.world, key_set(c))
    &&& post.world.chunks@.len() == pre.world.chunks@.len()
    &&& forall|a: int, b: int, d: int|
        (a, b, d) != c ==> #[trigger] post.world.spot(a, b, d) == pre.world.spot(a, b, d)
    &&& pre.world.spot(c.0, c.1, c.2) matches Some(Spot::Rich(ob)) ==> (post.world.spot(
        c.0,
        c.1,
        c.2,
    ) matches Some(Spot::Rich(nb)) && nb.vertices@ == surface(
        pre.world,
        c.0,
        c.1,
        c.2,
        ob.color,
        ob.pattern,
        shine as int,
    ))
}

/// Worlds that hold the same voxels look alike.
pub proof fn lemma_looks_like_same(w1: InfiniteWorld, w2: InfiniteWorld)
    requires
        forall|a: int, b: int, d: int| #[trigger] w2.spot(a, b, d) == w1.spot(a, b, d),
    ensures
        w1.looks_like(&w2),
{
    assert forall|a: int, b: int, d: int| #[trigger] same_look_opt(w1.spot(a, b, d), w2.spot(a, b, d)) by {
        assert(w2.spot(a, b, d) == w1.spot(a, b, d));
        if w1.spot(a, b, d) is Some {
            let s = w1.spot(a, b, d)->Some_0;
            if s is Rich {
                assert(s.same_look(&s));
            }
        }
    }
}

pub proof fn lemma_looks_like_refl(w: InfiniteWorld)
    ensures
        w.looks_like(&w),
{
    lemma_looks_like_same(w, w);
}

/// A step that marks `m` followed by one that marks nothing marks `m`.
pub proof fn lemma_kept_then_same(w1: InfiniteWorld, w2: InfiniteWorld, w3: InfiniteWorld, m: Set<(int, int, int)>)
    requires
        w1.kept_in(&w2, m),
        w2.kept_in(&w3, Set::empty()),
    ensures
        w1.kept_in(&w3, m),
{
    w1.lemma_kept_trans(&w2, &w3, m, Set::empty());
    assert(m + Set::empty() =~= m);
}

/// The index, in the 3x3x3 cube centred on `t`, of a voxel of that cube.
pub proof fn lemma_box_index(t: (int, int, int), c: (int, int, int)) -> (m: int)
    requires
        in_box(t, c),
    ensures
        0 <= m < 27,
        box_cell(t, m) == c,
{
    let (p, q, r) = (c.0 - t.0 + 1, c.1 - t.1 + 1, c.2 - t.2 + 1);
    let m = p * 9 + q * 3 + r;
    assert(m / 9 == p && (m / 3) % 3 == q && m % 3 == r) by (nonlinear_arith)
        requires
            m == p * 9 + q * 3 + r,
            0 <= p < 3,
            0 <= q < 3,
            0 <= r < 3,
    ;
    m
}

pub proof fn lemma_meshes_same(c1: Seq<Chunk>, c2: Seq<Chunk>, n: int)
    requires
        0 <= n <= c1.len(),
        c1.len() == c2.len(),
        forall|i: int| 0 <= i < c1.len() ==> (#[trigger] c1[i]).mesh@ == c2[i].mesh@,
    ensures
        meshes_upto(c1, n) == meshes_upto(c2, n),
    decreases n,
{
    if n > 0 {
        lemma_meshes_same(c1, c2, n - 1);
        assert(c1[n - 1].mesh@ == c2[n - 1].mesh@);
    }
}

/// Rebuilds the mesh of every flagged chunk and clears the flags.
fn rebuild(w: &mut InfiniteWorld)
    requires
        old(w).wf(),
        old(w).quads(),
    ensures
        final(w).quads(),
        final(w).chunks@.len() == old(w).chunks@.len(),
        forall|i: int|
            0 <= i < old(w).chunks@.len() ==> {
                &&& (#[trigger] final(w).chunks@[i]).bigpos == old(w).chunks@[i].bigpos
                &&& final(w).chunks@[i].small == old(w).chunks@[i].small
                &&& final(w).chunks@[i].mesh@ == rebuilt(old(w).chunks@[i])
                &&& !final(w).chunks@[i].request
            },
        final(w).wf(),
        forall|a: int, b: int, c: int| #[trigger] final(w).spot(a, b, c) == old(w).spot(a, b, c),
{
    let mut i: usize = 0;
    while i < w.chunks.len()
        invariant
            old(w).wf(),
            i <= w.chunks@.len(),
            w.chunks@.len() == old(w).chunks@.len(),
            forall|m: int|
                0 <= m < old(w).chunks@.len() ==> {
                    &&& (#[trigger] w.chunks@[m]).bigpos == old(w).chunks@[m].bigpos
                    &&& w.chunks@[m].small == old(w).chunks@[m].small
                },
            forall|m: int|
                0 <= m < i ==> {
                    &&& (#[trigger] w.chunks@[m]).mesh@ == rebuilt(old(w).chunks@[m])
                    &&& !w.chunks@[m].request
                    &&& w.chunks@[m].mesh@.len() % 4 == 0
                },
            old(w).quads(),
            forall|m: int| i <= m < w.chunks@.len() ==> #[trigger] w.chunks@[m] == old(w).chunks@[m],
        decreases old(w).chunks@.len() - i,
    {
        proof {
            old(w).lemma_chunk_quads(i as int);
            assert(old(w).mesh_quads());
            assert(old(w).chunks@[i as int].mesh@.len() % 4 == 0);
        }
        if w.chunks[i].request {
            proof {
                assert(old(w).chunks@[i as int].wf());
            }
            let m = w.chunks[i].build_surface();
            w.chunks[i].mesh = m;
            w.chunks[i].request = false;
        }
        i += 1;
    }
    proof {
        old(w).lemma_same_cells(w);
        assert forall|a: int, b: int, c: int| #[trigger] w.cell_quads(a, b, c) by {
            assert(old(w).cell_quads(a, b, c));
        }
    }
}

proof fn lemma_meshes_quads(cs: Seq<Chunk>, n: int)
    requires
        0 <= n <= cs.len(),
        forall|i: int| 0 <= i < cs.len() ==> (#[trigger] cs[i]).mesh@.len() % 4 == 0,
    ensures
        meshes_upto(cs, n).len() % 4 == 0,
    decreases n,
{
    if n > 0 {
        lemma_meshes_quads(cs, n - 1);
        assert(cs[n - 1].mesh@.len() % 4 == 0);
    }
}

/// Concatenates the meshes of all chunks, in order.
fn gather(w: &InfiniteWorld) -> (v: Vec<Vertex>)
    ensures
        v@ == meshes(w.chunks@),
{
    let mut out: Vec<Vertex> = Vec::new();
    let mut i: usize = 0;
    while i < w.chunks.len()
        invariant
            i <= w.chunks@.len(),
            out@ == meshes_upto(w.chunks@, i as int),
        decreases w.chunks@.len() - i,
    {
        let mesh = &w.chunks[i].mesh;
        let n = mesh.len();
        let ghost before = out@;
        let mut k: usize = 0;
        while k < n
            invariant
                k <= n,
                n == mesh@.len(),
                out@ == before + mesh@.subrange(0, k as int),
            decreases n - k,
        {
            out.push(mesh[k]);
            k += 1;
            assert(mesh@.subrange(0, k as int) =~= mesh@.subrange(0, k - 1).push(mesh@[k - 1]));
        }
        assert(mesh@.subrange(0, n as int) =~= mesh@);
        i += 1;
    }
    out
}

/// Triangle indices for `n` quads: `[0, 1, 2, 0, 2, 3]` shifted by four per
/// quad.
fn quad_index_data(n: usize) -> (ix: Vec<u32>)
    requires
        4 * n <= usize::MAX,
    ensures
        ix@ == quad_indices(n as int),
{
    let mut ix: Vec<u32> = Vec::new();
    let mut q: usize = 0;
    while q < n
        invariant
            q <= n,
            4 * n <= usize::MAX,
            ix@.len() == 6 * q,
            forall|p: int| 0 <= p < 6 * q ==> #[trigger] ix@[p] == (4 * (p / 6) + quad_offset(p % 6)) as u32,
        decreases n - q,
    {
        let l: usize = q * 4;
        ix.push((l + 0) as u32);
        ix.push((l + 1) as u32);
        ix.push((l + 2) as u32);
        ix.push((l + 0) as u32);
        ix.push((l + 2) as u32);
        ix.push((l + 3) as u32);
        assert forall|p: int| 0 <= p < 6 * (q + 1) implies #[trigger] ix@[p] == (4 * (p / 6) + quad_offset(p % 6)) as u32 by {
            if p >= 6 * q {
                assert(p / 6 == q);
            }
        }
        q += 1;
    }
    assert(ix@ =~= quad_indices(n as int));
    ix
}

impl Milieu {
    /// The store is well formed and every cached surface and mesh is made of
    /// whole quads.
    pub open spec fn wf(&self) -> bool {
        &&& self.sound()
        &&& self.world.quads()
    }

    /// The world is well formed and every highlighted voxel is addressable.
    pub open spec fn sound(&self) -> bool {
        &&& self.world.wf()
        &&& forall|i: int|
            0 <= i < self.shiny@.len() ==> inside(
                (#[trigger] self.shiny@[i]).0 as int,
                self.shiny@[i].1 as int,
                self.shiny@[i].2 as int,
            )
    }

    pub fn new_full(seed: usize) -> (m: Milieu)
        ensures
            m.wf(),
            m.seed == seed,
            m.world.chunks@.len() == 0,
            m.shiny@.len() == 0,
            forall|x: int, y: int, z: int| #[trigger] m.world.spot(x, y, z) is None,
    {
        Milieu { world: InfiniteWorld::new_full(), seed, shiny: Vec::new() }
    }

    pub fn seed(&self) -> (r: usize)
        ensures
            r == self.seed,
    {
        self.seed
    }

    /// Flags the chunk of `(x, y, z)` for rebuild and, where a block stands
    /// there, recomputes its surface under highlight factor `shine`.
    fn refresh(&mut self, x: i32, y: i32, z: i32, shine: u32)
        requires
            old(self).sound(),
            inside(x as int, y as int, z as int),
        ensures
            final(self).sound(),
            old(self).world.mesh_quads() && (forall|a: int, b: int, d: int|
                (a, b, d) != (x as int, y as int, z as int) ==> #[trigger] old(self).world.cell_quads(a, b, d))
                ==> final(self).world.quads(),
            final(self).shiny == old(self).shiny,
            final(self).seed == old(self).seed,
            old(self).world.looks_like(&final(self).world),
            old(self).world.kept_in(&final(self).world, key_set((x as int, y as int, z as int))),
            final(self).world.chunks@.len() == old(self).world.chunks@.len(),
            forall|a: int, b: int, d: int|
                (a, b, d) != (x as int, y as int, z as int) ==> #[trigger] final(self).world.spot(
                    a,
                    b,
                    d,
                ) == old(self).world.spot(a, b, d),
            old(self).world.spot(x as int, y as int, z as int) matches Some(Spot::Rich(ob)) ==> (
            final(self).world.spot(x as int, y as int, z as int) matches Some(Spot::Rich(nb))
                && nb.vertices@ == surface(
                old(self).world,
                x as int,
                y as int,
                z as int,
                ob.color,
                ob.pattern,
                shine as int,
            )),
            !(old(self).world.spot(x as int, y as int, z as int) is Some && old(self).world.spot(
                x as int,
                y as int,
                z as int,
            )->Some_0 is Rich) ==> final(self).world.spot(x as int, y as int, z as int) == old(
                self,
            ).world.spot(x as int, y as int, z as int),
    {
        let ghost c = (x as int, y as int, z as int);
        let ghost w0 = self.world;
        let found = self.world.at_update(x, y, z);
        let ghost w1 = self.world;
        proof {
            lemma_looks_like_same(w0, w1);
            assert(w0.kept_in(&w1, key_set(c)));
        }
        if found {
            let look = match self.world.at(x, y, z) {
                Some(Spot::Rich(b)) => Some((b.color, b.pattern)),
                _ => None,
            };
            if let Some((color, pattern)) = look {
                let v = compute_surface(&self.world, x, y, z, color, pattern, shine);
                let (i, j) = match self.world.splice(x, y, z) {
                    Some(p) => p,
                    None => vstd::pervasive::unreached(),
                };
                let prev = self.world.replace(i, j, Spot::Empty, Ghost(c));
                match prev {
                    Spot::Rich(mut b) => {
                        b.vertices = v;
                        self.world.replace(i, j, Spot::Rich(b), Ghost(c));
                        proof {
                            let w3 = self.world;
                            assert(w0.same_openness(&w1));
                            lemma_surface_openness(w0, w1, c.0, c.1, c.2, color, pattern, shine as int, 6);
                            assert forall|a: int, b: int, d: int| #[trigger]
                                same_look_opt(w0.spot(a, b, d), w3.spot(a, b, d)) by {
                                if w0.spot(a, b, d) is Some {
                                    let s = w0.spot(a, b, d)->Some_0;
                                    if s is Rich {
                                        assert(s.same_look(&s));
                                    }
                                }
                            }
                            assert(w0.kept_in(&w3, key_set(c)));
                            lemma_surface_quads(w0, c.0, c.1, c.2, color, pattern, shine as int, 6);
                        }
                    },
                    _ => vstd::pervasive::unreached(),
                }
            }
        }
        proof {
            let w_f = self.world;
            if w0.mesh_quads() && (forall|a: int, b: int, d: int|
                (a, b, d) != c ==> #[trigger] w0.cell_quads(a, b, d)) {
                w0.lemma_kept_mesh_quads(&w_f, key_set(c));
                assert forall|a: int, b: int, d: int| #[trigger] w_f.cell_quads(a, b, d) by {
                    if (a, b, d) != c {
                        assert(w0.cell_quads(a, b, d));
                    }
                }
            }
        }
    }

    /// Fills each unexplored face neighbour of `(x, y, z)` with the block
    /// that `gen` returns for it.
    fn reveal_faces<F: Fn(i32, i32, i32) -> Block>(&mut self, x: i32, y: i32, z: i32, gen: &F)
        requires
            old(self).sound(),
            roomy(x as int, y as int, z as int),
            forall|a: i32, b: i32, c: i32| gen.requires((a, b, c)),
        ensures
            final(self).sound(),
            final(self).shiny == old(self).shiny,
            final(self).seed == old(self).seed,
            old(self).world.kept_in(&final(self).world, face_keys((x as int, y as int, z as int), 6)),
            forall|a: int, b: int, c: int|
                {
                    let t = (x as int, y as int, z as int);
                    if face_index(t, (a, b, c)) < 6 {
                        generated(old(self).world.spot(a, b, c), #[trigger] final(self).world.spot(a, b, c), *gen, (a, b, c))
                    } else {
                        final(self).world.spot(a, b, c) == made(old(self).world.spot(a, b, c), (a, b, c), face_keys(t, 6))
                    }
                },
    {
        let ghost t = (x as int, y as int, z as int);
        let ghost w1 = self.world;
        proof {
            assert(w1.kept_in(&w1, face_keys(t, 0)));
        }
        let mut f: usize = 0;
        while f < 6
            invariant
                self.sound(),
                roomy(x as int, y as int, z as int),
                t == (x as int, y as int, z as int),
                forall|a: i32, b: i32, c: i32| gen.requires((a, b, c)),
                self.shiny == old(self).shiny,
                self.seed == old(self).seed,
                w1 == old(self).world,
                f <= 6,
                w1.kept_in(&self.world, face_keys(t, f as int)),
                forall|a: int, b: int, c: int|
                    if face_index(t, (a, b, c)) < f {
                        generated(w1.spot(a, b, c), #[trigger] self.world.spot(a, b, c), *gen, (a, b, c))
                    } else {
                        self.world.spot(a, b, c) == made(w1.spot(a, b, c), (a, b, c), face_keys(t, f as int))
                    },
            decreases 6 - f,
        {
            let d = direction(f);
            let nx = x + d.0;
            let ny = y + d.1;
            let nz = z + d.2;
            let ghost n = (nx as int, ny as int, nz as int);
            assert(n == nb(t, f as int));
            assert(face_index(t, n) == f);
            let ghost w_a = self.world;
            let (i, j) = self.world.splice_mut(nx, ny, nz);
            let ghost w_b = self.world;
            let full = match self.world.at(nx, ny, nz) {
                Some(Spot::Full) => true,
                _ => false,
            };
            if full {
                let b = gen(nx, ny, nz);
                self.world.replace(i, j, Spot::Rich(Box::new(b)), Ghost(n));
                proof {
                    lemma_kept_then_same(w_a, w_b, self.world, key_set(n));
                }
            }
            proof {
                let w_c = self.world;
                let k = key_of(n.0, n.1, n.2);
                w1.lemma_kept_trans(&w_a, &w_c, face_keys(t, f as int), key_set(n));
                assert(face_keys(t, f as int) + key_set(n) =~= face_keys(t, f as int + 1));
                assert forall|a: int, b: int, c: int|
                    if face_index(t, (a, b, c)) < f + 1 {
                        generated(w1.spot(a, b, c), #[trigger] w_c.spot(a, b, c), *gen, (a, b, c))
                    } else {
                        w_c.spot(a, b, c) == made(w1.spot(a, b, c), (a, b, c), face_keys(t, f + 1))
                    } by {
                    if (a, b, c) != n {
                        assert(w_c.spot(a, b, c) == w_b.spot(a, b, c));
                        if w_a.spot(a, b, c) is None && key_of(a, b, c) == k {
                            assert(w_b.spot(a, b, c) == Some(Spot::Full));
                        }
                    }
                }
            }
            f += 1;
        }
    }

    /// Flags for rebuild the chunks of the 3x3x3 cube centred on `(x, y, z)`
    /// and recomputes the surface of every block in it.
    fn refresh_box(&mut self, x: i32, y: i32, z: i32)
        requires
            old(self).sound(),
            roomy(x as int, y as int, z as int),
        ensures
            final(self).sound(),
            final(self).shiny == old(self).shiny,
            final(self).seed == old(self).seed,
            old(self).world.looks_like(&final(self).world),
            old(self).world.kept_in(&final(self).world, box_keys((x as int, y as int, z as int), 27)),
            forall|a: int, b: int, c: int|
                !in_box((x as int, y as int, z as int), (a, b, c)) ==> #[trigger] final(self).world.spot(
                    a,
                    b,
                    c,
                ) == old(self).world.spot(a, b, c),
            forall|m: int|
                0 <= m < 27 ==> settled(final(self).world, #[trigger] box_cell((x as int, y as int, z as int), m)),
    {
        let ghost t = (x as int, y as int, z as int);
        let ghost w0 = self.world;
        proof {
            lemma_looks_like_refl(w0);
            assert(w0.kept_in(&w0, box_keys(t, 0)));
        }
        let mut m: usize = 0;
        while m < 27
            invariant
                self.sound(),
                roomy(x as int, y as int, z as int),
                t == (x as int, y as int, z as int),
                self.shiny == old(self).shiny,
                self.seed == old(self).seed,
                w0 == old(self).world,
                m <= 27,
                w0.looks_like(&self.world),
                w0.kept_in(&self.world, box_keys(t, m as int)),
                forall|a: int, b: int, c: int|
                    !in_box(t, (a, b, c)) ==> #[trigger] self.world.spot(a, b, c) == w0.spot(a, b, c),
                forall|k: int| 0 <= k < m ==> settled(self.world, #[trigger] box_cell(t, k)),
            decreases 27 - m,
        {
            let cx = x + ((m / 9) as i32 - 1);
            let cy = y + (((m / 3) % 3) as i32 - 1);
            let cz = z + ((m % 3) as i32 - 1);
            let ghost c = (cx as int, cy as int, cz as int);
            assert(c == box_cell(t, m as int));
            let ghost w_a = self.world;
            self.refresh(cx, cy, cz, PLAIN);
            proof {
                let w_b = self.world;
                lemma_looks_like_trans(w0, w_a, w_b);
                lemma_looks_like_openness(w_a, w_b);
                w0.lemma_kept_trans(&w_a, &w_b, box_keys(t, m as int), key_set(c));
                assert(box_keys(t, m as int) + key_set(c) =~= box_keys(t, m as int + 1));
                assert forall|k: int| 0 <= k < m + 1 implies settled(w_b, #[trigger] box_cell(t, k)) by {
                    let e = box_cell(t, k);
                    if e == c {
                        if let Some(Spot::Rich(ob)) = w_a.spot(c.0, c.1, c.2) {
                            assert(same_look_opt(w_a.spot(c.0, c.1, c.2), w_b.spot(c.0, c.1, c.2)));
                            lemma_surface_openness(w_a, w_b, c.0, c.1, c.2, ob.color, ob.pattern, PLAIN as int, 6);
                        }
                    } else {
                        assert(settled(w_a, e));
                        assert(w_b.spot(e.0, e.1, e.2) == w_a.spot(e.0, e.1, e.2));
                        if let Some(Spot::Rich(ob)) = w_a.spot(e.0, e.1, e.2) {
                            lemma_surface_openness(w_a, w_b, e.0, e.1, e.2, ob.color, ob.pattern, PLAIN as int, 6);
                        }
                    }
                }
            }
            m += 1;
        }
    }

    /// Reveals around `(x, y, z)`: leaves that voxel `Empty`, returning the
    /// block it held if any; fills each unexplored face neighbour with the
    /// block `gen` returns for that neighbour; then recomputes the surface of
    /// every block in the 3x3x3 cube centred on `(x, y, z)` and flags that
    /// cube's chunks for rebuild.
    pub fn pull<F: Fn(i32, i32, i32) -> Block>(&mut self, x: i32, y: i32, z: i32, gen: &F) -> (r: Option<Block>)
        requires
            old(self).wf(),
            roomy(x as int, y as int, z as int),
            forall|a: i32, b: i32, c: i32| gen.requires((a, b, c)),
        ensures
            revealed(*old(self), *final(self), (x as int, y as int, z as int), *gen, r),
    {
        let ghost t = (x as int, y as int, z as int);
        let ghost w0 = self.world;
        let (i, j) = self.world.splice_mut(x, y, z);
        let ghost w_m = self.world;
        let prev = self.world.replace(i, j, Spot::Empty, Ghost(t));
        let ret = match prev {
            Spot::Rich(b) => Some(*b),
            _ => None,
        };
        let ghost w1 = self.world;
        proof {
            lemma_kept_then_same(w0, w_m, w1, key_set(t));
            assert forall|a: int, b: int, c: int| (a, b, c) != t implies #[trigger] w1.spot(a, b, c) == made(
                w0.spot(a, b, c),
                (a, b, c),
                key_set(t),
            ) by {
                assert(w1.spot(a, b, c) == w_m.spot(a, b, c));
            }
        }
        self.reveal_faces(x, y, z, gen);
        let ghost w2 = self.world;
        self.refresh_box(x, y, z);
        proof {
            let w3 = self.world;
            w0.lemma_kept_trans(&w1, &w2, key_set(t), face_keys(t, 6));
            w0.lemma_kept_trans(&w2, &w3, key_set(t) + face_keys(t, 6), box_keys(t, 27));
            assert(key_set(t) + face_keys(t, 6) + box_keys(t, 27) =~= box_keys(t, 27)) by {
                assert(t == box_cell(t, 13));
                assert(nb(t, 0) == box_cell(t, 10));
                assert(nb(t, 1) == box_cell(t, 16));
                assert(nb(t, 2) == box_cell(t, 12));
                assert(nb(t, 3) == box_cell(t, 14));
                assert(nb(t, 4) == box_cell(t, 4));
                assert(nb(t, 5) == box_cell(t, 22));
                reveal_with_fuel(box_keys, 28);
                reveal_with_fuel(face_keys, 7);
            }
            assert forall|a: int, b: int, c: int| (a, b, c) != t implies #[trigger] w2.spot(a, b, c) == made(
                w0.spot(a, b, c),
                (a, b, c),
                reveal_keys(t),
            ) || (face_index(t, (a, b, c)) < 6 && unexplored(w0.spot(a, b, c))) by {
                assert(w1.spot(a, b, c) == made(w0.spot(a, b, c), (a, b, c), key_set(t)));
                if face_index(t, (a, b, c)) < 6 {
                    assert(generated(w1.spot(a, b, c), w2.spot(a, b, c), *gen, (a, b, c)));
                } else {
                    assert(w2.spot(a, b, c) == made(w1.spot(a, b, c), (a, b, c), face_keys(t, 6)));
                }
            }
            assert forall|a: int, b: int, c: int|
                face_index(t, (a, b, c)) < 6 && unexplored(w0.spot(a, b, c)) implies (
                #[trigger] w3.spot(a, b, c) matches Some(Spot::Rich(nb))
                    && exists|b0: Block| gen.ensures((a as i32, b as i32, c as i32), b0) && nb.same_look(&b0)) by {
                assert((a, b, c) != t);
                assert(w1.spot(a, b, c) == made(w0.spot(a, b, c), (a, b, c), key_set(t)));
                assert(generated(w1.spot(a, b, c), w2.spot(a, b, c), *gen, (a, b, c)));
                assert(same_look_opt(w2.spot(a, b, c), w3.spot(a, b, c)));
                let b0 = *(w2.spot(a, b, c)->Some_0->Rich_0);
                let b3 = *(w3.spot(a, b, c)->Some_0->Rich_0);
                assert(gen.ensures((a as i32, b as i32, c as i32), b0));
                assert(b3.same_look(&b0));
            }
            assert forall|a: int, b: int, c: int|
                (a, b, c) != t && !(face_index(t, (a, b, c)) < 6 && unexplored(w0.spot(a, b, c)))
                    implies same_look_opt(
                    made(w0.spot(a, b, c), (a, b, c), reveal_keys(t)),
                    #[trigger] w3.spot(a, b, c),
                ) by {
                assert(w2.spot(a, b, c) == made(w0.spot(a, b, c), (a, b, c), reveal_keys(t)));
                assert(same_look_opt(w2.spot(a, b, c), w3.spot(a, b, c)));
            }
            assert forall|a: int, b: int, c: int| !in_box(t, (a, b, c)) implies #[trigger] w3.spot(a, b, c)
                == made(w0.spot(a, b, c), (a, b, c), reveal_keys(t)) by {
                assert((a, b, c) != t);
                assert(face_index(t, (a, b, c)) == 6);
                assert(w2.spot(a, b, c) == made(w0.spot(a, b, c), (a, b, c), reveal_keys(t)));
                assert(w3.spot(a, b, c) == w2.spot(a, b, c));
            }
            assert(w2.spot(t.0, t.1, t.2) == made(w1.spot(t.0, t.1, t.2), t, face_keys(t, 6)));
            assert(same_look_opt(w2.spot(t.0, t.1, t.2), w3.spot(t.0, t.1, t.2)));
            w0.lemma_kept_mesh_quads(&w3, box_keys(t, 27));
            assert forall|a: int, b: int, c: int| #[trigger] w3.cell_quads(a, b, c) by {
                if in_box(t, (a, b, c)) {
                    let m = lemma_box_index(t, (a, b, c));
                    assert(settled(w3, box_cell(t, m)));
                    if let Some(Spot::Rich(bl)) = w3.spot(a, b, c) {
                        lemma_surface_quads(w3, a, b, c, bl.color, bl.pattern, PLAIN as int, 6);
                    }
                } else {
                    assert(w0.cell_quads(a, b, c));
                    assert(w3.spot(a, b, c) == made(w0.spot(a, b, c), (a, b, c), reveal_keys(t)));
                }
            }
        }
        ret
    }

    /// Places `b` at `(rx, ry, rz)`, then recomputes the surface of every
    /// block in the 3x3x3 cube centred there, itself included, and flags
    /// that cube's chunks for rebuild.
    pub fn put(&mut self, rx: i32, ry: i32, rz: i32, b: Block)
        requires
            old(self).wf(),
            roomy(rx as int, ry as int, rz as int),
        ensures
            placed(*old(self), *final(self), (rx as int, ry as int, rz as int), b),
    {
        let ghost c = (rx as int, ry as int, rz as int);
        let ghost w0 = self.world;
        let (i, j) = self.world.splice_mut(rx, ry, rz);
        let ghost w1 = self.world;
        self.world.replace(i, j, Spot::Rich(Box::new(b)), Ghost(c));
        let ghost w2 = self.world;
        proof {
            lemma_kept_then_same(w0, w1, w2, key_set(c));
        }
        self.finish_edit(rx, ry, rz, Ghost(*old(self)));
        proof {
            assert(same_look_opt(w2.spot(c.0, c.1, c.2), self.world.spot(c.0, c.1, c.2)));
        }
    }

    /// Removes the block at `(x, y, z)`, leaving `Empty`, and returns it; a
    /// voxel without a block keeps its state. Then recomputes the surface of
    /// every block in the 3x3x3 cube centred there and flags that cube's
    /// chunks for rebuild.
    pub fn yank(&mut self, x: i32, y: i32, z: i32) -> (r: Option<Block>)
        requires
            old(self).wf(),
            roomy(x as int, y as int, z as int),
        ensures
            removed(*old(self), *final(self), (x as int, y as int, z as int), r),
    {
        let ghost c = (x as int, y as int, z as int);
        let ghost w0 = self.world;
        let (i, j) = self.world.splice_mut(x, y, z);
        let ghost w1 = self.world;
        let prev = self.world.replace(i, j, Spot::Empty, Ghost(c));
        let ghost w2 = self.world;
        proof {
            lemma_kept_then_same(w0, w1, w2, key_set(c));
        }
        let r = match prev {
            Spot::Rich(b) => Some(*b),
            other => {
                self.world.replace(i, j, other, Ghost(c));
                proof {
                    lemma_kept_then_same(w0, w2, self.world, key_set(c));
                }
                None
            },
        };
        let ghost w3 = self.world;
        self.finish_edit(x, y, z, Ghost(*old(self)));
        proof {
            assert(same_look_opt(w3.spot(c.0, c.1, c.2), self.world.spot(c.0, c.1, c.2)));
            assert(w3.spot(c.0, c.1, c.2) == Some(prev) || w3.spot(c.0, c.1, c.2) == Some(Spot::Empty));
            assert(w1.spot(c.0, c.1, c.2) == with_chunk_of(*old(self), c, c));
        }
        r
    }

    /// Completes an edit at `c` made on `pre`: `self` differs from `pre` only
    /// at `c` and in the chunk of `c`, made if missing and flagged. Recomputes
    /// the surfaces of the cube around `c`.
    fn finish_edit(&mut self, x: i32, y: i32, z: i32, Ghost(pre): Ghost<Milieu>)
        requires
            pre.wf(),
            roomy(x as int, y as int, z as int),
            old(self).sound(),
            old(self).shiny == pre.shiny,
            old(self).seed == pre.seed,
            pre.world.kept_in(&old(self).world, key_set((x as int, y as int, z as int))),
            forall|a: int, e: int, d: int|
                (a, e, d) != (x as int, y as int, z as int) ==> #[trigger] old(self).world.spot(a, e, d)
                    == with_chunk_of(pre, (x as int, y as int, z as int), (a, e, d)),
        ensures
            edited_around(pre, *final(self), (x as int, y as int, z as int)),
            old(self).world.looks_like(&final(self).world),
    {
        let ghost t = (x as int, y as int, z as int);
        let ghost w0 = pre.world;
        let ghost w1 = self.world;
        self.refresh_box(x, y, z);
        proof {
            let w2 = self.world;
            w0.lemma_kept_trans(&w1, &w2, key_set(t), box_keys(t, 27));
            assert(key_set(t) + box_keys(t, 27) =~= box_keys(t, 27)) by {
                assert(t == box_cell(t, 13));
                reveal_with_fuel(box_keys, 28);
            }
            assert forall|a: int, e: int, d: int| (a, e, d) != t implies same_look_opt(
                with_chunk_of(pre, t, (a, e, d)),
                #[trigger] w2.spot(a, e, d),
            ) by {
                assert(same_look_opt(w1.spot(a, e, d), w2.spot(a, e, d)));
            }
            assert forall|a: int, e: int, d: int| !in_box(t, (a, e, d)) implies #[trigger] w2.spot(a, e, d)
                == with_chunk_of(pre, t, (a, e, d)) by {
                assert((a, e, d) != t);
                assert(w2.spot(a, e, d) == w1.spot(a, e, d));
            }
            w0.lemma_kept_mesh_quads(&w2, box_keys(t, 27));
            assert forall|a: int, e: int, d: int| #[trigger] w2.cell_quads(a, e, d) by {
                if in_box(t, (a, e, d)) {
                    let m = lemma_box_index(t, (a, e, d));
                    assert(settled(w2, box_cell(t, m)));
                    if let Some(Spot::Rich(bl)) = w2.spot(a, e, d) {
                        lemma_surface_quads(w2, a, e, d, bl.color, bl.pattern, PLAIN as int, 6);
                    }
                } else {
                    assert((a, e, d) != t);
                    assert(w0.cell_quads(a, e, d));
                    assert(w2.spot(a, e, d) == w1.spot(a, e, d));
                }
            }
        }
    }

    /// Lights the block at `(x, y, z)`, if any, with factor `shine`
    /// (hundredths) and lists it for restoration at the next collection.
    pub fn set_shiny(&mut self, x: i32, y: i32, z: i32, shine: u32)
        requires
            old(self).wf(),
            inside(x as int, y as int, z as int),
        ensures
            highlighted(*old(self), *final(self), (x as int, y as int, z as int), shine),
    {
        self.refresh(x, y, z, shine);
        self.shiny.push((x, y, z, shine));
    }

    /// Restores every listed block to ordinary lighting, flags its chunk for
    /// rebuild, and empties the list.
    pub fn clear_shiny(&mut self)
        requires
            old(self).wf(),
        ensures
            final(self).wf(),
            final(self).seed == old(self).seed,
            final(self).shiny@.len() == 0,
            old(self).world.looks_like(&final(self).world),
            old(self).world.kept_in(&final(self).world, entry_keys(old(self).shiny@, old(self).shiny@.len() as int)),
            final(self).world.chunks@.len() == old(self).world.chunks@.len(),
            forall|a: int, b: int, c: int|
                !listed(old(self).shiny@, old(self).shiny@.len() as int, (a, b, c))
                    ==> #[trigger] final(self).world.spot(a, b, c) == old(self).world.spot(a, b, c),
            forall|k: int|
                0 <= k < old(self).shiny@.len() ==> settled(final(self).world, entry_cell(#[trigger] old(self).shiny@[k])),
    {
        let ghost w0 = self.world;
        let ghost s0 = self.shiny@;
        proof {
            lemma_looks_like_refl(w0);
            assert(w0.kept_in(&w0, entry_keys(s0, 0)));
        }
        let mut i: usize = 0;
        while i < self.shiny.len()
            invariant
                self.wf(),
                self.seed == old(self).seed,
                self.shiny@ == s0,
                w0 == old(self).world,
                s0 == old(self).shiny@,
                i <= s0.len(),
                w0.looks_like(&self.world),
                w0.kept_in(&self.world, entry_keys(s0, i as int)),
                self.world.chunks@.len() == w0.chunks@.len(),
                forall|a: int, b: int, c: int|
                    !listed(s0, i as int, (a, b, c)) ==> #[trigger] self.world.spot(a, b, c) == w0.spot(a, b, c),
                forall|k: int| 0 <= k < i ==> settled(self.world, entry_cell(#[trigger] s0[k])),
            decreases s0.len() - i,
        {
            let (x, y, z, _) = self.shiny[i];
            let ghost c = (x as int, y as int, z as int);
            assert(c == entry_cell(s0[i as int]));
            let ghost w_a = self.world;
            self.refresh(x, y, z, PLAIN);
            proof {
                let w_b = self.world;
                lemma_looks_like_trans(w0, w_a, w_b);
                lemma_looks_like_openness(w_a, w_b);
                w0.lemma_kept_trans(&w_a, &w_b, entry_keys(s0, i as int), key_set(c));
                assert(entry_keys(s0, i as int) + key_set(c) =~= entry_keys(s0, i as int + 1));
                assert forall|k: int| 0 <= k < i + 1 implies settled(w_b, entry_cell(#[trigger] s0[k])) by {
                    let e = entry_cell(s0[k]);
                    if e == c {
                        if let Some(Spot::Rich(ob)) = w_a.spot(c.0, c.1, c.2) {
                            assert(same_look_opt(w_a.spot(c.0, c.1, c.2), w_b.spot(c.0, c.1, c.2)));
                            lemma_surface_openness(w_a, w_b, c.0, c.1, c.2, ob.color, ob.pattern, PLAIN as int, 6);
                        }
                    } else {
                        assert(settled(w_a, e));
                        assert(w_b.spot(e.0, e.1, e.2) == w_a.spot(e.0, e.1, e.2));
                        if let Some(Spot::Rich(ob)) = w_a.spot(e.0, e.1, e.2) {
                            lemma_surface_openness(w_a, w_b, e.0, e.1, e.2, ob.color, ob.pattern, PLAIN as int, 6);
                        }
                    }
                }
            }
            i += 1;
        }
        self.shiny = Vec::new();
    }

    /// Rebuilds the flagged chunks, returns every chunk's mesh concatenated
    /// with triangle indices for its quads, then restores highlighted blocks
    /// to ordinary lighting.
    pub fn get_vertex_data(&mut self) -> (r: (Vec<Vertex>, Vec<u32>))
        requires
            old(self).wf(),
        ensures
            collected(*old(self), *final(self), r.0@, r.1@),
    {
        self.clear_shiny();
        let ghost w_c = self.world;
        rebuild(&mut self.world);
        let vertex_data = gather(&self.world);
        let index_data = quad_index_data(vertex_data.len() / 4);
        proof {
            let post = *self;
            lemma_looks_like_same(w_c, post.world);
            lemma_looks_like_trans(old(self).world, w_c, post.world);
            lemma_looks_like_openness(w_c, post.world);
            assert forall|k: int| 0 <= k < old(self).shiny@.len() implies settled(
                post.world,
                entry_cell(#[trigger] old(self).shiny@[k]),
            ) by {
                let e = entry_cell(old(self).shiny@[k]);
                assert(settled(w_c, e));
                if let Some(Spot::Rich(bl)) = post.world.spot(e.0, e.1, e.2) {
                    lemma_surface_openness(w_c, post.world, e.0, e.1, e.2, bl.color, bl.pattern, PLAIN as int, 6);
                }
            }
            lemma_meshes_quads(post.world.chunks@, post.world.chunks@.len() as int);
            assert forall|i: int| 0 <= i < old(self).world.chunks@.len() implies {
                &&& (#[trigger] post.world.chunks@[i]).key() == old(self).world.chunks@[i].key()
                &&& !post.world.chunks@[i].request
                &&& post.world.chunks@[i].mesh@ == if old(self).world.chunks@[i].request || entry_keys(
                    old(self).shiny@,
                    old(self).shiny@.len() as int,
                ).contains(old(self).world.chunks@[i].key()) {
                    post.world.chunks@[i].surface()
                } else {
                    old(self).world.chunks@[i].mesh@
                }
            } by {
                assert(w_c.chunks@[i].key() == old(self).world.chunks@[i].key());
                assert(post.world.chunks@[i].small == w_c.chunks@[i].small);
            }
        }
        (vertex_data, index_data)
    }

    /// Walks `path`, the voxels a view ray crosses in order, and returns the
    /// first that holds a block with the voxel visited just before it.
    /// Unexplored voxels do not stop the walk.
    pub fn viewcast(&self, path: &Vec<(i32, i32, i32)>) -> (r: (Option<(i32, i32, i32)>, Option<(i32, i32, i32)>))
        requires
            self.wf(),
        ensures
            r == cast(self.world, path@),
    {
        let mut temp: Option<(i32, i32, i32)> = None;
        let mut i: usize = 0;
        while i < path.len()
            invariant
                self.wf(),
                i <= path@.len(),
                first_rich_from(self.world, path@, 0) == first_rich_from(self.world, path@, i as int),
                temp == if i > 0 {
                    Some(path@[i - 1])
                } else {
                    None
                },
            decreases path@.len() - i,
        {
            let (x, y, z) = path[i];
            let rich = match self.world.at(x, y, z) {
                Some(Spot::Rich(_)) => true,
                _ => false,
            };
            if rich {
                return (Some((x, y, z)), temp);
            }
            temp = Some((x, y, z));
            i += 1;
        }
        (None, None)
    }
}

} // verus!
