//! Properties of the store that relate several operations.
use vstd::prelude::*;
use crate::block::{Block, Rgba, Spot, Vertex};
use crate::chunk::Chunk;
use crate::milieu::{
    box_cell, box_keys, lemma_box_index, made, reveal_keys, placed, edited_around, with_chunk_of, removed, key_set, face_index, in_box, meshes_upto, untouched, PLAIN,
    args_of, cast, first_rich_from, rich_at, collected, highlighted, lemma_meshes_same, listed, entry_keys, revealed, settled,
    unexplored, Milieu,
};
use crate::surface::{inside, lemma_surface_local, lemma_surface_openness, same_openness_near};
use crate::world::{look_of, same_color_opt, same_look_opt, InfiniteWorld};

verus! {

/// What one reveal around `t` does at voxel `c`: `t` becomes `Empty`; an
/// unexplored face neighbour becomes a block with the look of one `gen`
/// returns for it; any other voxel keeps its state and look, its chunk made
/// if it is among those of the reveal.
proof fn lemma_reveal_at<F: Fn(i32, i32, i32) -> Block>(
    pre: Milieu,
    post: Milieu,
    t: (int, int, int),
    gen: F,
    r: Option<Block>,
    c: (int, int, int),
)
    requires
        revealed(pre, post, t, gen, r),
    ensures
        ({
            let before = pre.world.spot(c.0, c.1, c.2);
            let after = post.world.spot(c.0, c.1, c.2);
            &&& c == t ==> after == Some(Spot::Empty)
            &&& c != t && face_index(t, c) < 6 && unexplored(before) ==> after is Some && after->Some_0 is Rich
                && exists|b0: Block| #[trigger] gen.ensures(args_of(c), b0) && look_of(after) == Some(
                (b0.color, b0.pattern),
            )
            &&& c != t && !(face_index(t, c) < 6 && unexplored(before)) ==> same_look_opt(
                made(before, c, reveal_keys(t)),
                after,
            )
        }),
{
    let before = pre.world.spot(c.0, c.1, c.2);
    let after = post.world.spot(c.0, c.1, c.2);
    if c != t && face_index(t, c) < 6 && unexplored(before) {
        if let Some(Spot::Rich(x)) = after {
            let b0 = choose|b0: Block| gen.ensures((c.0 as i32, c.1 as i32, c.2 as i32), b0) && x.same_look(&b0);
            assert(gen.ensures(args_of(c), b0));
        }
    }
}

/// Revealing around `a` and then `b`, or around `b` and then `a`, gives
/// the same world voxel by voxel: the same state (no chunk, `Empty`,
/// `Full`, block) and, for blocks, the same look, when the generator gives
/// each coordinate a single look `g`.
pub proof fn lemma_reveal_order_free<F: Fn(i32, i32, i32) -> Block>(
    m0: Milieu,
    ma: Milieu,
    mab: Milieu,
    mb: Milieu,
    mba: Milieu,
    a: (int, int, int),
    b: (int, int, int),
    gen: F,
    g: spec_fn((i32, i32, i32)) -> (Rgba, usize),
    r1: Option<Block>,
    r2: Option<Block>,
    r3: Option<Block>,
    r4: Option<Block>,
)
    requires
        forall|args: (i32, i32, i32), blk: Block| gen.ensures(args, blk) ==> (blk.color, blk.pattern) == g(args),
        revealed(m0, ma, a, gen, r1),
        revealed(ma, mab, b, gen, r2),
        revealed(m0, mb, b, gen, r3),
        revealed(mb, mba, a, gen, r4),
    ensures
        forall|x: int, y: int, z: int|
            same_look_opt(#[trigger] mab.world.spot(x, y, z), mba.world.spot(x, y, z)),
{
    assert forall|x: int, y: int, z: int|
        same_look_opt(#[trigger] mab.world.spot(x, y, z), mba.world.spot(x, y, z)) by {
        let c = (x, y, z);
        lemma_reveal_at(m0, ma, a, gen, r1, c);
        lemma_reveal_at(ma, mab, b, gen, r2, c);
        lemma_reveal_at(m0, mb, b, gen, r3, c);
        lemma_reveal_at(mb, mba, a, gen, r4, c);
    }
}

/// Revealing around `a` and then `b`, or around `b` and then `a`, gives
/// the same world voxel by voxel: the same state (no chunk, `Empty`,
/// `Full`, block) and, for blocks, the same colour, when the generator
/// gives each coordinate a single colour `g` (its texture pattern may
/// vary from call to call).
pub proof fn lemma_reveal_order_free_colors<F: Fn(i32, i32, i32) -> Block>(
    m0: Milieu,
    ma: Milieu,
    mab: Milieu,
    mb: Milieu,
    mba: Milieu,
    a: (int, int, int),
    b: (int, int, int),
    gen: F,
    g: spec_fn((i32, i32, i32)) -> Rgba,
    r1: Option<Block>,
    r2: Option<Block>,
    r3: Option<Block>,
    r4: Option<Block>,
)
    requires
        forall|args: (i32, i32, i32), blk: Block| gen.ensures(args, blk) ==> blk.color == g(args),
        revealed(m0, ma, a, gen, r1),
        revealed(ma, mab, b, gen, r2),
        revealed(m0, mb, b, gen, r3),
        revealed(mb, mba, a, gen, r4),
    ensures
        forall|x: int, y: int, z: int|
            same_color_opt(#[trigger] mab.world.spot(x, y, z), mba.world.spot(x, y, z)),
{
    assert forall|x: int, y: int, z: int|
        same_color_opt(#[trigger] mab.world.spot(x, y, z), mba.world.spot(x, y, z)) by {
        let c = (x, y, z);
        lemma_reveal_at(m0, ma, a, gen, r1, c);
        lemma_reveal_at(ma, mab, b, gen, r2, c);
        lemma_reveal_at(m0, mb, b, gen, r3, c);
        lemma_reveal_at(mb, mba, a, gen, r4, c);
    }
}

/// Collecting the geometry twice, with no edit in between, gives the same
/// buffers both times.
pub proof fn lemma_collect_idempotent(
    m0: Milieu,
    m1: Milieu,
    m2: Milieu,
    v1: Seq<crate::block::Vertex>,
    ix1: Seq<u32>,
    v2: Seq<crate::block::Vertex>,
    ix2: Seq<u32>,
)
    requires
        collected(m0, m1, v1, ix1),
        collected(m1, m2, v2, ix2),
    ensures
        v1 == v2,
        ix1 == ix2,
{
    assert forall|i: int| 0 <= i < m1.world.chunks@.len() implies (#[trigger] m1.world.chunks@[i]).mesh@
        == m2.world.chunks@[i].mesh@ by {
        assert(!entry_keys(m1.shiny@, 0).contains(m1.world.chunks@[i].key()));
        assert(!m1.world.chunks@[i].request);
    }
    lemma_meshes_same(m1.world.chunks@, m2.world.chunks@, m1.world.chunks@.len() as int);
}

/// After highlighting voxel `c` and collecting the geometry once, the block
/// at `c`, if any, carries the surface of ordinary lighting, nothing is
/// highlighted any more, and the returned mesh of the chunk of `c` is built
/// from that restored surface.
pub proof fn lemma_highlight_restored(
    m0: Milieu,
    m1: Milieu,
    m2: Milieu,
    c: (int, int, int),
    shine: u32,
    v: Seq<crate::block::Vertex>,
    ix: Seq<u32>,
)
    requires
        inside(c.0, c.1, c.2),
        highlighted(m0, m1, c, shine),
        collected(m1, m2, v, ix),
    ensures
        settled(m2.world, c),
        m2.shiny@.len() == 0,
        forall|i: int|
            0 <= i < m2.world.chunks@.len() && (#[trigger] m2.world.chunks@[i]).key() == crate::world::key_of(
                c.0,
                c.1,
                c.2,
            ) ==> m2.world.chunks@[i].mesh@ == m2.world.chunks@[i].surface(),
{
    let n = m1.shiny@.len() as int;
    let k = n - 1;
    assert(crate::milieu::entry_cell(m1.shiny@[k]) == c);
    assert(entry_keys(m1.shiny@, n).contains(crate::world::key_of(c.0, c.1, c.2)));
}

proof fn lemma_first_rich(w: InfiniteWorld, path: Seq<(i32, i32, i32)>, i: int, k: int)
    requires
        0 <= i <= k < path.len(),
        rich_at(w, path[k]),
        forall|j: int| i <= j < k ==> !rich_at(w, #[trigger] path[j]),
    ensures
        first_rich_from(w, path, i) == Some(k),
    decreases k - i,
{
    if i < k {
        lemma_first_rich(w, path, i + 1, k);
    }
}

/// Casting straight down a column onto a block, with no block in the
/// column above it, selects that block and the voxel right above it.
pub proof fn lemma_cast_down(w: InfiniteWorld, path: Seq<(i32, i32, i32)>, v: (i32, i32, i32), k: int)
    requires
        0 < k < path.len(),
        path[k] == v,
        rich_at(w, v),
        forall|j: int|
            0 <= j < k ==> (#[trigger] path[j]).0 == v.0 && path[j].1 as int == v.1 + (k - j)
                && path[j].2 == v.2 && !rich_at(w, path[j]),
    ensures
        cast(w, path) == (Some(v), Some((v.0, (v.1 + 1) as i32, v.2))),
{
    lemma_first_rich(w, path, 0, k);
    assert(path[k - 1].1 as int == v.1 + 1);
}

/// Every block carries the surface of its place in the world, every chunk
/// not flagged for rebuild carries the concatenation of its blocks'
/// surfaces, and nothing is highlighted.
pub open spec fn consistent(m: Milieu) -> bool {
    &&& m.wf()
    &&& m.shiny@.len() == 0
    &&& forall|a: int, b: int, c: int| #[trigger] settled(m.world, (a, b, c))
    &&& forall|i: int|
        0 <= i < m.world.chunks@.len() && !m.world.chunks@[i].request ==> (#[trigger] m.world.chunks@[i]).mesh@
            == m.world.chunks@[i].surface()
}

/// The chunks' block surfaces, chunk after chunk.
pub open spec fn surfaces_upto(cs: Seq<Chunk>, n: int) -> Seq<Vertex>
    decreases n,
{
    if n <= 0 {
        Seq::empty()
    } else {
        surfaces_upto(cs, n - 1) + cs[n - 1].surface()
    }
}

proof fn lemma_meshes_are_surfaces(cs: Seq<Chunk>, n: int)
    requires
        0 <= n <= cs.len(),
        forall|i: int| 0 <= i < cs.len() ==> (#[trigger] cs[i]).mesh@ == cs[i].surface(),
    ensures
        meshes_upto(cs, n) == surfaces_upto(cs, n),
    decreases n,
{
    if n > 0 {
        lemma_meshes_are_surfaces(cs, n - 1);
        assert(cs[n - 1].mesh@ == cs[n - 1].surface());
    }
}

proof fn lemma_box_keys_contains(t: (int, int, int), m: int, n: int)
    requires
        0 <= m < n,
    ensures
        box_keys(t, n).contains(crate::world::key_of(box_cell(t, m).0, box_cell(t, m).1, box_cell(t, m).2)),
    decreases n,
{
    if m < n - 1 {
        lemma_box_keys_contains(t, m, n - 1);
    }
}

proof fn lemma_in_box_key(t: (int, int, int), c: (int, int, int))
    requires
        in_box(t, c),
    ensures
        box_keys(t, 27).contains(crate::world::key_of(c.0, c.1, c.2)),
{
    let m = lemma_box_index(t, c);
    lemma_box_keys_contains(t, m, 27);
}

/// A reveal around `t` changes whether a voxel is open at `t` alone.
proof fn lemma_reveal_openness<F: Fn(i32, i32, i32) -> Block>(
    pre: Milieu,
    post: Milieu,
    t: (int, int, int),
    gen: F,
    r: Option<Block>,
    d: (int, int, int),
)
    requires
        revealed(pre, post, t, gen, r),
        d != t,
    ensures
        pre.world.is_open(d.0, d.1, d.2) == post.world.is_open(d.0, d.1, d.2),
{
    let before = pre.world.spot(d.0, d.1, d.2);
    let after = post.world.spot(d.0, d.1, d.2);
    if !(face_index(t, d) < 6 && unexplored(before)) {
        assert(same_look_opt(made(before, d, reveal_keys(t)), after));
    }
}

/// An empty store is consistent.
pub proof fn lemma_fresh_consistent(m: Milieu)
    requires
        m.wf(),
        m.shiny@.len() == 0,
        forall|a: int, b: int, c: int| #[trigger] m.world.spot(a, b, c) is None,
        m.world.chunks@.len() == 0,
    ensures
        consistent(m),
{
}

/// An edit at `t` that changes openness at `t` alone, changes nothing
/// outside the 3x3x3 cube centred on `t` but missing chunks, recomputes the
/// surfaces in that cube and flags its chunks keeps the store consistent.
proof fn lemma_edit_consistent(pre: Milieu, post: Milieu, t: (int, int, int))
    requires
        consistent(pre),
        post.wf(),
        post.shiny@.len() == 0,
        pre.world.kept_in(&post.world, box_keys(t, 27)),
        forall|a: int, b: int, c: int|
            (a, b, c) != t ==> #[trigger] post.world.is_open(a, b, c) == pre.world.is_open(a, b, c),
        forall|a: int, b: int, c: int|
            !in_box(t, (a, b, c)) ==> untouched(pre.world.spot(a, b, c), #[trigger] post.world.spot(a, b, c)),
        forall|m: int| 0 <= m < 27 ==> settled(post.world, #[trigger] box_cell(t, m)),
    ensures
        consistent(post),
{
    assert forall|a: int, b: int, c: int| #[trigger] settled(post.world, (a, b, c)) by {
        let e = (a, b, c);
        if in_box(t, e) {
            let m = lemma_box_index(t, e);
            assert(settled(post.world, box_cell(t, m)));
        } else {
            assert(untouched(pre.world.spot(a, b, c), post.world.spot(a, b, c)));
            assert(settled(pre.world, e));
            if let Some(Spot::Rich(x)) = post.world.spot(a, b, c) {
                assert forall|p: int, q: int, s: int|
                    a - 1 <= p <= a + 1 && b - 1 <= q <= b + 1 && c - 1 <= s <= c + 1 implies #[trigger] pre.world.is_open(
                        p,
                        q,
                        s,
                    ) == post.world.is_open(p, q, s) by {
                    assert((p, q, s) != t);
                }
                assert(same_openness_near(pre.world, post.world, a, b, c));
                lemma_surface_local(pre.world, post.world, a, b, c, x.color, x.pattern, PLAIN as int, 6);
            }
        }
    }
    assert forall|i: int|
        0 <= i < post.world.chunks@.len() && !post.world.chunks@[i].request implies (
        #[trigger] post.world.chunks@[i]).mesh@ == post.world.chunks@[i].surface() by {
        let pw = pre.world;
        let qw = post.world;
        assert(i < pw.chunks@.len());
        let k = pw.chunks@[i].key();
        assert(!box_keys(t, 27).contains(k));
        assert(!pw.chunks@[i].request);
        assert forall|a: int, b: int, c: int| crate::world::key_of(a, b, c) == k implies #[trigger] qw.spot(a, b, c)
            == pw.spot(a, b, c) by {
            if in_box(t, (a, b, c)) {
                lemma_in_box_key(t, (a, b, c));
            }
            pw.lemma_find(i, k);
            assert(untouched(pw.spot(a, b, c), qw.spot(a, b, c)));
        }
        pw.lemma_same_small(&qw, i, i);
    }
}

/// Revealing keeps the store consistent.
pub proof fn lemma_reveal_consistent<F: Fn(i32, i32, i32) -> Block>(
    pre: Milieu,
    post: Milieu,
    t: (int, int, int),
    gen: F,
    r: Option<Block>,
)
    requires
        consistent(pre),
        revealed(pre, post, t, gen, r),
    ensures
        consistent(post),
{
    assert forall|a: int, b: int, c: int| (a, b, c) != t implies #[trigger] post.world.is_open(a, b, c)
        == pre.world.is_open(a, b, c) by {
        lemma_reveal_openness(pre, post, t, gen, r, (a, b, c));
    }
    assert forall|a: int, b: int, c: int| !in_box(t, (a, b, c)) implies untouched(
        pre.world.spot(a, b, c),
        #[trigger] post.world.spot(a, b, c),
    ) by {
        assert(post.world.spot(a, b, c) == made(pre.world.spot(a, b, c), (a, b, c), reveal_keys(t)));
    }
    lemma_edit_consistent(pre, post, t);
}

/// Collecting the geometry of a consistent store keeps it consistent and
/// returns, chunk after chunk, the surfaces of the blocks as they stand:
/// for each block, one quad for each face whose neighbour is `Empty`.
pub proof fn lemma_collect_consistent(pre: Milieu, post: Milieu, v: Seq<Vertex>, ix: Seq<u32>)
    requires
        consistent(pre),
        collected(pre, post, v, ix),
    ensures
        consistent(post),
        v == surfaces_upto(post.world.chunks@, post.world.chunks@.len() as int),
{
    let pw = pre.world;
    let qw = post.world;
    assert forall|a: int, b: int, c: int| #[trigger] qw.spot(a, b, c) == pw.spot(a, b, c) by {
        assert(!listed(pre.shiny@, 0, (a, b, c)));
    }
    assert(pw.same_openness(&qw));
    assert forall|a: int, b: int, c: int| #[trigger] settled(qw, (a, b, c)) by {
        assert(settled(pw, (a, b, c)));
        if let Some(Spot::Rich(x)) = qw.spot(a, b, c) {
            lemma_surface_openness(pw, qw, a, b, c, x.color, x.pattern, PLAIN as int, 6);
        }
    }
    assert forall|i: int| 0 <= i < qw.chunks@.len() implies (#[trigger] qw.chunks@[i]).mesh@
        == qw.chunks@[i].surface() by {
        assert(!entry_keys(pre.shiny@, 0).contains(pw.chunks@[i].key()));
        pw.lemma_same_small(&qw, i, i);
    }
    lemma_meshes_are_surfaces(qw.chunks@, qw.chunks@.len() as int);
}

/// Around an edit at `c`, openness changes at `c` alone and, outside the
/// cube centred on `c`, nothing but missing chunks changes.
proof fn lemma_edited_frame(pre: Milieu, post: Milieu, c: (int, int, int))
    requires
        edited_around(pre, post, c),
    ensures
        forall|a: int, e: int, d: int|
            (a, e, d) != c ==> #[trigger] post.world.is_open(a, e, d) == pre.world.is_open(a, e, d),
        forall|a: int, e: int, d: int|
            !in_box(c, (a, e, d)) ==> untouched(pre.world.spot(a, e, d), #[trigger] post.world.spot(a, e, d)),
{
    assert forall|a: int, e: int, d: int| (a, e, d) != c implies #[trigger] post.world.is_open(a, e, d)
        == pre.world.is_open(a, e, d) by {
        assert(same_look_opt(with_chunk_of(pre, c, (a, e, d)), post.world.spot(a, e, d)));
    }
    assert forall|a: int, e: int, d: int| !in_box(c, (a, e, d)) implies untouched(
        pre.world.spot(a, e, d),
        #[trigger] post.world.spot(a, e, d),
    ) by {
        assert(post.world.spot(a, e, d) == with_chunk_of(pre, c, (a, e, d)));
    }
}

/// Placing a block keeps the store consistent.
pub proof fn lemma_put_consistent(pre: Milieu, post: Milieu, c: (int, int, int), b: Block)
    requires
        consistent(pre),
        placed(pre, post, c, b),
    ensures
        consistent(post),
{
    lemma_edited_frame(pre, post, c);
    lemma_edit_consistent(pre, post, c);
}

/// Removing a block keeps the store consistent.
pub proof fn lemma_yank_consistent(pre: Milieu, post: Milieu, c: (int, int, int), r: Option<Block>)
    requires
        consistent(pre),
        removed(pre, post, c, r),
    ensures
        consistent(post),
{
    lemma_edited_frame(pre, post, c);
    lemma_edit_consistent(pre, post, c);
}

} // verus!
