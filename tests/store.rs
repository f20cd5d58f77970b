use carvel::block::{Block, Rgba, Spot, Vertex};
use carvel::milieu::Milieu;
use carvel::world::InfiniteWorld;
use line_drawing::{VoxelOrigin, WalkVoxels};

fn color_of(x: i32, y: i32, z: i32) -> Rgba {
    Rgba { r: x as u32, g: y as u32, b: z as u32, a: 0x3f80_0000 }
}

fn pattern_of(x: i32, y: i32, z: i32) -> usize {
    ((x * 7 + y * 13 + z * 29) & 0x7fff) as usize
}

fn generate(x: i32, y: i32, z: i32) -> Block {
    Block::new(pattern_of(x, y, z), color_of(x, y, z))
}

fn block_at(m: &Milieu, x: i32, y: i32, z: i32) -> Option<&Block> {
    match m.world.at(x, y, z) {
        Some(Spot::Rich(b)) => Some(b),
        _ => None,
    }
}

fn is_empty_at(m: &Milieu, x: i32, y: i32, z: i32) -> bool {
    matches!(m.world.at(x, y, z), Some(Spot::Empty))
}

fn is_full_at(m: &Milieu, x: i32, y: i32, z: i32) -> bool {
    matches!(m.world.at(x, y, z), Some(Spot::Full))
}

const FACES: [(i32, i32, i32); 6] = [(0, -1, 0), (0, 1, 0), (0, 0, -1), (0, 0, 1), (-1, 0, 0), (1, 0, 0)];

#[test]
fn new_world_has_no_chunks() {
    let m = Milieu::new_full(7);
    assert_eq!(m.seed(), 7);
    assert!(m.world.at(0, 0, 0).is_none());
    assert!(m.world.at(-100, 50, 3).is_none());
}

#[test]
fn reveal_on_unexplored_world_opens_cavity() {
    let mut m = Milieu::new_full(42);
    let r = m.pull(0, 0, 0, &generate);
    assert!(r.is_none());
    assert!(is_empty_at(&m, 0, 0, 0));
    for (dx, dy, dz) in FACES {
        let b = block_at(&m, dx, dy, dz).expect("neighbour generated");
        assert_eq!(b.color, color_of(dx, dy, dz));
        assert_eq!(b.pattern, pattern_of(dx, dy, dz));
        assert_eq!(b.vertices.len(), 4);
    }
    let (v, ix) = m.get_vertex_data();
    assert_eq!(v.len(), 24);
    assert_eq!(ix.len(), 36);
    // Each face looking into the cavity is lit by its direction; each of its
    // corners sees one open voxel (the cavity), hence half exposure.
    let expect = |n: (i32, i32, i32)| -> u64 {
        match n {
            (0, -1, 0) => light_for(8, 5),
            (0, 1, 0) => light_for(2, 5),
            (0, 0, -1) => light_for(3, 5),
            (0, 0, 1) => light_for(7, 5),
            (-1, 0, 0) => light_for(6, 5),
            _ => light_for(4, 5),
        }
    };
    for (dx, dy, dz) in FACES {
        let b = block_at(&m, dx, dy, dz).unwrap();
        for vert in &b.vertices {
            assert_eq!(vert.light, expect((dx, dy, dz)));
            assert_eq!(vert.color, color_of(dx, dy, dz));
            assert!(0 <= vert.pos.0 && vert.pos.0 <= 1);
            assert!(0 <= vert.pos.1 && vert.pos.1 <= 1);
            assert!(0 <= vert.pos.2 && vert.pos.2 <= 1);
        }
    }
    let mut lights: Vec<u64> = v.iter().map(|x| x.light).collect();
    lights.sort();
    let mut want: Vec<u64> = FACES.iter().flat_map(|&f| vec![expect(f); 4]).collect();
    want.sort();
    assert_eq!(lights, want);
}

fn light_for(face_weight: u64, exposure: u64) -> u64 {
    100 * face_weight * exposure
}

#[test]
fn reveal_returns_removed_block() {
    let mut m = Milieu::new_full(1);
    m.pull(1, 0, 0, &generate);
    assert!(is_empty_at(&m, 1, 0, 0));
    let first = block_at(&m, 0, 0, 0).expect("generated").clone();
    let r = m.pull(0, 0, 0, &generate).expect("a block was removed");
    assert_eq!(r.color, first.color);
    assert!(is_empty_at(&m, 0, 0, 0));
    assert!(m.pull(0, 0, 0, &generate).is_none());
    assert!(is_empty_at(&m, 0, 0, 0));
}

#[test]
fn both_mining_orders_agree() {
    let mut a = Milieu::new_full(9);
    let mut b = Milieu::new_full(9);
    a.pull(0, 0, 0, &generate);
    a.pull(1, 0, 0, &generate);
    b.pull(1, 0, 0, &generate);
    b.pull(0, 0, 0, &generate);
    assert!(is_empty_at(&a, 0, 0, 0) && is_empty_at(&a, 1, 0, 0));
    assert!(is_empty_at(&b, 0, 0, 0) && is_empty_at(&b, 1, 0, 0));
    let mut rich = 0;
    for x in -20..21 {
        for y in -20..21 {
            for z in -20..21 {
                match (a.world.at(x, y, z), b.world.at(x, y, z)) {
                    (None, None) | (Some(Spot::Empty), Some(Spot::Empty)) | (Some(Spot::Full), Some(Spot::Full)) => {}
                    (Some(Spot::Rich(p)), Some(Spot::Rich(q))) => {
                        assert_eq!(p.color, q.color);
                        assert_eq!(p.color, color_of(x, y, z));
                        rich += 1;
                    }
                    _ => panic!("states differ at {:?}", (x, y, z)),
                }
            }
        }
    }
    assert_eq!(rich, 10);
}

#[test]
fn indices_cover_quads() {
    let mut m = Milieu::new_full(1);
    m.pull(1, 0, 0, &generate);
    m.pull(0, 0, 0, &generate);
    let (v, ix) = m.get_vertex_data();
    assert_eq!(ix.len(), v.len() / 4 * 6);
    for q in 0..v.len() / 4 {
        let l = (q * 4) as u32;
        assert_eq!(&ix[q * 6..q * 6 + 6], &[l, l + 1, l + 2, l, l + 2, l + 3]);
    }
}

#[test]
fn reveal_order_does_not_change_looks() {
    let mut a = Milieu::new_full(3);
    let mut b = Milieu::new_full(3);
    for m in [&mut a, &mut b] {
        m.pull(5, 0, 0, &generate);
    }
    a.pull(0, 0, 0, &generate);
    a.pull(1, 0, 0, &generate);
    b.pull(1, 0, 0, &generate);
    b.pull(0, 0, 0, &generate);
    for x in -3..4 {
        for y in -3..4 {
            for z in -3..4 {
                if let (Some(p), Some(q)) = (block_at(&a, x, y, z), block_at(&b, x, y, z)) {
                    assert_eq!(p.color, q.color);
                    assert_eq!(p.pattern, q.pattern);
                    assert_eq!(p.color, color_of(x, y, z));
                }
            }
        }
    }
}

fn mine_tunnel(m: &mut Milieu) {
    for x in 0..5 {
        m.pull(x, 0, 0, &generate);
    }
}

#[test]
fn collect_twice_gives_same_buffers() {
    let mut m = Milieu::new_full(2);
    mine_tunnel(&mut m);
    let (v1, i1) = m.get_vertex_data();
    let (v2, i2) = m.get_vertex_data();
    assert!(v1.len() > 0);
    assert_eq!(v1, v2);
    assert_eq!(i1, i2);
}

#[test]
fn highlight_is_restored_by_one_collection() {
    let mut m = Milieu::new_full(2);
    mine_tunnel(&mut m);
    m.get_vertex_data();
    let plain: Vec<Vertex> = block_at(&m, 1, -1, 0).unwrap().vertices.clone();
    assert!(plain.len() > 0);
    m.set_shiny(1, -1, 0, 200);
    let lit = block_at(&m, 1, -1, 0).unwrap().vertices.clone();
    assert_eq!(lit.len(), plain.len());
    for (l, p) in lit.iter().zip(plain.iter()) {
        assert_eq!(l.light, p.light * 2);
        assert_eq!(l.pos, p.pos);
    }
    // Collection restores the highlight before it rebuilds.
    let (v, ix) = m.get_vertex_data();
    assert!(!v.iter().any(|x| lit.contains(x) && !plain.contains(x)));
    assert!(v.iter().any(|x| plain.contains(x)));
    assert_eq!(block_at(&m, 1, -1, 0).unwrap().vertices, plain);
    assert!(m.world.chunks().iter().all(|c| !c.request));
    let (v2, ix2) = m.get_vertex_data();
    assert_eq!(v, v2);
    assert_eq!(ix, ix2);
}

#[test]
fn collect_twice_after_highlight_gives_same_buffers() {
    let mut m = Milieu::new_full(2);
    mine_tunnel(&mut m);
    m.set_shiny(2, -1, 0, 150);
    let (v1, i1) = m.get_vertex_data();
    let (v2, i2) = m.get_vertex_data();
    assert_eq!(v1, v2);
    assert_eq!(i1, i2);
}

fn faces_match_neighbours(m: &Milieu) {
    for x in -3..4 {
        for y in -3..4 {
            for z in -3..4 {
                if let Some(b) = block_at(m, x, y, z) {
                    let open = FACES
                        .iter()
                        .filter(|(dx, dy, dz)| is_empty_at(m, x + dx, y + dy, z + dz))
                        .count();
                    assert_eq!(b.vertices.len(), 4 * open, "at {:?}", (x, y, z));
                }
            }
        }
    }
}

#[test]
fn put_and_yank_keep_neighbour_faces() {
    let mut m = Milieu::new_full(4);
    m.pull(0, 0, 0, &generate);
    faces_match_neighbours(&m);
    m.put(0, 0, 0, Block::new(1, color_of(7, 7, 7)));
    faces_match_neighbours(&m);
    let (v, _) = m.get_vertex_data();
    assert_eq!(v.len(), 0);
    m.yank(0, 0, 0);
    faces_match_neighbours(&m);
    let (v, _) = m.get_vertex_data();
    assert_eq!(v.len(), 24);
    m.yank(1, 0, 0);
    faces_match_neighbours(&m);
}

#[test]
fn faces_exist_exactly_towards_empty_neighbours() {
    let mut m = Milieu::new_full(2);
    mine_tunnel(&mut m);
    m.get_vertex_data();
    for x in -2..7 {
        for y in -2..3 {
            for z in -2..3 {
                if let Some(b) = block_at(&m, x, y, z) {
                    let open = FACES
                        .iter()
                        .filter(|(dx, dy, dz)| is_empty_at(&m, x + dx, y + dy, z + dz))
                        .count();
                    assert_eq!(b.vertices.len(), 4 * open);
                }
            }
        }
    }
}

#[test]
fn viewcast_down_a_column_selects_block_and_voxel_above() {
    let mut m = Milieu::new_full(0);
    m.put(0, 0, 0, Block::new(0, color_of(1, 1, 1)));
    let path: Vec<(i32, i32, i32)> = (0..6).map(|k| (0, 5 - k, 0)).collect();
    assert_eq!(m.viewcast(&path), (Some((0, 0, 0)), Some((0, 1, 0))));
}

#[test]
fn viewcast_along_walked_ray() {
    let mut m = Milieu::new_full(0);
    m.put(3, -2, 7, Block::new(0, color_of(1, 1, 1)));
    let path: Vec<(i32, i32, i32)> =
        WalkVoxels::<f32, i32>::new((3.0, 6.0, 7.0), (3.0, -4.0, 7.0), &VoxelOrigin::Center).collect();
    assert_eq!(m.viewcast(&path), (Some((3, -2, 7)), Some((3, -1, 7))));
}

#[test]
fn viewcast_misses_without_blocks() {
    let mut m = Milieu::new_full(0);
    m.pull(1, 0, 0, &generate);
    let path: Vec<(i32, i32, i32)> = vec![(0, 9, 0), (0, 8, 0), (0, 7, 0)];
    assert_eq!(m.viewcast(&path), (None, None));
    let first = vec![(1, 0, 1), (1, 1, 1)];
    assert_eq!(m.viewcast(&first), (Some((1, 0, 1)), None));
}

#[test]
fn yank_removes_only_blocks() {
    let mut m = Milieu::new_full(0);
    assert!(m.yank(4, 4, 4).is_none());
    assert!(is_full_at(&m, 4, 4, 4));
    m.put(4, 4, 4, Block::new(9, color_of(2, 3, 4)));
    let b = m.yank(4, 4, 4).expect("block");
    assert_eq!(b.pattern, 9);
    assert!(is_empty_at(&m, 4, 4, 4));
    assert!(m.yank(4, 4, 4).is_none());
    assert!(is_empty_at(&m, 4, 4, 4));
}

#[test]
fn put_computes_own_faces() {
    let mut m = Milieu::new_full(0);
    m.pull(1, 0, 0, &generate);
    m.pull(0, 0, 0, &generate);
    m.yank(0, -1, 0);
    // (0, 0, 0) and (0, -1, 0) are now open; a block placed at (0, -1, 0)
    // shows one face, towards the cavity above it.
    m.put(0, -1, 0, Block::new(0, color_of(5, 5, 5)));
    let b = block_at(&m, 0, -1, 0).unwrap();
    assert_eq!(b.vertices.len(), 4);
    assert!(b.vertices.iter().all(|v| v.pos.1 == 0));
}

#[test]
fn put_is_lit_as_placed() {
    let mut m = Milieu::new_full(0);
    m.pull(0, 0, 0, &generate);
    m.pull(0, 1, 0, &generate);
    // (0, 0, 0) and (0, 1, 0) are open; fill the lower one.
    m.put(0, 0, 0, Block::new(0, color_of(5, 5, 5)));
    let placed = block_at(&m, 0, 0, 0).unwrap().clone();
    assert_eq!(placed.vertices.len(), 4);
    let mut fresh = Block::new(0, color_of(5, 5, 5));
    fresh.update_surface(0, 0, 0, &m.world, 100);
    assert_eq!(placed.vertices, fresh.vertices);
    // Every corner of the up face now sees only the open voxel above.
    assert!(placed.vertices.iter().all(|v| v.light == light_for(8, 5)));
}

#[test]
fn coordinates_across_chunk_edges() {
    let mut m = Milieu::new_full(0);
    m.put(-1, -17, 16, Block::new(3, color_of(1, 2, 3)));
    m.put(15, 0, -16, Block::new(4, color_of(1, 2, 3)));
    assert_eq!(block_at(&m, -1, -17, 16).unwrap().pattern, 3);
    assert_eq!(block_at(&m, 15, 0, -16).unwrap().pattern, 4);
    assert!(is_full_at(&m, -2, -20, 20));
    assert!(m.world.at(0, -17, 16).is_none());
    assert!(is_full_at(&m, -16, -32, 31));
    assert!(m.world.at(-17, -17, 16).is_none());
    assert_eq!(m.world.chunks().len(), 2);
}

#[test]
fn chunk_lookup_by_coordinate() {
    let mut w = InfiniteWorld::new_full();
    assert!(w.get_chunk(0, 0, 0).is_none());
    let c = w.get_chunk_mut(-1, 2, 3);
    assert_eq!(c.bigpos, [-1, 2, 3]);
    assert!(c.request);
    assert_eq!(w.get_chunk(-1, 2, 3).unwrap().bigpos, [-1, 2, 3]);
    assert_eq!(w.splice(-1, 47, 63), Some((0, 15 * 256 + 15 * 16 + 15)));
    assert!(w.at_update(-16, 32, 48));
    assert!(!w.at_update(0, 0, 0));
}

#[test]
fn collision_box_query() {
    let mut m = Milieu::new_full(0);
    m.pull(1, 0, 0, &generate);
    m.pull(0, 0, 0, &generate);
    assert_eq!(m.world.solid_in((0, 0, 0), (0, 0, 0)), None);
    let hit = m.world.solid_in((0, -1, 0), (0, 0, 0)).expect("floor");
    assert_eq!(hit, (0, -1, 0));
    // No chunk at all: nothing blocks.
    assert_eq!(m.world.solid_in((100, 100, 100), (101, 101, 101)), None);
    // Unexplored voxels block.
    assert_eq!(m.world.solid_in((2, 2, 2), (2, 2, 2)), Some((2, 2, 2)));
    // An empty range blocks nothing.
    assert_eq!(m.world.solid_in((3, 0, 0), (2, 0, 0)), None);
}
