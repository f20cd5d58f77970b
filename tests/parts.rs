use carvel::block::{Block, Rgba, Spot};
use carvel::chunk::Chunk;
use carvel::geometry::{direction, get_light, uv, vertices_int};
use carvel::player::CrawlState;
use carvel::surface::get_surroundings;
use carvel::tool::{fits_block, fits_reveal, white, InteractionState, ToolAction};
use carvel::world::InfiniteWorld;

#[test]
fn crawl_state_is_crawling() {
    assert!(!CrawlState::Stand.is_crawling());
    assert!(CrawlState::Crawl.is_crawling());
    assert!(CrawlState::Wait.is_crawling());
}

#[test]
fn crawl_key_and_headroom() {
    assert_eq!(CrawlState::Stand.after_crawl_key(true, false), CrawlState::Crawl);
    assert_eq!(CrawlState::Crawl.after_crawl_key(false, false), CrawlState::Wait);
    assert_eq!(CrawlState::Crawl.after_crawl_key(false, true), CrawlState::Crawl);
    assert_eq!(CrawlState::Wait.after_headroom(true), CrawlState::Wait);
    assert_eq!(CrawlState::Wait.after_headroom(false), CrawlState::Stand);
    assert_eq!(CrawlState::Crawl.after_headroom(false), CrawlState::Crawl);
}

#[test]
fn tool_actions() {
    let full = Some((1, 2, 3));
    let empty = Some((1, 3, 3));
    assert_eq!(InteractionState::Idle.action(full, empty), None);
    assert_eq!(InteractionState::Mining.action(full, empty), Some(ToolAction::Mine(1, 2, 3)));
    assert_eq!(InteractionState::Placing.action(full, empty), Some(ToolAction::Place(1, 3, 3)));
    assert_eq!(InteractionState::Placing.action(full, None), None);
    assert_eq!(InteractionState::Mining.action(None, empty), None);
    assert_eq!(white().r, 1.0f32.to_bits());
}

#[test]
fn coordinate_room() {
    assert!(fits_reveal(0, -5, 9));
    assert!(!fits_reveal(i32::MAX - 1, 0, 0));
    assert!(fits_block(i32::MAX - 1, 0, 0));
    assert!(!fits_block(0, i32::MIN, 0));
}

#[test]
fn light_table() {
    assert_eq!(get_light(0, 0, 100), 0);
    assert_eq!(get_light(0, 1, 100), 1000);
    assert_eq!(get_light(1, 2, 100), 6400);
    assert_eq!(get_light(2, 3, 100), 7000);
    assert_eq!(get_light(3, 8, 150), 4500);
    assert_eq!(get_light(4, 1, 200), 4000);
    assert_eq!(get_light(5, 2, 100), 4800);
}

#[test]
fn face_tables() {
    assert_eq!(direction(0), (0, -1, 0));
    assert_eq!(direction(5), (1, 0, 0));
    assert_eq!(vertices_int(0, (10, 20, 30)), [(11, 20, 30), (10, 20, 30), (10, 20, 31), (11, 20, 31)]);
    assert_eq!(vertices_int(1, (0, 0, 0)), [(1, 1, 1), (0, 1, 1), (0, 1, 0), (1, 1, 0)]);
    assert_eq!(uv(0, 0), (1, 1));
    assert_eq!(uv(7, 3), (1, 0));
}

#[test]
fn surroundings_count_open_voxels() {
    let mut w = InfiniteWorld::new_full();
    assert_eq!(get_surroundings((1, 1, 1), &w), 0);
    let c = w.get_chunk_mut(0, 0, 0);
    c.small[0] = Spot::Empty;
    c.small[1 * 256 + 1 * 16 + 1] = Spot::Empty;
    assert_eq!(get_surroundings((1, 1, 1), &w), 2);
    assert_eq!(get_surroundings((2, 2, 2), &w), 1);
}

#[test]
fn block_surface_without_open_neighbours_is_empty() {
    let w = InfiniteWorld::new_full();
    let mut b = Block::new(0b111_110_101_100_011_010_001_000, Rgba { r: 1, g: 2, b: 3, a: 4 });
    b.update_surface(0, 0, 0, &w, 100);
    assert!(b.get_vertex_data().is_empty());
}

#[test]
fn block_surface_texture_per_face() {
    let mut w = InfiniteWorld::new_full();
    let c = w.get_chunk_mut(0, 0, 0);
    c.small[1 * 256 + 2 * 16 + 1] = Spot::Empty; // above (1, 1, 1)
    let mut b = Block::new(5 << 3, Rgba { r: 1, g: 2, b: 3, a: 4 });
    b.update_surface(1, 1, 1, &w, 100);
    let v = b.get_vertex_data();
    assert_eq!(v.len(), 4);
    // The up face uses template 5.
    let uvs: Vec<(u8, u8)> = v.iter().map(|x| x.uv).collect();
    assert_eq!(uvs, vec![(1, 1), (1, 0), (0, 0), (0, 1)]);
    assert!(v.iter().all(|x| x.light == 100 * 8 * 5));
}

#[test]
fn chunk_put_yank_and_surface() {
    let mut c = Chunk::new_full(0, 0, 0);
    assert!(matches!(c.at(1, 2, 3), Spot::Full));
    assert!(c.yank(1, 2, 3).is_none());
    c.put(1, 2, 3, Block::new(1, Rgba { r: 0, g: 0, b: 0, a: 0 }));
    assert!(c.at(1, 2, 3).is_rich());
    assert!(c.build_surface().is_empty());
    let b = c.yank(1, 2, 3).unwrap();
    assert_eq!(b.pattern, 1);
    assert!(c.at(1, 2, 3).is_empty());
    c.request = false;
    c.update();
    assert!(c.request);
}

#[test]
fn spot_helpers() {
    let mut s = Spot::Rich(Box::new(Block::new(2, Rgba { r: 0, g: 0, b: 0, a: 0 })));
    assert!(s.is_rich() && !s.is_empty());
    s.unwrap_mut().pattern = 6;
    assert!(matches!(&s, Spot::Rich(b) if b.pattern == 6));
    assert!(matches!(Spot::default(), Spot::Full));
    assert!(Spot::Empty.is_empty() && !Spot::Full.is_rich());
}
