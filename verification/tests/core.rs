//! Tests of the tile map, the pathfinder, the travel-time estimator, the
//! motion controller and the collision resolver, on concrete maps.

use automated_kingdom::astar::{astar, manhattan_distance, path_time};
use automated_kingdom::conf::{screen_size, Config, ScreenSize, SQUARE_SIZE};
use automated_kingdom::geometry::{uvec2, vec2, CollisionRect, GridCell, WorldPos};
use automated_kingdom::ids::{get_new_id, IdAllocator};
use automated_kingdom::map::{cell_to_world, string_to_map, world_to_cell, MapError, Tile, TileMap};
use automated_kingdom::math::{distance, isqrt, sign_i8};
use automated_kingdom::server::{ClientRequest, Color, Ping, Rename, ServerMap, Sprite, Texture};
use automated_kingdom::worker::{tick_workers, resolve_heading, WalkDirection, Worker};
use std::collections::VecDeque;

const TEST_MAP: &str = "........................................
..............................#.........
..............................#.........
..............................#.........
..............................#.........
..............................#.........
..............................#.........
..............................#.........
..............................#.........
..............................#.........
..............................#.........
..............................#.........";

fn air_map(width: usize, height: usize) -> TileMap {
    TileMap {
        map: vec![vec![Tile::Air; width]; height],
        width,
        height,
        blocked: vec![],
    }
}

#[test]
fn test() {
    let (_, width, height) = string_to_map(TEST_MAP).unwrap();
    println!("(width, height): {:?}", (width, height));
    assert_eq!((width, height), (40, 12));
}

#[test]
fn test_astar() {
    let width = 10;
    let height = 10;
    let mut test_map = air_map(width, height);
    test_map.map[8][9] = Tile::Wall;
    test_map.map[8][8] = Tile::Wall;
    let goal = uvec2(9, 9);
    let start = uvec2(0, 0);
    let path = astar(&start, &goal, &test_map).unwrap();
    println!("path: {:?}", path);
}

#[test]
fn walkable_out_of_bounds_is_false() {
    let mut m = air_map(4, 3);
    m.map[1][1] = Tile::Wall;
    assert!(!m.is_walkable(&uvec2(4, 0)));
    assert!(!m.is_walkable(&uvec2(0, 3)));
    assert!(!m.is_walkable(&uvec2(1000, 1000)));
    assert!(!m.is_walkable(&uvec2(1, 1)));
    assert!(m.is_walkable(&uvec2(0, 0)));
}

#[test]
fn blocked_cells_toggle_walkability() {
    let mut m = air_map(5, 5);
    assert!(m.is_walkable(&uvec2(2, 2)));
    m.mark_blocked(&vec![uvec2(2, 2), uvec2(3, 3)]);
    assert!(!m.is_walkable(&uvec2(2, 2)));
    assert!(!m.is_walkable(&uvec2(3, 3)));
    // idempotent
    m.mark_blocked(&vec![uvec2(2, 2)]);
    m.unmark_blocked(&vec![uvec2(2, 2)]);
    assert!(m.is_walkable(&uvec2(2, 2)));
    assert!(!m.is_walkable(&uvec2(3, 3)));
    m.unmark_blocked(&vec![uvec2(3, 3), uvec2(4, 4)]);
    assert!(m.is_walkable(&uvec2(3, 3)));
}

#[test]
fn coordinate_round_trip() {
    for &(x, y) in &[(0u32, 0u32), (1, 2), (9, 9), (31, 11), (1000, 4095)] {
        let c = uvec2(x, y);
        let w = cell_to_world(&c);
        assert_eq!(w.x, x as i64 * SQUARE_SIZE);
        assert_eq!(w.y, y as i64 * SQUARE_SIZE);
        let back = world_to_cell(&w);
        assert_eq!(back, c);
    }
    // truncation toward zero and saturation at zero
    assert_eq!(world_to_cell(&vec2(33, 95)), uvec2(1, 2));
    assert_eq!(world_to_cell(&vec2(-5, -100)), uvec2(0, 0));
}

#[test]
fn conversion_saturates_at_type_bounds() {
    // far outside any map, the cell conversion saturates instead of
    // wrapping
    let far = automated_kingdom::map::world_to_cell(&vec2(i64::MAX, -i64::MAX));
    assert_eq!(far, uvec2(u32::MAX, 0));
    let corner = cell_to_world(&uvec2(u32::MAX, u32::MAX));
    assert_eq!(corner.x, u32::MAX as i64 * SQUARE_SIZE);
}

#[test]
fn oversized_layout_is_rejected() {
    let wide = ".".repeat(40000);
    assert_eq!(string_to_map(&wide), Err(MapError::TooLarge));
    let mut tall = String::new();
    let mut i = 0;
    while i < 40000 {
        tall.push('.');
        tall.push('\n');
        i += 1;
    }
    assert_eq!(string_to_map(&tall), Err(MapError::TooLarge));
}

#[test]
fn layout_parsing_errors() {
    assert_eq!(string_to_map(""), Err(MapError::EmptyLayout));
    assert_eq!(string_to_map("..#\n.x."), Err(MapError::InvalidChar));
    assert_eq!(string_to_map("..#\n...."), Err(MapError::RaggedRows));
    let (grid, w, h) = string_to_map("#.\n.#").unwrap();
    assert_eq!((w, h), (2, 2));
    assert_eq!(grid[0], vec![Tile::Wall, Tile::Air]);
    assert_eq!(grid[1], vec![Tile::Air, Tile::Wall]);
    // a trailing line break adds no row
    let (_, w2, h2) = string_to_map("..\n..\n").unwrap();
    assert_eq!((w2, h2), (2, 2));
}

#[test]
fn from_layout_builds_a_map() {
    let m = TileMap::from_layout("#.\n..").unwrap();
    assert_eq!((m.width, m.height), (2, 2));
    assert!(!m.is_walkable(&uvec2(0, 0)));
    assert!(m.is_walkable(&uvec2(1, 0)));
    assert!(TileMap::from_layout("#?\n..").is_err());
}

#[test]
fn wall_goal_has_no_path() {
    let mut m = air_map(6, 6);
    m.map[3][3] = Tile::Wall;
    assert!(astar(&uvec2(0, 0), &uvec2(3, 3), &m).is_none());
    // degenerate request: start == goal yields the one-waypoint path
    let p = astar(&uvec2(2, 2), &uvec2(2, 2), &m).unwrap();
    assert_eq!(p, vec![cell_to_world(&uvec2(2, 2))]);
    // an out-of-bounds goal is unreachable
    assert!(astar(&uvec2(0, 0), &uvec2(6, 0), &m).is_none());
}

#[test]
fn blocked_goal_has_no_path() {
    let mut m = air_map(6, 6);
    m.mark_blocked(&vec![uvec2(5, 5)]);
    assert!(astar(&uvec2(0, 0), &uvec2(5, 5), &m).is_none());
    m.unmark_blocked(&vec![uvec2(5, 5)]);
    assert!(astar(&uvec2(0, 0), &uvec2(5, 5), &m).is_some());
}

#[test]
fn walled_off_goal_has_no_path() {
    // the goal sits in a sealed room
    let m = TileMap::from_layout(".....\n.###.\n.#.#.\n.###.\n.....").unwrap();
    assert!(astar(&uvec2(0, 0), &uvec2(2, 2), &m).is_none());
}

/// The admitted-move rule, re-stated for checking returned paths.
fn admitted(m: &TileMap, a: GridCell, b: GridCell) -> bool {
    let dx = b.x as i64 - a.x as i64;
    let dy = b.y as i64 - a.y as i64;
    if !(dx.abs() <= 1 && dy.abs() <= 1 && (dx, dy) != (0, 0)) {
        return false;
    }
    if !m.is_walkable(&b) {
        return false;
    }
    if dx != 0 && dy != 0 {
        let flank_a = GridCell { x: b.x, y: a.y };
        let flank_b = GridCell { x: a.x, y: b.y };
        if !m.is_walkable(&flank_a) || !m.is_walkable(&flank_b) {
            return false;
        }
    }
    true
}

fn path_cells(path: &[WorldPos]) -> Vec<GridCell> {
    path.iter().map(world_to_cell).collect()
}

/// Shortest admitted-move distance by breadth-first search, for comparison.
fn bfs_steps(m: &TileMap, start: GridCell, goal: GridCell) -> Option<usize> {
    let mut dist = vec![vec![usize::MAX; m.width]; m.height];
    let mut queue = VecDeque::new();
    dist[start.y as usize][start.x as usize] = 0;
    queue.push_back(start);
    while let Some(c) = queue.pop_front() {
        if c == goal {
            return Some(dist[c.y as usize][c.x as usize]);
        }
        for dx in -1i64..=1 {
            for dy in -1i64..=1 {
                let nx = c.x as i64 + dx;
                let ny = c.y as i64 + dy;
                if nx < 0 || ny < 0 {
                    continue;
                }
                let n = GridCell { x: nx as u32, y: ny as u32 };
                if admitted(m, c, n) && dist[ny as usize][nx as usize] == usize::MAX {
                    dist[ny as usize][nx as usize] = dist[c.y as usize][c.x as usize] + 1;
                    queue.push_back(n);
                }
            }
        }
    }
    None
}

#[test]
fn scenario_path_is_valid_and_optimal() {
    // a 10x10 all-air map except walls at (9,8) and (8,8)
    let mut m = air_map(10, 10);
    m.map[8][9] = Tile::Wall;
    m.map[8][8] = Tile::Wall;
    let start = uvec2(0, 0);
    let goal = uvec2(9, 9);
    let path = astar(&start, &goal, &m).unwrap();
    assert!(!path.is_empty());
    assert_eq!(path[0], cell_to_world(&start));
    assert_eq!(*path.last().unwrap(), cell_to_world(&goal));
    let cells = path_cells(&path);
    for pair in cells.windows(2) {
        assert!(admitted(&m, pair[0], pair[1]), "inadmissible step {:?}", pair);
    }
    // corner-cutting prevention forces the route around both wall cells:
    // the goal can only be entered from (8,9), which itself cannot be
    // entered diagonally past the wall at (8,8)
    let optimal = bfs_steps(&m, start, goal).unwrap();
    assert_eq!(cells.len() - 1, optimal);
    assert_eq!(optimal, 11);
    assert_eq!(path.len(), 12);
}

#[test]
fn corner_cutting_is_prevented() {
    // a diagonal gap between two walls must not be cut through
    let m = TileMap::from_layout("..#\n.#.\n...").unwrap();
    let path = astar(&uvec2(0, 0), &uvec2(2, 1), &m);
    if let Some(p) = &path {
        let cells = path_cells(p);
        for pair in cells.windows(2) {
            assert!(admitted(&m, pair[0], pair[1]));
        }
    }
    // (1,0) -> (2,1) would cut between the walls at (2,0) and (1,1)
    assert!(!admitted(&m, uvec2(1, 0), uvec2(2, 1)));
}

#[test]
fn astar_agrees_with_bfs_reachability() {
    let layouts = [
        "....\n....\n....\n....",
        "..#.\n.##.\n....\n#...",
        ".#..\n.#..\n.#..\n....",
    ];
    for lay in layouts {
        let m = TileMap::from_layout(lay).unwrap();
        for sy in 0..4u32 {
            for gx in 0..4u32 {
                let start = uvec2(0, sy);
                let goal = uvec2(gx, 3);
                let got = astar(&start, &goal, &m);
                let want = bfs_steps(&m, start, goal);
                // a path exists exactly when breadth-first search finds one
                assert_eq!(got.is_some(), want.is_some(), "map {:?} {:?} {:?}", lay, start, goal);
                if let Some(p) = got {
                    // every returned path is made of admitted moves and
                    // matches the optimal step count
                    let cells = path_cells(&p);
                    for pair in cells.windows(2) {
                        assert!(admitted(&m, pair[0], pair[1]));
                    }
                    assert_eq!(cells.len() - 1, want.unwrap());
                }
            }
        }
    }
}

#[test]
fn manhattan_distance_is_exact() {
    assert_eq!(manhattan_distance(&uvec2(0, 0), &uvec2(3, 4)), 7);
    assert_eq!(manhattan_distance(&uvec2(5, 1), &uvec2(2, 9)), 11);
    assert_eq!(manhattan_distance(&uvec2(7, 7), &uvec2(7, 7)), 0);
}

#[test]
fn distance_is_floored_euclidean() {
    assert_eq!(distance(&vec2(0, 0), &vec2(3, 4)), 5);
    assert_eq!(distance(&vec2(0, 0), &vec2(1, 1)), 1);
    assert_eq!(distance(&vec2(-3, 0), &vec2(0, 4)), 5);
    assert_eq!(isqrt(0), 0);
    assert_eq!(isqrt(15), 3);
    assert_eq!(isqrt(16), 4);
    assert_eq!(sign_i8(-7), -1);
    assert_eq!(sign_i8(0), 0);
    assert_eq!(sign_i8(9), 1);
}

#[test]
fn path_time_sums_segments() {
    // distance 5 at speed 100 units/s is 50 milliseconds
    assert_eq!(path_time(&vec2(0, 0), 100, &vec![vec2(3, 4)]), 50);
    // an empty path takes no time
    assert_eq!(path_time(&vec2(7, 9), 100, &vec![]), 0);
    // two segments of length 5 each
    assert_eq!(path_time(&vec2(0, 0), 100, &vec![vec2(3, 4), vec2(6, 8)]), 100);
    // appending a waypoint never decreases the estimate
    let base = path_time(&vec2(0, 0), 140, &vec![vec2(3, 4)]);
    let more = path_time(&vec2(0, 0), 140, &vec![vec2(3, 4), vec2(30, 40)]);
    assert!(more >= base);
}

#[test]
fn heading_resolution_keeps_adjacent_facing() {
    assert_eq!(resolve_heading(1, 0, WalkDirection::Left), WalkDirection::Right);
    assert_eq!(resolve_heading(0, -1, WalkDirection::Left), WalkDirection::Up);
    assert_eq!(resolve_heading(-1, 0, WalkDirection::Up), WalkDirection::Left);
    assert_eq!(resolve_heading(0, 1, WalkDirection::Up), WalkDirection::Down);
    // near-diagonal movement keeps the previous facing when adjacent
    assert_eq!(resolve_heading(1, -1, WalkDirection::Up), WalkDirection::Up);
    assert_eq!(resolve_heading(1, -1, WalkDirection::Down), WalkDirection::Right);
    assert_eq!(resolve_heading(-1, 1, WalkDirection::Down), WalkDirection::Down);
    assert_eq!(resolve_heading(-1, 1, WalkDirection::Right), WalkDirection::Left);
    // no movement keeps the facing
    assert_eq!(resolve_heading(0, 0, WalkDirection::Left), WalkDirection::Left);
}

#[test]
fn motion_converges_to_final_waypoint() {
    let m = air_map(20, 20);
    let mut w = Worker::new(Color::Blue, 0);
    // straight, unobstructed path to the right; speed 200, dt 16ms: step 3
    w.path = Some(vec![vec2(132, 100), vec2(164, 100)]);
    let others: Vec<Worker> = vec![];
    let mut ticks = 0;
    while w.path.is_some() {
        w.update(&others, &m, 16);
        ticks += 1;
        assert!(ticks < 1000, "did not converge");
    }
    assert_eq!((w.rect.x, w.rect.y), (164, 100));
    // no overshoot, no residual drift on further ticks
    w.update(&others, &m, 16);
    assert_eq!((w.rect.x, w.rect.y), (164, 100));
}

#[test]
fn update_path_snaps_exactly() {
    let m = air_map(20, 20);
    let mut w = Worker::new(Color::Red, 3);
    w.path = Some(vec![vec2(101, 101)]);
    let others: Vec<Worker> = vec![];
    w.update(&others, &m, 1000);
    // one step of 200 units covers the short distance exactly
    assert_eq!((w.rect.x, w.rect.y), (101, 101));
    assert!(w.path.as_ref().unwrap().is_empty());
    w.update(&others, &m, 1000);
    assert!(w.path.is_none());
}

#[test]
fn collision_yields_and_pushes_away() {
    let m = air_map(40, 40);
    let mut a = Worker::new(Color::Blue, 1);
    let mut b = Worker::new(Color::Red, 2);
    a.rect.x = 100;
    a.rect.y = 100;
    b.rect.x = 120;
    b.rect.y = 100;
    // both try to move toward each other
    a.hspd = 3;
    b.hspd = -3;
    let others = vec![b.duplicate()];
    a.update_collision(&others, &m, 1000);
    assert_eq!(a.moving_away_from, Some(2));
    // the nudge pushes a away from b: leftward
    assert!(a.hspd < 3);
}

#[test]
fn no_collision_clears_nothing() {
    let m = air_map(40, 40);
    let mut a = Worker::new(Color::Blue, 1);
    let mut b = Worker::new(Color::Red, 2);
    b.rect.x = 500;
    a.hspd = 3;
    let others = vec![b.duplicate()];
    a.update_collision(&others, &m, 1000);
    assert_eq!(a.moving_away_from, None);
    assert_eq!(a.hspd, 3);
}

#[test]
fn wall_sliding_clamps_velocity() {
    // a wall directly to the right of the worker
    let mut m = air_map(10, 10);
    m.map[3][5] = Tile::Wall;
    let mut a = Worker::new(Color::Blue, 1);
    // stand just left of the wall cell (wall at x=160..192, y=96..128)
    a.rect.x = 120;
    a.rect.y = 96;
    a.hspd = 20;
    let mut b = Worker::new(Color::Red, 2);
    b.rect.x = 140;
    b.rect.y = 96;
    let others = vec![b.duplicate()];
    a.update_collision(&others, &m, 1000);
    // a yields to b and its rightward motion is clamped at the wall gap
    assert_eq!(a.moving_away_from, Some(2));
    assert!(a.rect.x + a.hspd + a.rect.width <= 160);
}

#[test]
fn tick_workers_updates_in_roster_order() {
    let m = air_map(40, 40);
    let mut a = Worker::new(Color::Blue, 1);
    a.path = Some(vec![vec2(103, 100)]);
    let mut b = Worker::new(Color::Red, 2);
    b.rect.x = 400;
    b.rect.y = 400;
    let mut roster = vec![a, b];
    tick_workers(&mut roster, &m, 16);
    assert_eq!(roster.len(), 2);
    assert_eq!((roster[0].rect.x, roster[0].rect.y), (103, 100));
    assert_eq!((roster[1].rect.x, roster[1].rect.y), (400, 400));
}

#[test]
fn set_path_requests_a_route() {
    let mut m = air_map(10, 10);
    m.map[0][4] = Tile::Wall;
    let mut w = Worker::new(Color::Blue, 1);
    // worker occupies cell (3,3) at position (100,100)
    w.set_path(uvec2(7, 7), &m);
    assert!(w.path.is_some());
    let p = w.path.as_ref().unwrap();
    assert_eq!(*p.last().unwrap(), cell_to_world(&uvec2(7, 7)));
    w.set_path(uvec2(4, 0), &m);
    assert!(w.path.is_none());
}

#[test]
fn worker_equality_is_by_id() {
    let a = Worker::new(Color::Blue, 7);
    let mut b = Worker::new(Color::Red, 7);
    b.rect.x = 999;
    assert!(a == b);
    let c = Worker::new(Color::Blue, 8);
    assert!(a != c);
}

#[test]
fn id_allocation_is_sequential() {
    let mut alloc = IdAllocator::new();
    assert_eq!(get_new_id(&mut alloc), 0);
    assert_eq!(get_new_id(&mut alloc), 1);
    assert_eq!(alloc.new_id(), 2);
}

#[test]
fn rect_edges_and_touching() {
    let r = CollisionRect::new(10, 20, 30, 40);
    assert_eq!(r.left(), 10);
    assert_eq!(r.right(), 40);
    assert_eq!(r.top(), 20);
    assert_eq!(r.bottom(), 60);
    assert_eq!(r.center(), vec2(25, 40));
    assert_eq!(r.top_left(), vec2(10, 20));
    let o = CollisionRect::new_vec2(vec2(39, 59), 5, 5);
    assert!(r.touches_rect(&o));
    let far = CollisionRect::new(40, 20, 5, 5);
    assert!(!r.touches_rect(&far));
    assert!(r.touches_point(&vec2(11, 21)));
    assert!(!r.touches_point(&vec2(10, 21)));
    let mut s = r;
    s.set_top_left(vec2(0, 0));
    assert_eq!((s.x, s.y, s.width, s.height), (0, 0, 30, 40));
    s.set_center(vec2(50, 50));
    assert_eq!((s.x, s.y), (35, 30));
}

#[test]
fn protocol_requests_and_snapshots() {
    let ping = ClientRequest::Ping(Ping { timestamp: 42 });
    assert!(!ping.ratelimited());
    assert_eq!(ping.timestamp(), 42);
    let rename = ClientRequest::Rename(Rename { name: String::from("ada"), timestamp: 7 });
    assert!(rename.ratelimited());
    assert_eq!(rename.timestamp(), 7);
    assert_eq!(Texture::Wall.as_server(), Sprite::Sprite(Texture::Wall));
    let sm = ServerMap::random();
    assert_eq!((sm.width, sm.height, sm.tiles.len()), (0, 0, 0));
    assert_eq!(screen_size(1000, 700), ScreenSize::Small);
    assert_eq!(screen_size(1280, 720), ScreenSize::Medium);
    assert_eq!(screen_size(1920, 1080), ScreenSize::Large);
    let cfg = Config::new();
    assert_eq!((cfg.window_width, cfg.window_height, cfg.fps_limit), (1280, 1280, 60));
    let _ = Color::Green;
}
