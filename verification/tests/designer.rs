use tileworld::designer::{
    carve_corridor, carve_diamond_room, carve_horizontal_corridor, carve_rectangle_room,
    carve_vertical_corridor, create_dungeon, Direction,
};
use tileworld::tile::TileType;
use tileworld::world::{WObject, World, WorldError};

fn kinds_at(w: &World, x: u32, y: u32) -> Vec<TileType> {
    w.objects_at(x, y).unwrap().iter().map(|o| o.obj).collect()
}

fn snapshot(w: &World) -> Vec<Vec<WObject>> {
    let mut cells = Vec::new();
    for x in 0..w.width() {
        for y in 0..w.height() {
            cells.push(w.objects_at(x, y).unwrap());
        }
    }
    cells
}

#[test]
fn rectangle_room_fills_its_footprint() {
    let mut w = World::new(10, 10).unwrap();
    carve_rectangle_room(&mut w, 0, 0, 5, 5).unwrap();
    for x in 0..10 {
        for y in 0..10 {
            let cell = w.objects_at(x, y).unwrap();
            if x <= 4 && y <= 4 {
                assert_eq!(cell.len(), 1, "cell ({}, {}) should hold the room", x, y);
            } else {
                assert_eq!(cell.len(), 0, "cell ({}, {}) should stay empty", x, y);
            }
        }
    }
    // boundary columns take horizontal walls, boundary rows vertical
    // walls, and the inside is floor
    assert_eq!(kinds_at(&w, 0, 2), vec![TileType::HorizontalWall]);
    assert_eq!(kinds_at(&w, 4, 2), vec![TileType::HorizontalWall]);
    assert_eq!(kinds_at(&w, 2, 0), vec![TileType::VerticalWall]);
    assert_eq!(kinds_at(&w, 2, 4), vec![TileType::VerticalWall]);
    assert_eq!(kinds_at(&w, 2, 2), vec![TileType::Floor]);
}

#[test]
fn rectangle_room_carved_twice_overlaps() {
    let mut w = World::new(10, 10).unwrap();
    carve_rectangle_room(&mut w, 2, 2, 4, 4).unwrap();
    let before = snapshot(&w);
    let second = carve_rectangle_room(&mut w, 2, 2, 4, 4);
    assert!(matches!(second, Err(WorldError::Overlap { .. })));
    assert_eq!(snapshot(&w), before, "a failed carving must leave the grid unchanged");
}

#[test]
fn rectangle_room_out_of_bounds() {
    let mut w = World::new(4, 4).unwrap();
    let r = carve_rectangle_room(&mut w, 2, 2, 5, 5);
    assert!(matches!(r, Err(WorldError::OutOfBounds { .. })));
    for x in 0..4 {
        for y in 0..4 {
            assert_eq!(w.objects_at(x, y).unwrap().len(), 0);
        }
    }
}

#[test]
fn horizontal_corridor_shape() {
    let mut w = World::new(10, 10).unwrap();
    carve_horizontal_corridor(&mut w, 2, 3, 4).unwrap();
    // the strip runs over columns 2..=6 on row 3
    assert_eq!(kinds_at(&w, 2, 3), vec![TileType::VerticalWall]);
    assert_eq!(kinds_at(&w, 6, 3), vec![TileType::VerticalWall]);
    for x in 3..6 {
        assert_eq!(kinds_at(&w, x, 3), vec![TileType::Floor]);
    }
    for x in 2..7 {
        assert_eq!(kinds_at(&w, x, 2), vec![TileType::HorizontalWall]);
        assert_eq!(kinds_at(&w, x, 4), vec![TileType::HorizontalWall]);
    }
    assert_eq!(kinds_at(&w, 1, 3), Vec::<TileType>::new());
    assert_eq!(kinds_at(&w, 7, 3), Vec::<TileType>::new());
}

#[test]
fn horizontal_corridor_needs_room_for_its_frame() {
    let mut w = World::new(10, 10).unwrap();
    // on the top row there is no row above for the frame
    assert!(matches!(
        carve_horizontal_corridor(&mut w, 2, 0, 3),
        Err(WorldError::OutOfBounds { .. })
    ));
    // crossing the right edge
    assert!(matches!(
        carve_horizontal_corridor(&mut w, 8, 3, 4),
        Err(WorldError::OutOfBounds { .. })
    ));
}

#[test]
fn vertical_corridor_shape() {
    let mut w = World::new(10, 10).unwrap();
    carve_vertical_corridor(&mut w, 3, 2, 4).unwrap();
    assert_eq!(kinds_at(&w, 3, 2), vec![TileType::HorizontalWall]);
    assert_eq!(kinds_at(&w, 3, 6), vec![TileType::HorizontalWall]);
    for y in 3..6 {
        assert_eq!(kinds_at(&w, 3, y), vec![TileType::Floor]);
    }
    for y in 2..7 {
        assert_eq!(kinds_at(&w, 2, y), vec![TileType::VerticalWall]);
        assert_eq!(kinds_at(&w, 4, y), vec![TileType::VerticalWall]);
    }
}

#[test]
fn corridor_overlap_is_detected_without_damage() {
    let mut w = World::new(10, 10).unwrap();
    let uid = w.put(TileType::Floor, 4, 3).unwrap();
    let before = snapshot(&w);
    assert!(matches!(
        carve_horizontal_corridor(&mut w, 2, 3, 4),
        Err(WorldError::Overlap { x: 4, y: 3 })
    ));
    assert_eq!(snapshot(&w), before);
    assert_eq!(w.where_is(uid), Some((4, 3)));
}

#[test]
fn corridor_dispatch_follows_direction() {
    let mut wh = World::new(10, 10).unwrap();
    carve_corridor(&mut wh, 2, 3, 4, Direction::Horizontal).unwrap();
    assert_eq!(kinds_at(&wh, 2, 3), vec![TileType::VerticalWall]);
    let mut wv = World::new(10, 10).unwrap();
    carve_corridor(&mut wv, 3, 2, 4, Direction::Vertical).unwrap();
    assert_eq!(kinds_at(&wv, 3, 2), vec![TileType::HorizontalWall]);
}

#[test]
fn diamond_room_shape() {
    let mut w = World::new(11, 11).unwrap();
    carve_diamond_room(&mut w, 5, 5, 2).unwrap();
    // center is floor
    assert_eq!(kinds_at(&w, 5, 5), vec![TileType::Floor]);
    // span edges away from the extremes are vertical walls
    assert_eq!(kinds_at(&w, 4, 4), vec![TileType::VerticalWall]);
    assert_eq!(kinds_at(&w, 4, 6), vec![TileType::VerticalWall]);
    assert_eq!(kinds_at(&w, 6, 4), vec![TileType::VerticalWall]);
    assert_eq!(kinds_at(&w, 6, 6), vec![TileType::VerticalWall]);
    // the four extreme points get a horizontal wall on top of the span wall
    for (x, y) in [(3, 5), (7, 5), (5, 3), (5, 7)] {
        assert_eq!(
            kinds_at(&w, x, y),
            vec![TileType::VerticalWall, TileType::HorizontalWall]
        );
    }
    // outside the diamond nothing is placed
    assert_eq!(kinds_at(&w, 3, 4), Vec::<TileType>::new());
    assert_eq!(kinds_at(&w, 2, 5), Vec::<TileType>::new());
}

#[test]
fn diamond_room_radius_zero_stacks_on_center() {
    let mut w = World::new(3, 3).unwrap();
    carve_diamond_room(&mut w, 1, 1, 0).unwrap();
    assert_eq!(
        kinds_at(&w, 1, 1),
        vec![
            TileType::VerticalWall,
            TileType::HorizontalWall,
            TileType::HorizontalWall,
            TileType::HorizontalWall,
            TileType::HorizontalWall
        ]
    );
    assert_eq!(kinds_at(&w, 0, 1), Vec::<TileType>::new());
}

#[test]
fn diamond_room_out_of_bounds() {
    let mut w = World::new(5, 5).unwrap();
    assert!(matches!(
        carve_diamond_room(&mut w, 1, 2, 2),
        Err(WorldError::OutOfBounds { .. })
    ));
    assert!(matches!(
        carve_diamond_room(&mut w, 2, 4, 2),
        Err(WorldError::OutOfBounds { .. })
    ));
}

#[test]
fn dungeon_is_deterministic_for_a_seed() {
    let mut w1 = World::new(40, 40).unwrap();
    let mut w2 = World::new(40, 40).unwrap();
    let r1 = create_dungeon(&mut w1, 7);
    let r2 = create_dungeon(&mut w2, 7);
    assert_eq!(r1.is_ok(), r2.is_ok());
    assert_eq!(snapshot(&w1), snapshot(&w2));
}

#[test]
fn dungeon_carves_one_room_on_an_empty_world() {
    let mut w = World::new(40, 40).unwrap();
    let mut carved = 0;
    for seed in 0..10u64 {
        let mut attempt = World::new(40, 40).unwrap();
        if create_dungeon(&mut attempt, seed).is_ok() {
            carved += 1;
            let filled: usize = snapshot(&attempt).iter().map(|c| c.len()).sum();
            assert!(filled >= 1, "a carved dungeon must place tiles");
        }
    }
    assert!(carved >= 1, "some seed must fit a room into a spacious empty world");
    // a failed carving leaves the world untouched
    let before = snapshot(&w);
    for seed in 0..3u64 {
        if create_dungeon(&mut w, seed).is_err() {
            assert_eq!(snapshot(&w), before);
        }
        break;
    }
}
