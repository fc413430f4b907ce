use tileworld::tile::TileType;
use tileworld::world::{WObject, World, WorldError};

#[test]
fn empty_creation() {
    let width = 4;
    let height = 12;
    let test_world = World::new(width, height).unwrap();
    assert!(
        test_world.height() == height,
        "The Height of the world is not set correctly\n\texpected: {}\n\tactual: {}\n",
        height,
        test_world.height()
    );
    assert!(
        test_world.width() == width,
        "The Width of the world is not set correctly\n\texpected: {}\n\tactual: {}\n",
        width,
        test_world.width()
    );
    assert!(
        test_world.number_of_tiles() == width * height,
        "The dimensions of the world are not correct\n\texpected: {}\n\tactual: {}\n",
        width * height,
        test_world.number_of_tiles()
    );
}

#[test]
fn put_retrieve() {
    let test_object = TileType::MainCharacter;
    let width = 10;
    let height = 14;
    let x = 5;
    let y = 6;
    let mut test_world = World::new(width, height).unwrap();
    match test_world.put(test_object.clone(), x, y) {
        Ok(_) => (),
        Err(e) => panic!("World did not put an object in accepted parameters, reason: {:?}", e),
    };
    match test_world.put(test_object.clone(), width, height) {
        Ok(_) => panic!("World accepted an object beyond accpeted parameters"),
        Err(_) => (),
    };
    let mut z_level = test_world.objects_at(x, y).unwrap();
    assert!(
        z_level.pop().unwrap().obj == test_object.clone(),
        "Was not about to retrieve the object put into the world"
    );
}

#[test]
fn move_destroy() {
    let test_object = TileType::MainCharacter;
    let width = 10;
    let height = 10;
    let first_x = 4;
    let first_y = 5;
    let final_x = 7;
    let final_y = 1;
    let mut test_world = World::new(width, height).unwrap();
    let uid = test_world.put(test_object, first_x, first_y).unwrap();
    test_world
        .translate(final_x as i32 - first_x as i32, final_y as i32 - first_y as i32, uid)
        .unwrap();
    assert!(
        test_world.objects_at(final_x, final_y).unwrap().len() == 1,
        "Object was not translated correctly"
    );
    test_world.destroy(uid).unwrap();
    assert!(
        test_world.objects_at(final_x, final_y).unwrap().len() == 0,
        "Object was not destroyed"
    );
}

#[test]
fn fresh_world_has_empty_cells() {
    let w = World::new(3, 2).unwrap();
    assert_eq!(w.number_of_tiles(), 6);
    for x in 0..3 {
        for y in 0..2 {
            assert_eq!(w.objects_at(x, y).unwrap(), Vec::<WObject>::new());
        }
    }
}

#[test]
fn put_then_query() {
    let mut w = World::new(10, 10).unwrap();
    let uid = w.put(TileType::Floor, 5, 6).unwrap();
    assert_eq!(uid, 1);
    assert!(matches!(
        w.put(TileType::Floor, 10, 10),
        Err(WorldError::OutOfBounds { x: 10, y: 10 })
    ));
    let cell = w.objects_at(5, 6).unwrap();
    assert_eq!(cell, vec![WObject { uid: 1, obj: TileType::Floor }]);
}

#[test]
fn objects_at_rejects_unallocated_cell() {
    let w = World::new(2, 2).unwrap();
    assert!(matches!(w.objects_at(2, 0), Err(WorldError::NoSuchCell { x: 2, y: 0 })));
    assert!(matches!(w.objects_at(0, 7), Err(WorldError::NoSuchCell { x: 0, y: 7 })));
}

#[test]
fn where_is_finds_and_misses() {
    let mut w = World::new(4, 4).unwrap();
    let uid = w.put(TileType::Door, 3, 1).unwrap();
    assert_eq!(w.where_is(uid), Some((3, 1)));
    assert_eq!(w.where_is(uid + 1), None);
}

#[test]
fn move_character_and_destroy_it() {
    let mut w = World::new(10, 10).unwrap();
    let u = w.put(TileType::MainCharacter, 4, 5).unwrap();
    w.translate(3, -4, u).unwrap();
    assert_eq!(w.objects_at(4, 5).unwrap().len(), 0);
    let there = w.objects_at(7, 1).unwrap();
    assert_eq!(there, vec![WObject { uid: u, obj: TileType::MainCharacter }]);
    w.destroy(u).unwrap();
    assert_eq!(w.objects_at(7, 1).unwrap().len(), 0);
    assert_eq!(w.where_is(u), None);
}

#[test]
fn destroyed_uid_never_reissued() {
    let mut w = World::new(3, 3).unwrap();
    let u1 = w.put(TileType::Floor, 0, 0).unwrap();
    w.destroy(u1).unwrap();
    let u2 = w.put(TileType::Floor, 0, 0).unwrap();
    let u3 = w.put(TileType::Floor, 1, 1).unwrap();
    assert!(u2 > u1);
    assert!(u3 > u2);
    assert_eq!(w.where_is(u1), None);
}

#[test]
fn translate_unknown_uid_fails() {
    let mut w = World::new(3, 3).unwrap();
    assert!(matches!(w.translate(1, 1, 42), Err(WorldError::UnknownUid { uid: 42 })));
    assert!(matches!(w.destroy(42), Err(WorldError::UnknownUid { uid: 42 })));
}

#[test]
fn translate_out_of_bounds_loses_object() {
    let mut w = World::new(3, 3).unwrap();
    let u = w.put(TileType::Floor, 2, 2).unwrap();
    // the destination lies outside the grid: the move fails, and the
    // object has already been taken off its origin cell
    assert!(matches!(w.translate(5, 0, u), Err(WorldError::OutOfBounds { x: 7, y: 2 })));
    assert_eq!(w.objects_at(2, 2).unwrap().len(), 0);
    assert_eq!(w.where_is(u), None);
}

#[test]
fn cells_stack_in_insertion_order() {
    let mut w = World::new(2, 2).unwrap();
    let u1 = w.put(TileType::Floor, 1, 1).unwrap();
    let u2 = w.put(TileType::Door, 1, 1).unwrap();
    let cell = w.objects_at(1, 1).unwrap();
    assert_eq!(
        cell,
        vec![
            WObject { uid: u1, obj: TileType::Floor },
            WObject { uid: u2, obj: TileType::Door }
        ]
    );
}

#[test]
fn zero_sized_worlds() {
    let w = World::new(0, 5).unwrap();
    assert_eq!(w.number_of_tiles(), 0);
    assert!(matches!(w.objects_at(0, 0), Err(WorldError::NoSuchCell { x: 0, y: 0 })));
    let w2 = World::new(5, 0).unwrap();
    assert_eq!(w2.number_of_tiles(), 0);
}
