use tileworld::codec::{decode, encode, CorruptData, DocValue};
use tileworld::tile::{tag_of, tile_of_tag, TileType};
use tileworld::world::World;

fn entry(key: &str, value: DocValue) -> (String, DocValue) {
    (key.to_string(), value)
}

fn object_doc(uid: u64, tag: &str) -> DocValue {
    DocValue::Entries(vec![
        entry("uid", DocValue::Num(uid)),
        entry("obj", DocValue::Text(tag.to_string())),
    ])
}

fn one_cell_doc(current_uid: u64, cell: Vec<DocValue>) -> DocValue {
    DocValue::Entries(vec![
        entry("width", DocValue::Num(1)),
        entry("height", DocValue::Num(1)),
        entry("current_uid", DocValue::Num(current_uid)),
        entry("0", DocValue::Entries(vec![entry("0", DocValue::List(cell))])),
    ])
}

#[test]
fn tags_roundtrip() {
    let kinds = [
        TileType::HorizontalWall,
        TileType::VerticalWall,
        TileType::Floor,
        TileType::MainCharacter,
        TileType::Door,
    ];
    for k in kinds {
        assert_eq!(tile_of_tag(&tag_of(k)), Some(k));
    }
    assert_eq!(tag_of(TileType::HorizontalWall), "H_WALL".to_string());
    assert_eq!(tag_of(TileType::VerticalWall), "V_WALL".to_string());
    assert_eq!(tag_of(TileType::Floor), "FLOOR".to_string());
    assert_eq!(tag_of(TileType::MainCharacter), "MAIN_CHAR".to_string());
    assert_eq!(tag_of(TileType::Door), "DOOR".to_string());
    assert_eq!(tile_of_tag(&"LAVA".to_string()), None);
}

#[test]
fn encode_document_shape() {
    let mut w = World::new(1, 1).unwrap();
    w.put(TileType::Door, 0, 0).unwrap();
    let doc = encode(&w);
    let expected = one_cell_doc(2, vec![object_doc(1, "DOOR")]);
    assert_eq!(doc, expected);
}

#[test]
fn roundtrip_after_mutations() {
    let mut w = World::new(6, 5).unwrap();
    let u1 = w.put(TileType::Floor, 1, 2).unwrap();
    let _u2 = w.put(TileType::Door, 1, 2).unwrap();
    let u3 = w.put(TileType::MainCharacter, 0, 0).unwrap();
    w.translate(2, 3, u3).unwrap();
    w.destroy(u1).unwrap();
    let doc = encode(&w);
    let w2 = decode(&doc).unwrap();
    assert_eq!(w2.width(), w.width());
    assert_eq!(w2.height(), w.height());
    for x in 0..w.width() {
        for y in 0..w.height() {
            assert_eq!(w2.objects_at(x, y).unwrap(), w.objects_at(x, y).unwrap());
        }
    }
    // a document produced by encoding is reproduced exactly
    let doc2 = encode(&w2);
    assert_eq!(doc2, doc);
    // the identity counter also survived: both worlds issue the same uid next
    let mut wa = w;
    let mut wb = w2;
    assert_eq!(
        wa.put(TileType::Floor, 0, 0).unwrap(),
        wb.put(TileType::Floor, 0, 0).unwrap()
    );
}

#[test]
fn roundtrip_with_two_digit_coordinates() {
    let mut w = World::new(13, 11).unwrap();
    w.put(TileType::Floor, 12, 10).unwrap();
    w.put(TileType::Door, 0, 10).unwrap();
    let doc = encode(&w);
    let w2 = decode(&doc).unwrap();
    assert_eq!(w2.objects_at(12, 10).unwrap(), w.objects_at(12, 10).unwrap());
    assert_eq!(w2.objects_at(0, 10).unwrap(), w.objects_at(0, 10).unwrap());
    assert_eq!(encode(&w2), doc);
}

#[test]
fn decode_rejects_non_document() {
    assert!(matches!(decode(&DocValue::Num(3)), Err(CorruptData::NotEntries)));
}

#[test]
fn decode_rejects_missing_or_malformed_header() {
    let no_width = DocValue::Entries(vec![entry("height", DocValue::Num(1))]);
    assert!(matches!(decode(&no_width), Err(CorruptData::MissingWidth)));
    let bad_width = DocValue::Entries(vec![entry("width", DocValue::Text("wide".to_string()))]);
    assert!(matches!(decode(&bad_width), Err(CorruptData::WidthNotNum)));
    let no_height = DocValue::Entries(vec![entry("width", DocValue::Num(1))]);
    assert!(matches!(decode(&no_height), Err(CorruptData::MissingHeight)));
    let no_cu = DocValue::Entries(vec![
        entry("width", DocValue::Num(1)),
        entry("height", DocValue::Num(1)),
    ]);
    assert!(matches!(decode(&no_cu), Err(CorruptData::MissingCurrentUid)));
    let zero_cu = DocValue::Entries(vec![
        entry("width", DocValue::Num(1)),
        entry("height", DocValue::Num(1)),
        entry("current_uid", DocValue::Num(0)),
    ]);
    assert!(matches!(decode(&zero_cu), Err(CorruptData::CurrentUidOutOfRange)));
    let huge = DocValue::Entries(vec![
        entry("width", DocValue::Num(u64::MAX)),
        entry("height", DocValue::Num(1)),
        entry("current_uid", DocValue::Num(1)),
    ]);
    assert!(matches!(decode(&huge), Err(CorruptData::DimensionsTooLarge)));
}

#[test]
fn decode_rejects_missing_grid_pieces() {
    let no_column = DocValue::Entries(vec![
        entry("width", DocValue::Num(1)),
        entry("height", DocValue::Num(1)),
        entry("current_uid", DocValue::Num(1)),
    ]);
    assert!(matches!(decode(&no_column), Err(CorruptData::MissingColumn { x: 0 })));
    let bad_column = DocValue::Entries(vec![
        entry("width", DocValue::Num(1)),
        entry("height", DocValue::Num(1)),
        entry("current_uid", DocValue::Num(1)),
        entry("0", DocValue::Num(9)),
    ]);
    assert!(matches!(decode(&bad_column), Err(CorruptData::ColumnNotEntries { x: 0 })));
    let no_cell = DocValue::Entries(vec![
        entry("width", DocValue::Num(1)),
        entry("height", DocValue::Num(1)),
        entry("current_uid", DocValue::Num(1)),
        entry("0", DocValue::Entries(vec![])),
    ]);
    assert!(matches!(decode(&no_cell), Err(CorruptData::MissingCell { x: 0, y: 0 })));
    let bad_cell = DocValue::Entries(vec![
        entry("width", DocValue::Num(1)),
        entry("height", DocValue::Num(1)),
        entry("current_uid", DocValue::Num(1)),
        entry("0", DocValue::Entries(vec![entry("0", DocValue::Num(4))])),
    ]);
    assert!(matches!(decode(&bad_cell), Err(CorruptData::CellNotList { x: 0, y: 0 })));
}

#[test]
fn decode_rejects_malformed_objects() {
    let not_entries = one_cell_doc(2, vec![DocValue::Num(1)]);
    assert!(matches!(decode(&not_entries), Err(CorruptData::ObjectNotEntries { x: 0, y: 0 })));
    let no_uid = one_cell_doc(
        2,
        vec![DocValue::Entries(vec![entry("obj", DocValue::Text("FLOOR".to_string()))])],
    );
    assert!(matches!(decode(&no_uid), Err(CorruptData::ObjectMissingUid { x: 0, y: 0 })));
    let no_kind = one_cell_doc(2, vec![DocValue::Entries(vec![entry("uid", DocValue::Num(1))])]);
    assert!(matches!(decode(&no_kind), Err(CorruptData::ObjectMissingKind { x: 0, y: 0 })));
    let unknown = one_cell_doc(2, vec![object_doc(1, "LAVA")]);
    assert!(matches!(decode(&unknown), Err(CorruptData::UnknownKind { x: 0, y: 0 })));
}

#[test]
fn decode_rejects_invalid_identities() {
    let zero_uid = one_cell_doc(2, vec![object_doc(0, "FLOOR")]);
    assert!(matches!(decode(&zero_uid), Err(CorruptData::UidOutOfRange { uid: 0 })));
    let not_yet_issued = one_cell_doc(2, vec![object_doc(7, "FLOOR")]);
    assert!(matches!(decode(&not_yet_issued), Err(CorruptData::UidOutOfRange { uid: 7 })));
    let duplicated = one_cell_doc(3, vec![object_doc(1, "FLOOR"), object_doc(1, "DOOR")]);
    assert!(matches!(decode(&duplicated), Err(CorruptData::DuplicateUid { uid: 1 })));
}

#[test]
fn decode_empty_world_document() {
    let doc = DocValue::Entries(vec![
        entry("width", DocValue::Num(0)),
        entry("height", DocValue::Num(0)),
        entry("current_uid", DocValue::Num(1)),
    ]);
    let w = decode(&doc).unwrap();
    assert_eq!(w.width(), 0);
    assert_eq!(w.height(), 0);
    assert_eq!(w.number_of_tiles(), 0);
}
