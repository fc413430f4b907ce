//! The closed set of placeable tile kinds and their serialization tags.

use vstd::prelude::*;

verus! {

/// A kind of object that can occupy a grid cell.
#[derive(Clone, Copy, PartialEq, Eq, Structural, Debug)]
pub enum TileType {
    HorizontalWall,
    VerticalWall,
    Floor,
    MainCharacter,
    Door,
}

/// The fixed external tag of each kind, used only at the serialization
/// boundary.
pub open spec fn spec_tag(t: TileType) -> Seq<char> {
    match t {
        TileType::HorizontalWall => "H_WALL"@,
        TileType::VerticalWall => "V_WALL"@,
        TileType::Floor => "FLOOR"@,
        TileType::MainCharacter => "MAIN_CHAR"@,
        TileType::Door => "DOOR"@,
    }
}

/// The kind denoted by a tag, if any.
pub open spec fn spec_tile_of_tag(s: Seq<char>) -> Option<TileType> {
    if s == "H_WALL"@ {
        Some(TileType::HorizontalWall)
    } else if s == "V_WALL"@ {
        Some(TileType::VerticalWall)
    } else if s == "FLOOR"@ {
        Some(TileType::Floor)
    } else if s == "MAIN_CHAR"@ {
        Some(TileType::MainCharacter)
    } else if s == "DOOR"@ {
        Some(TileType::Door)
    } else {
        None
    }
}

/// The five tags are pairwise distinct.
pub proof fn lemma_tags_distinct()
    ensures
        "H_WALL"@ != "V_WALL"@,
        "H_WALL"@ != "FLOOR"@,
        "H_WALL"@ != "MAIN_CHAR"@,
        "H_WALL"@ != "DOOR"@,
        "V_WALL"@ != "FLOOR"@,
        "V_WALL"@ != "MAIN_CHAR"@,
        "V_WALL"@ != "DOOR"@,
        "FLOOR"@ != "MAIN_CHAR"@,
        "FLOOR"@ != "DOOR"@,
        "MAIN_CHAR"@ != "DOOR"@,
{
    reveal_strlit("H_WALL");
    reveal_strlit("V_WALL");
    reveal_strlit("FLOOR");
    reveal_strlit("MAIN_CHAR");
    reveal_strlit("DOOR");
    assert("H_WALL"@[0] == 'H' && "V_WALL"@[0] == 'V');
    assert("H_WALL"@.len() == 6 && "V_WALL"@.len() == 6 && "FLOOR"@.len() == 5
        && "MAIN_CHAR"@.len() == 9 && "DOOR"@.len() == 4);
}

/// Reading a tag back yields the kind that produced it.
pub proof fn lemma_tag_roundtrip(t: TileType)
    ensures
        spec_tile_of_tag(spec_tag(t)) == Some(t),
{
    lemma_tags_distinct();
}

/// The tag of a kind, as an owned string.
pub fn tag_of(t: TileType) -> (s: String)
    ensures
        s@ == spec_tag(t),
{
    match t {
        TileType::HorizontalWall => "H_WALL".to_owned(),
        TileType::VerticalWall => "V_WALL".to_owned(),
        TileType::Floor => "FLOOR".to_owned(),
        TileType::MainCharacter => "MAIN_CHAR".to_owned(),
        TileType::Door => "DOOR".to_owned(),
    }
}

/// The kind denoted by a tag string, if any.
pub fn tile_of_tag(s: &String) -> (r: Option<TileType>)
    ensures
        r == spec_tile_of_tag(s@),
{
    if *s == "H_WALL".to_owned() {
        Some(TileType::HorizontalWall)
    } else if *s == "V_WALL".to_owned() {
        Some(TileType::VerticalWall)
    } else if *s == "FLOOR".to_owned() {
        Some(TileType::Floor)
    } else if *s == "MAIN_CHAR".to_owned() {
        Some(TileType::MainCharacter)
    } else if *s == "DOOR".to_owned() {
        Some(TileType::Door)
    } else {
        None
    }
}

} // verus!
