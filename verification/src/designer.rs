//! The designer: validate-then-carve operations that write rooms and
//! corridors into the grid, and a seeded dungeon assembler.
//!
//! Every carving follows a two-phase protocol: a read-only scan confirms
//! that each targeted cell lies inside the grid and is still empty, and
//! only then is anything written. A carving call either fully succeeds or
//! leaves the world untouched.

use vstd::prelude::*;

use crate::tile::TileType;
use crate::world::WObject;
use crate::world::World;
use crate::world::WorldError;
use crate::world::WorldModel;

verus! {

/// The stack of kinds a carving appends to one cell, in order: empty for a
/// cell the carving leaves alone.
pub open spec fn stack_extended(
    c0: Seq<WObject>,
    c1: Seq<WObject>,
    kinds: Seq<TileType>,
    lo: nat,
    hi: nat,
) -> bool {
    &&& c1.len() == c0.len() + kinds.len()
    &&& forall|i: int| 0 <= i < c0.len() ==> c1[i] == c0[i]
    &&& forall|i: int| 0 <= i < kinds.len() ==> (#[trigger] c1[c0.len() + i]).obj == kinds[i] && lo
        <= c1[c0.len() + i].uid < hi
}

/// Whether every cell a pattern touches lies inside the grid.
pub open spec fn pattern_in_bounds(m: WorldModel, pat: spec_fn(int, int) -> Seq<TileType>) -> bool {
    forall|x: int, y: int| (#[trigger] pat(x, y)).len() > 0 ==> m.in_bounds(x, y)
}

/// Whether every cell a pattern touches is still empty.
pub open spec fn pattern_clear(m: WorldModel, pat: spec_fn(int, int) -> Seq<TileType>) -> bool {
    forall|x: int, y: int| (#[trigger] pat(x, y)).len() > 0 ==> m.cell(x, y).len() == 0
}

/// Whether `m1` is `m0` with the pattern carved in: every cell's stack is
/// extended by exactly the pattern's kinds, in order, by objects whose
/// identities were issued by the carving.
pub open spec fn pattern_applied(
    m0: WorldModel,
    m1: WorldModel,
    pat: spec_fn(int, int) -> Seq<TileType>,
) -> bool {
    &&& m1.width == m0.width
    &&& m1.height == m0.height
    &&& m0.current_uid <= m1.current_uid
    &&& forall|x: int, y: int| m0.in_bounds(x, y) ==> stack_extended(
        m0.cell(x, y),
        m1.cell(x, y),
        #[trigger] pat(x, y),
        m0.current_uid,
        m1.current_uid,
    )
}

/// What every carving promises: on failure the world is untouched, a
/// pattern reaching outside the grid is `OutOfBounds`, a pattern touching
/// an occupied cell is `Overlap`, and otherwise the pattern is carved in.
pub open spec fn carve_outcome(
    m0: WorldModel,
    m1: WorldModel,
    r: Result<(), WorldError>,
    pat: spec_fn(int, int) -> Seq<TileType>,
) -> bool {
    &&& (r is Err ==> m1 == m0)
    &&& (!pattern_in_bounds(m0, pat) ==> r is Err && r->Err_0 is OutOfBounds)
    &&& (pattern_in_bounds(m0, pat) && !pattern_clear(m0, pat) ==> r is Err
        && r->Err_0 is Overlap)
    &&& (pattern_in_bounds(m0, pat) && pattern_clear(m0, pat) ==> r is Ok && pattern_applied(
        m0,
        m1,
        pat,
    ))
}

/// Extending a stack stays true when the identity window widens.
proof fn lemma_stack_extended_mono(
    c0: Seq<WObject>,
    c1: Seq<WObject>,
    kinds: Seq<TileType>,
    lo: nat,
    hi1: nat,
    hi2: nat,
)
    requires
        stack_extended(c0, c1, kinds, lo, hi1),
        hi1 <= hi2,
    ensures
        stack_extended(c0, c1, kinds, lo, hi2),
{
}

/// The kind a horizontal corridor places on cell `(x, y)`: a floor strip
/// along row `sy` from `sx` to `sx + len` with vertical-wall end caps, and
/// horizontal walls on the rows above and below every column.
pub open spec fn hcorridor_tiles(sx: int, sy: int, len: int, x: int, y: int) -> Seq<TileType> {
    if sx <= x <= sx + len && sy - 1 <= y <= sy + 1 {
        if y == sy {
            if x == sx || x == sx + len {
                seq![TileType::VerticalWall]
            } else {
                seq![TileType::Floor]
            }
        } else {
            seq![TileType::HorizontalWall]
        }
    } else {
        Seq::empty()
    }
}

/// The footprint of a horizontal corridor.
pub open spec fn hcorridor_pattern(sx: int, sy: int, len: int) -> spec_fn(int, int) -> Seq<
    TileType,
> {
    |x: int, y: int| hcorridor_tiles(sx, sy, len, x, y)
}

/// The kind a vertical corridor places on cell `(x, y)`: a floor strip
/// along column `sx` from `sy` to `sy + len` with horizontal-wall end caps,
/// and vertical walls on the columns either side of every row.
pub open spec fn vcorridor_tiles(sx: int, sy: int, len: int, x: int, y: int) -> Seq<TileType> {
    if sy <= y <= sy + len && sx - 1 <= x <= sx + 1 {
        if x == sx {
            if y == sy || y == sy + len {
                seq![TileType::HorizontalWall]
            } else {
                seq![TileType::Floor]
            }
        } else {
            seq![TileType::VerticalWall]
        }
    } else {
        Seq::empty()
    }
}

/// The footprint of a vertical corridor.
pub open spec fn vcorridor_pattern(sx: int, sy: int, len: int) -> spec_fn(int, int) -> Seq<
    TileType,
> {
    |x: int, y: int| vcorridor_tiles(sx, sy, len, x, y)
}

/// Carves a horizontal corridor: a floor strip along row `starting_y` from
/// `starting_x` over `length + 1` columns, capped by vertical walls at both
/// ends and framed by horizontal walls one row above and below every
/// column. The whole footprint is validated first; on failure the world is
/// left untouched.
pub fn carve_horizontal_corridor(
    world: &mut World,
    starting_x: u32,
    starting_y: u32,
    length: u32,
) -> (r: Result<(), WorldError>)
    requires
        old(world)@.inv(),
        old(world)@.current_uid + 3 * (length + 1) <= u32::MAX,
    ensures
        final(world)@.inv(),
        carve_outcome(
            old(world)@,
            final(world)@,
            r,
            hcorridor_pattern(starting_x as int, starting_y as int, length as int),
        ),
{
    let ghost pat = hcorridor_pattern(starting_x as int, starting_y as int, length as int);
    let ghost m0 = old(world)@;
    let sx = starting_x;
    let sy = starting_y;
    let ww = world.width();
    let wh = world.height();
    if sy < 1 || (sy as u64) + 1 >= (wh as u64) || (sx as u64) + (length as u64) >= (ww as u64) {
        proof {
            if sy < 1 {
                assert(pat(sx as int, sy - 1).len() > 0);
                assert(!m0.in_bounds(sx as int, sy - 1));
                assert(!pattern_in_bounds(m0, pat));
            } else if sy + 1 >= wh {
                assert(pat(sx as int, sy + 1).len() > 0);
                assert(!m0.in_bounds(sx as int, sy + 1));
                assert(!pattern_in_bounds(m0, pat));
            } else {
                assert(sx + length >= ww);
                assert(pat(sx + length, sy as int).len() > 0);
                assert(!m0.in_bounds(sx + length, sy as int));
                assert(!pattern_in_bounds(m0, pat));
            }
            assert(!pattern_in_bounds(m0, pat));
        }
        return Err(
            WorldError::OutOfBounds { x: (sx as i64) + (length as i64), y: sy as i64 },
        );
    }
    let xe = sx + length;
    proof {
        assert forall|x2: int, y2: int| (#[trigger] pat(x2, y2)).len() > 0 implies m0.in_bounds(
            x2,
            y2,
        ) by {}
    }
    // phase one: the strip and its frame must still be empty
    let mut x = sx;
    while x <= xe
        invariant
            world@ == m0,
            m0.inv(),
            sx <= x <= xe + 1,
            xe == sx + length,
            sx == starting_x,
            sy == starting_y,
            1 <= sy,
            sy + 1 < m0.height,
            xe < m0.width,
            pat == hcorridor_pattern(sx as int, sy as int, length as int),
            pattern_in_bounds(m0, pat),
            forall|x2: int, y2: int|
                sx <= x2 < x && sy - 1 <= y2 <= sy + 1 ==> #[trigger] m0.cell(x2, y2).len() == 0,
        decreases xe + 1 - x,
    {
        if world.cell_ref(x, sy - 1).len() != 0 {
            proof {
                assert(pat(x as int, sy - 1).len() > 0);
            }
            return Err(WorldError::Overlap { x, y: sy - 1 });
        }
        if world.cell_ref(x, sy).len() != 0 {
            proof {
                assert(pat(x as int, sy as int).len() > 0);
            }
            return Err(WorldError::Overlap { x, y: sy });
        }
        if world.cell_ref(x, sy + 1).len() != 0 {
            proof {
                assert(pat(x as int, sy + 1).len() > 0);
            }
            return Err(WorldError::Overlap { x, y: sy + 1 });
        }
        x = x + 1;
    }
    proof {
        assert forall|x2: int, y2: int| (#[trigger] pat(x2, y2)).len() > 0 implies m0.cell(
            x2,
            y2,
        ).len() == 0 by {}
        assert(pattern_clear(m0, pat));
    }
    // phase two: write the corridor, column by column
    let ghost hi: nat = (m0.current_uid + 3 * (length + 1)) as nat;
    let mut x = sx;
    while x <= xe
        invariant
            world@.inv(),
            world@.width == m0.width,
            world@.height == m0.height,
            m0.inv(),
            sx <= x <= xe + 1,
            xe == sx + length,
            sx == starting_x,
            sy == starting_y,
            1 <= sy,
            sy + 1 < m0.height,
            xe < m0.width,
            pat == hcorridor_pattern(sx as int, sy as int, length as int),
            pattern_in_bounds(m0, pat),
            pattern_clear(m0, pat),
            hi == m0.current_uid + 3 * (length + 1),
            hi <= u32::MAX,
            world@.current_uid == m0.current_uid + 3 * (x - sx),
            world@.current_uid <= hi,
            forall|x2: int, y2: int|
                m0.in_bounds(x2, y2) && sx <= x2 < x && sy - 1 <= y2 <= sy + 1
                    ==> stack_extended(
                    #[trigger] m0.cell(x2, y2),
                    world@.cell(x2, y2),
                    pat(x2, y2),
                    m0.current_uid,
                    hi,
                ),
            forall|x2: int, y2: int|
                m0.in_bounds(x2, y2) && !(sx <= x2 < x && sy - 1 <= y2 <= sy + 1)
                    ==> world@.cell(x2, y2) == #[trigger] m0.cell(x2, y2),
        decreases xe + 1 - x,
    {
        proof {
            assert(3 * (x - sx) + 3 <= 3 * (length + 1)) by (nonlinear_arith)
                requires
                    sx <= x <= xe,
                    xe == sx + length,
            ;
        }
        let tile = if x == sx || x == xe {
            TileType::VerticalWall
        } else {
            TileType::Floor
        };
        let ghost pre0 = world@;
        let r1 = world.put(tile, x, sy);
        let ghost pre1 = world@;
        let r2 = world.put(TileType::HorizontalWall, x, sy - 1);
        let ghost pre2 = world@;
        let r3 = world.put(TileType::HorizontalWall, x, sy + 1);
        proof {
            assert(r1 is Ok && r2 is Ok && r3 is Ok);
            pre0.lemma_place_cells(tile, x as int, sy as int);
            pre1.lemma_place_cells(TileType::HorizontalWall, x as int, sy - 1);
            pre2.lemma_place_cells(TileType::HorizontalWall, x as int, sy + 1);
            assert(pat(x as int, sy as int) =~= seq![tile]);
            assert(pat(x as int, sy - 1) =~= seq![TileType::HorizontalWall]);
            assert(pat(x as int, sy + 1) =~= seq![TileType::HorizontalWall]);
            assert(m0.cell(x as int, sy as int).len() == 0);
            assert(m0.cell(x as int, sy - 1).len() == 0);
            assert(m0.cell(x as int, sy + 1).len() == 0);
            assert(world@.cell(x as int, sy as int) == m0.cell(x as int, sy as int).push(
                WObject { uid: pre0.current_uid as u32, obj: tile },
            ));
            assert(world@.cell(x as int, sy - 1) == m0.cell(x as int, sy - 1).push(
                WObject { uid: pre1.current_uid as u32, obj: TileType::HorizontalWall },
            ));
            assert(world@.cell(x as int, sy + 1) == m0.cell(x as int, sy + 1).push(
                WObject { uid: pre2.current_uid as u32, obj: TileType::HorizontalWall },
            ));
            assert forall|x2: int, y2: int|
                m0.in_bounds(x2, y2) && sx <= x2 < x + 1 && sy - 1 <= y2 <= sy + 1
                    implies stack_extended(
                #[trigger] m0.cell(x2, y2),
                world@.cell(x2, y2),
                pat(x2, y2),
                m0.current_uid,
                hi,
            ) by {
                if x2 == x {
                } else {
                    assert(world@.cell(x2, y2) == pre0.cell(x2, y2));
                }
            }
            assert forall|x2: int, y2: int|
                m0.in_bounds(x2, y2) && !(sx <= x2 < x + 1 && sy - 1 <= y2 <= sy + 1)
                    implies world@.cell(x2, y2) == #[trigger] m0.cell(x2, y2) by {
                assert(world@.cell(x2, y2) == pre0.cell(x2, y2));
            }
        }
        x = x + 1;
    }
    proof {
        assert forall|x2: int, y2: int| m0.in_bounds(x2, y2) implies stack_extended(
            m0.cell(x2, y2),
            world@.cell(x2, y2),
            #[trigger] pat(x2, y2),
            m0.current_uid,
            world@.current_uid,
        ) by {
            if pat(x2, y2).len() > 0 {
                assert(sx <= x2 <= xe && sy - 1 <= y2 <= sy + 1);
            }
        }
        assert(pattern_applied(m0, world@, pat));
    }
    Ok(())
}

/// Carves a vertical corridor: a floor strip along column `starting_x` from
/// `starting_y` over `length + 1` rows, capped by horizontal walls at both
/// ends and framed by vertical walls one column either side of every row.
/// The whole footprint is validated first; on failure the world is left
/// untouched.
pub fn carve_vertical_corridor(
    world: &mut World,
    starting_x: u32,
    starting_y: u32,
    length: u32,
) -> (r: Result<(), WorldError>)
    requires
        old(world)@.inv(),
        old(world)@.current_uid + 3 * (length + 1) <= u32::MAX,
    ensures
        final(world)@.inv(),
        carve_outcome(
            old(world)@,
            final(world)@,
            r,
            vcorridor_pattern(starting_x as int, starting_y as int, length as int),
        ),
{
    let ghost pat = vcorridor_pattern(starting_x as int, starting_y as int, length as int);
    let ghost m0 = old(world)@;
    let sx = starting_x;
    let sy = starting_y;
    let ww = world.width();
    let wh = world.height();
    if sx < 1 || (sx as u64) + 1 >= (ww as u64) || (sy as u64) + (length as u64) >= (wh as u64) {
        proof {
            if sx < 1 {
                assert(pat(sx - 1, sy as int).len() > 0);
                assert(!m0.in_bounds(sx - 1, sy as int));
                assert(!pattern_in_bounds(m0, pat));
            } else if sx + 1 >= ww {
                assert(pat(sx + 1, sy as int).len() > 0);
                assert(!m0.in_bounds(sx + 1, sy as int));
                assert(!pattern_in_bounds(m0, pat));
            } else {
                assert(sy + length >= wh);
                assert(pat(sx as int, sy + length).len() > 0);
                assert(!m0.in_bounds(sx as int, sy + length));
                assert(!pattern_in_bounds(m0, pat));
            }
            assert(!pattern_in_bounds(m0, pat));
        }
        return Err(
            WorldError::OutOfBounds { x: sx as i64, y: (sy as i64) + (length as i64) },
        );
    }
    let ye = sy + length;
    proof {
        assert forall|x2: int, y2: int| (#[trigger] pat(x2, y2)).len() > 0 implies m0.in_bounds(
            x2,
            y2,
        ) by {}
    }
    // phase one: the strip and its frame must still be empty
    let mut y = sy;
    while y <= ye
        invariant
            world@ == m0,
            m0.inv(),
            sy <= y <= ye + 1,
            ye == sy + length,
            sx == starting_x,
            sy == starting_y,
            1 <= sx,
            sx + 1 < m0.width,
            ye < m0.height,
            pat == vcorridor_pattern(sx as int, sy as int, length as int),
            pattern_in_bounds(m0, pat),
            forall|x2: int, y2: int|
                sy <= y2 < y && sx - 1 <= x2 <= sx + 1 ==> #[trigger] m0.cell(x2, y2).len() == 0,
        decreases ye + 1 - y,
    {
        if world.cell_ref(sx - 1, y).len() != 0 {
            proof {
                assert(pat(sx - 1, y as int).len() > 0);
            }
            return Err(WorldError::Overlap { x: sx - 1, y });
        }
        if world.cell_ref(sx, y).len() != 0 {
            proof {
                assert(pat(sx as int, y as int).len() > 0);
            }
            return Err(WorldError::Overlap { x: sx, y });
        }
        if world.cell_ref(sx + 1, y).len() != 0 {
            proof {
                assert(pat(sx + 1, y as int).len() > 0);
            }
            return Err(WorldError::Overlap { x: sx + 1, y });
        }
        y = y + 1;
    }
    proof {
        assert forall|x2: int, y2: int| (#[trigger] pat(x2, y2)).len() > 0 implies m0.cell(
            x2,
            y2,
        ).len() == 0 by {}
        assert(pattern_clear(m0, pat));
    }
    // phase two: write the corridor, row by row
    let ghost hi: nat = (m0.current_uid + 3 * (length + 1)) as nat;
    let mut y = sy;
    while y <= ye
        invariant
            world@.inv(),
            world@.width == m0.width,
            world@.height == m0.height,
            m0.inv(),
            sy <= y <= ye + 1,
            ye == sy + length,
            sx == starting_x,
            sy == starting_y,
            1 <= sx,
            sx + 1 < m0.width,
            ye < m0.height,
            pat == vcorridor_pattern(sx as int, sy as int, length as int),
            pattern_in_bounds(m0, pat),
            pattern_clear(m0, pat),
            hi == m0.current_uid + 3 * (length + 1),
            hi <= u32::MAX,
            world@.current_uid == m0.current_uid + 3 * (y - sy),
            world@.current_uid <= hi,
            forall|x2: int, y2: int|
                m0.in_bounds(x2, y2) && sy <= y2 < y && sx - 1 <= x2 <= sx + 1
                    ==> stack_extended(
                    #[trigger] m0.cell(x2, y2),
                    world@.cell(x2, y2),
                    pat(x2, y2),
                    m0.current_uid,
                    hi,
                ),
            forall|x2: int, y2: int|
                m0.in_bounds(x2, y2) && !(sy <= y2 < y && sx - 1 <= x2 <= sx + 1)
                    ==> world@.cell(x2, y2) == #[trigger] m0.cell(x2, y2),
        decreases ye + 1 - y,
    {
        proof {
            assert(3 * (y - sy) + 3 <= 3 * (length + 1)) by (nonlinear_arith)
                requires
                    sy <= y <= ye,
                    ye == sy + length,
            ;
        }
        let tile = if y == sy || y == ye {
            TileType::HorizontalWall
        } else {
            TileType::Floor
        };
        let ghost pre0 = world@;
        let r1 = world.put(tile, sx, y);
        let ghost pre1 = world@;
        let r2 = world.put(TileType::VerticalWall, sx - 1, y);
        let ghost pre2 = world@;
        let r3 = world.put(TileType::VerticalWall, sx + 1, y);
        proof {
            assert(r1 is Ok && r2 is Ok && r3 is Ok);
            pre0.lemma_place_cells(tile, sx as int, y as int);
            pre1.lemma_place_cells(TileType::VerticalWall, sx - 1, y as int);
            pre2.lemma_place_cells(TileType::VerticalWall, sx + 1, y as int);
            assert(pat(sx as int, y as int) =~= seq![tile]);
            assert(pat(sx - 1, y as int) =~= seq![TileType::VerticalWall]);
            assert(pat(sx + 1, y as int) =~= seq![TileType::VerticalWall]);
            assert(m0.cell(sx as int, y as int).len() == 0);
            assert(m0.cell(sx - 1, y as int).len() == 0);
            assert(m0.cell(sx + 1, y as int).len() == 0);
            assert(world@.cell(sx as int, y as int) == m0.cell(sx as int, y as int).push(
                WObject { uid: pre0.current_uid as u32, obj: tile },
            ));
            assert(world@.cell(sx - 1, y as int) == m0.cell(sx - 1, y as int).push(
                WObject { uid: pre1.current_uid as u32, obj: TileType::VerticalWall },
            ));
            assert(world@.cell(sx + 1, y as int) == m0.cell(sx + 1, y as int).push(
                WObject { uid: pre2.current_uid as u32, obj: TileType::VerticalWall },
            ));
            assert forall|x2: int, y2: int|
                m0.in_bounds(x2, y2) && sy <= y2 < y + 1 && sx - 1 <= x2 <= sx + 1
                    implies stack_extended(
                #[trigger] m0.cell(x2, y2),
                world@.cell(x2, y2),
                pat(x2, y2),
                m0.current_uid,
                hi,
            ) by {
                if y2 == y {
                } else {
                    assert(world@.cell(x2, y2) == pre0.cell(x2, y2));
                }
            }
            assert forall|x2: int, y2: int|
                m0.in_bounds(x2, y2) && !(sy <= y2 < y + 1 && sx - 1 <= x2 <= sx + 1)
                    implies world@.cell(x2, y2) == #[trigger] m0.cell(x2, y2) by {
                assert(world@.cell(x2, y2) == pre0.cell(x2, y2));
            }
        }
        y = y + 1;
    }
    proof {
        assert forall|x2: int, y2: int| m0.in_bounds(x2, y2) implies stack_extended(
            m0.cell(x2, y2),
            world@.cell(x2, y2),
            #[trigger] pat(x2, y2),
            m0.current_uid,
            world@.current_uid,
        ) by {
            if pat(x2, y2).len() > 0 {
                assert(sy <= y2 <= ye && sx - 1 <= x2 <= sx + 1);
            }
        }
        assert(pattern_applied(m0, world@, pat));
    }
    Ok(())
}

/// The absolute value of an integer.
pub open spec fn iabs(a: int) -> int {
    if a >= 0 {
        a
    } else {
        -a
    }
}

/// A run of `n` horizontal walls (empty when `n <= 0`).
pub open spec fn h_walls(n: int) -> Seq<TileType> {
    if n <= 0 {
        Seq::empty()
    } else {
        Seq::new(n as nat, |i: int| TileType::HorizontalWall)
    }
}

/// The kind the diamond's column spans place on cell `(x, y)`: within each
/// column at distance `d` from the center the span reaches `r - d` cells up
/// and down, walled at its two ends and floored between them.
pub open spec fn diamond_span_tiles(cx: int, cy: int, r: int, x: int, y: int) -> Seq<TileType> {
    if iabs(x - cx) <= r && iabs(y - cy) <= r - iabs(x - cx) {
        if iabs(y - cy) == r - iabs(x - cx) {
            seq![TileType::VerticalWall]
        } else {
            seq![TileType::Floor]
        }
    } else {
        Seq::empty()
    }
}

/// The horizontal walls that the first `k` of the diamond's four extreme
/// points (leftmost, rightmost, topmost, bottommost, in that order) place
/// on cell `(x, y)`.
pub open spec fn diamond_extras_upto(cx: int, cy: int, r: int, k: int, x: int, y: int) -> Seq<
    TileType,
> {
    let c1: int = if k >= 1 && x == cx - r && y == cy {
        1
    } else {
        0
    };
    let c2: int = if k >= 2 && x == cx + r && y == cy {
        1
    } else {
        0
    };
    let c3: int = if k >= 3 && x == cx && y == cy - r {
        1
    } else {
        0
    };
    let c4: int = if k >= 4 && x == cx && y == cy + r {
        1
    } else {
        0
    };
    h_walls(c1 + c2 + c3 + c4)
}

/// The kinds a diamond room places on cell `(x, y)`: the span tile, plus a
/// horizontal wall on top at each of the four extreme points.
pub open spec fn diamond_tiles(cx: int, cy: int, r: int, x: int, y: int) -> Seq<TileType> {
    diamond_span_tiles(cx, cy, r, x, y) + diamond_extras_upto(cx, cy, r, 4, x, y)
}

/// The footprint of a diamond room centred at `(cx, cy)`.
pub open spec fn diamond_pattern(cx: int, cy: int, r: int) -> spec_fn(int, int) -> Seq<TileType> {
    |x: int, y: int| diamond_tiles(cx, cy, r, x, y)
}

/// Appending one more object of the expected kind extends the stack by one
/// more kind.
proof fn lemma_stack_extended_push(
    c0: Seq<WObject>,
    c1: Seq<WObject>,
    kinds: Seq<TileType>,
    lo: nat,
    hi: nat,
    o: WObject,
)
    requires
        stack_extended(c0, c1, kinds, lo, hi),
        lo <= o.uid < hi,
    ensures
        stack_extended(c0, c1.push(o), kinds.push(o.obj), lo, hi),
{
    let c2 = c1.push(o);
    let k2 = kinds.push(o.obj);
    assert forall|i: int| 0 <= i < k2.len() implies (#[trigger] c2[c0.len() + i]).obj == k2[i]
        && lo <= c2[c0.len() + i].uid < hi by {
        if i < kinds.len() {
            assert(c2[c0.len() + i] == c1[c0.len() + i]);
        } else {
            assert(c2[c0.len() + i] == o);
        }
    }
}

/// The direction a corridor runs in.
#[derive(Clone, Copy, PartialEq, Eq, Structural, Debug)]
pub enum Direction {
    Horizontal,
    Vertical,
}

/// Carves a corridor in the given direction; the footprint and outcome are
/// those of the directional carving.
pub fn carve_corridor(
    world: &mut World,
    starting_x: u32,
    starting_y: u32,
    length: u32,
    direction: Direction,
) -> (r: Result<(), WorldError>)
    requires
        old(world)@.inv(),
        old(world)@.current_uid + 3 * (length + 1) <= u32::MAX,
    ensures
        final(world)@.inv(),
        direction is Horizontal ==> carve_outcome(
            old(world)@,
            final(world)@,
            r,
            hcorridor_pattern(starting_x as int, starting_y as int, length as int),
        ),
        direction is Vertical ==> carve_outcome(
            old(world)@,
            final(world)@,
            r,
            vcorridor_pattern(starting_x as int, starting_y as int, length as int),
        ),
{
    match direction {
        Direction::Horizontal => carve_horizontal_corridor(world, starting_x, starting_y, length),
        Direction::Vertical => carve_vertical_corridor(world, starting_x, starting_y, length),
    }
}

/// The kind a rectangle room places on cell `(x, y)`: a horizontal wall on
/// the left and right boundary columns, a vertical wall on the top and
/// bottom boundary rows (the column check takes precedence), and floor
/// inside.
pub open spec fn rect_tiles(x0: int, y0: int, h: int, w: int, x: int, y: int) -> Seq<TileType> {
    if x0 <= x < x0 + w && y0 <= y < y0 + h {
        if x == x0 || x == x0 + w - 1 {
            seq![TileType::HorizontalWall]
        } else if y == y0 || y == y0 + h - 1 {
            seq![TileType::VerticalWall]
        } else {
            seq![TileType::Floor]
        }
    } else {
        Seq::empty()
    }
}

/// The footprint of a rectangle room at `(x0, y0)` of the given height and
/// width.
pub open spec fn rect_pattern(x0: int, y0: int, h: int, w: int) -> spec_fn(int, int) -> Seq<
    TileType,
> {
    |x: int, y: int| rect_tiles(x0, y0, h, w, x, y)
}

/// Carves a rectangular room with its upper-left corner at
/// `(upper_left_x, upper_left_y)`: floor framed by horizontal walls on the
/// boundary columns and vertical walls on the boundary rows. The whole
/// footprint is validated first: if any targeted cell lies outside the
/// grid the call fails with `OutOfBounds`, if any is already occupied it
/// fails with `Overlap` naming the first such cell in scan order, and on
/// failure the world is left untouched.
pub fn carve_rectangle_room(
    world: &mut World,
    upper_left_x: u32,
    upper_left_y: u32,
    height: u32,
    width: u32,
) -> (r: Result<(), WorldError>)
    requires
        old(world)@.inv(),
        old(world)@.current_uid + width * height <= u32::MAX,
    ensures
        final(world)@.inv(),
        carve_outcome(
            old(world)@,
            final(world)@,
            r,
            rect_pattern(upper_left_x as int, upper_left_y as int, height as int, width as int),
        ),
{
    let ghost pat = rect_pattern(upper_left_x as int, upper_left_y as int, height as int, width as int);
    let ghost m0 = old(world)@;
    let x0 = upper_left_x;
    let y0 = upper_left_y;
    if width == 0 || height == 0 {
        proof {
            assert forall|x2: int, y2: int| m0.in_bounds(x2, y2) implies stack_extended(
                m0.cell(x2, y2),
                m0.cell(x2, y2),
                #[trigger] pat(x2, y2),
                m0.current_uid,
                m0.current_uid,
            ) by {
                assert(pat(x2, y2).len() == 0);
            }
        }
        return Ok(());
    }
    let ww = world.width();
    let wh = world.height();
    if (x0 as u64) + (width as u64) > (ww as u64) || (y0 as u64) + (height as u64) > (wh as u64) {
        proof {
            assert(pat(x0 + width - 1, y0 + height - 1).len() > 0);
            assert(!m0.in_bounds(x0 + width - 1, y0 + height - 1));
            assert(!pattern_in_bounds(m0, pat));
        }
        return Err(
            WorldError::OutOfBounds {
                x: (x0 as i64) + (width as i64) - 1,
                y: (y0 as i64) + (height as i64) - 1,
            },
        );
    }
    let xe = x0 + width;
    let ye = y0 + height;
    proof {
        assert forall|x2: int, y2: int| (#[trigger] pat(x2, y2)).len() > 0 implies m0.in_bounds(
            x2,
            y2,
        ) by {}
    }
    // phase one: every targeted cell must still be empty
    let mut x = x0;
    while x < xe
        invariant
            world@ == m0,
            m0.inv(),
            x0 <= x <= xe,
            xe == x0 + width,
            ye == y0 + height,
            xe <= m0.width,
            ye <= m0.height,
            width >= 1,
            height >= 1,
            x0 == upper_left_x,
            y0 == upper_left_y,
            pat == rect_pattern(x0 as int, y0 as int, height as int, width as int),
            pattern_in_bounds(m0, pat),
            forall|x2: int, y2: int|
                x0 <= x2 < x && y0 <= y2 < ye ==> #[trigger] m0.cell(x2, y2).len() == 0,
        decreases xe - x,
    {
        let mut y = y0;
        while y < ye
            invariant
                world@ == m0,
                m0.inv(),
                x0 <= x < xe,
                y0 <= y <= ye,
                xe == x0 + width,
                ye == y0 + height,
                xe <= m0.width,
                ye <= m0.height,
                x0 == upper_left_x,
            y0 == upper_left_y,
            pat == rect_pattern(x0 as int, y0 as int, height as int, width as int),
                pattern_in_bounds(m0, pat),
                forall|y2: int| y0 <= y2 < y ==> #[trigger] m0.cell(x as int, y2).len() == 0,
            decreases ye - y,
        {
            let cell = world.cell_ref(x, y);
            if cell.len() != 0 {
                proof {
                    assert(pat(x as int, y as int).len() > 0);
                    assert(!pattern_clear(m0, pat));
                }
                return Err(WorldError::Overlap { x, y });
            }
            y = y + 1;
        }
        x = x + 1;
    }
    proof {
        assert forall|x2: int, y2: int| (#[trigger] pat(x2, y2)).len() > 0 implies m0.cell(
            x2,
            y2,
        ).len() == 0 by {}
        assert(pattern_clear(m0, pat));
    }
    // phase two: write the room
    let ghost hi: nat = (m0.current_uid + width * height) as nat;
    let mut x = x0;
    while x < xe
        invariant
            world@.inv(),
            world@.width == m0.width,
            world@.height == m0.height,
            x0 <= x <= xe,
            xe == x0 + width,
            ye == y0 + height,
            xe <= m0.width,
            ye <= m0.height,
            width >= 1,
            height >= 1,
            hi == m0.current_uid + width * height,
            hi <= u32::MAX,
            x0 == upper_left_x,
            y0 == upper_left_y,
            pat == rect_pattern(x0 as int, y0 as int, height as int, width as int),
            m0.inv(),
            pattern_in_bounds(m0, pat),
            pattern_clear(m0, pat),
            world@.current_uid == m0.current_uid + (x - x0) * height,
            world@.current_uid <= hi,
            forall|x2: int, y2: int|
                m0.in_bounds(x2, y2) && x0 <= x2 < x && y0 <= y2 < ye ==> stack_extended(
                    #[trigger] m0.cell(x2, y2),
                    world@.cell(x2, y2),
                    pat(x2, y2),
                    m0.current_uid,
                    hi,
                ),
            forall|x2: int, y2: int|
                m0.in_bounds(x2, y2) && !(x0 <= x2 < x && y0 <= y2 < ye)
                    ==> world@.cell(x2, y2) == #[trigger] m0.cell(x2, y2),
        decreases xe - x,
    {
        proof {
            assert((x - x0) * height + height <= width * height) by (nonlinear_arith)
                requires
                    x0 <= x < xe,
                    xe == x0 + width,
                    height >= 1,
            ;
        }
        let mut y = y0;
        while y < ye
            invariant
                world@.inv(),
                world@.width == m0.width,
                world@.height == m0.height,
                x0 <= x < xe,
                y0 <= y <= ye,
                xe == x0 + width,
                ye == y0 + height,
                xe <= m0.width,
                ye <= m0.height,
                width >= 1,
                height >= 1,
                hi == m0.current_uid + width * height,
                hi <= u32::MAX,
                (x - x0) * height + height <= width * height,
                x0 == upper_left_x,
            y0 == upper_left_y,
            pat == rect_pattern(x0 as int, y0 as int, height as int, width as int),
                m0.inv(),
                pattern_in_bounds(m0, pat),
                pattern_clear(m0, pat),
                world@.current_uid == m0.current_uid + (x - x0) * height + (y - y0),
                world@.current_uid + (ye - y) <= hi,
                forall|x2: int, y2: int|
                    m0.in_bounds(x2, y2) && ((x0 <= x2 < x && y0 <= y2 < ye) || (x2 == x && y0
                        <= y2 < y)) ==> stack_extended(
                        #[trigger] m0.cell(x2, y2),
                        world@.cell(x2, y2),
                        pat(x2, y2),
                        m0.current_uid,
                        hi,
                    ),
                forall|x2: int, y2: int|
                    m0.in_bounds(x2, y2) && !((x0 <= x2 < x && y0 <= y2 < ye) || (x2 == x && y0
                        <= y2 < y)) ==> world@.cell(x2, y2) == #[trigger] m0.cell(x2, y2),
            decreases ye - y,
        {
            let tile = if x == x0 || x == xe - 1 {
                TileType::HorizontalWall
            } else if y == y0 || y == ye - 1 {
                TileType::VerticalWall
            } else {
                TileType::Floor
            };
            let ghost pre = world@;
            let res = world.put(tile, x, y);
            proof {
                assert(res is Ok);
                assert(pat(x as int, y as int) =~= seq![tile]);
                pre.lemma_place_cells(tile, x as int, y as int);
                assert(world@.cell(x as int, y as int) == pre.cell(x as int, y as int).push(
                    WObject { uid: pre.current_uid as u32, obj: tile },
                ));
                assert(pre.cell(x as int, y as int) == m0.cell(x as int, y as int));
                assert(m0.cell(x as int, y as int).len() == 0);
                assert(pat(x as int, y as int) =~= seq![tile]);
                assert(stack_extended(
                    m0.cell(x as int, y as int),
                    world@.cell(x as int, y as int),
                    pat(x as int, y as int),
                    m0.current_uid,
                    hi,
                ));
                assert forall|x2: int, y2: int|
                    m0.in_bounds(x2, y2) && ((x0 <= x2 < x && y0 <= y2 < ye) || (x2 == x && y0
                        <= y2 < y + 1)) implies stack_extended(
                    #[trigger] m0.cell(x2, y2),
                    world@.cell(x2, y2),
                    pat(x2, y2),
                    m0.current_uid,
                    hi,
                ) by {
                    if x2 == x && y2 == y {
                    } else {
                        assert(world@.cell(x2, y2) == pre.cell(x2, y2));
                    }
                }
                assert forall|x2: int, y2: int|
                    m0.in_bounds(x2, y2) && !((x0 <= x2 < x && y0 <= y2 < ye) || (x2 == x && y0
                        <= y2 < y + 1)) implies world@.cell(x2, y2) == #[trigger] m0.cell(
                    x2,
                    y2,
                ) by {
                    assert(world@.cell(x2, y2) == pre.cell(x2, y2));
                }
            }
            y = y + 1;
        }
        proof {
            assert((x + 1 - x0) * height == (x - x0) * height + height) by (nonlinear_arith);
        }
        x = x + 1;
    }
    proof {
        assert forall|x2: int, y2: int| m0.in_bounds(x2, y2) implies stack_extended(
            m0.cell(x2, y2),
            world@.cell(x2, y2),
            #[trigger] pat(x2, y2),
            m0.current_uid,
            world@.current_uid,
        ) by {
            assert((xe - x0) * height == width * height) by (nonlinear_arith)
                requires
                    xe == x0 + width,
            ;
            if pat(x2, y2).len() > 0 {
                assert(x0 <= x2 < xe && y0 <= y2 < ye);
            }
        }
        assert(pattern_applied(m0, world@, pat));
    }
    Ok(())
}

/// Carves a diamond room centred at `(center_x, center_y)`: each column at
/// distance `d` from the center gets a floored vertical span of half-height
/// `radius - d` walled at its two ends, and each of the four extreme points
/// gets a horizontal wall on top. The whole footprint is validated first;
/// on failure the world is left untouched.
pub fn carve_diamond_room(
    world: &mut World,
    center_x: u32,
    center_y: u32,
    radius: u32,
) -> (r: Result<(), WorldError>)
    requires
        old(world)@.inv(),
        old(world)@.current_uid + (2 * radius + 1) * (2 * radius + 1) + 4 <= u32::MAX,
    ensures
        final(world)@.inv(),
        carve_outcome(
            old(world)@,
            final(world)@,
            r,
            diamond_pattern(center_x as int, center_y as int, radius as int),
        ),
{
    let ghost pat = diamond_pattern(center_x as int, center_y as int, radius as int);
    let ghost m0 = old(world)@;
    let cx = center_x;
    let cy = center_y;
    let rr = radius;
    let ww = world.width();
    let wh = world.height();
    if (cx as u64) < (rr as u64) || (cx as u64) + (rr as u64) >= (ww as u64) || (cy as u64) < (rr
        as u64) || (cy as u64) + (rr as u64) >= (wh as u64) {
        proof {
            assert(pat(cx - rr, cy as int).len() > 0);
            assert(pat(cx + rr, cy as int).len() > 0);
            assert(pat(cx as int, cy - rr).len() > 0);
            assert(pat(cx as int, cy + rr).len() > 0);
            if cx < rr {
                assert(!m0.in_bounds(cx - rr, cy as int));
            } else if cx + rr >= ww {
                assert(!m0.in_bounds(cx + rr, cy as int));
            } else if cy < rr {
                assert(!m0.in_bounds(cx as int, cy - rr));
            } else {
                assert(!m0.in_bounds(cx as int, cy + rr));
            }
            assert(!pattern_in_bounds(m0, pat));
        }
        return Err(
            WorldError::OutOfBounds {
                x: (cx as i64) + (rr as i64),
                y: (cy as i64) + (rr as i64),
            },
        );
    }
    let xs = cx - rr;
    let xe = cx + rr;
    proof {
        assert forall|x2: int, y2: int| (#[trigger] pat(x2, y2)).len() > 0 implies m0.in_bounds(
            x2,
            y2,
        ) by {
            assert(diamond_span_tiles(cx as int, cy as int, rr as int, x2, y2).len() > 0);
        }
    }
    // phase one: every span cell must still be empty
    let mut x = xs;
    while x <= xe
        invariant
            world@ == m0,
            m0.inv(),
            xs <= x <= xe + 1,
            xs == cx - rr,
            xe == cx + rr,
            cx == center_x,
            cy == center_y,
            rr == radius,
            rr <= cx,
            cx + rr < m0.width,
            rr <= cy,
            cy + rr < m0.height,
            pat == diamond_pattern(cx as int, cy as int, rr as int),
            pattern_in_bounds(m0, pat),
            forall|x2: int, y2: int|
                x2 < x && #[trigger] diamond_span_tiles(
                    cx as int,
                    cy as int,
                    rr as int,
                    x2,
                    y2,
                ).len() > 0 ==> m0.cell(x2, y2).len() == 0,
        decreases xe + 1 - x,
    {
        let dx = if x >= cx {
            x - cx
        } else {
            cx - x
        };
        let yd = rr - dx;
        let ys = cy - yd;
        let ye = cy + yd;
        let mut y = ys;
        while y <= ye
            invariant
                world@ == m0,
                m0.inv(),
                xs <= x <= xe,
                xs == cx - rr,
                xe == cx + rr,
                cx == center_x,
                cy == center_y,
                rr == radius,
                rr <= cx,
                cx + rr < m0.width,
                rr <= cy,
                cy + rr < m0.height,
                dx == iabs(x - cx),
                yd == rr - dx,
                ys == cy - yd,
                ye == cy + yd,
                ys <= y <= ye + 1,
                pat == diamond_pattern(cx as int, cy as int, rr as int),
                pattern_in_bounds(m0, pat),
                forall|x2: int, y2: int|
                    x2 < x && #[trigger] diamond_span_tiles(
                        cx as int,
                        cy as int,
                        rr as int,
                        x2,
                        y2,
                    ).len() > 0 ==> m0.cell(x2, y2).len() == 0,
                forall|y2: int|
                    ys <= y2 < y ==> #[trigger] m0.cell(x as int, y2).len() == 0,
            decreases ye + 1 - y,
        {
            if world.cell_ref(x, y).len() != 0 {
                proof {
                    assert(diamond_span_tiles(
                        cx as int,
                        cy as int,
                        rr as int,
                        x as int,
                        y as int,
                    ).len() > 0);
                    assert(pat(x as int, y as int).len() > 0);
                    assert(!pattern_clear(m0, pat));
                }
                return Err(WorldError::Overlap { x, y });
            }
            y = y + 1;
        }
        proof {
            assert forall|x2: int, y2: int|
                x2 < x + 1 && #[trigger] diamond_span_tiles(
                    cx as int,
                    cy as int,
                    rr as int,
                    x2,
                    y2,
                ).len() > 0 implies m0.cell(x2, y2).len() == 0 by {
                if x2 == x {
                    assert(ys <= y2 <= ye);
                }
            }
        }
        x = x + 1;
    }
    proof {
        assert forall|x2: int, y2: int| (#[trigger] pat(x2, y2)).len() > 0 implies m0.cell(
            x2,
            y2,
        ).len() == 0 by {
            assert(diamond_span_tiles(cx as int, cy as int, rr as int, x2, y2).len() > 0);
        }
        assert(pattern_clear(m0, pat));
    }
    // phase two: write the spans, column by column
    let mut x = xs;
    while x <= xe
        invariant
            world@.inv(),
            world@.width == m0.width,
            world@.height == m0.height,
            m0.inv(),
            xs <= x <= xe + 1,
            xs == cx - rr,
            xe == cx + rr,
            cx == center_x,
            cy == center_y,
            rr == radius,
            rr <= cx,
            cx + rr < m0.width,
            rr <= cy,
            cy + rr < m0.height,
            pat == diamond_pattern(cx as int, cy as int, rr as int),
            pattern_in_bounds(m0, pat),
            pattern_clear(m0, pat),
            m0.current_uid + (2 * rr + 1) * (2 * rr + 1) + 4 <= u32::MAX,
            m0.current_uid <= world@.current_uid,
            world@.current_uid <= m0.current_uid + (x - xs) * (2 * rr + 1),
            (x - xs) * (2 * rr + 1) <= (2 * rr + 1) * (2 * rr + 1),
            forall|x2: int, y2: int|
                m0.in_bounds(x2, y2) && x2 < x ==> stack_extended(
                    #[trigger] m0.cell(x2, y2),
                    world@.cell(x2, y2),
                    diamond_span_tiles(cx as int, cy as int, rr as int, x2, y2),
                    m0.current_uid,
                    world@.current_uid,
                ),
            forall|x2: int, y2: int|
                m0.in_bounds(x2, y2) && x2 >= x ==> world@.cell(x2, y2) == #[trigger] m0.cell(
                    x2,
                    y2,
                ),
        decreases xe + 1 - x,
    {
        proof {
            assert((x + 1 - xs) * (2 * rr + 1) == (x - xs) * (2 * rr + 1) + (2 * rr + 1))
                by (nonlinear_arith);
            assert((x + 1 - xs) * (2 * rr + 1) <= (2 * rr + 1) * (2 * rr + 1))
                by (nonlinear_arith)
                requires
                    xs <= x <= xe,
                    xe == cx + rr,
                    xs == cx - rr,
            ;
        }
        let dx = if x >= cx {
            x - cx
        } else {
            cx - x
        };
        let yd = rr - dx;
        let ys = cy - yd;
        let ye = cy + yd;
        let ghost col0 = world@;
        let mut y = ys;
        while y <= ye
            invariant
                world@.inv(),
                world@.width == m0.width,
                world@.height == m0.height,
                m0.inv(),
                xs <= x <= xe,
                xs == cx - rr,
                xe == cx + rr,
                cx == center_x,
                cy == center_y,
                rr == radius,
                rr <= cx,
                cx + rr < m0.width,
                rr <= cy,
                cy + rr < m0.height,
                dx == iabs(x - cx),
                yd == rr - dx,
                ys == cy - yd,
                ye == cy + yd,
                ys <= y <= ye + 1,
                pat == diamond_pattern(cx as int, cy as int, rr as int),
                pattern_in_bounds(m0, pat),
                pattern_clear(m0, pat),
                m0.current_uid + (2 * rr + 1) * (2 * rr + 1) + 4 <= u32::MAX,
                m0.current_uid <= world@.current_uid,
                world@.current_uid == col0.current_uid + (y - ys),
                col0.current_uid <= m0.current_uid + (x - xs) * (2 * rr + 1),
                (x - xs) * (2 * rr + 1) <= (2 * rr + 1) * (2 * rr + 1),
                (x + 1 - xs) * (2 * rr + 1) == (x - xs) * (2 * rr + 1) + (2 * rr + 1),
                (x + 1 - xs) * (2 * rr + 1) <= (2 * rr + 1) * (2 * rr + 1),
                forall|x2: int, y2: int|
                    m0.in_bounds(x2, y2) && (x2 < x || (x2 == x && ys <= y2 < y))
                        ==> stack_extended(
                        #[trigger] m0.cell(x2, y2),
                        world@.cell(x2, y2),
                        diamond_span_tiles(cx as int, cy as int, rr as int, x2, y2),
                        m0.current_uid,
                        world@.current_uid,
                    ),
                forall|x2: int, y2: int|
                    m0.in_bounds(x2, y2) && !(x2 < x || (x2 == x && ys <= y2 < y))
                        ==> world@.cell(x2, y2) == #[trigger] m0.cell(x2, y2),
        decreases ye + 1 - y,
        {
            let tile = if y == ys || y == ye {
                TileType::VerticalWall
            } else {
                TileType::Floor
            };
            let ghost pre = world@;
            proof {
                assert(pre.current_uid < m0.current_uid + (2 * rr + 1) * (2 * rr + 1))
                    by (nonlinear_arith)
                    requires
                        pre.current_uid == col0.current_uid + (y - ys),
                        col0.current_uid <= m0.current_uid + (x - xs) * (2 * rr + 1),
                        (x + 1 - xs) * (2 * rr + 1) == (x - xs) * (2 * rr + 1) + (2 * rr + 1),
                        (x + 1 - xs) * (2 * rr + 1) <= (2 * rr + 1) * (2 * rr + 1),
                        ys <= y <= ye,
                        ye == cy + yd,
                        ys == cy - yd,
                        0 <= yd <= rr,
                ;
            }
            let res = world.put(tile, x, y);
            proof {
                assert(res is Ok);
                pre.lemma_place_cells(tile, x as int, y as int);
                assert(diamond_span_tiles(cx as int, cy as int, rr as int, x as int, y as int)
                    =~= seq![tile]);
                assert(m0.cell(x as int, y as int).len() == 0) by {
                    assert(diamond_span_tiles(
                        cx as int,
                        cy as int,
                        rr as int,
                        x as int,
                        y as int,
                    ).len() == 1);
                    assert(pat(x as int, y as int).len() > 0);
                }
                assert(world@.cell(x as int, y as int) == m0.cell(x as int, y as int).push(
                    WObject { uid: pre.current_uid as u32, obj: tile },
                ));
                assert forall|x2: int, y2: int|
                    m0.in_bounds(x2, y2) && (x2 < x || (x2 == x && ys <= y2 < y + 1))
                        implies stack_extended(
                    #[trigger] m0.cell(x2, y2),
                    world@.cell(x2, y2),
                    diamond_span_tiles(cx as int, cy as int, rr as int, x2, y2),
                    m0.current_uid,
                    world@.current_uid,
                ) by {
                    if x2 == x && y2 == y {
                    } else {
                        assert(world@.cell(x2, y2) == pre.cell(x2, y2));
                        lemma_stack_extended_mono(
                            m0.cell(x2, y2),
                            world@.cell(x2, y2),
                            diamond_span_tiles(cx as int, cy as int, rr as int, x2, y2),
                            m0.current_uid,
                            pre.current_uid,
                            world@.current_uid,
                        );
                    }
                }
                assert forall|x2: int, y2: int|
                    m0.in_bounds(x2, y2) && !(x2 < x || (x2 == x && ys <= y2 < y + 1))
                        implies world@.cell(x2, y2) == #[trigger] m0.cell(x2, y2) by {
                    assert(world@.cell(x2, y2) == pre.cell(x2, y2));
                }
            }
            y = y + 1;
        }
        proof {
            assert forall|x2: int, y2: int| m0.in_bounds(x2, y2) && x2 < x + 1
                implies stack_extended(
                #[trigger] m0.cell(x2, y2),
                world@.cell(x2, y2),
                diamond_span_tiles(cx as int, cy as int, rr as int, x2, y2),
                m0.current_uid,
                world@.current_uid,
            ) by {
                if x2 == x && !(ys <= y2 <= ye) {
                    assert(diamond_span_tiles(cx as int, cy as int, rr as int, x2, y2).len()
                        == 0);
                    assert(world@.cell(x2, y2) == m0.cell(x2, y2));
                }
            }
        }
        x = x + 1;
    }
    // phase three: a horizontal wall on top of each extreme point
    proof {
        assert(world@.current_uid + 4 <= u32::MAX);
        assert forall|x2: int, y2: int| m0.in_bounds(x2, y2) implies stack_extended(
            #[trigger] m0.cell(x2, y2),
            world@.cell(x2, y2),
            diamond_span_tiles(cx as int, cy as int, rr as int, x2, y2) + diamond_extras_upto(
                cx as int,
                cy as int,
                rr as int,
                0,
                x2,
                y2,
            ),
            m0.current_uid,
            world@.current_uid,
        ) by {
            let span = diamond_span_tiles(cx as int, cy as int, rr as int, x2, y2);
            assert(span + diamond_extras_upto(cx as int, cy as int, rr as int, 0, x2, y2)
                =~= span);
            if x2 > xe {
                assert(span.len() == 0);
                assert(world@.cell(x2, y2) == m0.cell(x2, y2));
            }
        }
    }
    let mut k: u32 = 0;
    while k < 4
        invariant
            world@.inv(),
            world@.width == m0.width,
            world@.height == m0.height,
            m0.inv(),
            k <= 4,
            cx == center_x,
            cy == center_y,
            rr == radius,
            rr <= cx,
            cx + rr < m0.width,
            rr <= cy,
            cy + rr < m0.height,
            pat == diamond_pattern(cx as int, cy as int, rr as int),
            pattern_in_bounds(m0, pat),
            pattern_clear(m0, pat),
            m0.current_uid <= world@.current_uid,
            world@.current_uid + (4 - k) <= u32::MAX,
            forall|x2: int, y2: int|
                m0.in_bounds(x2, y2) ==> stack_extended(
                    #[trigger] m0.cell(x2, y2),
                    world@.cell(x2, y2),
                    diamond_span_tiles(cx as int, cy as int, rr as int, x2, y2)
                        + diamond_extras_upto(cx as int, cy as int, rr as int, k as int, x2, y2),
                    m0.current_uid,
                    world@.current_uid,
                ),
        decreases 4 - k,
    {
        let ex = if k == 0 {
            cx - rr
        } else if k == 1 {
            cx + rr
        } else {
            cx
        };
        let ey = if k == 2 {
            cy - rr
        } else if k == 3 {
            cy + rr
        } else {
            cy
        };
        let ghost pre = world@;
        let res = world.put(TileType::HorizontalWall, ex, ey);
        proof {
            assert(res is Ok);
            pre.lemma_place_cells(TileType::HorizontalWall, ex as int, ey as int);
            let o = WObject { uid: pre.current_uid as u32, obj: TileType::HorizontalWall };
            assert(world@.cell(ex as int, ey as int) == pre.cell(ex as int, ey as int).push(o));
            assert forall|x2: int, y2: int| m0.in_bounds(x2, y2) implies stack_extended(
                #[trigger] m0.cell(x2, y2),
                world@.cell(x2, y2),
                diamond_span_tiles(cx as int, cy as int, rr as int, x2, y2)
                    + diamond_extras_upto(cx as int, cy as int, rr as int, k + 1, x2, y2),
                m0.current_uid,
                world@.current_uid,
            ) by {
                let span = diamond_span_tiles(cx as int, cy as int, rr as int, x2, y2);
                let ek = diamond_extras_upto(cx as int, cy as int, rr as int, k as int, x2, y2);
                let ek1 = diamond_extras_upto(cx as int, cy as int, rr as int, k + 1, x2, y2);
                if x2 == ex && y2 == ey {
                    assert(ek1 =~= ek.push(TileType::HorizontalWall));
                    assert((span + ek).push(TileType::HorizontalWall) =~= span + ek1);
                    lemma_stack_extended_mono(
                        m0.cell(x2, y2),
                        pre.cell(x2, y2),
                        span + ek,
                        m0.current_uid,
                        pre.current_uid,
                        world@.current_uid,
                    );
                    lemma_stack_extended_push(
                        m0.cell(x2, y2),
                        pre.cell(x2, y2),
                        span + ek,
                        m0.current_uid,
                        world@.current_uid,
                        o,
                    );
                } else {
                    assert(ek1 =~= ek);
                    assert(world@.cell(x2, y2) == pre.cell(x2, y2));
                    lemma_stack_extended_mono(
                        m0.cell(x2, y2),
                        world@.cell(x2, y2),
                        span + ek,
                        m0.current_uid,
                        pre.current_uid,
                        world@.current_uid,
                    );
                }
            }
        }
        k = k + 1;
    }
    proof {
        assert forall|x2: int, y2: int| m0.in_bounds(x2, y2) implies stack_extended(
            m0.cell(x2, y2),
            world@.cell(x2, y2),
            #[trigger] pat(x2, y2),
            m0.current_uid,
            world@.current_uid,
        ) by {
            assert(pat(x2, y2) == diamond_span_tiles(cx as int, cy as int, rr as int, x2, y2)
                + diamond_extras_upto(cx as int, cy as int, rr as int, 4, x2, y2));
        }
        assert(pattern_applied(m0, world@, pat));
    }
    Ok(())
}

/// Carving the identical rectangular room twice cannot succeed twice: once
/// a room with at least one cell is carved, its own footprint is no longer
/// clear, so by the carving contract a second identical call fails with
/// `Overlap` and leaves the grid exactly as the first carving left it.
pub proof fn law_rect_carve_overlaps_itself(
    m0: WorldModel,
    m1: WorldModel,
    x0: int,
    y0: int,
    h: int,
    w: int,
)
    requires
        m0.inv(),
        h >= 1,
        w >= 1,
        pattern_in_bounds(m0, rect_pattern(x0, y0, h, w)),
        pattern_applied(m0, m1, rect_pattern(x0, y0, h, w)),
    ensures
        !pattern_clear(m1, rect_pattern(x0, y0, h, w)),
{
    let pat = rect_pattern(x0, y0, h, w);
    assert(pat(x0, y0).len() > 0);
    assert(m0.in_bounds(x0, y0));
    assert(stack_extended(
        m0.cell(x0, y0),
        m1.cell(x0, y0),
        pat(x0, y0),
        m0.current_uid,
        m1.current_uid,
    ));
    assert(m1.cell(x0, y0).len() > 0);
}

/// Declares rand's standard generator so that values of it can flow
/// through verified signatures; the verifier sees nothing of its inside.
#[verifier::external_type_specification]
#[verifier::external_body]
pub struct ExStdRng(rand::rngs::StdRng);

/// Relies on rand's `SeedableRng::seed_from_u64`: builds a generator
/// deterministically from the given seed.
#[verifier::external_body]
fn seeded_rng(seed: u64) -> rand::rngs::StdRng {
    <rand::rngs::StdRng as rand::SeedableRng>::seed_from_u64(seed)
}

/// Relies on rand's `Rng::gen_range` over a half-open range: returns a
/// value in `[lo, hi)`. It panics on an empty range, so one is excluded
/// here; nothing more is assumed of which value comes back.
#[verifier::external_body]
fn rng_range(rng: &mut rand::rngs::StdRng, lo: u32, hi: u32) -> (r: u32)
    requires
        lo < hi,
    ensures
        lo <= r < hi,
{
    rand::Rng::gen_range(rng, lo..hi)
}

/// Assembles a dungeon from a deterministic seed: picks a random interior
/// corner and random room dimensions, each in `[1, 20)`, and carves a
/// single rectangular room there. Whatever values the generator yields,
/// either such a room is carved in full, or the carving's failure is handed
/// back with the world untouched; the caller may re-seed and retry.
pub fn create_dungeon(world: &mut World, seed: u64) -> (r: Result<(), WorldError>)
    requires
        old(world)@.inv(),
        1 < old(world)@.width,
        1 < old(world)@.height,
        old(world)@.current_uid + 19 * 19 <= u32::MAX,
    ensures
        final(world)@.inv(),
        r is Err ==> final(world)@ == old(world)@ && (r->Err_0 is OutOfBounds
            || r->Err_0 is Overlap),
        r is Ok ==> exists|x: int, y: int, rh: int, rw: int|
            1 <= x < old(world)@.width && 1 <= y < old(world)@.height && 1 <= rh < 20 && 1 <= rw
                < 20 && #[trigger] pattern_applied(
                old(world)@,
                final(world)@,
                rect_pattern(x, y, rh, rw),
            ),
{
    let ghost m0 = old(world)@;
    let mut rng = seeded_rng(seed);
    let x = rng_range(&mut rng, 1, world.width());
    let y = rng_range(&mut rng, 1, world.height());
    let room_height = rng_range(&mut rng, 1, 20);
    let room_width = rng_range(&mut rng, 1, 20);
    proof {
        assert(room_width * room_height <= 19 * 19) by (nonlinear_arith)
            requires
                1 <= room_width < 20,
                1 <= room_height < 20,
        ;
    }
    let res = carve_rectangle_room(world, x, y, room_height, room_width);
    proof {
        let pat = rect_pattern(x as int, y as int, room_height as int, room_width as int);
        if res is Ok {
            assert(pattern_in_bounds(m0, pat) && pattern_clear(m0, pat));
            assert(pattern_applied(m0, world@, pat));
        }
    }
    res
}

} // verus!
