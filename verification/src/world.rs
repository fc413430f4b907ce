//! The spatial store: a complete grid of cells, each holding an ordered
//! stack of identity-tagged objects.

use vstd::prelude::*;

use crate::tile::TileType;

verus! {

/// An identity-tagged instance of a [`TileType`] occupying one grid cell.
#[derive(Clone, Copy, PartialEq, Eq, Structural, Debug)]
pub struct WObject {
    pub uid: u32,
    pub obj: TileType,
}

/// The typed failures of world operations.
#[derive(Clone, Copy, PartialEq, Eq, Structural, Debug)]
#[allow(inconsistent_fields)]
pub enum WorldError {
    /// A coordinate outside the allocated grid.
    OutOfBounds { x: i64, y: i64 },
    /// A query on a coordinate that was never allocated.
    NoSuchCell { x: u32, y: u32 },
    /// An operation referencing a uid not present in the world.
    UnknownUid { uid: u32 },
    /// A carving would collide with an already-occupied cell.
    Overlap { x: u32, y: u32 },
    /// The requested grid does not fit in memory.
    GridTooLarge,
}

/// The mathematical state of a [`World`]: its dimensions, the next identity
/// to issue, and the grid as a sequence of cells in column-major order
/// (cell `(x, y)` at position `x * height + y`).
#[verifier::ext_equal]
pub struct WorldModel {
    pub width: nat,
    pub height: nat,
    pub current_uid: nat,
    pub grid: Seq<Seq<WObject>>,
}

impl WorldModel {
    /// Position of cell `(x, y)` within `grid`.
    pub open spec fn idx(self, x: int, y: int) -> int {
        x * self.height + y
    }

    /// Whether `(x, y)` lies inside the allocated grid.
    pub open spec fn in_bounds(self, x: int, y: int) -> bool {
        0 <= x < self.width && 0 <= y < self.height
    }

    /// The ordered object stack of cell `(x, y)`.
    pub open spec fn cell(self, x: int, y: int) -> Seq<WObject> {
        self.grid[self.idx(x, y)]
    }

    /// Every in-bounds coordinate has a cell, and nothing else does.
    pub open spec fn complete(self) -> bool {
        self.grid.len() == self.width * self.height
    }

    /// Whether `(x, y, i)` designates an object: an in-bounds cell and a
    /// position within its stack.
    pub open spec fn valid_slot(self, x: int, y: int, i: int) -> bool {
        self.in_bounds(x, y) && 0 <= i < self.cell(x, y).len()
    }

    /// Whether the object with identity `uid` sits at stack position `i` of
    /// cell `(x, y)`.
    pub open spec fn uid_at(self, uid: u32, x: int, y: int, i: int) -> bool {
        self.valid_slot(x, y, i) && self.cell(x, y)[i].uid == uid
    }

    /// Whether some cell holds an object with identity `uid`.
    pub open spec fn contains_uid(self, uid: u32) -> bool {
        exists|x: int, y: int, i: int| self.uid_at(uid, x, y, i)
    }

    /// Whether the object with identity `uid` sits somewhere in the stack
    /// of cell `(x, y)`.
    pub open spec fn uid_in_cell(self, uid: u32, x: int, y: int) -> bool {
        exists|i: int| self.uid_at(uid, x, y, i)
    }

    /// Every issued identity is at least 1 and below `current_uid`.
    pub open spec fn uids_bounded(self) -> bool {
        forall|x: int, y: int, i: int|
            #[trigger] self.valid_slot(x, y, i) ==> 1 <= self.cell(x, y)[i].uid
                < self.current_uid
    }

    /// No identity occurs twice anywhere in the grid.
    pub open spec fn uids_unique(self) -> bool {
        forall|x1: int, y1: int, i1: int, x2: int, y2: int, i2: int|
            #[trigger] self.valid_slot(x1, y1, i1) && #[trigger] self.valid_slot(x2, y2, i2)
                && self.cell(x1, y1)[i1].uid == self.cell(x2, y2)[i2].uid ==> x1 == x2 && y1 == y2
                && i1 == i2
    }

    /// The invariant every reachable world satisfies.
    pub open spec fn inv(self) -> bool {
        &&& self.width <= u32::MAX
        &&& self.height <= u32::MAX
        &&& self.width * self.height <= usize::MAX
        &&& 1 <= self.current_uid <= u32::MAX
        &&& self.complete()
        &&& self.uids_bounded()
        &&& self.uids_unique()
    }

    /// The state after appending a fresh object of kind `obj` to cell
    /// `(x, y)` and advancing the identity counter.
    pub open spec fn place(self, obj: TileType, x: int, y: int) -> WorldModel {
        WorldModel {
            current_uid: self.current_uid + 1,
            grid: self.grid.update(
                self.idx(x, y),
                self.cell(x, y).push(WObject { uid: self.current_uid as u32, obj }),
            ),
            ..self
        }
    }

    /// The state after deleting the object at stack position `i` of cell
    /// `(x, y)`.
    pub open spec fn remove_slot(self, x: int, y: int, i: int) -> WorldModel {
        WorldModel { grid: self.grid.update(self.idx(x, y), self.cell(x, y).remove(i)), ..self }
    }

    /// The state after appending the existing object `o` to cell `(x, y)`
    /// without issuing a new identity.
    pub open spec fn append_at(self, x: int, y: int, o: WObject) -> WorldModel {
        WorldModel { grid: self.grid.update(self.idx(x, y), self.cell(x, y).push(o)), ..self }
    }

    /// The state after moving the object at stack position `i` of cell
    /// `(x, y)` onto the top of cell `(nx, ny)`.
    pub open spec fn move_slot(self, x: int, y: int, i: int, nx: int, ny: int) -> WorldModel {
        self.remove_slot(x, y, i).append_at(nx, ny, self.cell(x, y)[i])
    }

    /// Placing a fresh object extends exactly the one cell aimed at.
    pub proof fn lemma_place_cells(self, obj: TileType, x: int, y: int)
        requires
            self.complete(),
            self.in_bounds(x, y),
        ensures
            self.place(obj, x, y).cell(x, y) == self.cell(x, y).push(
                WObject { uid: self.current_uid as u32, obj },
            ),
            forall|x2: int, y2: int|
                self.in_bounds(x2, y2) && (x2 != x || y2 != y) ==> #[trigger] self.place(
                    obj,
                    x,
                    y,
                ).cell(x2, y2) == self.cell(x2, y2),
    {
        self.lemma_idx_in_range(x, y);
        assert forall|x2: int, y2: int|
            self.in_bounds(x2, y2) && (x2 != x || y2 != y) implies #[trigger] self.place(
            obj,
            x,
            y,
        ).cell(x2, y2) == self.cell(x2, y2) by {
            self.lemma_idx_in_range(x2, y2);
            if self.idx(x2, y2) == self.idx(x, y) {
                self.lemma_idx_injective(x2, y2, x, y);
            }
        }
    }

    /// An in-bounds coordinate designates a position inside the grid.
    pub proof fn lemma_idx_in_range(self, x: int, y: int)
        requires
            self.complete(),
            self.in_bounds(x, y),
        ensures
            0 <= self.idx(x, y) < self.grid.len(),
    {
        assert(0 <= x * self.height + y < self.width * self.height) by (nonlinear_arith)
            requires
                0 <= x < self.width,
                0 <= y < self.height,
        ;
    }

    /// Distinct in-bounds coordinates designate distinct grid positions.
    pub proof fn lemma_idx_injective(self, x1: int, y1: int, x2: int, y2: int)
        requires
            self.in_bounds(x1, y1),
            self.in_bounds(x2, y2),
            self.idx(x1, y1) == self.idx(x2, y2),
        ensures
            x1 == x2 && y1 == y2,
    {
        assert(x1 == x2 && y1 == y2) by (nonlinear_arith)
            requires
                0 <= x1,
                0 <= x2,
                0 <= y1 < self.height,
                0 <= y2 < self.height,
                x1 * self.height + y1 == x2 * self.height + y2,
        ;
    }

    /// An identity sits in at most one slot of a well-formed world.
    pub proof fn lemma_uid_at_unique(
        self,
        uid: u32,
        x1: int,
        y1: int,
        i1: int,
        x2: int,
        y2: int,
        i2: int,
    )
        requires
            self.inv(),
            self.uid_at(uid, x1, y1, i1),
            self.uid_at(uid, x2, y2, i2),
        ensures
            x1 == x2 && y1 == y2 && i1 == i2,
    {
        assert(self.valid_slot(x1, y1, i1));
        assert(self.valid_slot(x2, y2, i2));
    }
}

/// The model determined by raw world parts: dimensions, identity counter,
/// and the backing cell vectors.
pub open spec fn parts_model(
    width: u32,
    height: u32,
    current_uid: u32,
    data: Seq<Vec<WObject>>,
) -> WorldModel {
    WorldModel {
        width: width as nat,
        height: height as nat,
        current_uid: current_uid as nat,
        grid: Seq::new(data.len() as nat, |i: int| data[i]@),
    }
}

/// Placing an object on an empty in-bounds cell leaves exactly that one
/// freshly identified object there.
pub proof fn law_put_then_objects_at(m: WorldModel, obj: TileType, x: int, y: int)
    requires
        m.inv(),
        m.in_bounds(x, y),
        m.cell(x, y).len() == 0,
    ensures
        m.place(obj, x, y).cell(x, y) =~= seq![
            WObject { uid: m.current_uid as u32, obj },
        ],
{
    m.lemma_place_cells(obj, x, y);
}

/// The identity that the next placement will issue is not present anywhere
/// in a well-formed world: an identity, once destroyed, is never reissued.
pub proof fn law_next_uid_fresh(m: WorldModel)
    requires
        m.inv(),
    ensures
        !m.contains_uid(m.current_uid as u32),
        forall|uid: u32| #[trigger] m.contains_uid(uid) ==> uid < m.current_uid,
{
    assert forall|uid: u32| #[trigger] m.contains_uid(uid) implies uid < m.current_uid by {
        let (x, y, i) = choose|x: int, y: int, i: int| m.uid_at(uid, x, y, i);
        assert(m.valid_slot(x, y, i));
    }
}

/// After a move, the moved object sits on top of the destination cell, and
/// its identity is gone from the origin cell.
pub proof fn law_translate_moves(
    m: WorldModel,
    uid: u32,
    x: int,
    y: int,
    i: int,
    nx: int,
    ny: int,
)
    requires
        m.inv(),
        m.uid_at(uid, x, y, i),
        m.in_bounds(nx, ny),
    ensures
        ({
            let n = m.move_slot(x, y, i, nx, ny);
            &&& n.cell(nx, ny).len() > 0
            &&& n.cell(nx, ny).last() == m.cell(x, y)[i]
            &&& n.cell(nx, ny).last().uid == uid
            &&& (x != nx || y != ny) ==> !n.uid_in_cell(uid, x, y)
        }),
{
    let n = m.move_slot(x, y, i, nx, ny);
    let removed = m.remove_slot(x, y, i);
    m.lemma_idx_in_range(x, y);
    m.lemma_idx_in_range(nx, ny);
    assert(n.cell(nx, ny) == removed.cell(nx, ny).push(m.cell(x, y)[i]));
    if x != nx || y != ny {
        law_destroy_removes(m, uid, x, y, i);
        if removed.idx(x, y) == removed.idx(nx, ny) {
            m.lemma_idx_injective(x, y, nx, ny);
        }
        assert(n.cell(x, y) == removed.cell(x, y));
        assert forall|j: int| !#[trigger] n.uid_at(uid, x, y, j) by {
            if n.valid_slot(x, y, j) && n.cell(x, y)[j].uid == uid {
                assert(removed.uid_at(uid, x, y, j));
                assert(removed.contains_uid(uid));
            }
        }
        assert(!n.uid_in_cell(uid, x, y));
    }
}

/// After a destroy, the destroyed identity occurs nowhere in the world.
pub proof fn law_destroy_removes(m: WorldModel, uid: u32, x: int, y: int, i: int)
    requires
        m.inv(),
        m.uid_at(uid, x, y, i),
    ensures
        !m.remove_slot(x, y, i).contains_uid(uid),
{
    let n = m.remove_slot(x, y, i);
    let j = m.idx(x, y);
    m.lemma_idx_in_range(x, y);
    m.cell(x, y).remove_ensures(i);
    assert forall|x2: int, y2: int, i2: int| !#[trigger] n.uid_at(uid, x2, y2, i2) by {
        if n.valid_slot(x2, y2, i2) {
            m.lemma_idx_in_range(x2, y2);
            if m.idx(x2, y2) == j {
                m.lemma_idx_injective(x2, y2, x, y);
                let k = if i2 < i {
                    i2
                } else {
                    i2 + 1
                };
                assert(n.cell(x2, y2)[i2] == m.cell(x, y)[k]);
                assert(m.valid_slot(x, y, k));
                if n.cell(x2, y2)[i2].uid == uid {
                    m.lemma_uid_at_unique(uid, x, y, k, x, y, i);
                    assert(false);
                }
            } else {
                assert(n.cell(x2, y2) == m.cell(x2, y2));
                assert(m.valid_slot(x2, y2, i2));
                if n.cell(x2, y2)[i2].uid == uid {
                    m.lemma_uid_at_unique(uid, x2, y2, i2, x, y, i);
                    assert(false);
                }
            }
        }
    }
}

/// The grid world: owns every placed object and issues identities.
pub struct World {
    w: u32,
    h: u32,
    current_uid: u32,
    data: Vec<Vec<WObject>>,
}

impl View for World {
    type V = WorldModel;

    closed spec fn view(&self) -> WorldModel {
        WorldModel {
            width: self.w as nat,
            height: self.h as nat,
            current_uid: self.current_uid as nat,
            grid: Seq::new(self.data@.len() as nat, |i: int| self.data@[i]@),
        }
    }
}

impl World {
    /// Creates an empty world: every coordinate of
    /// `[0, width) x [0, height)` gets an empty cell, and identities start
    /// at 1. Fails only when the grid itself cannot be allocated.
    pub fn new(width: u32, height: u32) -> (r: Result<World, WorldError>)
        ensures
            r is Ok <==> width * height <= usize::MAX,
            r is Err ==> r->Err_0 == WorldError::GridTooLarge,
            r is Ok ==> {
                let m = r->Ok_0@;
                &&& m.inv()
                &&& m.width == width
                &&& m.height == height
                &&& m.current_uid == 1
                &&& forall|x: int, y: int| m.in_bounds(x, y) ==> #[trigger] m.cell(x, y).len()
                    == 0
            },
    {
        proof {
            assert((width as int) * (height as int) <= u32::MAX * u32::MAX) by (nonlinear_arith)
                requires
                    width <= u32::MAX,
                    height <= u32::MAX,
            ;
        }
        let total_wide: u64 = (width as u64) * (height as u64);
        if total_wide > usize::MAX as u64 {
            return Err(WorldError::GridTooLarge);
        }
        let total: usize = total_wide as usize;
        let mut data: Vec<Vec<WObject>> = Vec::new();
        let mut k: usize = 0;
        while k < total
            invariant
                k <= total,
                data@.len() == k,
                forall|i: int| 0 <= i < k ==> #[trigger] data@[i]@.len() == 0,
            decreases total - k,
        {
            data.push(Vec::new());
            k = k + 1;
        }
        let world = World { w: width, h: height, current_uid: 1, data };
        proof {
            let m = world@;
            assert(m.complete());
            assert forall|x: int, y: int| m.in_bounds(x, y) implies #[trigger] m.cell(x, y).len()
                == 0 by {
                m.lemma_idx_in_range(x, y);
            }
            assert forall|x: int, y: int, i: int| !#[trigger] m.valid_slot(x, y, i) by {
                if m.in_bounds(x, y) {
                    m.lemma_idx_in_range(x, y);
                }
            }
        }
        Ok(world)
    }

    /// Position of cell `(x, y)` in the backing vector, for in-bounds
    /// coordinates.
    fn cell_pos(&self, x: u32, y: u32) -> (r: usize)
        requires
            self@.inv(),
            self@.in_bounds(x as int, y as int),
        ensures
            r == self@.idx(x as int, y as int),
            r < self@.grid.len(),
    {
        proof {
            self@.lemma_idx_in_range(x as int, y as int);
            assert(self.data.len() == self.data@.len());
            assert((x as int) * (self.h as int) + (y as int) <= usize::MAX);
        }
        (x as usize) * (self.h as usize) + (y as usize)
    }

    /// Places a fresh object of kind `obj` on top of cell `(x, y)`,
    /// returning its newly issued identity; rejects out-of-bounds
    /// coordinates and leaves the world unchanged on failure.
    pub fn put(&mut self, obj: TileType, x: u32, y: u32) -> (r: Result<u32, WorldError>)
        requires
            old(self)@.inv(),
            old(self)@.current_uid < u32::MAX,
        ensures
            final(self)@.inv(),
            old(self)@.in_bounds(x as int, y as int) ==> {
                &&& r is Ok
                &&& r->Ok_0 == old(self)@.current_uid
                &&& final(self)@ == old(self)@.place(obj, x as int, y as int)
            },
            !old(self)@.in_bounds(x as int, y as int) ==> {
                &&& r is Err
                &&& r->Err_0 == (WorldError::OutOfBounds { x: x as i64, y: y as i64 })
                &&& final(self)@ == old(self)@
            },
    {
        if x >= self.w || y >= self.h {
            proof {
                assert(self@ =~= old(self)@);
            }
            return Err(WorldError::OutOfBounds { x: x as i64, y: y as i64 });
        }
        let uid = self.current_uid;
        let pos = self.cell_pos(x, y);
        self.data[pos].push(WObject { uid, obj });
        self.current_uid = self.current_uid + 1;
        proof {
            let m0 = old(self)@;
            let m1 = m0.place(obj, x as int, y as int);
            assert(self@.grid =~= m1.grid);
            assert(self@ =~= m1);
            Self::lemma_place_preserves_inv(m0, obj, x as int, y as int);
        }
        Ok(uid)
    }

    /// Appending a fresh object with the next identity preserves the
    /// invariant.
    proof fn lemma_place_preserves_inv(m: WorldModel, obj: TileType, x: int, y: int)
        requires
            m.inv(),
            m.current_uid < u32::MAX,
            m.in_bounds(x, y),
        ensures
            m.place(obj, x, y).inv(),
    {
        let n = m.place(obj, x, y);
        let j = m.idx(x, y);
        let len = m.cell(x, y).len() as int;
        let fresh = WObject { uid: m.current_uid as u32, obj };
        m.lemma_idx_in_range(x, y);
        assert forall|x2: int, y2: int, i2: int| #[trigger] n.valid_slot(x2, y2, i2) implies 1
            <= n.cell(x2, y2)[i2].uid < n.current_uid by {
            m.lemma_idx_in_range(x2, y2);
            if m.idx(x2, y2) == j {
                m.lemma_idx_injective(x2, y2, x, y);
                if i2 < len {
                    assert(m.valid_slot(x, y, i2));
                } else {
                    assert(n.cell(x2, y2)[i2] == fresh);
                }
            } else {
                assert(n.cell(x2, y2) == m.cell(x2, y2));
                assert(m.valid_slot(x2, y2, i2));
            }
        }
        assert forall|x1: int, y1: int, i1: int, x2: int, y2: int, i2: int|
            #[trigger] n.valid_slot(x1, y1, i1) && #[trigger] n.valid_slot(x2, y2, i2)
                && n.cell(x1, y1)[i1].uid == n.cell(x2, y2)[i2].uid implies x1 == x2 && y1 == y2
            && i1 == i2 by {
            m.lemma_idx_in_range(x1, y1);
            m.lemma_idx_in_range(x2, y2);
            if m.idx(x1, y1) == j {
                m.lemma_idx_injective(x1, y1, x, y);
            } else {
                assert(n.cell(x1, y1) == m.cell(x1, y1));
            }
            if m.idx(x2, y2) == j {
                m.lemma_idx_injective(x2, y2, x, y);
            } else {
                assert(n.cell(x2, y2) == m.cell(x2, y2));
            }
            let fresh1 = m.idx(x1, y1) == j && i1 == len;
            let fresh2 = m.idx(x2, y2) == j && i2 == len;
            if fresh1 && fresh2 {
            } else if fresh1 {
                assert(m.valid_slot(x2, y2, i2));
                assert(m.cell(x2, y2)[i2].uid < m.current_uid);
                assert(n.cell(x1, y1)[i1] == fresh);
                assert(false);
            } else if fresh2 {
                assert(m.valid_slot(x1, y1, i1));
                assert(m.cell(x1, y1)[i1].uid < m.current_uid);
                assert(n.cell(x2, y2)[i2] == fresh);
                assert(false);
            } else {
                assert(m.valid_slot(x1, y1, i1));
                assert(m.valid_slot(x2, y2, i2));
                assert(m.cell(x1, y1)[i1].uid == m.cell(x2, y2)[i2].uid);
            }
        }
    }

    /// A defensive copy of the object stack at `(x, y)`, bottom first;
    /// rejects a coordinate that was never allocated.
    pub fn objects_at(&self, x: u32, y: u32) -> (r: Result<Vec<WObject>, WorldError>)
        requires
            self@.inv(),
        ensures
            self@.in_bounds(x as int, y as int) ==> r is Ok && r->Ok_0@ == self@.cell(
                x as int,
                y as int,
            ),
            !self@.in_bounds(x as int, y as int) ==> r is Err && r->Err_0 == (
            WorldError::NoSuchCell { x, y }),
    {
        if x >= self.w || y >= self.h {
            return Err(WorldError::NoSuchCell { x, y });
        }
        let pos = self.cell_pos(x, y);
        let cell = &self.data[pos];
        let mut copy: Vec<WObject> = Vec::new();
        let mut i: usize = 0;
        while i < cell.len()
            invariant
                i <= cell@.len(),
                copy@ =~= cell@.subrange(0, i as int),
            decreases cell@.len() - i,
        {
            copy.push(cell[i]);
            i = i + 1;
        }
        proof {
            assert(copy@ =~= cell@);
            assert(cell@ == self@.cell(x as int, y as int));
        }
        Ok(copy)
    }

    /// Scans the grid for the object with identity `uid` and returns the
    /// coordinate holding it, if any.
    pub fn where_is(&self, uid: u32) -> (r: Option<(u32, u32)>)
        requires
            self@.inv(),
        ensures
            r matches Some(c) ==> self@.uid_in_cell(uid, c.0 as int, c.1 as int),
            r is None <==> !self@.contains_uid(uid),
    {
        let mut x: u32 = 0;
        while x < self.w
            invariant
                self@.inv(),
                x <= self.w,
                forall|x2: int, y2: int, i2: int| #[trigger] self@.uid_at(uid, x2, y2, i2)
                    ==> x2 >= x,
            decreases self.w - x,
        {
            let mut y: u32 = 0;
            while y < self.h
                invariant
                    self@.inv(),
                    x < self.w,
                    y <= self.h,
                    forall|x2: int, y2: int, i2: int| #[trigger] self@.uid_at(uid, x2, y2, i2)
                        ==> x2 > x || (x2 == x && y2 >= y),
                decreases self.h - y,
            {
                let pos = self.cell_pos(x, y);
                let cell = &self.data[pos];
                let mut i: usize = 0;
                while i < cell.len()
                    invariant
                        self@.inv(),
                        x < self.w,
                        y < self.h,
                        cell@ == self@.cell(x as int, y as int),
                        i <= cell@.len(),
                        forall|i2: int| 0 <= i2 < i ==> #[trigger] cell@[i2].uid != uid,
                    decreases cell@.len() - i,
                {
                    if cell[i].uid == uid {
                        proof {
                            assert(self@.uid_at(uid, x as int, y as int, i as int));
                            assert(self@.uid_in_cell(uid, x as int, y as int));
                        }
                        return Some((x, y));
                    }
                    i = i + 1;
                }
                proof {
                    assert forall|x2: int, y2: int, i2: int|
                        #[trigger] self@.uid_at(uid, x2, y2, i2) implies x2 > x || (x2 == x && y2
                        >= y + 1) by {
                        if x2 == x && y2 == y {
                            assert(self@.cell(x2, y2)[i2].uid != uid);
                        }
                    }
                }
                y = y + 1;
            }
            proof {
                assert forall|x2: int, y2: int, i2: int|
                    #[trigger] self@.uid_at(uid, x2, y2, i2) implies x2 >= x + 1 by {
                    assert(self@.valid_slot(x2, y2, i2));
                }
            }
            x = x + 1;
        }
        proof {
            assert forall|x2: int, y2: int, i2: int|
                !#[trigger] self@.uid_at(uid, x2, y2, i2) by {
                if self@.valid_slot(x2, y2, i2) {
                    assert(x2 < self@.width);
                }
            }
        }
        None
    }

    /// Removing the object at a valid slot preserves the invariant.
    proof fn lemma_remove_preserves_inv(m: WorldModel, x: int, y: int, i: int)
        requires
            m.inv(),
            m.valid_slot(x, y, i),
        ensures
            m.remove_slot(x, y, i).inv(),
    {
        let n = m.remove_slot(x, y, i);
        let j = m.idx(x, y);
        m.lemma_idx_in_range(x, y);
        m.cell(x, y).remove_ensures(i);
        assert forall|x2: int, y2: int, i2: int| #[trigger] n.valid_slot(x2, y2, i2) implies 1
            <= n.cell(x2, y2)[i2].uid < n.current_uid by {
            m.lemma_idx_in_range(x2, y2);
            if m.idx(x2, y2) == j {
                m.lemma_idx_injective(x2, y2, x, y);
                let k = if i2 < i {
                    i2
                } else {
                    i2 + 1
                };
                assert(n.cell(x2, y2)[i2] == m.cell(x, y)[k]);
                assert(m.valid_slot(x, y, k));
            } else {
                assert(n.cell(x2, y2) == m.cell(x2, y2));
                assert(m.valid_slot(x2, y2, i2));
            }
        }
        assert forall|x1: int, y1: int, i1: int, x2: int, y2: int, i2: int|
            #[trigger] n.valid_slot(x1, y1, i1) && #[trigger] n.valid_slot(x2, y2, i2)
                && n.cell(x1, y1)[i1].uid == n.cell(x2, y2)[i2].uid implies x1 == x2 && y1 == y2
            && i1 == i2 by {
            m.lemma_idx_in_range(x1, y1);
            m.lemma_idx_in_range(x2, y2);
            let k1 = if m.idx(x1, y1) == j && i1 >= i {
                i1 + 1
            } else {
                i1
            };
            let k2 = if m.idx(x2, y2) == j && i2 >= i {
                i2 + 1
            } else {
                i2
            };
            if m.idx(x1, y1) == j {
                m.lemma_idx_injective(x1, y1, x, y);
                assert(n.cell(x1, y1)[i1] == m.cell(x, y)[k1]);
            } else {
                assert(n.cell(x1, y1) == m.cell(x1, y1));
            }
            if m.idx(x2, y2) == j {
                m.lemma_idx_injective(x2, y2, x, y);
                assert(n.cell(x2, y2)[i2] == m.cell(x, y)[k2]);
            } else {
                assert(n.cell(x2, y2) == m.cell(x2, y2));
            }
            assert(m.valid_slot(x1, y1, k1));
            assert(m.valid_slot(x2, y2, k2));
            assert(m.cell(x1, y1)[k1].uid == m.cell(x2, y2)[k2].uid);
        }
    }

    /// Appending an object whose identity is fresh for the grid, yet already
    /// issued, preserves the invariant.
    proof fn lemma_append_preserves_inv(m: WorldModel, x: int, y: int, o: WObject)
        requires
            m.inv(),
            m.in_bounds(x, y),
            1 <= o.uid < m.current_uid,
            !m.contains_uid(o.uid),
        ensures
            m.append_at(x, y, o).inv(),
    {
        let n = m.append_at(x, y, o);
        let j = m.idx(x, y);
        let len = m.cell(x, y).len() as int;
        m.lemma_idx_in_range(x, y);
        assert forall|x2: int, y2: int, i2: int| #[trigger] n.valid_slot(x2, y2, i2) implies 1
            <= n.cell(x2, y2)[i2].uid < n.current_uid by {
            m.lemma_idx_in_range(x2, y2);
            if m.idx(x2, y2) == j {
                m.lemma_idx_injective(x2, y2, x, y);
                if i2 < len {
                    assert(m.valid_slot(x, y, i2));
                } else {
                    assert(n.cell(x2, y2)[i2] == o);
                }
            } else {
                assert(n.cell(x2, y2) == m.cell(x2, y2));
                assert(m.valid_slot(x2, y2, i2));
            }
        }
        assert forall|x1: int, y1: int, i1: int, x2: int, y2: int, i2: int|
            #[trigger] n.valid_slot(x1, y1, i1) && #[trigger] n.valid_slot(x2, y2, i2)
                && n.cell(x1, y1)[i1].uid == n.cell(x2, y2)[i2].uid implies x1 == x2 && y1 == y2
            && i1 == i2 by {
            m.lemma_idx_in_range(x1, y1);
            m.lemma_idx_in_range(x2, y2);
            if m.idx(x1, y1) == j {
                m.lemma_idx_injective(x1, y1, x, y);
            } else {
                assert(n.cell(x1, y1) == m.cell(x1, y1));
            }
            if m.idx(x2, y2) == j {
                m.lemma_idx_injective(x2, y2, x, y);
            } else {
                assert(n.cell(x2, y2) == m.cell(x2, y2));
            }
            let fresh1 = m.idx(x1, y1) == j && i1 == len;
            let fresh2 = m.idx(x2, y2) == j && i2 == len;
            if fresh1 && fresh2 {
            } else if fresh1 {
                assert(m.uid_at(o.uid, x2, y2, i2));
                assert(false);
            } else if fresh2 {
                assert(m.uid_at(o.uid, x1, y1, i1));
                assert(false);
            } else {
                assert(m.valid_slot(x1, y1, i1));
                assert(m.valid_slot(x2, y2, i2));
                assert(m.cell(x1, y1)[i1].uid == m.cell(x2, y2)[i2].uid);
            }
        }
    }

    /// Removes the object with identity `uid` from whichever cell holds it
    /// and hands it back; fails when no such object exists.
    fn retrieve(&mut self, uid: u32) -> (r: Result<WObject, WorldError>)
        requires
            old(self)@.inv(),
        ensures
            final(self)@.inv(),
            !old(self)@.contains_uid(uid) ==> r is Err && r->Err_0 == (WorldError::UnknownUid {
                uid,
            }) && final(self)@ == old(self)@,
            old(self)@.contains_uid(uid) ==> r is Ok && forall|x: int, y: int, i: int|
                #[trigger] old(self)@.uid_at(uid, x, y, i) ==> r->Ok_0 == old(self)@.cell(x, y)[i]
                    && final(self)@ == old(self)@.remove_slot(x, y, i),
    {
        let loc = self.where_is(uid);
        match loc {
            None => Err(WorldError::UnknownUid { uid }),
            Some(c) => {
                let (fx, fy) = c;
                proof {
                    let wi = choose|ii: int| self@.uid_at(uid, fx as int, fy as int, ii);
                    assert(self@.uid_at(uid, fx as int, fy as int, wi));
                }
                let pos = self.cell_pos(fx, fy);
                let mut i: usize = 0;
                while i < self.data[pos].len()
                    invariant
                        self@ == old(self)@,
                        self@.inv(),
                        fx < self@.width,
                        fy < self@.height,
                        pos == self@.idx(fx as int, fy as int),
                        pos < self@.grid.len(),
                        self.data@.len() == self@.grid.len(),
                        self@.uid_in_cell(uid, fx as int, fy as int),
                        i <= self@.cell(fx as int, fy as int).len(),
                        forall|i2: int| 0 <= i2 < i ==> #[trigger] self@.cell(
                            fx as int,
                            fy as int,
                        )[i2].uid != uid,
                    decreases self@.cell(fx as int, fy as int).len() - i,
                {
                    if self.data[pos][i].uid == uid {
                        let ghost gx = fx as int;
                        let ghost gy = fy as int;
                        let ghost gi = i as int;
                        let obj = self.data[pos].remove(i);
                        proof {
                            assert(old(self)@.uid_at(uid, gx, gy, gi));
                            Self::lemma_remove_preserves_inv(old(self)@, gx, gy, gi);
                            assert(self@.grid =~= old(self)@.remove_slot(gx, gy, gi).grid);
                            assert(self@ =~= old(self)@.remove_slot(gx, gy, gi));
                            assert forall|x: int, y: int, i2: int|
                                old(self)@.uid_at(uid, x, y, i2) implies obj == old(self)@.cell(
                                x,
                                y,
                            )[i2] && self@ == old(self)@.remove_slot(x, y, i2) by {
                                old(self)@.lemma_uid_at_unique(uid, x, y, i2, gx, gy, gi);
                            }
                        }
                        return Ok(obj);
                    }
                    i = i + 1;
                }
                proof {
                    let wi = choose|ii: int| self@.uid_at(uid, fx as int, fy as int, ii);
                    assert(self@.uid_at(uid, fx as int, fy as int, wi));
                    assert(false);
                }
                Err(WorldError::UnknownUid { uid })
            },
        }
    }

    /// Moves the object with identity `uid` by `(delta_x, delta_y)`: it is
    /// taken off its cell and appended, unchanged, to the destination cell.
    /// With an unknown identity the world is untouched; with an
    /// out-of-bounds destination the object has already been taken off its
    /// origin cell and is lost, a deliberate sharp edge of the store.
    pub fn translate(&mut self, delta_x: i32, delta_y: i32, uid: u32) -> (r: Result<
        (),
        WorldError,
    >)
        requires
            old(self)@.inv(),
        ensures
            final(self)@.inv(),
            !old(self)@.contains_uid(uid) ==> r is Err && r->Err_0 == (WorldError::UnknownUid {
                uid,
            }) && final(self)@ == old(self)@,
            forall|x: int, y: int, i: int| #[trigger] old(self)@.uid_at(uid, x, y, i) ==> {
                &&& old(self)@.in_bounds(x + delta_x, y + delta_y) ==> r is Ok && final(self)@
                    == old(self)@.move_slot(x, y, i, x + delta_x, y + delta_y)
                &&& !old(self)@.in_bounds(x + delta_x, y + delta_y) ==> r is Err && r->Err_0 == (
                WorldError::OutOfBounds { x: (x + delta_x) as i64, y: (y + delta_y) as i64 })
                    && final(self)@ == old(self)@.remove_slot(x, y, i)
            },
    {
        let loc = match self.where_is(uid) {
            None => {
                return Err(WorldError::UnknownUid { uid });
            },
            Some(c) => c,
        };
        let (fx, fy) = loc;
        proof {
            let wi = choose|ii: int| self@.uid_at(uid, fx as int, fy as int, ii);
            assert(self@.uid_at(uid, fx as int, fy as int, wi));
            assert(old(self)@.uid_at(uid, fx as int, fy as int, wi));
        }
        let ghost gi = choose|ii: int| old(self)@.uid_at(uid, fx as int, fy as int, ii);
        proof {
            assert(old(self)@.uid_at(uid, fx as int, fy as int, gi));
        }
        let obj = match self.retrieve(uid) {
            Ok(o) => o,
            Err(_) => {
                proof {
                    assert(false);
                }
                return Err(WorldError::UnknownUid { uid });
            },
        };
        proof {
            assert(old(self)@.contains_uid(uid));
            assert(old(self)@.uid_at(uid, fx as int, fy as int, gi));
            assert(obj == old(self)@.cell(fx as int, fy as int)[gi]);
            assert(self@ == old(self)@.remove_slot(fx as int, fy as int, gi));
        }
        let nx_wide: i64 = fx as i64 + delta_x as i64;
        let ny_wide: i64 = fy as i64 + delta_y as i64;
        if nx_wide < 0 || ny_wide < 0 || nx_wide >= self.w as i64 || ny_wide >= self.h as i64 {
            proof {
                assert forall|x: int, y: int, i: int|
                    old(self)@.uid_at(uid, x, y, i) implies x == fx as int && y == fy as int && i
                    == gi by {
                    old(self)@.lemma_uid_at_unique(uid, x, y, i, fx as int, fy as int, gi);
                }
            }
            return Err(WorldError::OutOfBounds { x: nx_wide, y: ny_wide });
        }
        let nx: u32 = nx_wide as u32;
        let ny: u32 = ny_wide as u32;
        let pos = self.cell_pos(nx, ny);
        self.data[pos].push(obj);
        proof {
            let m0 = old(self)@;
            let rm = m0.remove_slot(fx as int, fy as int, gi);
            assert(self@.grid =~= rm.append_at(nx as int, ny as int, obj).grid);
            assert(self@ =~= rm.append_at(nx as int, ny as int, obj));
            assert(self@ == m0.move_slot(fx as int, fy as int, gi, nx as int, ny as int));
            Self::lemma_remove_preserves_inv(m0, fx as int, fy as int, gi);
            law_destroy_removes(m0, uid, fx as int, fy as int, gi);
            assert(1 <= obj.uid < rm.current_uid) by {
                assert(m0.valid_slot(fx as int, fy as int, gi));
            }
            Self::lemma_append_preserves_inv(rm, nx as int, ny as int, obj);
            assert forall|x: int, y: int, i: int|
                old(self)@.uid_at(uid, x, y, i) implies x == fx as int && y == fy as int && i
                == gi by {
                old(self)@.lemma_uid_at_unique(uid, x, y, i, fx as int, fy as int, gi);
            }
        }
        Ok(())
    }

    /// Permanently removes the object with identity `uid`; the identity is
    /// never reissued.
    pub fn destroy(&mut self, uid: u32) -> (r: Result<(), WorldError>)
        requires
            old(self)@.inv(),
        ensures
            final(self)@.inv(),
            !old(self)@.contains_uid(uid) ==> r is Err && r->Err_0 == (WorldError::UnknownUid {
                uid,
            }) && final(self)@ == old(self)@,
            old(self)@.contains_uid(uid) ==> r is Ok && !final(self)@.contains_uid(uid) && forall|
                x: int,
                y: int,
                i: int,
            |
                #[trigger] old(self)@.uid_at(uid, x, y, i) ==> final(self)@ == old(self)@.remove_slot(
                    x,
                    y,
                    i,
                ),
    {
        match self.retrieve(uid) {
            Ok(_) => {
                proof {
                    if old(self)@.contains_uid(uid) {
                        let (gx, gy, gi) = choose|x: int, y: int, i: int|
                            old(self)@.uid_at(uid, x, y, i);
                        assert(old(self)@.uid_at(uid, gx, gy, gi));
                        law_destroy_removes(old(self)@, uid, gx, gy, gi);
                    }
                }
                Ok(())
            },
            Err(e) => Err(e),
        }
    }

    /// The identity the next placed object will receive.
    pub(crate) fn current_uid_of(&self) -> (r: u32)
        ensures
            r == self@.current_uid,
    {
        self.current_uid
    }

    /// A borrow of the object stack at an in-bounds coordinate.
    pub(crate) fn cell_ref(&self, x: u32, y: u32) -> (r: &Vec<WObject>)
        requires
            self@.inv(),
            self@.in_bounds(x as int, y as int),
        ensures
            r@ == self@.cell(x as int, y as int),
    {
        let pos = self.cell_pos(x, y);
        &self.data[pos]
    }

    /// Reassembles a world from raw parts whose model satisfies the
    /// invariant.
    pub(crate) fn from_parts(
        width: u32,
        height: u32,
        current_uid: u32,
        data: Vec<Vec<WObject>>,
    ) -> (w: World)
        requires
            parts_model(width, height, current_uid, data@).inv(),
        ensures
            w@ == parts_model(width, height, current_uid, data@),
            w@.inv(),
    {
        let w = World { w: width, h: height, current_uid, data };
        proof {
            assert(w@ =~= parts_model(width, height, current_uid, w.data@));
        }
        w
    }

    /// The grid width.
    pub fn width(&self) -> (r: u32)
        ensures
            r == self@.width,
    {
        self.w
    }

    /// The grid height.
    pub fn height(&self) -> (r: u32)
        ensures
            r == self@.height,
    {
        self.h
    }

    /// The count of allocated cells: `width * height`, independent of how
    /// many objects are placed.
    pub fn number_of_tiles(&self) -> (r: u32)
        requires
            self@.inv(),
        ensures
            r == (self@.width * self@.height) as u32,
            self@.width * self@.height <= u32::MAX ==> r == self@.width * self@.height,
    {
        #[verifier::truncate] (self.data.len() as u32)
    }
}

} // verus!
