use vstd::prelude::*;

verus! {

/// What a tile holds; the flag says whether the actor has seen the tile.
#[derive(Clone, Copy, Debug, PartialEq, Eq, Structural)]
pub enum TileState {
    Empty(bool),
    Full(bool),
    Goal(bool),
}

/// A tile of the grid, by column and row.
#[derive(Clone, Copy, Debug, PartialEq, Eq, Structural)]
pub struct TileCoord {
    pub x: u16,
    pub y: u16,
}

/// A point on the screen in whole tiles: the pixel coordinates divided by the
/// tile size and truncated toward zero. It may lie outside the grid, on
/// either side.
#[derive(Clone, Copy, Debug, PartialEq, Eq, Structural)]
pub struct MouseCell {
    pub x: i64,
    pub y: i64,
}

/// Where the goal stands, if it has been placed.
pub struct Goal {
    pub position: Option<TileCoord>,
}

/// The tile grid, stored row by row: the tile at column `x` and row `y` is
/// `tile_states[y * dimensions.0 + x]`.
pub struct TileMap {
    pub dimensions: (u16, u16),
    pub tile_states: Vec<TileState>,
    pub goal: Goal,
}

/// The same tile, marked as seen.
pub open spec fn seen(t: TileState) -> TileState {
    match t {
        TileState::Empty(_) => TileState::Empty(true),
        TileState::Full(_) => TileState::Full(true),
        TileState::Goal(_) => TileState::Goal(true),
    }
}

/// `v` moved into `0..=hi`.
pub open spec fn clamp(v: int, hi: int) -> int {
    if v < 0 {
        0
    } else if v > hi {
        hi
    } else {
        v
    }
}

/// Whether `tiles`, a grid `width` tiles wide, holds a goal tile exactly at
/// `goal` and nowhere else.
pub open spec fn one_goal_at(tiles: Seq<TileState>, width: int, goal: Option<TileCoord>) -> bool {
    forall|i: int|
        0 <= i < tiles.len() ==> (#[trigger] tiles[i] is Goal <==> (goal matches Some(p) && i == p.y
            * width + p.x))
}

/// Whether the `j`-th cell of a ray gets looked at: it exists and no full
/// tile stands on an earlier cell.
pub open spec fn reached(tiles: Seq<TileState>, cells: Seq<usize>, j: int) -> bool {
    &&& 0 <= j < cells.len()
    &&& forall|k: int| 0 <= k < j ==> !(#[trigger] tiles[cells[k] as int] is Full)
}

/// Whether the tile at place `t` is looked at along the ray.
pub open spec fn on_ray(tiles: Seq<TileState>, cells: Seq<usize>, t: int) -> bool {
    exists|j: int| reached(tiles, cells, j) && cells[j] == t
}

/// The tiles after looking along a ray through `cells`: each tile that is
/// looked at is seen, the others are as they were.
pub open spec fn after_ray(tiles: Seq<TileState>, cells: Seq<usize>) -> Seq<TileState> {
    Seq::new(tiles.len(), |t: int| if on_ray(tiles, cells, t) { seen(tiles[t]) } else { tiles[t] })
}

/// Whether a full tile stops the view along the ray.
pub open spec fn ray_blocked(tiles: Seq<TileState>, cells: Seq<usize>) -> bool {
    exists|j: int| #[trigger] reached(tiles, cells, j) && tiles[cells[j] as int] is Full
}

/// Whether two tiles are of one kind: both empty, both full or both goals.
pub open spec fn same_kind(a: TileState, b: TileState) -> bool {
    &&& (a is Empty <==> b is Empty)
    &&& (a is Full <==> b is Full)
    &&& (a is Goal <==> b is Goal)
}

/// The tiles after marking the first `n` cells of a ray seen.
spec fn marked_upto(tiles: Seq<TileState>, cells: Seq<usize>, n: int) -> Seq<TileState> {
    Seq::new(
        tiles.len(),
        |t: int|
            if exists|j: int| 0 <= j < n && cells[j] == t {
                seen(tiles[t])
            } else {
                tiles[t]
            },
    )
}

impl Goal {
    /// Places the goal at `pos`.
    pub fn set(&mut self, pos: TileCoord)
        ensures
            final(self).position == Some(pos),
    {
        self.position = Some(pos);
    }
}

impl TileMap {
    pub open spec fn width(&self) -> int {
        self.dimensions.0 as int
    }

    pub open spec fn height(&self) -> int {
        self.dimensions.1 as int
    }

    /// The grid holds one tile per column and row, and the goal, if placed,
    /// lies on the grid.
    pub open spec fn wf(&self) -> bool {
        &&& self.tile_states@.len() == self.width() * self.height()
        &&& (self.goal.position matches Some(p) ==> p.x < self.width() && p.y < self.height())
    }

    /// The map holds a goal tile exactly where its goal stands.
    pub open spec fn goal_consistent(&self) -> bool {
        one_goal_at(self.tile_states@, self.width(), self.goal.position)
    }

    /// The tiles with the goal's tile, if the goal is placed, made empty and
    /// unseen.
    pub open spec fn tiles_without_goal(&self) -> Seq<TileState> {
        match self.goal.position {
            Some(p) => self.tile_states@.update(self.index_of(p), TileState::Empty(false)),
            None => self.tile_states@,
        }
    }

    /// The tiles after moving the goal to the tile that `mouse` falls on.
    pub open spec fn tiles_with_goal_at(&self, mouse: MouseCell) -> Seq<TileState> {
        self.tiles_without_goal().update(self.index_of(self.coords_of(mouse)), TileState::Goal(false))
    }

    /// The place in `tile_states` of the tile at `p`.
    pub open spec fn index_of(&self, p: TileCoord) -> int {
        p.y * self.width() + p.x
    }

    /// The tile that a mouse position falls on, clamped to the grid.
    pub open spec fn coords_of(&self, mouse: MouseCell) -> TileCoord {
        TileCoord {
            x: clamp(mouse.x as int, self.width() - 1) as u16,
            y: clamp(mouse.y as int, self.height() - 1) as u16,
        }
    }

    /// A map of `dimensions.0` columns and `dimensions.1` rows, every tile
    /// empty and unseen, with no goal.
    pub fn new(dimensions: (u16, u16)) -> (map: TileMap)
        ensures
            map.wf(),
            map.dimensions == dimensions,
            forall|i: int| 0 <= i < map.tile_states@.len() ==> map.tile_states@[i] == TileState::Empty(false),
            map.goal.position is None,
            map.goal_consistent(),
    {
        let w: u32 = dimensions.0 as u32;
        let h: u32 = dimensions.1 as u32;
        assert(w * h <= 65535 * 65535) by (nonlinear_arith)
            requires
                w <= 65535,
                h <= 65535,
        ;
        let n: u32 = w * h;
        let mut tile_states: Vec<TileState> = Vec::new();
        let mut i: u32 = 0;
        while i < n
            invariant
                i <= n,
                tile_states@.len() == i,
                forall|k: int| 0 <= k < i ==> tile_states@[k] == TileState::Empty(false),
            decreases n - i,
        {
            tile_states.push(TileState::Empty(false));
            i = i + 1;
        }
        TileMap { dimensions, tile_states, goal: Goal { position: None } }
    }

    /// The tile that a mouse position falls on: its column and row, each
    /// clamped to the grid.
    pub fn coords_from_mouse(&self, mouse: MouseCell) -> (c: TileCoord)
        requires
            self.width() >= 1,
            self.height() >= 1,
        ensures
            c == self.coords_of(mouse),
            c.x < self.width(),
            c.y < self.height(),
    {
        let w = self.dimensions.0;
        let h = self.dimensions.1;
        let x: u16 = if mouse.x < 0 {
            0
        } else if mouse.x > (w - 1) as i64 {
            w - 1
        } else {
            mouse.x as u16
        };
        let y: u16 = if mouse.y < 0 {
            0
        } else if mouse.y > (h - 1) as i64 {
            h - 1
        } else {
            mouse.y as u16
        };
        TileCoord { x, y }
    }

    /// The place in `tile_states` of the tile at `p`, computed in 16 bits.
    fn index_of_coords(&self, p: TileCoord) -> (i: usize)
        requires
            self.index_of(p) <= u16::MAX,
            p.x < self.width(),
        ensures
            i == self.index_of(p),
    {
        let w = self.dimensions.0;
        proof {
            assert(0 <= p.y * w) by (nonlinear_arith);
        }
        (p.y * w + p.x) as usize
    }

    /// The place in `tile_states` of the tile that a mouse position falls on;
    /// see `coords_from_mouse`.
    pub fn index_from_mouse(&self, mouse: MouseCell) -> (i: usize)
        requires
            self.width() >= 1,
            self.height() >= 1,
            self.index_of(self.coords_of(mouse)) <= u16::MAX,
        ensures
            i == self.index_of(self.coords_of(mouse)),
            i < self.width() * self.height(),
    {
        let c = self.coords_from_mouse(mouse);
        proof {
            lemma_index_in_grid(self.width(), self.height(), c.x as int, c.y as int);
        }
        self.index_of_coords(c)
    }

    /// Moves the goal to the tile that `new_pos` falls on: the goal's old
    /// tile, if it had one, becomes empty and unseen, its new tile an unseen
    /// goal tile.
    pub fn set_goal(&mut self, new_pos: MouseCell)
        requires
            old(self).wf(),
            old(self).width() >= 1,
            old(self).height() >= 1,
            old(self).goal.position matches Some(p) ==> old(self).index_of(p) <= u16::MAX,
            old(self).index_of(old(self).coords_of(new_pos)) <= u16::MAX,
        ensures
            final(self).wf(),
            final(self).dimensions == old(self).dimensions,
            final(self).goal.position == Some(old(self).coords_of(new_pos)),
            final(self).tile_states@ == old(self).tiles_with_goal_at(new_pos),
    {
        match self.goal.position {
            Some(position) => {
                proof {
                    lemma_index_in_grid(self.width(), self.height(), position.x as int, position.y as int);
                }
                let index_of_pos = self.index_of_coords(position);
                self.tile_states.set(index_of_pos, TileState::Empty(false));
            },
            None => {},
        }
        let new_coords = self.coords_from_mouse(new_pos);
        let new_index = self.index_from_mouse(new_pos);
        self.tile_states.set(new_index, TileState::Goal(false));
        self.goal.set(new_coords);
    }

    /// Looks along a ray that crosses the tiles at `cells`, in order: each
    /// tile is marked seen, up to and including the first full tile, which
    /// blocks the view. What each tile holds does not change, and no tile is
    /// un-seen. Tells whether a full tile blocked the view.
    pub fn mark_ray(&mut self, cells: &Vec<usize>) -> (blocked: bool)
        requires
            forall|j: int| 0 <= j < cells@.len() ==> cells@[j] < old(self).tile_states@.len(),
        ensures
            final(self).dimensions == old(self).dimensions,
            final(self).goal == old(self).goal,
            final(self).tile_states@ == after_ray(old(self).tile_states@, cells@),
            blocked == ray_blocked(old(self).tile_states@, cells@),
            final(self).tile_states@.len() == old(self).tile_states@.len(),
            forall|i: int|
                0 <= i < old(self).tile_states@.len() ==> same_kind(#[trigger] final(self).tile_states@[i], old(self).tile_states@[i])
                    && (old(self).tile_states@[i] == seen(old(self).tile_states@[i]) ==> final(self).tile_states@[i]
                    == old(self).tile_states@[i]),
            old(self).wf() ==> final(self).wf(),
    {
        let ghost tiles = self.tile_states@;
        let mut i: usize = 0;
        while i < cells.len()
            invariant
                i <= cells@.len(),
                forall|j: int| 0 <= j < cells@.len() ==> cells@[j] < tiles.len(),
                self.dimensions == old(self).dimensions,
                self.goal == old(self).goal,
                tiles == old(self).tile_states@,
                forall|k: int| 0 <= k < i ==> !(#[trigger] tiles[cells@[k] as int] is Full),
                self.tile_states@ == marked_upto(tiles, cells@, i as int),
            decreases cells@.len() - i,
        {
            let idx = cells[i];
            let ghost next = marked_upto(tiles, cells@, i + 1);
            assert(self.tile_states@[idx as int] == tiles[idx as int] || self.tile_states@[idx as int]
                == seen(tiles[idx as int]));
            assert(marked_upto(tiles, cells@, i as int).update(idx as int, seen(tiles[idx as int]))
                =~= next);
            match self.tile_states[idx] {
                TileState::Full(_) => {
                    self.tile_states.set(idx, TileState::Full(true));
                    proof {
                        assert(reached(tiles, cells@, i as int));
                        assert forall|t: int| 0 <= t < tiles.len() implies #[trigger] on_ray(tiles, cells@, t)
                            == (exists|j: int| 0 <= j < i + 1 && cells@[j] == t) by {
                            if on_ray(tiles, cells@, t) {
                                let j = choose|j: int| reached(tiles, cells@, j) && cells@[j] == t;
                                if j > i {
                                    assert(tiles[cells@[i as int] as int] is Full);
                                }
                            }
                            if exists|j: int| 0 <= j < i + 1 && cells@[j] == t {
                                let j = choose|j: int| 0 <= j < i + 1 && cells@[j] == t;
                                assert(reached(tiles, cells@, j));
                            }
                        }
                        assert(self.tile_states@ =~= after_ray(tiles, cells@));
                        assert(tiles[cells@[i as int] as int] is Full);
                        assert(ray_blocked(tiles, cells@));
                        assert forall|t: int| 0 <= t < tiles.len() implies same_kind(#[trigger] self.tile_states@[t], tiles[t])
                            && (tiles[t] == seen(tiles[t]) ==> self.tile_states@[t] == tiles[t]) by {
                            lemma_ray_keeps_kinds(tiles, cells@, t);
                        }
                    }
                    return true;
                },
                TileState::Empty(_) => {
                    self.tile_states.set(idx, TileState::Empty(true));
                },
                TileState::Goal(_) => {
                    self.tile_states.set(idx, TileState::Goal(true));
                },
            }
            i = i + 1;
        }
        proof {
            assert forall|t: int| 0 <= t < tiles.len() implies #[trigger] on_ray(tiles, cells@, t) == (exists|
                j: int,
            | 0 <= j < cells@.len() && cells@[j] == t) by {
                if exists|j: int| 0 <= j < cells@.len() && cells@[j] == t {
                    let j = choose|j: int| 0 <= j < cells@.len() && cells@[j] == t;
                    assert(reached(tiles, cells@, j));
                }
            }
            assert(self.tile_states@ =~= after_ray(tiles, cells@));
            assert forall|t: int| 0 <= t < tiles.len() implies same_kind(#[trigger] self.tile_states@[t], tiles[t])
                && (tiles[t] == seen(tiles[t]) ==> self.tile_states@[t] == tiles[t]) by {
                lemma_ray_keeps_kinds(tiles, cells@, t);
            }
            if ray_blocked(tiles, cells@) {
                let j = choose|j: int| #[trigger] reached(tiles, cells@, j) && tiles[cells@[j] as int] is Full;
                assert(!(tiles[cells@[j] as int] is Full));
            }
        }
        false
    }
}

/// Moving the goal keeps exactly one goal tile on the map, under the goal.
pub proof fn lemma_set_goal_keeps_one_goal(map: TileMap, new_pos: MouseCell)
    requires
        map.wf(),
        map.goal_consistent(),
        map.width() >= 1,
        map.height() >= 1,
    ensures
        one_goal_at(map.tiles_with_goal_at(new_pos), map.width(), Some(map.coords_of(new_pos))),
{
    let c = map.coords_of(new_pos);
    lemma_index_in_grid(map.width(), map.height(), c.x as int, c.y as int);
    if let Some(p) = map.goal.position {
        lemma_index_in_grid(map.width(), map.height(), p.x as int, p.y as int);
    }
    let tiles = map.tiles_with_goal_at(new_pos);
    assert forall|i: int| 0 <= i < tiles.len() implies (#[trigger] tiles[i] is Goal <==> i == c.y
        * map.width() + c.x) by {
        if i != map.index_of(c) {
            assert(tiles[i] == map.tiles_without_goal()[i]);
            if let Some(p) = map.goal.position {
                if i != map.index_of(p) {
                    assert(map.tiles_without_goal()[i] == map.tile_states@[i]);
                }
            }
        }
    }
}

/// Moving the goal changes at most two tiles: the goal's old tile, which
/// becomes empty and unseen, and its new tile, which becomes an unseen goal
/// tile. Every other tile, walls included, stays as it was, also when the
/// goal is placed for the first time.
pub proof fn lemma_set_goal_touches_two_tiles(map: TileMap, new_pos: MouseCell, i: int)
    requires
        map.wf(),
        map.width() >= 1,
        map.height() >= 1,
        0 <= i < map.tile_states@.len(),
    ensures
        ({
            let after = map.tiles_with_goal_at(new_pos);
            let new_i = map.coords_of(new_pos).y * map.width() + map.coords_of(new_pos).x;
            &&& after.len() == map.tile_states@.len()
            &&& i == new_i ==> after[i] == TileState::Goal(false)
            &&& (i != new_i && (map.goal.position matches Some(p) && i == p.y * map.width() + p.x))
                ==> after[i] == TileState::Empty(false)
            &&& (i != new_i && !(map.goal.position matches Some(p) && i == p.y * map.width() + p.x))
                ==> after[i] == map.tile_states@[i]
        }),
{
    let c = map.coords_of(new_pos);
    lemma_index_in_grid(map.width(), map.height(), c.x as int, c.y as int);
    if let Some(p) = map.goal.position {
        lemma_index_in_grid(map.width(), map.height(), p.x as int, p.y as int);
    }
}

/// Looking along any ray, whatever its cells, changes no tile's kind: every
/// tile stays empty, full or a goal as it was, and a tile once seen stays
/// seen.
pub proof fn lemma_ray_keeps_kinds(tiles: Seq<TileState>, cells: Seq<usize>, i: int)
    requires
        0 <= i < tiles.len(),
    ensures
        after_ray(tiles, cells).len() == tiles.len(),
        after_ray(tiles, cells)[i] is Empty <==> tiles[i] is Empty,
        after_ray(tiles, cells)[i] is Full <==> tiles[i] is Full,
        after_ray(tiles, cells)[i] is Goal <==> tiles[i] is Goal,
        tiles[i] == seen(tiles[i]) ==> after_ray(tiles, cells)[i] == tiles[i],
{
}

/// Looking along a ray keeps exactly one goal tile under the goal.
pub proof fn lemma_ray_keeps_one_goal(tiles: Seq<TileState>, cells: Seq<usize>, width: int, goal: Option<TileCoord>)
    requires
        one_goal_at(tiles, width, goal),
    ensures
        one_goal_at(after_ray(tiles, cells), width, goal),
{
    assert forall|i: int| 0 <= i < tiles.len() implies (#[trigger] after_ray(tiles, cells)[i] is Goal
        <==> tiles[i] is Goal) by {
        lemma_ray_keeps_kinds(tiles, cells, i);
    }
}

/// Looking along the same ray a second time reveals nothing new.
pub proof fn lemma_ray_idempotent(tiles: Seq<TileState>, cells: Seq<usize>)
    requires
        forall|j: int| 0 <= j < cells.len() ==> cells[j] < tiles.len(),
    ensures
        after_ray(after_ray(tiles, cells), cells) == after_ray(tiles, cells),
{
    let once = after_ray(tiles, cells);
    assert forall|k: int| 0 <= k < cells.len() implies (#[trigger] once[cells[k] as int] is Full
        <==> tiles[cells[k] as int] is Full) by {
        lemma_ray_keeps_kinds(tiles, cells, cells[k] as int);
    }
    assert forall|j: int| reached(once, cells, j) <==> reached(tiles, cells, j) by {
        if 0 <= j < cells.len() {
            if reached(once, cells, j) {
                assert forall|k: int| 0 <= k < j implies !(#[trigger] tiles[cells[k] as int] is Full) by {
                    assert(!(once[cells[k] as int] is Full));
                }
            }
            if reached(tiles, cells, j) {
                assert forall|k: int| 0 <= k < j implies !(#[trigger] once[cells[k] as int] is Full) by {
                    assert(!(tiles[cells[k] as int] is Full));
                }
            }
        }
    }
    assert forall|t: int| 0 <= t < tiles.len() implies on_ray(once, cells, t) == on_ray(tiles, cells, t) by {
        if on_ray(once, cells, t) {
            let j = choose|j: int| reached(once, cells, j) && cells[j] == t;
            assert(reached(tiles, cells, j));
        }
        if on_ray(tiles, cells, t) {
            let j = choose|j: int| reached(tiles, cells, j) && cells[j] == t;
            assert(reached(once, cells, j));
        }
    }
    assert(after_ray(once, cells) =~= once);
}

/// A tile inside a grid of `w` columns and `h` rows has its place in the
/// grid's row-by-row storage.
pub proof fn lemma_index_in_grid(w: int, h: int, x: int, y: int)
    requires
        0 <= x < w,
        0 <= y < h,
    ensures
        0 <= y * w + x < w * h,
{
    assert(0 <= y * w + x < w * h) by (nonlinear_arith)
        requires
            0 <= x < w,
            0 <= y < h,
    ;
}

} // verus!
