use vstd::prelude::*;
use crate::map::{MouseCell, TileMap, TileState, one_goal_at};

verus! {

/// What a click on the tile `t` does while the drag started on `clicked_on`:
/// a full tile is emptied and an empty one filled, each only when the drag
/// started on a tile of the same kind; goal tiles stay.
pub open spec fn clicked_tile(t: TileState, clicked_on: TileState) -> TileState {
    match t {
        TileState::Full(_) => if clicked_on is Full {
            TileState::Empty(false)
        } else {
            t
        },
        TileState::Empty(_) => if clicked_on is Empty {
            TileState::Full(false)
        } else {
            t
        },
        TileState::Goal(_) => t,
    }
}

/// The tile that a drag started on: the one under the mouse when the button
/// went down, kept for as long as it stays down.
pub open spec fn drag_start(tiles: Seq<TileState>, clicked_on: Option<TileState>, i: int) -> TileState {
    match clicked_on {
        Some(t) => t,
        None => tiles[i],
    }
}

/// The tiles after a frame in which the button is down over the tile at
/// place `i`.
pub open spec fn tiles_after_click(tiles: Seq<TileState>, clicked_on: Option<TileState>, i: int) -> Seq<TileState> {
    tiles.update(i, clicked_tile(tiles[i], drag_start(tiles, clicked_on, i)))
}

/// One frame of editing the grid with the left mouse button. While the
/// button is down, the tile under the mouse is emptied if it is full, or
/// filled if it is empty, but only when the drag started on a tile of that
/// same kind, so that one drag changes tiles of one kind only. When the
/// button is up, the drag ends.
pub fn update_click(map: &mut TileMap, clicked_on: &mut Option<TileState>, pressed: bool, mouse: MouseCell)
    requires
        pressed ==> {
            &&& old(map).wf()
            &&& old(map).width() >= 1
            &&& old(map).height() >= 1
            &&& old(map).index_of(old(map).coords_of(mouse)) <= u16::MAX
        },
    ensures
        final(map).dimensions == old(map).dimensions,
        final(map).goal == old(map).goal,
        old(map).wf() ==> final(map).wf(),
        !pressed ==> final(map).tile_states@ == old(map).tile_states@ && *final(clicked_on) is None,
        pressed ==> {
            let i = old(map).index_of(old(map).coords_of(mouse));
            &&& *final(clicked_on) == Some(drag_start(old(map).tile_states@, *old(clicked_on), i))
            &&& final(map).tile_states@ == tiles_after_click(old(map).tile_states@, *old(clicked_on), i)
        },
{
    if pressed {
        let clicked_index = map.index_from_mouse(mouse);
        if clicked_on.is_none() {
            *clicked_on = Some(map.tile_states[clicked_index]);
        }
        let start = match *clicked_on {
            Some(t) => t,
            None => map.tile_states[clicked_index],
        };
        match map.tile_states[clicked_index] {
            TileState::Full(_) => {
                if let TileState::Full(_) = start {
                    map.tile_states.set(clicked_index, TileState::Empty(false));
                }
            },
            TileState::Empty(_) => {
                if let TileState::Empty(_) = start {
                    map.tile_states.set(clicked_index, TileState::Full(false));
                }
            },
            _ => {},
        }
    } else {
        *clicked_on = None;
    }
}

/// A frame of editing touches only the tile under the mouse. There, a full
/// tile is emptied only by a drag started on a full tile and an empty tile is
/// filled only by a drag started on an empty tile; a goal tile never changes,
/// and a drag started on a goal tile changes nothing at all.
pub proof fn lemma_click_rules(tiles: Seq<TileState>, clicked_on: Option<TileState>, i: int, t: int)
    requires
        0 <= i < tiles.len(),
        0 <= t < tiles.len(),
    ensures
        ({
            let start = drag_start(tiles, clicked_on, i);
            let after = tiles_after_click(tiles, clicked_on, i);
            &&& after.len() == tiles.len()
            &&& t != i ==> after[t] == tiles[t]
            &&& (tiles[i] is Full && start is Full) ==> after[i] == TileState::Empty(false)
            &&& (tiles[i] is Full && !(start is Full)) ==> after[i] == tiles[i]
            &&& (tiles[i] is Empty && start is Empty) ==> after[i] == TileState::Full(false)
            &&& (tiles[i] is Empty && !(start is Empty)) ==> after[i] == tiles[i]
            &&& tiles[i] is Goal ==> after[i] == tiles[i]
            &&& start is Goal ==> after == tiles
        }),
{
    let start = drag_start(tiles, clicked_on, i);
    let after = tiles_after_click(tiles, clicked_on, i);
    if start is Goal {
        assert(after =~= tiles);
    }
}

/// Holding the button down over one tile changes it once: a second frame
/// over the same tile, in the same drag, changes nothing more.
pub proof fn lemma_click_once_per_drag(tiles: Seq<TileState>, clicked_on: Option<TileState>, i: int)
    requires
        0 <= i < tiles.len(),
    ensures
        ({
            let start = drag_start(tiles, clicked_on, i);
            let once = tiles_after_click(tiles, clicked_on, i);
            tiles_after_click(once, Some(start), i) == once
        }),
{
    let start = drag_start(tiles, clicked_on, i);
    let once = tiles_after_click(tiles, clicked_on, i);
    assert(tiles_after_click(once, Some(start), i) =~= once);
}

/// A drag changes tiles of one kind only: one started on a full tile never
/// fills a tile, one started on an empty tile never empties one, and no
/// drag makes, moves or removes a goal tile.
pub proof fn lemma_drag_one_kind(tiles: Seq<TileState>, clicked_on: Option<TileState>, i: int, t: int)
    requires
        0 <= i < tiles.len(),
        0 <= t < tiles.len(),
    ensures
        ({
            let start = drag_start(tiles, clicked_on, i);
            let after = tiles_after_click(tiles, clicked_on, i);
            &&& start is Full ==> (after[t] is Full ==> tiles[t] is Full)
            &&& start is Empty ==> (after[t] is Empty ==> tiles[t] is Empty)
            &&& (after[t] is Goal <==> tiles[t] is Goal)
        }),
{
}

/// Editing keeps exactly one goal tile under the goal.
pub proof fn lemma_click_keeps_one_goal(
    tiles: Seq<TileState>,
    clicked_on: Option<TileState>,
    i: int,
    width: int,
    goal: Option<crate::map::TileCoord>,
)
    requires
        0 <= i < tiles.len(),
        one_goal_at(tiles, width, goal),
    ensures
        one_goal_at(tiles_after_click(tiles, clicked_on, i), width, goal),
{
    let after = tiles_after_click(tiles, clicked_on, i);
    assert forall|t: int| 0 <= t < tiles.len() implies (#[trigger] after[t] is Goal <==> tiles[t] is Goal) by {
        lemma_drag_one_kind(tiles, clicked_on, i, t);
    }
}

/// A key the game reacts to; every other key is `Other`.
#[derive(Clone, Copy, Debug, PartialEq, Eq, Structural)]
pub enum Key {
    W,
    A,
    S,
    D,
    G,
    M,
    Other,
}

/// Something a key asks the game to do, besides moving.
#[derive(Clone, Copy, Debug, PartialEq, Eq, Structural)]
pub enum KeyAction {
    /// Move the goal to the tile under the mouse.
    SetGoal,
    /// Save the map.
    SaveMap,
}

/// What the keys held down in a frame ask for: a velocity, in steps along
/// each axis (y grows downward), and the other actions in key order.
pub struct KeyPlan {
    pub vel_x: i64,
    pub vel_y: i64,
    pub actions: Vec<KeyAction>,
}

/// The horizontal step of a key: `D` right, `A` left.
pub open spec fn key_dx(k: Key) -> int {
    match k {
        Key::D => 1,
        Key::A => -1,
        _ => 0,
    }
}

/// The vertical step of a key: `S` down, `W` up.
pub open spec fn key_dy(k: Key) -> int {
    match k {
        Key::S => 1,
        Key::W => -1,
        _ => 0,
    }
}

/// The sum of the horizontal steps of `keys`.
pub open spec fn sum_dx(keys: Seq<Key>) -> int
    decreases keys.len(),
{
    if keys.len() == 0 {
        0
    } else {
        sum_dx(keys.drop_last()) + key_dx(keys.last())
    }
}

/// The sum of the vertical steps of `keys`.
pub open spec fn sum_dy(keys: Seq<Key>) -> int
    decreases keys.len(),
{
    if keys.len() == 0 {
        0
    } else {
        sum_dy(keys.drop_last()) + key_dy(keys.last())
    }
}

/// The actions of `keys`, in order: `G` sets the goal, `M` saves the map.
pub open spec fn key_actions(keys: Seq<Key>) -> Seq<KeyAction>
    decreases keys.len(),
{
    if keys.len() == 0 {
        Seq::empty()
    } else {
        let rest = key_actions(keys.drop_last());
        match keys.last() {
            Key::G => rest.push(KeyAction::SetGoal),
            Key::M => rest.push(KeyAction::SaveMap),
            _ => rest,
        }
    }
}

/// What the keys held down in a frame ask for.
pub fn plan_keys(keys: &Vec<Key>) -> (plan: KeyPlan)
    requires
        keys@.len() <= i64::MAX,
    ensures
        plan.vel_x == sum_dx(keys@),
        plan.vel_y == sum_dy(keys@),
        plan.actions@ == key_actions(keys@),
{
    let mut vel_x: i64 = 0;
    let mut vel_y: i64 = 0;
    let mut actions: Vec<KeyAction> = Vec::new();
    let mut i: usize = 0;
    while i < keys.len()
        invariant
            i <= keys@.len(),
            keys@.len() <= i64::MAX,
            vel_x == sum_dx(keys@.take(i as int)),
            vel_y == sum_dy(keys@.take(i as int)),
            -(i as int) <= vel_x <= i,
            -(i as int) <= vel_y <= i,
            actions@ == key_actions(keys@.take(i as int)),
        decreases keys@.len() - i,
    {
        let ghost before = keys@.take(i as int);
        assert(keys@.take(i + 1).drop_last() == before);
        match keys[i] {
            Key::W => vel_y = vel_y - 1,
            Key::A => vel_x = vel_x - 1,
            Key::S => vel_y = vel_y + 1,
            Key::D => vel_x = vel_x + 1,
            Key::G => actions.push(KeyAction::SetGoal),
            Key::M => actions.push(KeyAction::SaveMap),
            Key::Other => {},
        }
        i = i + 1;
    }
    assert(keys@.take(keys@.len() as int) == keys@);
    KeyPlan { vel_x, vel_y, actions }
}

/// Which tile picture of the sheet a tile is drawn with.
#[derive(Clone, Copy, Debug, PartialEq, Eq, Structural)]
pub enum Sprite {
    Full,
    Empty,
    Goal,
}

/// A colour with its opacity.
#[derive(Clone, Copy, Debug, PartialEq, Eq, Structural)]
pub struct Rgba {
    pub r: u8,
    pub g: u8,
    pub b: u8,
    pub a: u8,
}

/// How a tile is drawn: its picture, and the RGBA colour it is tinted with,
/// if any.
#[derive(Clone, Copy, Debug, PartialEq, Eq, Structural)]
pub struct TileLook {
    pub sprite: Sprite,
    pub tint: Option<Rgba>,
}

/// A tile to draw: its column, its row and its look.
#[derive(Clone, Copy, Debug, PartialEq, Eq, Structural)]
pub struct TileDraw {
    pub column: u16,
    pub row: u16,
    pub look: TileLook,
}

/// Tiles the actor has not seen are drawn half transparent.
pub open spec fn alpha_for(known: bool) -> u8 {
    if known {
        255
    } else {
        125
    }
}

/// How a tile is drawn: full tiles dark blue, empty tiles light blue, both
/// faded until seen; goal tiles with their own picture, untinted.
pub open spec fn look_of(t: TileState) -> TileLook {
    match t {
        TileState::Full(known) => TileLook { sprite: Sprite::Full, tint: Some(Rgba { r: 9, g: 17, b: 51, a: alpha_for(known) }) },
        TileState::Empty(known) => TileLook {
            sprite: Sprite::Empty,
            tint: Some(Rgba { r: 124, g: 174, b: 195, a: alpha_for(known) }),
        },
        TileState::Goal(_) => TileLook { sprite: Sprite::Goal, tint: None },
    }
}

/// A tile is drawn with the picture of its kind. A goal tile is drawn with
/// the goal picture and no tint, seen or not; a full or empty tile is tinted
/// dark blue or light blue, opaque once seen and half transparent before.
pub proof fn lemma_look_by_kind(known: bool)
    ensures
        look_of(TileState::Goal(known)) == (TileLook { sprite: Sprite::Goal, tint: None }),
        look_of(TileState::Full(known)).sprite == Sprite::Full,
        look_of(TileState::Empty(known)).sprite == Sprite::Empty,
        look_of(TileState::Full(known)).tint == Some(Rgba { r: 9, g: 17, b: 51, a: if known { 255u8 } else { 125u8 } }),
        look_of(TileState::Empty(known)).tint == Some(Rgba { r: 124, g: 174, b: 195, a: if known { 255u8 } else { 125u8 } }),
        look_of(TileState::Goal(true)) == look_of(TileState::Goal(false)),
{
}

/// How the tile `t` is drawn.
pub fn tile_look(t: TileState) -> (look: TileLook)
    ensures
        look == look_of(t),
{
    match t {
        TileState::Full(known) => {
            let alpha: u8 = if !known { 125 } else { 255 };
            TileLook { sprite: Sprite::Full, tint: Some(Rgba { r: 9, g: 17, b: 51, a: alpha }) }
        },
        TileState::Empty(known) => {
            let alpha: u8 = if !known { 125 } else { 255 };
            TileLook { sprite: Sprite::Empty, tint: Some(Rgba { r: 124, g: 174, b: 195, a: alpha }) }
        },
        TileState::Goal(_) => TileLook { sprite: Sprite::Goal, tint: None },
    }
}

/// The tile at column `i` and row `j`, to draw.
pub open spec fn tile_draw_at(map: TileMap, i: int, j: int) -> TileDraw {
    TileDraw { column: i as u16, row: j as u16, look: look_of(map.tile_states@[j * map.width() + i]) }
}

/// The tiles of the map to draw, column by column: the tile at column `i`
/// and row `j` comes at place `i * height + j`.
pub fn draw_list(map: &TileMap) -> (list: Vec<TileDraw>)
    requires
        map.wf(),
        map.width() * map.height() <= u16::MAX + 1,
    ensures
        list@.len() == map.width() * map.height(),
        forall|k: int|
            0 <= k < list@.len() ==> #[trigger] list@[k] == tile_draw_at(*map, k / map.height(), k % map.height()),
        forall|i: int, j: int|
            0 <= i < map.width() && 0 <= j < map.height() ==> #[trigger] list@[i * map.height() + j] == tile_draw_at(*map, i, j),
{
    let w = map.dimensions.0;
    let h = map.dimensions.1;
    let ghost wi = w as int;
    let ghost hi = h as int;
    let mut list: Vec<TileDraw> = Vec::new();
    let mut i: u16 = 0;
    while i < w
        invariant
            wi == map.width(),
            hi == map.height(),
            wi == w as int,
            hi == h as int,
            i <= wi,
            map.wf(),
            wi * hi <= u16::MAX + 1,
            list@.len() == i * hi,
            forall|a: int, b: int|
                0 <= a < i && 0 <= b < hi ==> #[trigger] list@[a * hi + b] == tile_draw_at(*map, a, b),
        decreases wi - i,
    {
        let mut j: u16 = 0;
        while j < h
            invariant
                wi == map.width(),
                hi == map.height(),
                wi == w as int,
                hi == h as int,
                i < wi,
                j <= hi,
                map.wf(),
                wi * hi <= u16::MAX + 1,
                list@.len() == i * hi + j,
                forall|a: int, b: int|
                    0 <= a < i && 0 <= b < hi ==> #[trigger] list@[a * hi + b] == tile_draw_at(*map, a, b),
                forall|b: int|
                    0 <= b < j ==> #[trigger] list@[i * hi + b] == tile_draw_at(*map, i as int, b),
            decreases hi - j,
        {
            proof {
                assert(j * wi + i < wi * hi) by (nonlinear_arith)
                    requires
                        0 <= i < wi,
                        0 <= j < hi,
                ;
                assert(i * hi + j < wi * hi) by (nonlinear_arith)
                    requires
                        0 <= i < wi,
                        0 <= j < hi,
                ;
            }
            assert forall|a: int, b: int|
                #![trigger tile_draw_at(*map, a, b)]
                0 <= a < i && 0 <= b < hi implies a * hi + b < i * hi by {
                assert(a * hi + b < i * hi) by (nonlinear_arith)
                    requires
                        0 <= a < i,
                        0 <= b < hi,
                ;
            }
            let index: u16 = i + w * j;
            let look = tile_look(map.tile_states[index as usize]);
            list.push(TileDraw { column: i, row: j, look });
            j = j + 1;
        }
        proof {
            assert(list@.len() == (i + 1) * hi) by (nonlinear_arith)
                requires
                    list@.len() == i * hi + hi,
            ;
            assert forall|a: int, b: int|
                0 <= a < i + 1 && 0 <= b < hi implies #[trigger] list@[a * hi + b] == tile_draw_at(*map, a, b) by {
                if a == i {
                    assert(list@[i * hi + b] == tile_draw_at(*map, i as int, b));
                }
            }
        }
        i = i + 1;
    }
    assert forall|k: int| 0 <= k < list@.len() implies #[trigger] list@[k] == tile_draw_at(*map, k / hi, k % hi) by {
        assert(k == (k / hi) * hi + k % hi && 0 <= k % hi < hi && 0 <= k / hi < wi) by (nonlinear_arith)
            requires
                0 <= k < wi * hi,
                hi > 0,
        ;
    }
    list
}

} // verus!
