use tile_sight::map::{Goal, MouseCell, TileCoord, TileMap, TileState};

fn cell(x: i64, y: i64) -> MouseCell {
    MouseCell { x, y }
}

#[test]
fn new_map_is_empty_and_unseen() {
    let m = TileMap::new((60, 50));
    assert_eq!(m.dimensions, (60, 50));
    assert_eq!(m.tile_states.len(), 3000);
    assert!(m.tile_states.iter().all(|t| *t == TileState::Empty(false)));
    assert!(m.goal.position.is_none());
}

#[test]
fn new_map_with_no_columns_has_no_tiles() {
    let m = TileMap::new((0, 7));
    assert_eq!(m.tile_states.len(), 0);
}

#[test]
fn index_from_mouse_is_row_major() {
    let m = TileMap::new((60, 50));
    assert_eq!(m.index_from_mouse(cell(3, 2)), 123);
    assert_eq!(m.index_from_mouse(cell(0, 0)), 0);
    assert_eq!(m.index_from_mouse(cell(59, 49)), 2999);
}

#[test]
fn index_from_mouse_clamps_to_the_grid() {
    let m = TileMap::new((60, 50));
    assert_eq!(m.index_from_mouse(cell(-5, 100)), 49 * 60);
    assert_eq!(m.index_from_mouse(cell(1000, -1)), 59);
    assert_eq!(m.index_from_mouse(cell(i64::MIN, i64::MAX)), 49 * 60);
}

#[test]
fn coords_from_mouse_clamps_each_axis() {
    let m = TileMap::new((10, 4));
    assert_eq!(m.coords_from_mouse(cell(12, 2)), TileCoord { x: 9, y: 2 });
    assert_eq!(m.coords_from_mouse(cell(-3, 9)), TileCoord { x: 0, y: 3 });
    assert_eq!(m.coords_from_mouse(cell(4, 1)), TileCoord { x: 4, y: 1 });
}

#[test]
fn index_agrees_with_coords() {
    let m = TileMap::new((7, 5));
    for x in -3..10 {
        for y in -3..8 {
            let c = m.coords_from_mouse(cell(x, y));
            assert_eq!(m.index_from_mouse(cell(x, y)), c.y as usize * 7 + c.x as usize);
        }
    }
}

#[test]
fn goal_set_places_the_goal() {
    let mut g = Goal { position: None };
    g.set(TileCoord { x: 2, y: 3 });
    assert_eq!(g.position, Some(TileCoord { x: 2, y: 3 }));
}

#[test]
fn set_goal_first_time() {
    let mut m = TileMap::new((4, 3));
    m.set_goal(cell(1, 1));
    assert_eq!(m.goal.position, Some(TileCoord { x: 1, y: 1 }));
    assert_eq!(m.tile_states[5], TileState::Goal(false));
    let goals = m.tile_states.iter().filter(|t| matches!(t, TileState::Goal(_))).count();
    assert_eq!(goals, 1);
}

#[test]
fn set_goal_moves_the_goal_tile() {
    let mut m = TileMap::new((4, 3));
    m.set_goal(cell(1, 1));
    m.tile_states[5] = TileState::Goal(true);
    m.set_goal(cell(9, 9));
    assert_eq!(m.goal.position, Some(TileCoord { x: 3, y: 2 }));
    assert_eq!(m.tile_states[5], TileState::Empty(false));
    assert_eq!(m.tile_states[11], TileState::Goal(false));
    let goals = m.tile_states.iter().filter(|t| matches!(t, TileState::Goal(_))).count();
    assert_eq!(goals, 1);
}

#[test]
fn set_goal_on_the_same_tile_keeps_one_goal() {
    let mut m = TileMap::new((4, 3));
    m.set_goal(cell(2, 0));
    m.set_goal(cell(2, 0));
    assert_eq!(m.tile_states[2], TileState::Goal(false));
    let goals = m.tile_states.iter().filter(|t| matches!(t, TileState::Goal(_))).count();
    assert_eq!(goals, 1);
}

#[test]
fn mark_ray_stops_at_the_first_full_tile() {
    let mut m = TileMap::new((5, 1));
    m.tile_states[2] = TileState::Full(false);
    m.mark_ray(&vec![0, 1, 2, 3, 4]);
    assert_eq!(
        m.tile_states,
        vec![
            TileState::Empty(true),
            TileState::Empty(true),
            TileState::Full(true),
            TileState::Empty(false),
            TileState::Empty(false),
        ]
    );
}

#[test]
fn mark_ray_sees_goal_tiles_and_passes_them() {
    let mut m = TileMap::new((3, 1));
    m.set_goal(cell(1, 0));
    m.mark_ray(&vec![0, 1, 1, 2]);
    assert_eq!(
        m.tile_states,
        vec![TileState::Empty(true), TileState::Goal(true), TileState::Empty(true)]
    );
    assert_eq!(m.goal.position, Some(TileCoord { x: 1, y: 0 }));
}

#[test]
fn mark_ray_with_no_cells_changes_nothing() {
    let mut m = TileMap::new((3, 2));
    m.mark_ray(&vec![]);
    assert!(m.tile_states.iter().all(|t| *t == TileState::Empty(false)));
}

#[test]
fn mark_ray_twice_is_like_once() {
    let mut m = TileMap::new((6, 1));
    m.tile_states[4] = TileState::Full(false);
    let ray = vec![5, 0, 4, 1];
    m.mark_ray(&ray);
    let once = m.tile_states.clone();
    m.mark_ray(&ray);
    assert_eq!(m.tile_states, once);
    assert_eq!(once[5], TileState::Empty(true));
    assert_eq!(once[4], TileState::Full(true));
    assert_eq!(once[1], TileState::Empty(false));
}

#[test]
fn mark_ray_keeps_tiles_seen() {
    let mut m = TileMap::new((3, 1));
    m.tile_states[0] = TileState::Full(true);
    m.tile_states[2] = TileState::Empty(true);
    m.mark_ray(&vec![0, 1]);
    assert_eq!(
        m.tile_states,
        vec![TileState::Full(true), TileState::Empty(false), TileState::Empty(true)]
    );
}

#[test]
fn mark_ray_tells_whether_a_wall_blocked_it() {
    let mut m = TileMap::new((4, 1));
    assert!(!m.mark_ray(&vec![0, 1, 2, 3]));
    m.tile_states[2] = TileState::Full(false);
    assert!(m.mark_ray(&vec![0, 1, 2, 3]));
    assert!(!m.mark_ray(&vec![3]));
}

#[test]
fn mark_ray_keeps_every_kind() {
    let mut m = TileMap::new((5, 1));
    m.tile_states[1] = TileState::Full(false);
    m.set_goal(cell(3, 0));
    let before = m.tile_states.clone();
    m.mark_ray(&vec![4, 3, 2, 1, 0]);
    for (a, b) in before.iter().zip(m.tile_states.iter()) {
        assert_eq!(std::mem::discriminant(a), std::mem::discriminant(b));
    }
}
