use tile_sight::TileState;

#[test]
fn plain_tiles_compare_by_kind_and_flag() {
    assert_eq!(TileState::Empty(false), TileState::Empty(false));
    assert_ne!(TileState::Empty(true), TileState::Full(true));
    assert_ne!(TileState::Full(false), TileState::Full(true));
}
