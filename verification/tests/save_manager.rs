use std::time::{Duration, SystemTime};
use tile_sight::map::{TileCoord, TileState};
use tile_sight::save_manager::{
    map_file_name, map_name_if_free, name_is_free, read_map, try_map_name, SaveGate, SaveManager,
};

#[test]
fn file_names() {
    assert_eq!(map_file_name(0), b"map_0".to_vec());
    assert_eq!(map_file_name(7), b"map_7".to_vec());
    assert_eq!(map_file_name(1234), b"map_1234".to_vec());
    assert_eq!(map_file_name(9999), b"map_9999".to_vec());
    assert_eq!(map_file_name(u32::MAX), b"map_4294967295".to_vec());
}

#[test]
fn free_names() {
    let existing = vec![b"map_1".to_vec(), b"map_12".to_vec()];
    assert!(!name_is_free(&existing, &b"map_12".to_vec()));
    assert!(name_is_free(&existing, &b"map_2".to_vec()));
    assert!(name_is_free(&existing, &b"map_".to_vec()));
    assert!(name_is_free(&vec![], &b"map_1".to_vec()));
}

#[test]
fn name_if_free() {
    let existing = vec![b"map_5".to_vec()];
    assert_eq!(map_name_if_free(5, &existing), None);
    assert_eq!(map_name_if_free(6, &existing), Some(b"map_6".to_vec()));
}

#[test]
fn random_names_are_free_and_in_range() {
    let mut rng = rand::thread_rng();
    let existing = vec![b"map_0".to_vec()];
    let mut found = 0;
    for _ in 0..200 {
        if let Some(name) = try_map_name(&mut rng, &existing) {
            assert!(name.starts_with(b"map_"));
            let id: u32 = String::from_utf8(name[4..].to_vec()).unwrap().parse().unwrap();
            assert!(id <= 9999 && id != 0);
            found += 1;
        }
    }
    assert!(found > 0);
}

#[test]
fn saves_wait_two_seconds() {
    let start = SystemTime::UNIX_EPOCH + Duration::from_secs(1000);
    let mut manager = SaveManager { time_of_last_save: start };
    let soon = start + Duration::from_millis(1500);
    assert_eq!(manager.record_attempt(soon, Some(1)), SaveGate::TooSoon);
    assert_eq!(manager.time_of_last_save, start);
    let later = start + Duration::from_secs(2);
    assert_eq!(manager.record_attempt(later, Some(2)), SaveGate::Proceed);
    assert_eq!(manager.time_of_last_save, later);
}

#[test]
fn clock_going_back_is_reported() {
    let start = SystemTime::UNIX_EPOCH + Duration::from_secs(1000);
    let mut manager = SaveManager { time_of_last_save: start };
    assert_eq!(manager.record_attempt(SystemTime::UNIX_EPOCH, None), SaveGate::ClockWentBack);
    assert_eq!(manager.time_of_last_save, start);
}

#[test]
fn save_right_after_start_is_too_soon() {
    let mut manager = SaveManager::new();
    let first = manager.time_of_last_save;
    assert_eq!(manager.start_save(), SaveGate::TooSoon);
    assert_eq!(manager.time_of_last_save, first);
}

#[test]
fn save_long_after_last_goes_ahead() {
    let long_ago = SystemTime::now() - Duration::from_secs(60);
    let mut manager = SaveManager { time_of_last_save: long_ago };
    assert_eq!(manager.start_save(), SaveGate::Proceed);
    assert!(manager.time_of_last_save > long_ago);
}

#[test]
fn read_map_accepts_a_full_grid() {
    let tiles = vec![TileState::Empty(false), TileState::Goal(false), TileState::Full(true), TileState::Empty(true)];
    let m = read_map((2, 2), tiles.clone(), Some(TileCoord { x: 1, y: 0 })).unwrap();
    assert_eq!(m.dimensions, (2, 2));
    assert_eq!(m.tile_states, tiles);
    assert_eq!(m.goal.position, Some(TileCoord { x: 1, y: 0 }));
}

#[test]
fn read_map_refuses_a_short_grid() {
    assert!(read_map((2, 2), vec![TileState::Empty(false); 3], None).is_none());
}

#[test]
fn read_map_refuses_a_goal_off_the_grid() {
    assert!(read_map((2, 2), vec![TileState::Empty(false); 4], Some(TileCoord { x: 2, y: 0 })).is_none());
    assert!(read_map((2, 2), vec![TileState::Empty(false); 4], Some(TileCoord { x: 0, y: 2 })).is_none());
}

#[test]
fn saves_are_measured_from_the_last_save_that_went_ahead() {
    let t0 = SystemTime::UNIX_EPOCH + Duration::from_secs(100);
    let mut manager = SaveManager { time_of_last_save: t0 };
    let t1 = t0 + Duration::from_secs(3);
    assert_eq!(manager.record_attempt(t1, Some(3)), SaveGate::Proceed);
    let t2 = t1 + Duration::from_secs(1);
    assert_eq!(manager.record_attempt(t2, Some(1)), SaveGate::TooSoon);
    let t3 = t1 + Duration::from_millis(1900);
    assert_eq!(manager.record_attempt(t3, Some(1)), SaveGate::TooSoon);
    assert_eq!(manager.time_of_last_save, t1);
    let t4 = t1 + Duration::from_secs(2);
    assert_eq!(manager.record_attempt(t4, Some(2)), SaveGate::Proceed);
    assert_eq!(manager.time_of_last_save, t4);
}

#[test]
fn two_saves_in_a_row_by_the_clock() {
    let mut manager = SaveManager { time_of_last_save: SystemTime::now() - Duration::from_secs(10) };
    assert_eq!(manager.start_save(), SaveGate::Proceed);
    assert_eq!(manager.start_save(), SaveGate::TooSoon);
}

#[test]
fn listed_entries_are_compared_by_their_whole_text() {
    let existing = vec![b"Ok(DirEntry(\"/home/u/maps/map_5\"))".to_vec()];
    assert_eq!(map_name_if_free(5, &existing), Some(b"map_5".to_vec()));
}
