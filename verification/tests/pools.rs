use mp4handler::video_processor::{
    clone_paths, pick_count, report_draw, DrawReport, PoolError, VideoPoolManager, VideoPoolState,
};
use std::collections::HashSet;

fn names(items: &[&str]) -> Vec<String> {
    items.iter().map(|s| s.to_string()).collect()
}

#[test]
fn three_draws_of_three_from_five() {
    let mut manager = VideoPoolManager::new();
    manager.get_or_create_pool("clips", 1, names(&["a", "b", "c", "d", "e"]));
    let first = manager.draw_videos("clips", 1, 3).unwrap();
    assert_eq!(first.len(), 3);
    assert_eq!(manager.get_remaining_count("clips", 1), 2);
    let second = manager.draw_videos("clips", 1, 3).unwrap();
    assert_eq!(second.len(), 2);
    assert_eq!(manager.get_remaining_count("clips", 1), 0);
    let seen: HashSet<&String> = first.iter().chain(second.iter()).collect();
    assert_eq!(seen.len(), 5);
    let third = manager.draw_videos("clips", 1, 3).unwrap();
    assert_eq!(third.len(), 3);
    assert_eq!(manager.get_remaining_count("clips", 1), 2);
    let distinct: HashSet<&String> = third.iter().collect();
    assert_eq!(distinct.len(), 3);
}

#[test]
fn a_draw_without_a_pool_fails() {
    let mut manager = VideoPoolManager::new();
    assert_eq!(manager.draw_videos("clips", 1, 3), Err(PoolError::PoolNotInitialized));
    manager.get_or_create_pool("clips", 1, names(&["a"]));
    assert_eq!(manager.draw_videos("clips", 2, 3), Err(PoolError::PoolNotInitialized));
    assert_eq!(manager.draw_videos("other", 1, 3), Err(PoolError::PoolNotInitialized));
}

#[test]
fn the_remaining_count_of_an_absent_pool_is_zero() {
    let manager = VideoPoolManager::new();
    assert_eq!(manager.get_remaining_count("clips", 0), 0);
}

#[test]
fn a_pool_is_kept_while_the_listing_has_its_size() {
    let mut manager = VideoPoolManager::new();
    let created = manager.get_or_create_pool("clips", 0, names(&["a", "b", "c"]));
    assert_eq!(created.all_videos, names(&["a", "b", "c"]));
    assert_eq!(created.remaining_videos, names(&["a", "b", "c"]));
    manager.draw_videos("clips", 0, 2).unwrap();
    let kept = manager.get_or_create_pool("clips", 0, names(&["x", "y", "z"]));
    assert_eq!(kept.all_videos, names(&["a", "b", "c"]));
    assert_eq!(kept.remaining_videos.len(), 1);
    assert_eq!(manager.get_remaining_count("clips", 0), 1);
}

#[test]
fn a_pool_is_rebuilt_when_the_listing_changes_size() {
    let mut manager = VideoPoolManager::new();
    manager.get_or_create_pool("clips", 0, names(&["a", "b", "c"]));
    manager.draw_videos("clips", 0, 2).unwrap();
    let rebuilt = manager.get_or_create_pool("clips", 0, names(&["a", "b", "c", "d"]));
    assert_eq!(rebuilt.all_videos, names(&["a", "b", "c", "d"]));
    assert_eq!(rebuilt.remaining_videos, names(&["a", "b", "c", "d"]));
    assert_eq!(manager.get_remaining_count("clips", 0), 4);
}

#[test]
fn pools_of_different_keys_do_not_mix() {
    let mut manager = VideoPoolManager::new();
    manager.get_or_create_pool("clips", 0, names(&["a", "b"]));
    manager.get_or_create_pool("clips", 1, names(&["c", "d", "e"]));
    manager.get_or_create_pool("other", 0, names(&["f"]));
    let drawn = manager.draw_videos("clips", 1, 10).unwrap();
    let mut sorted = drawn.clone();
    sorted.sort();
    assert_eq!(sorted, names(&["c", "d", "e"]));
    assert_eq!(manager.get_remaining_count("clips", 0), 2);
    assert_eq!(manager.get_remaining_count("clips", 1), 0);
    assert_eq!(manager.get_remaining_count("other", 0), 1);
}

#[test]
fn a_draw_of_nothing_takes_nothing() {
    let mut manager = VideoPoolManager::new();
    manager.get_or_create_pool("clips", 0, names(&["a", "b"]));
    assert_eq!(manager.draw_videos("clips", 0, 0), Ok(vec![]));
    assert_eq!(manager.get_remaining_count("clips", 0), 2);
}

#[test]
fn a_draw_from_an_empty_directory_gives_nothing() {
    let mut manager = VideoPoolManager::new();
    manager.get_or_create_pool("clips", 0, vec![]);
    assert_eq!(manager.draw_videos("clips", 0, 3), Ok(vec![]));
}

#[test]
fn drawing_puts_the_clips_in_a_new_order() {
    let all: Vec<String> = (0..60).map(|i| format!("clip_{:02}.mp4", i)).collect();
    let mut manager = VideoPoolManager::new();
    manager.get_or_create_pool("clips", 0, all.clone());
    let drawn = manager.draw_videos("clips", 0, 60).unwrap();
    let mut sorted = drawn.clone();
    sorted.sort();
    assert_eq!(sorted, all);
    assert_ne!(drawn, all);
}

#[test]
fn the_front_of_a_pool_is_taken_in_order() {
    let mut pool = VideoPoolState::new(names(&["a", "b", "c"]));
    assert_eq!(pool.take_front(2), names(&["a", "b"]));
    assert_eq!(pool.remaining_videos, names(&["c"]));
    assert_eq!(pool.take_front(5), names(&["c"]));
    assert!(pool.remaining_videos.is_empty());
    pool.refill_if_empty();
    assert_eq!(pool.remaining_videos, names(&["a", "b", "c"]));
    pool.take_front(1);
    pool.refill_if_empty();
    assert_eq!(pool.remaining_videos, names(&["b", "c"]));
}

#[test]
fn a_pool_state_draws_without_replacement() {
    let mut pool = VideoPoolState::new(names(&["a", "b", "c", "d"]));
    let mut first = pool.draw(3);
    let second = pool.draw(3);
    assert_eq!(first.len(), 3);
    assert_eq!(second.len(), 1);
    first.extend(second);
    first.sort();
    assert_eq!(first, names(&["a", "b", "c", "d"]));
    let copy = pool.clone();
    assert_eq!(copy.all_videos, pool.all_videos);
    assert_eq!(copy.remaining_videos, pool.remaining_videos);
}

#[test]
fn paths_are_copied_one_for_one() {
    let paths = names(&["x/1.mp4", "x/2.mp4"]);
    assert_eq!(clone_paths(&paths), paths);
}

#[test]
fn the_key_names_directory_and_depth() {
    assert_eq!(VideoPoolManager::make_key("/videos/in", 3), "/videos/in::3");
    assert_eq!(VideoPoolManager::make_key("", 0), "::0");
    assert_eq!(VideoPoolManager::make_key("a::1", 20), "a::1::20");
}

#[test]
fn a_fixed_range_gives_its_count() {
    assert_eq!(pick_count(4, 4), 4);
    for _ in 0..200 {
        let count = pick_count(3, 7);
        assert!((3..=7).contains(&count));
    }
}

#[test]
fn a_round_reports_what_it_drew() {
    assert_eq!(
        report_draw(8, 5, 5, 0),
        DrawReport::Shortfall { desired: 8, available: 5 }
    );
    assert_eq!(report_draw(3, 5, 3, 2), DrawReport::Refilled { drawn: 3 });
    assert_eq!(report_draw(2, 5, 2, 1), DrawReport::Drawn { drawn: 2, remaining: 1 });
}

#[test]
fn rounds_never_take_more_than_the_directory_holds() {
    let mut manager = VideoPoolManager::new();
    manager.get_or_create_pool("clips", 0, names(&["a", "b", "c", "d", "e"]));
    let round = manager.draw_round("clips", 0, 8, 5).unwrap();
    assert_eq!(round.videos.len(), 5);
    assert_eq!(round.desired, 8);
    assert_eq!(round.report, DrawReport::Shortfall { desired: 8, available: 5 });
    let round = manager.draw_round("clips", 0, 3, 5).unwrap();
    assert_eq!(round.videos.len(), 3);
    assert_eq!(round.report, DrawReport::Refilled { drawn: 3 });
    let round = manager.draw_round("clips", 0, 1, 5).unwrap();
    assert_eq!(round.videos.len(), 1);
    assert_eq!(round.report, DrawReport::Drawn { drawn: 1, remaining: 1 });
    assert!(matches!(
        manager.draw_round("absent", 0, 1, 5),
        Err(PoolError::PoolNotInitialized)
    ));
}
