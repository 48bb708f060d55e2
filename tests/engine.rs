use zscene::{Action, BattleMap, BattleScreen, Boxed, Color, Fork, Leaf, Pos, Scene, Sequence};

const SEC: u64 = 1_000_000_000;
const HALF: u64 = 500_000_000;

fn sleep(d: u64) -> Action {
    Leaf::sleep(d).boxed()
}

#[test]
fn sequence_scenario_sleep_move_empty() {
    let mut seq = Sequence::new(vec![
        sleep(SEC),
        Leaf::move_by(3, -4, 2 * SEC).boxed(),
        Leaf::empty().boxed(),
    ])
    .boxed();
    assert_eq!(seq.duration(), 3 * SEC);
    seq.begin();
    for _ in 0..5 {
        seq.update(HALF);
        assert!(!seq.is_finished());
    }
    seq.update(HALF);
    assert!(seq.is_finished());
    assert_eq!(seq.duration(), 3 * SEC);
    seq.end();
}

fn forking_action() -> Action {
    Sequence::new(vec![
        sleep(SEC),
        Fork::new(sleep(5 * SEC)).boxed(),
        sleep(10 * SEC),
    ])
    .boxed()
}

#[test]
fn fork_scenario_two_roots() {
    let mut scene = Scene::new();
    scene.add_action(forking_action());
    scene.tick(HALF);
    assert_eq!(scene.active_count(), 1);
    scene.tick(HALF);
    assert_eq!(scene.active_count(), 2);
    scene.tick(HALF);
    assert_eq!(scene.active_count(), 2);
}

#[test]
fn fork_scenario_yields_on_second_update_only() {
    let mut a = forking_action();
    a.begin();
    a.update(HALF);
    assert!(a.try_fork().is_none());
    a.update(HALF);
    let f = a.try_fork();
    assert!(f.is_some());
    assert_eq!(f.unwrap().duration(), 5 * SEC);
    a.update(HALF);
    assert!(a.try_fork().is_none());
    assert!(!a.is_finished());
}

#[test]
fn sequence_duration_is_sum_of_children() {
    let inner = Sequence::new(vec![sleep(3 * SEC), Leaf::show_target().boxed()]).boxed();
    let mut seq = Sequence::new(vec![
        sleep(SEC),
        Leaf::move_by(1, 1, 2 * SEC).boxed(),
        Leaf::empty().boxed(),
        inner,
    ])
    .boxed();
    assert_eq!(seq.duration(), 6 * SEC);
    seq.begin();
    seq.update(SEC);
    seq.update(SEC);
    assert_eq!(seq.duration(), 6 * SEC);
}

#[test]
fn sequence_duration_ignores_forked_branch() {
    let seq = Sequence::new(vec![sleep(SEC), Fork::new(sleep(5 * SEC)).boxed()]).boxed();
    assert_eq!(seq.duration(), SEC);
}

#[test]
fn empty_sequence_is_finished_with_zero_duration() {
    let mut seq = Sequence::new(vec![]).boxed();
    assert_eq!(seq.duration(), 0);
    seq.begin();
    assert!(seq.is_finished());
    seq.update(SEC);
    assert!(seq.is_finished());
    assert!(seq.try_fork().is_none());
    seq.end();
}

#[test]
fn sequence_finishes_when_updates_reach_duration() {
    let mut seq = Sequence::new(vec![sleep(SEC), sleep(2 * SEC)]).boxed();
    seq.begin();
    seq.update(SEC);
    assert!(!seq.is_finished());
    seq.update(SEC);
    assert!(!seq.is_finished());
    seq.update(SEC);
    assert!(seq.is_finished());
}

#[test]
fn leftover_time_is_not_carried_to_next_action() {
    let mut seq = Sequence::new(vec![sleep(SEC), sleep(SEC)]).boxed();
    seq.begin();
    seq.update(2 * SEC);
    assert!(!seq.is_finished());
    seq.update(SEC);
    assert!(seq.is_finished());
}

#[test]
fn instant_run_completes_in_one_update() {
    let white = Color { r: 255, g: 255, b: 255, a: 255 };
    let mut seq = Sequence::new(vec![
        sleep(SEC),
        Leaf::set_color(white).boxed(),
        Leaf::show_target().boxed(),
        Leaf::hide_target().boxed(),
        Leaf::empty().boxed(),
        sleep(SEC),
    ])
    .boxed();
    seq.begin();
    seq.update(SEC);
    assert!(!seq.is_finished());
    seq.update(SEC);
    assert!(seq.is_finished());
}

#[test]
fn only_instants_finish_on_first_update() {
    let mut seq = Sequence::new(vec![
        Leaf::empty().boxed(),
        Leaf::show_target().boxed(),
        Leaf::empty().boxed(),
    ])
    .boxed();
    seq.begin();
    assert!(!seq.is_finished());
    seq.update(0);
    assert!(seq.is_finished());
    seq.end();
}

#[test]
fn leaf_clamps_at_its_duration() {
    let mut a = sleep(SEC);
    a.begin();
    a.update(HALF);
    assert!(!a.is_finished());
    a.update(5 * SEC);
    assert!(a.is_finished());
    assert!(a.try_fork().is_none());
    a.end();
}

#[test]
fn fork_yields_once_then_reports_finished() {
    let mut f = Fork::new(sleep(SEC)).boxed();
    assert_eq!(f.duration(), 0);
    f.begin();
    assert!(!f.is_finished());
    f.update(SEC);
    assert!(!f.is_finished());
    let first = f.try_fork();
    assert!(first.is_some());
    assert_eq!(first.unwrap().duration(), SEC);
    assert!(f.is_finished());
    assert!(f.try_fork().is_none());
    assert!(f.try_fork().is_none());
    f.end();
}

#[test]
fn sequence_advances_past_drained_fork_in_same_call() {
    let mut seq = Sequence::new(vec![Fork::new(sleep(SEC)).boxed(), sleep(SEC)]).boxed();
    seq.begin();
    assert!(seq.try_fork().is_some());
    assert!(seq.try_fork().is_none());
    seq.update(SEC);
    assert!(seq.is_finished());
}

#[test]
fn scene_tracks_unfinished_roots() {
    let mut scene = Scene::new();
    assert!(!scene.any_unfinished_actions());
    scene.add_action(sleep(SEC));
    scene.add_action(sleep(2 * SEC));
    assert!(scene.any_unfinished_actions());
    assert_eq!(scene.active_count(), 2);
    scene.tick(SEC);
    assert_eq!(scene.active_count(), 1);
    assert!(scene.any_unfinished_actions());
    scene.tick(SEC);
    assert_eq!(scene.active_count(), 0);
    assert!(!scene.any_unfinished_actions());
}

#[test]
fn scene_keeps_forked_root_after_parent_finishes() {
    let mut scene = Scene::new();
    let parent = Sequence::new(vec![Fork::new(sleep(3 * SEC)).boxed(), sleep(SEC)]).boxed();
    scene.add_action(parent);
    scene.tick(0);
    assert_eq!(scene.active_count(), 2);
    scene.tick(SEC);
    assert_eq!(scene.active_count(), 1);
    assert!(scene.any_unfinished_actions());
    scene.tick(2 * SEC);
    assert_eq!(scene.active_count(), 0);
    assert!(!scene.any_unfinished_actions());
}

#[test]
fn scene_finished_root_is_dropped_on_next_tick() {
    let mut scene = Scene::new();
    scene.add_action(Leaf::empty().boxed());
    assert_eq!(scene.active_count(), 1);
    assert!(!scene.any_unfinished_actions());
    scene.tick(0);
    assert_eq!(scene.active_count(), 0);
}

#[test]
fn move_by_offset_scales_with_elapsed_time() {
    let mut a = Leaf::move_by(10, -7, 4 * SEC).boxed();
    a.begin();
    assert_eq!(a.offset(), (0, 0));
    a.update(SEC);
    assert_eq!(a.offset(), (2, -1));
    a.update(SEC);
    assert_eq!(a.offset(), (5, -3));
    a.update(10 * SEC);
    assert_eq!(a.offset(), (10, -7));
}

#[test]
fn instant_move_by_has_full_offset() {
    let a = Leaf::move_by(3, 4, 0).boxed();
    assert_eq!(a.offset(), (3, 4));
    assert_eq!(sleep(SEC).offset(), (0, 0));
}

#[test]
fn battle_map_keeps_its_size() {
    let map = BattleMap::new(12, 8);
    assert_eq!(map.width(), 12);
    assert_eq!(map.height(), 8);
    let p = Pos { x: 3, y: 5 };
    assert_eq!(p, Pos { x: 3, y: 5 });
}

#[test]
fn battle_screen_waits_for_animations() {
    let mut screen = BattleScreen::new();
    assert!(!screen.is_animating());
    let walk = Sequence::new(vec![
        Leaf::move_by(1, 0, SEC).boxed(),
        Fork::new(sleep(2 * SEC)).boxed(),
        Leaf::move_by(1, 0, SEC).boxed(),
    ])
    .boxed();
    screen.add_action(walk);
    screen.update(SEC);
    assert!(screen.is_animating());
    screen.update(SEC);
    assert!(screen.is_animating());
    screen.update(SEC);
    assert!(!screen.is_animating());
}
