use droom_ball::game::{overlay_for, player_reached_goal, Overlay, Screen, Session, LEVEL_COUNT, STARTING_AMMO, STARTING_HEALTH};
use droom_ball::sprites::{new_enemy, EnemyKind};

#[test]
fn a_session_starts_on_the_welcome_screen() {
    let s = Session::new();
    assert_eq!(s.screen, Screen::Welcome);
    assert_eq!(s.selected_level, 0);
    assert_eq!(s.highest_unlocked_level, 0);
    assert_eq!(s.health, STARTING_HEALTH);
    assert_eq!(s.ammo, STARTING_AMMO);
    assert!(!s.mode_3d);
}

#[test]
fn level_selection_stays_within_unlocked_levels() {
    let mut s = Session::new();
    s.highest_unlocked_level = 1;
    assert!(!s.welcome_keys(false, true, false));
    assert_eq!(s.selected_level, 1);
    s.welcome_keys(false, true, false);
    assert_eq!(s.selected_level, 1);
    s.welcome_keys(true, false, false);
    assert_eq!(s.selected_level, 0);
    s.welcome_keys(true, false, false);
    assert_eq!(s.selected_level, 0);
    assert_eq!(s.screen, Screen::Welcome);
}

#[test]
fn enter_starts_the_selected_level_afresh() {
    let mut s = Session::new();
    s.health = 20;
    s.ammo = 0;
    s.exit_unlocked = true;
    assert!(s.welcome_keys(false, false, true));
    assert_eq!(s.screen, Screen::Playing);
    assert_eq!((s.health, s.ammo, s.exit_unlocked), (STARTING_HEALTH, STARTING_AMMO, false));
}

#[test]
fn winning_unlocks_the_next_level() {
    let mut s = Session::new();
    s.start_level();
    s.reach_goal();
    assert_eq!(s.screen, Screen::Success);
    assert_eq!(s.highest_unlocked_level, 1);
    s.success_keys(false);
    assert_eq!(s.screen, Screen::Success);
    s.success_keys(true);
    assert_eq!(s.screen, Screen::Welcome);
    s.selected_level = LEVEL_COUNT - 1;
    s.highest_unlocked_level = LEVEL_COUNT - 1;
    s.reach_goal();
    assert_eq!(s.highest_unlocked_level, LEVEL_COUNT - 1);
}

#[test]
fn shots_need_the_first_person_view_and_ammunition() {
    let mut s = Session::new();
    s.start_level();
    assert!(!s.fire(true));
    s.view_key(true);
    assert!(s.mode_3d);
    assert!(!s.fire(false));
    assert!(s.fire(true));
    assert_eq!(s.ammo, STARTING_AMMO - 1);
    s.ammo = 0;
    assert!(!s.fire(true));
    assert_eq!(s.ammo, 0);
}

#[test]
fn holding_the_view_key_switches_once() {
    let mut s = Session::new();
    s.view_key(true);
    s.view_key(true);
    assert!(s.mode_3d);
    s.view_key(false);
    s.view_key(true);
    assert!(!s.mode_3d);
}

#[test]
fn hits_take_ten_health_each_and_can_defeat() {
    let mut s = Session::new();
    s.start_level();
    s.take_hits(0);
    assert_eq!(s.health, 100);
    s.take_hits(3);
    assert_eq!(s.health, 70);
    assert_eq!(s.screen, Screen::Playing);
    s.take_hits(8);
    assert_eq!(s.health, 0);
    assert_eq!(s.screen, Screen::Defeat);
}

#[test]
fn defeat_screen_restarts_or_leaves() {
    let mut s = Session::new();
    s.screen = Screen::Defeat;
    s.health = 0;
    assert!(!s.defeat_keys(false, false));
    assert_eq!(s.screen, Screen::Defeat);
    assert!(s.defeat_keys(true, true));
    assert_eq!(s.screen, Screen::Playing);
    assert_eq!(s.health, STARTING_HEALTH);
    s.screen = Screen::Defeat;
    assert!(!s.defeat_keys(false, true));
    assert_eq!(s.screen, Screen::Welcome);
}

#[test]
fn the_goal_needs_no_enemies_left_and_the_exit_open() {
    let m: Vec<Vec<char>> = vec!["  g".chars().collect()];
    let mut dead = new_enemy(EnemyKind::Grunt);
    dead.active = false;
    let alive = new_enemy(EnemyKind::Brute);
    assert!(player_reached_goal(&m, 25, 5, 10, &vec![dead], true));
    assert!(!player_reached_goal(&m, 25, 5, 10, &vec![dead], false));
    assert!(!player_reached_goal(&m, 25, 5, 10, &vec![dead, alive], true));
    assert!(!player_reached_goal(&m, 15, 5, 10, &vec![], true));
    assert!(!player_reached_goal(&m, 25, 15, 10, &vec![], true));
}

#[test]
fn overlays_follow_the_screens() {
    let mut session = Session::new();
    session.highest_unlocked_level = 2;
    session.selected_level = 1;
    assert_eq!(overlay_for(Screen::Welcome, &session), Overlay::Welcome { highlighted: 1 });
    session.start_level();
    // the frame in which a level starts shows no title screen
    assert_eq!(overlay_for(Screen::Welcome, &session), Overlay::Nothing);
    assert_eq!(overlay_for(Screen::Playing, &session), Overlay::Nothing);
    assert_eq!(overlay_for(Screen::Success, &session), Overlay::Success { dragon: false });
    session.selected_level = 2;
    assert_eq!(overlay_for(Screen::Success, &session), Overlay::Success { dragon: true });
    assert_eq!(overlay_for(Screen::Defeat, &session), Overlay::Defeat);
}
