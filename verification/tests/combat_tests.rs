use droom_ball::combat::{
    can_move_to, collect_pickups, interact_with_level, player_can_move_to, spawn_enemies,
    spawn_pickups, Pickup, PickupKind, SpawnPoint, MAX_AMMO,
};
use droom_ball::game::STARTING_AMMO;
use droom_ball::sprites::{count_active, new_enemy, register_hit, all_defeated, EnemyKind};

fn maze(rows: &[&str]) -> Vec<Vec<char>> {
    rows.iter().map(|row| row.chars().collect()).collect()
}

fn sample_maze() -> Vec<Vec<char>> {
    maze(&["#####", "#p  #", "# # #", "#  g#", "#####"])
}

fn cell(x: usize, y: usize) -> SpawnPoint {
    SpawnPoint::Cell(x, y)
}

#[test]
fn first_level_has_two_grunts_spread_over_the_cells() {
    let spawns = spawn_enemies(0, &sample_maze());
    assert_eq!(spawns.len(), 2);
    assert_eq!(spawns[0].at, cell(1, 2));
    assert_eq!(spawns[1].at, cell(3, 2));
    assert!(spawns.iter().all(|s| s.enemy.kind == EnemyKind::Grunt));
    assert!(spawns.iter().all(|s| s.enemy.active && s.enemy.health == 3 && s.enemy.texture == 'e'));
}

#[test]
fn second_level_alternates_grunts_and_brutes() {
    let spawns = spawn_enemies(1, &sample_maze());
    let places: Vec<SpawnPoint> = spawns.iter().map(|s| s.at).collect();
    assert_eq!(places, vec![cell(2, 1), cell(3, 1), cell(1, 3), cell(2, 3)]);
    let kinds: Vec<EnemyKind> = spawns.iter().map(|s| s.enemy.kind).collect();
    assert_eq!(kinds, vec![EnemyKind::Grunt, EnemyKind::Brute, EnemyKind::Grunt, EnemyKind::Brute]);
    assert_eq!(spawns[1].enemy.health, 5);
    assert_eq!(spawns[1].enemy.texture, 'b');
}

#[test]
fn third_level_has_six_enemies() {
    let spawns = spawn_enemies(2, &sample_maze());
    let places: Vec<SpawnPoint> = spawns.iter().map(|s| s.at).collect();
    assert_eq!(
        places,
        vec![cell(2, 1), cell(1, 2), cell(3, 1), cell(1, 3), cell(3, 2), cell(2, 3)]
    );
    let total: i32 = spawns.iter().map(|s| s.enemy.health).sum();
    assert_eq!(total, 24);
}

#[test]
fn enemies_without_reachable_cells_use_fixed_places() {
    let no_start = maze(&["   "]);
    let first = spawn_enemies(0, &no_start);
    assert_eq!(first.len(), 2);
    assert_eq!(first[0].at, SpawnPoint::At(300, 75));
    assert_eq!(first[0].enemy.kind, EnemyKind::Grunt);
    assert_eq!(first[1].at, SpawnPoint::At(500, 75));
    assert_eq!(first[1].enemy.kind, EnemyKind::Brute);
    let second = spawn_enemies(1, &no_start);
    let places: Vec<SpawnPoint> = second.iter().map(|s| s.at).collect();
    assert_eq!(places, vec![SpawnPoint::At(250, 75), SpawnPoint::At(425, 75), SpawnPoint::At(550, 75)]);
    assert!(spawn_enemies(2, &no_start).is_empty());
}

#[test]
fn first_level_pickups() {
    let pickups = spawn_pickups(0, &sample_maze());
    let places: Vec<SpawnPoint> = pickups.iter().map(|p| p.at).collect();
    assert_eq!(
        places,
        vec![
            cell(1, 1), cell(2, 1), cell(1, 2), cell(1, 2),
            cell(3, 1), cell(1, 3), cell(3, 2), cell(3, 2), cell(2, 3),
            cell(2, 3),
        ]
    );
    let kinds: Vec<PickupKind> = pickups.iter().map(|p| p.kind).collect();
    let mut expected = vec![PickupKind::Health; 4];
    expected.extend(vec![PickupKind::Ammo; 5]);
    expected.push(PickupKind::Switch);
    assert_eq!(kinds, expected);
    assert!(pickups.iter().all(|p| p.active));
}

#[test]
fn third_level_pickups_leave_six_spare_shots() {
    let pickups = spawn_pickups(2, &sample_maze());
    let places: Vec<SpawnPoint> = pickups.iter().map(|p| p.at).collect();
    assert_eq!(
        places,
        vec![cell(2, 1), cell(1, 2), cell(3, 1), cell(1, 3), cell(3, 2), cell(2, 3), cell(2, 3)]
    );
    let ammo_boxes = pickups.iter().filter(|p| p.kind == PickupKind::Ammo).count() as i32;
    assert_eq!(ammo_boxes, 4);
    let enemy_health: i32 = spawn_enemies(2, &sample_maze()).iter().map(|s| s.enemy.health).sum();
    assert_eq!(STARTING_AMMO + 6 * ammo_boxes, enemy_health + 6);
}

#[test]
fn pickups_without_reachable_cells_use_fixed_places() {
    let no_start = maze(&["   "]);
    let first = spawn_pickups(0, &no_start);
    assert_eq!(
        first,
        vec![
            Pickup { at: SpawnPoint::At(175, 75), kind: PickupKind::Ammo, active: true },
            Pickup { at: SpawnPoint::At(350, 75), kind: PickupKind::Health, active: true },
            Pickup { at: SpawnPoint::At(425, 75), kind: PickupKind::Switch, active: true },
        ]
    );
    assert_eq!(spawn_pickups(1, &no_start).len(), 4);
    assert_eq!(spawn_pickups(1, &no_start)[3].at, SpawnPoint::At(450, 75));
    assert!(spawn_pickups(5, &no_start).is_empty());
}

fn pickup(kind: PickupKind, active: bool) -> Pickup {
    Pickup { at: SpawnPoint::At(0, 0), kind, active }
}

#[test]
fn health_pickup_heals_up_to_one_hundred() {
    let mut pickups = vec![pickup(PickupKind::Health, true)];
    let (mut health, mut ammo) = (90, 3);
    let taken = collect_pickups(&mut pickups, &vec![true], &mut health, &mut ammo);
    assert_eq!(taken, Some(PickupKind::Health));
    assert_eq!(health, 100);
    assert_eq!(ammo, 3);
    assert!(!pickups[0].active);

    let mut pickups = vec![pickup(PickupKind::Health, true)];
    let mut health = 40;
    collect_pickups(&mut pickups, &vec![true], &mut health, &mut ammo);
    assert_eq!(health, 65);
}

#[test]
fn ammo_pickup_reloads_up_to_the_maximum() {
    let mut pickups = vec![pickup(PickupKind::Ammo, true)];
    let (mut health, mut ammo) = (50, 4);
    assert_eq!(collect_pickups(&mut pickups, &vec![true], &mut health, &mut ammo), Some(PickupKind::Ammo));
    assert_eq!(ammo, 10);
    let mut pickups = vec![pickup(PickupKind::Ammo, true)];
    collect_pickups(&mut pickups, &vec![true], &mut health, &mut ammo);
    assert_eq!(ammo, MAX_AMMO);
    assert_eq!(health, 50);
}

#[test]
fn only_the_first_pickup_in_reach_is_taken() {
    let mut pickups = vec![
        pickup(PickupKind::Health, true),
        pickup(PickupKind::Switch, true),
        pickup(PickupKind::Health, false),
        pickup(PickupKind::Ammo, true),
        pickup(PickupKind::Health, true),
    ];
    let near = vec![false, true, true, true, true];
    let (mut health, mut ammo) = (10, 0);
    assert_eq!(collect_pickups(&mut pickups, &near, &mut health, &mut ammo), Some(PickupKind::Ammo));
    assert_eq!(ammo, 6);
    assert_eq!(health, 10);
    let active: Vec<bool> = pickups.iter().map(|p| p.active).collect();
    assert_eq!(active, vec![true, true, false, false, true]);
}

#[test]
fn nothing_in_reach_changes_nothing() {
    let mut pickups = vec![pickup(PickupKind::Switch, true), pickup(PickupKind::Health, true)];
    let before = pickups.clone();
    let (mut health, mut ammo) = (10, 1);
    assert_eq!(collect_pickups(&mut pickups, &vec![true, false], &mut health, &mut ammo), None);
    assert_eq!(pickups, before);
    assert_eq!((health, ammo), (10, 1));
}

#[test]
fn a_switch_in_reach_unlocks_the_exit() {
    let mut pickups = vec![pickup(PickupKind::Health, true), pickup(PickupKind::Switch, true)];
    let mut exit_unlocked = false;
    assert!(interact_with_level(&mut pickups, &vec![true, true], &mut exit_unlocked));
    assert!(exit_unlocked);
    assert!(pickups[0].active);
    assert!(!pickups[1].active);
    // a spent switch cannot be used again
    let mut again = false;
    assert!(!interact_with_level(&mut pickups, &vec![true, true], &mut again));
    assert!(!again);
}

#[test]
fn a_switch_out_of_reach_does_nothing() {
    let mut pickups = vec![pickup(PickupKind::Switch, true)];
    let mut exit_unlocked = false;
    assert!(!interact_with_level(&mut pickups, &vec![false], &mut exit_unlocked));
    assert!(!exit_unlocked);
    assert!(pickups[0].active);
}

#[test]
fn enemies_move_on_open_cells_only() {
    let m = sample_maze();
    // cells are 10 units wide
    assert!(can_move_to(&m, 15, 15, 10)); // the start
    assert!(can_move_to(&m, 39, 35, 10)); // the goal
    assert!(can_move_to(&m, 25, 12, 10)); // floor
    assert!(!can_move_to(&m, 5, 15, 10)); // wall
    assert!(!can_move_to(&m, 55, 15, 10)); // outside
    assert!(!can_move_to(&m, 15, 500, 10));
}

#[test]
fn the_player_moves_on_floor_only() {
    let m = sample_maze();
    assert!(player_can_move_to(&m, 25, 12, 10));
    assert!(!player_can_move_to(&m, 15, 15, 10)); // the start is not floor
    assert!(!player_can_move_to(&m, 35, 35, 10)); // nor is the goal
    assert!(!player_can_move_to(&m, 5, 5, 10));
    assert!(!player_can_move_to(&m, 100, 5, 10));
}

#[test]
fn hits_take_health_and_end_enemies() {
    let mut grunt = new_enemy(EnemyKind::Grunt);
    register_hit(&mut grunt);
    register_hit(&mut grunt);
    assert!(grunt.active);
    assert_eq!(grunt.health, 1);
    register_hit(&mut grunt);
    assert!(!grunt.active);
    assert_eq!(grunt.health, 0);
    let brute = new_enemy(EnemyKind::Brute);
    assert_eq!((brute.health, brute.texture), (5, 'b'));
    assert_eq!(count_active(&vec![grunt, brute, brute]), 2);
    assert!(!all_defeated(&vec![grunt, brute]));
    assert!(all_defeated(&vec![grunt]));
    assert!(all_defeated(&Vec::new()));
}

#[test]
fn a_brute_takes_five_hits() {
    let mut brute = new_enemy(EnemyKind::Brute);
    for _ in 0..4 {
        register_hit(&mut brute);
        assert!(brute.active);
    }
    assert_eq!(brute.health, 1);
    register_hit(&mut brute);
    assert!(!brute.active);
    assert_eq!((brute.health, brute.texture, brute.kind), (0, 'b', EnemyKind::Brute));
}
