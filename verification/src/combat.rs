//! Where enemies and pickups are placed, and what picking up, using a switch
//! and moving through the maze do.
use vstd::prelude::*;
use crate::grid::{as_cells, grid, grid_facts, lemma_grid, open_cell, Maze};
use crate::bfs::bfs_order;
use crate::level::{contains_char, first_with, is_walkable_cell, reachable_cells};
use crate::sprites::{new_enemy, spec_new_enemy, Enemy, EnemyKind};

verus! {

/// The most ammunition the player can carry.
pub const MAX_AMMO: i32 = 12;

/// The kinds of pickup.
#[derive(Clone, Copy, PartialEq, Eq, Debug, Structural)]
pub enum PickupKind {
    Health,
    Ammo,
    Switch,
}

/// Where something is placed: the centre of a maze cell, or fixed world
/// coordinates.
#[derive(Clone, Copy, PartialEq, Eq, Debug, Structural)]
pub enum SpawnPoint {
    Cell(usize, usize),
    At(u32, u32),
}

/// A pickup: where it lies, what it gives, and whether it is still there.
#[derive(Clone, Copy, PartialEq, Eq, Debug, Structural)]
pub struct Pickup {
    pub at: SpawnPoint,
    pub kind: PickupKind,
    pub active: bool,
}

/// An enemy and where it appears.
#[derive(Clone, Copy, PartialEq, Eq, Debug, Structural)]
pub struct EnemySpawn {
    pub at: SpawnPoint,
    pub enemy: Enemy,
}

/// The cells from which enemies and pickups are placed: those reachable
/// from the start, in breadth-first order.
pub open spec fn spawn_cells(g: Seq<Seq<char>>) -> Seq<(int, int)> {
    if contains_char(g, 'p') {
        bfs_order(g, first_with(g, 'p'))
    } else {
        Seq::empty()
    }
}

/// The centre of cell `c`.
pub open spec fn cell_point(c: (int, int)) -> SpawnPoint {
    SpawnPoint::Cell(c.0 as usize, c.1 as usize)
}

/// The position `len * num / den` of a list spread evenly.
pub open spec fn spread(len: int, num: int, den: int) -> int {
    len * num / den
}

fn spread_index(len: usize, num: usize, den: usize) -> (k: usize)
    requires
        0 < len,
        num < den,
        den <= 16,
    ensures
        k as int == spread(len as int, num as int, den as int),
        k < len,
{
    let ghost l = len as int;
    let ghost n = num as int;
    let ghost d = den as int;
    assert(l * n <= l * 16) by (nonlinear_arith)
        requires
            0 <= l,
            0 <= n < 16,
    ;
    assert(l * n / d < l) by (nonlinear_arith)
        requires
            0 < l,
            0 <= n < d,
    ;
    assert(l * n / d >= 0) by (nonlinear_arith)
        requires
            0 < l,
            0 <= n < d,
    ;
    let p: u128 = (len as u128) * (num as u128);
    let q: u128 = p / (den as u128);
    q as usize
}

/// How many enemies a level has.
pub open spec fn enemy_count(level: int) -> int {
    if level == 0 {
        2
    } else if level == 1 {
        4
    } else {
        6
    }
}

/// The kind of the `index`-th enemy of a level: from the second level on,
/// every second enemy is a brute.
pub open spec fn enemy_kind_for(level: int, index: int) -> EnemyKind {
    if level > 0 && index % 2 == 1 {
        EnemyKind::Brute
    } else {
        EnemyKind::Grunt
    }
}

/// The enemies of a level that has no reachable cells.
pub open spec fn fallback_enemies(level: int) -> Seq<EnemySpawn> {
    if level == 0 {
        seq![
            EnemySpawn { at: SpawnPoint::At(300, 75), enemy: spec_new_enemy(EnemyKind::Grunt) },
            EnemySpawn { at: SpawnPoint::At(500, 75), enemy: spec_new_enemy(EnemyKind::Brute) },
        ]
    } else if level == 1 {
        seq![
            EnemySpawn { at: SpawnPoint::At(250, 75), enemy: spec_new_enemy(EnemyKind::Grunt) },
            EnemySpawn { at: SpawnPoint::At(425, 75), enemy: spec_new_enemy(EnemyKind::Grunt) },
            EnemySpawn { at: SpawnPoint::At(550, 75), enemy: spec_new_enemy(EnemyKind::Brute) },
        ]
    } else {
        Seq::empty()
    }
}

/// The enemies of a level: spread evenly over the reachable cells (the
/// `i`-th at position `len * (i + 1) / (count + 1)`), or at fixed places when
/// no cell is reachable.
pub open spec fn level_enemies(level: int, cells: Seq<(int, int)>) -> Seq<EnemySpawn> {
    if cells.len() > 0 {
        Seq::new(
            enemy_count(level) as nat,
            |i: int|
                EnemySpawn {
                    at: cell_point(cells[spread(cells.len() as int, i + 1, enemy_count(level) + 1)]),
                    enemy: spec_new_enemy(enemy_kind_for(level, i)),
                },
        )
    } else {
        fallback_enemies(level)
    }
}

/// Places the enemies of a level.
pub fn spawn_enemies(level: usize, maze: &Maze) -> (spawns: Vec<EnemySpawn>)
    ensures
        spawns@ == level_enemies(level as int, spawn_cells(grid(maze))),
{
    let cells = reachable_cells(maze);
    let ghost cs = as_cells(cells@);
    assert(cs == spawn_cells(grid(maze)));
    if cells.len() > 0 {
        let count: usize = if level == 0 {
            2
        } else if level == 1 {
            4
        } else {
            6
        };
        let mut spawns: Vec<EnemySpawn> = Vec::new();
        let mut index: usize = 0;
        while index < count
            invariant
                cs == as_cells(cells@),
                cells@.len() > 0,
                count as int == enemy_count(level as int),
                0 <= index <= count,
                spawns@.len() == index,
                forall|i: int|
                    0 <= i < index ==> #[trigger] spawns@[i] == level_enemies(level as int, cs)[i],
            decreases count - index,
        {
            let k = spread_index(cells.len(), index + 1, count + 1);
            let kind = if level > 0 && index % 2 == 1 {
                EnemyKind::Brute
            } else {
                EnemyKind::Grunt
            };
            let cell = cells[k];
            let spawn = EnemySpawn { at: SpawnPoint::Cell(cell.0, cell.1), enemy: new_enemy(kind) };
            proof {
                assert(cs[k as int] == (cell.0 as int, cell.1 as int));
            }
            spawns.push(spawn);
            index += 1;
        }
        proof {
            assert(spawns@ =~= level_enemies(level as int, cs));
        }
        spawns
    } else {
        let mut spawns: Vec<EnemySpawn> = Vec::new();
        if level == 0 {
            spawns.push(EnemySpawn { at: SpawnPoint::At(300, 75), enemy: new_enemy(EnemyKind::Grunt) });
            spawns.push(EnemySpawn { at: SpawnPoint::At(500, 75), enemy: new_enemy(EnemyKind::Brute) });
        } else if level == 1 {
            spawns.push(EnemySpawn { at: SpawnPoint::At(250, 75), enemy: new_enemy(EnemyKind::Grunt) });
            spawns.push(EnemySpawn { at: SpawnPoint::At(425, 75), enemy: new_enemy(EnemyKind::Grunt) });
            spawns.push(EnemySpawn { at: SpawnPoint::At(550, 75), enemy: new_enemy(EnemyKind::Brute) });
        }
        proof {
            assert(spawns@ =~= fallback_enemies(level as int));
        }
        spawns
    }
}

/// How many health and ammunition pickups a level has: early levels are
/// generous while the player learns.
pub open spec fn pickup_counts(level: int) -> (int, int) {
    if level == 0 {
        (4, 5)
    } else if level == 1 {
        (3, 4)
    } else {
        (2, 4)
    }
}

/// The `i`-th pickup of a level with reachable cells `cells`: first the
/// health pickups, then the ammunition, spread evenly over the cells, then
/// the switch four fifths along.
pub open spec fn level_pickup(level: int, cells: Seq<(int, int)>, i: int) -> Pickup {
    let (health, ammo) = pickup_counts(level);
    let regular = health + ammo;
    if i < regular {
        Pickup {
            at: cell_point(cells[spread(cells.len() as int, i + 1, regular + 2)]),
            kind: if i < health {
                PickupKind::Health
            } else {
                PickupKind::Ammo
            },
            active: true,
        }
    } else {
        Pickup { at: cell_point(cells[spread(cells.len() as int, 4, 5)]), kind: PickupKind::Switch, active: true }
    }
}

/// The pickups of a level that has no reachable cells.
pub open spec fn fallback_pickups(level: int) -> Seq<Pickup> {
    if level == 0 {
        seq![
            Pickup { at: SpawnPoint::At(175, 75), kind: PickupKind::Ammo, active: true },
            Pickup { at: SpawnPoint::At(350, 75), kind: PickupKind::Health, active: true },
            Pickup { at: SpawnPoint::At(425, 75), kind: PickupKind::Switch, active: true },
        ]
    } else if level == 1 {
        seq![
            Pickup { at: SpawnPoint::At(150, 75), kind: PickupKind::Health, active: true },
            Pickup { at: SpawnPoint::At(350, 75), kind: PickupKind::Ammo, active: true },
            Pickup { at: SpawnPoint::At(500, 75), kind: PickupKind::Ammo, active: true },
            Pickup { at: SpawnPoint::At(450, 75), kind: PickupKind::Switch, active: true },
        ]
    } else {
        Seq::empty()
    }
}

/// The pickups of a level.
pub open spec fn level_pickups(level: int, cells: Seq<(int, int)>) -> Seq<Pickup> {
    if cells.len() > 0 {
        Seq::new(
            (pickup_counts(level).0 + pickup_counts(level).1 + 1) as nat,
            |i: int| level_pickup(level, cells, i),
        )
    } else {
        fallback_pickups(level)
    }
}

/// Places the pickups of a level.
pub fn spawn_pickups(level: usize, maze: &Maze) -> (pickups: Vec<Pickup>)
    ensures
        pickups@ == level_pickups(level as int, spawn_cells(grid(maze))),
{
    let cells = reachable_cells(maze);
    let ghost cs = as_cells(cells@);
    assert(cs == spawn_cells(grid(maze)));
    if cells.len() > 0 {
        let (health_count, ammo_count): (usize, usize) = if level == 0 {
            (4, 5)
        } else if level == 1 {
            (3, 4)
        } else {
            (2, 4)
        };
        let regular = health_count + ammo_count;
        let mut pickups: Vec<Pickup> = Vec::new();
        let mut index: usize = 0;
        while index < health_count
            invariant
                cs == as_cells(cells@),
                cells@.len() > 0,
                (health_count as int, ammo_count as int) == pickup_counts(level as int),
                regular == health_count + ammo_count,
                0 <= index <= health_count,
                pickups@.len() == index,
                forall|i: int| 0 <= i < index ==> #[trigger] pickups@[i] == level_pickup(level as int, cs, i),
            decreases health_count - index,
        {
            let k = spread_index(cells.len(), index + 1, regular + 2);
            let cell = cells[k];
            proof {
                assert(cs[k as int] == (cell.0 as int, cell.1 as int));
            }
            pickups.push(Pickup { at: SpawnPoint::Cell(cell.0, cell.1), kind: PickupKind::Health, active: true });
            index += 1;
        }
        let mut index: usize = 0;
        while index < ammo_count
            invariant
                cs == as_cells(cells@),
                cells@.len() > 0,
                (health_count as int, ammo_count as int) == pickup_counts(level as int),
                regular == health_count + ammo_count,
                0 <= index <= ammo_count,
                pickups@.len() == health_count + index,
                forall|i: int|
                    0 <= i < health_count + index ==> #[trigger] pickups@[i] == level_pickup(level as int, cs, i),
            decreases ammo_count - index,
        {
            let k = spread_index(cells.len(), health_count + index + 1, regular + 2);
            let cell = cells[k];
            proof {
                assert(cs[k as int] == (cell.0 as int, cell.1 as int));
            }
            pickups.push(Pickup { at: SpawnPoint::Cell(cell.0, cell.1), kind: PickupKind::Ammo, active: true });
            index += 1;
        }
        let k = spread_index(cells.len(), 4, 5);
        let cell = cells[k];
        proof {
            assert(cs[k as int] == (cell.0 as int, cell.1 as int));
        }
        pickups.push(Pickup { at: SpawnPoint::Cell(cell.0, cell.1), kind: PickupKind::Switch, active: true });
        proof {
            assert(pickups@ =~= level_pickups(level as int, cs));
        }
        pickups
    } else {
        let mut pickups: Vec<Pickup> = Vec::new();
        if level == 0 {
            pickups.push(Pickup { at: SpawnPoint::At(175, 75), kind: PickupKind::Ammo, active: true });
            pickups.push(Pickup { at: SpawnPoint::At(350, 75), kind: PickupKind::Health, active: true });
            pickups.push(Pickup { at: SpawnPoint::At(425, 75), kind: PickupKind::Switch, active: true });
        } else if level == 1 {
            pickups.push(Pickup { at: SpawnPoint::At(150, 75), kind: PickupKind::Health, active: true });
            pickups.push(Pickup { at: SpawnPoint::At(350, 75), kind: PickupKind::Ammo, active: true });
            pickups.push(Pickup { at: SpawnPoint::At(500, 75), kind: PickupKind::Ammo, active: true });
            pickups.push(Pickup { at: SpawnPoint::At(450, 75), kind: PickupKind::Switch, active: true });
        }
        proof {
            assert(pickups@ =~= fallback_pickups(level as int));
        }
        pickups
    }
}

/// A pickup the player can take now: still there, within reach, and not the
/// switch (which is used, not picked up).
pub open spec fn collectable(p: Pickup, near: bool) -> bool {
    p.active && near && p.kind != PickupKind::Switch
}

/// Position `i` holds the first pickup the player can take now.
pub open spec fn is_first_collectable(pickups: Seq<Pickup>, near: Seq<bool>, i: int) -> bool {
    &&& 0 <= i < pickups.len()
    &&& collectable(pickups[i], near[i])
    &&& forall|k: int| 0 <= k < i ==> !collectable(#[trigger] pickups[k], near[k])
}

/// Health after a health pickup: 25 more, at most 100.
pub open spec fn healed(health: int) -> int {
    if health + 25 <= 100 {
        health + 25
    } else {
        100
    }
}

/// Ammunition after an ammunition pickup: 6 more, at most `MAX_AMMO`.
pub open spec fn reloaded(ammo: int) -> int {
    if ammo + 6 <= MAX_AMMO {
        ammo + 6
    } else {
        MAX_AMMO as int
    }
}

/// The player takes the first pickup within reach (`near[i]` tells whether
/// pickup `i` is): a health pickup heals, an ammunition pickup reloads, and
/// the pickup is gone. Returns what was taken; `None` leaves everything as it
/// was. No pickup comes back, and none changes but by going.
pub fn collect_pickups(pickups: &mut Vec<Pickup>, near: &Vec<bool>, health: &mut i32, ammo: &mut i32) -> (taken:
    Option<PickupKind>)
    requires
        near@.len() == old(pickups)@.len(),
    ensures
        final(pickups)@.len() == old(pickups)@.len(),
        forall|j: int|
            0 <= j < old(pickups)@.len() ==> #[trigger] final(pickups)@[j] == old(pickups)@[j] || final(pickups)@[j]
                == (Pickup { active: false, ..old(pickups)@[j] }),
        match taken {
            None => {
                &&& forall|i: int| 0 <= i < old(pickups)@.len() ==> !collectable(#[trigger] old(pickups)@[i], near@[i])
                &&& final(pickups)@ == old(pickups)@
                &&& *final(health) == *old(health)
                &&& *final(ammo) == *old(ammo)
            },
            Some(kind) => exists|i: int|
                {
                    &&& #[trigger] is_first_collectable(old(pickups)@, near@, i)
                    &&& kind == old(pickups)@[i].kind
                    &&& final(pickups)@ == old(pickups)@.update(i, Pickup { active: false, ..old(pickups)@[i] })
                    &&& *final(health) == if kind == PickupKind::Health {
                        healed(*old(health) as int)
                    } else {
                        *old(health) as int
                    }
                    &&& *final(ammo) == if kind == PickupKind::Ammo {
                        reloaded(*old(ammo) as int)
                    } else {
                        *old(ammo) as int
                    }
                },
        },
{
    let mut i: usize = 0;
    while i < pickups.len()
        invariant
            near@.len() == pickups@.len(),
            pickups@ == old(pickups)@,
            *health == *old(health),
            *ammo == *old(ammo),
            0 <= i <= pickups@.len(),
            forall|k: int| 0 <= k < i ==> !collectable(#[trigger] pickups@[k], near@[k]),
        decreases pickups@.len() - i,
    {
        let p = pickups[i];
        if p.active && near[i] {
            match p.kind {
                PickupKind::Health => {
                    *health = if *health <= 75 {
                        *health + 25
                    } else {
                        100
                    };
                },
                PickupKind::Ammo => {
                    *ammo = if *ammo <= 6 {
                        *ammo + 6
                    } else {
                        MAX_AMMO
                    };
                },
                PickupKind::Switch => {
                    i += 1;
                    continue;
                },
            }
            pickups.set(i, Pickup { active: false, ..p });
            proof {
                assert(is_first_collectable(old(pickups)@, near@, i as int));
            }
            return Some(p.kind);
        }
        i += 1;
    }
    None
}

/// Position `i` holds the first switch still there and within reach.
pub open spec fn is_first_usable_switch(pickups: Seq<Pickup>, near: Seq<bool>, i: int) -> bool {
    &&& 0 <= i < pickups.len()
    &&& pickups[i].kind == PickupKind::Switch && pickups[i].active && near[i]
    &&& forall|k: int|
        0 <= k < i ==> !(#[trigger] pickups[k].kind == PickupKind::Switch && pickups[k].active && near[k])
}

/// The player uses the first switch within reach (`near[i]` tells whether
/// pickup `i` is): the switch is spent and the exit unlocks. Returns whether
/// a switch was used; when none was, everything is left as it was. No pickup
/// comes back, and none changes but by going.
pub fn interact_with_level(pickups: &mut Vec<Pickup>, near: &Vec<bool>, exit_unlocked: &mut bool) -> (used: bool)
    requires
        near@.len() == old(pickups)@.len(),
    ensures
        final(pickups)@.len() == old(pickups)@.len(),
        forall|j: int|
            0 <= j < old(pickups)@.len() ==> #[trigger] final(pickups)@[j] == old(pickups)@[j] || final(pickups)@[j]
                == (Pickup { active: false, ..old(pickups)@[j] }),
        used ==> exists|i: int|
            {
                &&& #[trigger] is_first_usable_switch(old(pickups)@, near@, i)
                &&& final(pickups)@ == old(pickups)@.update(i, Pickup { active: false, ..old(pickups)@[i] })
                &&& *final(exit_unlocked)
            },
        !used ==> {
            &&& forall|i: int|
                0 <= i < old(pickups)@.len() ==> !(#[trigger] old(pickups)@[i].kind == PickupKind::Switch
                    && old(pickups)@[i].active && near@[i])
            &&& final(pickups)@ == old(pickups)@
            &&& *final(exit_unlocked) == *old(exit_unlocked)
        },
{
    let mut i: usize = 0;
    while i < pickups.len()
        invariant
            near@.len() == pickups@.len(),
            pickups@ == old(pickups)@,
            *exit_unlocked == *old(exit_unlocked),
            0 <= i <= pickups@.len(),
            forall|k: int|
                0 <= k < i ==> !(#[trigger] pickups@[k].kind == PickupKind::Switch && pickups@[k].active
                    && near@[k]),
        decreases pickups@.len() - i,
    {
        let p = pickups[i];
        if p.kind == PickupKind::Switch && p.active && near[i] {
            pickups.set(i, Pickup { active: false, ..p });
            *exit_unlocked = true;
            proof {
                assert(is_first_usable_switch(old(pickups)@, near@, i as int));
            }
            return true;
        }
        i += 1;
    }
    false
}

/// The cell under world point `(x, y)` (already rounded down to whole
/// units), for cells `block_size` units wide.
pub open spec fn cell_under(x: int, y: int, block_size: int) -> (int, int) {
    (x / block_size, y / block_size)
}

/// Whether an enemy or a projectile can stand at world point `(x, y)`
/// (rounded down to whole units): the cell there is open.
pub fn can_move_to(maze: &Maze, x: usize, y: usize, block_size: usize) -> (ok: bool)
    requires
        block_size > 0,
    ensures
        ok == open_cell(grid(maze), cell_under(x as int, y as int, block_size as int)),
{
    proof {
        lemma_grid(maze);
    }
    let column = x / block_size;
    let row = y / block_size;
    row < maze.len() && column < maze[row].len() && is_walkable_cell(maze[row][column])
}

/// Whether the player can step onto world point `(x, y)` (rounded down to
/// whole units): the cell there is open floor, not the start nor the goal.
pub fn player_can_move_to(maze: &Maze, x: usize, y: usize, block_size: usize) -> (ok: bool)
    requires
        block_size > 0,
    ensures
        ok == ({
            let c = cell_under(x as int, y as int, block_size as int);
            crate::grid::in_grid(grid(maze), c) && crate::grid::cell_char(grid(maze), c) == ' '
        }),
{
    proof {
        lemma_grid(maze);
    }
    let column = x / block_size;
    let row = y / block_size;
    row < maze.len() && column < maze[row].len() && maze[row][column] == ' '
}

/// The total health of a list of enemies.
pub open spec fn total_health(spawns: Seq<EnemySpawn>) -> int
    decreases spawns.len(),
{
    if spawns.len() == 0 {
        0
    } else {
        total_health(spawns.drop_last()) + spawns.last().enemy.health
    }
}

/// The number of pickups of a kind.
pub open spec fn count_kind(pickups: Seq<Pickup>, kind: PickupKind) -> nat
    decreases pickups.len(),
{
    if pickups.len() == 0 {
        0
    } else {
        count_kind(pickups.drop_last(), kind) + if pickups.last().kind == kind {
            1nat
        } else {
            0nat
        }
    }
}

/// The ammunition pickups among the first `k` pickups of a level with
/// reachable cells: those past the health pickups, up to their number.
proof fn lemma_ammo_prefix(level: int, cells: Seq<(int, int)>, k: int)
    requires
        cells.len() > 0,
        0 <= k <= level_pickups(level, cells).len(),
    ensures
        count_kind(level_pickups(level, cells).take(k), PickupKind::Ammo) == (if k <= pickup_counts(level).0 {
            0
        } else if k <= pickup_counts(level).0 + pickup_counts(level).1 {
            k - pickup_counts(level).0
        } else {
            pickup_counts(level).1
        }),
    decreases k,
{
    let p = level_pickups(level, cells);
    if k == 0 {
        assert(p.take(0) =~= Seq::<Pickup>::empty());
    } else {
        lemma_ammo_prefix(level, cells, k - 1);
        assert(p.take(k).drop_last() =~= p.take(k - 1));
        assert(p.take(k).last() == level_pickup(level, cells, k - 1));
    }
}

/// The health of the first `k` enemies of a level with reachable cells: three
/// per grunt, five per brute, brutes being every second enemy from the second
/// level on.
proof fn lemma_health_prefix(level: int, cells: Seq<(int, int)>, k: int)
    requires
        cells.len() > 0,
        0 <= k <= level_enemies(level, cells).len(),
    ensures
        total_health(level_enemies(level, cells).take(k)) == (if level > 0 {
            3 * ((k + 1) / 2) + 5 * (k / 2)
        } else {
            3 * k
        }),
    decreases k,
{
    let e = level_enemies(level, cells);
    if k == 0 {
        assert(e.take(0) =~= Seq::<EnemySpawn>::empty());
    } else {
        lemma_health_prefix(level, cells, k - 1);
        assert(e.take(k).drop_last() =~= e.take(k - 1));
        assert(e.take(k).last() == e[k - 1]);
    }
}

/// Every level can be won on ammunition: the starting rounds and six per
/// ammunition pickup are at least the enemies' total health, one round
/// taking one health.
pub proof fn lemma_every_level_winnable(level: int, cells: Seq<(int, int)>)
    requires
        level >= 0,
    ensures
        crate::game::STARTING_AMMO + 6 * count_kind(level_pickups(level, cells), PickupKind::Ammo) >= total_health(
            level_enemies(level, cells),
        ),
{
    let p = level_pickups(level, cells);
    let e = level_enemies(level, cells);
    if cells.len() > 0 {
        lemma_ammo_prefix(level, cells, p.len() as int);
        lemma_health_prefix(level, cells, e.len() as int);
        assert(p.take(p.len() as int) =~= p);
        assert(e.take(e.len() as int) =~= e);
    } else if level <= 1 {
        reveal_with_fuel(count_kind, 5);
        reveal_with_fuel(total_health, 4);
        assert(p.drop_last().drop_last().drop_last().drop_last() =~= Seq::<Pickup>::empty() || p.len() < 4);
        if level == 0 {
            assert(p.drop_last().drop_last().drop_last() =~= Seq::<Pickup>::empty());
            assert(e.drop_last().drop_last() =~= Seq::<EnemySpawn>::empty());
        } else {
            assert(p.drop_last().drop_last().drop_last().drop_last() =~= Seq::<Pickup>::empty());
            assert(e.drop_last().drop_last().drop_last() =~= Seq::<EnemySpawn>::empty());
        }
    } else {
        assert(e.len() == 0);
    }
}

/// From the third level on (with reachable cells), the enemies have 24
/// health in all and there are four ammunition pickups: with the starting
/// ammunition, they give six shots more than the enemies need, so a full
/// ammunition pickup can be wasted and the level stays winnable.
pub proof fn lemma_last_level_winnable(level: int, cells: Seq<(int, int)>)
    requires
        level >= 2,
        cells.len() > 0,
    ensures
        total_health(level_enemies(level, cells)) == 24,
        count_kind(level_pickups(level, cells), PickupKind::Ammo) == 4,
        crate::game::STARTING_AMMO + 6 * count_kind(level_pickups(level, cells), PickupKind::Ammo) == total_health(
            level_enemies(level, cells),
        ) + 6,
{
    let e = level_enemies(level, cells);
    assert(e.len() == 6);
    assert(e.take(1).drop_last() =~= e.take(0));
    assert(e.take(2).drop_last() =~= e.take(1));
    assert(e.take(3).drop_last() =~= e.take(2));
    assert(e.take(4).drop_last() =~= e.take(3));
    assert(e.take(5).drop_last() =~= e.take(4));
    assert(e.take(6).drop_last() =~= e.take(5));
    assert(total_health(e.take(0)) == 0);
    assert(total_health(e.take(1)) == 3);
    assert(total_health(e.take(2)) == 8);
    assert(total_health(e.take(3)) == 11);
    assert(total_health(e.take(4)) == 16);
    assert(total_health(e.take(5)) == 19);
    assert(total_health(e.take(6)) == 24);
    assert(e.take(6) =~= e);
    let p = level_pickups(level, cells);
    assert(p.len() == 7);
    assert(p.take(1).drop_last() =~= p.take(0));
    assert(p.take(2).drop_last() =~= p.take(1));
    assert(p.take(3).drop_last() =~= p.take(2));
    assert(p.take(4).drop_last() =~= p.take(3));
    assert(p.take(5).drop_last() =~= p.take(4));
    assert(p.take(6).drop_last() =~= p.take(5));
    assert(p.take(7).drop_last() =~= p.take(6));
    assert(count_kind(p.take(0), PickupKind::Ammo) == 0);
    assert(count_kind(p.take(1), PickupKind::Ammo) == 0);
    assert(count_kind(p.take(2), PickupKind::Ammo) == 0);
    assert(count_kind(p.take(3), PickupKind::Ammo) == 1);
    assert(count_kind(p.take(4), PickupKind::Ammo) == 2);
    assert(count_kind(p.take(5), PickupKind::Ammo) == 3);
    assert(count_kind(p.take(6), PickupKind::Ammo) == 4);
    assert(count_kind(p.take(7), PickupKind::Ammo) == 4);
    assert(p.take(7) =~= p);
}

/// Every enemy and pickup placed on a cell is placed on one of the cells
/// it was spread over, and every level has exactly one switch.
pub proof fn lemma_spawns_on_cells(level: int, cells: Seq<(int, int)>)
    requires
        cells.len() > 0,
    ensures
        forall|i: int|
            0 <= i < level_enemies(level, cells).len() ==> exists|k: int|
                0 <= k < cells.len() && #[trigger] level_enemies(level, cells)[i].at == cell_point(cells[k]),
        forall|i: int|
            0 <= i < level_pickups(level, cells).len() ==> exists|k: int|
                0 <= k < cells.len() && #[trigger] level_pickups(level, cells)[i].at == cell_point(cells[k]),
        level_pickups(level, cells).last().kind == PickupKind::Switch,
        forall|i: int|
            0 <= i < level_pickups(level, cells).len() - 1 ==> #[trigger] level_pickups(level, cells)[i].kind
                != PickupKind::Switch,
{
    let n = enemy_count(level);
    assert forall|i: int| 0 <= i < level_enemies(level, cells).len() implies exists|k: int|
        0 <= k < cells.len() && #[trigger] level_enemies(level, cells)[i].at == cell_point(cells[k]) by {
        let k = spread(cells.len() as int, i + 1, n + 1);
        lemma_spread_below(cells.len() as int, i + 1, n + 1);
        assert(level_enemies(level, cells)[i].at == cell_point(cells[k]));
    }
    let (h, a) = pickup_counts(level);
    assert forall|i: int| 0 <= i < level_pickups(level, cells).len() implies exists|k: int|
        0 <= k < cells.len() && #[trigger] level_pickups(level, cells)[i].at == cell_point(cells[k]) by {
        if i < h + a {
            let k = spread(cells.len() as int, i + 1, h + a + 2);
            lemma_spread_below(cells.len() as int, i + 1, h + a + 2);
            assert(level_pickups(level, cells)[i].at == cell_point(cells[k]));
        } else {
            let k = spread(cells.len() as int, 4, 5);
            lemma_spread_below(cells.len() as int, 4, 5);
            assert(level_pickups(level, cells)[i].at == cell_point(cells[k]));
        }
    }
}

proof fn lemma_spread_below(len: int, num: int, den: int)
    requires
        0 < len,
        0 <= num < den,
    ensures
        0 <= spread(len, num, den) < len,
{
    assert(0 <= len * num / den < len) by (nonlinear_arith)
        requires
            0 < len,
            0 <= num < den,
    ;
}

} // verus!
