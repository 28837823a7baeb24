//! Enemies: their kinds, their state, and what a hit does to them.
use vstd::prelude::*;

verus! {

/// The two kinds of enemy.
#[derive(Clone, Copy, PartialEq, Eq, Debug, Structural)]
pub enum EnemyKind {
    Grunt,
    Brute,
}

/// What the game logic keeps of an enemy: the texture it is drawn with,
/// whether it is still in play, its remaining health and its kind.
#[derive(Clone, Copy, PartialEq, Eq, Debug, Structural)]
pub struct Enemy {
    pub texture: char,
    pub active: bool,
    pub health: i32,
    pub kind: EnemyKind,
}

/// A fresh enemy of a kind: grunts take three hits and look like `'e'`,
/// brutes take five and look like `'b'`.
pub open spec fn spec_new_enemy(kind: EnemyKind) -> Enemy {
    Enemy {
        texture: match kind {
            EnemyKind::Grunt => 'e',
            EnemyKind::Brute => 'b',
        },
        active: true,
        health: match kind {
            EnemyKind::Grunt => 3,
            EnemyKind::Brute => 5,
        },
        kind,
    }
}

/// A fresh enemy of a kind.
pub fn new_enemy(kind: EnemyKind) -> (enemy: Enemy)
    ensures
        enemy == spec_new_enemy(kind),
{
    match kind {
        EnemyKind::Grunt => Enemy { texture: 'e', active: true, health: 3, kind },
        EnemyKind::Brute => Enemy { texture: 'b', active: true, health: 5, kind },
    }
}

/// An enemy after one hit: one health less, and out of play when none is
/// left.
pub open spec fn hit(e: Enemy) -> Enemy {
    Enemy { health: (e.health - 1) as i32, active: e.active && e.health - 1 > 0, ..e }
}

/// An enemy after `n` hits.
pub open spec fn after_hits(e: Enemy, n: nat) -> Enemy
    decreases n,
{
    if n == 0 {
        e
    } else {
        hit(after_hits(e, (n - 1) as nat))
    }
}

/// A shot hits an enemy: it loses one health and leaves play when none is
/// left.
pub fn register_hit(enemy: &mut Enemy)
    requires
        old(enemy).health > i32::MIN,
    ensures
        *final(enemy) == hit(*old(enemy)),
        final(enemy).health == old(enemy).health - 1,
        final(enemy).active == (old(enemy).active && old(enemy).health - 1 > 0),
{
    enemy.health = enemy.health - 1;
    if enemy.health <= 0 {
        enemy.active = false;
    }
}

/// An enemy in play with `h` health stays in play through its first `h - 1`
/// hits and leaves play at hit `h`, having lost one health per hit.
pub proof fn lemma_hits_until_defeat(e: Enemy, n: nat)
    requires
        e.active,
        1 <= e.health,
        n <= e.health,
    ensures
        after_hits(e, n).health == e.health - n,
        after_hits(e, n).active == (n < e.health),
        after_hits(e, n).texture == e.texture,
        after_hits(e, n).kind == e.kind,
    decreases n,
{
    if n > 0 {
        lemma_hits_until_defeat(e, (n - 1) as nat);
    }
}

/// A fresh grunt is defeated by its third hit and a fresh brute by its
/// fifth, and neither before.
pub proof fn lemma_hits_to_defeat(kind: EnemyKind, n: nat)
    requires
        n <= spec_new_enemy(kind).health,
    ensures
        after_hits(spec_new_enemy(kind), n).active == (n < match kind {
            EnemyKind::Grunt => 3int,
            EnemyKind::Brute => 5int,
        }),
{
    lemma_hits_until_defeat(spec_new_enemy(kind), n);
}

/// The number of enemies still in play.
pub open spec fn active_count(enemies: Seq<Enemy>) -> nat
    decreases enemies.len(),
{
    if enemies.len() == 0 {
        0
    } else {
        active_count(enemies.drop_last()) + if enemies.last().active {
            1nat
        } else {
            0nat
        }
    }
}

/// Counts the enemies still in play.
pub fn count_active(enemies: &Vec<Enemy>) -> (n: usize)
    ensures
        n == active_count(enemies@),
{
    let mut n: usize = 0;
    let mut i: usize = 0;
    while i < enemies.len()
        invariant
            0 <= i <= enemies@.len(),
            n == active_count(enemies@.subrange(0, i as int)),
            n <= i,
        decreases enemies@.len() - i,
    {
        proof {
            assert(enemies@.subrange(0, i + 1).drop_last() =~= enemies@.subrange(0, i as int));
        }
        if enemies[i].active {
            n += 1;
        }
        i += 1;
    }
    proof {
        assert(enemies@.subrange(0, i as int) =~= enemies@);
    }
    n
}

/// No enemy is in play any more.
pub fn all_defeated(enemies: &Vec<Enemy>) -> (done: bool)
    ensures
        done == (forall|i: int| 0 <= i < enemies@.len() ==> !(#[trigger] enemies@[i]).active),
{
    let mut i: usize = 0;
    while i < enemies.len()
        invariant
            0 <= i <= enemies@.len(),
            forall|k: int| 0 <= k < i ==> !(#[trigger] enemies@[k]).active,
        decreases enemies@.len() - i,
    {
        if enemies[i].active {
            return false;
        }
        i += 1;
    }
    true
}

} // verus!
