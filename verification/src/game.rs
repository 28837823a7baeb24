//! The decisions of a game session: which screen shows, which level is
//! selected and unlocked, and the player's health, ammunition and view.
use vstd::prelude::*;
use crate::combat::{healed, reloaded, MAX_AMMO};

verus! {

/// The number of levels.
pub const LEVEL_COUNT: usize = 3;

/// Health at the start of a level.
pub const STARTING_HEALTH: i32 = 100;

/// Ammunition at the start of a level.
pub const STARTING_AMMO: i32 = 6;

/// Health lost per projectile hit.
pub const HIT_DAMAGE: i32 = 10;

/// The screens of the game.
#[derive(Clone, Copy, PartialEq, Eq, Debug, Structural)]
pub enum Screen {
    Welcome,
    Playing,
    Success,
    Defeat,
}

/// The state of a game session.
#[derive(Clone, Copy, PartialEq, Eq, Debug, Structural)]
pub struct Session {
    pub screen: Screen,
    pub selected_level: usize,
    pub highest_unlocked_level: usize,
    pub health: i32,
    pub ammo: i32,
    pub exit_unlocked: bool,
    pub mode_3d: bool,
    pub m_was_down: bool,
}

impl Session {
    /// The session invariant: the selected level is unlocked, the highest
    /// unlocked level exists, and health and ammunition are within bounds.
    pub open spec fn wf(self) -> bool {
        &&& self.selected_level <= self.highest_unlocked_level < LEVEL_COUNT
        &&& 0 <= self.health <= STARTING_HEALTH
        &&& 0 <= self.ammo <= MAX_AMMO
    }

    /// A new session: the welcome screen, with the first level selected and
    /// unlocked, the map view, and a full start.
    pub fn new() -> (s: Session)
        ensures
            s.wf(),
            s == (Session {
                screen: Screen::Welcome,
                selected_level: 0,
                highest_unlocked_level: 0,
                health: STARTING_HEALTH,
                ammo: STARTING_AMMO,
                exit_unlocked: false,
                mode_3d: false,
                m_was_down: false,
            }),
    {
        Session {
            screen: Screen::Welcome,
            selected_level: 0,
            highest_unlocked_level: 0,
            health: STARTING_HEALTH,
            ammo: STARTING_AMMO,
            exit_unlocked: false,
            mode_3d: false,
            m_was_down: false,
        }
    }

    /// Starts (or restarts) the selected level: full health, starting
    /// ammunition, exit locked, playing.
    pub fn start_level(&mut self)
        ensures
            *final(self) == (Session {
                screen: Screen::Playing,
                health: STARTING_HEALTH,
                ammo: STARTING_AMMO,
                exit_unlocked: false,
                ..*old(self)
            }),
            old(self).wf() ==> final(self).wf(),
    {
        self.screen = Screen::Playing;
        self.health = STARTING_HEALTH;
        self.ammo = STARTING_AMMO;
        self.exit_unlocked = false;
    }

    /// The keys on the welcome screen: `up` selects the previous level,
    /// `down` the next unlocked one, `enter` starts the selected level.
    /// Returns whether a level starts.
    pub fn welcome_keys(&mut self, up: bool, down: bool, enter: bool) -> (started: bool)
        ensures
            started == enter,
            ({
                let s1 = if up && old(self).selected_level > 0 {
                    old(self).selected_level - 1
                } else {
                    old(self).selected_level as int
                };
                let s2 = if down {
                    if s1 + 1 <= old(self).highest_unlocked_level {
                        s1 + 1
                    } else {
                        old(self).highest_unlocked_level as int
                    }
                } else {
                    s1
                };
                final(self).selected_level == s2
            }),
            final(self).highest_unlocked_level == old(self).highest_unlocked_level,
            enter ==> final(self).screen == Screen::Playing && final(self).health == STARTING_HEALTH
                && final(self).ammo == STARTING_AMMO && !final(self).exit_unlocked,
            !enter ==> *final(self) == (Session { selected_level: final(self).selected_level, ..*old(self) }),
            final(self).mode_3d == old(self).mode_3d,
            final(self).m_was_down == old(self).m_was_down,
            old(self).wf() ==> final(self).wf(),
    {
        if up && self.selected_level > 0 {
            self.selected_level = self.selected_level - 1;
        }
        if down {
            self.selected_level = if self.selected_level < self.highest_unlocked_level {
                self.selected_level + 1
            } else {
                self.highest_unlocked_level
            };
        }
        if enter {
            self.start_level();
        }
        enter
    }

    /// The key on the success screen: `enter` returns to the welcome screen.
    pub fn success_keys(&mut self, enter: bool)
        ensures
            *final(self) == (if enter {
                Session { screen: Screen::Welcome, ..*old(self) }
            } else {
                *old(self)
            }),
    {
        if enter {
            self.screen = Screen::Welcome;
        }
    }

    /// The keys on the defeat screen: `enter` restarts the level, otherwise
    /// `leave` returns to the welcome screen. Returns whether the level
    /// restarts.
    pub fn defeat_keys(&mut self, enter: bool, leave: bool) -> (restarted: bool)
        ensures
            restarted == enter,
            *final(self) == (if enter {
                Session {
                    screen: Screen::Playing,
                    health: STARTING_HEALTH,
                    ammo: STARTING_AMMO,
                    exit_unlocked: false,
                    ..*old(self)
                }
            } else if leave {
                Session { screen: Screen::Welcome, ..*old(self) }
            } else {
                *old(self)
            }),
            old(self).wf() ==> final(self).wf(),
    {
        if enter {
            self.start_level();
            true
        } else {
            if leave {
                self.screen = Screen::Welcome;
            }
            false
        }
    }

    /// The player reached the goal: the level after the selected one (or the
    /// last level) becomes the highest unlocked, and the success screen shows.
    pub fn reach_goal(&mut self)
        ensures
            *final(self) == (Session {
                screen: Screen::Success,
                highest_unlocked_level: if old(self).selected_level + 1 <= LEVEL_COUNT - 1 {
                    (old(self).selected_level + 1) as usize
                } else {
                    (LEVEL_COUNT - 1) as usize
                },
                ..*old(self)
            }),
            old(self).wf() ==> final(self).wf(),
    {
        self.highest_unlocked_level = if self.selected_level < LEVEL_COUNT - 1 {
            self.selected_level + 1
        } else {
            LEVEL_COUNT - 1
        };
        self.screen = Screen::Success;
    }

    /// The player pulls the trigger: in the first-person view, with
    /// ammunition left, one round is spent. Returns whether a shot is fired.
    pub fn fire(&mut self, trigger: bool) -> (fired: bool)
        ensures
            fired == (trigger && old(self).mode_3d && old(self).ammo > 0),
            *final(self) == (if fired {
                Session { ammo: (old(self).ammo - 1) as i32, ..*old(self) }
            } else {
                *old(self)
            }),
            old(self).wf() ==> final(self).wf(),
    {
        if trigger && self.mode_3d && self.ammo > 0 {
            self.ammo = self.ammo - 1;
            true
        } else {
            false
        }
    }

    /// Projectiles hit the player `hits` times: each takes `HIT_DAMAGE`
    /// health, down to none, and no health left means defeat.
    pub fn take_hits(&mut self, hits: usize)
        requires
            hits <= 214748364,
        ensures
            final(self).health == (if hits == 0 {
                old(self).health as int
            } else if old(self).health - HIT_DAMAGE * hits >= 0 {
                old(self).health - HIT_DAMAGE * hits
            } else {
                0
            }),
            final(self).screen == (if hits > 0 && final(self).health == 0 {
                Screen::Defeat
            } else {
                old(self).screen
            }),
            *final(self) == (Session { health: final(self).health, screen: final(self).screen, ..*old(self) }),
            old(self).wf() ==> final(self).wf(),
    {
        if hits > 0 {
            let damage: i64 = 10 * (hits as i64);
            let left: i64 = self.health as i64 - damage;
            self.health = if left >= 0 {
                left as i32
            } else {
                0
            };
            if self.health == 0 {
                self.screen = Screen::Defeat;
            }
        }
    }

    /// The view key: pressing it (not holding it) switches between the map
    /// and the first-person view.
    pub fn view_key(&mut self, down: bool)
        ensures
            final(self).mode_3d == (if down && !old(self).m_was_down {
                !old(self).mode_3d
            } else {
                old(self).mode_3d
            }),
            final(self).m_was_down == down,
            *final(self) == (Session { mode_3d: final(self).mode_3d, m_was_down: down, ..*old(self) }),
            old(self).wf() ==> final(self).wf(),
    {
        if down && !self.m_was_down {
            self.mode_3d = !self.mode_3d;
        }
        self.m_was_down = down;
    }
}

/// What is drawn over the picture.
#[derive(Clone, Copy, PartialEq, Eq, Debug, Structural)]
pub enum Overlay {
    Nothing,
    /// The title screen, with level `highlighted` picked out in the list.
    Welcome { highlighted: usize },
    /// The success screen; `dragon` when the last level was won.
    Success { dragon: bool },
    Defeat,
}

/// The overlay of a frame, from the screen whose keys were handled in it and
/// the session after them: the title screen shows until a level starts, and
/// the success and defeat screens show through the frame that leaves them.
pub fn overlay_for(handled: Screen, session: &Session) -> (o: Overlay)
    ensures
        o == match handled {
            Screen::Welcome => if session.screen == Screen::Welcome {
                Overlay::Welcome { highlighted: session.selected_level }
            } else {
                Overlay::Nothing
            },
            Screen::Success => Overlay::Success { dragon: session.selected_level == LEVEL_COUNT - 1 },
            Screen::Defeat => Overlay::Defeat,
            Screen::Playing => Overlay::Nothing,
        },
{
    match handled {
        Screen::Welcome => if session.screen == Screen::Welcome {
            Overlay::Welcome { highlighted: session.selected_level }
        } else {
            Overlay::Nothing
        },
        Screen::Success => Overlay::Success { dragon: session.selected_level == LEVEL_COUNT - 1 },
        Screen::Defeat => Overlay::Defeat,
        Screen::Playing => Overlay::Nothing,
    }
}

/// Whether the player has won the level: standing on the goal with no
/// enemy left and the exit unlocked.
pub fn player_reached_goal(
    maze: &crate::grid::Maze,
    x: usize,
    y: usize,
    block_size: usize,
    enemies: &Vec<crate::sprites::Enemy>,
    exit_unlocked: bool,
) -> (won: bool)
    requires
        block_size > 0,
    ensures
        won == ({
            let c = crate::combat::cell_under(x as int, y as int, block_size as int);
            &&& crate::grid::in_grid(crate::grid::grid(maze), c)
            &&& crate::grid::cell_char(crate::grid::grid(maze), c) == 'g'
            &&& forall|i: int| 0 <= i < enemies@.len() ==> !(#[trigger] enemies@[i]).active
            &&& exit_unlocked
        }),
{
    proof {
        crate::grid::lemma_grid(maze);
    }
    let column = x / block_size;
    let row = y / block_size;
    row < maze.len() && column < maze[row].len() && maze[row][column] == 'g'
        && crate::sprites::all_defeated(enemies) && exit_unlocked
}

/// A health pickup gives 25 health, or less only where that would pass full
/// health, which is then reached; an ammunition pickup likewise gives 6
/// rounds, or fills up to `MAX_AMMO`. That is, the new value is the smaller
/// of the old one plus the pickup and the maximum.
pub proof fn lemma_pickups_give_their_amount(health: int, ammo: int)
    ensures
        healed(health) <= health + 25,
        healed(health) <= STARTING_HEALTH,
        healed(health) == health + 25 || healed(health) == STARTING_HEALTH,
        reloaded(ammo) <= ammo + 6,
        reloaded(ammo) <= MAX_AMMO,
        reloaded(ammo) == ammo + 6 || reloaded(ammo) == MAX_AMMO,
{
}

/// Picking up keeps health and ammunition within bounds: healing never
/// passes full health and reloading never passes `MAX_AMMO`, and neither
/// takes anything away.
pub proof fn lemma_pickups_keep_bounds(health: int, ammo: int)
    requires
        0 <= health <= STARTING_HEALTH,
        0 <= ammo <= MAX_AMMO,
    ensures
        health <= healed(health) <= STARTING_HEALTH,
        ammo <= reloaded(ammo) <= MAX_AMMO,
{
}

} // verus!
