//! The player-controlled hero: commands, life-cycle state, stats and the
//! per-maze memory of recently seen cells.
use vstd::prelude::*;
use vstd::view::View as _;
use crate::direction::Direction;
use crate::position::Position;
use crate::power_up::PowerUp;
use crate::rng::random_below;
use crate::view::{movement_recovery_ms, movement_recovery_ms_spec, view_for_vision,
    view_for_vision_spec, View};

verus! {

/// A discrete player input.
#[derive(Debug, Clone, Copy)]
pub enum HeroCommand {
    Move { direction: Direction },
    TurnClockwise,
    TurnCounterClockwise,
    CycleUiOptions,
}

/// Life-cycle of a hero. Timestamps are milliseconds of the injected
/// monotonic clock.
#[derive(Debug, Clone, Copy, PartialEq, Eq, Structural)]
pub enum HeroState {
    WaitingToStart,
    InMaze { instant: u64 },
    Dead { duration: u64, instant: u64 },
    Victory { duration: u64, instant: u64 },
}

/// Per-player interface preference.
#[derive(Debug, Clone, Copy, PartialEq, Eq, Structural)]
pub enum UiOptions {
    Dark,
    Light,
}

impl UiOptions {
    pub open spec fn next_spec(self) -> UiOptions {
        match self {
            UiOptions::Dark => UiOptions::Light,
            UiOptions::Light => UiOptions::Dark,
        }
    }

    /// Cycle to the other option.
    pub fn next(&self) -> (r: UiOptions)
        ensures
            r == self.next_spec(),
    {
        match self {
            UiOptions::Dark => UiOptions::Light,
            UiOptions::Light => UiOptions::Dark,
        }
    }
}

/// Whether the point list holds `p`.
pub open spec fn has_position(s: Seq<Position>, p: Position) -> bool {
    exists|i: int| 0 <= i < s.len() && #[trigger] s[i] == p
}

/// Whether the stamped list holds an entry for `p`.
pub open spec fn has_stamped(s: Seq<(Position, u64)>, p: Position) -> bool {
    exists|i: int| 0 <= i < s.len() && (#[trigger] s[i]).0 == p
}

/// Whether the stamped list holds exactly the entry `(p, t)`.
pub open spec fn has_stamp(s: Seq<(Position, u64)>, p: Position, t: u64) -> bool {
    exists|i: int| 0 <= i < s.len() && #[trigger] s[i] == (p, t)
}

/// No position occurs twice in the stamped list.
pub open spec fn stamped_unique(s: Seq<(Position, u64)>) -> bool {
    forall|i: int, j: int| 0 <= i < j < s.len() ==> (#[trigger] s[i]).0 != (#[trigger] s[j]).0
}

/// Whether the collected-power-up list holds an entry for `maze_id`.
pub open spec fn has_collected(s: Seq<(usize, PowerUp)>, maze_id: usize) -> bool {
    exists|i: int| 0 <= i < s.len() && (#[trigger] s[i]).0 == maze_id
}

/// Whether the collected-power-up list maps `maze_id` to `p`.
pub open spec fn collected_is(s: Seq<(usize, PowerUp)>, maze_id: usize, p: PowerUp) -> bool {
    exists|i: int| 0 <= i < s.len() && #[trigger] s[i] == (maze_id, p)
}

/// No maze occurs twice in the collected-power-up list.
pub open spec fn collected_unique(s: Seq<(usize, PowerUp)>) -> bool {
    forall|i: int, j: int| 0 <= i < j < s.len() ==> (#[trigger] s[i]).0 != (#[trigger] s[j]).0
}

/// A player-controlled agent progressing through the maze ladder.
pub struct Hero {
    pub id: u128,
    pub name: String,
    /// Life-cycle state; the engine transitions it.
    pub state: HeroState,
    pub maze_id: usize,
    pub position: Position,
    pub direction: Direction,
    pub vision: usize,
    pub speed: u64,
    pub memory: u64,
    pub past_visible: Vec<Vec<(Position, u64)>>,
    pub last_move_time: u64,
    pub collected_power_ups: Vec<(usize, PowerUp)>,
    /// Interface preference; cycled by a command.
    pub ui_options: UiOptions,
}

impl Hero {
    pub const MAX_SPEED: u64 = 8;

    pub const MAX_VISION: usize = 8;

    pub const INITIAL_SPEED: u64 = 4;

    pub const INITIAL_VISION: usize = 1;

    pub const INITIAL_MEMORY: u64 = 0;

    /// Cap that keeps the memory stat's derived durations far from overflow.
    pub const MEMORY_CAP: u64 = 1000000;

    pub open spec fn id_spec(self) -> u128 {
        self.id
    }

    pub open spec fn name_spec(self) -> Seq<char> {
        self.name@
    }

    pub open spec fn maze_id_spec(self) -> usize {
        self.maze_id
    }

    pub open spec fn position_spec(self) -> Position {
        self.position
    }

    pub open spec fn direction_spec(self) -> Direction {
        self.direction
    }

    pub open spec fn vision_spec(self) -> usize {
        self.vision
    }

    pub open spec fn speed_spec(self) -> u64 {
        self.speed
    }

    pub open spec fn memory_spec(self) -> u64 {
        self.memory
    }

    pub open spec fn last_move_spec(self) -> u64 {
        self.last_move_time
    }

    pub open spec fn past_visible_spec(self) -> Seq<Seq<(Position, u64)>> {
        Seq::new(self.past_visible@.len(), |i: int| self.past_visible@[i]@)
    }

    pub open spec fn collected_spec(self) -> Seq<(usize, PowerUp)> {
        self.collected_power_ups@
    }

    /// Stats within their tiers and the per-maze books well kept.
    pub open spec fn wf(self) -> bool {
        &&& 1 <= self.vision <= Hero::MAX_VISION
        &&& 1 <= self.speed <= Hero::MAX_SPEED
        &&& self.memory <= Hero::MEMORY_CAP
        &&& forall|m: int|
            0 <= m < self.past_visible@.len() ==> stamped_unique(#[trigger] self.past_visible@[m]@)
        &&& collected_unique(self.collected_power_ups@)
    }

    /// A new hero waiting to start in the first maze.
    pub fn new(id: u128, name: String, position: Position, now_ms: u64) -> (r: Hero)
        ensures
            r.wf(),
            r.id_spec() == id,
            r.name_spec() == name@,
            r.state == HeroState::WaitingToStart,
            r.maze_id_spec() == 0,
            r.position_spec() == position,
            r.direction_spec() == Direction::East,
            r.vision_spec() == Hero::INITIAL_VISION,
            r.speed_spec() == Hero::INITIAL_SPEED,
            r.memory_spec() == Hero::INITIAL_MEMORY,
            r.last_move_spec() == now_ms,
            r.past_visible_spec().len() == 0,
            r.collected_spec().len() == 0,
            r.ui_options == UiOptions::Dark,
    {
        Hero {
            id,
            name,
            state: HeroState::WaitingToStart,
            maze_id: 0,
            position,
            direction: Direction::East,
            vision: 1,
            speed: 4,
            memory: 0,
            past_visible: Vec::new(),
            last_move_time: now_ms,
            collected_power_ups: Vec::new(),
            ui_options: UiOptions::Dark,
        }
    }

    /// Full respawn: back to the first maze with initial stats, position and
    /// a cleared memory; identity and interface preference stay.
    pub fn reset(&mut self, position: Position, now_ms: u64)
        ensures
            final(self).wf(),
            final(self).id_spec() == old(self).id_spec(),
            final(self).name_spec() == old(self).name_spec(),
            final(self).ui_options == old(self).ui_options,
            final(self).state == HeroState::WaitingToStart,
            final(self).maze_id_spec() == 0,
            final(self).position_spec() == position,
            final(self).direction_spec() == Direction::East,
            final(self).vision_spec() == Hero::INITIAL_VISION,
            final(self).speed_spec() == Hero::INITIAL_SPEED,
            final(self).memory_spec() == Hero::INITIAL_MEMORY,
            final(self).last_move_spec() == now_ms,
            final(self).past_visible_spec().len() == 0,
            final(self).collected_spec().len() == 0,
    {
        self.state = HeroState::WaitingToStart;
        self.maze_id = 0;
        self.position = position;
        self.direction = Direction::East;
        self.vision = 1;
        self.speed = 4;
        self.memory = 0;
        self.past_visible = Vec::new();
        self.last_move_time = now_ms;
        self.collected_power_ups = Vec::new();
    }

    pub fn is_dead(&self) -> (r: bool)
        ensures
            r == (self.state is Dead),
    {
        match self.state {
            HeroState::Dead { .. } => true,
            _ => false,
        }
    }

    /// The victory duration, when the run has been won.
    pub fn has_won(&self) -> (r: Option<u64>)
        ensures
            match self.state {
                HeroState::Victory { duration, .. } => r == Some(duration),
                _ => r is None,
            },
    {
        match self.state {
            HeroState::Victory { duration, .. } => Some(duration),
            _ => None,
        }
    }

    /// Milliseconds this run has been going: live time while in a maze,
    /// frozen at death or victory, zero before the start.
    pub fn elapsed_duration_from_start(&self, now_ms: u64) -> (r: u64)
        ensures
            r == match self.state {
                HeroState::WaitingToStart => 0u64,
                HeroState::InMaze { instant } => if now_ms >= instant {
                    (now_ms - instant) as u64
                } else {
                    0u64
                },
                HeroState::Dead { duration, .. } => duration,
                HeroState::Victory { duration, .. } => duration,
            },
    {
        match self.state {
            HeroState::WaitingToStart => 0,
            HeroState::InMaze { instant } => if now_ms >= instant {
                now_ms - instant
            } else {
                0
            },
            HeroState::Dead { duration, .. } => duration,
            HeroState::Victory { duration, .. } => duration,
        }
    }

    /// Whether a move is allowed now: alive, and the speed-dependent
    /// cooldown has elapsed since the last successful move.
    pub fn can_move(&self, now_ms: u64) -> (r: bool)
        ensures
            r == (!(self.state is Dead) && (if now_ms >= self.last_move_spec() {
                (now_ms - self.last_move_spec()) as u64
            } else {
                0u64
            }) >= movement_recovery_ms_spec(self.speed_spec())),
    {
        if self.is_dead() {
            return false;
        }
        let elapsed = if now_ms >= self.last_move_time {
            now_ms - self.last_move_time
        } else {
            0
        };
        elapsed >= movement_recovery_ms(self.speed)
    }

    /// How long a seen-but-now-hidden cell stays remembered: grows with the
    /// memory stat.
    pub fn past_visibility_duration(&self) -> (r: u64)
        requires
            self.wf(),
        ensures
            r == 10000 + 10000 * self.memory_spec(),
    {
        10000 + 10000 * self.memory
    }

    pub fn id(&self) -> (r: u128)
        ensures
            r == self.id_spec(),
    {
        self.id
    }

    pub fn name(&self) -> (r: &String)
        ensures
            r@ == self.name_spec(),
    {
        &self.name
    }

    pub fn vision(&self) -> (r: usize)
        ensures
            r == self.vision_spec(),
    {
        self.vision
    }

    pub fn speed(&self) -> (r: u64)
        ensures
            r == self.speed_spec(),
    {
        self.speed
    }

    pub fn memory(&self) -> (r: u64)
        ensures
            r == self.memory_spec(),
    {
        self.memory
    }

    pub fn position(&self) -> (r: Position)
        ensures
            r == self.position_spec(),
    {
        self.position
    }

    pub fn direction(&self) -> (r: Direction)
        ensures
            r == self.direction_spec(),
    {
        self.direction
    }

    pub fn maze_id(&self) -> (r: usize)
        ensures
            r == self.maze_id_spec(),
    {
        self.maze_id
    }

    /// The visibility shape the current vision tier grants.
    pub fn view(&self) -> (r: View)
        ensures
            r == view_for_vision_spec(self.vision_spec()),
            r.wf(),
    {
        view_for_vision(self.vision)
    }

    /// Milliseconds between allowed moves at the current speed tier.
    pub fn movement_recovery_duration(&self) -> (r: u64)
        ensures
            r == movement_recovery_ms_spec(self.speed_spec()),
    {
        movement_recovery_ms(self.speed)
    }

    pub fn set_direction(&mut self, direction: Direction)
        requires
            old(self).wf(),
        ensures
            final(self).wf(),
            *final(self) == (Hero { direction, ..*old(self) }),
    {
        self.direction = direction;
    }

    /// Move to `position` and restart the movement cooldown.
    pub fn set_position(&mut self, position: Position, now_ms: u64)
        requires
            old(self).wf(),
        ensures
            final(self).wf(),
            *final(self) == (Hero { position, last_move_time: now_ms, ..*old(self) }),
            final(self).position_spec() == position,
            final(self).last_move_spec() == now_ms,
    {
        self.position = position;
        self.last_move_time = now_ms;
    }

    pub fn set_maze_id(&mut self, maze_id: usize)
        requires
            old(self).wf(),
        ensures
            final(self).wf(),
            *final(self) == (Hero { maze_id, ..*old(self) }),
            final(self).maze_id_spec() == maze_id,
    {
        self.maze_id = maze_id;
    }

    /// The retreat penalty: one vision tier lost.
    pub fn decrease_vision(&mut self)
        requires
            old(self).wf(),
            old(self).vision_spec() >= 2,
        ensures
            final(self).wf(),
            *final(self) == (Hero { vision: (old(self).vision_spec() - 1) as usize, ..*old(self) }),
    {
        self.vision = self.vision - 1;
    }

    /// Grant one upgrade chosen at random among those not yet at cap
    /// (memory has no cap below its technical bound), and record it as this
    /// maze's collected power-up.
    pub fn apply_power_up(&mut self)
        requires
            old(self).wf(),
        ensures
            final(self).wf(),
            final(self).id_spec() == old(self).id_spec(),
            final(self).name_spec() == old(self).name_spec(),
            final(self).state == old(self).state,
            final(self).maze_id_spec() == old(self).maze_id_spec(),
            final(self).position_spec() == old(self).position_spec(),
            final(self).direction_spec() == old(self).direction_spec(),
            final(self).last_move_spec() == old(self).last_move_spec(),
            final(self).past_visible_spec() == old(self).past_visible_spec(),
            ({
                let h0 = *old(self);
                let h1 = *final(self);
                ||| (h0.speed_spec() < Hero::MAX_SPEED && h1.speed_spec() == h0.speed_spec() + 1
                    && h1.vision_spec() == h0.vision_spec() && h1.memory_spec() == h0.memory_spec()
                    && collected_is(h1.collected_spec(), h0.maze_id_spec(), PowerUp::Speed))
                ||| (h0.vision_spec() < Hero::MAX_VISION && h1.vision_spec() == h0.vision_spec()
                    + 1 && h1.speed_spec() == h0.speed_spec() && h1.memory_spec()
                    == h0.memory_spec() && collected_is(
                    h1.collected_spec(),
                    h0.maze_id_spec(),
                    PowerUp::Vision,
                ))
                ||| (h1.memory_spec() == (if h0.memory_spec() < Hero::MEMORY_CAP {
                    h0.memory_spec() + 1
                } else {
                    h0.memory_spec() as int
                }) && h1.speed_spec() == h0.speed_spec() && h1.vision_spec() == h0.vision_spec()
                    && collected_is(h1.collected_spec(), h0.maze_id_spec(), PowerUp::Memory))
            }),
            has_collected(final(self).collected_spec(), old(self).maze_id_spec()),
            forall|m: usize|
                m != old(self).maze_id_spec() ==> (#[trigger] has_collected(
                    final(self).collected_spec(),
                    m,
                ) == has_collected(old(self).collected_spec(), m)),
    {
        let mut available: Vec<PowerUp> = Vec::new();
        if self.speed < 8 {
            available.push(PowerUp::Speed);
        }
        if self.vision < 8 {
            available.push(PowerUp::Vision);
        }
        available.push(PowerUp::Memory);
        let idx = random_below(available.len());
        let power_up = available[idx];
        match power_up {
            PowerUp::Speed => {
                if self.speed < 8 {
                    self.speed = self.speed + 1;
                }
            },
            PowerUp::Vision => {
                if self.vision < 8 {
                    self.vision = self.vision + 1;
                }
            },
            PowerUp::Memory => {
                if self.memory < Hero::MEMORY_CAP {
                    self.memory = self.memory + 1;
                }
            },
        }
        proof {
            if power_up is Speed {
                assert(old(self).speed < 8);
            }
            if power_up is Vision {
                assert(old(self).vision < 8);
            }
        }
        self.record_power_up(power_up);
    }

    /// Record `power_up` as this maze's collected one, replacing any earlier
    /// record for the same maze.
    fn record_power_up(&mut self, power_up: PowerUp)
        requires
            collected_unique(old(self).collected_spec()),
        ensures
            *final(self) == (Hero {
                collected_power_ups: final(self).collected_power_ups,
                ..*old(self)
            }),
            collected_unique(final(self).collected_spec()),
            collected_is(final(self).collected_spec(), old(self).maze_id_spec(), power_up),
            forall|m: usize|
                m != old(self).maze_id_spec() ==> (#[trigger] has_collected(
                    final(self).collected_spec(),
                    m,
                ) == has_collected(old(self).collected_spec(), m)),
            forall|m: usize, p: PowerUp|
                m != old(self).maze_id_spec() ==> (#[trigger] collected_is(
                    final(self).collected_spec(),
                    m,
                    p,
                ) == collected_is(old(self).collected_spec(), m, p)),
    {
        let ghost pre = self.collected_power_ups@;
        let mut i: usize = 0;
        let n = self.collected_power_ups.len();
        while i < n
            invariant
                collected_unique(self.collected_power_ups@),
                n == self.collected_power_ups@.len(),
                i <= n,
                self.collected_power_ups@.len() == pre.len(),
                forall|j: int| 0 <= j < i ==> (#[trigger] pre[j]).0 != self.maze_id,
                forall|j: int|
                    0 <= j < pre.len() ==> (#[trigger] self.collected_power_ups@[j]).0 == pre[j].0,
                forall|j: int|
                    0 <= j < pre.len() && pre[j].0 != self.maze_id
                        ==> #[trigger] self.collected_power_ups@[j] == pre[j],
                *self == (Hero { collected_power_ups: self.collected_power_ups, ..*old(self) }),
                pre == old(self).collected_power_ups@,
            decreases n - i,
        {
            if self.collected_power_ups[i].0 == self.maze_id {
                let m = self.maze_id;
                self.collected_power_ups[i] = (m, power_up);
                proof {
                    assert(self.collected_power_ups@[i as int] == (
                        old(self).maze_id_spec(),
                        power_up,
                    ));
                    assert forall|m2: usize, p: PowerUp|
                        m2 != old(self).maze_id_spec() implies (#[trigger] collected_is(
                        self.collected_power_ups@,
                        m2,
                        p,
                    ) == collected_is(pre, m2, p)) by {
                        if collected_is(self.collected_power_ups@, m2, p) {
                            let k = choose|k: int|
                                0 <= k < self.collected_power_ups@.len()
                                    && #[trigger] self.collected_power_ups@[k] == (m2, p);
                            assert(pre[k] == (m2, p));
                        }
                        if collected_is(pre, m2, p) {
                            let k = choose|k: int|
                                0 <= k < pre.len() && #[trigger] pre[k] == (m2, p);
                            assert(self.collected_power_ups@[k] == (m2, p));
                        }
                    }
                    assert forall|m2: usize|
                        m2 != old(self).maze_id_spec() implies (#[trigger] has_collected(
                        self.collected_power_ups@,
                        m2,
                    ) == has_collected(pre, m2)) by {
                        if has_collected(self.collected_power_ups@, m2) {
                            let k = choose|k: int|
                                0 <= k < self.collected_power_ups@.len()
                                    && (#[trigger] self.collected_power_ups@[k]).0 == m2;
                            assert(pre[k].0 == m2);
                        }
                        if has_collected(pre, m2) {
                            let k = choose|k: int|
                                0 <= k < pre.len() && (#[trigger] pre[k]).0 == m2;
                            assert(self.collected_power_ups@[k].0 == m2);
                        }
                    }
                }
                return ;
            }
            i += 1;
        }
        let m = self.maze_id;
        self.collected_power_ups.push((m, power_up));
        proof {
            let n2 = self.collected_power_ups@.len() - 1;
            assert(self.collected_power_ups@[n2] == (old(self).maze_id_spec(), power_up));
            assert forall|m2: usize, p: PowerUp|
                m2 != old(self).maze_id_spec() implies (#[trigger] collected_is(
                self.collected_power_ups@,
                m2,
                p,
            ) == collected_is(pre, m2, p)) by {
                if collected_is(self.collected_power_ups@, m2, p) {
                    let k = choose|k: int|
                        0 <= k < self.collected_power_ups@.len()
                            && #[trigger] self.collected_power_ups@[k] == (m2, p);
                    assert(pre[k] == (m2, p));
                }
                if collected_is(pre, m2, p) {
                    let k = choose|k: int| 0 <= k < pre.len() && #[trigger] pre[k] == (m2, p);
                    assert(self.collected_power_ups@[k] == (m2, p));
                }
            }
            assert forall|m2: usize|
                m2 != old(self).maze_id_spec() implies (#[trigger] has_collected(
                self.collected_power_ups@,
                m2,
            ) == has_collected(pre, m2)) by {
                if has_collected(self.collected_power_ups@, m2) {
                    let k = choose|k: int|
                        0 <= k < self.collected_power_ups@.len() && (
                        #[trigger] self.collected_power_ups@[k]).0 == m2;
                    assert(pre[k].0 == m2);
                }
                if has_collected(pre, m2) {
                    let k = choose|k: int| 0 <= k < pre.len() && (#[trigger] pre[k]).0 == m2;
                    assert(self.collected_power_ups@[k].0 == m2);
                }
            }
        }
    }

    /// What the memory book must hold for the current maze after a refresh:
    /// every currently visible cell stamped `now`, and every other old entry
    /// kept exactly while it is still fresh.
    pub open spec fn refreshed_entry(
        oldl: Seq<(Position, u64)>,
        vis: Seq<Position>,
        now_ms: u64,
        dur: u64,
        p: Position,
        t: u64,
    ) -> bool {
        ||| (has_position(vis, p) && t == now_ms)
        ||| (!has_position(vis, p) && has_stamp(oldl, p, t) && (if now_ms >= t {
            (now_ms - t) as u64
        } else {
            0u64
        }) < dur)
    }

    /// Stamp every currently visible cell with `now_ms` in this maze's
    /// memory book and drop entries whose stamp has gone stale; how long an
    /// entry stays depends on the memory stat.
    #[verifier::loop_isolation(false)]
    #[verifier::rlimit(60)]
    pub fn update_past_visible_positions(&mut self, visible: &Vec<Position>, now_ms: u64)
        requires
            old(self).wf(),
            old(self).maze_id_spec() < 100000,
        ensures
            final(self).wf(),
            *final(self) == (Hero { past_visible: final(self).past_visible, ..*old(self) }),
            final(self).maze_id_spec() < final(self).past_visible_spec().len(),
            final(self).past_visible_spec().len() == (if old(self).past_visible_spec().len() > old(
                self,
            ).maze_id_spec() {
                old(self).past_visible_spec().len() as int
            } else {
                old(self).maze_id_spec() + 1
            }),
            forall|m: int|
                0 <= m < final(self).past_visible_spec().len() && m != old(self).maze_id_spec()
                    ==> #[trigger] final(self).past_visible_spec()[m] == (if m < old(
                    self,
                ).past_visible_spec().len() {
                    old(self).past_visible_spec()[m]
                } else {
                    Seq::<(Position, u64)>::empty()
                }),
            ({
                let dur = (10000 + 10000 * old(self).memory_spec()) as u64;
                let oldl = if old(self).maze_id_spec() < old(self).past_visible_spec().len() {
                    old(self).past_visible_spec()[old(self).maze_id_spec() as int]
                } else {
                    Seq::<(Position, u64)>::empty()
                };
                let newl = final(self).past_visible_spec()[old(self).maze_id_spec() as int];
                forall|p: Position, t: u64| #[trigger]
                    has_stamp(newl, p, t) <==> Hero::refreshed_entry(
                        oldl,
                        visible@,
                        now_ms,
                        dur,
                        p,
                        t,
                    )
            }),
    {
        let dur = self.past_visibility_duration();
        while self.past_visible.len() <= self.maze_id
            invariant
                self.past_visible@.len() >= old(self).past_visible@.len(),
                self.past_visible@.len() == old(self).past_visible@.len() || (old(
                    self,
                ).past_visible@.len() <= self.maze_id && self.past_visible@.len() <= self.maze_id
                    + 1),
                forall|m: int|
                    0 <= m < old(self).past_visible@.len() ==> #[trigger] self.past_visible@[m]
                        == old(self).past_visible@[m],
                forall|m: int|
                    old(self).past_visible@.len() <= m < self.past_visible@.len()
                        ==> (#[trigger] self.past_visible@[m])@.len() == 0,
                *self == (Hero { past_visible: self.past_visible, ..*old(self) }),
            decreases self.maze_id + 1 - self.past_visible.len(),
        {
            self.past_visible.push(Vec::new());
        }
        let ghost oldl = self.past_visible@[self.maze_id as int]@;
        let ghost vis = visible@;

        let mut newl: Vec<(Position, u64)> = Vec::new();
        let current = &self.past_visible[self.maze_id];
        let n = current.len();
        let mut i: usize = 0;
        while i < n
            invariant
                n == oldl.len(),
                current@ == oldl,
                i <= n,
                stamped_unique(oldl),
                stamped_unique(newl@),
                forall|k: int|
                    0 <= k < newl@.len() ==> has_stamped(oldl.take(i as int), (
                    #[trigger] newl@[k]).0),
                forall|p: Position, t: u64| #[trigger]
                    has_stamp(newl@, p, t) <==> (has_stamped(oldl.take(i as int), p)
                        && Hero::refreshed_entry(oldl, vis, now_ms, dur, p, t)),
            decreases n - i,
        {
            let (p0, t0) = current[i];
            let ghost newl_pre = newl@;
            proof {
                assert(oldl[i as int] == (p0, t0));
                assert forall|k: int| 0 <= k < i implies (#[trigger] oldl[k]).0 != p0 by {}
                if has_stamped(oldl.take(i as int), p0) {
                    let k = choose|k: int|
                        0 <= k < i && (#[trigger] oldl.take(i as int)[k]).0 == p0;
                    assert(false);
                }
                assert(!has_stamped(newl@, p0));
            }
            let fresh = {
                let elapsed = if now_ms >= t0 {
                    now_ms - t0
                } else {
                    0
                };
                elapsed < dur
            };
            let visible_now = Hero::contains_position(visible, p0);
            if visible_now {
                newl.push((p0, now_ms));
            } else if fresh {
                newl.push((p0, t0));
            }
            proof {
                assert(oldl.take(i + 1) =~= oldl.take(i as int).push(oldl[i as int]));
                assert forall|p: Position, t: u64| #[trigger]
                    has_stamp(newl@, p, t) <==> (has_stamped(oldl.take(i + 1), p)
                        && Hero::refreshed_entry(oldl, vis, now_ms, dur, p, t)) by {
                    if has_stamp(newl@, p, t) {
                        let k = choose|k: int|
                            0 <= k < newl@.len() && #[trigger] newl@[k] == (p, t);
                        if k < newl_pre.len() {
                            assert(has_stamp(newl_pre, p, t));
                            let k2 = choose|k2: int|
                                0 <= k2 < i && (#[trigger] oldl.take(i as int)[k2]).0 == p;
                            assert(oldl.take(i + 1)[k2].0 == p);
                            assert(has_stamped(oldl.take(i + 1), p));
                        } else {
                            assert(newl@[k] == (p0, if visible_now {
                                now_ms
                            } else {
                                t0
                            }));
                            assert(p == p0);
                            assert(oldl.take(i + 1)[i as int].0 == p0);
                            assert(has_stamped(oldl.take(i + 1), p));
                            if !visible_now {
                                assert(has_stamp(oldl, p, t));
                            }
                        }
                    }
                    if has_stamped(oldl.take(i + 1), p) && Hero::refreshed_entry(
                        oldl,
                        vis,
                        now_ms,
                        dur,
                        p,
                        t,
                    ) {
                        let k = choose|k: int|
                            0 <= k < i + 1 && (#[trigger] oldl.take(i + 1)[k]).0 == p;
                        if k < i {
                            assert(oldl.take(i as int)[k].0 == p);
                            assert(has_stamped(oldl.take(i as int), p));
                            assert(has_stamp(newl_pre, p, t));
                            let k2 = choose|k2: int|
                                0 <= k2 < newl_pre.len() && #[trigger] newl_pre[k2] == (p, t);
                            assert(newl@[k2] == (p, t));
                            assert(has_stamp(newl@, p, t));
                        } else {
                            assert(p == p0);
                            if has_position(vis, p) {
                                assert(t == now_ms);
                                let k2 = newl@.len() - 1;
                                assert(newl@[k2] == (p, t));
                                assert(has_stamp(newl@, p, t));
                            } else {
                                assert(has_stamp(oldl, p, t));
                                let k3 = choose|k3: int|
                                    0 <= k3 < oldl.len() && #[trigger] oldl[k3] == (p, t);
                                assert(k3 == i as int);
                                assert(t == t0);
                                let k2 = newl@.len() - 1;
                                assert(newl@[k2] == (p, t));
                                assert(has_stamp(newl@, p, t));
                            }
                        }
                    }
                }
                assert forall|k: int|
                    0 <= k < newl@.len() implies has_stamped(oldl.take(i + 1), (
                #[trigger] newl@[k]).0) by {
                    if k < newl_pre.len() {
                        let k2 = choose|k2: int|
                            0 <= k2 < i && (#[trigger] oldl.take(i as int)[k2]).0 == newl@[k].0;
                        assert(oldl.take(i + 1)[k2].0 == newl@[k].0);
                    } else {
                        assert(newl@[k].0 == p0);
                        assert(oldl.take(i + 1)[i as int].0 == p0);
                    }
                }
            }
            i += 1;
        }
        proof {
            assert(oldl.take(n as int) =~= oldl);
        }

        let m = visible.len();
        let mut j: usize = 0;
        while j < m
            invariant
                m == vis.len(),
                visible@ == vis,
                j <= m,
                stamped_unique(newl@),
                forall|p: Position, t: u64| #[trigger]
                    has_stamp(newl@, p, t) <==> ((has_stamped(oldl, p) && Hero::refreshed_entry(
                        oldl,
                        vis,
                        now_ms,
                        dur,
                        p,
                        t,
                    )) || (has_position(vis.take(j as int), p) && !has_stamped(oldl, p) && t
                        == now_ms)),
            decreases m - j,
        {
            let p0 = visible[j];
            let ghost newl_pre = newl@;
            let already = Hero::contains_stamped(&newl, p0);
            if !already {
                newl.push((p0, now_ms));
                proof {
                    assert(has_position(vis, p0)) by {
                        assert(vis[j as int] == p0);
                    }
                    if has_stamped(oldl, p0) {
                        assert(Hero::refreshed_entry(oldl, vis, now_ms, dur, p0, now_ms));
                        assert(has_stamp(newl_pre, p0, now_ms));
                        assert(false);
                    }
                }
            }
            proof {
                assert forall|p: Position, t: u64| #[trigger]
                    has_stamp(newl@, p, t) <==> ((has_stamped(oldl, p) && Hero::refreshed_entry(
                        oldl,
                        vis,
                        now_ms,
                        dur,
                        p,
                        t,
                    )) || (has_position(vis.take(j + 1), p) && !has_stamped(oldl, p) && t
                        == now_ms)) by {
                    assert(vis.take(j + 1) =~= vis.take(j as int).push(vis[j as int]));
                    if has_stamp(newl@, p, t) {
                        let k = choose|k: int|
                            0 <= k < newl@.len() && #[trigger] newl@[k] == (p, t);
                        if k < newl_pre.len() {
                            assert(has_stamp(newl_pre, p, t));
                            if !(has_stamped(oldl, p) && Hero::refreshed_entry(
                                oldl,
                                vis,
                                now_ms,
                                dur,
                                p,
                                t,
                            )) {
                                let k2 = choose|k2: int|
                                    0 <= k2 < j && #[trigger] vis.take(j as int)[k2] == p;
                                assert(vis.take(j + 1)[k2] == p);
                            }
                        } else {
                            assert(newl@[k] == (p0, now_ms));
                            assert(p == p0 && t == now_ms);
                            assert(vis.take(j + 1)[j as int] == p);
                        }
                    }
                    if (has_stamped(oldl, p) && Hero::refreshed_entry(oldl, vis, now_ms, dur, p, t))
                        || (has_position(vis.take(j + 1), p) && !has_stamped(oldl, p) && t
                        == now_ms) {
                        if has_stamped(oldl, p) && Hero::refreshed_entry(
                            oldl,
                            vis,
                            now_ms,
                            dur,
                            p,
                            t,
                        ) {
                            assert(has_stamp(newl_pre, p, t));
                            let k2 = choose|k2: int|
                                0 <= k2 < newl_pre.len() && #[trigger] newl_pre[k2] == (p, t);
                            assert(newl@[k2] == (p, t));
                        } else {
                            let k = choose|k: int|
                                0 <= k < j + 1 && #[trigger] vis.take(j + 1)[k] == p;
                            if k < j {
                                assert(vis.take(j as int)[k] == p);
                                assert(has_stamp(newl_pre, p, t));
                                let k2 = choose|k2: int|
                                    0 <= k2 < newl_pre.len() && #[trigger] newl_pre[k2] == (p, t);
                                assert(newl@[k2] == (p, t));
                            } else {
                                assert(p == p0);
                                if already {
                                    assert(has_stamp(newl_pre, p0, now_ms)) by {
                                        let k3 = choose|k3: int|
                                            0 <= k3 < newl_pre.len() && (
                                            #[trigger] newl_pre[k3]).0 == p0;
                                        let t3 = newl_pre[k3].1;
                                        assert(has_stamp(newl_pre, p0, t3));
                                        assert(t3 == now_ms);
                                    }
                                    let k2 = choose|k2: int|
                                        0 <= k2 < newl_pre.len() && #[trigger] newl_pre[k2] == (
                                        p0,
                                        now_ms,
                                        );
                                    assert(newl@[k2] == (p, t));
                                } else {
                                    let k2 = newl@.len() - 1;
                                    assert(newl@[k2] == (p, t));
                                }
                            }
                        }
                    }
                }
            }
            j += 1;
        }
        proof {
            assert(vis.take(m as int) =~= vis);
        }

        let mid = self.maze_id;
        self.past_visible[mid] = newl;
        proof {
            assert forall|p: Position, t: u64| #[trigger]
                has_stamp(self.past_visible@[mid as int]@, p, t) <==> Hero::refreshed_entry(
                    oldl,
                    vis,
                    now_ms,
                    dur,
                    p,
                    t,
                ) by {
                if Hero::refreshed_entry(oldl, vis, now_ms, dur, p, t) {
                    if !(has_stamped(oldl, p) && Hero::refreshed_entry(
                        oldl,
                        vis,
                        now_ms,
                        dur,
                        p,
                        t,
                    )) {
                        assert(has_position(vis, p) && t == now_ms);
                        assert(!has_stamped(oldl, p));
                    }
                }
            }
        }
    }

    /// Whether the point list holds `p`.
    fn contains_position(list: &Vec<Position>, p: Position) -> (r: bool)
        ensures
            r == has_position(list@, p),
    {
        let mut i: usize = 0;
        while i < list.len()
            invariant
                i <= list@.len(),
                forall|j: int| 0 <= j < i ==> #[trigger] list@[j] != p,
            decreases list@.len() - i,
        {
            if list[i].0 == p.0 && list[i].1 == p.1 {
                return true;
            }
            i += 1;
        }
        proof {
            if has_position(list@, p) {
                let k = choose|k: int| 0 <= k < list@.len() && #[trigger] list@[k] == p;
                assert(false);
            }
        }
        false
    }

    /// Whether the stamped list holds an entry for `p`.
    fn contains_stamped(list: &Vec<(Position, u64)>, p: Position) -> (r: bool)
        ensures
            r == has_stamped(list@, p),
    {
        let mut i: usize = 0;
        while i < list.len()
            invariant
                i <= list@.len(),
                forall|j: int| 0 <= j < i ==> (#[trigger] list@[j]).0 != p,
            decreases list@.len() - i,
        {
            if list[i].0.0 == p.0 && list[i].0.1 == p.1 {
                return true;
            }
            i += 1;
        }
        proof {
            if has_stamped(list@, p) {
                let k = choose|k: int| 0 <= k < list@.len() && (#[trigger] list@[k]).0 == p;
                assert(false);
            }
        }
        false
    }

    /// This maze's memory book, for renderers; the tick keeps it fresh.
    pub fn past_visible_positions(&self) -> (r: &Vec<(Position, u64)>)
        requires
            self.maze_id_spec() < self.past_visible_spec().len(),
        ensures
            r@ == self.past_visible_spec()[self.maze_id_spec() as int],
    {
        &self.past_visible[self.maze_id]
    }

    /// Whether this maze already has a memory book.
    pub fn has_past_visible_positions(&self) -> (r: bool)
        ensures
            r == (self.maze_id_spec() < self.past_visible_spec().len()),
    {
        self.maze_id < self.past_visible.len()
    }

    /// The power-up collected in the current maze, if any.
    pub fn power_up_collected_in_maze(&self) -> (r: Option<PowerUp>)
        requires
            self.wf(),
        ensures
            match r {
                Some(p) => collected_is(self.collected_spec(), self.maze_id_spec(), p),
                None => !has_collected(self.collected_spec(), self.maze_id_spec()),
            },
            (r is Some) == has_collected(self.collected_spec(), self.maze_id_spec()),
    {
        let mut i: usize = 0;
        let n = self.collected_power_ups.len();
        while i < n
            invariant
                n == self.collected_spec().len(),
                i <= n,
                forall|j: int| 0 <= j < i ==> (#[trigger] self.collected_spec()[j]).0
                    != self.maze_id_spec(),
            decreases n - i,
        {
            let (m, p) = self.collected_power_ups[i];
            if m == self.maze_id {
                return Some(p);
            }
            i += 1;
        }
        proof {
            if has_collected(self.collected_spec(), self.maze_id_spec()) {
                let k = choose|k: int|
                    0 <= k < self.collected_spec().len() && (#[trigger] self.collected_spec()[k]).0
                        == self.maze_id_spec();
                assert(false);
            }
        }
        None
    }
}

} // verus!
