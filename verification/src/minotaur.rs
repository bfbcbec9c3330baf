//! The autonomous pursuer: perception-driven chase targeting and greedy,
//! cooldown-limited movement.
use vstd::prelude::*;
use vstd::view::View as _;
use crate::direction::Direction;
use crate::hero::Hero;
use crate::maze::Maze;
use crate::position::{dist2, distance_squared, into_direction, pos_int, step_spec, Position};
use crate::rng::{random_below, random_player_id};
use crate::view::{movement_recovery_ms, movement_recovery_ms_spec, view_for_vision,
    view_for_vision_spec, View};

verus! {

/// Whether some hero of the list carries this id.
pub open spec fn heroes_have_id(s: Seq<&Hero>, id: u128) -> bool {
    exists|i: int| 0 <= i < s.len() && (#[trigger] s[i]).id_spec() == id
}

/// No two listed heroes share an id.
pub open spec fn heroes_unique(s: Seq<&Hero>) -> bool {
    forall|i: int, j: int|
        0 <= i < j < s.len() ==> (#[trigger] s[i]).id_spec() != (#[trigger] s[j]).id_spec()
}

/// All listed heroes stand at small coordinates (as maze positions do).
pub open spec fn heroes_bounded(s: Seq<&Hero>) -> bool {
    forall|i: int|
        0 <= i < s.len() ==> (#[trigger] s[i]).position_spec().0 < 30000
            && s[i].position_spec().1 < 30000
}

/// Whether the direction list holds `d`.
pub open spec fn dir_in(s: Seq<Direction>, d: Direction) -> bool {
    exists|k: int| 0 <= k < s.len() && s[k] == d
}

/// Whether stepping toward `d` from `from` lands on a legal pursuer cell
/// that lies strictly closer to `target`.
pub open spec fn closing_step(maze: Maze, from: Position, target: Position, d: Direction) -> bool {
    let np = step_spec(from, d);
    &&& maze.valid_set().contains(pos_int(np))
    &&& dist2(pos_int(np), pos_int(maze.entrance_seq()[0])) > 36
    &&& dist2(pos_int(np), pos_int(maze.entrance_seq()[1])) > 36
    &&& dist2(pos_int(np), pos_int(target)) < dist2(pos_int(from), pos_int(target))
}

/// An autonomous agent confined to one maze that perceives and chases
/// heroes.
pub struct Minotaur {
    pub id: u128,
    pub name: String,
    pub chasing: Option<u128>,
    pub maze_id: usize,
    pub position: Position,
    pub direction: Direction,
    pub speed: u64,
    pub vision: usize,
    /// Probability of acting on a movement opportunity, in percent.
    pub aggression: u64,
    pub last_update_time: u64,
    pub kills: usize,
}

impl Minotaur {
    pub open spec fn id_spec(self) -> u128 {
        self.id
    }

    pub open spec fn position_spec(self) -> Position {
        self.position
    }

    pub open spec fn maze_id_spec(self) -> usize {
        self.maze_id
    }

    /// Stats within their tiers.
    pub open spec fn wf(self) -> bool {
        &&& self.speed <= 8
        &&& self.vision <= 8
        &&& self.aggression <= 100
    }

    /// A fresh pursuer at `position`, not yet chasing anyone.
    pub fn new(
        name: String,
        maze_id: usize,
        position: Position,
        speed: u64,
        vision: usize,
        aggression: u64,
        now_ms: u64,
    ) -> (r: Minotaur)
        requires
            speed <= 8,
            vision <= 8,
            aggression <= 100,
        ensures
            r.wf(),
            r.name@ == name@,
            r.chasing is None,
            r.maze_id == maze_id,
            r.position == position,
            r.direction == Direction::North,
            r.speed == speed,
            r.vision == vision,
            r.aggression == aggression,
            r.last_update_time == now_ms,
            r.kills == 0,
    {
        Minotaur {
            id: random_player_id(),
            name,
            chasing: None,
            maze_id,
            position,
            direction: Direction::North,
            speed,
            vision,
            aggression,
            last_update_time: now_ms,
            kills: 0,
        }
    }

    pub fn id(&self) -> (r: u128)
        ensures
            r == self.id,
    {
        self.id
    }

    pub fn name(&self) -> (r: &String)
        ensures
            r@ == self.name@,
    {
        &self.name
    }

    pub fn vision(&self) -> (r: usize)
        ensures
            r == self.vision,
    {
        self.vision
    }

    pub fn speed(&self) -> (r: u64)
        ensures
            r == self.speed,
    {
        self.speed
    }

    pub fn position(&self) -> (r: Position)
        ensures
            r == self.position,
    {
        self.position
    }

    pub fn direction(&self) -> (r: Direction)
        ensures
            r == self.direction,
    {
        self.direction
    }

    pub fn maze_id(&self) -> (r: usize)
        ensures
            r == self.maze_id,
    {
        self.maze_id
    }

    /// The visibility shape this pursuer's vision tier grants.
    pub fn view(&self) -> (r: View)
        ensures
            r == view_for_vision_spec(self.vision),
            r.wf(),
    {
        view_for_vision(self.vision)
    }

    pub fn is_chasing(&self, player_id: u128) -> (r: bool)
        ensures
            r == (self.chasing == Some(player_id)),
    {
        match self.chasing {
            Some(h) => h == player_id,
            None => false,
        }
    }

    pub fn is_chasing_someone(&self) -> (r: bool)
        ensures
            r == (self.chasing is Some),
    {
        match self.chasing {
            Some(_) => true,
            None => false,
        }
    }

    /// The id of a visible hero at minimal squared distance, if any hero is
    /// visible; which of several equally near heroes is picked is left open.
    fn find_closest_hero(&self, visible_heros: &Vec<&Hero>) -> (r: Option<u128>)
        requires
            self.position.0 < 30000,
            self.position.1 < 30000,
            heroes_bounded(visible_heros@),
        ensures
            (r is Some) == (visible_heros@.len() > 0),
            match r {
                Some(id) => exists|i: int|
                    0 <= i < visible_heros@.len() && (#[trigger] visible_heros@[i]).id_spec() == id
                        && forall|j: int|
                        0 <= j < visible_heros@.len() ==> dist2(
                            pos_int(self.position),
                            pos_int(visible_heros@[i].position_spec()),
                        ) <= dist2(
                            pos_int(self.position),
                            pos_int((#[trigger] visible_heros@[j]).position_spec()),
                        ),
                None => true,
            },
    {
        if visible_heros.len() == 0 {
            return None;
        }
        let mut best: usize = 0;
        let mut best_d = distance_squared(self.position, visible_heros[0].position());
        let mut i: usize = 1;
        while i < visible_heros.len()
            invariant
                self.position.0 < 30000,
                self.position.1 < 30000,
                heroes_bounded(visible_heros@),
                best < i <= visible_heros@.len(),
                best_d == dist2(
                    pos_int(self.position),
                    pos_int(visible_heros@[best as int].position_spec()),
                ),
                forall|j: int|
                    0 <= j < i ==> best_d <= dist2(
                        pos_int(self.position),
                        pos_int((#[trigger] visible_heros@[j]).position_spec()),
                    ),
            decreases visible_heros@.len() - i,
        {
            let d = distance_squared(self.position, visible_heros[i].position());
            if d < best_d {
                best = i;
                best_d = d;
            }
            i += 1;
        }
        Some(visible_heros[best].id())
    }

    /// One AI step. Retargeting: a chased hero who fell out of sight is
    /// dropped; with no target, the nearest visible hero is locked on.
    /// Movement: only after the speed cooldown, to a valid pursuer cell,
    /// strictly closing in on a visible target while chasing (pure greedy,
    /// no pathfinding), and only on an aggression roll. Squared distance to
    /// a still-visible chased hero never increases.
    #[verifier::loop_isolation(false)]
    pub fn update(&mut self, maze: &Maze, visible_heros: &Vec<&Hero>, now_ms: u64)
        requires
            old(self).wf(),
            maze.wf(),
            heroes_bounded(visible_heros@),
            heroes_unique(visible_heros@),
            old(self).position.0 < maze.px_width_spec(),
            old(self).position.1 < maze.px_height_spec(),
            maze.px_width_spec() < 30000,
            maze.px_height_spec() < 30000,
        ensures
            final(self).wf(),
            final(self).id == old(self).id,
            final(self).name@ == old(self).name@,
            final(self).maze_id == old(self).maze_id,
            final(self).direction == old(self).direction,
            final(self).speed == old(self).speed,
            final(self).vision == old(self).vision,
            final(self).aggression == old(self).aggression,
            final(self).kills == old(self).kills,
            // retargeting
            match old(self).chasing {
                Some(h) => final(self).chasing == (if heroes_have_id(visible_heros@, h) {
                    Some(h)
                } else {
                    Option::<u128>::None
                }),
                None => if visible_heros@.len() > 0 {
                    final(self).chasing is Some && heroes_have_id(
                        visible_heros@,
                        final(self).chasing->Some_0,
                    )
                } else {
                    final(self).chasing is None
                },
            },
            // cooldown: too early means no movement at all
            (if now_ms >= old(self).last_update_time {
                (now_ms - old(self).last_update_time) as u64
            } else {
                0u64
            }) < movement_recovery_ms_spec(old(self).speed) ==> final(self).position == old(
                self,
            ).position && final(self).last_update_time == old(self).last_update_time,
            // movement: hold position, or step to a valid pursuer cell
            final(self).position == old(self).position || (exists|d: Direction|
                (#[trigger] d.index_spec()) < 4 && final(self).position == step_spec(
                    old(self).position,
                    d,
                ) && maze.valid_set().contains(pos_int(final(self).position)) && dist2(
                    pos_int(final(self).position),
                    pos_int(maze.entrance_seq()[0]),
                ) > 36 && dist2(pos_int(final(self).position), pos_int(maze.entrance_seq()[1]))
                    > 36),
            final(self).position == old(self).position ==> final(self).last_update_time == old(
                self,
            ).last_update_time,
            final(self).position != old(self).position ==> final(self).last_update_time == now_ms,
            // greedy pursuit: the distance to a still-visible chased hero
            // never increases, and strictly shrinks on any actual move
            forall|i: int|
                0 <= i < visible_heros@.len() && final(self).chasing == Some(
                    (#[trigger] visible_heros@[i]).id_spec(),
                ) ==> dist2(pos_int(final(self).position), pos_int(visible_heros@[i].position_spec()))
                    <= dist2(pos_int(old(self).position), pos_int(visible_heros@[i].position_spec())),
            forall|i: int|
                0 <= i < visible_heros@.len() && final(self).chasing == Some(
                    (#[trigger] visible_heros@[i]).id_spec(),
                ) && final(self).position != old(self).position ==> dist2(
                    pos_int(final(self).position),
                    pos_int(visible_heros@[i].position_spec()),
                ) < dist2(pos_int(old(self).position), pos_int(visible_heros@[i].position_spec())),
            // full aggression, an elapsed cooldown and some legal strictly
            // closing step toward the chased visible hero oblige a move
            ({
                let ready = (if now_ms >= old(self).last_update_time {
                    (now_ms - old(self).last_update_time) as u64
                } else {
                    0u64
                }) >= movement_recovery_ms_spec(old(self).speed);
                forall|i: int|
                    0 <= i < visible_heros@.len() && final(self).chasing == Some(
                        (#[trigger] visible_heros@[i]).id_spec(),
                    ) && ready && old(self).aggression == 100 && (exists|d: Direction|
                        (#[trigger] d.index_spec()) < 4 && closing_step(
                            *maze,
                            old(self).position,
                            visible_heros@[i].position_spec(),
                            d,
                        )) ==> final(self).position != old(self).position
            }),
    {
        // Retarget.
        match self.chasing {
            Some(h) => {
                if !Minotaur::contains_id(visible_heros, h) {
                    self.chasing = None;
                }
            },
            None => {
                match self.find_closest_hero(visible_heros) {
                    Some(c) => {
                        self.chasing = Some(c);
                        proof {
                            assert(heroes_have_id(visible_heros@, c));
                        }
                    },
                    None => {},
                }
            },
        }

        // Movement cooldown.
        let elapsed = if now_ms >= self.last_update_time {
            now_ms - self.last_update_time
        } else {
            0
        };
        if elapsed < movement_recovery_ms(self.speed) {
            return ;
        }

        // Candidate directions: the 4 orthogonal ones whose destination is a
        // valid pursuer cell.
        let orthogonal = [
            Direction::North,
            Direction::East,
            Direction::South,
            Direction::West,
        ];
        let mut candidates: Vec<Direction> = Vec::new();
        let mut oi: usize = 0;
        while oi < 4
            invariant
                oi <= 4,
                forall|k: int|
                    0 <= k < candidates@.len() ==> (#[trigger] candidates@[k]).index_spec() < 4,
                forall|k: int|
                    0 <= k < candidates@.len() ==> {
                        let np = step_spec(self.position, #[trigger] candidates@[k]);
                        maze.valid_set().contains(pos_int(np)) && dist2(
                            pos_int(np),
                            pos_int(maze.entrance_seq()[0]),
                        ) > 36 && dist2(pos_int(np), pos_int(maze.entrance_seq()[1])) > 36
                    },
                forall|d2: Direction|
                    (#[trigger] d2.index_spec()) < oi && {
                        let np = step_spec(self.position, d2);
                        &&& maze.valid_set().contains(pos_int(np))
                        &&& dist2(pos_int(np), pos_int(maze.entrance_seq()[0])) > 36
                        &&& dist2(pos_int(np), pos_int(maze.entrance_seq()[1])) > 36
                    } ==> dir_in(candidates@, d2),
            decreases 4 - oi,
        {
            let d = orthogonal[oi];
            proof {
                assert(d.index_spec() == oi) by {
                    assert(orthogonal@[0].index_spec() == 0);
                    assert(orthogonal@[1].index_spec() == 1);
                    assert(orthogonal@[2].index_spec() == 2);
                    assert(orthogonal@[3].index_spec() == 3);
                }
            }
            let ghost cands_pre = candidates@;
            let np = into_direction(self.position, &d);
            if maze.is_valid_minotaur_position(np) {
                candidates.push(d);
            }
            proof {
                assert forall|d2: Direction|
                    (#[trigger] d2.index_spec()) < oi + 1 && {
                        let np2 = step_spec(self.position, d2);
                        &&& maze.valid_set().contains(pos_int(np2))
                        &&& dist2(pos_int(np2), pos_int(maze.entrance_seq()[0])) > 36
                        &&& dist2(pos_int(np2), pos_int(maze.entrance_seq()[1])) > 36
                    } implies dir_in(candidates@, d2) by {
                    if d2.index_spec() < oi {
                        assert(dir_in(cands_pre, d2));
                        let k = choose|k: int| 0 <= k < cands_pre.len() && cands_pre[k] == d2;
                        assert(candidates@[k] == d2);
                    } else {
                        assert(d2.index_spec() == oi);
                        assert(d2 == d) by {
                            match d2 {
                                Direction::North => assert(d == orthogonal@[0]),
                                Direction::East => assert(d == orthogonal@[1]),
                                Direction::South => assert(d == orthogonal@[2]),
                                Direction::West => assert(d == orthogonal@[3]),
                                _ => assert(false),
                            }
                        }
                        assert(candidates@[candidates@.len() - 1] == d2);
                    }
                }
            }
            oi += 1;
        }

        // While chasing a visible hero, keep only directions that strictly
        // reduce the squared distance to it.
        let mut target: Option<Position> = None;
        match self.chasing {
            Some(h) => {
                let mut ti: usize = 0;
                while ti < visible_heros.len()
                    invariant
                        ti <= visible_heros@.len(),
                        match target {
                            Some(tp) => exists|i: int|
                                0 <= i < visible_heros@.len() && (
                                #[trigger] visible_heros@[i]).id_spec() == h
                                    && visible_heros@[i].position_spec() == tp,
                            None => forall|i: int|
                                0 <= i < ti ==> (#[trigger] visible_heros@[i]).id_spec() != h,
                        },
                    decreases visible_heros@.len() - ti,
                {
                    if target.is_none() && visible_heros[ti].id() == h {
                        target = Some(visible_heros[ti].position());
                    }
                    ti += 1;
                }
            },
            None => {},
        }
        let ghost cand_all = candidates@;
        match target {
            Some(tp) => {
                let cur = distance_squared(self.position, tp);
                let mut closing: Vec<Direction> = Vec::new();
                let mut ci: usize = 0;
                while ci < candidates.len()
                    invariant
                        candidates@ == cand_all,
                        ci <= candidates@.len(),
                        forall|k: int|
                            0 <= k < ci && dist2(
                                pos_int(step_spec(self.position, #[trigger] candidates@[k])),
                                pos_int(tp),
                            ) < dist2(pos_int(self.position), pos_int(tp)) ==> dir_in(
                                closing@,
                                candidates@[k],
                            ),
                        tp.0 < 30000,
                        tp.1 < 30000,
                        cur == dist2(pos_int(self.position), pos_int(tp)),
                        forall|k: int|
                            0 <= k < candidates@.len() ==> (
                            #[trigger] candidates@[k]).index_spec() < 4,
                        forall|k: int|
                            0 <= k < candidates@.len() ==> {
                                let np = step_spec(self.position, #[trigger] candidates@[k]);
                                maze.valid_set().contains(pos_int(np)) && dist2(
                                    pos_int(np),
                                    pos_int(maze.entrance_seq()[0]),
                                ) > 36 && dist2(pos_int(np), pos_int(maze.entrance_seq()[1])) > 36
                            },
                        forall|k: int|
                            0 <= k < closing@.len() ==> (#[trigger] closing@[k]).index_spec() < 4,
                        forall|k: int|
                            0 <= k < closing@.len() ==> {
                                let np = step_spec(self.position, #[trigger] closing@[k]);
                                maze.valid_set().contains(pos_int(np)) && dist2(
                                    pos_int(np),
                                    pos_int(maze.entrance_seq()[0]),
                                ) > 36 && dist2(pos_int(np), pos_int(maze.entrance_seq()[1])) > 36
                                    && dist2(pos_int(np), pos_int(tp)) < dist2(
                                    pos_int(self.position),
                                    pos_int(tp),
                                )
                            },
                    decreases candidates@.len() - ci,
                {
                    let d = candidates[ci];
                    let ghost closing_pre = closing@;
                    let np = into_direction(self.position, &d);
                    if distance_squared(np, tp) < cur {
                        closing.push(d);
                    }
                    proof {
                        assert forall|k: int|
                            0 <= k < ci + 1 && dist2(
                                pos_int(step_spec(self.position, #[trigger] candidates@[k])),
                                pos_int(tp),
                            ) < dist2(pos_int(self.position), pos_int(tp)) implies dir_in(
                            closing@,
                            candidates@[k],
                        ) by {
                            if k < ci {
                                assert(dir_in(closing_pre, candidates@[k]));
                                let k2 = choose|k2: int|
                                    0 <= k2 < closing_pre.len() && closing_pre[k2]
                                        == candidates@[k];
                                assert(closing@[k2] == candidates@[k]);
                            } else {
                                assert(closing@[closing@.len() - 1] == candidates@[k]);
                            }
                        }
                    }
                    ci += 1;
                }
                candidates = closing;
            },
            None => {},
        }

        // Aggression roll, then a uniform pick among what remains.
        if candidates.len() > 0 {
            let roll = random_below(100);
            if (roll as u64) < self.aggression {
                let pick = random_below(candidates.len());
                let d = candidates[pick];
                let np = into_direction(self.position, &d);
                if np.0 != self.position.0 || np.1 != self.position.1 {
                    self.position = np;
                    self.last_update_time = now_ms;
                    proof {
                        let dd = candidates@[pick as int];
                        assert(self.position == step_spec(old(self).position, dd));
                    }
                } else {
                    proof {
                        // a resolved chase target leaves only strictly
                        // closing candidates, and those always change cell
                        match target {
                            Some(tp) => {
                                assert(dist2(pos_int(np), pos_int(tp)) < dist2(
                                    pos_int(self.position),
                                    pos_int(tp),
                                ));
                                assert(false);
                            },
                            None => {
                                assert forall|i: int|
                                    0 <= i < visible_heros@.len() && self.chasing == Some(
                                        (#[trigger] visible_heros@[i]).id_spec(),
                                    ) implies false by {
                                    assert(heroes_have_id(
                                        visible_heros@,
                                        self.chasing->Some_0,
                                    ));
                                }
                            },
                        }
                    }
                }
            } else {
                proof {
                    // with full aggression the roll can never fail
                    if self.aggression == 100 {
                        assert(false);
                    }
                }
            }
        } else {
            proof {
                // an empty candidate list contradicts any legal strictly
                // closing step toward a resolved chase target
                assert forall|i: int|
                    0 <= i < visible_heros@.len() && self.chasing == Some(
                        (#[trigger] visible_heros@[i]).id_spec(),
                    ) && (exists|d2: Direction|
                        (#[trigger] d2.index_spec()) < 4 && closing_step(
                            *maze,
                            self.position,
                            visible_heros@[i].position_spec(),
                            d2,
                        )) implies false by {
                    let h = self.chasing->Some_0;
                    match target {
                        Some(tp) => {
                            let i3 = choose|i3: int|
                                0 <= i3 < visible_heros@.len() && (
                                #[trigger] visible_heros@[i3]).id_spec() == h
                                    && visible_heros@[i3].position_spec() == tp;
                            assert(i3 == i);
                            assert(tp == visible_heros@[i].position_spec());
                            let wd = choose|d2: Direction|
                                (#[trigger] d2.index_spec()) < 4 && closing_step(
                                    *maze,
                                    self.position,
                                    visible_heros@[i].position_spec(),
                                    d2,
                                );
                            assert(dir_in(cand_all, wd));
                            let k = choose|k: int|
                                0 <= k < cand_all.len() && cand_all[k] == wd;
                            assert(dist2(
                                pos_int(step_spec(self.position, cand_all[k])),
                                pos_int(tp),
                            ) < dist2(pos_int(self.position), pos_int(tp)));
                            assert(dir_in(candidates@, wd));
                            assert(false);
                        },
                        None => {
                            assert(heroes_have_id(visible_heros@, h));
                            assert(false);
                        },
                    }
                }
            }
        }
        proof {
            if self.position != old(self).position {
                assert forall|i: int|
                    0 <= i < visible_heros@.len() && self.chasing == Some(
                        (#[trigger] visible_heros@[i]).id_spec(),
                    ) implies dist2(pos_int(self.position), pos_int(visible_heros@[i].position_spec()))
                    < dist2(pos_int(old(self).position), pos_int(visible_heros@[i].position_spec())) by {
                    match target {
                        Some(tp) => {
                            let w = choose|w: int|
                                0 <= w < visible_heros@.len() && (
                                #[trigger] visible_heros@[w]).id_spec()
                                    == self.chasing->Some_0 && visible_heros@[w].position_spec()
                                    == tp;
                            assert(visible_heros@[i].id_spec() == visible_heros@[w].id_spec());
                            assert(i == w);
                            assert(visible_heros@[i].position_spec() == tp);
                        },
                        None => {
                            match old(self).chasing {
                                Some(h) => {
                                    assert(self.chasing == old(self).chasing || self.chasing
                                        is None);
                                    assert(heroes_have_id(visible_heros@, h));
                                    assert(false);
                                },
                                None => {
                                    assert(heroes_have_id(
                                        visible_heros@,
                                        self.chasing->Some_0,
                                    ));
                                    assert(false);
                                },
                            }
                        },
                    }
                }
            }
        }
    }

    /// Whether some listed hero carries `id`.
    fn contains_id(visible_heros: &Vec<&Hero>, id: u128) -> (r: bool)
        ensures
            r == heroes_have_id(visible_heros@, id),
    {
        let mut i: usize = 0;
        while i < visible_heros.len()
            invariant
                i <= visible_heros@.len(),
                forall|j: int| 0 <= j < i ==> (#[trigger] visible_heros@[j]).id_spec() != id,
            decreases visible_heros@.len() - i,
        {
            if visible_heros[i].id() == id {
                return true;
            }
            i += 1;
        }
        proof {
            if heroes_have_id(visible_heros@, id) {
                let k = choose|k: int|
                    0 <= k < visible_heros@.len() && (#[trigger] visible_heros@[k]).id_spec() == id;
                assert(false);
            }
        }
        false
    }
}

} // verus!
