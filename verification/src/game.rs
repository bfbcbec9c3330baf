//! The game engine: the fixed ladder of mazes, the rosters of heroes and
//! pursuers, the periodic simulation tick, player commands, and the
//! competitive rankings.
use vstd::prelude::*;
use vstd::view::View as _;
use crate::alarm_level::AlarmLevel;
use crate::direction::Direction;
use crate::hero::{has_stamp, Hero, HeroCommand, HeroState};
use crate::maze::{Maze, VisKey};
use crate::minotaur::Minotaur;
use crate::position::{dist2, distance_squared, into_direction, pos_int, step_spec, Position};
use crate::rng::{minotaur_display_name, suffixed_player_name};
use crate::view::view_for_vision_spec;
use crate::score::{hero_score_view, hero_views, lemma_hero_views_perm, lemma_hero_views_pointwise,
    lemma_mino_views_of_roster, lemma_mino_views_perm, mino_views, minotaur_score_view,
    rank_heroes, rank_minotaurs, roster_views, HeroScore, MinotaurScore};

verus! {

/// Number of mazes in the default ladder; reaching past the last one wins.
pub const MAX_MAZE_ID: usize = 10;

/// Milliseconds a dead or victorious hero waits before respawning.
pub const RESPAWN_INTERVAL_MS: u64 = 1500;

/// The visibility key a hero currently observes under.
pub open spec fn hero_vis_key(h: Hero) -> VisKey {
    VisKey {
        x: h.position_spec().0,
        y: h.position_spec().1,
        direction: h.direction_spec(),
        view: view_for_vision_spec(h.vision_spec()),
    }
}

/// Every cell the hero currently sees carries a fresh stamp in its
/// current-maze memory book.
pub open spec fn sees_fresh(g: Game, h: Hero, now_ms: u64) -> bool {
    let mid = h.maze_id_spec() as int;
    let vis = g.mazes_seq()[mid].entry_spec(hero_vis_key(h));
    &&& mid < h.past_visible_spec().len()
    &&& forall|p: Position|
        vis.contains(pos_int(p)) ==> has_stamp(#[trigger] h.past_visible_spec()[mid], p, now_ms)
}

/// What one hero's current-maze memory book must hold right after a
/// refresh at `now_ms`: every cell of `vis` stamped now, every other old
/// entry kept exactly while fresh.
pub open spec fn book_refreshed(
    h0: Hero,
    h1: Hero,
    vis: Set<(int, int)>,
    now_ms: u64,
) -> bool {
    let mid = h0.maze_id_spec() as int;
    let dur = (10000 + 10000 * h0.memory_spec()) as u64;
    let oldl = if mid < h0.past_visible_spec().len() {
        h0.past_visible_spec()[mid]
    } else {
        Seq::<(Position, u64)>::empty()
    };
    &&& mid < h1.past_visible_spec().len()
    &&& ({
        let newl = h1.past_visible_spec()[mid];
        forall|p: Position, t: u64| #[trigger]
            has_stamp(newl, p, t) <==> ((vis.contains(pos_int(p)) && t == now_ms) || (
            !vis.contains(pos_int(p)) && has_stamp(oldl, p, t) && (if now_ms >= t {
                (now_ms - t) as u64
            } else {
                0u64
            }) < dur))
    })
}

/// A saturating counter bump, as the maze counters perform it.
pub open spec fn counter_inc(x: usize) -> int {
    if x < usize::MAX {
        x + 1
    } else {
        x as int
    }
}

/// A saturating counter cut, as the maze counters perform it.
pub open spec fn counter_dec(x: usize) -> int {
    if x > 0 {
        x - 1
    } else {
        0
    }
}

/// Both success-rate counters of every maze unchanged between two states.
pub open spec fn same_counters(a: Game, b: Game) -> bool {
    &&& a.mazes_seq().len() == b.mazes_seq().len()
    &&& forall|m: int|
        0 <= m < b.mazes_seq().len() ==> (#[trigger] a.mazes_seq()[m]).attempted_spec()
            == b.mazes_seq()[m].attempted_spec() && a.mazes_seq()[m].passed_spec()
            == b.mazes_seq()[m].passed_spec()
}

pub proof fn lemma_same_counters_trans(a: Game, b: Game, c: Game)
    requires
        same_counters(a, b),
        same_counters(b, c),
    ensures
        same_counters(a, c),
{
    assert forall|m: int|
        0 <= m < c.mazes_seq().len() implies (#[trigger] a.mazes_seq()[m]).attempted_spec()
        == c.mazes_seq()[m].attempted_spec() && a.mazes_seq()[m].passed_spec()
        == c.mazes_seq()[m].passed_spec() by {
        assert(b.mazes_seq()[m].attempted_spec() == c.mazes_seq()[m].attempted_spec());
        assert(a.mazes_seq()[m].attempted_spec() == b.mazes_seq()[m].attempted_spec());
        assert(b.mazes_seq()[m].passed_spec() == c.mazes_seq()[m].passed_spec());
        assert(a.mazes_seq()[m].passed_spec() == b.mazes_seq()[m].passed_spec());
    }
}

pub proof fn lemma_same_counters_of_eq(a: Game, b: Game)
    requires
        a.mazes_seq() == b.mazes_seq(),
    ensures
        same_counters(a, b),
{
    assert forall|m: int|
        0 <= m < b.mazes_seq().len() implies (#[trigger] a.mazes_seq()[m]).attempted_spec()
        == b.mazes_seq()[m].attempted_spec() && a.mazes_seq()[m].passed_spec()
        == b.mazes_seq()[m].passed_spec() by {
        assert(a.mazes_seq()[m] == b.mazes_seq()[m]);
    }
}

/// What holds of every pursuer freshly spawned for ladder slot
/// `m.maze_id`: difficulty-scaled stats, a clean record, and a legal spot
/// outside the entrance safe zone of its maze.
pub open spec fn spawned_minotaur_ok(mazes: Seq<Maze>, m: Minotaur) -> bool {
    let id = m.maze_id_spec();
    &&& id < mazes.len()
    &&& m.kills == 0
    &&& m.chasing is None
    &&& m.direction == Direction::North
    &&& m.speed == (if id / 3 < 5 {
        (id / 3) as u64
    } else {
        5u64
    })
    &&& m.vision == (if 3 + id / 3 < 6 {
        (3 + id / 3) as usize
    } else {
        6usize
    })
    &&& m.aggression == (if id / 2 < 11 {
        (45 + 5 * (id / 2)) as u64
    } else {
        100u64
    })
    &&& mazes[id as int].valid_set().contains(pos_int(m.position_spec()))
    &&& dist2(pos_int(m.position_spec()), pos_int(mazes[id as int].entrance_seq()[0])) >= 100
}

/// Exactly one stat rose by one tier: speed or vision when below their
/// caps, or memory (which saturates only at its technical bound).
pub open spec fn exactly_one_upgrade(h0: Hero, h1: Hero) -> bool {
    ||| (h0.speed_spec() < Hero::MAX_SPEED && h1.speed_spec() == h0.speed_spec() + 1
        && h1.vision_spec() == h0.vision_spec() && h1.memory_spec() == h0.memory_spec())
    ||| (h0.vision_spec() < Hero::MAX_VISION && h1.vision_spec() == h0.vision_spec() + 1
        && h1.speed_spec() == h0.speed_spec() && h1.memory_spec() == h0.memory_spec())
    ||| (h1.memory_spec() == (if h0.memory_spec() < Hero::MEMORY_CAP {
        h0.memory_spec() + 1
    } else {
        h0.memory_spec() as int
    }) && h1.speed_spec() == h0.speed_spec() && h1.vision_spec() == h0.vision_spec())
}

/// Neither any maze's success counters nor any room roster changed.
pub open spec fn same_counters_and_rooms(a: Game, b: Game) -> bool {
    &&& same_counters(a, b)
    &&& forall|m: int|
        0 <= m < b.mazes_seq().len() ==> #[trigger] a.hero_room_spec(m) == b.hero_room_spec(m)
}

/// How many heroes of `hs` stand alive on the cell (`maze_id`, `pos`).
pub open spec fn caught_now(hs: Seq<Hero>, maze_id: usize, pos: Position) -> int
    decreases hs.len(),
{
    if hs.len() == 0 {
        0
    } else {
        caught_now(hs.drop_last(), maze_id, pos) + if {
            let h = hs.last();
            &&& h.maze_id_spec() == maze_id
            &&& h.position_spec() == pos
            &&& !(h.state is Dead)
        } {
            1int
        } else {
            0int
        }
    }
}

/// How many heroes stand on the cell (`maze_id`, `pos`) at the end of a
/// tick (their placement from `g1h`) and entered the tick alive (their
/// pre-tick state from `g0h`, an elapsed respawn timer reviving them).
pub open spec fn caught_by(
    g0h: Seq<Hero>,
    g1h: Seq<Hero>,
    now_ms: u64,
    maze_id: usize,
    pos: Position,
) -> int
    decreases g1h.len(),
{
    if g1h.len() == 0 || g0h.len() != g1h.len() {
        0
    } else {
        caught_by(g0h.drop_last(), g1h.drop_last(), now_ms, maze_id, pos) + if {
            let h1 = g1h.last();
            let h0 = g0h.last();
            &&& h1.maze_id_spec() == maze_id
            &&& h1.position_spec() == pos
            &&& !(h0.state is Dead && !Game::respawn_due(h0.state, now_ms))
        } {
            1int
        } else {
            0int
        }
    }
}

/// Pointwise-identical catch conditions give identical counts.
proof fn lemma_caught_counts_eq(
    hs: Seq<Hero>,
    g0h: Seq<Hero>,
    g1h: Seq<Hero>,
    now_ms: u64,
    maze_id: usize,
    pos: Position,
)
    requires
        hs.len() == g0h.len() == g1h.len(),
        forall|j: int|
            0 <= j < hs.len() ==> (((#[trigger] hs[j]).maze_id_spec() == maze_id
                && hs[j].position_spec() == pos && !(hs[j].state is Dead)) <==> ((
            #[trigger] g1h[j]).maze_id_spec() == maze_id && g1h[j].position_spec() == pos && !(
            g0h[j].state is Dead && !Game::respawn_due(g0h[j].state, now_ms)))),
    ensures
        caught_now(hs, maze_id, pos) == caught_by(g0h, g1h, now_ms, maze_id, pos),
    decreases hs.len(),
{
    if hs.len() > 0 {
        lemma_caught_counts_eq(
            hs.drop_last(),
            g0h.drop_last(),
            g1h.drop_last(),
            now_ms,
            maze_id,
            pos,
        );
        assert(hs[hs.len() - 1] == hs.last());
        assert(g0h[g0h.len() - 1] == g0h.last());
        assert(g1h[g1h.len() - 1] == g1h.last());
    }
}

/// How many pursuers of the roster belong to maze `m`.
pub open spec fn count_in_maze(ms: Seq<Minotaur>, m: usize) -> int
    decreases ms.len(),
{
    if ms.len() == 0 {
        0
    } else {
        count_in_maze(ms.drop_last(), m) + if ms.last().maze_id_spec() == m {
            1int
        } else {
            0int
        }
    }
}

/// No entry of the id list equals the candidate value `c`.
pub open spec fn id_free(ids: Seq<u128>, c: int) -> bool {
    forall|i: int| 0 <= i < ids.len() ==> (#[trigger] ids[i]) != c as u128
}

/// Among more small candidate values than a list has entries, some value
/// is free of the list.
proof fn lemma_free_small_id(ids: Seq<u128>, m: int)
    requires
        ids.len() < m <= 1000001,
    ensures
        exists|c: int| 0 <= c < m && #[trigger] id_free(ids, c),
    decreases ids.len(),
{
    if ids.len() == 0 {
        assert(0 <= 0 < m && id_free(ids, 0));
    } else if forall|i: int| 0 <= i < ids.len() ==> (#[trigger] ids[i]) != (m - 1) as u128 {
        assert(0 <= m - 1 < m && id_free(ids, m - 1));
    } else {
        let j = choose|i: int| 0 <= i < ids.len() && (#[trigger] ids[i]) == (m - 1) as u128;
        let ids2 = ids.remove(j);
        ids.remove_ensures(j);
        lemma_free_small_id(ids2, m - 1);
        let c = choose|c: int| 0 <= c < m - 1 && #[trigger] id_free(ids2, c);
        assert forall|i: int| 0 <= i < ids.len() implies (#[trigger] ids[i]) != c as u128 by {
            if i < j {
                assert(ids2[i] == ids[i]);
            } else if i > j {
                assert(ids2[i - 1] == ids[i]);
            } else {
                assert(ids[i] == (m - 1) as u128);
            }
        }
        assert(0 <= c < m && id_free(ids, c));
    }
}

/// A pursuer's current leaderboard entry.
pub open spec fn mino_score_spec(m: Minotaur) -> MinotaurScore {
    MinotaurScore { id: m.id, name: m.name, maze_id: m.maze_id, kills: m.kills }
}

pub struct Game {
    mazes: Vec<Maze>,
    taken_names: Vec<String>,
    heros: Vec<Hero>,
    hero_rooms: Vec<Vec<u128>>,
    top_heros_map: Vec<HeroScore>,
    top_heros: Vec<HeroScore>,
    minotaurs: Vec<Minotaur>,
    minotaur_rooms: Vec<Vec<u128>>,
    top_minotaurs: Vec<MinotaurScore>,
}

impl Game {
    pub closed spec fn mazes_seq(self) -> Seq<Maze> {
        self.mazes@
    }

    pub closed spec fn heros_seq(self) -> Seq<Hero> {
        self.heros@
    }

    pub closed spec fn minotaurs_seq(self) -> Seq<Minotaur> {
        self.minotaurs@
    }

    pub closed spec fn top_heros_seq(self) -> Seq<HeroScore> {
        self.top_heros@
    }

    pub closed spec fn top_minotaurs_seq(self) -> Seq<MinotaurScore> {
        self.top_minotaurs@
    }

    pub closed spec fn records_seq(self) -> Seq<HeroScore> {
        self.top_heros_map@
    }

    /// The pursuer roster of one maze, as ids.
    pub closed spec fn minotaur_room_spec(self, m: int) -> Seq<u128> {
        self.minotaur_rooms@[m]@
    }

    /// The hero roster of one maze, as ids.
    pub closed spec fn hero_room_spec(self, m: int) -> Seq<u128> {
        self.hero_rooms@[m]@
    }

    /// Whether the id list holds `id`.
    pub open spec fn room_has(room: Seq<u128>, id: u128) -> bool {
        exists|k: int| 0 <= k < room.len() && room[k] == id
    }

    proof fn lemma_room_push_keeps(room: Seq<u128>, id: u128, x: u128)
        requires
            Game::room_has(room, id),
        ensures
            Game::room_has(room.push(x), id),
    {
        let k = choose|k: int| 0 <= k < room.len() && room[k] == id;
        assert(room.push(x)[k] == id);
    }

    pub closed spec fn rooms_wf(self) -> bool {
        &&& self.hero_rooms@.len() == self.mazes@.len()
        &&& self.minotaur_rooms@.len() == self.mazes@.len()
    }

    /// Number of mazes in this game's ladder.
    pub open spec fn ladder_len(self) -> int {
        self.mazes_seq().len() as int
    }

    pub open spec fn has_hero(self, id: u128) -> bool {
        exists|i: int| 0 <= i < self.heros_seq().len() && (#[trigger] self.heros_seq()[i]).id_spec()
            == id
    }

    /// Index of the hero with this id (unique under `wf`).
    pub open spec fn hero_idx(self, id: u128) -> int {
        choose|i: int|
            0 <= i < self.heros_seq().len() && (#[trigger] self.heros_seq()[i]).id_spec() == id
    }

    pub open spec fn has_minotaur(self, id: u128) -> bool {
        exists|i: int|
            0 <= i < self.minotaurs_seq().len() && (#[trigger] self.minotaurs_seq()[i]).id_spec()
                == id
    }

    /// A hero consistent with the game: well formed, inside the ladder, and
    /// standing within its maze's pixel bounds.
    pub open spec fn hero_ok(self, h: Hero) -> bool {
        &&& h.wf()
        &&& h.maze_id_spec() < self.mazes_seq().len()
        &&& h.position_spec().0 < self.mazes_seq()[h.maze_id_spec() as int].px_width_spec()
        &&& h.position_spec().1 < self.mazes_seq()[h.maze_id_spec() as int].px_height_spec()
    }

    /// A pursuer consistent with the game.
    pub open spec fn minotaur_ok(self, m: Minotaur) -> bool {
        &&& m.wf()
        &&& m.maze_id_spec() < self.mazes_seq().len()
        &&& m.position_spec().0 < self.mazes_seq()[m.maze_id_spec() as int].px_width_spec()
        &&& m.position_spec().1 < self.mazes_seq()[m.maze_id_spec() as int].px_height_spec()
        &&& m.kills < 1000000000
    }

    /// The engine's invariant: a well-formed ladder indexed by maze id,
    /// well-placed unique-id entities, record books within range, and both
    /// leaderboards sorted and holding exactly the entries of their sources.
    pub open spec fn wf(self) -> bool {
        &&& self.wf_core()
        &&& self.boards_wf()
    }

    /// Both leaderboards sorted and holding exactly the entries of their
    /// sources.
    pub open spec fn boards_wf(self) -> bool {
        &&& crate::score::hero_scores_sorted(self.top_heros_seq())
        &&& hero_views(self.top_heros_seq()) == hero_views(self.records_seq())
        &&& crate::score::minotaur_scores_sorted(self.top_minotaurs_seq())
        &&& mino_views(self.top_minotaurs_seq()) == roster_views(self.minotaurs_seq())
    }

    /// Everything but the leaderboards well formed.
    pub open spec fn wf_core(self) -> bool {
        &&& 1 <= self.mazes_seq().len() < 100000
        &&& forall|m: int|
            0 <= m < self.mazes_seq().len() ==> (#[trigger] self.mazes_seq()[m]).wf()
                && self.mazes_seq()[m].id_spec() == m
        &&& self.rooms_wf()
        &&& forall|i: int, j: int|
            0 <= i < j < self.heros_seq().len() ==> (#[trigger] self.heros_seq()[i]).id_spec() != (
            #[trigger] self.heros_seq()[j]).id_spec()
        &&& forall|i: int|
            0 <= i < self.heros_seq().len() ==> self.hero_ok(#[trigger] self.heros_seq()[i])
        &&& forall|i: int, j: int|
            0 <= i < j < self.minotaurs_seq().len() ==> (
            #[trigger] self.minotaurs_seq()[i]).id_spec() != (
            #[trigger] self.minotaurs_seq()[j]).id_spec()
        &&& forall|i: int|
            0 <= i < self.minotaurs_seq().len() ==> self.minotaur_ok(
                #[trigger] self.minotaurs_seq()[i],
            )
        &&& forall|k: int|
            0 <= k < self.records_seq().len() ==> (#[trigger] self.records_seq()[k]).maze_id
                <= self.mazes_seq().len()
    }

    /// Core well-formedness carries over to a game with the same rosters
    /// and books.
    proof fn lemma_core_transfer(a: Game, b: Game)
        requires
            a.wf_core(),
            b.mazes_seq() == a.mazes_seq(),
            b.heros_seq() == a.heros_seq(),
            b.minotaurs_seq() == a.minotaurs_seq(),
            b.records_seq() == a.records_seq(),
            b.rooms_wf(),
        ensures
            b.wf_core(),
    {
        assert forall|m: int|
            0 <= m < b.mazes_seq().len() implies (#[trigger] b.mazes_seq()[m]).wf()
            && b.mazes_seq()[m].id_spec() == m by {
            assert(b.mazes_seq()[m] == a.mazes_seq()[m]);
        }
        assert forall|i: int, j: int|
            0 <= i < j < b.heros_seq().len() implies (#[trigger] b.heros_seq()[i]).id_spec() != (
        #[trigger] b.heros_seq()[j]).id_spec() by {
            assert(b.heros_seq()[i] == a.heros_seq()[i]);
            assert(b.heros_seq()[j] == a.heros_seq()[j]);
        }
        assert forall|i: int|
            0 <= i < b.heros_seq().len() implies b.hero_ok(#[trigger] b.heros_seq()[i]) by {
            assert(b.heros_seq()[i] == a.heros_seq()[i]);
            assert(a.hero_ok(a.heros_seq()[i]));
        }
        assert forall|i: int, j: int|
            0 <= i < j < b.minotaurs_seq().len() implies (
        #[trigger] b.minotaurs_seq()[i]).id_spec() != (
        #[trigger] b.minotaurs_seq()[j]).id_spec() by {
            assert(b.minotaurs_seq()[i] == a.minotaurs_seq()[i]);
            assert(b.minotaurs_seq()[j] == a.minotaurs_seq()[j]);
        }
        assert forall|i: int|
            0 <= i < b.minotaurs_seq().len() implies b.minotaur_ok(
            #[trigger] b.minotaurs_seq()[i],
        ) by {
            assert(b.minotaurs_seq()[i] == a.minotaurs_seq()[i]);
            assert(a.minotaur_ok(a.minotaurs_seq()[i]));
        }
        assert forall|k: int|
            0 <= k < b.records_seq().len() implies (#[trigger] b.records_seq()[k]).maze_id
            <= b.mazes_seq().len() by {
            assert(b.records_seq()[k] == a.records_seq()[k]);
        }
    }

    /// Core well-formedness carries over when the ladder keeps its shape
    /// and the rosters are unchanged, however the counters, caches and
    /// records moved.
    proof fn lemma_core_transfer_relaxed(a: Game, b: Game)
        requires
            a.wf_core(),
            b.mazes_seq().len() == a.mazes_seq().len(),
            forall|m: int|
                0 <= m < b.mazes_seq().len() ==> (#[trigger] b.mazes_seq()[m]).wf()
                    && b.mazes_seq()[m].id_spec() == m && b.mazes_seq()[m].px_width_spec()
                    == a.mazes_seq()[m].px_width_spec() && b.mazes_seq()[m].px_height_spec()
                    == a.mazes_seq()[m].px_height_spec(),
            b.heros_seq() == a.heros_seq(),
            b.minotaurs_seq() == a.minotaurs_seq(),
            forall|k: int|
                0 <= k < b.records_seq().len() ==> (#[trigger] b.records_seq()[k]).maze_id
                    <= b.mazes_seq().len(),
            b.rooms_wf(),
        ensures
            b.wf_core(),
    {
        assert forall|i: int, j: int|
            0 <= i < j < b.heros_seq().len() implies (#[trigger] b.heros_seq()[i]).id_spec() != (
        #[trigger] b.heros_seq()[j]).id_spec() by {
            assert(b.heros_seq()[i] == a.heros_seq()[i]);
            assert(b.heros_seq()[j] == a.heros_seq()[j]);
        }
        assert forall|i: int|
            0 <= i < b.heros_seq().len() implies b.hero_ok(#[trigger] b.heros_seq()[i]) by {
            assert(b.heros_seq()[i] == a.heros_seq()[i]);
            assert(a.hero_ok(a.heros_seq()[i]));
            let mid = a.heros_seq()[i].maze_id_spec() as int;
            assert(b.mazes_seq()[mid].px_width_spec() == a.mazes_seq()[mid].px_width_spec());
        }
        assert forall|i: int, j: int|
            0 <= i < j < b.minotaurs_seq().len() implies (
        #[trigger] b.minotaurs_seq()[i]).id_spec() != (
        #[trigger] b.minotaurs_seq()[j]).id_spec() by {
            assert(b.minotaurs_seq()[i] == a.minotaurs_seq()[i]);
            assert(b.minotaurs_seq()[j] == a.minotaurs_seq()[j]);
        }
        assert forall|i: int|
            0 <= i < b.minotaurs_seq().len() implies b.minotaur_ok(
            #[trigger] b.minotaurs_seq()[i],
        ) by {
            assert(b.minotaurs_seq()[i] == a.minotaurs_seq()[i]);
            assert(a.minotaur_ok(a.minotaurs_seq()[i]));
            let mid = a.minotaurs_seq()[i].maze_id_spec() as int;
            assert(b.mazes_seq()[mid].px_width_spec() == a.mazes_seq()[mid].px_width_spec());
        }
    }

    /// All maze geometry unchanged (the counters and caches may move).
    pub open spec fn same_mazes(self, other: Game) -> bool {
        &&& self.mazes_seq().len() == other.mazes_seq().len()
        &&& forall|m: int|
            0 <= m < self.mazes_seq().len() ==> (#[trigger] self.mazes_seq()[m]).same_geometry(
                other.mazes_seq()[m],
            )
    }

    /// Milliseconds between simulation ticks.
    pub fn update_time_step() -> (r: u64)
        ensures
            r == 25,
    {
        25
    }

    /// Milliseconds between renders.
    pub fn draw_time_step() -> (r: u64)
        ensures
            r == 50,
    {
        50
    }

    /// Assemble a game from explicit parts: a ladder of mazes indexed by
    /// their ids and an initial roster of pursuers. This is the
    /// deterministic entry point; `new` draws everything at random.
    pub fn with_mazes(mazes: Vec<Maze>, minotaurs: Vec<Minotaur>) -> (r: Game)
        requires
            1 <= mazes@.len() < 100000,
            forall|m: int|
                0 <= m < mazes@.len() ==> (#[trigger] mazes@[m]).wf() && mazes@[m].id_spec() == m,
            forall|i: int, j: int|
                0 <= i < j < minotaurs@.len() ==> (#[trigger] minotaurs@[i]).id_spec() != (
                #[trigger] minotaurs@[j]).id_spec(),
            forall|i: int|
                0 <= i < minotaurs@.len() ==> {
                    let m = #[trigger] minotaurs@[i];
                    &&& m.wf()
                    &&& m.maze_id_spec() < mazes@.len()
                    &&& m.position_spec().0 < mazes@[m.maze_id_spec() as int].px_width_spec()
                    &&& m.position_spec().1 < mazes@[m.maze_id_spec() as int].px_height_spec()
                    &&& m.kills < 1000000000
                },
        ensures
            r.wf(),
            r.mazes_seq() == mazes@,
            r.minotaurs_seq() == minotaurs@,
            r.heros_seq().len() == 0,
            r.records_seq().len() == 0,
            forall|m: int|
                0 <= m < mazes@.len() ==> #[trigger] r.minotaur_room_spec(m).len()
                    == count_in_maze(minotaurs@, m as usize),
    {
        let n = mazes.len();
        let mut hero_rooms: Vec<Vec<u128>> = Vec::new();
        let mut minotaur_rooms: Vec<Vec<u128>> = Vec::new();
        let mut m: usize = 0;
        while m < n
            invariant
                hero_rooms@.len() == m,
                minotaur_rooms@.len() == m,
                m <= n,
                forall|m2: int| 0 <= m2 < m ==> (#[trigger] minotaur_rooms@[m2])@.len() == 0,
            decreases n - m,
        {
            hero_rooms.push(Vec::new());
            minotaur_rooms.push(Vec::new());
            m += 1;
        }
        proof {
            assert(minotaurs@.take(0) =~= Seq::<Minotaur>::empty());
        }
        let mut ti: usize = 0;
        while ti < minotaurs.len()
            invariant
                ti <= minotaurs@.len(),
                minotaur_rooms@.len() == n == mazes@.len(),
                forall|i: int|
                    0 <= i < minotaurs@.len() ==> (#[trigger] minotaurs@[i]).maze_id_spec()
                        < mazes@.len(),
                forall|m: int|
                    0 <= m < n ==> (#[trigger] minotaur_rooms@[m])@.len() == count_in_maze(
                        minotaurs@.take(ti as int),
                        m as usize,
                    ),
            decreases minotaurs@.len() - ti,
        {
            let mid = minotaurs[ti].maze_id();
            let tid = minotaurs[ti].id();
            let ghost rooms_pre = minotaur_rooms@;
            minotaur_rooms[mid].push(tid);
            proof {
                assert(minotaurs@.take(ti + 1).drop_last() =~= minotaurs@.take(ti as int));
                assert(minotaurs@.take(ti + 1).last() == minotaurs@[ti as int]);
                assert forall|m: int|
                    0 <= m < n implies (#[trigger] minotaur_rooms@[m])@.len() == count_in_maze(
                    minotaurs@.take(ti + 1),
                    m as usize,
                ) by {
                    if m != mid {
                        assert(minotaur_rooms@[m] == rooms_pre[m]);
                    }
                }
            }
            ti += 1;
        }
        proof {
            assert(minotaurs@.take(minotaurs@.len() as int) =~= minotaurs@);
        }
        let mut scores: Vec<MinotaurScore> = Vec::new();
        let mut si: usize = 0;
        while si < minotaurs.len()
            invariant
                si <= minotaurs@.len(),
                scores@.len() == si,
                forall|i: int|
                    0 <= i < minotaurs@.len() ==> (#[trigger] minotaurs@[i]).maze_id_spec()
                        < mazes@.len() < 100000 && minotaurs@[i].kills < 1000000000,
                forall|i: int|
                    0 <= i < si ==> minotaur_score_view(#[trigger] scores@[i])
                        == minotaur_score_view(mino_score_spec(minotaurs@[i])) && scores@[i].maze_id
                        < 100000 && scores@[i].kills < 1000000000,
            decreases minotaurs@.len() - si,
        {
            let t = &minotaurs[si];
            scores.push(
                MinotaurScore {
                    id: t.id(),
                    name: t.name().clone(),
                    maze_id: t.maze_id(),
                    kills: t.kills,
                },
            );
            si += 1;
        }
        let ghost scores_pre = scores@;
        let top_minotaurs = rank_minotaurs(scores);
        proof {
            lemma_mino_views_perm(top_minotaurs@, scores_pre);
            lemma_mino_views_of_roster(scores_pre, minotaurs@);
        }
        Game {
            mazes,
            taken_names: Vec::new(),
            heros: Vec::new(),
            hero_rooms,
            top_heros_map: Vec::new(),
            top_heros: Vec::new(),
            minotaurs,
            minotaur_rooms,
            top_minotaurs,
        }
    }

    /// A fresh game: the full ladder of randomly generated mazes, each
    /// populated with as many pursuers as its index.
    pub fn new(now_ms: u64) -> (r: Game)
        ensures
            r.wf(),
            r.ladder_len() == MAX_MAZE_ID,
            r.heros_seq().len() == 0,
            forall|t: int|
                0 <= t < r.minotaurs_seq().len() ==> spawned_minotaur_ok(
                    r.mazes_seq(),
                    #[trigger] r.minotaurs_seq()[t],
                ),
            forall|m: int|
                0 <= m < MAX_MAZE_ID ==> #[trigger] r.minotaur_room_spec(m).len() == m,
    {
        let mut mazes: Vec<Maze> = Vec::new();
        let mut id: usize = 0;
        while id < MAX_MAZE_ID
            invariant
                id <= MAX_MAZE_ID,
                mazes@.len() == id,
                forall|m: int|
                    0 <= m < mazes@.len() ==> (#[trigger] mazes@[m]).wf() && mazes@[m].id_spec()
                        == m && mazes@[m].width_spec() >= 10,
            decreases MAX_MAZE_ID - id,
        {
            let maze = Maze::random(id, None);
            mazes.push(maze);
            id += 1;
        }
        let mut minotaurs: Vec<Minotaur> = Vec::new();
        let mut mi: usize = 0;
        while mi < MAX_MAZE_ID
            invariant
                mi <= MAX_MAZE_ID,
                mazes@.len() == MAX_MAZE_ID,
                minotaurs@.len() <= 50 * mi,
                forall|i: int, j: int|
                    0 <= i < j < minotaurs@.len() ==> (#[trigger] minotaurs@[i]).id_spec() != (
                    #[trigger] minotaurs@[j]).id_spec(),
                forall|m2: int|
                    0 <= m2 < mi ==> #[trigger] count_in_maze(minotaurs@, m2 as usize) == m2,
                forall|m2: int|
                    mi <= m2 < MAX_MAZE_ID ==> #[trigger] count_in_maze(minotaurs@, m2 as usize)
                        == 0,
                forall|m: int|
                    0 <= m < mazes@.len() ==> (#[trigger] mazes@[m]).wf() && mazes@[m].id_spec()
                        == m && mazes@[m].width_spec() >= 10,
                forall|i: int|
                    0 <= i < minotaurs@.len() ==> {
                        let t = #[trigger] minotaurs@[i];
                        &&& t.wf()
                        &&& t.maze_id_spec() < mazes@.len()
                        &&& t.position_spec().0 < mazes@[t.maze_id_spec() as int].px_width_spec()
                        &&& t.position_spec().1 < mazes@[t.maze_id_spec() as int].px_height_spec()
                        &&& t.kills < 1000000000
                    },
                forall|i: int|
                    0 <= i < minotaurs@.len() ==> spawned_minotaur_ok(
                        mazes@,
                        #[trigger] minotaurs@[i],
                    ),
            decreases MAX_MAZE_ID - mi,
        {
            proof {
                assert(count_in_maze(minotaurs@, (mi as int) as usize) == 0);
                assert(count_in_maze(minotaurs@, mi) == 0);
            }
            let mut index: usize = 0;
            while index < mi
                invariant
                    mi < MAX_MAZE_ID,
                    index <= mi,
                    mazes@.len() == MAX_MAZE_ID,
                    minotaurs@.len() <= 50 * mi + index,
                    forall|i: int, j: int|
                        0 <= i < j < minotaurs@.len() ==> (#[trigger] minotaurs@[i]).id_spec() != (
                        #[trigger] minotaurs@[j]).id_spec(),
                    forall|m2: int|
                        0 <= m2 < mi ==> #[trigger] count_in_maze(minotaurs@, m2 as usize) == m2,
                    count_in_maze(minotaurs@, mi) == index,
                    forall|m2: int|
                        mi < m2 < MAX_MAZE_ID ==> #[trigger] count_in_maze(
                            minotaurs@,
                            m2 as usize,
                        ) == 0,
                    forall|m: int|
                        0 <= m < mazes@.len() ==> (#[trigger] mazes@[m]).wf() && mazes@[m].id_spec()
                            == m && mazes@[m].width_spec() >= 10,
                    forall|i: int|
                        0 <= i < minotaurs@.len() ==> {
                            let t = #[trigger] minotaurs@[i];
                            &&& t.wf()
                            &&& t.maze_id_spec() < mazes@.len()
                            &&& t.position_spec().0 < mazes@[t.maze_id_spec() as int].px_width_spec()
                            &&& t.position_spec().1
                                < mazes@[t.maze_id_spec() as int].px_height_spec()
                            &&& t.kills < 1000000000
                        },
                    forall|i: int|
                        0 <= i < minotaurs@.len() ==> spawned_minotaur_ok(
                            mazes@,
                            #[trigger] minotaurs@[i],
                        ),
                decreases mi - index,
            {
                let name = minotaur_display_name(mi, index);
                let ghost pre = mazes@[mi as int];
                let spawned = {
                    let mz = &mut mazes[mi];
                    mz.spawn_minotaur(name, now_ms)
                };
                proof {
                    assert(mazes@[mi as int].same_geometry(pre));
                    assert forall|m: int|
                        0 <= m < mazes@.len() implies (#[trigger] mazes@[m]).wf()
                        && mazes@[m].id_spec() == m by {}
                    assert forall|i: int|
                        0 <= i < minotaurs@.len() implies {
                        let t = #[trigger] minotaurs@[i];
                        &&& t.wf()
                        &&& t.maze_id_spec() < mazes@.len()
                        &&& t.position_spec().0 < mazes@[t.maze_id_spec() as int].px_width_spec()
                        &&& t.position_spec().1 < mazes@[t.maze_id_spec() as int].px_height_spec()
                        &&& t.kills < 1000000000
                    } by {}
                    assert forall|i: int|
                        0 <= i < minotaurs@.len() implies spawned_minotaur_ok(
                        mazes@,
                        #[trigger] minotaurs@[i],
                    ) by {
                        let id2 = minotaurs@[i].maze_id_spec() as int;
                        if id2 == mi {
                            assert(mazes@[id2].valid_set() == pre.valid_set());
                            assert(mazes@[id2].entrance_seq() == pre.entrance_seq());
                        }
                    }
                }
                let mut t = match spawned {
                    Some(t) => t,
                    None => {
                        // impossible: the exit cells of these mazes are
                        // valid and lie far beyond the entrance safe zone
                        proof {
                            pre.lemma_maze_facts();
                            let q = pos_int(pre.exit_seq()[0]);
                            let e = pos_int(pre.entrance_seq()[0]);
                            assert(q.0 == pre.px_width_spec() - 1);
                            assert(e.0 == 0);
                            assert(pre.px_width_spec() >= 4 * 10 + 4);
                            assert((q.0 - e.0) * (q.0 - e.0) >= 100 && (q.1 - e.1) * (q.1 - e.1)
                                >= 0) by (nonlinear_arith)
                                requires
                                    q.0 - e.0 >= 43,
                            ;
                            assert(dist2(q, e) >= 100);
                            assert(false);
                        }
                        unreached()
                    },
                };
                // a colliding random id is replaced by a provably free one
                let fid = Game::fresh_minotaur_id(&minotaurs, t.id);
                t.id = fid;
                let ghost mins_pre = minotaurs@;
                minotaurs.push(t);
                proof {
                    assert(minotaurs@.drop_last() =~= mins_pre);
                    assert forall|i: int, j: int|
                        0 <= i < j < minotaurs@.len() implies (
                    #[trigger] minotaurs@[i]).id_spec() != (
                    #[trigger] minotaurs@[j]).id_spec() by {
                        if j == minotaurs@.len() - 1 {
                            assert(mins_pre[i].id_spec() != fid);
                        } else {
                            assert(mins_pre[i].id_spec() != mins_pre[j].id_spec());
                        }
                    }
                    assert(t.maze_id_spec() == mi);
                    assert forall|m2: int|
                        0 <= m2 < MAX_MAZE_ID && m2 != mi implies #[trigger] count_in_maze(
                        minotaurs@,
                        m2 as usize,
                    ) == count_in_maze(mins_pre, m2 as usize) by {}
                    assert(count_in_maze(minotaurs@, mi) == count_in_maze(mins_pre, mi) + 1);
                    assert(spawned_minotaur_ok(mazes@, t));
                }
                index += 1;
            }
            mi += 1;
        }
        proof {
            assert(1 <= mazes@.len() < 100000);
        }
        let game = Game::with_mazes(mazes, minotaurs);
        proof {
            assert forall|m: int|
                0 <= m < MAX_MAZE_ID implies #[trigger] game.minotaur_room_spec(m).len()
                == m by {
                assert(game.minotaur_room_spec(m).len() == count_in_maze(
                    game.minotaurs_seq(),
                    m as usize,
                ));
            }
        }
        game
    }

    /// An id no pursuer of the roster carries: the freshly drawn one when
    /// free, else the first free value among `0..=len` (one more candidate
    /// than the roster has entries, so one is always free).
    #[verifier::loop_isolation(false)]
    fn fresh_minotaur_id(roster: &Vec<Minotaur>, preferred: u128) -> (r: u128)
        requires
            roster@.len() < 1000000,
        ensures
            forall|i: int| 0 <= i < roster@.len() ==> (#[trigger] roster@[i]).id_spec() != r,
    {
        if !Game::minotaur_id_present(roster, preferred) {
            return preferred;
        }
        let ghost ids = roster@.map_values(|t: Minotaur| t.id_spec());
        let n = roster.len();
        let mut k: usize = 0;
        while k <= n
            invariant
                k <= n + 1,
                forall|c: int| 0 <= c < k ==> !(#[trigger] id_free(ids, c)),
            decreases n + 1 - k,
        {
            if !Game::minotaur_id_present(roster, k as u128) {
                return k as u128;
            }
            proof {
                let i = choose|i: int|
                    0 <= i < roster@.len() && (#[trigger] roster@[i]).id_spec() == k as u128;
                assert(ids[i] == k as u128);
                assert(!id_free(ids, k as int));
            }
            k += 1;
        }
        proof {
            lemma_free_small_id(ids, n + 1);
            let c = choose|c: int| 0 <= c < n + 1 && #[trigger] id_free(ids, c);
            assert(false);
        }
        unreached()
    }

    /// Whether the list already holds a pursuer with this id.
    fn minotaur_id_present(minotaurs: &Vec<Minotaur>, id: u128) -> (r: bool)
        ensures
            r == exists|i: int|
                0 <= i < minotaurs@.len() && (#[trigger] minotaurs@[i]).id_spec() == id,
    {
        let mut i: usize = 0;
        while i < minotaurs.len()
            invariant
                i <= minotaurs@.len(),
                forall|j: int| 0 <= j < i ==> (#[trigger] minotaurs@[j]).id_spec() != id,
            decreases minotaurs@.len() - i,
        {
            if minotaurs[i].id() == id {
                return true;
            }
            i += 1;
        }
        proof {
            if exists|i: int|
                0 <= i < minotaurs@.len() && (#[trigger] minotaurs@[i]).id_spec() == id {
                let k = choose|k: int|
                    0 <= k < minotaurs@.len() && (#[trigger] minotaurs@[k]).id_spec() == id;
                assert(false);
            }
        }
        false
    }

    pub fn top_heros(&self) -> (r: &Vec<HeroScore>)
        ensures
            r@ == self.top_heros_seq(),
    {
        &self.top_heros
    }

    pub fn top_minotaurs(&self) -> (r: &Vec<MinotaurScore>)
        ensures
            r@ == self.top_minotaurs_seq(),
    {
        &self.top_minotaurs
    }

    /// How many pursuers currently occupy this maze's roster.
    pub fn minotaurs_in_maze(&self, maze_id: usize) -> (r: usize)
        requires
            self.wf(),
            maze_id < self.ladder_len(),
        ensures
            r == self.minotaur_room_spec(maze_id as int).len(),
    {
        self.minotaur_rooms[maze_id].len()
    }

    pub fn get_hero(&self, id: u128) -> (r: Option<&Hero>)
        requires
            self.wf(),
        ensures
            (r is Some) == self.has_hero(id),
            match r {
                Some(h) => h.id_spec() == id && *h == self.heros_seq()[self.hero_idx(id)],
                None => true,
            },
    {
        let mut i: usize = 0;
        while i < self.heros.len()
            invariant
                self.wf(),
                i <= self.heros_seq().len(),
                forall|j: int| 0 <= j < i ==> (#[trigger] self.heros_seq()[j]).id_spec() != id,
            decreases self.heros_seq().len() - i,
        {
            if self.heros[i].id() == id {
                proof {
                    let k = self.hero_idx(id);
                    assert(self.heros_seq()[k].id_spec() == id);
                    assert(k == i as int);
                }
                return Some(&self.heros[i]);
            }
            i += 1;
        }
        proof {
            if self.has_hero(id) {
                let k = choose|k: int|
                    0 <= k < self.heros_seq().len() && (#[trigger] self.heros_seq()[k]).id_spec()
                        == id;
                assert(false);
            }
        }
        None
    }

    pub fn get_minotaur(&self, id: u128) -> (r: Option<&Minotaur>)
        requires
            self.wf(),
        ensures
            (r is Some) == self.has_minotaur(id),
            match r {
                Some(m) => m.id_spec() == id && exists|i: int|
                    0 <= i < self.minotaurs_seq().len() && *m == self.minotaurs_seq()[i],
                None => true,
            },
    {
        let mut i: usize = 0;
        while i < self.minotaurs.len()
            invariant
                self.wf(),
                i <= self.minotaurs_seq().len(),
                forall|j: int| 0 <= j < i ==> (#[trigger] self.minotaurs_seq()[j]).id_spec() != id,
            decreases self.minotaurs_seq().len() - i,
        {
            if self.minotaurs[i].id() == id {
                return Some(&self.minotaurs[i]);
            }
            i += 1;
        }
        proof {
            if self.has_minotaur(id) {
                let k = choose|k: int|
                    0 <= k < self.minotaurs_seq().len() && (
                    #[trigger] self.minotaurs_seq()[k]).id_spec() == id;
                assert(false);
            }
        }
        None
    }

    pub fn get_maze(&self, id: usize) -> (r: &Maze)
        requires
            self.wf(),
            id < self.ladder_len(),
        ensures
            *r == self.mazes_seq()[id as int],
            r.wf(),
    {
        &self.mazes[id]
    }

    pub fn number_of_players(&self) -> (r: usize)
        ensures
            r == self.heros_seq().len(),
    {
        self.heros.len()
    }

    /// Remove a disconnected player; the shared simulation continues for the
    /// others.
    #[verifier::loop_isolation(false)]
    #[verifier::rlimit(60)]
    pub fn remove_player(&mut self, player_id: u128)
        requires
            old(self).wf(),
        ensures
            final(self).wf(),
            !final(self).has_hero(player_id),
            final(self).same_mazes(*old(self)),
            final(self).minotaurs_seq() == old(self).minotaurs_seq(),
            forall|id: u128|
                id != player_id ==> #[trigger] final(self).has_hero(id) == old(self).has_hero(id),
            final(self).mazes_seq() == old(self).mazes_seq(),
            final(self).records_seq() == old(self).records_seq(),
            final(self).top_heros_seq() == old(self).top_heros_seq(),
            final(self).top_minotaurs_seq() == old(self).top_minotaurs_seq(),
            forall|m: int|
                0 <= m < old(self).ladder_len() ==> #[trigger] final(self).hero_room_spec(m)
                    == old(self).hero_room_spec(m) && final(self).minotaur_room_spec(m) == old(
                    self,
                ).minotaur_room_spec(m),
            old(self).has_hero(player_id) ==> exists|k: int|
                0 <= k < old(self).heros_seq().len() && (#[trigger] old(
                    self,
                ).heros_seq()[k]).id_spec() == player_id && final(self).heros_seq() == old(
                    self,
                ).heros_seq().remove(k),
            !old(self).has_hero(player_id) ==> final(self).heros_seq() == old(self).heros_seq(),
    {
        let mut found: Option<usize> = None;
        let mut i: usize = 0;
        while i < self.heros.len()
            invariant
                i <= self.heros@.len(),
                match found {
                    Some(k) => k < self.heros@.len() && self.heros@[k as int].id_spec()
                        == player_id,
                    None => forall|j: int|
                        0 <= j < i ==> (#[trigger] self.heros@[j]).id_spec() != player_id,
                },
            decreases self.heros@.len() - i,
        {
            if found.is_none() && self.heros[i].id() == player_id {
                found = Some(i);
            }
            i += 1;
        }
        match found {
            Some(k) => {
                let ghost pre = self.heros@;
                self.heros.remove(k);
                proof {
                    pre.remove_ensures(k as int);
                    assert(self.heros@ =~= pre.remove(k as int));
                    assert forall|x: int| 0 <= x < pre.len() implies old(self).hero_ok(
                        #[trigger] pre[x],
                    ) by {
                        assert(pre[x] == old(self).heros_seq()[x]);
                    }
                    assert forall|x: int, y: int|
                        0 <= x < y < pre.len() implies (#[trigger] pre[x]).id_spec() != (
                    #[trigger] pre[y]).id_spec() by {
                        assert(pre[x] == old(self).heros_seq()[x]);
                        assert(pre[y] == old(self).heros_seq()[y]);
                    }
                    assert forall|i2: int, j2: int|
                        0 <= i2 < j2 < self.heros@.len() implies (
                    #[trigger] self.heros@[i2]).id_spec() != (
                    #[trigger] self.heros@[j2]).id_spec() by {
                        let a = if i2 < k {
                            i2
                        } else {
                            i2 + 1
                        };
                        let b = if j2 < k {
                            j2
                        } else {
                            j2 + 1
                        };
                        assert(self.heros@[i2] == pre[a]);
                        assert(self.heros@[j2] == pre[b]);
                    }
                    assert forall|k2: int|
                        0 <= k2 < self.heros@.len() implies self.hero_ok(
                        #[trigger] self.heros@[k2],
                    ) by {
                        let a = if k2 < k {
                            k2
                        } else {
                            k2 + 1
                        };
                        assert(self.heros@[k2] == pre[a]);
                        assert(old(self).hero_ok(pre[a]));
                    }
                    assert(!self.has_hero(player_id)) by {
                        if self.has_hero(player_id) {
                            let k2 = choose|k2: int|
                                0 <= k2 < self.heros@.len() && (
                                #[trigger] self.heros@[k2]).id_spec() == player_id;
                            let a = if k2 < k {
                                k2
                            } else {
                                k2 + 1
                            };
                            assert(pre[a].id_spec() == player_id);
                            assert(a != k);
                            assert(pre[k as int].id_spec() == player_id);
                            assert(false);
                        }
                    }
                    assert(pre == old(self).heros_seq());
                    assert forall|id: u128|
                        id != player_id implies #[trigger] self.has_hero(id) == old(
                        self,
                    ).has_hero(id) by {
                        if old(self).has_hero(id) {
                            let k2 = choose|k2: int|
                                0 <= k2 < old(self).heros_seq().len() && (#[trigger] old(
                                    self,
                                ).heros_seq()[k2]).id_spec() == id;
                            assert(pre[k2].id_spec() == id);
                            assert(k2 != k);
                            if k2 < k {
                                assert(self.heros_seq()[k2].id_spec() == id);
                            } else {
                                assert(self.heros_seq()[k2 - 1].id_spec() == id);
                            }
                            assert(self.has_hero(id));
                        }
                        if self.has_hero(id) {
                            let k2 = choose|k2: int|
                                0 <= k2 < self.heros_seq().len() && (
                                #[trigger] self.heros_seq()[k2]).id_spec() == id;
                            let a = if k2 < k {
                                k2
                            } else {
                                k2 + 1
                            };
                            assert(pre[a].id_spec() == id);
                            assert(old(self).heros_seq()[a].id_spec() == id);
                            assert(old(self).has_hero(id));
                        }
                    }
                }
            },
            None => {
                proof {
                    if self.has_hero(player_id) {
                        let k = choose|k: int|
                            0 <= k < self.heros@.len() && (#[trigger] self.heros@[k]).id_spec()
                                == player_id;
                        assert(false);
                    }
                }
            },
        }
    }

    /// Whether a display name has already been taken.
    fn name_taken(&self, name: &String) -> (r: bool)
    {
        let mut i: usize = 0;
        while i < self.taken_names.len()
            invariant
                i <= self.taken_names@.len(),
            decreases self.taken_names@.len() - i,
        {
            if &self.taken_names[i] == name {
                return true;
            }
            i += 1;
        }
        false
    }

    /// Rebuild the hero leaderboard from the record book.
    #[verifier::loop_isolation(false)]
    fn update_top_heros(&mut self)
        requires
            old(self).wf_core(),
        ensures
            final(self).wf_core(),
            crate::score::hero_scores_sorted(final(self).top_heros_seq()),
            hero_views(final(self).top_heros_seq()) == hero_views(final(self).records_seq()),
            mino_views(final(self).top_minotaurs_seq()) == mino_views(old(self).top_minotaurs_seq()),
            *final(self) == (Game { top_heros: final(self).top_heros, ..*old(self) }),
    {
        let mut copy: Vec<HeroScore> = Vec::new();
        let n = self.top_heros_map.len();
        let mut i: usize = 0;
        while i < n
            invariant
                n == self.top_heros_map@.len(),
                i <= n,
                copy@.len() == i,
                forall|j: int|
                    0 <= j < i ==> hero_score_view(#[trigger] copy@[j]) == hero_score_view(
                        self.top_heros_map@[j],
                    ) && copy@[j].maze_id < 100000,
            decreases n - i,
        {
            let rec = &self.top_heros_map[i];
            proof {
                assert(self.records_seq()[i as int].maze_id <= self.mazes_seq().len());
            }
            copy.push(
                HeroScore {
                    id: rec.id,
                    name: rec.name.clone(),
                    maze_id: rec.maze_id,
                    duration_ms: rec.duration_ms,
                },
            );
            i += 1;
        }
        let ghost copyv = copy@;
        let ranked = rank_heroes(copy);
        self.top_heros = ranked;
        proof {
            lemma_hero_views_perm(self.top_heros@, copyv);
            lemma_hero_views_pointwise(copyv, self.top_heros_map@);
            Game::lemma_core_transfer(*old(self), *self);
        }
    }

    /// Rebuild the pursuer leaderboard from the current roster.
    #[verifier::loop_isolation(false)]
    fn update_top_minotaurs(&mut self)
        requires
            old(self).wf_core(),
        ensures
            final(self).wf_core(),
            crate::score::minotaur_scores_sorted(final(self).top_minotaurs_seq()),
            mino_views(final(self).top_minotaurs_seq()) == roster_views(final(self).minotaurs_seq()),
            hero_views(final(self).top_heros_seq()) == hero_views(old(self).top_heros_seq()),
            *final(self) == (Game { top_minotaurs: final(self).top_minotaurs, ..*old(self) }),
    {
        let mut scores: Vec<MinotaurScore> = Vec::new();
        let n = self.minotaurs.len();
        let mut i: usize = 0;
        while i < n
            invariant
                n == self.minotaurs@.len(),
                i <= n,
                scores@.len() == i,
                forall|j: int|
                    0 <= j < i ==> minotaur_score_view(#[trigger] scores@[j])
                        == minotaur_score_view(mino_score_spec(self.minotaurs@[j])) && scores@[j].maze_id
                        < 100000 && scores@[j].kills < 1000000000,
            decreases n - i,
        {
            let t = &self.minotaurs[i];
            proof {
                assert(self.minotaur_ok(self.minotaurs_seq()[i as int]));
            }
            scores.push(
                MinotaurScore {
                    id: t.id,
                    name: t.name.clone(),
                    maze_id: t.maze_id,
                    kills: t.kills,
                },
            );
            i += 1;
        }
        let ghost scoresv = scores@;
        let ranked = rank_minotaurs(scores);
        self.top_minotaurs = ranked;
        proof {
            lemma_mino_views_perm(self.top_minotaurs@, scoresv);
            lemma_mino_views_of_roster(scoresv, self.minotaurs@);
            Game::lemma_core_transfer(*old(self), *self);
        }
    }

    /// Record index for a hero id, if present.
    fn record_index(&self, id: u128) -> (r: Option<usize>)
        ensures
            match r {
                Some(i) => i < self.records_seq().len() && self.records_seq()[i as int].id == id,
                None => forall|j: int|
                    0 <= j < self.records_seq().len() ==> (#[trigger] self.records_seq()[j]).id
                        != id,
            },
    {
        let mut i: usize = 0;
        while i < self.top_heros_map.len()
            invariant
                i <= self.top_heros_map@.len(),
                forall|j: int| 0 <= j < i ==> (#[trigger] self.top_heros_map@[j]).id != id,
            decreases self.top_heros_map@.len() - i,
        {
            if self.top_heros_map[i].id == id {
                return Some(i);
            }
            i += 1;
        }
        None
    }

    /// Whether this hero's record book entry should improve: a win always
    /// counts at the top, a deeper maze beats a shallower one, and a tie on
    /// the maze is broken by the shorter time.
    fn should_update_hero_record(&self, hero_index: usize, now_ms: u64) -> (r: bool)
        requires
            self.wf(),
            hero_index < self.heros_seq().len(),
        ensures
            ({
                let h = self.heros_seq()[hero_index as int];
                let recs = self.records_seq();
                (!r && h.state is Victory) ==> exists|k: int|
                    0 <= k < recs.len() && (#[trigger] recs[k]).id == h.id_spec()
                        && recs[k].maze_id == self.mazes_seq().len()
            }),
    {
        let hero = &self.heros[hero_index];
        let rec = self.record_index(hero.id());
        match rec {
            None => true,
            Some(ri) => {
                let record_maze_id = self.top_heros_map[ri].maze_id;
                let record_timer = self.top_heros_map[ri].duration_ms;
                match hero.has_won() {
                    Some(duration) => {
                        if record_maze_id < self.mazes.len() {
                            true
                        } else {
                            record_timer > duration
                        }
                    },
                    None => {
                        if record_maze_id < hero.maze_id() {
                            true
                        } else if record_maze_id > hero.maze_id() {
                            false
                        } else {
                            record_timer > hero.elapsed_duration_from_start(now_ms)
                        }
                    },
                }
            },
        }
    }

    /// Refresh this hero's record book entry (and the leaderboard) when its
    /// standing improved.
    #[verifier::loop_isolation(false)]
    fn update_hero_record(&mut self, hero_index: usize, now_ms: u64)
        requires
            old(self).wf(),
            hero_index < old(self).heros_seq().len(),
        ensures
            final(self).wf(),
            *final(self) == (Game {
                top_heros_map: final(self).top_heros_map,
                top_heros: final(self).top_heros,
                ..*old(self)
            }),
            ({
                let h = old(self).heros_seq()[hero_index as int];
                let recs = final(self).records_seq();
                h.state is Victory ==> exists|k: int|
                    0 <= k < recs.len() && (#[trigger] recs[k]).id == h.id_spec()
                        && recs[k].maze_id == old(self).mazes_seq().len()
            }),
    {
        if !self.should_update_hero_record(hero_index, now_ms) {
            return ;
        }
        let hero = &self.heros[hero_index];
        let id = hero.id();
        let name = hero.name().clone();
        let (maze_id, duration_ms) = match hero.has_won() {
            Some(duration) => (self.mazes.len(), duration),
            None => (hero.maze_id(), hero.elapsed_duration_from_start(now_ms)),
        };
        proof {
            assert(self.hero_ok(self.heros_seq()[hero_index as int]));
        }
        let entry = HeroScore { id, name, maze_id, duration_ms };
        let rec = self.record_index(id);
        match rec {
            Some(ri) => {
                self.top_heros_map[ri] = entry;
            },
            None => {
                self.top_heros_map.push(entry);
            },
        }
        proof {
            assert forall|k: int|
                0 <= k < self.records_seq().len() implies (
            #[trigger] self.records_seq()[k]).maze_id <= self.mazes_seq().len() by {
                if k < old(self).records_seq().len() {
                    if self.records_seq()[k] != old(self).records_seq()[k] {
                        assert(self.records_seq()[k] == entry);
                    }
                } else {
                    assert(self.records_seq()[k] == entry);
                }
            }
        }
        self.update_top_heros();
        proof {
            assert(mino_views(self.top_minotaurs_seq()) == roster_views(self.minotaurs_seq()));
        }
    }

    /// How threatened this hero currently is: the strongest chase status
    /// among the pursuers of its maze, and the squared distance from the
    /// nearest one to the cell the hero is facing. With no pursuers around
    /// (or an unknown hero), all is calm.
    #[verifier::loop_isolation(false)]
    pub fn alarm_level(&self, hero_id: u128) -> (r: (AlarmLevel, usize))
        requires
            self.wf(),
        ensures
            ({
                let present = self.has_hero(hero_id) && exists|t: int|
                    0 <= t < self.minotaurs_seq().len() && (
                    #[trigger] self.minotaurs_seq()[t]).maze_id_spec() == self.heros_seq()[
                        self.hero_idx(hero_id)
                    ].maze_id_spec();
                &&& (!present ==> r == (AlarmLevel::NoMinotaurs, usize::MAX))
                &&& (present ==> {
                    let h = self.heros_seq()[self.hero_idx(hero_id)];
                    let hm = h.maze_id_spec();
                    let ahead = step_spec(h.position_spec(), h.direction_spec());
                    &&& (r.0 == AlarmLevel::ChasingHero <==> exists|t: int|
                        0 <= t < self.minotaurs_seq().len() && (
                        #[trigger] self.minotaurs_seq()[t]).maze_id_spec() == hm
                            && self.minotaurs_seq()[t].chasing == Some(hero_id))
                    &&& (r.0 == AlarmLevel::ChasingOtherHero <==> (!exists|t: int|
                        0 <= t < self.minotaurs_seq().len() && (
                        #[trigger] self.minotaurs_seq()[t]).maze_id_spec() == hm
                            && self.minotaurs_seq()[t].chasing == Some(hero_id)) && exists|t: int|
                        0 <= t < self.minotaurs_seq().len() && (
                        #[trigger] self.minotaurs_seq()[t]).maze_id_spec() == hm
                            && self.minotaurs_seq()[t].chasing is Some)
                    &&& (r.0 == AlarmLevel::NoMinotaurs ==> false)
                    &&& (forall|t: int|
                        0 <= t < self.minotaurs_seq().len() && (
                        #[trigger] self.minotaurs_seq()[t]).maze_id_spec() == hm ==> r.1 <= dist2(
                            pos_int(self.minotaurs_seq()[t].position_spec()),
                            pos_int(ahead),
                        ))
                    &&& exists|t: int|
                        0 <= t < self.minotaurs_seq().len() && (
                        #[trigger] self.minotaurs_seq()[t]).maze_id_spec() == hm && r.1 == dist2(
                            pos_int(self.minotaurs_seq()[t].position_spec()),
                            pos_int(ahead),
                        )
                })
            }),
    {
        let hero = match self.get_hero(hero_id) {
            Some(h) => h,
            None => {
                return (AlarmLevel::NoMinotaurs, usize::MAX);
            },
        };
        let hm = hero.maze_id();
        proof {
            assert(self.hero_ok(self.heros_seq()[self.hero_idx(hero_id)]));
            self.mazes_seq()[hm as int].lemma_maze_facts();
        }
        let ahead = into_direction(hero.position(), &hero.direction());
        let mut alarm = AlarmLevel::NotChasing;
        let mut min_distance: usize = usize::MAX;
        let mut seen_any = false;
        let mut t: usize = 0;
        while t < self.minotaurs.len()
            invariant
                t <= self.minotaurs@.len(),
                ahead.0 < 30000,
                ahead.1 < 30000,
                seen_any == exists|j: int|
                    0 <= j < t && (#[trigger] self.minotaurs_seq()[j]).maze_id_spec() == hm,
                (alarm == AlarmLevel::ChasingHero <==> exists|j: int|
                    0 <= j < t && (#[trigger] self.minotaurs_seq()[j]).maze_id_spec() == hm
                        && self.minotaurs_seq()[j].chasing == Some(hero_id)),
                (alarm == AlarmLevel::ChasingOtherHero <==> (!exists|j: int|
                    0 <= j < t && (#[trigger] self.minotaurs_seq()[j]).maze_id_spec() == hm
                        && self.minotaurs_seq()[j].chasing == Some(hero_id)) && exists|j: int|
                    0 <= j < t && (#[trigger] self.minotaurs_seq()[j]).maze_id_spec() == hm
                        && self.minotaurs_seq()[j].chasing is Some),
                alarm == AlarmLevel::NotChasing || alarm == AlarmLevel::ChasingOtherHero || alarm
                    == AlarmLevel::ChasingHero,
                forall|j: int|
                    0 <= j < t && (#[trigger] self.minotaurs_seq()[j]).maze_id_spec() == hm
                        ==> min_distance <= dist2(
                        pos_int(self.minotaurs_seq()[j].position_spec()),
                        pos_int(ahead),
                    ),
                seen_any ==> exists|j: int|
                    0 <= j < t && (#[trigger] self.minotaurs_seq()[j]).maze_id_spec() == hm
                        && min_distance == dist2(
                        pos_int(self.minotaurs_seq()[j].position_spec()),
                        pos_int(ahead),
                    ),
                !seen_any ==> min_distance == usize::MAX,
            decreases self.minotaurs@.len() - t,
        {
            let m = &self.minotaurs[t];
            if m.maze_id() == hm {
                proof {
                    assert(self.minotaur_ok(self.minotaurs_seq()[t as int]));
                }
                seen_any = true;
                let d = distance_squared(m.position(), ahead);
                if d < min_distance {
                    min_distance = d;
                }
                if m.is_chasing(hero_id) {
                    alarm = AlarmLevel::ChasingHero;
                } else {
                    let keep_chasing_hero = match alarm {
                        AlarmLevel::ChasingHero => true,
                        _ => false,
                    };
                    if m.is_chasing_someone() && !keep_chasing_hero {
                        alarm = AlarmLevel::ChasingOtherHero;
                    }
                }
            }
            t += 1;
        }
        if !seen_any {
            return (AlarmLevel::NoMinotaurs, usize::MAX);
        }
        (alarm, min_distance)
    }

    /// Index of the hero with this id, if present.
    fn hero_index_of(&self, id: u128) -> (r: Option<usize>)
        ensures
            match r {
                Some(i) => i < self.heros_seq().len() && self.heros_seq()[i as int].id_spec() == id,
                None => !self.has_hero(id),
            },
    {
        let mut i: usize = 0;
        while i < self.heros.len()
            invariant
                i <= self.heros_seq().len(),
                forall|j: int| 0 <= j < i ==> (#[trigger] self.heros_seq()[j]).id_spec() != id,
            decreases self.heros_seq().len() - i,
        {
            if self.heros[i].id() == id {
                return Some(i);
            }
            i += 1;
        }
        proof {
            if self.has_hero(id) {
                let k = choose|k: int|
                    0 <= k < self.heros_seq().len() && (#[trigger] self.heros_seq()[k]).id_spec()
                        == id;
                assert(false);
            }
        }
        None
    }

    /// Admit a player: pick a fresh tagged display name, create its hero at
    /// the first maze's entrance, record the attempt, warm its visibility,
    /// and open its record book entry.
    #[verifier::loop_isolation(false)]
    #[verifier::spinoff_prover]
    #[verifier::rlimit(100)]
    pub fn add_player(&mut self, player_id: u128, name: &str, now_ms: u64)
        requires
            old(self).wf(),
        ensures
            final(self).wf(),
            final(self).same_mazes(*old(self)),
            final(self).has_hero(player_id),
            ({
                let h = final(self).heros_seq()[final(self).hero_idx(player_id)];
                &&& h.id_spec() == player_id
                &&& h.state == HeroState::WaitingToStart
                &&& h.maze_id_spec() == 0
                &&& h.vision_spec() == 1
                &&& h.speed_spec() == 4
                &&& h.memory_spec() == 0
                &&& ({
                    let ent = final(self).mazes_seq()[0].entrance_seq();
                    exists|i: int|
                        0 <= i < 2 && h.position_spec().0 == (#[trigger] ent[i]).0 + 1
                            && h.position_spec().1 == ent[i].1
                })
            }),
            forall|id: u128|
                id != player_id ==> #[trigger] final(self).has_hero(id) == old(self).has_hero(id),
            final(self).minotaurs_seq() == old(self).minotaurs_seq(),
            ({
                let recs = final(self).records_seq();
                exists|k: int|
                    0 <= k < recs.len() && (#[trigger] recs[k]).id == player_id && recs[k].maze_id
                        == 0 && recs[k].duration_ms == 0
            }),
            final(self).heros_seq().len() == old(self).heros_seq().len() + (if old(
                self,
            ).has_hero(player_id) {
                0int
            } else {
                1int
            }),
            Game::room_has(final(self).hero_room_spec(0), player_id),
            final(self).mazes_seq()[0].attempted_spec() == counter_inc(
                old(self).mazes_seq()[0].attempted_spec(),
            ),
            final(self).mazes_seq()[0].passed_spec() == old(self).mazes_seq()[0].passed_spec(),
            forall|m: int|
                0 < m < old(self).ladder_len() ==> (#[trigger] final(self).mazes_seq()[m]) == old(
                    self,
                ).mazes_seq()[m],
    {
        let mut player_name = suffixed_player_name(name);
        let mut attempt: usize = 0;
        while attempt < 32 && self.name_taken(&player_name)
            invariant
                *self == *old(self),
            decreases 32 - attempt,
        {
            player_name = suffixed_player_name(name);
            attempt += 1;
        }
        self.taken_names.push(player_name.clone());

        proof {
            self.mazes_seq()[0].lemma_maze_facts();
        }
        let start = self.mazes[0].hero_starting_position();
        let ghost maze0_pre = self.mazes@[0];
        {
            let mz = &mut self.mazes[0];
            mz.increase_attempted();
        }
        proof {
            assert forall|m: int|
                0 <= m < self.mazes_seq().len() implies (#[trigger] self.mazes_seq()[m]).wf()
                && self.mazes_seq()[m].id_spec() == m by {
                if m != 0 {
                    assert(self.mazes_seq()[m] == old(self).mazes_seq()[m]);
                }
            }
            assert(self.mazes_seq()[0].same_geometry(old(self).mazes_seq()[0]));
        }
        let mut hero = Hero::new(player_id, player_name, start, now_ms);
        proof {
            assert(self.mazes_seq()[0].px_width_spec() == old(self).mazes_seq()[0].px_width_spec());
        }
        let visible = {
            let mz = &mut self.mazes[0];
            mz.get_and_cache_visible_positions(hero.position(), hero.direction(), hero.view())
        };
        proof {
            assert forall|m: int|
                0 <= m < self.mazes_seq().len() implies (#[trigger] self.mazes_seq()[m]).wf()
                && self.mazes_seq()[m].id_spec() == m by {
                if m != 0 {
                    assert(self.mazes_seq()[m] == old(self).mazes_seq()[m]);
                }
            }
            assert(self.mazes_seq()[0].same_geometry(old(self).mazes_seq()[0]));
        }
        let vis_positions = visible.to_positions();
        hero.update_past_visible_positions(&vis_positions, now_ms);

        self.hero_rooms[0].push(player_id);
        proof {
            assert(Game::room_has(self.hero_room_spec(0), player_id)) by {
                let r0 = self.hero_room_spec(0);
                assert(r0[r0.len() - 1] == player_id);
            }
        }
        let ghost grooms = *self;

        let entry = HeroScore {
            id: player_id,
            name: hero.name().clone(),
            maze_id: 0,
            duration_ms: 0,
        };
        let wrec_idx: usize;
        match self.record_index(player_id) {
            Some(ri) => {
                self.top_heros_map[ri] = entry;
                wrec_idx = ri;
            },
            None => {
                wrec_idx = self.top_heros_map.len();
                self.top_heros_map.push(entry);
            },
        }
        proof {
            assert(self.records_seq()[wrec_idx as int].id == player_id);
            assert(self.records_seq()[wrec_idx as int].maze_id == 0);
            assert(self.records_seq()[wrec_idx as int].duration_ms == 0);
        }
        proof {
            assert forall|k: int|
                0 <= k < self.records_seq().len() implies (
            #[trigger] self.records_seq()[k]).maze_id <= self.mazes_seq().len() by {
                if k < old(self).records_seq().len() {
                    if self.records_seq()[k] != old(self).records_seq()[k] {
                        assert(self.records_seq()[k].maze_id == 0);
                    }
                } else {
                    assert(self.records_seq()[k].maze_id == 0);
                }
            }
        }
        proof {
            assert forall|m: int|
                0 <= m < self.mazes_seq().len() implies (#[trigger] self.mazes_seq()[m]).wf()
                && self.mazes_seq()[m].id_spec() == m && self.mazes_seq()[m].px_width_spec() == old(
                self,
            ).mazes_seq()[m].px_width_spec() && self.mazes_seq()[m].px_height_spec() == old(
                self,
            ).mazes_seq()[m].px_height_spec() by {
                if m != 0 {
                    assert(self.mazes_seq()[m] == old(self).mazes_seq()[m]);
                }
            }
            Game::lemma_core_transfer_relaxed(*old(self), *self);
        }
        self.update_top_heros();

        proof {
            assert(self.hero_ok(hero));
        }
        let ghost gpre = *self;
        self.put_hero(hero);
        proof {
            assert(gpre.heros_seq() == old(self).heros_seq());
            assert forall|id: u128|
                id != player_id implies #[trigger] self.has_hero(id) == old(self).has_hero(
                id,
            ) by {
                if old(self).has_hero(id) {
                    let k2 = choose|k2: int|
                        0 <= k2 < old(self).heros_seq().len() && (#[trigger] old(
                            self,
                        ).heros_seq()[k2]).id_spec() == id;
                    assert(gpre.heros_seq()[k2].id_spec() == id);
                    assert(gpre.has_hero(id));
                }
                if self.has_hero(id) {
                    assert(gpre.has_hero(id));
                    let k2 = choose|k2: int|
                        0 <= k2 < gpre.heros_seq().len() && (#[trigger] gpre.heros_seq()[k2]).id_spec()
                            == id;
                    assert(old(self).heros_seq()[k2].id_spec() == id);
                }
            }
            assert(roster_views(self.minotaurs_seq()) == roster_views(old(self).minotaurs_seq()));
            assert(self.records_seq()[wrec_idx as int].id == player_id);
            assert(self.hero_rooms == grooms.hero_rooms);
            assert(Game::room_has(self.hero_room_spec(0), player_id)) by {
                assert(self.hero_room_spec(0) == grooms.hero_room_spec(0));
            }
        }
    }

    /// Insert a hero into the roster, replacing any existing hero with the
    /// same id.
    #[verifier::loop_isolation(false)]
    fn put_hero(&mut self, hero: Hero)
        requires
            old(self).wf_core(),
            old(self).hero_ok(hero),
        ensures
            final(self).wf_core(),
            *final(self) == (Game { heros: final(self).heros, ..*old(self) }),
            final(self).has_hero(hero.id_spec()),
            final(self).heros_seq()[final(self).hero_idx(hero.id_spec())] == hero,
            forall|id: u128|
                id != hero.id_spec() ==> #[trigger] final(self).has_hero(id) == old(
                    self,
                ).has_hero(id),
            final(self).heros_seq().len() == old(self).heros_seq().len() + (if old(
                self,
            ).has_hero(hero.id_spec()) {
                0int
            } else {
                1int
            }),
    {
        let ghost heros_pre = self.heros@;
        let hid = hero.id();
        match self.hero_index_of(hid) {
            Some(hi) => {
                proof {
                    assert(heros_pre[hi as int].id_spec() == hid);
                }
                self.heros[hi] = hero;
                proof {
                    assert(self.heros_seq()[hi as int] == hero);
                    assert forall|i2: int, j2: int|
                        0 <= i2 < j2 < self.heros_seq().len() implies (
                    #[trigger] self.heros_seq()[i2]).id_spec() != (
                    #[trigger] self.heros_seq()[j2]).id_spec() by {
                        if i2 != hi && j2 != hi {
                            assert(self.heros_seq()[i2] == heros_pre[i2]);
                            assert(self.heros_seq()[j2] == heros_pre[j2]);
                            assert(old(self).heros_seq()[i2].id_spec() != old(
                                self,
                            ).heros_seq()[j2].id_spec());
                        } else if i2 == hi {
                            assert(self.heros_seq()[j2] == heros_pre[j2]);
                            assert(old(self).heros_seq()[j2].id_spec() != old(
                                self,
                            ).heros_seq()[hi as int].id_spec());
                        } else {
                            assert(self.heros_seq()[i2] == heros_pre[i2]);
                            assert(old(self).heros_seq()[i2].id_spec() != old(
                                self,
                            ).heros_seq()[hi as int].id_spec());
                        }
                    }
                    assert forall|i2: int|
                        0 <= i2 < self.heros_seq().len() implies self.hero_ok(
                        #[trigger] self.heros_seq()[i2],
                    ) by {
                        if i2 != hi {
                            assert(self.heros_seq()[i2] == heros_pre[i2]);
                            assert(old(self).hero_ok(old(self).heros_seq()[i2]));
                        }
                    }
                }
            },
            None => {
                self.heros.push(hero);
                proof {
                    let n = self.heros_seq().len() - 1;
                    assert(self.heros_seq()[n] == hero);
                    assert forall|i2: int, j2: int|
                        0 <= i2 < j2 < self.heros_seq().len() implies (
                    #[trigger] self.heros_seq()[i2]).id_spec() != (
                    #[trigger] self.heros_seq()[j2]).id_spec() by {
                        if j2 < n {
                            assert(self.heros_seq()[i2] == heros_pre[i2]);
                            assert(self.heros_seq()[j2] == heros_pre[j2]);
                            assert(old(self).heros_seq()[i2].id_spec() != old(
                                self,
                            ).heros_seq()[j2].id_spec());
                        } else {
                            assert(self.heros_seq()[i2] == heros_pre[i2]);
                            assert(old(self).heros_seq()[i2].id_spec() == heros_pre[i2].id_spec());
                        }
                    }
                    assert forall|i2: int|
                        0 <= i2 < self.heros_seq().len() implies self.hero_ok(
                        #[trigger] self.heros_seq()[i2],
                    ) by {
                        if i2 < n {
                            assert(self.heros_seq()[i2] == heros_pre[i2]);
                            assert(old(self).hero_ok(old(self).heros_seq()[i2]));
                        }
                    }
                }
            },
        }
        proof {
            assert forall|m: int|
                0 <= m < self.mazes_seq().len() implies (#[trigger] self.mazes_seq()[m]).wf()
                && self.mazes_seq()[m].id_spec() == m by {
                assert(self.mazes_seq()[m] == old(self).mazes_seq()[m]);
            }
            assert forall|i2: int, j2: int|
                0 <= i2 < j2 < self.minotaurs_seq().len() implies (
            #[trigger] self.minotaurs_seq()[i2]).id_spec() != (
            #[trigger] self.minotaurs_seq()[j2]).id_spec() by {
                assert(self.minotaurs_seq()[i2] == old(self).minotaurs_seq()[i2]);
                assert(self.minotaurs_seq()[j2] == old(self).minotaurs_seq()[j2]);
                assert(old(self).minotaurs_seq()[i2].id_spec() != old(
                    self,
                ).minotaurs_seq()[j2].id_spec());
            }
            assert forall|i2: int|
                0 <= i2 < self.minotaurs_seq().len() implies self.minotaur_ok(
                #[trigger] self.minotaurs_seq()[i2],
            ) by {
                assert(self.minotaurs_seq()[i2] == old(self).minotaurs_seq()[i2]);
                assert(old(self).minotaur_ok(old(self).minotaurs_seq()[i2]));
            }
            assert forall|k2: int|
                0 <= k2 < self.records_seq().len() implies (
            #[trigger] self.records_seq()[k2]).maze_id <= self.mazes_seq().len() by {
                assert(self.records_seq()[k2] == old(self).records_seq()[k2]);
            }
            let k = self.hero_idx(hero.id_spec());
            assert(self.heros_seq()[k].id_spec() == hero.id_spec());
            assert(self.heros_seq()[k] == hero);
            assert forall|id: u128|
                id != hero.id_spec() implies #[trigger] self.has_hero(id) == old(self).has_hero(
                id,
            ) by {
                if old(self).has_hero(id) {
                    let k2 = choose|k2: int|
                        0 <= k2 < old(self).heros_seq().len() && (#[trigger] old(
                            self,
                        ).heros_seq()[k2]).id_spec() == id;
                    assert(heros_pre[k2].id_spec() == id);
                    assert(self.heros_seq()[k2].id_spec() == id);
                }
                if self.has_hero(id) {
                    let k2 = choose|k2: int|
                        0 <= k2 < self.heros_seq().len() && (
                        #[trigger] self.heros_seq()[k2]).id_spec() == id;
                    if k2 < heros_pre.len() {
                        assert(self.heros_seq()[k2] == heros_pre[k2] || self.heros_seq()[k2]
                            == hero);
                        assert(old(self).heros_seq()[k2].id_spec() == id);
                    } else {
                        assert(self.heros_seq()[k2] == hero);
                        assert(false);
                    }
                }
            }
        }
    }

    /// The list without any occurrence of `id`; every other entry stays.
    fn without_id(v: &Vec<u128>, id: u128) -> (r: Vec<u128>)
        ensures
            forall|j: int| 0 <= j < r@.len() ==> #[trigger] r@[j] != id,
            forall|j: int| 0 <= j < r@.len() ==> Game::room_has(v@, #[trigger] r@[j]),
            forall|k: int|
                0 <= k < v@.len() && (#[trigger] v@[k]) != id ==> Game::room_has(r@, v@[k]),
    {
        let mut r: Vec<u128> = Vec::new();
        let mut i: usize = 0;
        while i < v.len()
            invariant
                i <= v@.len(),
                forall|j: int| 0 <= j < r@.len() ==> #[trigger] r@[j] != id,
                forall|j: int| 0 <= j < r@.len() ==> Game::room_has(v@, #[trigger] r@[j]),
                forall|k: int|
                    0 <= k < i && (#[trigger] v@[k]) != id ==> Game::room_has(r@, v@[k]),
            decreases v@.len() - i,
        {
            let ghost r_pre = r@;
            if v[i] != id {
                r.push(v[i]);
            }
            proof {
                assert forall|j: int|
                    0 <= j < r@.len() implies Game::room_has(v@, #[trigger] r@[j]) by {
                    if j < r_pre.len() {
                        assert(r@[j] == r_pre[j]);
                    } else {
                        assert(v@[i as int] == r@[j]);
                    }
                }
                assert forall|k: int|
                    0 <= k < i + 1 && (#[trigger] v@[k]) != id implies Game::room_has(
                    r@,
                    v@[k],
                ) by {
                    if k < i {
                        assert(Game::room_has(r_pre, v@[k]));
                        let j = choose|j: int| 0 <= j < r_pre.len() && r_pre[j] == v@[k];
                        assert(r@[j] == v@[k]);
                    } else {
                        assert(r@[r@.len() - 1] == v@[k]);
                    }
                }
            }
            i += 1;
        }
        r
    }

    /// Recompute and memoize what hero `hi` currently sees, and refresh its
    /// per-maze memory of seen cells.
    #[verifier::loop_isolation(false)]
    fn refresh_hero_visibility(&mut self, hi: usize, now_ms: u64)
        requires
            old(self).wf_core(),
            hi < old(self).heros_seq().len(),
        ensures
            final(self).wf_core(),
            final(self).same_mazes(*old(self)),
            final(self).heros_seq().len() == old(self).heros_seq().len(),
            ({
                let g1 = *final(self);
                let g0 = *old(self);
                forall|j: int|
                    0 <= j < g0.heros_seq().len() && j != hi ==> #[trigger] g1.heros_seq()[j]
                        == g0.heros_seq()[j]
            }),
            ({
                let h0 = old(self).heros_seq()[hi as int];
                let h1 = final(self).heros_seq()[hi as int];
                &&& h1 == (Hero { past_visible: h1.past_visible, ..h0 })
                &&& h1.past_visible_spec().len() == (if h0.past_visible_spec().len()
                    > h0.maze_id_spec() {
                    h0.past_visible_spec().len() as int
                } else {
                    h0.maze_id_spec() + 1
                })
            }),
            ({
                let h0 = old(self).heros_seq()[hi as int];
                let h1 = final(self).heros_seq()[hi as int];
                let vis = old(self).mazes_seq()[h0.maze_id_spec() as int].entry_spec(
                    hero_vis_key(h0),
                );
                book_refreshed(h0, h1, vis, now_ms)
            }),
            sees_fresh(*final(self), final(self).heros_seq()[hi as int], now_ms),
            final(self).minotaurs_seq() == old(self).minotaurs_seq(),
            final(self).records_seq() == old(self).records_seq(),
            final(self).top_heros_seq() == old(self).top_heros_seq(),
            final(self).top_minotaurs_seq() == old(self).top_minotaurs_seq(),
            final(self).hero_rooms == old(self).hero_rooms,
            final(self).minotaur_rooms == old(self).minotaur_rooms,
            final(self).rooms_wf(),
            same_counters(*final(self), *old(self)),
            ({
                let g1 = *final(self);
                let g0 = *old(self);
                forall|m: int|
                    0 <= m < g0.mazes_seq().len() ==> (#[trigger] g1.mazes_seq()[m]).attempted_spec()
                        == g0.mazes_seq()[m].attempted_spec() && g1.mazes_seq()[m].passed_spec()
                        == g0.mazes_seq()[m].passed_spec()
            }),
    {
        let h = &self.heros[hi];
        let pos = h.position();
        let dir = h.direction();
        let vw = h.view();
        let mid = h.maze_id();
        proof {
            assert(self.hero_ok(self.heros_seq()[hi as int]));
        }
        let visible = {
            let mz = &mut self.mazes[mid];
            mz.get_and_cache_visible_positions(pos, dir, vw)
        };
        proof {
            assert forall|m: int|
                0 <= m < self.mazes_seq().len() implies (#[trigger] self.mazes_seq()[m]).wf()
                && self.mazes_seq()[m].id_spec() == m && self.mazes_seq()[m].px_width_spec() == old(
                self,
            ).mazes_seq()[m].px_width_spec() && self.mazes_seq()[m].px_height_spec() == old(
                self,
            ).mazes_seq()[m].px_height_spec() && self.mazes_seq()[m].same_geometry(
                old(self).mazes_seq()[m],
            ) && self.mazes_seq()[m].attempted_spec() == old(self).mazes_seq()[m].attempted_spec()
                && self.mazes_seq()[m].passed_spec() == old(self).mazes_seq()[m].passed_spec() by {
                if m != mid {
                    assert(self.mazes_seq()[m] == old(self).mazes_seq()[m]);
                }
            }
        }
        let vp = visible.to_positions();
        let ghost heros_pre = self.heros@;
        {
            let hm = &mut self.heros[hi];
            hm.update_past_visible_positions(&vp, now_ms);
        }
        proof {
            let h0 = old(self).heros_seq()[hi as int];
            let visset = old(self).mazes_seq()[mid as int].entry_spec(hero_vis_key(h0));
            assert(visible.set() == visset);
            assert forall|p: Position|
                crate::hero::has_position(vp@, p) <==> visset.contains(pos_int(p)) by {
                if crate::hero::has_position(vp@, p) {
                    let i = choose|i: int| 0 <= i < vp@.len() && #[trigger] vp@[i] == p;
                    assert(visible.set().contains((vp@[i].0 as int, vp@[i].1 as int)));
                }
                if visset.contains(pos_int(p)) {
                    let i = choose|i: int|
                        0 <= i < vp@.len() && (#[trigger] vp@[i]).0 == p.0 && vp@[i].1 == p.1;
                    assert(vp@[i] == p);
                }
            }
            let h1 = self.heros_seq()[hi as int];
            let midi = h0.maze_id_spec() as int;
            let dur = (10000 + 10000 * h0.memory_spec()) as u64;
            let oldl = if midi < h0.past_visible_spec().len() {
                h0.past_visible_spec()[midi]
            } else {
                Seq::<(Position, u64)>::empty()
            };
            let newl = h1.past_visible_spec()[midi];
            assert forall|p: Position, t: u64| #[trigger]
                has_stamp(newl, p, t) <==> ((visset.contains(pos_int(p)) && t == now_ms) || (
                !visset.contains(pos_int(p)) && has_stamp(oldl, p, t) && (if now_ms >= t {
                    (now_ms - t) as u64
                } else {
                    0u64
                }) < dur)) by {
                assert(has_stamp(newl, p, t) <==> Hero::refreshed_entry(
                    oldl,
                    vp@,
                    now_ms,
                    dur,
                    p,
                    t,
                ));
            }
            assert(book_refreshed(h0, h1, visset, now_ms));
            assert(hero_vis_key(h1) == hero_vis_key(h0));
            crate::maze::Maze::lemma_visibility_deterministic(
                self.mazes_seq()[midi],
                old(self).mazes_seq()[midi],
                hero_vis_key(h1),
            );
            assert forall|p: Position|
                self.mazes_seq()[midi].entry_spec(hero_vis_key(h1)).contains(
                    pos_int(p),
                ) implies has_stamp(#[trigger] h1.past_visible_spec()[midi], p, now_ms) by {
                assert(visset.contains(pos_int(p)));
            }
            assert(sees_fresh(*self, h1, now_ms));
        }
        proof {
            assert forall|j: int|
                0 <= j < self.heros_seq().len() && j != hi implies #[trigger] self.heros_seq()[j]
                == old(self).heros_seq()[j] by {
                assert(self.heros_seq()[j] == heros_pre[j]);
            }
            assert forall|i2: int, j2: int|
                0 <= i2 < j2 < self.heros_seq().len() implies (
            #[trigger] self.heros_seq()[i2]).id_spec() != (
            #[trigger] self.heros_seq()[j2]).id_spec() by {
                assert(old(self).heros_seq()[i2].id_spec() != old(self).heros_seq()[j2].id_spec());
                assert(self.heros_seq()[i2].id_spec() == old(self).heros_seq()[i2].id_spec());
                assert(self.heros_seq()[j2].id_spec() == old(self).heros_seq()[j2].id_spec());
            }
            assert forall|i2: int|
                0 <= i2 < self.heros_seq().len() implies self.hero_ok(
                #[trigger] self.heros_seq()[i2],
            ) by {
                assert(old(self).hero_ok(old(self).heros_seq()[i2]));
                if i2 != hi {
                    assert(self.heros_seq()[i2] == old(self).heros_seq()[i2]);
                } else {
                    let h0 = old(self).heros_seq()[i2];
                    let h1 = self.heros_seq()[i2];
                    assert(h1.maze_id_spec() == h0.maze_id_spec());
                    assert(h1.position_spec() == h0.position_spec());
                    assert(self.mazes_seq()[h1.maze_id_spec() as int].px_width_spec() == old(
                        self,
                    ).mazes_seq()[h0.maze_id_spec() as int].px_width_spec());
                }
            }
            assert forall|k: int|
                0 <= k < self.records_seq().len() implies (
            #[trigger] self.records_seq()[k]).maze_id <= self.mazes_seq().len() by {
                assert(self.records_seq()[k] == old(self).records_seq()[k]);
            }
            assert forall|i2: int, j2: int|
                0 <= i2 < j2 < self.minotaurs_seq().len() implies (
            #[trigger] self.minotaurs_seq()[i2]).id_spec() != (
            #[trigger] self.minotaurs_seq()[j2]).id_spec() by {
                assert(old(self).minotaurs_seq()[i2].id_spec() != old(
                    self,
                ).minotaurs_seq()[j2].id_spec());
            }
            assert forall|i2: int|
                0 <= i2 < self.minotaurs_seq().len() implies self.minotaur_ok(
                #[trigger] self.minotaurs_seq()[i2],
            ) by {
                assert(old(self).minotaur_ok(old(self).minotaurs_seq()[i2]));
                let m2 = old(self).minotaurs_seq()[i2].maze_id_spec() as int;
                assert(self.mazes_seq()[m2].px_width_spec() == old(
                    self,
                ).mazes_seq()[m2].px_width_spec());
            }
        }
    }

    /// Core well-formedness carries over when exactly one hero changed, its
    /// id stayed, and it still fits the (unchanged) ladder.
    proof fn lemma_hero_update_core(a: Game, b: Game, hi: int)
        requires
            a.wf_core(),
            0 <= hi < a.heros_seq().len(),
            b.mazes_seq() == a.mazes_seq(),
            b.minotaurs_seq() == a.minotaurs_seq(),
            b.records_seq() == a.records_seq(),
            b.rooms_wf(),
            b.heros_seq().len() == a.heros_seq().len(),
            forall|j: int|
                0 <= j < a.heros_seq().len() && j != hi ==> #[trigger] b.heros_seq()[j]
                    == a.heros_seq()[j],
            b.heros_seq()[hi].id_spec() == a.heros_seq()[hi].id_spec(),
            b.hero_ok(b.heros_seq()[hi]),
        ensures
            b.wf_core(),
    {
        assert forall|m: int|
            0 <= m < b.mazes_seq().len() implies (#[trigger] b.mazes_seq()[m]).wf()
            && b.mazes_seq()[m].id_spec() == m by {
            assert(b.mazes_seq()[m] == a.mazes_seq()[m]);
        }
        assert forall|i2: int, j2: int|
            0 <= i2 < j2 < b.heros_seq().len() implies (#[trigger] b.heros_seq()[i2]).id_spec()
            != (#[trigger] b.heros_seq()[j2]).id_spec() by {
            assert(a.heros_seq()[i2].id_spec() != a.heros_seq()[j2].id_spec());
            assert(b.heros_seq()[i2].id_spec() == a.heros_seq()[i2].id_spec());
            assert(b.heros_seq()[j2].id_spec() == a.heros_seq()[j2].id_spec());
        }
        assert forall|i2: int|
            0 <= i2 < b.heros_seq().len() implies b.hero_ok(#[trigger] b.heros_seq()[i2]) by {
            if i2 != hi {
                assert(b.heros_seq()[i2] == a.heros_seq()[i2]);
                assert(a.hero_ok(a.heros_seq()[i2]));
            }
        }
        assert forall|i2: int, j2: int|
            0 <= i2 < j2 < b.minotaurs_seq().len() implies (
        #[trigger] b.minotaurs_seq()[i2]).id_spec() != (
        #[trigger] b.minotaurs_seq()[j2]).id_spec() by {
            assert(a.minotaurs_seq()[i2].id_spec() != a.minotaurs_seq()[j2].id_spec());
            assert(b.minotaurs_seq()[i2] == a.minotaurs_seq()[i2]);
            assert(b.minotaurs_seq()[j2] == a.minotaurs_seq()[j2]);
        }
        assert forall|i2: int|
            0 <= i2 < b.minotaurs_seq().len() implies b.minotaur_ok(
            #[trigger] b.minotaurs_seq()[i2],
        ) by {
            assert(b.minotaurs_seq()[i2] == a.minotaurs_seq()[i2]);
            assert(a.minotaur_ok(a.minotaurs_seq()[i2]));
        }
        assert forall|k: int|
            0 <= k < b.records_seq().len() implies (#[trigger] b.records_seq()[k]).maze_id
            <= b.mazes_seq().len() by {
            assert(b.records_seq()[k] == a.records_seq()[k]);
        }
    }

    /// What stays equal when a helper touches one hero and nothing else.
    pub open spec fn only_hero_changed(self, other: Game, hi: int) -> bool {
        &&& self.mazes_seq() == other.mazes_seq()
        &&& (forall|m: int|
            0 <= m < other.mazes_seq().len() ==> #[trigger] self.hero_room_spec(m)
                == other.hero_room_spec(m) && self.minotaur_room_spec(m)
                == other.minotaur_room_spec(m))
        &&& self.minotaurs_seq() == other.minotaurs_seq()
        &&& self.records_seq() == other.records_seq()
        &&& self.top_heros_seq() == other.top_heros_seq()
        &&& self.top_minotaurs_seq() == other.top_minotaurs_seq()
        &&& self.rooms_wf() == other.rooms_wf()
        &&& self.heros_seq().len() == other.heros_seq().len()
        &&& forall|j: int|
            0 <= j < other.heros_seq().len() && j != hi ==> #[trigger] self.heros_seq()[j]
                == other.heros_seq()[j]
    }

    /// Turn hero `hi` to face `direction`.
    fn hero_set_direction(&mut self, hi: usize, direction: Direction)
        requires
            old(self).wf_core(),
            hi < old(self).heros_seq().len(),
        ensures
            final(self).wf_core(),
            final(self).only_hero_changed(*old(self), hi as int),
            final(self).hero_rooms == old(self).hero_rooms,
            final(self).minotaur_rooms == old(self).minotaur_rooms,
            final(self).taken_names == old(self).taken_names,
            final(self).heros_seq()[hi as int] == (Hero {
                direction,
                ..old(self).heros_seq()[hi as int]
            }),
    {
        proof {
            assert(self.hero_ok(self.heros_seq()[hi as int]));
        }
        {
            let hm = &mut self.heros[hi];
            hm.set_direction(direction);
        }
        proof {
            Game::lemma_hero_update_core(*old(self), *self, hi as int);
        }
    }

    /// Move hero `hi` to `target` in maze `to`, restarting its cooldown.
    fn hero_move_to(&mut self, hi: usize, to: usize, target: Position, now_ms: u64)
        requires
            old(self).wf_core(),
            hi < old(self).heros_seq().len(),
            to < old(self).mazes_seq().len(),
            target.0 < old(self).mazes_seq()[to as int].px_width_spec(),
            target.1 < old(self).mazes_seq()[to as int].px_height_spec(),
        ensures
            final(self).wf_core(),
            final(self).only_hero_changed(*old(self), hi as int),
            final(self).hero_rooms == old(self).hero_rooms,
            final(self).minotaur_rooms == old(self).minotaur_rooms,
            final(self).taken_names == old(self).taken_names,
            final(self).heros_seq()[hi as int] == (Hero {
                maze_id: to,
                position: target,
                last_move_time: now_ms,
                ..old(self).heros_seq()[hi as int]
            }),
    {
        proof {
            assert(self.hero_ok(self.heros_seq()[hi as int]));
        }
        {
            let hm = &mut self.heros[hi];
            hm.set_maze_id(to);
        }
        {
            let hm = &mut self.heros[hi];
            hm.set_position(target, now_ms);
        }
        proof {
            Game::lemma_hero_update_core(*old(self), *self, hi as int);
        }
    }

    /// Grant hero `hi` the power-up it just stepped on.
    fn hero_apply_power_up(&mut self, hi: usize)
        requires
            old(self).wf_core(),
            hi < old(self).heros_seq().len(),
        ensures
            final(self).wf_core(),
            final(self).only_hero_changed(*old(self), hi as int),
            final(self).hero_rooms == old(self).hero_rooms,
            final(self).minotaur_rooms == old(self).minotaur_rooms,
            final(self).taken_names == old(self).taken_names,
            ({
                let h0 = old(self).heros_seq()[hi as int];
                let h1 = final(self).heros_seq()[hi as int];
                &&& h1.id_spec() == h0.id_spec()
                &&& h1.state == h0.state
                &&& h1.maze_id_spec() == h0.maze_id_spec()
                &&& h1.position_spec() == h0.position_spec()
                &&& h1.direction_spec() == h0.direction_spec()
                &&& h1.last_move_spec() == h0.last_move_spec()
                &&& exactly_one_upgrade(h0, h1)
                &&& crate::hero::has_collected(h1.collected_spec(), h0.maze_id_spec())
            }),
    {
        proof {
            assert(self.hero_ok(self.heros_seq()[hi as int]));
        }
        {
            let hm = &mut self.heros[hi];
            hm.apply_power_up();
        }
        proof {
            Game::lemma_hero_update_core(*old(self), *self, hi as int);
        }
    }

    /// Apply the retreat penalty to hero `hi`.
    fn hero_decrease_vision(&mut self, hi: usize)
        requires
            old(self).wf_core(),
            hi < old(self).heros_seq().len(),
            old(self).heros_seq()[hi as int].vision_spec() >= 2,
        ensures
            final(self).wf_core(),
            final(self).only_hero_changed(*old(self), hi as int),
            final(self).hero_rooms == old(self).hero_rooms,
            final(self).minotaur_rooms == old(self).minotaur_rooms,
            final(self).taken_names == old(self).taken_names,
            final(self).heros_seq()[hi as int] == (Hero {
                vision: (old(self).heros_seq()[hi as int].vision_spec() - 1) as usize,
                ..old(self).heros_seq()[hi as int]
            }),
    {
        proof {
            assert(self.hero_ok(self.heros_seq()[hi as int]));
        }
        {
            let hm = &mut self.heros[hi];
            hm.decrease_vision();
        }
        proof {
            Game::lemma_hero_update_core(*old(self), *self, hi as int);
        }
    }

    /// Put hero `hi` into the given life-cycle state.
    fn hero_set_state(&mut self, hi: usize, st: HeroState)
        requires
            old(self).wf_core(),
            hi < old(self).heros_seq().len(),
        ensures
            final(self).wf_core(),
            final(self).only_hero_changed(*old(self), hi as int),
            final(self).hero_rooms == old(self).hero_rooms,
            final(self).minotaur_rooms == old(self).minotaur_rooms,
            final(self).taken_names == old(self).taken_names,
            final(self).heros_seq()[hi as int] == (Hero {
                state: st,
                ..old(self).heros_seq()[hi as int]
            }),
    {
        proof {
            assert(self.hero_ok(self.heros_seq()[hi as int]));
        }
        {
            let hm = &mut self.heros[hi];
            hm.state = st;
        }
        proof {
            Game::lemma_hero_update_core(*old(self), *self, hi as int);
        }
    }

    /// Toggle hero `hi`'s interface preference.
    fn hero_cycle_ui(&mut self, hi: usize)
        requires
            old(self).wf_core(),
            hi < old(self).heros_seq().len(),
        ensures
            final(self).wf_core(),
            final(self).only_hero_changed(*old(self), hi as int),
            final(self).hero_rooms == old(self).hero_rooms,
            final(self).minotaur_rooms == old(self).minotaur_rooms,
            final(self).taken_names == old(self).taken_names,
            final(self).heros_seq()[hi as int] == (Hero {
                ui_options: old(self).heros_seq()[hi as int].ui_options.next_spec(),
                ..old(self).heros_seq()[hi as int]
            }),
    {
        proof {
            assert(self.hero_ok(self.heros_seq()[hi as int]));
        }
        {
            let hm = &mut self.heros[hi];
            let next = hm.ui_options.next();
            hm.ui_options = next;
        }
        proof {
            Game::lemma_hero_update_core(*old(self), *self, hi as int);
        }
    }

    /// Core well-formedness carries over when exactly one maze's counters
    /// or cache moved (its geometry intact).
    proof fn lemma_maze_update_core(a: Game, b: Game, m: int)
        requires
            a.wf_core(),
            0 <= m < a.mazes_seq().len(),
            b.mazes_seq().len() == a.mazes_seq().len(),
            forall|m2: int|
                0 <= m2 < a.mazes_seq().len() && m2 != m ==> #[trigger] b.mazes_seq()[m2]
                    == a.mazes_seq()[m2],
            b.mazes_seq()[m].wf(),
            b.mazes_seq()[m].same_geometry(a.mazes_seq()[m]),
            b.heros_seq() == a.heros_seq(),
            b.minotaurs_seq() == a.minotaurs_seq(),
            b.records_seq() == a.records_seq(),
            b.rooms_wf(),
        ensures
            b.wf_core(),
    {
        assert forall|m2: int|
            0 <= m2 < b.mazes_seq().len() implies (#[trigger] b.mazes_seq()[m2]).wf()
            && b.mazes_seq()[m2].id_spec() == m2 && b.mazes_seq()[m2].px_width_spec()
            == a.mazes_seq()[m2].px_width_spec() && b.mazes_seq()[m2].px_height_spec()
            == a.mazes_seq()[m2].px_height_spec() by {
            if m2 != m {
                assert(b.mazes_seq()[m2] == a.mazes_seq()[m2]);
            }
        }
        Game::lemma_core_transfer_relaxed(a, b);
    }

    /// Bump one maze's attempt counter.
    fn maze_increase_attempted(&mut self, m: usize)
        requires
            old(self).wf_core(),
            m < old(self).mazes_seq().len(),
        ensures
            final(self).wf_core(),
            final(self).same_mazes(*old(self)),
            final(self).mazes_seq()[m as int].attempted_spec() == counter_inc(
                old(self).mazes_seq()[m as int].attempted_spec(),
            ),
            final(self).mazes_seq()[m as int].passed_spec() == old(
                self,
            ).mazes_seq()[m as int].passed_spec(),
            *final(self) == (Game { mazes: final(self).mazes, ..*old(self) }),
            final(self).mazes_seq().len() == old(self).mazes_seq().len(),
            forall|m2: int|
                0 <= m2 < old(self).mazes_seq().len() && m2 != m ==> (#[trigger] final(self).mazes_seq()[m2]) == old(self).mazes_seq()[m2],
    {
        {
            let mz = &mut self.mazes[m];
            mz.increase_attempted();
        }
        proof {
            Game::lemma_maze_update_core(*old(self), *self, m as int);
            assert forall|m2: int|
                0 <= m2 < self.mazes_seq().len() implies (
            #[trigger] self.mazes_seq()[m2]).same_geometry(old(self).mazes_seq()[m2]) by {
                if m2 != m {
                    assert(self.mazes_seq()[m2] == old(self).mazes_seq()[m2]);
                }
            }
        }
    }

    /// Withdraw one attempt from a maze's counter.
    fn maze_decrease_attempted(&mut self, m: usize)
        requires
            old(self).wf_core(),
            m < old(self).mazes_seq().len(),
        ensures
            final(self).wf_core(),
            final(self).same_mazes(*old(self)),
            final(self).mazes_seq()[m as int].attempted_spec() == counter_dec(
                old(self).mazes_seq()[m as int].attempted_spec(),
            ),
            final(self).mazes_seq()[m as int].passed_spec() == old(
                self,
            ).mazes_seq()[m as int].passed_spec(),
            *final(self) == (Game { mazes: final(self).mazes, ..*old(self) }),
            final(self).mazes_seq().len() == old(self).mazes_seq().len(),
            forall|m2: int|
                0 <= m2 < old(self).mazes_seq().len() && m2 != m ==> (#[trigger] final(self).mazes_seq()[m2]) == old(self).mazes_seq()[m2],
    {
        {
            let mz = &mut self.mazes[m];
            mz.decrease_attempted();
        }
        proof {
            Game::lemma_maze_update_core(*old(self), *self, m as int);
            assert forall|m2: int|
                0 <= m2 < self.mazes_seq().len() implies (
            #[trigger] self.mazes_seq()[m2]).same_geometry(old(self).mazes_seq()[m2]) by {
                if m2 != m {
                    assert(self.mazes_seq()[m2] == old(self).mazes_seq()[m2]);
                }
            }
        }
    }

    /// Record one pass through a maze.
    fn maze_increase_passed(&mut self, m: usize)
        requires
            old(self).wf_core(),
            m < old(self).mazes_seq().len(),
        ensures
            final(self).wf_core(),
            final(self).same_mazes(*old(self)),
            final(self).mazes_seq()[m as int].passed_spec() == counter_inc(
                old(self).mazes_seq()[m as int].passed_spec(),
            ),
            final(self).mazes_seq()[m as int].attempted_spec() == old(
                self,
            ).mazes_seq()[m as int].attempted_spec(),
            *final(self) == (Game { mazes: final(self).mazes, ..*old(self) }),
            final(self).mazes_seq().len() == old(self).mazes_seq().len(),
            forall|m2: int|
                0 <= m2 < old(self).mazes_seq().len() && m2 != m ==> (#[trigger] final(self).mazes_seq()[m2]) == old(self).mazes_seq()[m2],
    {
        {
            let mz = &mut self.mazes[m];
            mz.increase_passed();
        }
        proof {
            Game::lemma_maze_update_core(*old(self), *self, m as int);
            assert forall|m2: int|
                0 <= m2 < self.mazes_seq().len() implies (
            #[trigger] self.mazes_seq()[m2]).same_geometry(old(self).mazes_seq()[m2]) by {
                if m2 != m {
                    assert(self.mazes_seq()[m2] == old(self).mazes_seq()[m2]);
                }
            }
        }
    }

    /// Withdraw one pass from a maze's counter.
    fn maze_decrease_passed(&mut self, m: usize)
        requires
            old(self).wf_core(),
            m < old(self).mazes_seq().len(),
        ensures
            final(self).wf_core(),
            final(self).same_mazes(*old(self)),
            final(self).mazes_seq()[m as int].passed_spec() == counter_dec(
                old(self).mazes_seq()[m as int].passed_spec(),
            ),
            final(self).mazes_seq()[m as int].attempted_spec() == old(
                self,
            ).mazes_seq()[m as int].attempted_spec(),
            *final(self) == (Game { mazes: final(self).mazes, ..*old(self) }),
            final(self).mazes_seq().len() == old(self).mazes_seq().len(),
            forall|m2: int|
                0 <= m2 < old(self).mazes_seq().len() && m2 != m ==> (#[trigger] final(self).mazes_seq()[m2]) == old(self).mazes_seq()[m2],
    {
        {
            let mz = &mut self.mazes[m];
            mz.decrease_passed();
        }
        proof {
            Game::lemma_maze_update_core(*old(self), *self, m as int);
            assert forall|m2: int|
                0 <= m2 < self.mazes_seq().len() implies (
            #[trigger] self.mazes_seq()[m2]).same_geometry(old(self).mazes_seq()[m2]) by {
                if m2 != m {
                    assert(self.mazes_seq()[m2] == old(self).mazes_seq()[m2]);
                }
            }
        }
    }

    /// One movement command for hero `hi` (already in a maze): refresh what
    /// it sees, face the requested direction, and -- cooldown and walls
    /// permitting -- step there; stepping on the power-up collects it,
    /// stepping on the exit advances the ladder (winning past the last
    /// maze), stepping on the entrance of a later maze regresses, and
    /// reaching the top vision tier costs one tier on any such transition.
    #[verifier::loop_isolation(false)]
    #[verifier::rlimit(100)]
    fn move_hero(&mut self, hi: usize, direction: Direction, now_ms: u64)
        requires
            old(self).wf_core(),
            hi < old(self).heros_seq().len(),
            old(self).heros_seq()[hi as int].state is InMaze,
        ensures
            final(self).wf_core(),
            final(self).same_mazes(*old(self)),
            final(self).minotaurs_seq() == old(self).minotaurs_seq(),
            final(self).records_seq() == old(self).records_seq(),
            final(self).top_heros_seq() == old(self).top_heros_seq(),
            final(self).top_minotaurs_seq() == old(self).top_minotaurs_seq(),
            final(self).heros_seq().len() == old(self).heros_seq().len(),
            forall|j: int|
                0 <= j < old(self).heros_seq().len() && j != hi ==> (#[trigger] final(self).heros_seq()[j]) == old(self).heros_seq()[j],
            ({
                let h0 = old(self).heros_seq()[hi as int];
                let h1 = final(self).heros_seq()[hi as int];
                let g0 = *old(self);
                let mid = h0.maze_id_spec() as int;
                let mz = g0.mazes_seq()[mid];
                let np = step_spec(h0.position_spec(), direction);
                let ready = (if now_ms >= h0.last_move_spec() {
                    (now_ms - h0.last_move_spec()) as u64
                } else {
                    0u64
                }) >= crate::view::movement_recovery_ms_spec(h0.speed_spec());
                let valid_np = mz.valid_set().contains(pos_int(np));
                let is_ent = np == mz.entrance_seq()[0] || np == mz.entrance_seq()[1];
                let is_exit = np == mz.exit_seq()[0] || np == mz.exit_seq()[1];
                &&& h1.id_spec() == h0.id_spec()
                &&& h1.direction_spec() == direction
                &&& h1.speed_spec() >= h0.speed_spec()
                &&& h1.memory_spec() >= h0.memory_spec()
                &&& (!ready ==> h1.position_spec() == h0.position_spec() && h1.maze_id_spec()
                    == h0.maze_id_spec() && h1.state == h0.state && h1.last_move_spec()
                    == h0.last_move_spec() && h1.vision_spec() == h0.vision_spec()
                    && h1.speed_spec() == h0.speed_spec() && h1.memory_spec() == h0.memory_spec())
                &&& (ready && !valid_np ==> h1.position_spec() == h0.position_spec()
                    && h1.maze_id_spec() == h0.maze_id_spec() && h1.state == h0.state
                    && h1.last_move_spec() == h0.last_move_spec() && h1.vision_spec()
                    == h0.vision_spec() && h1.speed_spec() == h0.speed_spec() && h1.memory_spec()
                    == h0.memory_spec())
                &&& (ready && valid_np ==> h1.last_move_spec() == now_ms)
                &&& (ready && valid_np && !(is_ent && mid > 0) && !is_exit ==> h1.position_spec()
                    == np && h1.maze_id_spec() == h0.maze_id_spec() && h1.state == h0.state)
                &&& (ready && valid_np && is_ent && mid > 0 ==> h1.maze_id_spec() == mid - 1 && (
                exists|idx: int|
                    0 <= idx < 2 && np == mz.entrance_seq()[idx] && h1.position_spec()
                        == (#[trigger] g0.mazes_seq()[mid - 1].exit_seq()[idx])) && h1.state
                    == h0.state)
                &&& (ready && valid_np && !(is_ent && mid > 0) && is_exit && mid + 1
                    == g0.ladder_len() ==> h1.state == (HeroState::Victory {
                    duration: (if now_ms >= h0.state->InMaze_instant {
                        (now_ms - h0.state->InMaze_instant) as u64
                    } else {
                        0u64
                    }),
                    instant: now_ms,
                }) && h1.maze_id_spec() == h0.maze_id_spec() && h1.position_spec() == np)
                &&& (ready && valid_np && !(is_ent && mid > 0) && is_exit && mid + 1
                    < g0.ladder_len() ==> h1.maze_id_spec() == mid + 1 && (exists|idx: int|
                    0 <= idx < 2 && np == mz.exit_seq()[idx] && h1.position_spec() == (
                    #[trigger] g0.mazes_seq()[mid + 1].entrance_seq()[idx])) && h1.state
                    == h0.state)
                &&& sees_fresh(*final(self), h1, now_ms)
                &&& ({
                    let g1 = *final(self);
                    let hid = h0.id_spec();
                    let ll = g0.ladder_len();
                    let t_ent = ready && valid_np && is_ent && mid > 0;
                    let t_exit = ready && valid_np && !(is_ent && mid > 0) && is_exit && mid + 1
                        < ll;
                    let t_win = ready && valid_np && !(is_ent && mid > 0) && is_exit && mid + 1
                        == ll;
                    &&& (forall|m: int|
                        0 <= m < ll ==> (#[trigger] g1.mazes_seq()[m]).attempted_spec() == (if t_ent
                            && m == mid {
                            counter_dec(g0.mazes_seq()[m].attempted_spec())
                        } else if t_exit && m == mid + 1 {
                            counter_inc(g0.mazes_seq()[m].attempted_spec())
                        } else {
                            g0.mazes_seq()[m].attempted_spec() as int
                        }))
                    &&& (forall|m: int|
                        0 <= m < ll ==> (#[trigger] g1.mazes_seq()[m]).passed_spec() == (if t_ent
                            && m == mid - 1 {
                            counter_dec(g0.mazes_seq()[m].passed_spec())
                        } else if (t_exit || t_win) && m == mid {
                            counter_inc(g0.mazes_seq()[m].passed_spec())
                        } else {
                            g0.mazes_seq()[m].passed_spec() as int
                        }))
                    &&& (!(t_ent || t_exit || t_win) ==> forall|m: int|
                        0 <= m < ll ==> #[trigger] g1.hero_room_spec(m) == g0.hero_room_spec(m))
                    &&& (t_ent ==> Game::room_has(g1.hero_room_spec(mid - 1), hid)
                        && !Game::room_has(g1.hero_room_spec(mid), hid))
                    &&& (t_exit ==> Game::room_has(g1.hero_room_spec(mid + 1), hid)
                        && !Game::room_has(g1.hero_room_spec(mid), hid))
                    &&& (t_win ==> !Game::room_has(g1.hero_room_spec(mid), hid))
                })
                &&& ({
                    let pu_hit = ready && valid_np && mz.power_up_spec() == Some(np)
                        && !crate::hero::has_collected(h0.collected_spec(), h0.maze_id_spec());
                    &&& (pu_hit ==> crate::hero::has_collected(
                        h1.collected_spec(),
                        h0.maze_id_spec(),
                    ))
                    &&& (!pu_hit ==> h1.collected_spec() == h0.collected_spec())
                    &&& (!pu_hit && ready && valid_np && !(is_ent && mid > 0) && !is_exit
                        ==> h1.vision_spec() == h0.vision_spec())
                    &&& (pu_hit && !(is_ent && mid > 0) && !is_exit ==> exactly_one_upgrade(
                        h0,
                        h1,
                    ))
                    &&& (!pu_hit && ready && valid_np && ((is_ent && mid > 0) || (is_exit && mid
                        + 1 < g0.ladder_len())) ==> h1.vision_spec() == (if h0.vision_spec()
                        == Hero::MAX_VISION {
                        (h0.vision_spec() - 1) as usize
                    } else {
                        h0.vision_spec()
                    }))
                })
            }),
    {
        let ghost g0 = *old(self);
        let ghost h0 = old(self).heros_seq()[hi as int];
        self.refresh_hero_visibility(hi, now_ms);
        let ghost s_r1 = *self;
        let cur_dir = self.heros[hi].direction();
        if cur_dir != direction {
            self.hero_set_direction(hi, direction);
        } else {
            proof {
                assert(self.heros_seq()[hi as int].direction_spec() == direction);
            }
        }
        let ghost s_dir = *self;
        proof {
            lemma_same_counters_of_eq(s_dir, s_r1);
            lemma_same_counters_trans(s_dir, s_r1, g0);
            assert(s_dir.hero_rooms == g0.hero_rooms);
        }
        if !self.heros[hi].can_move(now_ms) {
            self.refresh_hero_visibility(hi, now_ms);
            proof {
                lemma_same_counters_trans(*self, s_dir, g0);
                assert(self.hero_rooms == g0.hero_rooms);
                assert forall|m: int|
                    0 <= m < g0.ladder_len() implies #[trigger] self.hero_room_spec(m)
                    == g0.hero_room_spec(m) by {}
            }
            return ;
        }
        let pos = self.heros[hi].position();
        let mid = self.heros[hi].maze_id();
        proof {
            assert(self.hero_ok(self.heros_seq()[hi as int]));
            self.mazes_seq()[mid as int].lemma_maze_facts();
        }
        let np = into_direction(pos, &direction);
        let valid_np = self.mazes[mid].is_valid_position(np);
        if !valid_np {
            self.refresh_hero_visibility(hi, now_ms);
            proof {
                lemma_same_counters_trans(*self, s_dir, g0);
                assert(self.hero_rooms == g0.hero_rooms);
                assert forall|m: int|
                    0 <= m < g0.ladder_len() implies #[trigger] self.hero_room_spec(m)
                    == g0.hero_room_spec(m) by {}
            }
            return ;
        }
        let st = self.heros[hi].state;
        let ghost instant0 = h0.state->InMaze_instant;
        self.hero_move_to(hi, mid, np, now_ms);

        // power-up pickup
        match self.mazes[mid].power_up_position() {
            Some(pp) => {
                if pp.0 == np.0 && pp.1 == np.1 {
                    proof {
                        assert(self.hero_ok(self.heros_seq()[hi as int]));
                    }
                    let collected = self.heros[hi].power_up_collected_in_maze();
                    if collected.is_none() {
                        self.hero_apply_power_up(hi);
                    }
                }
            },
            None => {},
        }
        let ghost s_pu = *self;
        proof {
            lemma_same_counters_of_eq(s_pu, s_dir);
            lemma_same_counters_trans(s_pu, s_dir, g0);
            assert(s_pu.hero_rooms == g0.hero_rooms);
        }

        // room transitions
        let e0 = self.mazes[mid].entrance_positions()[0];
        let e1 = self.mazes[mid].entrance_positions()[1];
        let x0 = self.mazes[mid].exit_positions()[0];
        let x1 = self.mazes[mid].exit_positions()[1];
        let is_ent = (np.0 == e0.0 && np.1 == e0.1) || (np.0 == e1.0 && np.1 == e1.1);
        let is_exit = (np.0 == x0.0 && np.1 == x0.1) || (np.0 == x1.0 && np.1 == x1.1);
        let hid = self.heros[hi].id();
        if is_ent && mid > 0 {
            let to = mid - 1;
            self.maze_decrease_attempted(mid);
            self.maze_decrease_passed(to);
            let ghost s_cnt = *self;
            proof {
                assert forall|m: int|
                    0 <= m < g0.ladder_len() implies (
                #[trigger] s_cnt.mazes_seq()[m]).attempted_spec() == (if m == mid {
                    counter_dec(g0.mazes_seq()[m].attempted_spec())
                } else {
                    g0.mazes_seq()[m].attempted_spec() as int
                }) && s_cnt.mazes_seq()[m].passed_spec() == (if m == to {
                    counter_dec(g0.mazes_seq()[m].passed_spec())
                } else {
                    g0.mazes_seq()[m].passed_spec() as int
                }) by {}
            }
            let filtered = Game::without_id(&self.hero_rooms[mid], hid);
            self.hero_rooms[mid] = filtered;
            self.hero_rooms[to].push(hid);
            let ghost s_rooms = *self;
            proof {
                assert(!Game::room_has(s_rooms.hero_room_spec(mid as int), hid)) by {
                    if Game::room_has(s_rooms.hero_room_spec(mid as int), hid) {
                        let k = choose|k: int|
                            0 <= k < s_rooms.hero_room_spec(mid as int).len()
                                && s_rooms.hero_room_spec(mid as int)[k] == hid;
                        assert(filtered@[k] != hid);
                    }
                }
                assert(Game::room_has(s_rooms.hero_room_spec(to as int), hid)) by {
                    let r = s_rooms.hero_room_spec(to as int);
                    assert(r[r.len() - 1] == hid);
                }
            }
            if self.heros[hi].vision() == 8 {
                self.hero_decrease_vision(hi);
            }
            proof {
                self.mazes_seq()[to as int].lemma_maze_facts();
            }
            let target = if np.0 == e0.0 && np.1 == e0.1 {
                self.mazes[to].exit_positions()[0]
            } else {
                self.mazes[to].exit_positions()[1]
            };
            self.hero_move_to(hi, to, target, now_ms);
            let ghost s_mv = *self;
            self.refresh_hero_visibility(hi, now_ms);
            proof {
                lemma_same_counters_of_eq(s_mv, s_cnt);
                lemma_same_counters_trans(*self, s_mv, s_cnt);
                assert forall|m: int|
                    0 <= m < g0.ladder_len() implies (
                #[trigger] self.mazes_seq()[m]).attempted_spec()
                    == s_cnt.mazes_seq()[m].attempted_spec() && self.mazes_seq()[m].passed_spec()
                    == s_cnt.mazes_seq()[m].passed_spec() by {}
                assert(self.hero_rooms == s_rooms.hero_rooms);
                assert(!Game::room_has(self.hero_room_spec(mid as int), hid));
                assert(Game::room_has(self.hero_room_spec(to as int), hid));
            }
            return ;
        } else if is_exit {
            self.maze_increase_passed(mid);
            let ghost s_cnt = *self;
            let filtered = Game::without_id(&self.hero_rooms[mid], hid);
            self.hero_rooms[mid] = filtered;
            let ghost s_rm = *self;
            proof {
                assert(!Game::room_has(s_rm.hero_room_spec(mid as int), hid)) by {
                    if Game::room_has(s_rm.hero_room_spec(mid as int), hid) {
                        let k = choose|k: int|
                            0 <= k < s_rm.hero_room_spec(mid as int).len()
                                && s_rm.hero_room_spec(mid as int)[k] == hid;
                        assert(filtered@[k] != hid);
                    }
                }
            }
            let to = mid + 1;
            if to == self.mazes.len() {
                let elapsed = if now_ms >= {
                    match st {
                        HeroState::InMaze { instant } => instant,
                        _ => 0,
                    }
                } {
                    now_ms - (match st {
                        HeroState::InMaze { instant } => instant,
                        _ => 0,
                    })
                } else {
                    0
                };
                self.hero_set_state(
                    hi,
                    HeroState::Victory { duration: elapsed, instant: now_ms },
                );
                let ghost s_mv = *self;
                self.refresh_hero_visibility(hi, now_ms);
                proof {
                    lemma_same_counters_of_eq(s_mv, s_cnt);
                    lemma_same_counters_trans(*self, s_mv, s_cnt);
                    assert(self.hero_rooms == s_rm.hero_rooms);
                    assert(!Game::room_has(self.hero_room_spec(mid as int), hid));
                    assert forall|m: int|
                        0 <= m < g0.ladder_len() implies (
                    #[trigger] self.mazes_seq()[m]).attempted_spec()
                        == g0.mazes_seq()[m].attempted_spec() && self.mazes_seq()[m].passed_spec()
                        == (if m == mid {
                        counter_inc(g0.mazes_seq()[m].passed_spec())
                    } else {
                        g0.mazes_seq()[m].passed_spec() as int
                    }) by {
                        assert(self.mazes_seq()[m].attempted_spec()
                            == s_cnt.mazes_seq()[m].attempted_spec());
                        assert(self.mazes_seq()[m].passed_spec()
                            == s_cnt.mazes_seq()[m].passed_spec());
                        assert(s_cnt.mazes_seq()[m].attempted_spec() == (if m == mid {
                            s_pu.mazes_seq()[m].attempted_spec() as int
                        } else {
                            s_pu.mazes_seq()[m].attempted_spec() as int
                        }));
                    }
                }
                return ;
            } else {
                self.hero_rooms[to].push(hid);
                let ghost s_rooms = *self;
                proof {
                    assert(!Game::room_has(s_rooms.hero_room_spec(mid as int), hid)) by {
                        assert(s_rooms.hero_room_spec(mid as int) == s_rm.hero_room_spec(
                            mid as int,
                        ));
                    }
                    assert(Game::room_has(s_rooms.hero_room_spec(to as int), hid)) by {
                        let r = s_rooms.hero_room_spec(to as int);
                        assert(r[r.len() - 1] == hid);
                    }
                }
                self.maze_increase_attempted(to);
                let ghost s_cnt2 = *self;
                proof {
                    assert forall|m: int|
                        0 <= m < g0.ladder_len() implies (
                    #[trigger] s_cnt2.mazes_seq()[m]).attempted_spec() == (if m == to {
                        counter_inc(g0.mazes_seq()[m].attempted_spec())
                    } else {
                        g0.mazes_seq()[m].attempted_spec() as int
                    }) && s_cnt2.mazes_seq()[m].passed_spec() == (if m == mid {
                        counter_inc(g0.mazes_seq()[m].passed_spec())
                    } else {
                        g0.mazes_seq()[m].passed_spec() as int
                    }) by {}
                }
                if self.heros[hi].vision() == 8 {
                    self.hero_decrease_vision(hi);
                }
                proof {
                    self.mazes_seq()[to as int].lemma_maze_facts();
                }
                let target = if np.0 == x0.0 && np.1 == x0.1 {
                    self.mazes[to].entrance_positions()[0]
                } else {
                    self.mazes[to].entrance_positions()[1]
                };
                self.hero_move_to(hi, to, target, now_ms);
                let ghost s_mv = *self;
                self.refresh_hero_visibility(hi, now_ms);
                proof {
                    lemma_same_counters_of_eq(s_mv, s_cnt2);
                    lemma_same_counters_trans(*self, s_mv, s_cnt2);
                    assert forall|m: int|
                        0 <= m < g0.ladder_len() implies (
                    #[trigger] self.mazes_seq()[m]).attempted_spec()
                        == s_cnt2.mazes_seq()[m].attempted_spec()
                        && self.mazes_seq()[m].passed_spec()
                        == s_cnt2.mazes_seq()[m].passed_spec() by {}
                    assert(self.hero_rooms == s_rooms.hero_rooms);
                    assert(!Game::room_has(self.hero_room_spec(mid as int), hid));
                    assert(Game::room_has(self.hero_room_spec(to as int), hid));
                }
                return ;
            }
        }
        self.refresh_hero_visibility(hi, now_ms);
        proof {
            lemma_same_counters_trans(*self, s_pu, g0);
            assert(self.hero_rooms == g0.hero_rooms);
            assert forall|m: int|
                0 <= m < g0.ladder_len() implies #[trigger] self.hero_room_spec(m)
                == g0.hero_room_spec(m) by {}
        }
    }

    /// Apply one player command, synchronously. The first command of a
    /// waiting hero starts its run; turning is free and immediate; moving is
    /// subject to the cooldown and a wall check and may trigger the room
    /// transitions; unknown hero ids are ignored. The hero's record book
    /// entry is refreshed afterwards.
    #[verifier::loop_isolation(false)]
    #[verifier::rlimit(100)]
    pub fn handle_command(&mut self, command: &HeroCommand, hero_id: u128, now_ms: u64)
        requires
            old(self).wf(),
        ensures
            final(self).wf(),
            final(self).same_mazes(*old(self)),
            final(self).minotaurs_seq() == old(self).minotaurs_seq(),
            !old(self).has_hero(hero_id) ==> *final(self) == *old(self),
            final(self).heros_seq().len() == old(self).heros_seq().len(),
            forall|id: u128| #[trigger]
                final(self).has_hero(id) == old(self).has_hero(id),
            old(self).has_hero(hero_id) ==> ({
                let i = old(self).hero_idx(hero_id);
                let h0 = old(self).heros_seq()[i];
                let h1 = final(self).heros_seq()[i];
                let g0 = *old(self);
                let st1 = if h0.state is WaitingToStart {
                    HeroState::InMaze { instant: now_ms }
                } else {
                    h0.state
                };
                &&& h1.id_spec() == hero_id
                &&& (forall|j: int|
                    0 <= j < g0.heros_seq().len() && j != i ==> (#[trigger] final(self).heros_seq()[j]) == g0.heros_seq()[j])
                &&& ((h0.state is Dead || h0.state is Victory) ==> h1 == h0
                    && same_counters_and_rooms(*final(self), g0))
                &&& ((h0.state is WaitingToStart || h0.state is InMaze) ==> (match *command {
                    HeroCommand::CycleUiOptions => h1 == (Hero {
                        state: st1,
                        ui_options: h0.ui_options.next_spec(),
                        ..h0
                    }) && same_counters_and_rooms(*final(self), g0),
                    HeroCommand::TurnClockwise => h1.direction_spec()
                        == h0.direction_spec().rotate_clockwise_spec() && h1.position_spec()
                        == h0.position_spec() && h1.maze_id_spec() == h0.maze_id_spec() && h1.state
                        == st1 && h1.last_move_spec() == h0.last_move_spec() && h1.vision_spec()
                        == h0.vision_spec() && h1.speed_spec() == h0.speed_spec()
                        && h1.memory_spec() == h0.memory_spec() && sees_fresh(
                        *final(self),
                        h1,
                        now_ms,
                    ) && same_counters_and_rooms(*final(self), g0),
                    HeroCommand::TurnCounterClockwise => h1.direction_spec()
                        == h0.direction_spec().rotate_counter_clockwise_spec()
                        && h1.position_spec() == h0.position_spec() && h1.maze_id_spec()
                        == h0.maze_id_spec() && h1.state == st1 && h1.last_move_spec()
                        == h0.last_move_spec() && h1.vision_spec() == h0.vision_spec()
                        && h1.speed_spec() == h0.speed_spec() && h1.memory_spec()
                        == h0.memory_spec() && sees_fresh(*final(self), h1, now_ms)
                        && same_counters_and_rooms(*final(self), g0),
                    HeroCommand::Move { direction } => {
                        let mid = h0.maze_id_spec() as int;
                        let mz = g0.mazes_seq()[mid];
                        let np = step_spec(h0.position_spec(), direction);
                        let ready = (if now_ms >= h0.last_move_spec() {
                            (now_ms - h0.last_move_spec()) as u64
                        } else {
                            0u64
                        }) >= crate::view::movement_recovery_ms_spec(h0.speed_spec());
                        let valid_np = mz.valid_set().contains(pos_int(np));
                        let is_ent = np == mz.entrance_seq()[0] || np == mz.entrance_seq()[1];
                        let is_exit = np == mz.exit_seq()[0] || np == mz.exit_seq()[1];
                        &&& h1.direction_spec() == direction
                        &&& sees_fresh(*final(self), h1, now_ms)
                        &&& (!ready ==> h1.position_spec() == h0.position_spec()
                            && h1.maze_id_spec() == h0.maze_id_spec() && h1.state == st1
                            && h1.last_move_spec() == h0.last_move_spec() && h1.vision_spec()
                            == h0.vision_spec())
                        &&& (ready && !valid_np ==> h1.position_spec() == h0.position_spec()
                            && h1.maze_id_spec() == h0.maze_id_spec() && h1.state == st1
                            && h1.last_move_spec() == h0.last_move_spec() && h1.vision_spec()
                            == h0.vision_spec())
                        &&& (ready && valid_np ==> h1.last_move_spec() == now_ms)
                        &&& (ready && valid_np && !(is_ent && mid > 0) && !is_exit
                            ==> h1.position_spec() == np && h1.maze_id_spec() == h0.maze_id_spec()
                            && h1.state == st1)
                        &&& (ready && valid_np && is_ent && mid > 0 ==> h1.maze_id_spec() == mid
                            - 1 && (exists|idx: int|
                            0 <= idx < 2 && np == mz.entrance_seq()[idx] && h1.position_spec() == (
                            #[trigger] g0.mazes_seq()[mid - 1].exit_seq()[idx])) && h1.state
                            == st1)
                        &&& (ready && valid_np && !(is_ent && mid > 0) && is_exit && mid + 1
                            == g0.ladder_len() ==> h1.state == (HeroState::Victory {
                            duration: (if now_ms >= st1->InMaze_instant {
                                (now_ms - st1->InMaze_instant) as u64
                            } else {
                                0u64
                            }),
                            instant: now_ms,
                        }) && h1.maze_id_spec() == h0.maze_id_spec() && h1.position_spec() == np)
                        &&& (ready && valid_np && !(is_ent && mid > 0) && is_exit && mid + 1
                            < g0.ladder_len() ==> h1.maze_id_spec() == mid + 1 && (exists|idx: int|
                            0 <= idx < 2 && np == mz.exit_seq()[idx] && h1.position_spec() == (
                            #[trigger] g0.mazes_seq()[mid + 1].entrance_seq()[idx])) && h1.state
                            == st1)
                        &&& ({
                            let g1 = *final(self);
                            let hid = hero_id;
                            let ll = g0.ladder_len();
                            let t_ent = ready && valid_np && is_ent && mid > 0;
                            let t_exit = ready && valid_np && !(is_ent && mid > 0) && is_exit
                                && mid + 1 < ll;
                            let t_win = ready && valid_np && !(is_ent && mid > 0) && is_exit && mid
                                + 1 == ll;
                            &&& (forall|m: int|
                                0 <= m < ll ==> (#[trigger] g1.mazes_seq()[m]).attempted_spec()
                                    == (if t_ent && m == mid {
                                    counter_dec(g0.mazes_seq()[m].attempted_spec())
                                } else if t_exit && m == mid + 1 {
                                    counter_inc(g0.mazes_seq()[m].attempted_spec())
                                } else {
                                    g0.mazes_seq()[m].attempted_spec() as int
                                }))
                            &&& (forall|m: int|
                                0 <= m < ll ==> (#[trigger] g1.mazes_seq()[m]).passed_spec() == (
                                if t_ent && m == mid - 1 {
                                    counter_dec(g0.mazes_seq()[m].passed_spec())
                                } else if (t_exit || t_win) && m == mid {
                                    counter_inc(g0.mazes_seq()[m].passed_spec())
                                } else {
                                    g0.mazes_seq()[m].passed_spec() as int
                                }))
                            &&& (!(t_ent || t_exit || t_win) ==> forall|m: int|
                                0 <= m < ll ==> #[trigger] g1.hero_room_spec(m)
                                    == g0.hero_room_spec(m))
                            &&& (t_ent ==> Game::room_has(g1.hero_room_spec(mid - 1), hid)
                                && !Game::room_has(g1.hero_room_spec(mid), hid))
                            &&& (t_exit ==> Game::room_has(g1.hero_room_spec(mid + 1), hid)
                                && !Game::room_has(g1.hero_room_spec(mid), hid))
                            &&& (t_win ==> !Game::room_has(g1.hero_room_spec(mid), hid))
                            &&& (t_win ==> exists|k: int|
                                0 <= k < g1.records_seq().len() && (
                                #[trigger] g1.records_seq()[k]).id == hero_id
                                    && g1.records_seq()[k].maze_id == ll)
                        })
                        &&& ({
                            let pu_hit = ready && valid_np && mz.power_up_spec() == Some(np)
                                && !crate::hero::has_collected(
                                h0.collected_spec(),
                                h0.maze_id_spec(),
                            );
                            &&& (pu_hit ==> crate::hero::has_collected(
                                h1.collected_spec(),
                                h0.maze_id_spec(),
                            ))
                            &&& (!pu_hit ==> h1.collected_spec() == h0.collected_spec())
                            &&& (!pu_hit && ready && valid_np && ((is_ent && mid > 0) || (is_exit
                                && mid + 1 < g0.ladder_len())) ==> h1.vision_spec() == (if h0.vision_spec()
                                == Hero::MAX_VISION {
                                (h0.vision_spec() - 1) as usize
                            } else {
                                h0.vision_spec()
                            }))
                            &&& (pu_hit && !(is_ent && mid > 0) && !is_exit
                                ==> exactly_one_upgrade(h0, h1))
                        })
                    },
                }))
            }),
    {
        let hi = match self.hero_index_of(hero_id) {
            Some(i) => i,
            None => {
                return ;
            },
        };
        proof {
            let k = self.hero_idx(hero_id);
            assert(self.heros_seq()[k].id_spec() == hero_id);
            if k != hi {
                assert(false);
            }
        }
        let st = self.heros[hi].state;
        match st {
            HeroState::WaitingToStart => {
                self.hero_set_state(hi, HeroState::InMaze { instant: now_ms });
            },
            _ => {},
        }
        let st2 = self.heros[hi].state;
        match st2 {
            HeroState::InMaze { .. } => {
                match command {
                    HeroCommand::Move { direction } => {
                        self.move_hero(hi, *direction, now_ms);
                    },
                    HeroCommand::TurnClockwise => {
                        self.refresh_hero_visibility(hi, now_ms);
                        let d = self.heros[hi].direction().rotate_clockwise();
                        self.hero_set_direction(hi, d);
                        self.refresh_hero_visibility(hi, now_ms);
                    },
                    HeroCommand::TurnCounterClockwise => {
                        self.refresh_hero_visibility(hi, now_ms);
                        let d = self.heros[hi].direction().rotate_counter_clockwise();
                        self.hero_set_direction(hi, d);
                        self.refresh_hero_visibility(hi, now_ms);
                    },
                    HeroCommand::CycleUiOptions => {
                        self.hero_cycle_ui(hi);
                    },
                }
            },
            _ => {},
        }
        let ghost s_cmd = *self;
        self.update_hero_record(hi, now_ms);
        proof {
            lemma_same_counters_of_eq(*self, s_cmd);
            assert(self.hero_rooms == s_cmd.hero_rooms);
            assert forall|m: int|
                0 <= m < old(self).ladder_len() implies #[trigger] self.hero_room_spec(m)
                == s_cmd.hero_room_spec(m) by {}
            assert forall|m: int|
                0 <= m < old(self).ladder_len() implies (
            #[trigger] self.mazes_seq()[m]).attempted_spec()
                == s_cmd.mazes_seq()[m].attempted_spec() && self.mazes_seq()[m].passed_spec()
                == s_cmd.mazes_seq()[m].passed_spec() by {}
            assert forall|id: u128| #[trigger]
                self.has_hero(id) == old(self).has_hero(id) by {
                if old(self).has_hero(id) {
                    let k2 = choose|k2: int|
                        0 <= k2 < old(self).heros_seq().len() && (#[trigger] old(
                            self,
                        ).heros_seq()[k2]).id_spec() == id;
                    assert(self.heros_seq()[k2].id_spec() == id);
                }
                if self.has_hero(id) {
                    let k2 = choose|k2: int|
                        0 <= k2 < self.heros_seq().len() && (
                        #[trigger] self.heros_seq()[k2]).id_spec() == id;
                    assert(old(self).heros_seq()[k2].id_spec() == id);
                }
            }
        }
    }

    /// Whether this life-cycle state's respawn timer has elapsed.
    pub open spec fn respawn_due(st: HeroState, now_ms: u64) -> bool {
        match st {
            HeroState::Dead { instant, .. } => (if now_ms >= instant {
                (now_ms - instant) as u64
            } else {
                0u64
            }) > RESPAWN_INTERVAL_MS,
            HeroState::Victory { instant, .. } => (if now_ms >= instant {
                (now_ms - instant) as u64
            } else {
                0u64
            }) > RESPAWN_INTERVAL_MS,
            _ => false,
        }
    }

    /// One simulation tick: respawn heroes whose timer elapsed back to the
    /// first maze, run every pursuer's perception, chase and movement step,
    /// resolve collisions (a pursuer sharing a cell with a live hero kills
    /// it, freezing its survival time), and refresh the pursuer
    /// leaderboard. Afterwards no hero still in a maze shares a cell with a
    /// pursuer of that maze.
    #[verifier::loop_isolation(false)]
    #[verifier::rlimit(100)]
    pub fn update(&mut self, now_ms: u64)
        requires
            old(self).wf(),
        ensures
            final(self).wf(),
            final(self).same_mazes(*old(self)),
            final(self).heros_seq().len() == old(self).heros_seq().len(),
            forall|j: int|
                0 <= j < old(self).heros_seq().len() ==> (#[trigger] final(self).heros_seq()[j]).id_spec() == old(self).heros_seq()[j].id_spec(),
            final(self).minotaurs_seq().len() == old(self).minotaurs_seq().len(),
            ({
                let g0 = *old(self);
                let g1 = *final(self);
                forall|t: int|
                    0 <= t < g0.minotaurs_seq().len() ==> (
                    #[trigger] g1.minotaurs_seq()[t]).id_spec() == g0.minotaurs_seq()[t].id_spec()
                        && g1.minotaurs_seq()[t].maze_id_spec()
                        == g0.minotaurs_seq()[t].maze_id_spec() && g1.minotaurs_seq()[t].kills
                        >= g0.minotaurs_seq()[t].kills
            }),
            // elapsed respawn timers reset the hero fully: back to the first
            // maze at one of its start cells, with initial stats, cleared
            // books (the fresh maze-0 memory page is the only one), and a
            // roster seat in room 0
            ({
                let g0 = *old(self);
                let g1 = *final(self);
                forall|j: int|
                    0 <= j < g0.heros_seq().len() && Game::respawn_due(
                        (#[trigger] g0.heros_seq()[j]).state,
                        now_ms,
                    ) ==> {
                        let h1 = g1.heros_seq()[j];
                        let ent = g1.mazes_seq()[0].entrance_seq();
                        &&& h1.state == HeroState::WaitingToStart
                        &&& h1.maze_id_spec() == 0
                        &&& h1.vision_spec() == 1
                        &&& h1.speed_spec() == 4
                        &&& h1.memory_spec() == 0
                        &&& (exists|i: int|
                            0 <= i < 2 && h1.position_spec().0 == (#[trigger] ent[i]).0 + 1
                                && h1.position_spec().1 == ent[i].1)
                        &&& h1.collected_spec().len() == 0
                        &&& h1.past_visible_spec().len() == 1
                        &&& Game::room_has(g1.hero_room_spec(0), h1.id_spec())
                    }
            }),
            // heroes whose timer has not elapsed keep their place and stats;
            // Dead and Victory are terminal until the timer elapses, and a
            // hero still in a maze can only fall to Dead this tick
            ({
                let g0 = *old(self);
                let g1 = *final(self);
                forall|j: int|
                    0 <= j < g0.heros_seq().len() && !Game::respawn_due(
                        (#[trigger] g0.heros_seq()[j]).state,
                        now_ms,
                    ) ==> {
                        let h0 = g0.heros_seq()[j];
                        let h1 = g1.heros_seq()[j];
                        &&& h1.position_spec() == h0.position_spec()
                        &&& h1.maze_id_spec() == h0.maze_id_spec()
                        &&& h1.vision_spec() == h0.vision_spec()
                        &&& h1.speed_spec() == h0.speed_spec()
                        &&& h1.memory_spec() == h0.memory_spec()
                        &&& h1.collected_spec() == h0.collected_spec()
                        &&& (h1.state == h0.state || (h0.state is InMaze && h1.state == (
                        HeroState::Dead {
                            duration: (if now_ms >= h0.state->InMaze_instant {
                                (now_ms - h0.state->InMaze_instant) as u64
                            } else {
                                0u64
                            }),
                            instant: now_ms,
                        })))
                    }
            }),
            // a hero that died this tick was caught: its survival time is
            // exactly the time since its run started
            ({
                let g0 = *old(self);
                let g1 = *final(self);
                forall|j: int|
                    0 <= j < g0.heros_seq().len() && (#[trigger] g0.heros_seq()[j]).state
                        is InMaze && g1.heros_seq()[j].state is Dead ==> g1.heros_seq()[j].state
                        == (HeroState::Dead {
                        duration: (if now_ms >= g0.heros_seq()[j].state->InMaze_instant {
                            (now_ms - g0.heros_seq()[j].state->InMaze_instant) as u64
                        } else {
                            0u64
                        }),
                        instant: now_ms,
                    })
            }),
            // collision resolution is complete: after the tick, no hero
            // still in a maze shares a cell with a pursuer of that maze
            ({
                let g0 = *old(self);
                let g1 = *final(self);
                forall|j: int, t: int|
                    0 <= j < g0.heros_seq().len() && 0 <= t < g0.minotaurs_seq().len() && (
                    #[trigger] g1.heros_seq()[j]).maze_id_spec() == (
                    #[trigger] g1.minotaurs_seq()[t]).maze_id_spec()
                        && g1.heros_seq()[j].position_spec()
                        == g1.minotaurs_seq()[t].position_spec() ==> !(g1.heros_seq()[j].state
                        is InMaze)
            }),
            // a pursuer alone on its cell scores exactly the heroes that
            // entered the tick alive and stand caught there
            ({
                let g0 = *old(self);
                let g1 = *final(self);
                forall|t: int|
                    0 <= t < g0.minotaurs_seq().len() && (forall|t2: int|
                        0 <= t2 < g0.minotaurs_seq().len() && t2 != t ==> !((
                        #[trigger] g1.minotaurs_seq()[t2]).maze_id_spec()
                            == g1.minotaurs_seq()[t].maze_id_spec()
                            && g1.minotaurs_seq()[t2].position_spec()
                            == g1.minotaurs_seq()[t].position_spec())) ==> (
                    #[trigger] g1.minotaurs_seq()[t]).kills == ({
                        let c = caught_by(
                            g0.heros_seq(),
                            g1.heros_seq(),
                            now_ms,
                            g1.minotaurs_seq()[t].maze_id_spec(),
                            g1.minotaurs_seq()[t].position_spec(),
                        );
                        if g0.minotaurs_seq()[t].kills + c < 999999999 {
                            g0.minotaurs_seq()[t].kills + c
                        } else {
                            999999999int
                        }
                    })
            }),
    {
        let ghost g0 = *old(self);
        // Phase 1: respawns.
        let n = self.heros.len();
        let mut i: usize = 0;
        while i < n
            invariant
                self.wf_core(),
                n == g0.heros_seq().len(),
                i <= n,
                self.same_mazes(g0),
                self.heros_seq().len() == n,
                self.minotaurs_seq() == g0.minotaurs_seq(),
                self.records_seq() == g0.records_seq(),
                self.top_heros_seq() == g0.top_heros_seq(),
                self.top_minotaurs_seq() == g0.top_minotaurs_seq(),
                forall|j: int|
                    0 <= j < n && !Game::respawn_due((#[trigger] g0.heros_seq()[j]).state, now_ms)
                        ==> self.heros_seq()[j] == g0.heros_seq()[j],
                forall|j: int| i <= j < n ==> (#[trigger] self.heros_seq()[j]) == g0.heros_seq()[j],
                forall|j: int|
                    0 <= j < i && Game::respawn_due((#[trigger] g0.heros_seq()[j]).state, now_ms)
                        ==> {
                        let h1 = self.heros_seq()[j];
                        let ent = g0.mazes_seq()[0].entrance_seq();
                        &&& h1.id_spec() == g0.heros_seq()[j].id_spec()
                        &&& h1.state == HeroState::WaitingToStart
                        &&& h1.maze_id_spec() == 0
                        &&& h1.vision_spec() == 1
                        &&& h1.speed_spec() == 4
                        &&& h1.memory_spec() == 0
                        &&& (exists|i2: int|
                            0 <= i2 < 2 && h1.position_spec().0 == (#[trigger] ent[i2]).0 + 1
                                && h1.position_spec().1 == ent[i2].1)
                        &&& h1.collected_spec().len() == 0
                        &&& h1.past_visible_spec().len() == 1
                        &&& Game::room_has(self.hero_room_spec(0), h1.id_spec())
                    },
                forall|j: int|
                    0 <= j < n ==> (#[trigger] self.heros_seq()[j]).id_spec()
                        == g0.heros_seq()[j].id_spec(),
            decreases n - i,
        {
            let st = self.heros[i].state;
            let due = match st {
                HeroState::Dead { instant, .. } => (if now_ms >= instant {
                    now_ms - instant
                } else {
                    0
                }) > RESPAWN_INTERVAL_MS,
                HeroState::Victory { instant, .. } => (if now_ms >= instant {
                    now_ms - instant
                } else {
                    0
                }) > RESPAWN_INTERVAL_MS,
                _ => false,
            };
            if due {
                proof {
                    assert(self.heros_seq()[i as int] == g0.heros_seq()[i as int]);
                    assert(Game::respawn_due(g0.heros_seq()[i as int].state, now_ms));
                }
                let ghost rooms_pre = *self;
                let hid = self.heros[i].id();
                let mid = self.heros[i].maze_id();
                let filtered = Game::without_id(&self.hero_rooms[mid], hid);
                self.hero_rooms[mid] = filtered;
                self.hero_rooms[0].push(hid);
                proof {
                    assert(Game::room_has(self.hero_room_spec(0), hid)) by {
                        let r0 = self.hero_room_spec(0);
                        assert(r0[r0.len() - 1] == hid);
                    }
                    assert forall|j: int|
                        0 <= j < i && Game::respawn_due(
                            (#[trigger] g0.heros_seq()[j]).state,
                            now_ms,
                        ) implies Game::room_has(
                        self.hero_room_spec(0),
                        g0.heros_seq()[j].id_spec(),
                    ) by {
                        let idj = g0.heros_seq()[j].id_spec();
                        assert(Game::room_has(rooms_pre.hero_room_spec(0), idj));
                        assert(idj != hid) by {
                            assert(self.heros_seq()[j].id_spec() == idj);
                            assert(self.heros_seq()[i as int].id_spec() == hid);
                        }
                        let before_push = if mid == 0 {
                            filtered@
                        } else {
                            rooms_pre.hero_room_spec(0)
                        };
                        if mid == 0 {
                            let k = choose|k: int|
                                0 <= k < rooms_pre.hero_room_spec(0).len()
                                    && rooms_pre.hero_room_spec(0)[k] == idj;
                            assert(Game::room_has(filtered@, idj));
                        }
                        assert(Game::room_has(before_push, idj));
                        Game::lemma_room_push_keeps(before_push, idj, hid);
                        assert(self.hero_room_spec(0) == before_push.push(hid));
                    }
                }
                proof {
                    self.mazes_seq()[0].lemma_maze_facts();
                }
                let start = self.mazes[0].hero_starting_position();
                proof {
                    assert(self.mazes_seq()[0].entrance_seq() == g0.mazes_seq()[0].entrance_seq());
                }
                let ghost gpre = *self;
                {
                    let hm = &mut self.heros[i];
                    hm.reset(start, now_ms);
                }
                proof {
                    Game::lemma_hero_update_core(gpre, *self, i as int);
                }
                self.refresh_hero_visibility(i, now_ms);
                proof {
                    assert(self.heros_seq()[i as int].past_visible_spec().len() == 1);
                    assert(self.heros_seq()[i as int].collected_spec().len() == 0);
                }
            }
            i += 1;
        }

        // Phase 2: pursuers.
        let ghost gp = *self;
        let tn = self.minotaurs.len();
        let ghost mut snaps: Seq<Seq<Hero>> = Seq::empty();
        let ghost mut procd: Seq<Minotaur> = Seq::empty();
        let mut t: usize = 0;
        while t < tn
            invariant
                self.wf_core(),
                snaps.len() == t,
                procd.len() == t,
                forall|t2: int| 0 <= t2 < t ==> (#[trigger] self.minotaurs_seq()[t2]) == procd[t2],
                forall|t2: int| 0 <= t2 < t ==> (#[trigger] snaps[t2]).len() == n,
                forall|t2: int|
                    0 <= t2 < t ==> (#[trigger] procd[t2]).kills == ({
                        let c = caught_now(
                            snaps[t2],
                            procd[t2].maze_id_spec(),
                            procd[t2].position_spec(),
                        );
                        if gp.minotaurs_seq()[t2].kills + c < 999999999 {
                            gp.minotaurs_seq()[t2].kills + c
                        } else {
                            999999999int
                        }
                    }),
                forall|t2: int, j: int|
                    0 <= t2 < t && 0 <= j < n ==> (#[trigger] snaps[t2][j]).maze_id_spec()
                        == self.heros_seq()[j].maze_id_spec() && snaps[t2][j].position_spec()
                        == self.heros_seq()[j].position_spec(),
                forall|t2: int, j: int|
                    0 <= t2 < t && 0 <= j < n && !((#[trigger] snaps[t2][j]).state is Dead) ==> !(
                    gp.heros_seq()[j].state is Dead),
                forall|t2: int, j: int|
                    0 <= t2 < t && 0 <= j < n && (#[trigger] snaps[t2][j]).state is Dead && !(
                    gp.heros_seq()[j].state is Dead) ==> exists|t3: int|
                        0 <= t3 < t2 && (#[trigger] procd[t3]).maze_id_spec()
                            == snaps[t2][j].maze_id_spec() && procd[t3].position_spec()
                            == snaps[t2][j].position_spec(),
                forall|j: int|
                    0 <= j < n && (#[trigger] self.heros_seq()[j]).state is Dead && !(
                    gp.heros_seq()[j].state is Dead) ==> exists|t3: int|
                        0 <= t3 < t && (#[trigger] self.minotaurs_seq()[t3]).maze_id_spec()
                            == self.heros_seq()[j].maze_id_spec()
                            && self.minotaurs_seq()[t3].position_spec()
                            == self.heros_seq()[j].position_spec(),
                tn == gp.minotaurs_seq().len(),
                t <= tn,
                self.same_mazes(gp),
                gp.same_mazes(g0),
                self.heros_seq().len() == gp.heros_seq().len() == n == g0.heros_seq().len(),
                self.minotaurs_seq().len() == tn,
                self.records_seq() == gp.records_seq(),
                self.top_heros_seq() == gp.top_heros_seq(),
                self.top_minotaurs_seq() == gp.top_minotaurs_seq(),
                forall|j: int|
                    0 <= j < n ==> {
                        let hp = #[trigger] gp.heros_seq()[j];
                        let hc = self.heros_seq()[j];
                        &&& hc.id_spec() == hp.id_spec()
                        &&& hc.maze_id_spec() == hp.maze_id_spec()
                        &&& hc.position_spec() == hp.position_spec()
                        &&& hc.vision_spec() == hp.vision_spec()
                        &&& hc.speed_spec() == hp.speed_spec()
                        &&& hc.memory_spec() == hp.memory_spec()
                        &&& hc.collected_spec() == hp.collected_spec()
                        &&& hc.past_visible_spec() == hp.past_visible_spec()
                        &&& (hc.state == hp.state || (hp.state is InMaze && hc.state == (
                        HeroState::Dead {
                            duration: (if now_ms >= hp.state->InMaze_instant {
                                (now_ms - hp.state->InMaze_instant) as u64
                            } else {
                                0u64
                            }),
                            instant: now_ms,
                        })))
                    },
                forall|m: int|
                    0 <= m < self.mazes_seq().len() ==> #[trigger] self.hero_room_spec(m)
                        == gp.hero_room_spec(m),
                forall|t2: int|
                    0 <= t2 < tn ==> (#[trigger] self.minotaurs_seq()[t2]).id_spec()
                        == gp.minotaurs_seq()[t2].id_spec() && self.minotaurs_seq()[t2].maze_id_spec()
                        == gp.minotaurs_seq()[t2].maze_id_spec()
                        && self.minotaurs_seq()[t2].kills >= gp.minotaurs_seq()[t2].kills,
                forall|t2: int| t <= t2 < tn ==> (#[trigger] self.minotaurs_seq()[t2])
                    == gp.minotaurs_seq()[t2],
                forall|j: int, t2: int|
                    0 <= j < n && 0 <= t2 < t && (#[trigger] self.heros_seq()[j]).maze_id_spec()
                        == (#[trigger] self.minotaurs_seq()[t2]).maze_id_spec()
                        && self.heros_seq()[j].position_spec()
                        == self.minotaurs_seq()[t2].position_spec() ==> !(self.heros_seq()[j].state
                        is InMaze),
            decreases tn - t,
        {
            let (Ghost(snaps2), Ghost(procd2)) = self.pursuer_step(
                t,
                n,
                tn,
                now_ms,
                Ghost(g0),
                Ghost(gp),
                Ghost(snaps),
                Ghost(procd),
            );
            proof {
                snaps = snaps2;
                procd = procd2;
            }
            t += 1;
        }
        let ghost gtail = *self;
        self.update_top_minotaurs();
        proof {
            assert(hero_views(self.top_heros_seq()) == hero_views(self.records_seq()));
            assert(self.mazes_seq()[0].same_geometry(g0.mazes_seq()[0]));
            assert(self.mazes_seq()[0].entrance_seq() == g0.mazes_seq()[0].entrance_seq());
            assert forall|m: int|
                0 <= m < self.mazes_seq().len() implies #[trigger] self.hero_room_spec(m)
                == gp.hero_room_spec(m) by {
                assert(self.hero_rooms == gtail.hero_rooms);
                assert(gtail.hero_room_spec(m) == gp.hero_room_spec(m));
            }
            assert forall|j: int|
                0 <= j < g0.heros_seq().len() && Game::respawn_due(
                    (#[trigger] g0.heros_seq()[j]).state,
                    now_ms,
                ) implies Game::room_has(
                self.hero_room_spec(0),
                self.heros_seq()[j].id_spec(),
            ) by {
                assert(Game::room_has(gp.hero_room_spec(0), gp.heros_seq()[j].id_spec()));
                assert(self.heros_seq()[j].id_spec() == gp.heros_seq()[j].id_spec());
            }
            assert forall|t: int|
                0 <= t < g0.minotaurs_seq().len() && (forall|t2: int|
                    0 <= t2 < g0.minotaurs_seq().len() && t2 != t ==> !((
                    #[trigger] self.minotaurs_seq()[t2]).maze_id_spec()
                        == self.minotaurs_seq()[t].maze_id_spec()
                        && self.minotaurs_seq()[t2].position_spec()
                        == self.minotaurs_seq()[t].position_spec())) implies (
            #[trigger] self.minotaurs_seq()[t]).kills == ({
                let c = caught_by(
                    g0.heros_seq(),
                    self.heros_seq(),
                    now_ms,
                    self.minotaurs_seq()[t].maze_id_spec(),
                    self.minotaurs_seq()[t].position_spec(),
                );
                if g0.minotaurs_seq()[t].kills + c < 999999999 {
                    g0.minotaurs_seq()[t].kills + c
                } else {
                    999999999int
                }
            }) by {
                let maze_id = self.minotaurs_seq()[t].maze_id_spec();
                let pos = self.minotaurs_seq()[t].position_spec();
                assert(self.minotaurs_seq()[t] == gtail.minotaurs_seq()[t]);
                assert(gtail.minotaurs_seq()[t] == procd[t]);
                assert forall|j: int|
                    0 <= j < n implies ((((#[trigger] snaps[t][j]).maze_id_spec() == maze_id
                    && snaps[t][j].position_spec() == pos && !(snaps[t][j].state is Dead)) <==> ((
                #[trigger] self.heros_seq()[j]).maze_id_spec() == maze_id
                    && self.heros_seq()[j].position_spec() == pos && !(g0.heros_seq()[j].state
                    is Dead && !Game::respawn_due(g0.heros_seq()[j].state, now_ms))))) by {
                    assert(self.heros_seq()[j] == gtail.heros_seq()[j]);
                    assert(snaps[t][j].maze_id_spec() == gtail.heros_seq()[j].maze_id_spec());
                    assert(snaps[t][j].position_spec() == gtail.heros_seq()[j].position_spec());
                    let gp_alive = !(gp.heros_seq()[j].state is Dead);
                    assert(gp_alive == !(g0.heros_seq()[j].state is Dead && !Game::respawn_due(
                        g0.heros_seq()[j].state,
                        now_ms,
                    ))) by {
                        if Game::respawn_due(g0.heros_seq()[j].state, now_ms) {
                            assert(gp.heros_seq()[j].state == HeroState::WaitingToStart);
                        } else {
                            assert(gp.heros_seq()[j] == g0.heros_seq()[j]);
                        }
                    }
                    if snaps[t][j].maze_id_spec() == maze_id && snaps[t][j].position_spec()
                        == pos {
                        if snaps[t][j].state is Dead && gp_alive {
                            let t3 = choose|t3: int|
                                0 <= t3 < t && (#[trigger] procd[t3]).maze_id_spec()
                                    == snaps[t][j].maze_id_spec() && procd[t3].position_spec()
                                    == snaps[t][j].position_spec();
                            assert(self.minotaurs_seq()[t3] == gtail.minotaurs_seq()[t3]);
                            assert(gtail.minotaurs_seq()[t3] == procd[t3]);
                            assert(false);
                        }
                    }
                }
                lemma_caught_counts_eq(
                    snaps[t],
                    g0.heros_seq(),
                    self.heros_seq(),
                    now_ms,
                    maze_id,
                    pos,
                );
                assert(gp.minotaurs_seq()[t].kills == g0.minotaurs_seq()[t].kills);
            }
        }
    }

    /// One pursuer's tick step: perception, chase targeting, movement,
    /// collision resolution and kill accounting. The ghost snapshots record
    /// the hero states each catch count was taken over.
    #[verifier::loop_isolation(false)]
    #[verifier::rlimit(100)]
    fn pursuer_step(
        &mut self,
        t: usize,
        n: usize,
        tn: usize,
        now_ms: u64,
        Ghost(g0): Ghost<Game>,
        Ghost(gp): Ghost<Game>,
        Ghost(snaps_in): Ghost<Seq<Seq<Hero>>>,
        Ghost(procd_in): Ghost<Seq<Minotaur>>,
    ) -> (out: (Ghost<Seq<Seq<Hero>>>, Ghost<Seq<Minotaur>>))
        requires
            t < tn,
                old(self).wf_core(),
                snaps_in.len() == t,
                procd_in.len() == t,
                forall|t2: int| 0 <= t2 < t ==> (#[trigger] old(self).minotaurs_seq()[t2]) == procd_in[t2],
                forall|t2: int| 0 <= t2 < t ==> (#[trigger] snaps_in[t2]).len() == n,
                forall|t2: int|
                    0 <= t2 < t ==> (#[trigger] procd_in[t2]).kills == ({
                        let c = caught_now(
                            snaps_in[t2],
                            procd_in[t2].maze_id_spec(),
                            procd_in[t2].position_spec(),
                        );
                        if gp.minotaurs_seq()[t2].kills + c < 999999999 {
                            gp.minotaurs_seq()[t2].kills + c
                        } else {
                            999999999int
                        }
                    }),
                forall|t2: int, j: int|
                    0 <= t2 < t && 0 <= j < n ==> (#[trigger] snaps_in[t2][j]).maze_id_spec()
                        == old(self).heros_seq()[j].maze_id_spec() && snaps_in[t2][j].position_spec()
                        == old(self).heros_seq()[j].position_spec(),
                forall|t2: int, j: int|
                    0 <= t2 < t && 0 <= j < n && !((#[trigger] snaps_in[t2][j]).state is Dead) ==> !(
                    gp.heros_seq()[j].state is Dead),
                forall|t2: int, j: int|
                    0 <= t2 < t && 0 <= j < n && (#[trigger] snaps_in[t2][j]).state is Dead && !(
                    gp.heros_seq()[j].state is Dead) ==> exists|t3: int|
                        0 <= t3 < t2 && (#[trigger] procd_in[t3]).maze_id_spec()
                            == snaps_in[t2][j].maze_id_spec() && procd_in[t3].position_spec()
                            == snaps_in[t2][j].position_spec(),
                forall|j: int|
                    0 <= j < n && (#[trigger] old(self).heros_seq()[j]).state is Dead && !(
                    gp.heros_seq()[j].state is Dead) ==> exists|t3: int|
                        0 <= t3 < t && (#[trigger] old(self).minotaurs_seq()[t3]).maze_id_spec()
                            == old(self).heros_seq()[j].maze_id_spec()
                            && old(self).minotaurs_seq()[t3].position_spec()
                            == old(self).heros_seq()[j].position_spec(),
                tn == gp.minotaurs_seq().len(),
                t <= tn,
                old(self).same_mazes(gp),
                gp.same_mazes(g0),
                old(self).heros_seq().len() == gp.heros_seq().len() == n == g0.heros_seq().len(),
                old(self).minotaurs_seq().len() == tn,
                old(self).records_seq() == gp.records_seq(),
                old(self).top_heros_seq() == gp.top_heros_seq(),
                old(self).top_minotaurs_seq() == gp.top_minotaurs_seq(),
                forall|j: int|
                    0 <= j < n ==> {
                        let hp = #[trigger] gp.heros_seq()[j];
                        let hc = old(self).heros_seq()[j];
                        &&& hc.id_spec() == hp.id_spec()
                        &&& hc.maze_id_spec() == hp.maze_id_spec()
                        &&& hc.position_spec() == hp.position_spec()
                        &&& hc.vision_spec() == hp.vision_spec()
                        &&& hc.speed_spec() == hp.speed_spec()
                        &&& hc.memory_spec() == hp.memory_spec()
                        &&& hc.collected_spec() == hp.collected_spec()
                        &&& hc.past_visible_spec() == hp.past_visible_spec()
                        &&& (hc.state == hp.state || (hp.state is InMaze && hc.state == (
                        HeroState::Dead {
                            duration: (if now_ms >= hp.state->InMaze_instant {
                                (now_ms - hp.state->InMaze_instant) as u64
                            } else {
                                0u64
                            }),
                            instant: now_ms,
                        })))
                    },
                forall|m: int|
                    0 <= m < old(self).mazes_seq().len() ==> #[trigger] old(self).hero_room_spec(m)
                        == gp.hero_room_spec(m),
                forall|t2: int|
                    0 <= t2 < tn ==> (#[trigger] old(self).minotaurs_seq()[t2]).id_spec()
                        == gp.minotaurs_seq()[t2].id_spec() && old(self).minotaurs_seq()[t2].maze_id_spec()
                        == gp.minotaurs_seq()[t2].maze_id_spec()
                        && old(self).minotaurs_seq()[t2].kills >= gp.minotaurs_seq()[t2].kills,
                forall|t2: int| t <= t2 < tn ==> (#[trigger] old(self).minotaurs_seq()[t2])
                    == gp.minotaurs_seq()[t2],
                forall|j: int, t2: int|
                    0 <= j < n && 0 <= t2 < t && (#[trigger] old(self).heros_seq()[j]).maze_id_spec()
                        == (#[trigger] old(self).minotaurs_seq()[t2]).maze_id_spec()
                        && old(self).heros_seq()[j].position_spec()
                        == old(self).minotaurs_seq()[t2].position_spec() ==> !(old(self).heros_seq()[j].state
                        is InMaze),
        ensures
                final(self).wf_core(),
                out.0@.len() == t + 1,
                out.1@.len() == t + 1,
                forall|t2: int| 0 <= t2 < t + 1 ==> (#[trigger] final(self).minotaurs_seq()[t2]) == out.1@[t2],
                forall|t2: int| 0 <= t2 < t + 1 ==> (#[trigger] out.0@[t2]).len() == n,
                forall|t2: int|
                    0 <= t2 < t + 1 ==> (#[trigger] out.1@[t2]).kills == ({
                        let c = caught_now(
                            out.0@[t2],
                            out.1@[t2].maze_id_spec(),
                            out.1@[t2].position_spec(),
                        );
                        if gp.minotaurs_seq()[t2].kills + c < 999999999 {
                            gp.minotaurs_seq()[t2].kills + c
                        } else {
                            999999999int
                        }
                    }),
                forall|t2: int, j: int|
                    0 <= t2 < t + 1 && 0 <= j < n ==> (#[trigger] out.0@[t2][j]).maze_id_spec()
                        == final(self).heros_seq()[j].maze_id_spec() && out.0@[t2][j].position_spec()
                        == final(self).heros_seq()[j].position_spec(),
                forall|t2: int, j: int|
                    0 <= t2 < t + 1 && 0 <= j < n && !((#[trigger] out.0@[t2][j]).state is Dead) ==> !(
                    gp.heros_seq()[j].state is Dead),
                forall|t2: int, j: int|
                    0 <= t2 < t + 1 && 0 <= j < n && (#[trigger] out.0@[t2][j]).state is Dead && !(
                    gp.heros_seq()[j].state is Dead) ==> exists|t3: int|
                        0 <= t3 < t2 && (#[trigger] out.1@[t3]).maze_id_spec()
                            == out.0@[t2][j].maze_id_spec() && out.1@[t3].position_spec()
                            == out.0@[t2][j].position_spec(),
                forall|j: int|
                    0 <= j < n && (#[trigger] final(self).heros_seq()[j]).state is Dead && !(
                    gp.heros_seq()[j].state is Dead) ==> exists|t3: int|
                        0 <= t3 < t + 1 && (#[trigger] final(self).minotaurs_seq()[t3]).maze_id_spec()
                            == final(self).heros_seq()[j].maze_id_spec()
                            && final(self).minotaurs_seq()[t3].position_spec()
                            == final(self).heros_seq()[j].position_spec(),
                tn == gp.minotaurs_seq().len(),
                t + 1 <= tn,
                final(self).same_mazes(gp),
                gp.same_mazes(g0),
                final(self).heros_seq().len() == gp.heros_seq().len() == n == g0.heros_seq().len(),
                final(self).minotaurs_seq().len() == tn,
                final(self).records_seq() == gp.records_seq(),
                final(self).top_heros_seq() == gp.top_heros_seq(),
                final(self).top_minotaurs_seq() == gp.top_minotaurs_seq(),
                forall|j: int|
                    0 <= j < n ==> {
                        let hp = #[trigger] gp.heros_seq()[j];
                        let hc = final(self).heros_seq()[j];
                        &&& hc.id_spec() == hp.id_spec()
                        &&& hc.maze_id_spec() == hp.maze_id_spec()
                        &&& hc.position_spec() == hp.position_spec()
                        &&& hc.vision_spec() == hp.vision_spec()
                        &&& hc.speed_spec() == hp.speed_spec()
                        &&& hc.memory_spec() == hp.memory_spec()
                        &&& hc.collected_spec() == hp.collected_spec()
                        &&& hc.past_visible_spec() == hp.past_visible_spec()
                        &&& (hc.state == hp.state || (hp.state is InMaze && hc.state == (
                        HeroState::Dead {
                            duration: (if now_ms >= hp.state->InMaze_instant {
                                (now_ms - hp.state->InMaze_instant) as u64
                            } else {
                                0u64
                            }),
                            instant: now_ms,
                        })))
                    },
                forall|m: int|
                    0 <= m < final(self).mazes_seq().len() ==> #[trigger] final(self).hero_room_spec(m)
                        == gp.hero_room_spec(m),
                forall|t2: int|
                    0 <= t2 < tn ==> (#[trigger] final(self).minotaurs_seq()[t2]).id_spec()
                        == gp.minotaurs_seq()[t2].id_spec() && final(self).minotaurs_seq()[t2].maze_id_spec()
                        == gp.minotaurs_seq()[t2].maze_id_spec()
                        && final(self).minotaurs_seq()[t2].kills >= gp.minotaurs_seq()[t2].kills,
                forall|t2: int| t + 1 <= t2 < tn ==> (#[trigger] final(self).minotaurs_seq()[t2])
                    == gp.minotaurs_seq()[t2],
                forall|j: int, t2: int|
                    0 <= j < n && 0 <= t2 < t + 1 && (#[trigger] final(self).heros_seq()[j]).maze_id_spec()
                        == (#[trigger] final(self).minotaurs_seq()[t2]).maze_id_spec()
                        && final(self).heros_seq()[j].position_spec()
                        == final(self).minotaurs_seq()[t2].position_spec() ==> !(final(self).heros_seq()[j].state
                        is InMaze),
    {
        let ghost mut snaps_out: Seq<Seq<Hero>> = snaps_in;
        let ghost mut procd_out: Seq<Minotaur> = procd_in;
            let mid = self.minotaurs[t].maze_id();
            let mpos = self.minotaurs[t].position();
            let mdir = self.minotaurs[t].direction();
            let mvw = self.minotaurs[t].view();
            proof {
                assert(self.minotaur_ok(self.minotaurs_seq()[t as int]));
                self.mazes_seq()[mid as int].lemma_maze_facts();
            }
            let ghost gm0 = *self;
            let visible = {
                let mz = &mut self.mazes[mid];
                mz.get_and_cache_visible_positions(mpos, mdir, mvw)
            };
            proof {
                assert forall|m2: int|
                    0 <= m2 < self.mazes_seq().len() implies (#[trigger] self.mazes_seq()[m2]).wf()
                    && self.mazes_seq()[m2].id_spec() == m2 && self.mazes_seq()[m2].same_geometry(
                    gm0.mazes_seq()[m2],
                ) && self.mazes_seq()[m2].px_width_spec() == gm0.mazes_seq()[m2].px_width_spec()
                    && self.mazes_seq()[m2].px_height_spec()
                    == gm0.mazes_seq()[m2].px_height_spec() by {
                    if m2 != mid {
                        assert(self.mazes_seq()[m2] == gm0.mazes_seq()[m2]);
                    }
                }
                Game::lemma_core_transfer_relaxed(gm0, *self);
            }

            // same-maze, alive, currently visible heroes
            let mut vh: Vec<&Hero> = Vec::new();
            let mut j: usize = 0;
            while j < n
                invariant
                    self.wf_core(),
                    n == self.heros_seq().len(),
                    j <= n,
                    mid < self.mazes_seq().len(),
                    visible.wf(),
                    forall|k: int|
                        0 <= k < vh@.len() ==> exists|jk: int|
                            0 <= jk < j && (#[trigger] vh@[k]) == self.heros_seq()[jk],
                    forall|k: int|
                        0 <= k < vh@.len() ==> (#[trigger] vh@[k]).position_spec().0 < 30000 && (
                        vh@[k]).position_spec().1 < 30000,
                    forall|k1: int, k2: int|
                        0 <= k1 < k2 < vh@.len() ==> (#[trigger] vh@[k1]).id_spec() != (
                        #[trigger] vh@[k2]).id_spec(),
                decreases n - j,
            {
                let h = &self.heros[j];
                if !h.is_dead() && h.maze_id() == mid && visible.contains(
                    h.position().0,
                    h.position().1,
                ) {
                    proof {
                        assert(self.hero_ok(self.heros_seq()[j as int]));
                        self.mazes_seq()[self.heros_seq()[j as int].maze_id_spec() as int].lemma_maze_facts();
                        assert forall|k1: int|
                            0 <= k1 < vh@.len() implies (#[trigger] vh@[k1]).id_spec()
                            != self.heros_seq()[j as int].id_spec() by {
                            let jk = choose|jk: int|
                                0 <= jk < j && (#[trigger] vh@[k1]) == self.heros_seq()[jk];
                            assert(self.heros_seq()[jk].id_spec()
                                != self.heros_seq()[j as int].id_spec());
                        }
                    }
                    vh.push(h);
                    proof {
                        assert(vh@[vh@.len() - 1] == self.heros_seq()[j as int]);
                    }
                }
                j += 1;
            }

            let ghost gm1 = *self;
            {
                let tm = &mut self.minotaurs[t];
                tm.update(&self.mazes[mid], &vh, now_ms);
            }
            proof {
                assert forall|t2: int|
                    0 <= t2 < tn implies self.minotaur_ok(#[trigger] self.minotaurs_seq()[t2]) by {
                    if t2 != t {
                        assert(self.minotaurs_seq()[t2] == gm1.minotaurs_seq()[t2]);
                        assert(gm1.minotaur_ok(gm1.minotaurs_seq()[t2]));
                    } else {
                        let m0 = gm1.minotaurs_seq()[t2];
                        let m1 = self.minotaurs_seq()[t2];
                        assert(gm1.minotaur_ok(m0));
                        if m1.position_spec() != m0.position_spec() {
                            assert(self.mazes_seq()[mid as int].valid_set().contains(
                                pos_int(m1.position_spec()),
                            ));
                        }
                    }
                }
                assert forall|t2: int, u2: int|
                    0 <= t2 < u2 < tn implies (#[trigger] self.minotaurs_seq()[t2]).id_spec() != (
                #[trigger] self.minotaurs_seq()[u2]).id_spec() by {
                    assert(gm1.minotaurs_seq()[t2].id_spec() != gm1.minotaurs_seq()[u2].id_spec());
                }
            }

            // collisions at the pursuer's (possibly new) cell
            let mpos2 = self.minotaurs[t].position();
            proof {
                assert forall|j3: int|
                    0 <= j3 < n && (#[trigger] self.heros_seq()[j3]).state is Dead && !(
                    gp.heros_seq()[j3].state is Dead) implies exists|t3: int|
                    0 <= t3 < t + 1 && (#[trigger] self.minotaurs_seq()[t3]).maze_id_spec()
                        == self.heros_seq()[j3].maze_id_spec()
                        && self.minotaurs_seq()[t3].position_spec()
                        == self.heros_seq()[j3].position_spec() by {
                    assert(self.heros_seq()[j3] == gm0.heros_seq()[j3]);
                    let t3 = choose|t3: int|
                        0 <= t3 < t && (#[trigger] gm0.minotaurs_seq()[t3]).maze_id_spec()
                            == gm0.heros_seq()[j3].maze_id_spec()
                            && gm0.minotaurs_seq()[t3].position_spec()
                            == gm0.heros_seq()[j3].position_spec();
                    assert(self.minotaurs_seq()[t3] == gm0.minotaurs_seq()[t3]);
                }
            }
            let mut caught: usize = 0;
            let mut j2: usize = 0;
            while j2 < n
                invariant
                    self.wf_core(),
                    n == self.heros_seq().len(),
                    j2 <= n,
                    caught <= j2,
                    caught == caught_now(gm1.heros_seq().take(j2 as int), mid, mpos2),
                    forall|j3: int|
                        j2 <= j3 < n ==> (#[trigger] self.heros_seq()[j3])
                            == gm1.heros_seq()[j3],
                    forall|j3: int|
                        0 <= j3 < n && (#[trigger] self.heros_seq()[j3]).state is Dead && !(
                        gp.heros_seq()[j3].state is Dead) ==> exists|t3: int|
                            0 <= t3 < t + 1 && (
                            #[trigger] self.minotaurs_seq()[t3]).maze_id_spec()
                                == self.heros_seq()[j3].maze_id_spec()
                                && self.minotaurs_seq()[t3].position_spec()
                                == self.heros_seq()[j3].position_spec(),
                    t < tn == self.minotaurs_seq().len(),
                    mpos2 == self.minotaurs_seq()[t as int].position_spec(),
                    mid == self.minotaurs_seq()[t as int].maze_id_spec(),
                    self.minotaurs_seq()[t as int].id_spec() == gm1.minotaurs_seq()[t as int].id_spec(),
                    self.minotaurs_seq()[t as int].kills == gm1.minotaurs_seq()[t as int].kills,
                    self.minotaurs_seq() == gm1.minotaurs_seq().update(
                        t as int,
                        self.minotaurs_seq()[t as int],
                    ),
                    self.records_seq() == gm1.records_seq(),
                    self.top_heros_seq() == gm1.top_heros_seq(),
                    self.top_minotaurs_seq() == gm1.top_minotaurs_seq(),
                    self.mazes_seq() == gm1.mazes_seq(),
                    forall|j3: int|
                        0 <= j3 < n ==> {
                            let hp = #[trigger] gm1.heros_seq()[j3];
                            let hc = self.heros_seq()[j3];
                            &&& hc.id_spec() == hp.id_spec()
                            &&& hc.maze_id_spec() == hp.maze_id_spec()
                            &&& hc.position_spec() == hp.position_spec()
                            &&& hc.vision_spec() == hp.vision_spec()
                            &&& hc.speed_spec() == hp.speed_spec()
                            &&& hc.memory_spec() == hp.memory_spec()
                            &&& hc.collected_spec() == hp.collected_spec()
                            &&& hc.past_visible_spec() == hp.past_visible_spec()
                            &&& (hc.state == hp.state || (hp.state is InMaze && hc.state == (
                            HeroState::Dead {
                                duration: (if now_ms >= hp.state->InMaze_instant {
                                    (now_ms - hp.state->InMaze_instant) as u64
                                } else {
                                    0u64
                                }),
                                instant: now_ms,
                            })))
                        },
                    forall|m: int|
                        0 <= m < self.mazes_seq().len() ==> #[trigger] self.hero_room_spec(m)
                            == gm1.hero_room_spec(m),
                    forall|j3: int|
                        0 <= j3 < j2 && (#[trigger] self.heros_seq()[j3]).maze_id_spec() == mid
                            && self.heros_seq()[j3].position_spec() == mpos2 ==> !(
                        self.heros_seq()[j3].state is InMaze),
                decreases n - j2,
            {
                let h = &self.heros[j2];
                let hmaze = h.maze_id();
                let hpos = h.position();
                let hdead = h.is_dead();
                let hstate = h.state;
                proof {
                    assert(self.heros_seq()[j2 as int] == gm1.heros_seq()[j2 as int]);
                }
                if hmaze == mid && hpos.0 == mpos2.0 && hpos.1 == mpos2.1 && !hdead {
                    match hstate {
                        HeroState::InMaze { instant } => {
                            let dur = if now_ms >= instant {
                                now_ms - instant
                            } else {
                                0
                            };
                            self.hero_set_state(
                                j2,
                                HeroState::Dead { duration: dur, instant: now_ms },
                            );
                        },
                        _ => {},
                    }
                    proof {
                        assert(caught < n);
                    }
                    caught += 1;
                }
                proof {
                    assert(gm1.heros_seq().take(j2 + 1).drop_last() =~= gm1.heros_seq().take(
                        j2 as int,
                    ));
                    assert(gm1.heros_seq().take(j2 + 1).last() == gm1.heros_seq()[j2 as int]);
                }
                j2 += 1;
            }

            // record the kills (far below any overflow)
            let ghost gm2 = *self;
            {
                let tm = &mut self.minotaurs[t];
                let room = 999999999 - tm.kills;
                if caught < room {
                    tm.kills = tm.kills + caught;
                } else {
                    tm.kills = 999999999;
                }
            }
            proof {
                assert forall|t2: int|
                    0 <= t2 < tn implies self.minotaur_ok(#[trigger] self.minotaurs_seq()[t2]) by {
                    if t2 != t {
                        assert(self.minotaurs_seq()[t2] == gm2.minotaurs_seq()[t2]);
                    }
                    assert(gm2.minotaur_ok(gm2.minotaurs_seq()[t2]));
                }
                assert forall|t2: int, u2: int|
                    0 <= t2 < u2 < tn implies (#[trigger] self.minotaurs_seq()[t2]).id_spec() != (
                #[trigger] self.minotaurs_seq()[u2]).id_spec() by {
                    assert(gm2.minotaurs_seq()[t2].id_spec() != gm2.minotaurs_seq()[u2].id_spec());
                }
                // previously processed pursuers are untouched, so their
                // resolved collisions stand
                assert forall|j3: int, t2: int|
                    0 <= j3 < n && 0 <= t2 < t + 1 && (
                #[trigger] self.heros_seq()[j3]).maze_id_spec() == (
                #[trigger] self.minotaurs_seq()[t2]).maze_id_spec()
                    && self.heros_seq()[j3].position_spec()
                    == self.minotaurs_seq()[t2].position_spec() implies !(
                self.heros_seq()[j3].state is InMaze) by {
                    if t2 < t {
                        assert(self.minotaurs_seq()[t2] == gm0.minotaurs_seq()[t2]);
                        if self.heros_seq()[j3].state is InMaze {
                            assert(gm0.heros_seq()[j3].state is InMaze);
                            assert(self.heros_seq()[j3].state == gm0.heros_seq()[j3].state);
                            assert(self.heros_seq()[j3].position_spec()
                                == gm0.heros_seq()[j3].position_spec());
                            assert(self.heros_seq()[j3].maze_id_spec()
                                == gm0.heros_seq()[j3].maze_id_spec());
                            assert(false);
                        }
                    }
                }
                assert forall|t2: int|
                    t + 1 <= t2 < tn implies (#[trigger] self.minotaurs_seq()[t2])
                    == gp.minotaurs_seq()[t2] by {
                    assert(self.minotaurs_seq()[t2] == gm0.minotaurs_seq()[t2]);
                }
                assert forall|m: int|
                    0 <= m < self.mazes_seq().len() implies #[trigger] self.hero_room_spec(m)
                    == gp.hero_room_spec(m) by {
                    assert(self.hero_rooms == gm2.hero_rooms);
                    assert(gm2.hero_room_spec(m) == gm1.hero_room_spec(m));
                    assert(gm1.hero_rooms == gm0.hero_rooms);
                    assert(gm0.hero_room_spec(m) == gp.hero_room_spec(m));
                }
                assert forall|t2: int|
                    0 <= t2 < tn implies (#[trigger] self.minotaurs_seq()[t2]).id_spec()
                    == gp.minotaurs_seq()[t2].id_spec() && self.minotaurs_seq()[t2].maze_id_spec()
                    == gp.minotaurs_seq()[t2].maze_id_spec() && self.minotaurs_seq()[t2].kills
                    >= gp.minotaurs_seq()[t2].kills by {
                    if t2 != t {
                        assert(self.minotaurs_seq()[t2] == gm0.minotaurs_seq()[t2]);
                        assert(gm0.minotaurs_seq()[t2].id_spec()
                            == gp.minotaurs_seq()[t2].id_spec());
                    } else {
                        assert(gm1.minotaurs_seq()[t2] == gm0.minotaurs_seq()[t2]);
                        assert(gm2.minotaurs_seq()[t2].id_spec()
                            == gm1.minotaurs_seq()[t2].id_spec());
                        assert(gm2.minotaurs_seq()[t2].maze_id_spec()
                            == gm1.minotaurs_seq()[t2].maze_id_spec());
                        assert(gm2.minotaurs_seq()[t2].kills == gm1.minotaurs_seq()[t2].kills);
                        assert(self.minotaurs_seq()[t2].id_spec()
                            == gm2.minotaurs_seq()[t2].id_spec());
                        assert(self.minotaurs_seq()[t2].maze_id_spec()
                            == gm2.minotaurs_seq()[t2].maze_id_spec());
                        assert(self.minotaurs_seq()[t2].kills >= gm2.minotaurs_seq()[t2].kills);
                        assert(gm0.minotaurs_seq()[t2].id_spec()
                            == gp.minotaurs_seq()[t2].id_spec());
                        assert(gm0.minotaurs_seq()[t2].kills >= gp.minotaurs_seq()[t2].kills);
                    }
                }
                // record the snapshot this pursuer's catch count was taken
                // over, and its settled value
                snaps_out = snaps_in.push(gm1.heros_seq());
                procd_out = procd_in.push(self.minotaurs_seq()[t as int]);
                assert forall|t2: int|
                    0 <= t2 < t + 1 implies (#[trigger] self.minotaurs_seq()[t2])
                    == procd_out[t2] by {
                    if t2 < t {
                        assert(self.minotaurs_seq()[t2] == gm0.minotaurs_seq()[t2]);
                        assert(gm0.minotaurs_seq()[t2] == procd_out[t2]);
                    }
                }
                assert(self.minotaurs_seq()[t as int].kills == ({
                    let c = caught_now(snaps_out[t as int], mid, mpos2);
                    if gp.minotaurs_seq()[t as int].kills + c < 999999999 {
                        gp.minotaurs_seq()[t as int].kills + c
                    } else {
                        999999999int
                    }
                })) by {
                    assert(gm1.heros_seq().take(n as int) =~= gm1.heros_seq());
                    assert(gm1.minotaurs_seq()[t as int] == gm0.minotaurs_seq()[t as int]);
                    assert(gm0.minotaurs_seq()[t as int] == gp.minotaurs_seq()[t as int]);
                    assert(gm2.minotaurs_seq()[t as int].kills
                        == gm1.minotaurs_seq()[t as int].kills);
                }
                assert forall|t2: int, j3: int|
                    0 <= t2 < t + 1 && 0 <= j3 < n implies (
                #[trigger] snaps_out[t2][j3]).maze_id_spec() == self.heros_seq()[j3].maze_id_spec()
                    && snaps_out[t2][j3].position_spec() == self.heros_seq()[j3].position_spec() by {
                    assert(self.heros_seq()[j3].maze_id_spec()
                        == gm1.heros_seq()[j3].maze_id_spec());
                    assert(self.heros_seq()[j3].position_spec()
                        == gm1.heros_seq()[j3].position_spec());
                    if t2 < t {
                        assert(gm0.heros_seq()[j3].maze_id_spec()
                            == gp.heros_seq()[j3].maze_id_spec());
                        assert(snaps_out[t2][j3].maze_id_spec()
                            == gm0.heros_seq()[j3].maze_id_spec());
                        assert(snaps_out[t2][j3].position_spec()
                            == gm0.heros_seq()[j3].position_spec());
                        assert(gm1.heros_seq()[j3].maze_id_spec()
                            == gm0.heros_seq()[j3].maze_id_spec());
                        assert(gm1.heros_seq()[j3].position_spec()
                            == gm0.heros_seq()[j3].position_spec());
                    }
                }
                assert forall|t2: int, j3: int|
                    0 <= t2 < t + 1 && 0 <= j3 < n && !((#[trigger] snaps_out[t2][j3]).state
                        is Dead) implies !(gp.heros_seq()[j3].state is Dead) by {
                    if t2 == t {
                        assert(snaps_out[t2][j3] == gm1.heros_seq()[j3]);
                        assert(gm1.heros_seq()[j3] == gm0.heros_seq()[j3]);
                        assert(gm0.heros_seq()[j3].state == gp.heros_seq()[j3].state || (
                        gp.heros_seq()[j3].state is InMaze && gm0.heros_seq()[j3].state is Dead));
                    }
                }
                assert forall|t2: int, j3: int|
                    0 <= t2 < t + 1 && 0 <= j3 < n && (#[trigger] snaps_out[t2][j3]).state is Dead
                        && !(gp.heros_seq()[j3].state is Dead) implies exists|t3: int|
                    0 <= t3 < t2 && (#[trigger] procd_out[t3]).maze_id_spec()
                        == snaps_out[t2][j3].maze_id_spec() && procd_out[t3].position_spec()
                        == snaps_out[t2][j3].position_spec() by {
                    if t2 == t {
                        assert(snaps_out[t2][j3] == gm1.heros_seq()[j3]);
                        assert(gm1.heros_seq()[j3] == old(self).heros_seq()[j3]);
                        assert(old(self).heros_seq()[j3].state is Dead);
                        let t3 = choose|t3: int|
                            0 <= t3 < t && (#[trigger] old(self).minotaurs_seq()[t3]).maze_id_spec()
                                == old(self).heros_seq()[j3].maze_id_spec()
                                && old(self).minotaurs_seq()[t3].position_spec()
                                == old(self).heros_seq()[j3].position_spec();
                        assert(procd_out[t3] == old(self).minotaurs_seq()[t3]);
                    } else {
                        assert(snaps_out[t2] == snaps_in[t2]);
                        let t3 = choose|t3: int|
                            0 <= t3 < t2 && (#[trigger] procd_in[t3]).maze_id_spec()
                                == snaps_in[t2][j3].maze_id_spec()
                                && procd_in[t3].position_spec()
                                == snaps_in[t2][j3].position_spec();
                        assert(procd_out[t3] == procd_in[t3]);
                    }
                }
                assert forall|j3: int|
                    0 <= j3 < n && (#[trigger] self.heros_seq()[j3]).state is Dead && !(
                    gp.heros_seq()[j3].state is Dead) implies exists|t3: int|
                    0 <= t3 < t + 1 && (#[trigger] self.minotaurs_seq()[t3]).maze_id_spec()
                        == self.heros_seq()[j3].maze_id_spec()
                        && self.minotaurs_seq()[t3].position_spec()
                        == self.heros_seq()[j3].position_spec() by {
                    let t3 = choose|t3: int|
                        0 <= t3 < t + 1 && (#[trigger] gm2.minotaurs_seq()[t3]).maze_id_spec()
                            == gm2.heros_seq()[j3].maze_id_spec()
                            && gm2.minotaurs_seq()[t3].position_spec()
                            == gm2.heros_seq()[j3].position_spec();
                    assert(self.heros_seq()[j3] == gm2.heros_seq()[j3]);
                    if t3 < t {
                        assert(self.minotaurs_seq()[t3] == gm2.minotaurs_seq()[t3]);
                    } else {
                        assert(self.minotaurs_seq()[t3].maze_id_spec()
                            == gm2.minotaurs_seq()[t3].maze_id_spec());
                        assert(self.minotaurs_seq()[t3].position_spec()
                            == gm2.minotaurs_seq()[t3].position_spec());
                    }
                }
            }
            (Ghost(snaps_out), Ghost(procd_out))
    }
}

} // verus!
