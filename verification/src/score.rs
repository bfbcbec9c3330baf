//! Competitive rankings: leaderboard entries and the sorting they share.
use vstd::prelude::*;
use vstd::view::View as _;
use vstd::seq_lib::group_to_multiset_ensures;
use vstd::multiset::Multiset;
use itertools::Itertools;

verus! {

/// A hero's leaderboard entry: furthest maze reached and the time spent
/// getting there (or finishing).
pub struct HeroScore {
    pub id: u128,
    pub name: String,
    pub maze_id: usize,
    pub duration_ms: u64,
}

/// A pursuer's leaderboard entry.
pub struct MinotaurScore {
    pub id: u128,
    pub name: String,
    pub maze_id: usize,
    pub kills: usize,
}

/// A hero entry reduced to its mathematical content (the name as its
/// character sequence), for stating that two books hold the same entries.
pub open spec fn hero_score_view(s: HeroScore) -> (u128, Seq<char>, usize, u64) {
    (s.id, s.name@, s.maze_id, s.duration_ms)
}

/// A pursuer entry reduced to its mathematical content.
pub open spec fn minotaur_score_view(s: MinotaurScore) -> (u128, Seq<char>, usize, usize) {
    (s.id, s.name@, s.maze_id, s.kills)
}

/// A normalized ranking record: sorted by `group` descending, then `order`
/// ascending.
pub struct RankRecord {
    pub group: u64,
    pub order: u64,
    pub id: u128,
    pub name: String,
}

/// The ranking order: larger groups first, smaller order keys first within a
/// group.
pub open spec fn rank_le(a: RankRecord, b: RankRecord) -> bool {
    a.group > b.group || (a.group == b.group && a.order <= b.order)
}

/// Comparator realizing `rank_le` for the external sort.
fn rank_cmp(a: &RankRecord, b: &RankRecord) -> (r: core::cmp::Ordering)
    ensures
        (r is Less) == (a.group > b.group || (a.group == b.group && a.order < b.order)),
        (r is Equal) == (a.group == b.group && a.order == b.order),
        !(r is Greater) ==> rank_le(*a, *b),
        (r is Greater) ==> rank_le(*b, *a),
{
    if a.group > b.group {
        core::cmp::Ordering::Less
    } else if a.group < b.group {
        core::cmp::Ordering::Greater
    } else if a.order < b.order {
        core::cmp::Ordering::Less
    } else if a.order > b.order {
        core::cmp::Ordering::Greater
    } else {
        core::cmp::Ordering::Equal
    }
}

/// Relies on itertools' sorted_by: the same elements, arranged so that the
/// comparator never reports Greater for an adjacent (hence any) pair.
#[verifier::external_body]
fn sort_rank_records(v: Vec<RankRecord>) -> (r: Vec<RankRecord>)
    ensures
        r@.to_multiset() == v@.to_multiset(),
        forall|i: int, j: int| 0 <= i < j < r@.len() ==> rank_le(#[trigger] r@[i], #[trigger] r@[j]),
{
    v.into_iter().sorted_by(|a, b| rank_cmp(a, b)).collect()
}

/// A permutation keeps being a permutation under any value mapping.
pub proof fn lemma_map_multiset<A, B>(s: Seq<A>, t: Seq<A>, f: spec_fn(A) -> B)
    requires
        s.to_multiset() == t.to_multiset(),
    ensures
        s.map_values(f).to_multiset() == t.map_values(f).to_multiset(),
    decreases s.len(),
{
    broadcast use group_to_multiset_ensures;

    if s.len() == 0 {
        assert(t.to_multiset().len() == 0);
        assert(t.len() == 0);
        assert(s.map_values(f) =~= t.map_values(f));
    } else {
        let n = s.len() - 1;
        let x = s[n];
        assert(s.to_multiset().contains(x)) by {
            assert(s.contains(x));
        }
        assert(t.to_multiset().contains(x));
        assert(t.contains(x));
        let k = choose|k: int| 0 <= k < t.len() && t[k] == x;
        let s1 = s.remove(n);
        let t1 = t.remove(k);
        assert(s1.to_multiset() == s.to_multiset().remove(x));
        assert(t1.to_multiset() == t.to_multiset().remove(x));
        lemma_map_multiset(s1, t1, f);
        assert(s1.map_values(f) =~= s.map_values(f).remove(n));
        assert(t1.map_values(f) =~= t.map_values(f).remove(k));
        assert(s.map_values(f).remove(n).to_multiset() == s.map_values(f).to_multiset().remove(
            f(x),
        )) by {
            assert(s.map_values(f)[n] == f(x));
        }
        assert(t.map_values(f).remove(k).to_multiset() == t.map_values(f).to_multiset().remove(
            f(x),
        )) by {
            assert(t.map_values(f)[k] == f(x));
        }
        assert(s.map_values(f).to_multiset().contains(f(x))) by {
            assert(s.map_values(f)[n] == f(x));
            assert(s.map_values(f).contains(f(x)));
        }
        assert(t.map_values(f).to_multiset().contains(f(x))) by {
            assert(t.map_values(f)[k] == f(x));
            assert(t.map_values(f).contains(f(x)));
        }
        assert(s.map_values(f).to_multiset() =~= t.map_values(f).to_multiset()) by {
            let ms = s.map_values(f).to_multiset();
            let mt = t.map_values(f).to_multiset();
            assert(ms.remove(f(x)) == mt.remove(f(x)));
            assert forall|y: B| ms.count(y) == mt.count(y) by {
                if y == f(x) {
                    assert(ms.remove(f(x)).count(y) + 1 == ms.count(y));
                    assert(mt.remove(f(x)).count(y) + 1 == mt.count(y));
                } else {
                    assert(ms.remove(f(x)).count(y) == ms.count(y));
                    assert(mt.remove(f(x)).count(y) == mt.count(y));
                }
            }
        }
    }
}

/// What a hero's entry looks like as a ranking record.
pub open spec fn hero_rank_spec(s: HeroScore) -> RankRecord {
    RankRecord { group: s.maze_id as u64, order: s.duration_ms, id: s.id, name: s.name }
}

pub open spec fn hero_unrank_spec(r: RankRecord) -> HeroScore {
    HeroScore { id: r.id, name: r.name, maze_id: r.group as usize, duration_ms: r.order }
}

/// Heroes ranked by furthest maze reached (descending), ties broken by the
/// fastest time (ascending).
pub open spec fn hero_scores_sorted(s: Seq<HeroScore>) -> bool {
    forall|i: int, j: int|
        0 <= i < j < s.len() ==> ((#[trigger] s[i]).maze_id > (#[trigger] s[j]).maze_id || (
        s[i].maze_id == s[j].maze_id && s[i].duration_ms <= s[j].duration_ms))
}

/// Sort hero leaderboard entries: same entries, furthest maze first, ties
/// broken by the fastest time.
pub fn rank_heroes(records: Vec<HeroScore>) -> (r: Vec<HeroScore>)
    requires
        forall|i: int| 0 <= i < records@.len() ==> (#[trigger] records@[i]).maze_id < 100000,
    ensures
        hero_scores_sorted(r@),
        r@.to_multiset() == records@.to_multiset(),
{
    let ghost orig = records@;
    let mut ranked: Vec<RankRecord> = Vec::new();
    let mut records = records;
    let ghost total = orig.len();
    while records.len() > 0
        invariant
            ranked@.len() + records@.len() == total,
            orig.len() == total,
            forall|i: int| 0 <= i < orig.len() ==> (#[trigger] orig[i]).maze_id < 100000,
            forall|i: int| 0 <= i < ranked@.len() ==> #[trigger] ranked@[i] == hero_rank_spec(
                orig[i]),
            forall|i: int| 0 <= i < records@.len() ==> #[trigger] records@[i] == orig[
                ranked@.len() + i],
        decreases records@.len(),
    {
        let s = records.remove(0);
        let ghost before = ranked@.len() as int;
        ranked.push(
            RankRecord { group: s.maze_id as u64, order: s.duration_ms, id: s.id, name: s.name },
        );
        proof {
            assert(ranked@[before] == hero_rank_spec(orig[before]));
        }
    }
    proof {
        assert(ranked@ =~= orig.map_values(|h: HeroScore| hero_rank_spec(h)));
    }
    let sorted = sort_rank_records(ranked);
    let ghost sortedv = sorted@;
    proof {
        broadcast use group_to_multiset_ensures;

        assert forall|i: int| 0 <= i < sortedv.len() implies (#[trigger] sortedv[i]).group
            < 100000 by {
            assert(sortedv.contains(sortedv[i]));
            assert(sortedv.to_multiset().contains(sortedv[i]));
            assert(ranked@.to_multiset().contains(sortedv[i]));
            assert(ranked@.contains(sortedv[i]));
            let k = choose|k: int| 0 <= k < ranked@.len() && ranked@[k] == sortedv[i];
            assert(ranked@[k] == hero_rank_spec(orig[k]));
        }
    }
    let mut r: Vec<HeroScore> = Vec::new();
    let mut sorted = sorted;
    while sorted.len() > 0
        invariant
            r@.len() + sorted@.len() == sortedv.len(),
            forall|i: int| 0 <= i < sortedv.len() ==> (#[trigger] sortedv[i]).group < 100000,
            forall|i: int| 0 <= i < r@.len() ==> #[trigger] r@[i] == hero_unrank_spec(sortedv[i]),
            forall|i: int| 0 <= i < sorted@.len() ==> #[trigger] sorted@[i] == sortedv[r@.len()
                + i],
        decreases sorted@.len(),
    {
        let s = sorted.remove(0);
        let ghost before = r@.len() as int;
        r.push(HeroScore { id: s.id, name: s.name, maze_id: s.group as usize, duration_ms: s.order });
        proof {
            assert(r@[before] == hero_unrank_spec(sortedv[before]));
        }
    }
    proof {
        assert(r@ =~= sortedv.map_values(|k: RankRecord| hero_unrank_spec(k)));
        assert forall|i: int, j: int| 0 <= i < j < r@.len() implies ((#[trigger] r@[i]).maze_id
            > (#[trigger] r@[j]).maze_id || (r@[i].maze_id == r@[j].maze_id && r@[i].duration_ms
            <= r@[j].duration_ms)) by {
            assert(rank_le(sortedv[i], sortedv[j]));
        }
        lemma_map_multiset(sortedv, ranked@, |k: RankRecord| hero_unrank_spec(k));
        assert(ranked@.map_values(|k: RankRecord| hero_unrank_spec(k)) =~= orig);
        assert(r@.to_multiset() == orig.to_multiset());
    }
    r
}

/// What a pursuer's entry looks like as a ranking record: kills first, then
/// the deepest maze (the order key inverts the maze index so that ascending
/// order means descending maze).
pub open spec fn minotaur_rank_spec(s: MinotaurScore) -> RankRecord {
    RankRecord {
        group: s.kills as u64,
        order: (u64::MAX - s.maze_id as u64) as u64,
        id: s.id,
        name: s.name,
    }
}

pub open spec fn minotaur_unrank_spec(r: RankRecord) -> MinotaurScore {
    MinotaurScore {
        id: r.id,
        name: r.name,
        maze_id: (u64::MAX - r.order) as usize,
        kills: r.group as usize,
    }
}

/// Pursuers ranked by kill count (descending), ties broken by the deeper
/// maze (descending).
pub open spec fn minotaur_scores_sorted(s: Seq<MinotaurScore>) -> bool {
    forall|i: int, j: int|
        0 <= i < j < s.len() ==> ((#[trigger] s[i]).kills > (#[trigger] s[j]).kills || (s[i].kills
            == s[j].kills && s[i].maze_id >= s[j].maze_id))
}

/// Sort pursuer leaderboard entries: same entries, most kills first, ties
/// broken by the deeper maze.
pub fn rank_minotaurs(records: Vec<MinotaurScore>) -> (r: Vec<MinotaurScore>)
    requires
        forall|i: int| 0 <= i < records@.len() ==> (#[trigger] records@[i]).maze_id < 100000
            && records@[i].kills < 1000000000,
    ensures
        minotaur_scores_sorted(r@),
        r@.to_multiset() == records@.to_multiset(),
{
    let ghost orig = records@;
    let mut ranked: Vec<RankRecord> = Vec::new();
    let mut records = records;
    let ghost total = orig.len();
    while records.len() > 0
        invariant
            ranked@.len() + records@.len() == total,
            orig.len() == total,
            forall|i: int| 0 <= i < orig.len() ==> (#[trigger] orig[i]).maze_id < 100000
                && orig[i].kills < 1000000000,
            forall|i: int| 0 <= i < ranked@.len() ==> #[trigger] ranked@[i] == minotaur_rank_spec(
                orig[i]),
            forall|i: int| 0 <= i < records@.len() ==> #[trigger] records@[i] == orig[
                ranked@.len() + i],
        decreases records@.len(),
    {
        let s = records.remove(0);
        let ghost before = ranked@.len() as int;
        ranked.push(
            RankRecord {
                group: s.kills as u64,
                order: u64::MAX - s.maze_id as u64,
                id: s.id,
                name: s.name,
            },
        );
        proof {
            assert(ranked@[before] == minotaur_rank_spec(orig[before]));
        }
    }
    proof {
        assert(ranked@ =~= orig.map_values(|h: MinotaurScore| minotaur_rank_spec(h)));
    }
    let sorted = sort_rank_records(ranked);
    let ghost sortedv = sorted@;
    let ghost msv = ranked@.to_multiset();
    proof {
        broadcast use group_to_multiset_ensures;

        assert forall|i: int| 0 <= i < sortedv.len() implies (#[trigger] sortedv[i]).group
            < 1000000000 && sortedv[i].order > u64::MAX - 100000 by {
            assert(sortedv.contains(sortedv[i]));
            assert(sortedv.to_multiset().contains(sortedv[i]));
            assert(ranked@.to_multiset().contains(sortedv[i]));
            assert(ranked@.contains(sortedv[i]));
            let k = choose|k: int| 0 <= k < ranked@.len() && ranked@[k] == sortedv[i];
            assert(ranked@[k] == minotaur_rank_spec(orig[k]));
        }
    }
    let mut r: Vec<MinotaurScore> = Vec::new();
    let mut sorted = sorted;
    while sorted.len() > 0
        invariant
            r@.len() + sorted@.len() == sortedv.len(),
            forall|i: int| 0 <= i < sortedv.len() ==> (#[trigger] sortedv[i]).group < 1000000000
                && sortedv[i].order > u64::MAX - 100000,
            forall|i: int| 0 <= i < r@.len() ==> #[trigger] r@[i] == minotaur_unrank_spec(
                sortedv[i]),
            forall|i: int| 0 <= i < sorted@.len() ==> #[trigger] sorted@[i] == sortedv[r@.len()
                + i],
        decreases sorted@.len(),
    {
        let s = sorted.remove(0);
        let ghost before = r@.len() as int;
        r.push(
            MinotaurScore {
                id: s.id,
                name: s.name,
                maze_id: (u64::MAX - s.order) as usize,
                kills: s.group as usize,
            },
        );
        proof {
            assert(r@[before] == minotaur_unrank_spec(sortedv[before]));
        }
    }
    proof {
        assert(r@ =~= sortedv.map_values(|k: RankRecord| minotaur_unrank_spec(k)));
        assert forall|i: int, j: int| 0 <= i < j < r@.len() implies ((#[trigger] r@[i]).kills
            > (#[trigger] r@[j]).kills || (r@[i].kills == r@[j].kills && r@[i].maze_id
            >= r@[j].maze_id)) by {
            assert(rank_le(sortedv[i], sortedv[j]));
        }
        lemma_map_multiset(sortedv, ranked@, |k: RankRecord| minotaur_unrank_spec(k));
        assert(ranked@.map_values(|k: RankRecord| minotaur_unrank_spec(k)) =~= orig);
        assert(r@.to_multiset() == orig.to_multiset());
    }
    r
}


/// The mathematical content of a hero book: the multiset of its entries'
/// views.
pub open spec fn hero_views(s: Seq<HeroScore>) -> Multiset<(u128, Seq<char>, usize, u64)>
    decreases s.len(),
{
    if s.len() == 0 {
        Multiset::empty()
    } else {
        hero_views(s.drop_last()).insert(hero_score_view(s.last()))
    }
}

/// The mathematical content of a pursuer book.
pub open spec fn mino_views(s: Seq<MinotaurScore>) -> Multiset<(u128, Seq<char>, usize, usize)>
    decreases s.len(),
{
    if s.len() == 0 {
        Multiset::empty()
    } else {
        mino_views(s.drop_last()).insert(minotaur_score_view(s.last()))
    }
}

/// The pursuer book a roster of minotaurs gives rise to.
pub open spec fn roster_views(s: Seq<crate::minotaur::Minotaur>) -> Multiset<
    (u128, Seq<char>, usize, usize),
>
    decreases s.len(),
{
    if s.len() == 0 {
        Multiset::empty()
    } else {
        roster_views(s.drop_last()).insert(
            {
                let m = s.last();
                (m.id, m.name@, m.maze_id, m.kills)
            },
        )
    }
}

pub proof fn lemma_hero_views_remove(b: Seq<HeroScore>, k: int)
    requires
        0 <= k < b.len(),
    ensures
        hero_views(b) == hero_views(b.remove(k)).insert(hero_score_view(b[k])),
    decreases b.len(),
{
    if k == b.len() - 1 {
        assert(b.remove(k) =~= b.drop_last());
    } else {
        let bdl = b.drop_last();
        assert(b.remove(k).drop_last() =~= bdl.remove(k));
        lemma_hero_views_remove(bdl, k);
        assert(b.remove(k).last() == b.last());
        assert(hero_views(b.remove(k)) == hero_views(bdl.remove(k)).insert(
            hero_score_view(b.last()),
        ));
        assert(hero_views(b) == hero_views(bdl).insert(hero_score_view(b.last())));
        assert(hero_views(bdl) == hero_views(bdl.remove(k)).insert(hero_score_view(bdl[k])));
        assert(bdl[k] == b[k]);
        assert(hero_views(bdl.remove(k)).insert(hero_score_view(b[k])).insert(
            hero_score_view(b.last()),
        ) =~= hero_views(bdl.remove(k)).insert(hero_score_view(b.last())).insert(
            hero_score_view(b[k]),
        ));
    }
}

/// Equal books (as multisets of entries) have equal content views.
pub proof fn lemma_hero_views_perm(a: Seq<HeroScore>, b: Seq<HeroScore>)
    requires
        a.to_multiset() == b.to_multiset(),
    ensures
        hero_views(a) == hero_views(b),
    decreases a.len(),
{
    broadcast use group_to_multiset_ensures;

    if a.len() == 0 {
        assert(b.to_multiset().len() == 0);
        assert(b.len() == 0);
    } else {
        let n = a.len() - 1;
        let x = a[n];
        assert(a.contains(x));
        assert(a.to_multiset().contains(x));
        assert(b.to_multiset().contains(x));
        assert(b.contains(x));
        let k = choose|k: int| 0 <= k < b.len() && b[k] == x;
        let a1 = a.drop_last();
        let b1 = b.remove(k);
        assert(a1 =~= a.remove(n));
        assert(a1.to_multiset() == a.to_multiset().remove(x));
        assert(b1.to_multiset() == b.to_multiset().remove(x));
        lemma_hero_views_perm(a1, b1);
        lemma_hero_views_remove(b, k);
        assert(hero_views(a) == hero_views(a1).insert(hero_score_view(x)));
    }
}

/// Pointwise content-equal books have equal content views.
pub proof fn lemma_hero_views_pointwise(a: Seq<HeroScore>, b: Seq<HeroScore>)
    requires
        a.len() == b.len(),
        forall|i: int|
            0 <= i < a.len() ==> hero_score_view(#[trigger] a[i]) == hero_score_view(b[i]),
    ensures
        hero_views(a) == hero_views(b),
    decreases a.len(),
{
    if a.len() > 0 {
        lemma_hero_views_pointwise(a.drop_last(), b.drop_last());
        assert(hero_score_view(a[a.len() - 1]) == hero_score_view(b[b.len() - 1]));
    }
}

pub proof fn lemma_mino_views_remove(b: Seq<MinotaurScore>, k: int)
    requires
        0 <= k < b.len(),
    ensures
        mino_views(b) == mino_views(b.remove(k)).insert(minotaur_score_view(b[k])),
    decreases b.len(),
{
    if k == b.len() - 1 {
        assert(b.remove(k) =~= b.drop_last());
    } else {
        let bdl = b.drop_last();
        assert(b.remove(k).drop_last() =~= bdl.remove(k));
        lemma_mino_views_remove(bdl, k);
        assert(b.remove(k).last() == b.last());
        assert(bdl[k] == b[k]);
        assert(mino_views(bdl.remove(k)).insert(minotaur_score_view(b[k])).insert(
            minotaur_score_view(b.last()),
        ) =~= mino_views(bdl.remove(k)).insert(minotaur_score_view(b.last())).insert(
            minotaur_score_view(b[k]),
        ));
    }
}

/// Equal books (as multisets of entries) have equal content views.
pub proof fn lemma_mino_views_perm(a: Seq<MinotaurScore>, b: Seq<MinotaurScore>)
    requires
        a.to_multiset() == b.to_multiset(),
    ensures
        mino_views(a) == mino_views(b),
    decreases a.len(),
{
    broadcast use group_to_multiset_ensures;

    if a.len() == 0 {
        assert(b.to_multiset().len() == 0);
        assert(b.len() == 0);
    } else {
        let n = a.len() - 1;
        let x = a[n];
        assert(a.contains(x));
        assert(a.to_multiset().contains(x));
        assert(b.to_multiset().contains(x));
        assert(b.contains(x));
        let k = choose|k: int| 0 <= k < b.len() && b[k] == x;
        let a1 = a.drop_last();
        let b1 = b.remove(k);
        assert(a1 =~= a.remove(n));
        assert(a1.to_multiset() == a.to_multiset().remove(x));
        assert(b1.to_multiset() == b.to_multiset().remove(x));
        lemma_mino_views_perm(a1, b1);
        lemma_mino_views_remove(b, k);
        assert(mino_views(a) == mino_views(a1).insert(minotaur_score_view(x)));
    }
}

/// A score book whose entries mirror a roster pointwise has the roster's
/// content views.
pub proof fn lemma_mino_views_of_roster(a: Seq<MinotaurScore>, b: Seq<crate::minotaur::Minotaur>)
    requires
        a.len() == b.len(),
        forall|i: int|
            0 <= i < a.len() ==> minotaur_score_view(#[trigger] a[i]) == (
            b[i].id,
            b[i].name@,
            b[i].maze_id,
            b[i].kills,
            ),
    ensures
        mino_views(a) == roster_views(b),
    decreases a.len(),
{
    if a.len() > 0 {
        lemma_mino_views_of_roster(a.drop_last(), b.drop_last());
        assert(minotaur_score_view(a[a.len() - 1]) == (
            b[b.len() - 1].id,
            b[b.len() - 1].name@,
            b[b.len() - 1].maze_id,
            b[b.len() - 1].kills,
        ));
    }
}


/// In a sorted hero leaderboard, a hero who reached a strictly deeper maze
/// is listed strictly before every hero of a shallower one.
pub proof fn lemma_deeper_hero_listed_first(s: Seq<HeroScore>, i: int, j: int)
    requires
        hero_scores_sorted(s),
        0 <= i < s.len(),
        0 <= j < s.len(),
        s[i].maze_id < s[j].maze_id,
    ensures
        j < i,
{
    if j > i {
        assert(s[i].maze_id > s[j].maze_id || (s[i].maze_id == s[j].maze_id && s[i].duration_ms
            <= s[j].duration_ms));
    }
}

} // verus!
