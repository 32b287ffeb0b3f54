//! The ranking of the players by their points.
//!
//! The roster lists the participants by their number: entry `i` holds the
//! identity that has number `i + 1`, with its points, and the zero identity
//! where that number was never given to anyone.

use vstd::prelude::*;
use crate::game::GoGame;
use crate::types::PlayerId;

verus! {

/// How many players the leaderboard shows at most.
pub const LEADERBOARD_SIZE: usize = 10;

/// The entries of `roster` that belong to somebody, in their order.
pub open spec fn listed(roster: Seq<(PlayerId, u32)>) -> Seq<(PlayerId, u32)>
    decreases roster.len(),
{
    if roster.len() == 0 {
        Seq::empty()
    } else if roster.last().0.is_nobody() {
        listed(roster.drop_last())
    } else {
        listed(roster.drop_last()).push(roster.last())
    }
}

/// `ranking` with `entry` put behind every entry that has as many points or
/// more.
pub open spec fn insert_ranked(ranking: Seq<(PlayerId, u32)>, entry: (PlayerId, u32)) -> Seq<
    (PlayerId, u32),
>
    decreases ranking.len(),
{
    if ranking.len() == 0 {
        seq![entry]
    } else if ranking.last().1 >= entry.1 {
        ranking.push(entry)
    } else {
        insert_ranked(ranking.drop_last(), entry).push(ranking.last())
    }
}

/// `entries` ordered by points, the most points first; entries with the same
/// points keep their order.
pub open spec fn ranked(entries: Seq<(PlayerId, u32)>) -> Seq<(PlayerId, u32)>
    decreases entries.len(),
{
    if entries.len() == 0 {
        Seq::empty()
    } else {
        insert_ranked(ranked(entries.drop_last()), entries.last())
    }
}

/// The leaderboard of `roster`: its participants ordered by points, cut off
/// after the tenth.
pub open spec fn top_players(roster: Seq<(PlayerId, u32)>) -> Seq<(PlayerId, u32)> {
    let ranking = ranked(listed(roster));
    if ranking.len() <= 10 {
        ranking
    } else {
        ranking.take(10)
    }
}

/// The entries of `entries` that have exactly `points`, in their order.
pub open spec fn with_points(entries: Seq<(PlayerId, u32)>, points: u32) -> Seq<(PlayerId, u32)>
    decreases entries.len(),
{
    if entries.len() == 0 {
        Seq::empty()
    } else if entries.last().1 == points {
        with_points(entries.drop_last(), points).push(entries.last())
    } else {
        with_points(entries.drop_last(), points)
    }
}

/// The points never rise along `entries`.
pub open spec fn descending(entries: Seq<(PlayerId, u32)>) -> bool {
    forall|i: int, j: int| 0 <= i <= j < entries.len() ==> entries[i].1 >= entries[j].1
}

/// How many participants of `roster` other than `player` have more than
/// `points`.
pub open spec fn count_above(roster: Seq<(PlayerId, u32)>, player: PlayerId, points: u32) -> nat
    decreases roster.len(),
{
    if roster.len() == 0 {
        0
    } else {
        let other = roster.last();
        let rest = count_above(roster.drop_last(), player, points);
        if other.0 != player && !other.0.is_nobody() && other.1 > points {
            rest + 1
        } else {
            rest
        }
    }
}

/// The rank of a player with `points`: 0 without points, else 1 more than
/// the number of other participants with more points.
pub open spec fn rank_of(roster: Seq<(PlayerId, u32)>, player: PlayerId, points: u32) -> nat {
    if points == 0 {
        0
    } else {
        1 + count_above(roster, player, points)
    }
}

/// Inserting an entry makes a ranking longer by one.
pub proof fn lemma_insert_ranked_len(ranking: Seq<(PlayerId, u32)>, entry: (PlayerId, u32))
    ensures
        insert_ranked(ranking, entry).len() == ranking.len() + 1,
    decreases ranking.len(),
{
    if ranking.len() > 0 && ranking.last().1 < entry.1 {
        lemma_insert_ranked_len(ranking.drop_last(), entry);
    }
}

/// Ordering keeps the number of entries.
pub proof fn lemma_ranked_len(entries: Seq<(PlayerId, u32)>)
    ensures
        ranked(entries).len() == entries.len(),
    decreases entries.len(),
{
    if entries.len() > 0 {
        lemma_ranked_len(entries.drop_last());
        lemma_insert_ranked_len(ranked(entries.drop_last()), entries.last());
    }
}

/// The participants of a roster are no more than its entries.
pub proof fn lemma_listed_len(roster: Seq<(PlayerId, u32)>)
    ensures
        listed(roster).len() <= roster.len(),
    decreases roster.len(),
{
    if roster.len() > 0 {
        lemma_listed_len(roster.drop_last());
    }
}

/// Where the entries from `at` on all have fewer points than `entry`, and the
/// one before them has as many or more, `entry` belongs at `at`.
pub proof fn lemma_insert_ranked_at(ranking: Seq<(PlayerId, u32)>, entry: (PlayerId, u32), at: int)
    requires
        0 <= at <= ranking.len(),
        forall|i: int| at <= i < ranking.len() ==> ranking[i].1 < entry.1,
        at > 0 ==> ranking[at - 1].1 >= entry.1,
    ensures
        insert_ranked(ranking, entry) == ranking.insert(at, entry),
    decreases ranking.len(),
{
    if ranking.len() == 0 {
        assert(ranking.insert(at, entry) =~= seq![entry]);
    } else if at == ranking.len() {
        assert(ranking.insert(at, entry) =~= ranking.push(entry));
    } else {
        lemma_insert_ranked_at(ranking.drop_last(), entry, at);
        assert(ranking.insert(at, entry) =~= ranking.drop_last().insert(at, entry).push(
            ranking.last(),
        ));
    }
}

proof fn lemma_insert_ranked_descending(ranking: Seq<(PlayerId, u32)>, entry: (PlayerId, u32))
    requires
        descending(ranking),
    ensures
        descending(insert_ranked(ranking, entry)),
        forall|i: int|
            0 <= i < insert_ranked(ranking, entry).len() ==> #[trigger] insert_ranked(
                ranking,
                entry,
            )[i] == entry || ranking.contains(insert_ranked(ranking, entry)[i]),
    decreases ranking.len(),
{
    let result = insert_ranked(ranking, entry);
    if ranking.len() == 0 {
    } else if ranking.last().1 >= entry.1 {
        assert forall|i: int| 0 <= i < result.len() implies #[trigger] result[i] == entry
            || ranking.contains(result[i]) by {
            if i < ranking.len() {
                assert(ranking[i] == result[i]);
            }
        }
    } else {
        let shorter = ranking.drop_last();
        assert(descending(shorter)) by {
            assert forall|i: int, j: int| 0 <= i <= j < shorter.len() implies shorter[i].1
                >= shorter[j].1 by {
                assert(shorter[i] == ranking[i] && shorter[j] == ranking[j]);
            }
        }
        lemma_insert_ranked_descending(shorter, entry);
        let inner = insert_ranked(shorter, entry);
        assert forall|i: int| 0 <= i < result.len() implies #[trigger] result[i] == entry
            || ranking.contains(result[i]) by {
            if i < inner.len() {
                assert(result[i] == inner[i]);
                if inner[i] != entry {
                    assert(shorter.contains(inner[i]));
                    let k = choose|k: int| 0 <= k < shorter.len() && shorter[k] == inner[i];
                    assert(ranking[k] == inner[i]);
                }
            } else {
                assert(result[i] == ranking[ranking.len() - 1]);
            }
        }
        assert forall|i: int, j: int| 0 <= i <= j < result.len() implies result[i].1
            >= result[j].1 by {
            if j < inner.len() {
                assert(result[i] == inner[i] && result[j] == inner[j]);
            } else if i < inner.len() {
                assert(result[i] == inner[i]);
                if inner[i] != entry {
                    let k = choose|k: int| 0 <= k < shorter.len() && shorter[k] == inner[i];
                    assert(ranking[k].1 >= ranking[ranking.len() - 1].1);
                }
            }
        }
    }
}

/// In a ranking the points never rise.
pub proof fn lemma_ranked_descending(entries: Seq<(PlayerId, u32)>)
    ensures
        descending(ranked(entries)),
    decreases entries.len(),
{
    if entries.len() > 0 {
        lemma_ranked_descending(entries.drop_last());
        lemma_insert_ranked_descending(ranked(entries.drop_last()), entries.last());
    }
}

proof fn lemma_insert_ranked_with_points(
    ranking: Seq<(PlayerId, u32)>,
    entry: (PlayerId, u32),
    points: u32,
)
    ensures
        with_points(insert_ranked(ranking, entry), points) == if entry.1 == points {
            with_points(ranking, points).push(entry)
        } else {
            with_points(ranking, points)
        },
    decreases ranking.len(),
{
    let result = insert_ranked(ranking, entry);
    if ranking.len() == 0 {
        assert(result.drop_last() =~= ranking);
        assert(with_points(ranking, points) =~= Seq::<(PlayerId, u32)>::empty());
        assert(with_points(result.drop_last(), points) == with_points(ranking, points));
    } else if ranking.last().1 >= entry.1 {
        assert(result.drop_last() =~= ranking);
        assert(result.last() == entry);
    } else {
        let inner = insert_ranked(ranking.drop_last(), entry);
        lemma_insert_ranked_with_points(ranking.drop_last(), entry, points);
        assert(result.drop_last() =~= inner);
        assert(result.last() == ranking.last());
    }
}

/// A ranking holds the same entries as what was ranked, and entries with the
/// same points stand in the order in which they came: for every number of
/// points, the entries with those points are the same sequence before and
/// after.
pub proof fn lemma_ranked_stable(entries: Seq<(PlayerId, u32)>, points: u32)
    ensures
        with_points(ranked(entries), points) == with_points(entries, points),
    decreases entries.len(),
{
    if entries.len() > 0 {
        lemma_ranked_stable(entries.drop_last(), points);
        lemma_insert_ranked_with_points(ranked(entries.drop_last()), entries.last(), points);
    }
}

/// Orders `entries` by points, the most points first, keeping the order of
/// entries with the same points.
pub fn rank_entries(entries: &Vec<(PlayerId, u32)>) -> (ranking: Vec<(PlayerId, u32)>)
    ensures
        ranking@ == ranked(entries@),
{
    let mut ranking: Vec<(PlayerId, u32)> = Vec::with_capacity(entries.len());
    let mut done: usize = 0;
    while done < entries.len()
        invariant
            done <= entries@.len(),
            ranking@ == ranked(entries@.take(done as int)),
        decreases entries@.len() - done,
    {
        let entry = entries[done];
        let mut at: usize = ranking.len();
        while at > 0 && ranking[at - 1].1 < entry.1
            invariant
                at <= ranking@.len(),
                forall|i: int| at <= i < ranking@.len() ==> ranking@[i].1 < entry.1,
            decreases at,
        {
            at = at - 1;
        }
        proof {
            lemma_insert_ranked_at(ranking@, entry, at as int);
            assert(entries@.take(done + 1).drop_last() =~= entries@.take(done as int));
        }
        ranking.insert(at, entry);
        done = done + 1;
    }
    proof {
        assert(entries@.take(entries@.len() as int) =~= entries@);
    }
    ranking
}

impl GoGame {
    /// The leaderboard: the participants of `roster` with the most points, at
    /// most ten of them, the most points first; players with the same points
    /// stand in the order of their numbers.
    pub fn get_top_players(roster: &Vec<(PlayerId, u32)>) -> (leaderboard: Vec<(PlayerId, u32)>)
        ensures
            leaderboard@ == top_players(roster@),
    {
        let total_existing_players = roster.len();
        let max_players = if total_existing_players < LEADERBOARD_SIZE {
            total_existing_players
        } else {
            LEADERBOARD_SIZE
        };
        let mut all_players: Vec<(PlayerId, u32)> = Vec::with_capacity(total_existing_players);
        let mut i: usize = 0;
        while i < total_existing_players
            invariant
                total_existing_players == roster@.len(),
                i <= roster@.len(),
                all_players@ == listed(roster@.take(i as int)),
            decreases roster@.len() - i,
        {
            let entry = roster[i];
            proof {
                assert(roster@.take(i + 1).drop_last() =~= roster@.take(i as int));
            }
            if !entry.0.is_zero() {
                all_players.push(entry);
            }
            i = i + 1;
        }
        proof {
            assert(roster@.take(roster@.len() as int) =~= roster@);
            lemma_listed_len(roster@);
            lemma_ranked_len(listed(roster@));
        }
        let ranking = rank_entries(&all_players);
        let mut leaderboard: Vec<(PlayerId, u32)> = Vec::with_capacity(max_players);
        let mut k: usize = 0;
        while k < max_players
            invariant
                max_players <= 10,
                max_players <= roster@.len(),
                ranking@.len() <= roster@.len(),
                k <= max_players,
                leaderboard@ == ranking@.take(
                    if k <= ranking@.len() {
                        k as int
                    } else {
                        ranking@.len() as int
                    },
                ),
            decreases max_players - k,
        {
            if k < ranking.len() {
                leaderboard.push(ranking[k]);
                proof {
                    assert(ranking@.take(k + 1) =~= ranking@.take(k as int).push(
                        ranking@[k as int],
                    ));
                }
            }
            k = k + 1;
        }
        proof {
            assert(ranking@.take(ranking@.len() as int) =~= ranking@);
        }
        leaderboard
    }

    /// The rank of `player`, whose points this state holds, among the
    /// participants of `roster`: 0 without points, else 1 more than the
    /// number of other participants with more points.
    pub fn get_player_rank(&self, player: PlayerId, roster: &Vec<(PlayerId, u32)>) -> (rank: u32)
        requires
            roster@.len() < u32::MAX,
        ensures
            rank == rank_of(roster@, player, self.player_points),
    {
        let player_points = self.player_points;
        if player_points == 0 {
            return 0;
        }
        let mut rank: u32 = 1;
        let mut i: usize = 0;
        while i < roster.len()
            invariant
                roster@.len() < u32::MAX,
                i <= roster@.len(),
                rank == 1 + count_above(roster@.take(i as int), player, player_points),
                rank <= 1 + i,
            decreases roster@.len() - i,
        {
            let other = roster[i];
            proof {
                assert(roster@.take(i + 1).drop_last() =~= roster@.take(i as int));
            }
            if !(other.0 == player) && !other.0.is_zero() {
                if other.1 > player_points {
                    rank = rank + 1;
                }
            }
            i = i + 1;
        }
        proof {
            assert(roster@.take(roster@.len() as int) =~= roster@);
        }
        rank
    }
}

} // verus!
