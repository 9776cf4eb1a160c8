use vstd::prelude::*;
use crate::rating_system::{Contest, ContestPlace, Player, Team};

verus! {

/// A contest as contracts see it: places of teams of players.
pub open spec fn places_of(contest: Seq<ContestPlace>) -> Seq<Seq<Seq<Player>>> {
    Seq::new(contest.len(), |k: int| Seq::new(contest[k]@.len(), |j: int| contest[k][j]@))
}

/// Whether the rows come by rank, best first.
pub open spec fn ranked(standings: Seq<(Player, usize, usize)>) -> bool {
    forall|i: int| 1 <= i < standings.len() ==> standings[i - 1].1 <= (#[trigger] standings[i]).1
}

/// The first `n` rows of the standings as a contest: every row is a team of
/// one, and a row shares the place of the row before it exactly when both
/// have the same rank.
pub open spec fn grouped(standings: Seq<(Player, usize, usize)>, n: int) -> Seq<Seq<Seq<Player>>>
    decreases n,
{
    if n <= 0 {
        Seq::empty()
    } else {
        let before = grouped(standings, n - 1);
        let team = seq![standings[n - 1].0];
        if n == 1 || standings[n - 1].1 != standings[n - 2].1 {
            before.push(seq![team])
        } else {
            before.update(before.len() - 1, before.last().push(team))
        }
    }
}

/// The teams that the rows make, one player each, in the order of the rows.
pub open spec fn teams_of(standings: Seq<(Player, usize, usize)>, n: int) -> Seq<Seq<Player>> {
    Seq::new(n as nat, |i: int| seq![standings[i].0])
}

/// Grouping loses, adds and reorders nothing: the teams of the places, place
/// after place, are the rows in their order, and no place is empty.
pub proof fn lemma_grouped_keeps_rows(standings: Seq<(Player, usize, usize)>, n: int)
    requires
        0 <= n <= standings.len(),
    ensures
        grouped(standings, n).flatten_alt() == teams_of(standings, n),
        forall|k: int| 0 <= k < grouped(standings, n).len() ==> (#[trigger] grouped(standings, n)[k]).len() > 0,
        n > 0 ==> grouped(standings, n).len() > 0,
    decreases n,
{
    if n <= 0 {
        assert(grouped(standings, n).flatten_alt() =~= teams_of(standings, n));
    } else {
        lemma_grouped_keeps_rows(standings, n - 1);
        let before = grouped(standings, n - 1);
        let after = grouped(standings, n);
        let team = seq![standings[n - 1].0];
        assert(teams_of(standings, n) =~= teams_of(standings, n - 1).push(team));
        if n == 1 || standings[n - 1].1 != standings[n - 2].1 {
            assert(after.drop_last() =~= before);
            assert(after.flatten_alt() =~= before.flatten_alt() + seq![team]);
        } else {
            assert(after.drop_last() =~= before.drop_last());
            assert(before.flatten_alt() == before.drop_last().flatten_alt() + before.last());
            assert(after.flatten_alt() =~= before.drop_last().flatten_alt() + before.last().push(
                team,
            ));
        }
        assert(after.flatten_alt() =~= teams_of(standings, n));
    }
}

/// The place that row `i` goes to: the last one there is once the row has
/// been taken in.
pub open spec fn place_of(standings: Seq<(Player, usize, usize)>, i: int) -> int {
    grouped(standings, i + 1).len() - 1
}

/// The position within its place that row `i` goes to.
pub open spec fn position_of(standings: Seq<(Player, usize, usize)>, i: int) -> int {
    grouped(standings, i + 1).last().len() - 1
}

/// A row stays where it went, whatever rows follow: among the first `n`
/// rows, row `i` is the team at `position_of` in the place `place_of`.
pub proof fn lemma_grouped_keeps_places(standings: Seq<(Player, usize, usize)>, n: int, i: int)
    requires
        0 <= i < n <= standings.len(),
    ensures
        0 <= place_of(standings, i) < grouped(standings, n).len(),
        0 <= position_of(standings, i) < grouped(standings, n)[place_of(standings, i)].len(),
        grouped(standings, n)[place_of(standings, i)][position_of(standings, i)]
            == seq![standings[i].0],
    decreases n,
{
    lemma_grouped_keeps_rows(standings, n - 1);
    if n > i + 1 {
        lemma_grouped_keeps_places(standings, n - 1, i);
    }
}

/// Ranks that come in order stay in order from any row to any later row.
pub proof fn lemma_ranked(standings: Seq<(Player, usize, usize)>, i: int, j: int)
    requires
        ranked(standings),
        0 <= i <= j < standings.len(),
    ensures
        standings[i].1 <= standings[j].1,
    decreases j - i,
{
    if i < j {
        lemma_ranked(standings, i, j - 1);
        assert(standings[j - 1].1 <= standings[j].1);
    }
}

/// Where the rows come by rank, two rows share a place exactly when they
/// have the same best rank, and a later row never goes to an earlier place.
pub proof fn lemma_ties_share_places(standings: Seq<(Player, usize, usize)>, i: int, j: int)
    requires
        ranked(standings),
        0 <= i <= j < standings.len(),
    ensures
        place_of(standings, i) <= place_of(standings, j),
        place_of(standings, i) == place_of(standings, j) <==> standings[i].1 == standings[j].1,
    decreases j - i,
{
    if i < j {
        lemma_ties_share_places(standings, i, j - 1);
        lemma_ranked(standings, i, j - 1);
        lemma_grouped_keeps_rows(standings, j);
        assert(standings[j - 1].1 <= standings[j].1);
    }
}

/// Turns standings into a contest. A row is a handle, the best and the
/// worst rank it may claim; rows of equal best rank are tied.
pub fn contest_adaptor(standings: &Vec<(Player, usize, usize)>) -> (contest: Contest)
    requires
        ranked(standings@),
    ensures
        places_of(contest@) == grouped(standings@, standings.len() as int),
{
    let mut ans: Contest = Vec::new();
    let mut i: usize = 0;
    assert(places_of(ans@) =~= grouped(standings@, 0));
    while i < standings.len()
        invariant
            i <= standings.len(),
            places_of(ans@) == grouped(standings@, i as int),
        decreases standings.len() - i,
    {
        let ghost before = places_of(ans@);
        let mut team: Team = Vec::new();
        team.push(standings[i].0.clone());
        assert(team@ =~= seq![standings[i as int].0]);
        let opens = i == 0 || standings[i].1 != standings[i - 1].1;
        if opens {
            let mut place: ContestPlace = Vec::new();
            place.push(team);
            ans.push(place);
            assert(places_of(ans@) =~~= before.push(seq![seq![standings[i as int].0]]));
        } else {
            proof {
                lemma_grouped_keeps_rows(standings@, i as int);
            }
            let last = ans.len() - 1;
            ans[last].push(team);
            assert(places_of(ans@) =~~= before.update(
                before.len() - 1,
                before.last().push(seq![standings[i as int].0]),
            ));
        }
        i += 1;
    }
    ans
}

} // verus!
