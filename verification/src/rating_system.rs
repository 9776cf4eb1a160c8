use vstd::prelude::*;
use crate::message::{Op, Seed, Slot};
use crate::nodes::TreeNode;

verus! {

/// The deviation of `Seed::Noise`, the zero-mean noise that turns a skill
/// into a performance.
pub const BETA: u64 = 200;

/// The mean of `Seed::Newcomer`, the rating of a player who was never rated.
pub const MU: u64 = 1500;

/// The deviation of `Seed::Newcomer`, and the ceiling of every deviation
/// that `Op::Age` lets grow.
pub const SIGMA: u64 = 500;

/// What `Op::Age` adds to a deviation for every second elapsed.
pub const SIGMA_GROWTH: u64 = 100_000;

/// The change of a watched message, in millionths of a rating point, below
/// which a round counts as settled.
pub const CONVERGENCE_EPS: u64 = 200;

/// The half-width of the band within which two performances count as tied,
/// in thousandths of a rating point.
pub const EPS: u64 = 736;

/// The least gap between the performances of consecutive places, in
/// thousandths of a rating point.
pub const GAP: u64 = 2 * EPS;

pub type Player = String;

pub type Team = Vec<Player>;

pub type ContestPlace = Vec<Team>;

/// The places of a contest, best first; the teams of one place are tied.
pub type Contest = Vec<ContestPlace>;

/// One clone of `default` for every team of `places`.
pub fn gen_team_message<T, K: Clone>(places: &Vec<Vec<T>>, default: &K) -> (ret: Vec<Vec<K>>)
    ensures
        ret.len() == places.len(),
        forall|k: int| 0 <= k < places.len() ==> (#[trigger] ret[k]).len() == places[k].len(),
        forall|k: int, j: int|
            0 <= k < places.len() && 0 <= j < places[k].len() ==> cloned(
                *default,
                #[trigger] ret[k][j],
            ),
{
    let mut ret: Vec<Vec<K>> = Vec::with_capacity(places.len());
    let mut k: usize = 0;
    while k < places.len()
        invariant
            k <= places.len(),
            ret.len() == k,
            forall|a: int| 0 <= a < k ==> (#[trigger] ret[a]).len() == places[a].len(),
            forall|a: int, j: int|
                0 <= a < k && 0 <= j < places[a].len() ==> cloned(*default, #[trigger] ret[a][j]),
        decreases places.len() - k,
    {
        let n = places[k].len();
        let mut row: Vec<K> = Vec::with_capacity(n);
        let mut j: usize = 0;
        while j < n
            invariant
                j <= n,
                row.len() == j,
                forall|b: int| 0 <= b < j ==> cloned(*default, #[trigger] row[b]),
            decreases n - j,
        {
            row.push(default.clone());
            j += 1;
        }
        ret.push(row);
        k += 1;
    }
    ret
}

/// One clone of `default` for every player of `places`.
pub fn gen_player_message<T, K: Clone>(places: &Vec<Vec<Vec<T>>>, default: &K) -> (ret: Vec<
    Vec<Vec<K>>,
>)
    ensures
        ret.len() == places.len(),
        forall|k: int| 0 <= k < places.len() ==> (#[trigger] ret[k]).len() == places[k].len(),
        forall|k: int, j: int|
            0 <= k < places.len() && 0 <= j < places[k].len() ==> (#[trigger] ret[k][j]).len()
                == places[k][j].len(),
        forall|k: int, j: int, i: int|
            0 <= k < places.len() && 0 <= j < places[k].len() && 0 <= i < places[k][j].len()
                ==> cloned(*default, #[trigger] ret[k][j][i]),
{
    let mut ret: Vec<Vec<Vec<K>>> = Vec::with_capacity(places.len());
    let mut k: usize = 0;
    while k < places.len()
        invariant
            k <= places.len(),
            ret.len() == k,
            forall|a: int| 0 <= a < k ==> (#[trigger] ret[a]).len() == places[a].len(),
            forall|a: int, j: int|
                0 <= a < k && 0 <= j < places[a].len() ==> (#[trigger] ret[a][j]).len()
                    == places[a][j].len(),
            forall|a: int, j: int, i: int|
                0 <= a < k && 0 <= j < places[a].len() && 0 <= i < places[a][j].len() ==> cloned(
                    *default,
                    #[trigger] ret[a][j][i],
                ),
        decreases places.len() - k,
    {
        let row = gen_team_message(&places[k], default);
        ret.push(row);
        k += 1;
    }
    ret
}

/// The programs of `nodes`, one after the other.
pub open spec fn programs<N: TreeNode>(nodes: Seq<N>) -> Seq<Op>
    decreases nodes.len(),
{
    if nodes.len() == 0 {
        Seq::empty()
    } else {
        programs(nodes.drop_last()) + nodes.last().program()
    }
}

/// The programs of the nodes of `rows`, row by row.
pub open spec fn programs2<N: TreeNode>(rows: Seq<Vec<N>>) -> Seq<Op>
    decreases rows.len(),
{
    if rows.len() == 0 {
        Seq::empty()
    } else {
        programs2(rows.drop_last()) + programs(rows.last()@)
    }
}

/// The programs of the nodes of `blocks`, block by block and row by row.
pub open spec fn programs3<N: TreeNode>(blocks: Seq<Vec<Vec<N>>>) -> Seq<Op>
    decreases blocks.len(),
{
    if blocks.len() == 0 {
        Seq::empty()
    } else {
        programs3(blocks.drop_last()) + programs2(blocks.last()@)
    }
}

/// Refreshes the nodes of `who` in order.
pub fn infer1<N: TreeNode>(who: &Vec<N>, code: &mut Vec<Op>)
    ensures
        final(code)@ == old(code)@ + programs(who@),
{
    let mut i: usize = 0;
    assert(who@.take(0) =~= Seq::<N>::empty());
    assert(code@ =~= old(code)@ + programs(who@.take(0)));
    while i < who.len()
        invariant
            i <= who.len(),
            code@ == old(code)@ + programs(who@.take(i as int)),
        decreases who.len() - i,
    {
        who[i].infer(code);
        proof {
            assert(who@.take(i + 1).drop_last() =~= who@.take(i as int));
            assert(who@.take(i + 1).last() == who@[i as int]);
            assert(code@ =~= old(code)@ + programs(who@.take(i + 1)));
        }
        i += 1;
    }
    assert(who@.take(who.len() as int) =~= who@);
}

/// Refreshes the nodes of `who` row by row.
pub fn infer2<N: TreeNode>(who: &Vec<Vec<N>>, code: &mut Vec<Op>)
    ensures
        final(code)@ == old(code)@ + programs2(who@),
{
    let mut i: usize = 0;
    assert(who@.take(0) =~= Seq::<Vec<N>>::empty());
    assert(code@ =~= old(code)@ + programs2(who@.take(0)));
    while i < who.len()
        invariant
            i <= who.len(),
            code@ == old(code)@ + programs2(who@.take(i as int)),
        decreases who.len() - i,
    {
        infer1(&who[i], code);
        proof {
            assert(who@.take(i + 1).drop_last() =~= who@.take(i as int));
            assert(who@.take(i + 1).last() == who@[i as int]);
            assert(code@ =~= old(code)@ + programs2(who@.take(i + 1)));
        }
        i += 1;
    }
    assert(who@.take(who.len() as int) =~= who@);
}

/// Refreshes the nodes of `who` block by block.
pub fn infer3<N: TreeNode>(who: &Vec<Vec<Vec<N>>>, code: &mut Vec<Op>)
    ensures
        final(code)@ == old(code)@ + programs3(who@),
{
    let mut i: usize = 0;
    assert(who@.take(0) =~= Seq::<Vec<Vec<N>>>::empty());
    assert(code@ =~= old(code)@ + programs3(who@.take(0)));
    while i < who.len()
        invariant
            i <= who.len(),
            code@ == old(code)@ + programs3(who@.take(i as int)),
        decreases who.len() - i,
    {
        infer2(&who[i], code);
        proof {
            assert(who@.take(i + 1).drop_last() =~= who@.take(i as int));
            assert(who@.take(i + 1).last() == who@[i as int]);
            assert(code@ =~= old(code)@ + programs3(who@.take(i + 1)));
        }
        i += 1;
    }
    assert(who@.take(who.len() as int) =~= who@);
}

/// The way down the chain of places: each of the first `k` places, then the
/// constraint that ties it to the next.
pub open spec fn chain_down<F: TreeNode, V: TreeNode>(ld: Seq<F>, l: Seq<V>, k: int) -> Seq<Op>
    decreases k,
{
    if k <= 0 {
        Seq::empty()
    } else {
        chain_down(ld, l, k - 1) + l[k - 1].program() + ld[k - 1].program()
    }
}

/// The way back up the chain of places, from the last constraint to
/// constraint `k`: each constraint, then the place above it.
pub open spec fn chain_up<F: TreeNode, V: TreeNode>(ld: Seq<F>, l: Seq<V>, k: int) -> Seq<Op>
    decreases ld.len() - k,
{
    if k >= ld.len() {
        Seq::empty()
    } else {
        chain_up(ld, l, k + 1) + ld[k].program() + l[k].program()
    }
}

/// One pass down and up the chain of places.
pub open spec fn chain<F: TreeNode, V: TreeNode>(ld: Seq<F>, l: Seq<V>) -> Seq<Op> {
    chain_down(ld, l, ld.len() as int) + l.last().program() + chain_up(ld, l, 0)
}

/// Passes the evidence down the chain of places and back up: for each
/// constraint of `ld` the place above it and the constraint, then the last
/// place, then for each constraint from the last to the first the constraint
/// and the place above it.
pub fn infer_ld<F: TreeNode, V: TreeNode>(ld: &Vec<F>, l: &Vec<V>, code: &mut Vec<Op>)
    requires
        l.len() >= 1,
        ld.len() <= l.len(),
    ensures
        final(code)@ == old(code)@ + chain(ld@, l@),
{
    let n = ld.len();
    let mut i: usize = 0;
    assert(code@ =~= old(code)@ + chain_down(ld@, l@, 0));
    while i < n
        invariant
            i <= n,
            n == ld.len(),
            n <= l.len(),
            code@ == old(code)@ + chain_down(ld@, l@, i as int),
        decreases n - i,
    {
        l[i].infer(code);
        ld[i].infer(code);
        i += 1;
        assert(code@ =~= old(code)@ + chain_down(ld@, l@, i as int));
    }
    l[l.len() - 1].infer(code);
    let ghost turned = code@;
    let mut j: usize = n;
    assert(code@ =~= turned + chain_up(ld@, l@, n as int));
    while j > 0
        invariant
            j <= n,
            n == ld.len(),
            n <= l.len(),
            code@ == turned + chain_up(ld@, l@, j as int),
        decreases j,
    {
        j -= 1;
        ld[j].infer(code);
        l[j].infer(code);
        assert(code@ =~= turned + chain_up(ld@, l@, j as int));
    }
    assert(code@ =~= old(code)@ + chain(ld@, l@));
}

/// What brings the rating of one player up to the time of a contest. A
/// player who was never rated gets the rating of a newcomer; every rating
/// then grows as uncertain as the time since the player's last contest
/// makes it, which for a newcomer is no time at all.
pub open spec fn arrival(
    last: Option<usize>,
    when: usize,
    place: usize,
    team: usize,
    player: usize,
) -> Seq<Op> {
    let rating = Slot::Rating(place, team, player);
    match last {
        None => seq![
            Op::Load { dst: rating, value: Seed::Newcomer },
            Op::Age { dst: rating, src: rating, elapsed: 0 },
        ],
        Some(then) => seq![Op::Age { dst: rating, src: rating, elapsed: (when - then) as usize }],
    }
}

/// `arrival` for the first `count` players of a team.
pub open spec fn arrivals(
    row: Seq<Option<usize>>,
    when: usize,
    place: usize,
    team: usize,
    count: int,
) -> Seq<Op>
    decreases count,
{
    if count <= 0 {
        Seq::empty()
    } else {
        arrivals(row, when, place, team, count - 1) + arrival(
            row[count - 1],
            when,
            place,
            team,
            (count - 1) as usize,
        )
    }
}

/// `arrival` for the players of the first `count` teams of a place.
pub open spec fn arrivals2(rows: Seq<Vec<Option<usize>>>, when: usize, place: usize, count: int) -> Seq<
    Op,
>
    decreases count,
{
    if count <= 0 {
        Seq::empty()
    } else {
        arrivals2(rows, when, place, count - 1) + arrivals(
            rows[count - 1]@,
            when,
            place,
            (count - 1) as usize,
            rows[count - 1]@.len() as int,
        )
    }
}

/// `arrival` for the players of the first `count` places of a contest.
pub open spec fn arrivals3(blocks: Seq<Vec<Vec<Option<usize>>>>, when: usize, count: int) -> Seq<Op>
    decreases count,
{
    if count <= 0 {
        Seq::empty()
    } else {
        arrivals3(blocks, when, count - 1) + arrivals2(
            blocks[count - 1]@,
            when,
            (count - 1) as usize,
            blocks[count - 1]@.len() as int,
        )
    }
}

/// Whether no player was rated later than `when`.
pub open spec fn monotone(seen: Seq<Vec<Vec<Option<usize>>>>, when: usize) -> bool {
    forall|k: int, j: int, i: int|
        0 <= k < seen.len() && 0 <= j < seen[k]@.len() && 0 <= i < seen[k][j]@.len() ==> match (
        #[trigger] seen[k][j][i]) {
            Some(then) => then <= when,
            None => true,
        }
}

/// Brings the ratings of the players of a contest held at `when` up to
/// date. `seen` tells for every player of the contest, place by place and
/// team by team, when the player was last rated, if ever; the caller has put
/// that rating into the player's `Slot::Rating`.
pub fn load_rating(seen: &Vec<Vec<Vec<Option<usize>>>>, when: usize, code: &mut Vec<Op>)
    requires
        monotone(seen@, when),
    ensures
        final(code)@ == old(code)@ + arrivals3(seen@, when, seen.len() as int),
{
    let mut k: usize = 0;
    assert(code@ =~= old(code)@ + arrivals3(seen@, when, 0));
    while k < seen.len()
        invariant
            k <= seen.len(),
            monotone(seen@, when),
            code@ == old(code)@ + arrivals3(seen@, when, k as int),
        decreases seen.len() - k,
    {
        let rows = &seen[k];
        let ghost before = code@;
        let mut j: usize = 0;
        assert(code@ =~= before + arrivals2(rows@, when, k, 0));
        while j < rows.len()
            invariant
                j <= rows.len(),
                k < seen.len(),
                rows == &seen[k as int],
                monotone(seen@, when),
                code@ == before + arrivals2(rows@, when, k, j as int),
            decreases rows.len() - j,
        {
            let row = &rows[j];
            let ghost start = code@;
            let mut i: usize = 0;
            assert(code@ =~= start + arrivals(row@, when, k, j, 0));
            while i < row.len()
                invariant
                    i <= row.len(),
                    k < seen.len(),
                    j < seen[k as int]@.len(),
                    row == &seen[k as int][j as int],
                    monotone(seen@, when),
                    code@ == start + arrivals(row@, when, k, j, i as int),
                decreases row.len() - i,
            {
                let rating = Slot::Rating(k, j, i);
                match row[i] {
                    None => {
                        code.push(Op::Load { dst: rating, value: Seed::Newcomer });
                        code.push(Op::Age { dst: rating, src: rating, elapsed: 0 });
                    },
                    Some(then) => {
                        assert(seen[k as int][j as int][i as int] == Some(then));
                        code.push(Op::Age { dst: rating, src: rating, elapsed: when - then });
                    },
                }
                i += 1;
                assert(code@ =~= start + arrivals(row@, when, k, j, i as int));
            }
            j += 1;
            assert(code@ =~= before + arrivals2(rows@, when, k, j as int));
        }
        k += 1;
        assert(code@ =~= old(code)@ + arrivals3(seen@, when, k as int));
    }
}

} // verus!
