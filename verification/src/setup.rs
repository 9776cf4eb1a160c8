use vstd::prelude::*;
use crate::graph::{
    chain_base, chain_setup, links_setup, place_base, place_wired, places_setup, player_setup,
    players_setup, sizes_of, team_setup, team_wired, teams_setup, teams_span, Graph,
};
use crate::shape::{
    lemma_place_base_grows, lemma_teams_span_grows, lemma_wired_well_formed, natural,
};
use crate::message::{apply, lemma_run_concat, read, run, Belief, Op, Seed, Slot, Store};
use crate::nodes::fresh_edge;

verus! {

/// Whether `slot` is one of the two messages of an edge numbered from `lo`
/// up to, but not including, `hi`.
pub open spec fn in_block(slot: Slot, lo: int, hi: int) -> bool {
    match slot {
        Slot::Up(e) => lo <= e < hi,
        Slot::Down(e) => lo <= e < hi,
        _ => false,
    }
}

/// Whether edge `e` starts as an edge of a product node does: nothing has
/// come in over it, and what goes out is zero.
pub open spec fn starts_plain<M: Belief>(store: Store<M>, e: int) -> bool {
    &&& read(store, Slot::Up(e as usize)) == M::seed(Seed::One)
    &&& read(store, Slot::Down(e as usize)) == M::seed(Seed::Zero)
}

/// Whether edge `e` starts as the edge of a truncation node does: both
/// messages are zero.
pub open spec fn starts_at_zero<M: Belief>(store: Store<M>, e: int) -> bool {
    &&& read(store, Slot::Up(e as usize)) == M::seed(Seed::Zero)
    &&& read(store, Slot::Down(e as usize)) == M::seed(Seed::Zero)
}

/// Whether the four edges of a player, numbered from `b` on, start as they
/// should: the first brings `rating`, the third sends the performance noise,
/// and all else is as on any edge of a product node.
pub open spec fn player_starts<M: Belief>(store: Store<M>, b: int, rating: M) -> bool {
    &&& read(store, Slot::Up(b as usize)) == rating
    &&& read(store, Slot::Down(b as usize)) == M::seed(Seed::Zero)
    &&& starts_plain(store, b + 1)
    &&& read(store, Slot::Up((b + 2) as usize)) == M::seed(Seed::One)
    &&& read(store, Slot::Down((b + 2) as usize)) == M::seed(Seed::Noise)
    &&& starts_plain(store, b + 3)
}

/// Whether `after` differs from `before` at most on the edges from `lo` up
/// to `hi`.
pub open spec fn kept_outside<M: Belief>(
    before: Store<M>,
    after: Store<M>,
    lo: int,
    hi: int,
) -> bool {
    forall|s: Slot| !in_block(s, lo, hi) ==> #[trigger] read(after, s) == read(before, s)
}

proof fn lemma_edge_kept<M: Belief>(mid: Store<M>, after: Store<M>, e: int, lo: int, hi: int)
    requires
        kept_outside(mid, after, lo, hi),
        0 <= e <= usize::MAX,
        e < lo || hi <= e,
    ensures
        read(after, Slot::Up(e as usize)) == read(mid, Slot::Up(e as usize)),
        read(after, Slot::Down(e as usize)) == read(mid, Slot::Down(e as usize)),
{
    assert(!in_block(Slot::Up(e as usize), lo, hi));
    assert(!in_block(Slot::Down(e as usize), lo, hi));
}

proof fn lemma_run_one<M: Belief>(op: Op, store: Store<M>)
    ensures
        run(seq![op], store) == apply(op, store),
{
    assert(seq![op].drop_last() =~= Seq::<Op>::empty());
    assert(run(seq![op].drop_last(), store) == store);
}

proof fn lemma_fresh_edge<M: Belief>(e: usize, up: Seed, down: Seed, store: Store<M>)
    ensures
        ({
            let after = run(fresh_edge(e, up, down), store);
            &&& read(after, Slot::Up(e)) == M::seed(up)
            &&& read(after, Slot::Down(e)) == M::seed(down)
            &&& forall|s: Slot|
                s != Slot::Up(e) && s != Slot::Down(e) ==> #[trigger] read(after, s) == read(
                    store,
                    s,
                )
        }),
{
    let first = Op::Load { dst: Slot::Up(e), value: up };
    let second = Op::Load { dst: Slot::Down(e), value: down };
    assert(fresh_edge(e, up, down) =~= seq![first] + seq![second]);
    lemma_run_concat(seq![first], seq![second], store);
    lemma_run_one(first, store);
    lemma_run_one(second, apply(first, store));
}

proof fn lemma_player_setup<M: Belief>(b: int, place: usize, team: usize, i: int, store: Store<M>)
    requires
        0 <= b,
        b + 3 <= usize::MAX,
    ensures
        ({
            let after = run(player_setup(b, place, team, i), store);
            &&& player_starts(after, b, read(store, Slot::Rating(place, team, i as usize)))
            &&& kept_outside(store, after, b, b + 4)
        }),
{
    let f0 = fresh_edge(b as usize, Seed::One, Seed::Zero);
    let brings = Op::Copy { dst: Slot::Up(b as usize), src: Slot::Rating(place, team, i as usize) };
    let f1 = fresh_edge((b + 1) as usize, Seed::One, Seed::Zero);
    let f2 = fresh_edge((b + 2) as usize, Seed::One, Seed::Zero);
    let f3 = fresh_edge((b + 3) as usize, Seed::One, Seed::Zero);
    let noise = Op::Load { dst: Slot::Down((b + 2) as usize), value: Seed::Noise };
    let s1 = run(f0, store);
    let s2 = apply(brings, s1);
    let s3 = run(f1, s2);
    let s4 = run(f2, s3);
    let s5 = run(f3, s4);
    let s6 = apply(noise, s5);
    lemma_fresh_edge(b as usize, Seed::One, Seed::Zero, store);
    lemma_run_one(brings, s1);
    lemma_fresh_edge((b + 1) as usize, Seed::One, Seed::Zero, s2);
    lemma_fresh_edge((b + 2) as usize, Seed::One, Seed::Zero, s3);
    lemma_fresh_edge((b + 3) as usize, Seed::One, Seed::Zero, s4);
    lemma_run_one(noise, s5);
    lemma_run_concat(f0, seq![brings], store);
    lemma_run_concat(f0 + seq![brings], f1, store);
    lemma_run_concat(f0 + seq![brings] + f1, f2, store);
    lemma_run_concat(f0 + seq![brings] + f1 + f2, f3, store);
    lemma_run_concat(f0 + seq![brings] + f1 + f2 + f3, seq![noise], store);
    assert(run(player_setup(b, place, team, i), store) == s6);
    assert(read(s1, Slot::Rating(place, team, i as usize)) == read(
        store,
        Slot::Rating(place, team, i as usize),
    ));
    assert forall|s: Slot| !in_block(s, b, b + 4) implies #[trigger] read(s6, s) == read(
        store,
        s,
    ) by {
        assert(read(s1, s) == read(store, s));
        assert(read(s3, s) == read(s2, s));
        assert(read(s4, s) == read(s3, s));
        assert(read(s5, s) == read(s4, s));
    }
}

/// The number of the first edge of player `i` of a team whose edges start at
/// `b`.
pub open spec fn player_base(b: int, i: int) -> int {
    b + 4 * i
}

/// Whether the edges of a team of `n` players, numbered from `b` on, start
/// as they should: those of each player as `player_starts` says, with the
/// rating that `before` holds for the player, the edge of the tie margin at
/// zero, and those that tie the players to the team and the team to its
/// place as on any edge of a product node.
pub open spec fn team_starts<M: Belief>(
    before: Store<M>,
    after: Store<M>,
    b: int,
    n: int,
    place: usize,
    team: usize,
) -> bool {
    &&& forall|i: int|
        0 <= i < n ==> player_starts(
            after,
            #[trigger] player_base(b, i),
            read(before, Slot::Rating(place, team, i as usize)),
        )
    &&& forall|e: int|
        b + 4 * n <= e < b + 5 * n + 4 && e != b + 5 * n + 1 ==> #[trigger] starts_plain(after, e)
    &&& starts_at_zero(after, b + 5 * n + 1)
}

proof fn lemma_players_setup<M: Belief>(
    b: int,
    place: usize,
    team: usize,
    count: int,
    store: Store<M>,
)
    requires
        0 <= b,
        0 <= count,
        b + 4 * count <= usize::MAX,
    ensures
        ({
            let after = run(players_setup(b, place, team, count), store);
            &&& forall|i: int|
                0 <= i < count ==> player_starts(
                    after,
                    #[trigger] player_base(b, i),
                    read(store, Slot::Rating(place, team, i as usize)),
                )
            &&& kept_outside(store, after, b, b + 4 * count)
        }),
    decreases count,
{
    if count > 0 {
        let last = b + 4 * (count - 1);
        let before = players_setup(b, place, team, count - 1);
        let block = player_setup(last, place, team, count - 1);
        let mid = run(before, store);
        let after = run(block, mid);
        lemma_players_setup(b, place, team, count - 1, store);
        lemma_player_setup(last, place, team, count - 1, mid);
        lemma_run_concat(before, block, store);
        assert(run(players_setup(b, place, team, count), store) == after);
        assert forall|i: int| 0 <= i < count implies player_starts(
            after,
            #[trigger] player_base(b, i),
            read(store, Slot::Rating(place, team, i as usize)),
        ) by {
            if i < count - 1 {
                let own = player_base(b, i);
                assert(player_starts(mid, own, read(store, Slot::Rating(place, team, i as usize))));
                assert(!in_block(Slot::Up(own as usize), last, last + 4));
                assert(!in_block(Slot::Down(own as usize), last, last + 4));
                assert(!in_block(Slot::Up((own + 1) as usize), last, last + 4));
                assert(!in_block(Slot::Down((own + 1) as usize), last, last + 4));
                assert(!in_block(Slot::Up((own + 2) as usize), last, last + 4));
                assert(!in_block(Slot::Down((own + 2) as usize), last, last + 4));
                assert(!in_block(Slot::Up((own + 3) as usize), last, last + 4));
                assert(!in_block(Slot::Down((own + 3) as usize), last, last + 4));
            } else {
                assert(player_base(b, i) == last);
                assert(!in_block(Slot::Rating(place, team, i as usize), b, b + 4 * (count - 1)));
            }
        }
        assert forall|s: Slot| !in_block(s, b, b + 4 * count) implies #[trigger] read(after, s)
            == read(store, s) by {
            assert(!in_block(s, last, last + 4));
            assert(!in_block(s, b, b + 4 * (count - 1)));
            assert(read(after, s) == read(mid, s));
        }
    }
}

proof fn lemma_links_setup<M: Belief>(b: int, count: int, store: Store<M>)
    requires
        0 <= b,
        0 <= count,
        b + count <= usize::MAX,
    ensures
        ({
            let after = run(links_setup(b, count), store);
            &&& forall|e: int| b <= e < b + count ==> #[trigger] starts_plain(after, e)
            &&& kept_outside(store, after, b, b + count)
        }),
    decreases count,
{
    if count > 0 {
        let last = b + count - 1;
        let before = links_setup(b, count - 1);
        let block = fresh_edge(last as usize, Seed::One, Seed::Zero);
        let mid = run(before, store);
        let after = run(block, mid);
        lemma_links_setup(b, count - 1, store);
        lemma_fresh_edge(last as usize, Seed::One, Seed::Zero, mid);
        lemma_run_concat(before, block, store);
        assert(run(links_setup(b, count), store) == after);
        assert forall|e: int| b <= e < b + count implies #[trigger] starts_plain(after, e) by {
            if e < last {
                assert(starts_plain(mid, e));
            }
        }
        assert forall|s: Slot| !in_block(s, b, b + count) implies #[trigger] read(after, s) == read(
            store,
            s,
        ) by {
            assert(!in_block(s, b, b + count - 1));
            assert(read(after, s) == read(mid, s));
        }
    }
}

/// What the setup of a team does, in every message algebra: the edges of
/// the team start as `team_starts` says, and nothing else changes.
pub proof fn lemma_team_setup<M: Belief>(
    b: int,
    n: int,
    place: usize,
    team: usize,
    store: Store<M>,
)
    requires
        0 <= b,
        0 <= n,
        b + 5 * n + 4 <= usize::MAX,
    ensures
        team_starts(store, run(team_setup(b, n, place, team), store), b, n, place, team),
        kept_outside(store, run(team_setup(b, n, place, team), store), b, b + 5 * n + 4),
{
    let first = players_setup(b, place, team, n);
    let second = links_setup(b + 4 * n, n + 1);
    let third = fresh_edge((b + 5 * n + 1) as usize, Seed::Zero, Seed::Zero);
    let fourth = links_setup(b + 5 * n + 2, 2);
    let s1 = run(first, store);
    let s2 = run(second, s1);
    let s3 = run(third, s2);
    let after = run(fourth, s3);
    lemma_players_setup(b, place, team, n, store);
    lemma_links_setup(b + 4 * n, n + 1, s1);
    lemma_fresh_edge((b + 5 * n + 1) as usize, Seed::Zero, Seed::Zero, s2);
    lemma_links_setup(b + 5 * n + 2, 2, s3);
    lemma_run_concat(first, second, store);
    lemma_run_concat(first + second, third, store);
    lemma_run_concat(first + second + third, fourth, store);
    assert(run(team_setup(b, n, place, team), store) == after);
    assert forall|s: Slot| !in_block(s, b + 4 * n, b + 5 * n + 4) implies #[trigger] read(after, s)
        == read(s1, s) by {
        assert(!in_block(s, b + 4 * n, b + 5 * n + 1));
        assert(!in_block(s, b + 5 * n + 2, b + 5 * n + 4));
        assert(read(after, s) == read(s3, s));
        assert(read(s3, s) == read(s2, s));
    }
    assert forall|i: int| 0 <= i < n implies player_starts(
        after,
        #[trigger] player_base(b, i),
        read(store, Slot::Rating(place, team, i as usize)),
    ) by {
        let own = player_base(b, i);
        assert(player_starts(s1, own, read(store, Slot::Rating(place, team, i as usize))));
        lemma_edge_kept(s1, after, own, b + 4 * n, b + 5 * n + 4);
        lemma_edge_kept(s1, after, own + 1, b + 4 * n, b + 5 * n + 4);
        lemma_edge_kept(s1, after, own + 2, b + 4 * n, b + 5 * n + 4);
        lemma_edge_kept(s1, after, own + 3, b + 4 * n, b + 5 * n + 4);
    }
    assert forall|e: int|
        b + 4 * n <= e < b + 5 * n + 4 && e != b + 5 * n + 1 implies #[trigger] starts_plain(
        after,
        e,
    ) by {
        let up = Slot::Up(e as usize);
        let down = Slot::Down(e as usize);
        if e <= b + 5 * n {
            assert(starts_plain(s2, e));
            assert(!in_block(up, b + 5 * n + 2, b + 5 * n + 4) && !in_block(
                down,
                b + 5 * n + 2,
                b + 5 * n + 4,
            ));
            assert(read(after, up) == read(s3, up) && read(s3, up) == read(s2, up));
            assert(read(after, down) == read(s3, down) && read(s3, down) == read(s2, down));
        }
    }
    assert(starts_at_zero(after, b + 5 * n + 1)) by {
        let up = Slot::Up((b + 5 * n + 1) as usize);
        let down = Slot::Down((b + 5 * n + 1) as usize);
        assert(!in_block(up, b + 5 * n + 2, b + 5 * n + 4) && !in_block(
            down,
            b + 5 * n + 2,
            b + 5 * n + 4,
        ));
        assert(read(after, up) == read(s3, up));
        assert(read(after, down) == read(s3, down));
    }
    assert forall|s: Slot| !in_block(s, b, b + 5 * n + 4) implies #[trigger] read(after, s)
        == read(store, s) by {
        assert(!in_block(s, b, b + 4 * n));
        assert(!in_block(s, b + 4 * n, b + 5 * n + 1));
        assert(!in_block(s, b + 5 * n + 2, b + 5 * n + 4));
        assert(read(after, s) == read(s3, s));
        assert(read(s3, s) == read(s2, s));
        assert(read(s2, s) == read(s1, s));
    }
}

/// A team that has started keeps its start under any change that stays
/// behind its edges.
proof fn lemma_team_starts_kept<M: Belief>(
    before: Store<M>,
    mid: Store<M>,
    after: Store<M>,
    b: int,
    n: int,
    place: usize,
    team: usize,
    lo: int,
    hi: int,
)
    requires
        team_starts(before, mid, b, n, place, team),
        kept_outside(mid, after, lo, hi),
        0 <= b,
        0 <= n,
        b + 5 * n + 4 <= lo,
        lo <= usize::MAX,
    ensures
        team_starts(before, after, b, n, place, team),
{
    assert forall|i: int| 0 <= i < n implies player_starts(
        after,
        #[trigger] player_base(b, i),
        read(before, Slot::Rating(place, team, i as usize)),
    ) by {
        let own = player_base(b, i);
        assert(player_starts(mid, own, read(before, Slot::Rating(place, team, i as usize))));
        assert(!in_block(Slot::Up(own as usize), lo, hi));
        assert(!in_block(Slot::Down(own as usize), lo, hi));
        assert(!in_block(Slot::Up((own + 1) as usize), lo, hi));
        assert(!in_block(Slot::Down((own + 1) as usize), lo, hi));
        assert(!in_block(Slot::Up((own + 2) as usize), lo, hi));
        assert(!in_block(Slot::Down((own + 2) as usize), lo, hi));
        assert(!in_block(Slot::Up((own + 3) as usize), lo, hi));
        assert(!in_block(Slot::Down((own + 3) as usize), lo, hi));
    }
    assert forall|e: int|
        b + 4 * n <= e < b + 5 * n + 4 && e != b + 5 * n + 1 implies #[trigger] starts_plain(
        after,
        e,
    ) by {
        assert(starts_plain(mid, e));
        assert(!in_block(Slot::Up(e as usize), lo, hi));
        assert(!in_block(Slot::Down(e as usize), lo, hi));
    }
    assert(!in_block(Slot::Up((b + 5 * n + 1) as usize), lo, hi));
    assert(!in_block(Slot::Down((b + 5 * n + 1) as usize), lo, hi));
}

/// Whether the first `count` teams of a place whose edges start at `b` have
/// started, each as `team_starts` says.
pub open spec fn teams_start<M: Belief>(
    before: Store<M>,
    after: Store<M>,
    b: int,
    sizes: Seq<int>,
    place: usize,
    count: int,
) -> bool {
    forall|j: int|
        0 <= j < count ==> team_starts(
            before,
            after,
            b + #[trigger] teams_span(sizes, j),
            sizes[j],
            place,
            j as usize,
        )
}

/// What the setup of the teams of a place does, in every message algebra:
/// the edges of every team start as `team_starts` says, and nothing else
/// changes.
pub proof fn lemma_teams_setup<M: Belief>(
    b: int,
    sizes: Seq<int>,
    place: usize,
    count: int,
    store: Store<M>,
)
    requires
        0 <= b,
        0 <= count <= sizes.len(),
        forall|j: int| 0 <= j < sizes.len() ==> #[trigger] sizes[j] >= 0,
        b + teams_span(sizes, count) <= usize::MAX,
    ensures
        teams_start(store, run(teams_setup(b, sizes, place, count), store), b, sizes, place, count),
        kept_outside(
            store,
            run(teams_setup(b, sizes, place, count), store),
            b,
            b + teams_span(sizes, count),
        ),
    decreases count,
{
    if count > 0 {
        let last = b + teams_span(sizes, count - 1);
        let n = sizes[count - 1];
        let before = teams_setup(b, sizes, place, count - 1);
        let block = team_setup(last, n, place, (count - 1) as usize);
        let mid = run(before, store);
        let after = run(block, mid);
        lemma_teams_span_grows(sizes, 0, count - 1);
        lemma_teams_setup(b, sizes, place, count - 1, store);
        lemma_team_setup(last, n, place, (count - 1) as usize, mid);
        lemma_run_concat(before, block, store);
        assert(run(teams_setup(b, sizes, place, count), store) == after);
        assert forall|j: int| 0 <= j < count implies team_starts(
            store,
            after,
            b + #[trigger] teams_span(sizes, j),
            sizes[j],
            place,
            j as usize,
        ) by {
            if j < count - 1 {
                lemma_teams_span_grows(sizes, j, count - 1);
                lemma_teams_span_grows(sizes, 0, j);
                lemma_team_starts_kept(
                    store,
                    mid,
                    after,
                    b + teams_span(sizes, j),
                    sizes[j],
                    place,
                    j as usize,
                    last,
                    last + 5 * n + 4,
                );
            } else {
                assert forall|i: int| 0 <= i < n implies player_starts(
                    after,
                    #[trigger] player_base(last, i),
                    read(store, Slot::Rating(place, j as usize, i as usize)),
                ) by {
                    assert(!in_block(
                        Slot::Rating(place, j as usize, i as usize),
                        b,
                        b + teams_span(sizes, count - 1),
                    ));
                    assert(player_starts(
                        after,
                        player_base(last, i),
                        read(mid, Slot::Rating(place, j as usize, i as usize)),
                    ));
                }
            }
        }
        assert forall|s: Slot|
            !in_block(s, b, b + teams_span(sizes, count)) implies #[trigger] read(after, s) == read(
            store,
            s,
        ) by {
            assert(!in_block(s, last, last + 5 * n + 4));
            assert(!in_block(s, b, b + teams_span(sizes, count - 1)));
            assert(read(after, s) == read(mid, s));
        }
    }
}

/// Teams that have started keep their start under any change that stays
/// behind their edges.
proof fn lemma_teams_start_kept<M: Belief>(
    before: Store<M>,
    mid: Store<M>,
    after: Store<M>,
    b: int,
    sizes: Seq<int>,
    place: usize,
    lo: int,
    hi: int,
)
    requires
        teams_start(before, mid, b, sizes, place, sizes.len() as int),
        kept_outside(mid, after, lo, hi),
        0 <= b,
        forall|j: int| 0 <= j < sizes.len() ==> #[trigger] sizes[j] >= 0,
        b + teams_span(sizes, sizes.len() as int) <= lo,
        lo <= usize::MAX,
    ensures
        teams_start(before, after, b, sizes, place, sizes.len() as int),
{
    assert forall|j: int| 0 <= j < sizes.len() implies team_starts(
        before,
        after,
        b + #[trigger] teams_span(sizes, j),
        sizes[j],
        place,
        j as usize,
    ) by {
        lemma_teams_span_grows(sizes, j, sizes.len() as int);
        lemma_teams_span_grows(sizes, 0, j);
        lemma_team_starts_kept(
            before,
            mid,
            after,
            b + teams_span(sizes, j),
            sizes[j],
            place,
            j as usize,
            lo,
            hi,
        );
    }
}

/// The start of the teams of a place speaks of the ratings only: two stores
/// that hold the same ratings serve alike.
proof fn lemma_teams_start_of_ratings<M: Belief>(
    before: Store<M>,
    other: Store<M>,
    after: Store<M>,
    b: int,
    sizes: Seq<int>,
    place: usize,
)
    requires
        teams_start(before, after, b, sizes, place, sizes.len() as int),
        forall|team: usize, player: usize| #[trigger]
            read(before, Slot::Rating(place, team, player)) == read(
                other,
                Slot::Rating(place, team, player),
            ),
    ensures
        teams_start(other, after, b, sizes, place, sizes.len() as int),
{
    assert forall|j: int| 0 <= j < sizes.len() implies team_starts(
        other,
        after,
        b + #[trigger] teams_span(sizes, j),
        sizes[j],
        place,
        j as usize,
    ) by {
        let tb = b + teams_span(sizes, j);
        assert(team_starts(before, after, tb, sizes[j], place, j as usize));
        assert forall|i: int| 0 <= i < sizes[j] implies player_starts(
            after,
            #[trigger] player_base(tb, i),
            read(other, Slot::Rating(place, j as usize, i as usize)),
        ) by {
            assert(read(before, Slot::Rating(place, j as usize, i as usize)) == read(
                other,
                Slot::Rating(place, j as usize, i as usize),
            ));
        }
    }
}

proof fn lemma_chain_setup<M: Belief>(c: int, store: Store<M>)
    requires
        0 <= c,
        c + 2 <= usize::MAX,
    ensures
        starts_at_zero(run(chain_setup(c), store), c),
        starts_plain(run(chain_setup(c), store), c + 1),
        starts_plain(run(chain_setup(c), store), c + 2),
        kept_outside(store, run(chain_setup(c), store), c, c + 3),
{
    let first = fresh_edge(c as usize, Seed::Zero, Seed::Zero);
    let second = fresh_edge((c + 1) as usize, Seed::One, Seed::Zero);
    let third = fresh_edge((c + 2) as usize, Seed::One, Seed::Zero);
    let s1 = run(first, store);
    let s2 = run(second, s1);
    let after = run(third, s2);
    lemma_fresh_edge(c as usize, Seed::Zero, Seed::Zero, store);
    lemma_fresh_edge((c + 1) as usize, Seed::One, Seed::Zero, s1);
    lemma_fresh_edge((c + 2) as usize, Seed::One, Seed::Zero, s2);
    lemma_run_concat(first, second, store);
    lemma_run_concat(first + second, third, store);
    assert(read(after, Slot::Up(c as usize)) == read(s2, Slot::Up(c as usize)));
    assert(read(after, Slot::Down(c as usize)) == read(s2, Slot::Down(c as usize)));
    assert(read(after, Slot::Up((c + 1) as usize)) == read(s2, Slot::Up((c + 1) as usize)));
    assert(read(after, Slot::Down((c + 1) as usize)) == read(s2, Slot::Down((c + 1) as usize)));
    assert forall|s: Slot| !in_block(s, c, c + 3) implies #[trigger] read(after, s) == read(
        store,
        s,
    ) by {
        assert(read(after, s) == read(s2, s));
        assert(read(s2, s) == read(s1, s));
    }
}

/// Whether the edges of the first `count` places of a contest start as they
/// should: those of the teams of every place as `team_starts` says, with the
/// ratings that `before` holds, and of the three that tie every place but
/// the first to the place above the gap's at zero and the other two as on
/// any edge of a product node.
pub open spec fn places_start<M: Belief>(
    before: Store<M>,
    after: Store<M>,
    shape: Seq<Seq<int>>,
    count: int,
) -> bool {
    &&& forall|k: int|
        0 <= k < count ==> teams_start(
            before,
            after,
            #[trigger] place_base(shape, k),
            shape[k],
            k as usize,
            shape[k].len() as int,
        )
    &&& forall|k: int|
        1 <= k < count ==> starts_at_zero(after, #[trigger] chain_base(shape, k)) && starts_plain(
            after,
            chain_base(shape, k) + 1,
        ) && starts_plain(after, chain_base(shape, k) + 2)
}

/// What the setup of the first `count` places does, in every message
/// algebra: their edges start as `places_start` says, and nothing else
/// changes.
pub proof fn lemma_places_setup<M: Belief>(shape: Seq<Seq<int>>, count: int, store: Store<M>)
    requires
        natural(shape),
        0 <= count <= shape.len(),
        place_base(shape, count) <= usize::MAX,
    ensures
        places_start(store, run(places_setup(shape, count), store), shape, count),
        kept_outside(store, run(places_setup(shape, count), store), 0, place_base(shape, count)),
    decreases count,
{
    if count == 0 {
        assert(run(places_setup(shape, count), store) == store);
    } else {
        let k = count - 1;
        let pb = place_base(shape, k);
        let cb = chain_base(shape, k);
        let sizes = shape[k];
        let before = places_setup(shape, k);
        let teams = teams_setup(pb, sizes, k as usize, sizes.len() as int);
        let chain = if k >= 1 {
            chain_setup(cb)
        } else {
            Seq::<Op>::empty()
        };
        let end = place_base(shape, count);
        lemma_place_base_grows(shape, 0, k);
        lemma_place_base_grows(shape, k, count);
        assert forall|j: int| 0 <= j < sizes.len() implies #[trigger] sizes[j] >= 0 by {
            assert(shape[k][j] >= 0);
        }
        lemma_teams_span_grows(sizes, 0, sizes.len() as int);
        let s1 = run(before, store);
        let s2 = run(teams, s1);
        let s3 = run(chain, s2);
        lemma_places_setup(shape, k, store);
        lemma_teams_setup(pb, sizes, k as usize, sizes.len() as int, s1);
        if k >= 1 {
            lemma_chain_setup(cb, s2);
        }
        lemma_run_concat(before, teams, store);
        lemma_run_concat(before + teams, chain, store);
        assert(run(places_setup(shape, count), store) == s3);
        assert(kept_outside(s2, s3, cb, end));
        assert forall|s: Slot| !in_block(s, pb, end) implies #[trigger] read(s3, s) == read(
            s1,
            s,
        ) by {
            assert(!in_block(s, pb, cb));
            assert(!in_block(s, cb, end));
            assert(read(s3, s) == read(s2, s));
        }
        // the new place
        assert forall|team: usize, player: usize| #[trigger]
            read(s1, Slot::Rating(k as usize, team, player)) == read(
                store,
                Slot::Rating(k as usize, team, player),
            ) by {
            assert(!in_block(Slot::Rating(k as usize, team, player), 0, pb));
        }
        lemma_teams_start_of_ratings(s1, store, s2, pb, sizes, k as usize);
        lemma_teams_start_kept(store, s2, s3, pb, sizes, k as usize, cb, end);
        // the places before it
        assert forall|x: int| 0 <= x < count implies teams_start(
            store,
            s3,
            #[trigger] place_base(shape, x),
            shape[x],
            x as usize,
            shape[x].len() as int,
        ) by {
            if x < k {
                lemma_place_base_grows(shape, x, k);
                lemma_place_base_grows(shape, 0, x);
                assert forall|j: int| 0 <= j < shape[x].len() implies #[trigger] shape[x][j]
                    >= 0 by {}
                lemma_teams_start_kept(
                    store,
                    s1,
                    s2,
                    place_base(shape, x),
                    shape[x],
                    x as usize,
                    pb,
                    cb,
                );
                lemma_teams_start_kept(
                    store,
                    s2,
                    s3,
                    place_base(shape, x),
                    shape[x],
                    x as usize,
                    cb,
                    end,
                );
            }
        }
        assert forall|x: int| 1 <= x < count implies starts_at_zero(
            s3,
            #[trigger] chain_base(shape, x),
        ) && starts_plain(s3, chain_base(shape, x) + 1) && starts_plain(
            s3,
            chain_base(shape, x) + 2,
        ) by {
            if x < k {
                lemma_place_base_grows(shape, x, k);
                lemma_place_base_grows(shape, 0, x);
                assert forall|j: int| 0 <= j < shape[x].len() implies #[trigger] shape[x][j]
                    >= 0 by {}
                lemma_teams_span_grows(shape[x], 0, shape[x].len() as int);
                let c = chain_base(shape, x);
                assert(starts_at_zero(s1, c) && starts_plain(s1, c + 1) && starts_plain(s1, c + 2));
                lemma_edge_kept(s1, s3, c, pb, end);
                lemma_edge_kept(s1, s3, c + 1, pb, end);
                lemma_edge_kept(s1, s3, c + 2, pb, end);
            }
        }
        assert forall|s: Slot| !in_block(s, 0, end) implies #[trigger] read(s3, s) == read(
            store,
            s,
        ) by {
            assert(!in_block(s, 0, pb));
            assert(!in_block(s, pb, cb));
            assert(!in_block(s, cb, end));
            assert(read(s3, s) == read(s2, s));
            assert(read(s2, s) == read(s1, s));
        }
    }
}

/// What setting up the graph of a contest does, in every message algebra.
/// The edge of every tie margin and of every gap starts with zero in both
/// directions. The first edge of every skill brings the rating that the
/// player came with, the edge of every noise sends the performance noise,
/// and otherwise nothing has come in over an edge of a product node and zero
/// goes out. No rating and no slot beyond the graph's edges is touched.
pub proof fn lemma_setup<M: Belief>(graph: Graph, shape: Seq<Seq<int>>, store: Store<M>)
    requires
        graph.wired(shape),
        natural(shape),
    ensures
        places_start(store, run(graph.arena.setup@, store), shape, shape.len() as int),
        kept_outside(store, run(graph.arena.setup@, store), 0, graph.arena.edges as int),
{
    lemma_places_setup(shape, shape.len() as int, store);
}

/// After the graph of a contest has been set up, in every message algebra:
/// the skill of every player has been told the rating that the player came
/// with, over its first edge, and the noise of every player sends the
/// performance noise; every tie margin and every gap starts at zero.
pub proof fn lemma_setup_of_player<M: Belief>(
    graph: Graph,
    shape: Seq<Seq<int>>,
    store: Store<M>,
    k: int,
    j: int,
    i: int,
)
    requires
        graph.wired(shape),
        natural(shape),
        0 <= k < shape.len(),
        0 <= j < shape[k].len(),
        0 <= i < shape[k][j],
    ensures
        ({
            let after = run(graph.arena.setup@, store);
            &&& read(after, Slot::Up(graph.s[k][j][i].edges@[0])) == read(
                store,
                Slot::Rating(k as usize, j as usize, i as usize),
            )
            &&& read(after, Slot::Down(graph.perf[k][j][i].edges@[0])) == M::seed(Seed::Noise)
            &&& starts_at_zero(after, graph.u[k][j].edge as int)
            &&& forall|x: int|
                0 <= x < graph.d.len() ==> starts_at_zero(after, (#[trigger] graph.d[x]).edge as int)
        }),
{
    let after = run(graph.arena.setup@, store);
    lemma_setup(graph, shape, store);
    let pb = place_base(shape, k);
    let sizes = sizes_of(graph.s[k]@);
    assert(sizes == shape[k]);
    assert(sizes[j] == graph.s[k][j]@.len());
    let tb = pb + teams_span(shape[k], j);
    assert(teams_start(store, after, pb, shape[k], k as usize, shape[k].len() as int));
    assert(team_starts(store, after, tb, shape[k][j], k as usize, j as usize));
    assert(player_starts(
        after,
        player_base(tb, i),
        read(store, Slot::Rating(k as usize, j as usize, i as usize)),
    ));
    assert(place_wired(
        pb,
        k as usize,
        graph.s[k]@,
        graph.perf[k]@,
        graph.p[k]@,
        graph.t[k]@,
        graph.u[k]@,
        graph.sp[k]@,
        graph.pt[k]@,
        graph.tul[k]@,
    ));
    assert(team_wired(
        tb,
        k as usize,
        j as usize,
        graph.s[k][j]@,
        graph.perf[k][j]@,
        graph.p[k][j]@,
        graph.t[k][j],
        graph.u[k][j],
        graph.sp[k][j]@,
        graph.pt[k][j],
        graph.tul[k][j],
    ));
    assert(graph.s[k][j][i].edges@ == seq![(tb + 4 * i) as usize, (tb + 4 * i + 1) as usize]);
    assert(graph.perf[k][j][i].edges@ == seq![(tb + 4 * i + 2) as usize]);
    lemma_wired_well_formed(graph, shape);
    assert forall|x: int| 0 <= x < graph.d.len() implies starts_at_zero(
        after,
        (#[trigger] graph.d[x]).edge as int,
    ) by {
        assert(starts_at_zero(after, chain_base(shape, x + 1)));
        assert(graph.d[x].edge < graph.arena.edges);
    }
}

} // verus!
