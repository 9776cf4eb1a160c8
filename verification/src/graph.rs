use vstd::prelude::*;
use crate::message::{Op, Seed, Slot};
use crate::nodes::{
    fresh_edge, grown, welcomes, Arena, FuncNode, GreaterNode, LeqNode, ProdNode, SumNode,
    ValueNode,
};
use crate::rating_system::{gen_player_message, gen_team_message, EPS, GAP};
use crate::shape::lemma_wired_well_formed;


verus! {

/// The number of edges that a team of `n` players brings: four for each
/// player's skill and performance, one from each player to the team, and
/// four that tie the team to its players, to its tie margin and to its
/// place.
pub open spec fn team_span(n: int) -> int {
    5 * n + 4
}

/// The operations that set up the edges of one player, the first of which
/// has the number `b`: the edge that brings the rating the player came with,
/// and the three edges of the constraint "performance = skill + noise".
pub open spec fn player_setup(b: int, place: usize, team: usize, i: int) -> Seq<Op> {
    fresh_edge(b as usize, Seed::One, Seed::Zero) + seq![
        Op::Copy { dst: Slot::Up(b as usize), src: Slot::Rating(place, team, i as usize) },
    ] + fresh_edge((b + 1) as usize, Seed::One, Seed::Zero) + fresh_edge(
        (b + 2) as usize,
        Seed::One,
        Seed::Zero,
    ) + fresh_edge((b + 3) as usize, Seed::One, Seed::Zero) + seq![
        Op::Load { dst: Slot::Down((b + 2) as usize), value: Seed::Noise },
    ]
}

/// The setup of the first `count` players of a team whose edges start at `b`.
pub open spec fn players_setup(b: int, place: usize, team: usize, count: int) -> Seq<Op>
    decreases count,
{
    if count <= 0 {
        Seq::empty()
    } else {
        players_setup(b, place, team, count - 1) + player_setup(
            b + 4 * (count - 1),
            place,
            team,
            count - 1,
        )
    }
}

/// The setup of `count` edges of product nodes, numbered from `b` on.
pub open spec fn links_setup(b: int, count: int) -> Seq<Op>
    decreases count,
{
    if count <= 0 {
        Seq::empty()
    } else {
        links_setup(b, count - 1) + fresh_edge((b + count - 1) as usize, Seed::One, Seed::Zero)
    }
}

/// The setup of a team of `n` players whose edges start at `b`: the
/// players, the edges from the players to the team and the team's own to
/// them, the edge of the tie margin, and the edges of team and place in
/// "place = team + margin".
pub open spec fn team_setup(b: int, n: int, place: usize, team: usize) -> Seq<Op> {
    players_setup(b, place, team, n) + links_setup(b + 4 * n, n + 1) + fresh_edge(
        (b + 5 * n + 1) as usize,
        Seed::Zero,
        Seed::Zero,
    ) + links_setup(b + 5 * n + 2, 2)
}

/// How the nodes of one team are wired when the team's edges start at `b`.
/// For player `i`, edge `b + 4i` brings the rating the player came with,
/// and edges `b + 4i + 1`, `b + 4i + 2`, `b + 4i + 3` join skill, noise and
/// performance in "performance = skill + noise". Edges `b + 4n + i` and
/// `b + 5n` join the performances and the team in "team = sum of its
/// players". Edge `b + 5n + 1` is the tie margin's own, and with it edges
/// `b + 5n + 2` and `b + 5n + 3` join team, margin and place in "place =
/// team + margin".
pub open spec fn team_wired(
    b: int,
    place: usize,
    team: usize,
    s: Seq<ProdNode>,
    perf: Seq<ProdNode>,
    p: Seq<ProdNode>,
    t: ProdNode,
    u: LeqNode,
    sp: Seq<SumNode>,
    pt: SumNode,
    tul: SumNode,
) -> bool {
    let n = s.len() as int;
    &&& perf.len() == n
    &&& p.len() == n
    &&& sp.len() == n
    &&& forall|i: int|
        0 <= i < n ==> (#[trigger] s[i]).edges@ == seq![(b + 4 * i) as usize, (b + 4 * i + 1) as usize]
    &&& forall|i: int| 0 <= i < n ==> (#[trigger] perf[i]).edges@ == seq![(b + 4 * i + 2) as usize]
    &&& forall|i: int|
        0 <= i < n ==> (#[trigger] p[i]).edges@ == seq![
            (b + 4 * i + 3) as usize,
            (b + 4 * n + i) as usize,
        ]
    &&& forall|i: int|
        0 <= i < n ==> (#[trigger] sp[i]).out_edge == b + 4 * i + 3 && sp[i].sum_edges@ == seq![
            (b + 4 * i + 1) as usize,
            (b + 4 * i + 2) as usize,
        ]
    &&& t.edges@ == seq![(b + 5 * n) as usize, (b + 5 * n + 2) as usize]
    &&& u == (LeqNode { eps: EPS, edge: (b + 5 * n + 1) as usize })
    &&& pt.out_edge == b + 5 * n
    &&& pt.sum_edges@ == Seq::new(n as nat, |i: int| (b + 4 * n + i) as usize)
    &&& tul.out_edge == b + 5 * n + 3
    &&& tul.sum_edges@ == seq![(b + 5 * n + 2) as usize, (b + 5 * n + 1) as usize]
}

/// Whether none of `nodes` has an edge yet.
pub open spec fn all_bare(nodes: Seq<ProdNode>) -> bool {
    forall|i: int| 0 <= i < nodes.len() ==> (#[trigger] nodes[i]).edges@.len() == 0
}

/// Product nodes all grow: `count` of them make `count` edges.
proof fn lemma_products_grown(nodes: Seq<ProdNode>, start: int, count: int)
    requires
        0 <= count <= nodes.len(),
    ensures
        grown(nodes, start, count) == start + count,
    decreases count,
{
    if count > 0 {
        lemma_products_grown(nodes, start, count - 1);
    }
}

/// The edges that `count` product nodes make are set up as edges of product
/// nodes.
proof fn lemma_products_welcomed(nodes: Seq<ProdNode>, edges: Seq<usize>, start: int, count: int)
    requires
        0 <= count <= nodes.len(),
        forall|x: int| 0 <= x < count ==> edges[x] == start + x,
    ensures
        welcomes(nodes, edges, count) == links_setup(start, count),
    decreases count,
{
    if count > 0 {
        lemma_products_welcomed(nodes, edges, start, count - 1);
    }
}

/// Wires one team into the graph: each player's rating, skill, noise and
/// performance, the team as the sum of its players, the team's tie margin,
/// and the place `l` as the team plus the margin.
pub fn wire_team(
    arena: &mut Arena,
    s: &mut Vec<ProdNode>,
    perf: &mut Vec<ProdNode>,
    p: &mut Vec<ProdNode>,
    t: &mut ProdNode,
    l: &mut ProdNode,
    place: usize,
    team: usize,
) -> (wires: (Vec<SumNode>, SumNode, LeqNode, SumNode))
    requires
        old(arena).wf(),
        old(perf).len() == old(s).len(),
        old(p).len() == old(s).len(),
        all_bare(old(s)@),
        all_bare(old(perf)@),
        all_bare(old(p)@),
        old(t).edges@.len() == 0,
    ensures
        final(arena).wf(),
        final(arena).edges == old(arena).edges + team_span(old(s).len() as int),
        final(arena).setup@ == old(arena).setup@ + team_setup(
            old(arena).edges as int,
            old(s).len() as int,
            place,
            team,
        ),
        final(s).len() == old(s).len(),
        team_wired(
            old(arena).edges as int,
            place,
            team,
            final(s)@,
            final(perf)@,
            final(p)@,
            *final(t),
            wires.2,
            wires.0@,
            wires.1,
            wires.3,
        ),
        final(l).edges@ == old(l).edges@.push((old(arena).edges + 5 * old(s).len() + 3) as usize),
{
    let n = s.len();
    let ghost b = arena.edges as int;
    let ghost setup0 = arena.setup@;
    let mut sp: Vec<SumNode> = Vec::new();
    let mut i: usize = 0;
    assert(arena.setup@ =~= setup0 + players_setup(b, place, team, 0));
    while i < n
        invariant
            i <= n,
            arena.wf(),
            arena.edges == b + 4 * i,
            arena.setup@ == setup0 + players_setup(b, place, team, i as int),
            s.len() == n,
            perf.len() == n,
            p.len() == n,
            sp.len() == i,
            forall|x: int|
                0 <= x < i ==> (#[trigger] s[x]).edges@ == seq![
                    (b + 4 * x) as usize,
                    (b + 4 * x + 1) as usize,
                ],
            forall|x: int| 0 <= x < i ==> (#[trigger] perf[x]).edges@ == seq![(b + 4 * x + 2) as usize],
            forall|x: int| 0 <= x < i ==> (#[trigger] p[x]).edges@ == seq![(b + 4 * x + 3) as usize],
            forall|x: int|
                0 <= x < i ==> (#[trigger] sp[x]).out_edge == b + 4 * x + 3 && sp[x].sum_edges@
                    == seq![(b + 4 * x + 1) as usize, (b + 4 * x + 2) as usize],
            forall|x: int| i <= x < n ==> (#[trigger] s[x]).edges@.len() == 0,
            forall|x: int| i <= x < n ==> (#[trigger] perf[x]).edges@.len() == 0,
            forall|x: int| i <= x < n ==> (#[trigger] p[x]).edges@.len() == 0,
        decreases n - i,
    {
        let ghost before = arena.setup@;
        let prior = s[i].add_edge(arena);
        arena.setup.push(Op::Copy { dst: Slot::Up(prior), src: Slot::Rating(place, team, i) });
        let sum = SumNode::pair(arena, &mut p[i], &mut s[i], &mut perf[i]);
        let noise = sum.sum_edges[1];
        arena.setup.push(Op::Load { dst: Slot::Down(noise), value: Seed::Noise });
        proof {
            assert(sum.sum_edges@ =~= seq![(b + 4 * i + 1) as usize, (b + 4 * i + 2) as usize]);
            assert(arena.setup@ =~= before + player_setup(b + 4 * i, place, team, i as int));
            assert(s[i as int].edges@ =~= seq![(b + 4 * i) as usize, (b + 4 * i + 1) as usize]);
            assert(perf[i as int].edges@ =~= seq![(b + 4 * i + 2) as usize]);
            assert(p[i as int].edges@ =~= seq![(b + 4 * i + 3) as usize]);
            assert(arena.setup@ =~= setup0 + players_setup(b, place, team, i + 1));
        }
        sp.push(sum);
        i += 1;
    }
    let ghost setup1 = arena.setup@;
    let ghost p1 = p@;
    let pt = SumNode::new(arena, t, p);
    proof {
        lemma_products_grown(p1, b + 4 * n, n as int);
        assert forall|x: int| 0 <= x < n implies pt.sum_edges@[x] == b + 4 * n + x && (
        #[trigger] p[x]).edges@ == seq![(b + 4 * x + 3) as usize, (b + 4 * n + x) as usize] by {
            lemma_products_grown(p1, b + 4 * n, x);
            assert(p[x].edges@ =~= p1[x].edges@.push(pt.sum_edges@[x]));
        }
        assert forall|x: int| 0 <= x < n implies #[trigger] pt.sum_edges@[x] == b + 4 * n + x by {
            assert(p[x].edges@ == seq![(b + 4 * x + 3) as usize, (b + 4 * n + x) as usize]);
            lemma_products_grown(p1, b + 4 * n, x);
        }
        lemma_products_welcomed(p1, pt.sum_edges@, b + 4 * n, n as int);
        assert(pt.sum_edges@ =~= Seq::new(n as nat, |x: int| (b + 4 * n + x) as usize));
        assert(links_setup(b + 4 * n, n + 1) == links_setup(b + 4 * n, n as int) + fresh_edge(
            (b + 5 * n) as usize,
            Seed::One,
            Seed::Zero,
        ));
        assert(arena.setup@ =~= setup1 + links_setup(b + 4 * n, n + 1));
    }
    let mut u = LeqNode::new(EPS, arena);
    let tul = SumNode::pair(arena, l, t, &mut u);
    proof {
        assert(t.edges@ =~= seq![(b + 5 * n) as usize, (b + 5 * n + 2) as usize]);
        assert(tul.sum_edges@ =~= seq![(b + 5 * n + 2) as usize, (b + 5 * n + 1) as usize]);
        assert(links_setup(b + 5 * n + 2, 2) =~= fresh_edge(
            (b + 5 * n + 2) as usize,
            Seed::One,
            Seed::Zero,
        ) + fresh_edge((b + 5 * n + 3) as usize, Seed::One, Seed::Zero)) by {
            assert(links_setup(b + 5 * n + 2, 2) == links_setup(b + 5 * n + 2, 1) + fresh_edge(
                (b + 5 * n + 3) as usize,
                Seed::One,
                Seed::Zero,
            ));
            assert(links_setup(b + 5 * n + 2, 1) == links_setup(b + 5 * n + 2, 0) + fresh_edge(
                (b + 5 * n + 2) as usize,
                Seed::One,
                Seed::Zero,
            ));
        }
        assert(arena.setup@ =~= setup0 + team_setup(b, n as int, place, team));
    }
    (sp, pt, u, tul)
}

/// The number of players of each team of a place.
pub open spec fn sizes_of(rows: Seq<Vec<ProdNode>>) -> Seq<int> {
    Seq::new(rows.len(), |j: int| rows[j].len() as int)
}

/// The number of edges that the first `count` teams of a place bring.
pub open spec fn teams_span(sizes: Seq<int>, count: int) -> int
    decreases count,
{
    if count <= 0 {
        0
    } else {
        teams_span(sizes, count - 1) + team_span(sizes[count - 1])
    }
}

/// The setup of the first `count` teams of a place whose edges start at `b`.
pub open spec fn teams_setup(b: int, sizes: Seq<int>, place: usize, count: int) -> Seq<Op>
    decreases count,
{
    if count <= 0 {
        Seq::empty()
    } else {
        teams_setup(b, sizes, place, count - 1) + team_setup(
            b + teams_span(sizes, count - 1),
            sizes[count - 1],
            place,
            (count - 1) as usize,
        )
    }
}

/// How the teams of one place are wired when the place's edges start at
/// `b`: team after team, each as `team_wired` says.
pub open spec fn place_wired(
    b: int,
    place: usize,
    s: Seq<Vec<ProdNode>>,
    perf: Seq<Vec<ProdNode>>,
    p: Seq<Vec<ProdNode>>,
    t: Seq<ProdNode>,
    u: Seq<LeqNode>,
    sp: Seq<Vec<SumNode>>,
    pt: Seq<SumNode>,
    tul: Seq<SumNode>,
) -> bool {
    let teams = s.len();
    &&& perf.len() == teams
    &&& p.len() == teams
    &&& t.len() == teams
    &&& u.len() == teams
    &&& sp.len() == teams
    &&& pt.len() == teams
    &&& tul.len() == teams
    &&& forall|j: int|
        0 <= j < teams ==> team_wired(
            b + #[trigger] teams_span(sizes_of(s), j),
            place,
            j as usize,
            s[j]@,
            perf[j]@,
            p[j]@,
            t[j],
            u[j],
            sp[j]@,
            pt[j],
            tul[j],
        )
}

/// The edges that tie a place to its teams, when the place's edges start at
/// `b`.
pub open spec fn place_links(b: int, sizes: Seq<int>) -> Seq<usize> {
    Seq::new(sizes.len(), |j: int| (b + teams_span(sizes, j) + 5 * sizes[j] + 3) as usize)
}

/// Whether none of the nodes of `rows` has an edge yet.
pub open spec fn rows_bare(rows: Seq<Vec<ProdNode>>) -> bool {
    forall|j: int| 0 <= j < rows.len() ==> all_bare(#[trigger] rows[j]@)
}

/// Whether `rows` and `like` have the same numbers of nodes, row by row.
pub open spec fn same_sizes(rows: Seq<Vec<ProdNode>>, like: Seq<Vec<ProdNode>>) -> bool {
    &&& rows.len() == like.len()
    &&& forall|j: int| 0 <= j < rows.len() ==> (#[trigger] rows[j]).len() == like[j].len()
}

/// Wires the teams of one place into the graph, in order, each with a tie
/// margin of its own.
pub fn wire_place(
    arena: &mut Arena,
    s: &mut Vec<Vec<ProdNode>>,
    perf: &mut Vec<Vec<ProdNode>>,
    p: &mut Vec<Vec<ProdNode>>,
    t: &mut Vec<ProdNode>,
    l: &mut ProdNode,
    place: usize,
) -> (wires: (Vec<Vec<SumNode>>, Vec<SumNode>, Vec<LeqNode>, Vec<SumNode>))
    requires
        old(arena).wf(),
        same_sizes(old(perf)@, old(s)@),
        same_sizes(old(p)@, old(s)@),
        old(t).len() == old(s).len(),
        rows_bare(old(s)@),
        rows_bare(old(perf)@),
        rows_bare(old(p)@),
        all_bare(old(t)@),
    ensures
        final(arena).wf(),
        final(arena).edges == old(arena).edges + teams_span(
            sizes_of(old(s)@),
            old(s).len() as int,
        ),
        final(arena).setup@ == old(arena).setup@ + teams_setup(
            old(arena).edges as int,
            sizes_of(old(s)@),
            place,
            old(s).len() as int,
        ),
        sizes_of(final(s)@) == sizes_of(old(s)@),
        place_wired(
            old(arena).edges as int,
            place,
            final(s)@,
            final(perf)@,
            final(p)@,
            final(t)@,
            wires.2@,
            wires.0@,
            wires.1@,
            wires.3@,
        ),
        final(l).edges@ == old(l).edges@ + place_links(old(arena).edges as int, sizes_of(old(s)@)),
{
    let teams = s.len();
    let ghost b = arena.edges as int;
    let ghost setup0 = arena.setup@;
    let ghost sizes = sizes_of(s@);
    let mut sp: Vec<Vec<SumNode>> = Vec::new();
    let mut pt: Vec<SumNode> = Vec::new();
    let mut u: Vec<LeqNode> = Vec::new();
    let mut tul: Vec<SumNode> = Vec::new();
    let mut j: usize = 0;
    assert(arena.setup@ =~= setup0 + teams_setup(b, sizes, place, 0));
    assert(l.edges@ =~= old(l).edges@ + place_links(b, sizes).take(0));
    while j < teams
        invariant
            j <= teams,
            arena.wf(),
            arena.edges == b + teams_span(sizes, j as int),
            arena.setup@ == setup0 + teams_setup(b, sizes, place, j as int),
            sizes.len() == teams,
            sizes_of(s@) == sizes,
            s.len() == teams,
            perf.len() == teams,
            p.len() == teams,
            t.len() == teams,
            sp.len() == j,
            pt.len() == j,
            u.len() == j,
            tul.len() == j,
            forall|x: int|
                0 <= x < j ==> team_wired(
                    b + #[trigger] teams_span(sizes, x),
                    place,
                    x as usize,
                    s[x]@,
                    perf[x]@,
                    p[x]@,
                    t[x],
                    u[x],
                    sp[x]@,
                    pt[x],
                    tul[x],
                ),
            forall|x: int| j <= x < teams ==> (#[trigger] perf[x]).len() == sizes[x],
            forall|x: int| j <= x < teams ==> (#[trigger] p[x]).len() == sizes[x],
            forall|x: int| j <= x < teams ==> all_bare(#[trigger] s[x]@),
            forall|x: int| j <= x < teams ==> all_bare(#[trigger] perf[x]@),
            forall|x: int| j <= x < teams ==> all_bare(#[trigger] p[x]@),
            forall|x: int| j <= x < teams ==> (#[trigger] t[x]).edges@.len() == 0,
            l.edges@ == old(l).edges@ + place_links(b, sizes).take(j as int),
        decreases teams - j,
    {
        let ghost size = s[j as int].len() as int;
        assert(size == sizes[j as int]);
        assert(perf[j as int].len() == sizes[j as int]);
        assert(p[j as int].len() == sizes[j as int]);
        assert(all_bare(s[j as int]@));
        assert(all_bare(perf[j as int]@));
        assert(all_bare(p[j as int]@));
        let ghost s0 = s@;
        let ghost perf0 = perf@;
        let ghost p0 = p@;
        let ghost t0 = t@;
        let wires = wire_team(arena, &mut s[j], &mut perf[j], &mut p[j], &mut t[j], l, place, j);
        sp.push(wires.0);
        pt.push(wires.1);
        u.push(wires.2);
        tul.push(wires.3);
        proof {
            assert(sizes_of(s@) =~= sizes);
            assert(arena.setup@ =~= setup0 + teams_setup(b, sizes, place, j + 1));
            assert(place_links(b, sizes).take(j + 1) =~= place_links(b, sizes).take(j as int).push(
                (b + teams_span(sizes, j as int) + 5 * size + 3) as usize,
            ));
            assert(l.edges@ =~= old(l).edges@ + place_links(b, sizes).take(j + 1));
            assert forall|x: int| 0 <= x < j + 1 implies team_wired(
                b + #[trigger] teams_span(sizes, x),
                place,
                x as usize,
                s[x]@,
                perf[x]@,
                p[x]@,
                t[x],
                u[x],
                sp[x]@,
                pt[x],
                tul[x],
            ) by {
                if x < j {
                    assert(s[x] == s0[x]);
                    assert(perf[x] == perf0[x]);
                    assert(p[x] == p0[x]);
                    assert(t[x] == t0[x]);
                }
            }
        }
        j += 1;
    }
    proof {
        assert(place_links(b, sizes).take(teams as int) =~= place_links(b, sizes));
    }
    (sp, pt, u, tul)
}

/// The factor graph of one contest: for every player a skill `s`, a noise
/// `perf` and a performance `p`; for every team a performance `t` and a tie
/// margin `u`; for every place a performance `l`; between consecutive places
/// a gap `d`; and the sums `sp`, `pt`, `tul`, `ld` that tie them together.
pub struct Graph {
    pub arena: Arena,
    pub s: Vec<Vec<Vec<ProdNode>>>,
    pub perf: Vec<Vec<Vec<ProdNode>>>,
    pub p: Vec<Vec<Vec<ProdNode>>>,
    pub t: Vec<Vec<ProdNode>>,
    pub u: Vec<Vec<LeqNode>>,
    pub l: Vec<ProdNode>,
    pub d: Vec<GreaterNode>,
    pub sp: Vec<Vec<Vec<SumNode>>>,
    pub pt: Vec<Vec<SumNode>>,
    pub tul: Vec<Vec<SumNode>>,
    pub ld: Vec<SumNode>,
}

/// The number of players of each team of each place of a contest.
pub open spec fn shape_of<T>(contest: Seq<Vec<Vec<T>>>) -> Seq<Seq<int>> {
    Seq::new(
        contest.len(),
        |k: int| Seq::new(contest[k]@.len(), |j: int| contest[k][j]@.len() as int),
    )
}

/// The number of the first edge of place `k`: every place before it has
/// brought the edges of its teams, and every place but the first three more
/// that tie it to the place above.
pub open spec fn place_base(shape: Seq<Seq<int>>, k: int) -> int
    decreases k,
{
    if k <= 0 {
        0
    } else {
        place_base(shape, k - 1) + teams_span(shape[k - 1], shape[k - 1].len() as int) + if k - 1
            >= 1 {
            3int
        } else {
            0int
        }
    }
}

/// The number of the first edge behind the teams of place `k`.
pub open spec fn chain_base(shape: Seq<Seq<int>>, k: int) -> int {
    place_base(shape, k) + teams_span(shape[k], shape[k].len() as int)
}

/// The setup of the three edges, numbered from `c` on, that tie a place to
/// the place above it: that of the gap, that of the place itself, that of
/// the place above.
pub open spec fn chain_setup(c: int) -> Seq<Op> {
    fresh_edge(c as usize, Seed::Zero, Seed::Zero) + fresh_edge(
        (c + 1) as usize,
        Seed::One,
        Seed::Zero,
    ) + fresh_edge((c + 2) as usize, Seed::One, Seed::Zero)
}

/// The setup of the first `k` places of a contest.
pub open spec fn places_setup(shape: Seq<Seq<int>>, k: int) -> Seq<Op>
    decreases k,
{
    if k <= 0 {
        Seq::empty()
    } else {
        places_setup(shape, k - 1) + teams_setup(
            place_base(shape, k - 1),
            shape[k - 1],
            (k - 1) as usize,
            shape[k - 1].len() as int,
        ) + if k - 1 >= 1 {
            chain_setup(chain_base(shape, k - 1))
        } else {
            Seq::empty()
        }
    }
}

/// The edges of place `k` once its own teams and the place above are wired:
/// one to each of its teams, then, unless it is the first place, one to the
/// constraint that ties it to the place above.
pub open spec fn place_edges_below(shape: Seq<Seq<int>>, k: int) -> Seq<usize> {
    place_links(place_base(shape, k), shape[k]) + if k >= 1 {
        seq![(chain_base(shape, k) + 1) as usize]
    } else {
        Seq::empty()
    }
}

/// The edges of place `k` of the finished graph: those of
/// `place_edges_below`, then, unless it is the last place, one to the
/// constraint that ties it to the place below.
pub open spec fn place_edges(shape: Seq<Seq<int>>, k: int) -> Seq<usize> {
    place_edges_below(shape, k) + if k + 1 < shape.len() {
        seq![(chain_base(shape, k + 1) + 2) as usize]
    } else {
        Seq::empty()
    }
}

impl Graph {
    /// Whether this is the graph of a contest of the given shape. Edges are
    /// numbered in the order in which they are made: place by place, within
    /// a place team by team as `team_wired` says, and after the teams of
    /// every place but the first the three edges of the constraint "place
    /// above = this place + gap", the gap's own first. Every tie margin and
    /// every gap has an edge of its own.
    pub open spec fn wired(&self, shape: Seq<Seq<int>>) -> bool {
        let places = shape.len();
        &&& self.arena.wf()
        &&& self.arena.edges == place_base(shape, places as int)
        &&& self.arena.setup@ == places_setup(shape, places as int)
        &&& self.s.len() == places
        &&& self.perf.len() == places
        &&& self.p.len() == places
        &&& self.t.len() == places
        &&& self.u.len() == places
        &&& self.l.len() == places
        &&& self.sp.len() == places
        &&& self.pt.len() == places
        &&& self.tul.len() == places
        &&& self.d.len() + 1 == places || (places == 0 && self.d.len() == 0)
        &&& self.ld.len() == self.d.len()
        &&& forall|k: int| 0 <= k < places ==> sizes_of(#[trigger] self.s[k]@) == shape[k]
        &&& forall|k: int|
            0 <= k < places ==> place_wired(
                #[trigger] place_base(shape, k),
                k as usize,
                self.s[k]@,
                self.perf[k]@,
                self.p[k]@,
                self.t[k]@,
                self.u[k]@,
                self.sp[k]@,
                self.pt[k]@,
                self.tul[k]@,
            )
        &&& forall|k: int| 0 <= k < places ==> (#[trigger] self.l[k]).edges@ == place_edges(shape, k)
        &&& forall|k: int|
            0 <= k < self.d.len() ==> #[trigger] self.d[k] == (GreaterNode {
                eps: GAP,
                edge: chain_base(shape, k + 1) as usize,
            })
        &&& forall|k: int|
            0 <= k < self.ld.len() ==> (#[trigger] self.ld[k]).out_edge == chain_base(shape, k + 1)
                + 2 && self.ld[k].sum_edges@ == seq![
                (chain_base(shape, k + 1) + 1) as usize,
                chain_base(shape, k + 1) as usize,
            ]
    }

    /// Builds the factor graph of `contest`: a list of places, each a list of
    /// tied teams, each a list of players.
    pub fn assemble<T>(contest: &Vec<Vec<Vec<T>>>) -> (graph: Graph)
        ensures
            graph.wired(shape_of(contest@)),
            graph.well_formed(),
    {
        let places = contest.len();
        let ghost shape = shape_of(contest@);
        let mut arena = Arena::new();
        let mut s = gen_player_message(contest, &ProdNode::new());
        let mut perf = gen_player_message(contest, &ProdNode::new());
        let mut p = gen_player_message(contest, &ProdNode::new());
        let mut t = gen_team_message(contest, &ProdNode::new());
        let mut u: Vec<Vec<LeqNode>> = Vec::new();
        let mut l: Vec<ProdNode> = Vec::new();
        let mut d: Vec<GreaterNode> = Vec::new();
        let mut sp: Vec<Vec<Vec<SumNode>>> = Vec::new();
        let mut pt: Vec<Vec<SumNode>> = Vec::new();
        let mut tul: Vec<Vec<SumNode>> = Vec::new();
        let mut ld: Vec<SumNode> = Vec::new();
        // the place above the one that is being wired, once there is one
        let mut above = ProdNode::new();
        let mut k: usize = 0;
        proof {
            assert forall|x: int| 0 <= x < places implies sizes_of(#[trigger] s[x]@) == shape[x] by {
                assert(sizes_of(s[x]@) =~= shape[x]);
            }
            assert(arena.setup@ =~= places_setup(shape, 0));
        }
        while k < places
            invariant
                k <= places,
                places == contest.len(),
                shape == shape_of(contest@),
                arena.wf(),
                arena.edges == place_base(shape, k as int),
                arena.setup@ == places_setup(shape, k as int),
                s.len() == places,
                perf.len() == places,
                p.len() == places,
                t.len() == places,
                u.len() == k,
                sp.len() == k,
                pt.len() == k,
                tul.len() == k,
                l.len() + 1 == k || (k == 0 && l.len() == 0),
                d.len() == l.len(),
                ld.len() == l.len(),
                forall|x: int| 0 <= x < places ==> sizes_of(#[trigger] s[x]@) == shape[x],
                forall|x: int| k <= x < places ==> same_sizes(#[trigger] perf[x]@, s[x]@),
                forall|x: int| k <= x < places ==> same_sizes(#[trigger] p[x]@, s[x]@),
                forall|x: int| k <= x < places ==> (#[trigger] t[x]).len() == s[x].len(),
                forall|x: int| k <= x < places ==> rows_bare(#[trigger] s[x]@),
                forall|x: int| k <= x < places ==> rows_bare(#[trigger] perf[x]@),
                forall|x: int| k <= x < places ==> rows_bare(#[trigger] p[x]@),
                forall|x: int| k <= x < places ==> all_bare(#[trigger] t[x]@),
                forall|x: int|
                    0 <= x < k ==> place_wired(
                        #[trigger] place_base(shape, x),
                        x as usize,
                        s[x]@,
                        perf[x]@,
                        p[x]@,
                        t[x]@,
                        u[x]@,
                        sp[x]@,
                        pt[x]@,
                        tul[x]@,
                    ),
                forall|x: int| 0 <= x < l.len() ==> (#[trigger] l[x]).edges@ == place_edges(shape, x),
                k >= 1 ==> above.edges@ == place_edges_below(shape, k - 1),
                forall|x: int|
                    0 <= x < d.len() ==> #[trigger] d[x] == (GreaterNode {
                        eps: GAP,
                        edge: chain_base(shape, x + 1) as usize,
                    }),
                forall|x: int|
                    0 <= x < ld.len() ==> (#[trigger] ld[x]).out_edge == chain_base(shape, x + 1)
                        + 2 && ld[x].sum_edges@ == seq![
                        (chain_base(shape, x + 1) + 1) as usize,
                        chain_base(shape, x + 1) as usize,
                    ],
            decreases places - k,
        {
            let ghost s0 = s@;
            let ghost perf0 = perf@;
            let ghost p0 = p@;
            let ghost t0 = t@;
            let ghost setup0 = arena.setup@;
            proof {
                assert(same_sizes(perf[k as int]@, s[k as int]@));
                assert(same_sizes(p[k as int]@, s[k as int]@));
                assert(rows_bare(s[k as int]@));
                assert(rows_bare(perf[k as int]@));
                assert(rows_bare(p[k as int]@));
                assert(all_bare(t[k as int]@));
                assert(sizes_of(s[k as int]@) == shape[k as int]);
            }
            let mut here = ProdNode::new();
            let wires = wire_place(
                &mut arena,
                &mut s[k],
                &mut perf[k],
                &mut p[k],
                &mut t[k],
                &mut here,
                k,
            );
            sp.push(wires.0);
            pt.push(wires.1);
            u.push(wires.2);
            tul.push(wires.3);
            proof {
                assert(arena.edges == chain_base(shape, k as int));
                assert(here.edges@ =~= place_links(place_base(shape, k as int), shape[k as int]));
            }
            if k != 0 {
                let mut gap = GreaterNode::new(GAP, &mut arena);
                let sum = SumNode::pair(&mut arena, &mut above, &mut here, &mut gap);
                proof {
                    let c = chain_base(shape, k as int);
                    assert(arena.setup@ =~= setup0 + teams_setup(
                        place_base(shape, k as int),
                        shape[k as int],
                        k,
                        shape[k as int].len() as int,
                    ) + chain_setup(c));
                    assert(here.edges@ =~= place_edges_below(shape, k as int));
                    assert(above.edges@ =~= place_edges(shape, k - 1));
                    assert(sum.sum_edges@ =~= seq![(c + 1) as usize, c as usize]);
                }
                ld.push(sum);
                d.push(gap);
                l.push(above);
            } else {
                proof {
                    assert(arena.setup@ =~= setup0 + teams_setup(
                        place_base(shape, k as int),
                        shape[k as int],
                        k,
                        shape[k as int].len() as int,
                    ) + Seq::<Op>::empty());
                    assert(here.edges@ =~= place_edges_below(shape, k as int));
                }
            }
            above = here;
            proof {
                assert forall|x: int| 0 <= x < places implies sizes_of(#[trigger] s[x]@)
                    == shape[x] by {
                    if x != k {
                        assert(s[x] == s0[x]);
                    }
                }
                assert forall|x: int| 0 <= x < k + 1 implies place_wired(
                    #[trigger] place_base(shape, x),
                    x as usize,
                    s[x]@,
                    perf[x]@,
                    p[x]@,
                    t[x]@,
                    u[x]@,
                    sp[x]@,
                    pt[x]@,
                    tul[x]@,
                ) by {
                    if x < k {
                        assert(s[x] == s0[x]);
                        assert(perf[x] == perf0[x]);
                        assert(p[x] == p0[x]);
                        assert(t[x] == t0[x]);
                    }
                }
            }
            k += 1;
        }
        if places != 0 {
            proof {
                assert(above.edges@ =~= place_edges(shape, places - 1));
            }
            l.push(above);
        }
        let graph = Graph { arena, s, perf, p, t, u, l, d, sp, pt, tul, ld };
        proof {
            lemma_wired_well_formed(graph, shape);
        }
        graph
    }
}

} // verus!
