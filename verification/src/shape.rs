use vstd::prelude::*;
use crate::graph::{
    chain_base, place_base, place_edges, place_links, place_wired, team_span, team_wired,
    teams_span, Graph,
};
use crate::nodes::{LeqNode, ProdNode, SumNode};

verus! {

/// Whether no team of the shape has a negative number of players.
pub open spec fn natural(shape: Seq<Seq<int>>) -> bool {
    forall|k: int, j: int| 0 <= k < shape.len() && 0 <= j < shape[k].len() ==> #[trigger] shape[k][j] >= 0
}

/// Whether every one of `edges` has a number below `bound`.
pub open spec fn below(edges: Seq<usize>, bound: usize) -> bool {
    forall|x: int| 0 <= x < edges.len() ==> #[trigger] edges[x] < bound
}

/// Whether every edge of every node of `row` has a number below `bound`.
pub open spec fn nodes_below(row: Seq<ProdNode>, bound: usize) -> bool {
    forall|i: int| 0 <= i < row.len() ==> below((#[trigger] row[i]).edges@, bound)
}

/// Whether the edges of a sum node can tell its inputs from each other and
/// from its output: no two of them are the same.
pub open spec fn sound(sum: SumNode) -> bool {
    &&& sum.sum_edges@.no_duplicates()
    &&& !sum.sum_edges@.contains(sum.out_edge)
}

/// Whether every sum node of `row` is sound and has all its edges below
/// `bound`.
pub open spec fn sums_sound(row: Seq<SumNode>, bound: usize) -> bool {
    forall|i: int|
        0 <= i < row.len() ==> sound(#[trigger] row[i]) && row[i].out_edge < bound && below(
            row[i].sum_edges@,
            bound,
        )
}

impl Graph {
    /// Whether every edge that a node of the graph names has been made, and
    /// every sum node is sound.
    pub open spec fn well_formed(&self) -> bool {
        let bound = self.arena.edges;
        &&& forall|k: int, j: int|
            0 <= k < self.s.len() && 0 <= j < self.s[k].len() ==> nodes_below(
                #[trigger] self.s[k][j]@,
                bound,
            )
        &&& forall|k: int, j: int|
            0 <= k < self.perf.len() && 0 <= j < self.perf[k].len() ==> nodes_below(
                #[trigger] self.perf[k][j]@,
                bound,
            )
        &&& forall|k: int, j: int|
            0 <= k < self.p.len() && 0 <= j < self.p[k].len() ==> nodes_below(
                #[trigger] self.p[k][j]@,
                bound,
            )
        &&& forall|k: int| 0 <= k < self.t.len() ==> nodes_below(#[trigger] self.t[k]@, bound)
        &&& forall|k: int, j: int|
            0 <= k < self.u.len() && 0 <= j < self.u[k].len() ==> (#[trigger] self.u[k][j]).edge
                < bound
        &&& nodes_below(self.l@, bound)
        &&& forall|k: int| 0 <= k < self.d.len() ==> (#[trigger] self.d[k]).edge < bound
        &&& forall|k: int, j: int|
            0 <= k < self.sp.len() && 0 <= j < self.sp[k].len() ==> sums_sound(
                #[trigger] self.sp[k][j]@,
                bound,
            )
        &&& forall|k: int| 0 <= k < self.pt.len() ==> sums_sound(#[trigger] self.pt[k]@, bound)
        &&& forall|k: int| 0 <= k < self.tul.len() ==> sums_sound(#[trigger] self.tul[k]@, bound)
        &&& sums_sound(self.ld@, bound)
    }
}

/// The edges of the teams of a place are numbered upwards: what the first
/// `a` teams take, the first `b >= a` teams take at least.
pub proof fn lemma_teams_span_grows(sizes: Seq<int>, a: int, b: int)
    requires
        0 <= a <= b <= sizes.len(),
        forall|j: int| 0 <= j < sizes.len() ==> #[trigger] sizes[j] >= 0,
    ensures
        0 <= teams_span(sizes, a) <= teams_span(sizes, b),
        a < b ==> teams_span(sizes, a) + team_span(sizes[a]) <= teams_span(sizes, b),
    decreases b,
{
    if b > 0 {
        if a < b {
            lemma_teams_span_grows(sizes, a, b - 1);
        } else {
            lemma_teams_span_grows(sizes, b - 1, b - 1);
        }
    }
}

/// The edges of the places are numbered upwards: a later place starts
/// behind all the edges of place `a`.
pub proof fn lemma_place_base_grows(shape: Seq<Seq<int>>, a: int, b: int)
    requires
        0 <= a <= b <= shape.len(),
        natural(shape),
    ensures
        0 <= place_base(shape, a) <= place_base(shape, b),
        a < b ==> chain_base(shape, a) + (if a >= 1 {
            3int
        } else {
            0int
        }) <= place_base(shape, b),
    decreases b,
{
    if b > 0 {
        assert forall|j: int| 0 <= j < shape[b - 1].len() implies #[trigger] shape[b - 1][j]
            >= 0 by {}
        lemma_teams_span_grows(shape[b - 1], 0, shape[b - 1].len() as int);
        if a < b {
            lemma_place_base_grows(shape, a, b - 1);
        } else {
            lemma_place_base_grows(shape, b - 1, b - 1);
        }
    }
}

/// A team that is wired names only edges of its own block, and its sum
/// nodes are sound.
pub proof fn lemma_team_well_formed(
    b: int,
    place: usize,
    team: usize,
    s: Seq<ProdNode>,
    perf: Seq<ProdNode>,
    p: Seq<ProdNode>,
    t: ProdNode,
    u: LeqNode,
    sp: Seq<SumNode>,
    pt: SumNode,
    tul: SumNode,
    bound: usize,
)
    requires
        team_wired(b, place, team, s, perf, p, t, u, sp, pt, tul),
        0 <= b,
        b + team_span(s.len() as int) <= bound,
    ensures
        u.edge < bound,
        nodes_below(s, bound),
        nodes_below(perf, bound),
        nodes_below(p, bound),
        below(t.edges@, bound),
        sums_sound(sp, bound),
        sound(pt),
        pt.out_edge < bound,
        below(pt.sum_edges@, bound),
        sound(tul),
        tul.out_edge < bound,
        below(tul.sum_edges@, bound),
{
    let n = s.len() as int;
    assert forall|i: int| 0 <= i < n implies below((#[trigger] s[i]).edges@, bound) by {
        assert(s[i].edges@ == seq![(b + 4 * i) as usize, (b + 4 * i + 1) as usize]);
    }
    assert forall|i: int| 0 <= i < n implies below((#[trigger] perf[i]).edges@, bound) by {
        assert(perf[i].edges@ == seq![(b + 4 * i + 2) as usize]);
    }
    assert forall|i: int| 0 <= i < n implies below((#[trigger] p[i]).edges@, bound) by {
        assert(p[i].edges@ == seq![(b + 4 * i + 3) as usize, (b + 4 * n + i) as usize]);
    }
    assert forall|i: int| 0 <= i < n implies sound(#[trigger] sp[i]) && sp[i].out_edge < bound
        && below(sp[i].sum_edges@, bound) by {
        assert(sp[i].sum_edges@ == seq![(b + 4 * i + 1) as usize, (b + 4 * i + 2) as usize]);
    }
    assert(t.edges@ == seq![(b + 5 * n) as usize, (b + 5 * n + 2) as usize]);
    assert(tul.sum_edges@ == seq![(b + 5 * n + 2) as usize, (b + 5 * n + 1) as usize]);
}

/// The graph of a contest is well formed: every edge that a node names has
/// been made, and no sum node names an edge twice.
pub proof fn lemma_wired_well_formed(graph: Graph, shape: Seq<Seq<int>>)
    requires
        graph.wired(shape),
        natural(shape),
    ensures
        graph.well_formed(),
{
    lemma_players_well_formed(graph, shape);
    lemma_teams_well_formed(graph, shape);
    lemma_places_well_formed(graph, shape);
}

/// In the graph of a contest, every place has as many rows of nodes of each
/// kind as it has teams.
proof fn lemma_rows(graph: Graph, shape: Seq<Seq<int>>, k: int)
    requires
        graph.wired(shape),
        0 <= k < shape.len(),
    ensures
        graph.s[k].len() == shape[k].len(),
        graph.perf[k].len() == shape[k].len(),
        graph.p[k].len() == shape[k].len(),
        graph.t[k].len() == shape[k].len(),
        graph.u[k].len() == shape[k].len(),
        graph.sp[k].len() == shape[k].len(),
        graph.pt[k].len() == shape[k].len(),
        graph.tul[k].len() == shape[k].len(),
{
    assert(crate::graph::sizes_of(graph.s[k]@) == shape[k]);
    assert(place_wired(
        place_base(shape, k),
        k as usize,
        graph.s[k]@,
        graph.perf[k]@,
        graph.p[k]@,
        graph.t[k]@,
        graph.u[k]@,
        graph.sp[k]@,
        graph.pt[k]@,
        graph.tul[k]@,
    ));
}

proof fn lemma_players_well_formed(graph: Graph, shape: Seq<Seq<int>>)
    requires
        graph.wired(shape),
        natural(shape),
    ensures
        forall|k: int, j: int|
            0 <= k < graph.s.len() && 0 <= j < graph.s[k].len() ==> nodes_below(
                #[trigger] graph.s[k][j]@,
                graph.arena.edges,
            ),
        forall|k: int, j: int|
            0 <= k < graph.perf.len() && 0 <= j < graph.perf[k].len() ==> nodes_below(
                #[trigger] graph.perf[k][j]@,
                graph.arena.edges,
            ),
        forall|k: int, j: int|
            0 <= k < graph.p.len() && 0 <= j < graph.p[k].len() ==> nodes_below(
                #[trigger] graph.p[k][j]@,
                graph.arena.edges,
            ),
        forall|k: int, j: int|
            0 <= k < graph.sp.len() && 0 <= j < graph.sp[k].len() ==> sums_sound(
                #[trigger] graph.sp[k][j]@,
                graph.arena.edges,
            ),
{
    assert forall|k: int, j: int|
        0 <= k < graph.s.len() && 0 <= j < graph.s[k].len() implies nodes_below(
        #[trigger] graph.s[k][j]@,
        graph.arena.edges,
    ) by {
        lemma_rows(graph, shape, k);
        lemma_in_team(graph, shape, k, j);
    }
    assert forall|k: int, j: int|
        0 <= k < graph.perf.len() && 0 <= j < graph.perf[k].len() implies nodes_below(
        #[trigger] graph.perf[k][j]@,
        graph.arena.edges,
    ) by {
        lemma_rows(graph, shape, k);
        lemma_in_team(graph, shape, k, j);
    }
    assert forall|k: int, j: int|
        0 <= k < graph.p.len() && 0 <= j < graph.p[k].len() implies nodes_below(
        #[trigger] graph.p[k][j]@,
        graph.arena.edges,
    ) by {
        lemma_rows(graph, shape, k);
        lemma_in_team(graph, shape, k, j);
    }
    assert forall|k: int, j: int|
        0 <= k < graph.sp.len() && 0 <= j < graph.sp[k].len() implies sums_sound(
        #[trigger] graph.sp[k][j]@,
        graph.arena.edges,
    ) by {
        lemma_rows(graph, shape, k);
        lemma_in_team(graph, shape, k, j);
    }
}

proof fn lemma_teams_well_formed(graph: Graph, shape: Seq<Seq<int>>)
    requires
        graph.wired(shape),
        natural(shape),
    ensures
        forall|k: int| 0 <= k < graph.t.len() ==> nodes_below(#[trigger] graph.t[k]@, graph.arena.edges),
        forall|k: int, j: int|
            0 <= k < graph.u.len() && 0 <= j < graph.u[k].len() ==> (#[trigger] graph.u[k][j]).edge
                < graph.arena.edges,
        forall|k: int|
            0 <= k < graph.pt.len() ==> sums_sound(#[trigger] graph.pt[k]@, graph.arena.edges),
        forall|k: int|
            0 <= k < graph.tul.len() ==> sums_sound(#[trigger] graph.tul[k]@, graph.arena.edges),
{
    lemma_place_base_grows(shape, 0, shape.len() as int);
    assert forall|k: int| 0 <= k < graph.t.len() implies nodes_below(
        #[trigger] graph.t[k]@,
        graph.arena.edges,
    ) by {
        lemma_rows(graph, shape, k);
        assert forall|j: int| 0 <= j < graph.t[k]@.len() implies below(
            (#[trigger] graph.t[k]@[j]).edges@,
            graph.arena.edges,
        ) by {
            lemma_in_team(graph, shape, k, j);
        }
    }
    assert forall|k: int, j: int|
        0 <= k < graph.u.len() && 0 <= j < graph.u[k].len() implies (#[trigger] graph.u[k][j]).edge
        < graph.arena.edges by {
        lemma_rows(graph, shape, k);
        lemma_in_team(graph, shape, k, j);
    }
    assert forall|k: int| 0 <= k < graph.pt.len() implies sums_sound(
        #[trigger] graph.pt[k]@,
        graph.arena.edges,
    ) by {
        lemma_rows(graph, shape, k);
        assert forall|j: int| 0 <= j < graph.pt[k]@.len() implies sound(#[trigger] graph.pt[k]@[j])
            && graph.pt[k]@[j].out_edge < graph.arena.edges && below(
            graph.pt[k]@[j].sum_edges@,
            graph.arena.edges,
        ) by {
            lemma_in_team(graph, shape, k, j);
        }
    }
    assert forall|k: int| 0 <= k < graph.tul.len() implies sums_sound(
        #[trigger] graph.tul[k]@,
        graph.arena.edges,
    ) by {
        lemma_rows(graph, shape, k);
        assert forall|j: int|
            0 <= j < graph.tul[k]@.len() implies sound(#[trigger] graph.tul[k]@[j])
            && graph.tul[k]@[j].out_edge < graph.arena.edges && below(
            graph.tul[k]@[j].sum_edges@,
            graph.arena.edges,
        ) by {
            lemma_in_team(graph, shape, k, j);
        }
    }
}

proof fn lemma_places_well_formed(graph: Graph, shape: Seq<Seq<int>>)
    requires
        graph.wired(shape),
        natural(shape),
    ensures
        nodes_below(graph.l@, graph.arena.edges),
        forall|k: int| 0 <= k < graph.d.len() ==> (#[trigger] graph.d[k]).edge < graph.arena.edges,
        sums_sound(graph.ld@, graph.arena.edges),
{
    let places = shape.len() as int;
    let bound = graph.arena.edges;
    lemma_place_base_grows(shape, 0, places);
    assert forall|k: int| 0 <= k < graph.l@.len() implies below(
        (#[trigger] graph.l@[k]).edges@,
        bound,
    ) by {
        lemma_place_in_range(graph, shape, k);
    }
    assert forall|k: int| 0 <= k < graph.ld@.len() implies sound(#[trigger] graph.ld@[k])
        && graph.ld@[k].out_edge < bound && below(graph.ld@[k].sum_edges@, bound) by {
        lemma_place_base_grows(shape, k + 1, places);
        lemma_place_base_grows(shape, 0, k + 1);
        assert forall|j: int| 0 <= j < shape[k + 1].len() implies #[trigger] shape[k + 1][j]
            >= 0 by {}
        lemma_teams_span_grows(shape[k + 1], 0, shape[k + 1].len() as int);
        assert(graph.ld[k].sum_edges@ == seq![
            (chain_base(shape, k + 1) + 1) as usize,
            chain_base(shape, k + 1) as usize,
        ]);
    }
    assert forall|k: int| 0 <= k < graph.d.len() implies (#[trigger] graph.d[k]).edge
        < bound by {
        lemma_place_base_grows(shape, k + 1, places);
        lemma_place_base_grows(shape, 0, k + 1);
        assert forall|j: int| 0 <= j < shape[k + 1].len() implies #[trigger] shape[k + 1][j]
            >= 0 by {}
        lemma_teams_span_grows(shape[k + 1], 0, shape[k + 1].len() as int);
    }
}

proof fn lemma_place_in_range(graph: Graph, shape: Seq<Seq<int>>, k: int)
    requires
        graph.wired(shape),
        natural(shape),
        0 <= k < shape.len(),
    ensures
        below(graph.l[k].edges@, graph.arena.edges),
{
    let places = shape.len() as int;
    let bound = graph.arena.edges;
    let links = place_links(place_base(shape, k), shape[k]);
    let edges = place_edges(shape, k);
    assert(graph.l[k].edges@ == edges);
    lemma_place_base_grows(shape, k, places);
    lemma_place_base_grows(shape, 0, k);
    assert forall|j: int| 0 <= j < shape[k].len() implies #[trigger] shape[k][j] >= 0 by {}
    lemma_teams_span_grows(shape[k], 0, shape[k].len() as int);
    if k + 1 < places {
        lemma_place_base_grows(shape, k + 1, places);
        lemma_place_base_grows(shape, 0, k + 1);
        assert forall|j: int| 0 <= j < shape[k + 1].len() implies #[trigger] shape[k + 1][j]
            >= 0 by {}
        lemma_teams_span_grows(shape[k + 1], 0, shape[k + 1].len() as int);
    }
    assert forall|x: int| 0 <= x < edges.len() implies #[trigger] edges[x] < bound by {
        if x < links.len() {
            lemma_in_team(graph, shape, k, x);
            assert(edges[x] == links[x]);
        }
    }
}

/// What `lemma_wired_well_formed` needs of one team.
proof fn lemma_in_team(graph: Graph, shape: Seq<Seq<int>>, k: int, j: int)
    requires
        graph.wired(shape),
        natural(shape),
        0 <= k < shape.len(),
        0 <= j < shape[k].len(),
    ensures
        nodes_below(graph.s[k][j]@, graph.arena.edges),
        nodes_below(graph.perf[k][j]@, graph.arena.edges),
        nodes_below(graph.p[k][j]@, graph.arena.edges),
        below(graph.t[k][j].edges@, graph.arena.edges),
        sums_sound(graph.sp[k][j]@, graph.arena.edges),
        sound(graph.pt[k][j]),
        graph.pt[k][j].out_edge < graph.arena.edges,
        below(graph.pt[k][j].sum_edges@, graph.arena.edges),
        sound(graph.tul[k][j]),
        graph.tul[k][j].out_edge < graph.arena.edges,
        below(graph.tul[k][j].sum_edges@, graph.arena.edges),
        graph.u[k][j].edge < graph.arena.edges,
        place_links(place_base(shape, k), shape[k])[j] < graph.arena.edges,
{
    let places = shape.len() as int;
    let base = place_base(shape, k);
    let sizes = crate::graph::sizes_of(graph.s[k]@);
    assert(sizes == shape[k]);
    assert(sizes[j] == graph.s[k][j]@.len());
    assert forall|x: int| 0 <= x < sizes.len() implies #[trigger] sizes[x] >= 0 by {
        assert(shape[k][x] >= 0);
    }
    lemma_teams_span_grows(sizes, j, sizes.len() as int);
    lemma_place_base_grows(shape, k, places);
    assert(place_wired(
        base,
        k as usize,
        graph.s[k]@,
        graph.perf[k]@,
        graph.p[k]@,
        graph.t[k]@,
        graph.u[k]@,
        graph.sp[k]@,
        graph.pt[k]@,
        graph.tul[k]@,
    ));
    let b = base + teams_span(sizes, j);
    assert(team_wired(
        b,
        k as usize,
        j as usize,
        graph.s[k][j]@,
        graph.perf[k][j]@,
        graph.p[k][j]@,
        graph.t[k][j],
        graph.u[k][j],
        graph.sp[k][j]@,
        graph.pt[k][j],
        graph.tul[k][j],
    ));
    lemma_team_well_formed(
        b,
        k as usize,
        j as usize,
        graph.s[k][j]@,
        graph.perf[k][j]@,
        graph.p[k][j]@,
        graph.t[k][j],
        graph.u[k][j],
        graph.sp[k][j]@,
        graph.pt[k][j],
        graph.tul[k][j],
        graph.arena.edges,
    );
}

} // verus!
