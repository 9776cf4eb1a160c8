use vstd::prelude::*;
use crate::graph::{shape_of, Graph};
use crate::message::{Op, Slot};
use crate::nodes::ProdNode;
use crate::rating_system::{chain, infer1, infer2, infer3, infer_ld, programs, programs2, programs3};

verus! {

/// Keeps what the last edge of `node` carries, for the comparison after the
/// round.
pub open spec fn keep(node: ProdNode) -> Seq<Op> {
    if node.edges@.len() == 0 {
        Seq::empty()
    } else {
        let e = node.edges@.last();
        seq![
            Op::Copy { dst: Slot::PastUp(e), src: Slot::Up(e) },
            Op::Copy { dst: Slot::PastDown(e), src: Slot::Down(e) },
        ]
    }
}

/// `keep` for each of `row`, in order.
pub open spec fn keeps(row: Seq<ProdNode>) -> Seq<Op>
    decreases row.len(),
{
    if row.len() == 0 {
        Seq::empty()
    } else {
        keeps(row.drop_last()) + keep(row.last())
    }
}

/// `keep` for each node of `rows`, row by row.
pub open spec fn keeps2(rows: Seq<Vec<ProdNode>>) -> Seq<Op>
    decreases rows.len(),
{
    if rows.len() == 0 {
        Seq::empty()
    } else {
        keeps2(rows.drop_last()) + keeps(rows.last()@)
    }
}

/// The last edge of each of `row` that has one, in order.
pub open spec fn watch(row: Seq<ProdNode>) -> Seq<usize>
    decreases row.len(),
{
    if row.len() == 0 {
        Seq::empty()
    } else if row.last().edges@.len() == 0 {
        watch(row.drop_last())
    } else {
        watch(row.drop_last()).push(row.last().edges@.last())
    }
}

/// The last edge of each node of `rows` that has one, row by row.
pub open spec fn watch2(rows: Seq<Vec<ProdNode>>) -> Seq<usize>
    decreases rows.len(),
{
    if rows.len() == 0 {
        Seq::empty()
    } else {
        watch2(rows.drop_last()) + watch(rows.last()@)
    }
}

/// The new rating of the player whose skill is `node`: the rating the
/// player came with, which the first edge brought, times the evidence that
/// went back over it.
pub open spec fn verdict(node: ProdNode, place: usize, team: usize, player: usize) -> Seq<Op> {
    if node.edges@.len() == 0 {
        Seq::empty()
    } else {
        let e = node.edges@[0];
        seq![Op::Prod { dst: Slot::Rating(place, team, player), lhs: Slot::Up(e), rhs: Slot::Down(e) }]
    }
}

/// `verdict` for the first `count` players of a team.
pub open spec fn verdicts(row: Seq<ProdNode>, place: usize, team: usize, count: int) -> Seq<Op>
    decreases count,
{
    if count <= 0 {
        Seq::empty()
    } else {
        verdicts(row, place, team, count - 1) + verdict(
            row[count - 1],
            place,
            team,
            (count - 1) as usize,
        )
    }
}

/// `verdict` for the players of the first `count` teams of a place.
pub open spec fn verdicts2(rows: Seq<Vec<ProdNode>>, place: usize, count: int) -> Seq<Op>
    decreases count,
{
    if count <= 0 {
        Seq::empty()
    } else {
        verdicts2(rows, place, count - 1) + verdicts(
            rows[count - 1]@,
            place,
            (count - 1) as usize,
            rows[count - 1]@.len() as int,
        )
    }
}

/// `verdict` for the players of the first `count` places.
pub open spec fn verdicts3(blocks: Seq<Vec<Vec<ProdNode>>>, count: int) -> Seq<Op>
    decreases count,
{
    if count <= 0 {
        Seq::empty()
    } else {
        verdicts3(blocks, count - 1) + verdicts2(
            blocks[count - 1]@,
            (count - 1) as usize,
            blocks[count - 1]@.len() as int,
        )
    }
}

fn append(code: &mut Vec<Op>, ops: &Vec<Op>)
    ensures
        final(code)@ == old(code)@ + ops@,
{
    let mut i: usize = 0;
    assert(code@ =~= old(code)@ + ops@.take(0));
    while i < ops.len()
        invariant
            i <= ops.len(),
            code@ == old(code)@ + ops@.take(i as int),
        decreases ops.len() - i,
    {
        code.push(ops[i]);
        i += 1;
        assert(code@ =~= old(code)@ + ops@.take(i as int));
    }
    assert(ops@.take(ops.len() as int) =~= ops@);
}

impl Graph {
    /// The sweep from the ratings down to the places: skills, performances,
    /// teams, and twice the constraint that ties each team to its place,
    /// around the tie margins.
    pub open spec fn descent(&self) -> Seq<Op> {
        programs3(self.s@) + programs3(self.sp@) + programs3(self.p@) + programs2(self.pt@)
            + programs2(self.t@) + programs2(self.tul@) + programs2(self.u@) + programs2(
            self.tul@,
        )
    }

    /// One round over the places: what the teams' last edges carry is kept;
    /// then the chain of places down and up, the gaps, the constraints
    /// between places, the places, and twice the constraint that ties each
    /// team to its place, around the tie margins.
    pub open spec fn round(&self) -> Seq<Op> {
        keeps2(self.t@) + chain(self.ld@, self.l@) + programs(self.d@) + programs(self.ld@)
            + programs(self.l@) + programs2(self.tul@) + programs2(self.u@) + programs2(self.tul@)
    }

    /// The sweep from the places back up to the ratings, and the new rating
    /// of every player.
    pub open spec fn ascent(&self) -> Seq<Op> {
        programs2(self.t@) + programs2(self.pt@) + programs3(self.p@) + programs3(self.sp@)
            + programs3(self.s@) + verdicts3(self.s@, self.s@.len() as int)
    }

    /// The edges on which convergence is judged: the last edge of every
    /// team.
    pub open spec fn watched(&self) -> Seq<usize> {
        watch2(self.t@)
    }

    /// Appends `descent` to `code`.
    pub fn descend(&self, code: &mut Vec<Op>)
        ensures
            final(code)@ == old(code)@ + self.descent(),
    {
        infer3(&self.s, code);
        infer3(&self.sp, code);
        infer3(&self.p, code);
        infer2(&self.pt, code);
        infer2(&self.t, code);
        infer2(&self.tul, code);
        infer2(&self.u, code);
        infer2(&self.tul, code);
        assert(code@ =~= old(code)@ + self.descent());
    }

    /// Appends `round` to `code`.
    pub fn iterate(&self, code: &mut Vec<Op>)
        requires
            self.l.len() >= 1,
            self.ld.len() <= self.l.len(),
        ensures
            final(code)@ == old(code)@ + self.round(),
    {
        let mut k: usize = 0;
        assert(self.t@.take(0) =~= Seq::<Vec<ProdNode>>::empty());
        assert(code@ =~= old(code)@ + keeps2(self.t@.take(0)));
        while k < self.t.len()
            invariant
                k <= self.t.len(),
                code@ == old(code)@ + keeps2(self.t@.take(k as int)),
            decreases self.t.len() - k,
        {
            let row = &self.t[k];
            let ghost before = code@;
            let mut j: usize = 0;
            assert(row@.take(0) =~= Seq::<ProdNode>::empty());
            assert(code@ =~= before + keeps(row@.take(0)));
            while j < row.len()
                invariant
                    j <= row.len(),
                    code@ == before + keeps(row@.take(j as int)),
                decreases row.len() - j,
            {
                let edges = row[j].get_edges();
                if edges.len() > 0 {
                    let e = edges[edges.len() - 1];
                    code.push(Op::Copy { dst: Slot::PastUp(e), src: Slot::Up(e) });
                    code.push(Op::Copy { dst: Slot::PastDown(e), src: Slot::Down(e) });
                }
                proof {
                    assert(row@.take(j + 1).drop_last() =~= row@.take(j as int));
                    assert(row@.take(j + 1).last() == row@[j as int]);
                    assert(code@ =~= before + keeps(row@.take(j + 1)));
                }
                j += 1;
            }
            proof {
                assert(row@.take(row.len() as int) =~= row@);
                assert(self.t@.take(k + 1).drop_last() =~= self.t@.take(k as int));
                assert(self.t@.take(k + 1).last() == self.t@[k as int]);
                assert(code@ =~= old(code)@ + keeps2(self.t@.take(k + 1)));
            }
            k += 1;
        }
        assert(self.t@.take(self.t.len() as int) =~= self.t@);
        infer_ld(&self.ld, &self.l, code);
        infer1(&self.d, code);
        infer1(&self.ld, code);
        infer1(&self.l, code);
        infer2(&self.tul, code);
        infer2(&self.u, code);
        infer2(&self.tul, code);
        assert(code@ =~= old(code)@ + self.round());
    }

    /// Appends `ascent` to `code`.
    pub fn ascend(&self, code: &mut Vec<Op>)
        ensures
            final(code)@ == old(code)@ + self.ascent(),
    {
        infer2(&self.t, code);
        infer2(&self.pt, code);
        infer3(&self.p, code);
        infer3(&self.sp, code);
        infer3(&self.s, code);
        let ghost swept = code@;
        let mut k: usize = 0;
        assert(code@ =~= swept + verdicts3(self.s@, 0));
        while k < self.s.len()
            invariant
                k <= self.s.len(),
                code@ == swept + verdicts3(self.s@, k as int),
            decreases self.s.len() - k,
        {
            let rows = &self.s[k];
            let ghost before = code@;
            let mut j: usize = 0;
            assert(code@ =~= before + verdicts2(rows@, k, 0));
            while j < rows.len()
                invariant
                    j <= rows.len(),
                    code@ == before + verdicts2(rows@, k, j as int),
                decreases rows.len() - j,
            {
                let row = &rows[j];
                let ghost start = code@;
                let mut i: usize = 0;
                assert(code@ =~= start + verdicts(row@, k, j, 0));
                while i < row.len()
                    invariant
                        i <= row.len(),
                        code@ == start + verdicts(row@, k, j, i as int),
                    decreases row.len() - i,
                {
                    let edges = row[i].get_edges();
                    if edges.len() > 0 {
                        let e = edges[0];
                        code.push(
                            Op::Prod { dst: Slot::Rating(k, j, i), lhs: Slot::Up(e), rhs: Slot::Down(e) },
                        );
                    }
                    i += 1;
                    assert(code@ =~= start + verdicts(row@, k, j, i as int));
                }
                j += 1;
                assert(code@ =~= before + verdicts2(rows@, k, j as int));
            }
            k += 1;
            assert(code@ =~= swept + verdicts3(self.s@, k as int));
        }
        assert(code@ =~= old(code)@ + self.ascent());
    }

    /// The edges on which convergence is judged.
    pub fn conv(&self) -> (edges: Vec<usize>)
        ensures
            edges@ == self.watched(),
    {
        let mut edges: Vec<usize> = Vec::new();
        let mut k: usize = 0;
        assert(self.t@.take(0) =~= Seq::<Vec<ProdNode>>::empty());
        while k < self.t.len()
            invariant
                k <= self.t.len(),
                edges@ == watch2(self.t@.take(k as int)),
            decreases self.t.len() - k,
        {
            let row = &self.t[k];
            let ghost before = edges@;
            let mut j: usize = 0;
            assert(row@.take(0) =~= Seq::<ProdNode>::empty());
            assert(edges@ =~= before + watch(row@.take(0)));
            while j < row.len()
                invariant
                    j <= row.len(),
                    edges@ == before + watch(row@.take(j as int)),
                decreases row.len() - j,
            {
                let own = row[j].get_edges();
                if own.len() > 0 {
                    edges.push(own[own.len() - 1]);
                }
                proof {
                    assert(row@.take(j + 1).drop_last() =~= row@.take(j as int));
                    assert(row@.take(j + 1).last() == row@[j as int]);
                    assert(edges@ =~= before + watch(row@.take(j + 1)));
                }
                j += 1;
            }
            proof {
                assert(row@.take(row.len() as int) =~= row@);
                assert(self.t@.take(k + 1).drop_last() =~= self.t@.take(k as int));
                assert(self.t@.take(k + 1).last() == self.t@[k as int]);
            }
            k += 1;
        }
        assert(self.t@.take(self.t.len() as int) =~= self.t@);
        edges
    }
}

/// Where the rating of a contest stands.
#[derive(Clone, Copy, Debug, PartialEq, Eq, Structural)]
pub enum Stage {
    /// Nothing has been executed yet.
    Start,
    /// The next round is due.
    Iterating,
    /// A round has been executed and has to be judged.
    Comparing,
    /// The judgement on the last round is awaited.
    Deciding,
    /// The messages have settled, the sweep back to the ratings is due.
    Closing,
    /// Every rating is final.
    Finished,
}

/// What the caller has to do before the next step.
#[derive(Debug, PartialEq, Eq)]
pub enum Action {
    /// Execute the operations, first to last.
    Execute(Vec<Op>),
    /// Find the largest change, in mean or deviation, between `Up` and
    /// `PastUp` and between `Down` and `PastDown` on any of the edges, and
    /// report with the next step whether it is below the threshold.
    Compare(Vec<usize>),
    /// Nothing: the ratings are final.
    Done,
}

/// An `Action` as contracts see it.
pub enum Plan {
    Execute(Seq<Op>),
    Compare(Seq<usize>),
    Done,
}

impl View for Action {
    type V = Plan;

    open spec fn view(&self) -> Plan {
        match self {
            Action::Execute(ops) => Plan::Execute(ops@),
            Action::Compare(edges) => Plan::Compare(edges@),
            Action::Done => Plan::Done,
        }
    }
}

/// The round counter after one more round; it stops at the largest `usize`.
pub open spec fn one_more(rounds: usize) -> usize {
    if rounds < usize::MAX {
        (rounds + 1) as usize
    } else {
        rounds
    }
}

/// The rule of the schedule: from the stage, the number of rounds so far and
/// the judgement on the last round to the next stage, the new number of
/// rounds and what the caller has to do.
///
/// An empty contest is finished at once. Otherwise the edges are set up and
/// the messages swept down, then rounds are executed until one is judged to
/// have settled, then the messages are swept up. The first round is never
/// judged, since nothing was kept before it. A contest of a single place has
/// no gap to settle and gets no round at all, nor does one without any team.
pub open spec fn transition(graph: Graph, stage: Stage, rounds: usize, settled: bool) -> (
    Stage,
    usize,
    Plan,
) {
    match stage {
        Stage::Start => if graph.l@.len() == 0 {
            (Stage::Finished, rounds, Plan::Done)
        } else if graph.l@.len() == 1 || graph.watched().len() == 0 {
            (Stage::Closing, rounds, Plan::Execute(graph.arena.setup@ + graph.descent()))
        } else {
            (Stage::Iterating, rounds, Plan::Execute(graph.arena.setup@ + graph.descent()))
        },
        Stage::Iterating => (Stage::Comparing, one_more(rounds), Plan::Execute(graph.round())),
        Stage::Comparing => (Stage::Deciding, rounds, Plan::Compare(graph.watched())),
        Stage::Deciding => if settled {
            (Stage::Finished, rounds, Plan::Execute(graph.ascent()))
        } else {
            (Stage::Comparing, one_more(rounds), Plan::Execute(graph.round()))
        },
        Stage::Closing => (Stage::Finished, rounds, Plan::Execute(graph.ascent())),
        Stage::Finished => (Stage::Finished, rounds, Plan::Done),
    }
}

/// The rating of one contest, step by step. The caller holds the messages
/// and does the arithmetic; `step` says what to do next.
pub struct Inference {
    graph: Graph,
    stage: Stage,
    rounds: usize,
}

impl Inference {
    #[verifier::type_invariant]
    spec fn chained(self) -> bool {
        &&& self.graph.ld@.len() <= self.graph.l@.len()
        &&& self.stage is Start || self.stage is Finished || self.graph.l@.len() >= 1
    }

    pub closed spec fn spec_graph(&self) -> &Graph {
        &self.graph
    }

    pub closed spec fn spec_stage(&self) -> Stage {
        self.stage
    }

    pub closed spec fn spec_rounds(&self) -> usize {
        self.rounds
    }

    /// Builds the factor graph of `contest`; nothing is executed yet.
    pub fn new<T>(contest: &Vec<Vec<Vec<T>>>) -> (run: Self)
        ensures
            run.spec_graph().wired(shape_of(contest@)),
            run.spec_stage() == Stage::Start,
            run.spec_rounds() == 0,
    {
        Inference { graph: Graph::assemble(contest), stage: Stage::Start, rounds: 0 }
    }

    #[verifier::when_used_as_spec(spec_graph)]
    pub fn graph(&self) -> (graph: &Graph)
        ensures
            graph == self.spec_graph(),
    {
        &self.graph
    }

    #[verifier::when_used_as_spec(spec_stage)]
    pub fn stage(&self) -> (stage: Stage)
        ensures
            stage == self.spec_stage(),
    {
        self.stage
    }

    /// The number of rounds executed so far.
    #[verifier::when_used_as_spec(spec_rounds)]
    pub fn rounds(&self) -> (rounds: usize)
        ensures
            rounds == self.spec_rounds(),
    {
        self.rounds
    }

    /// Moves on by one step of `transition`. `settled` counts only when the
    /// last action was `Compare`.
    pub fn step(&mut self, settled: bool) -> (action: Action)
        ensures
            final(self).graph() == old(self).graph(),
            (final(self).stage(), final(self).rounds(), action@) == transition(
                *old(self).graph(),
                old(self).stage(),
                old(self).rounds(),
                settled,
            ),
    {
        proof {
            use_type_invariant(&*self);
        }
        match self.stage {
            Stage::Start => {
                if self.graph.l.len() == 0 {
                    self.stage = Stage::Finished;
                    Action::Done
                } else {
                    let mut code: Vec<Op> = Vec::new();
                    append(&mut code, &self.graph.arena.setup);
                    self.graph.descend(&mut code);
                    let edges = self.graph.conv();
                    if self.graph.l.len() == 1 || edges.len() == 0 {
                        self.stage = Stage::Closing;
                    } else {
                        self.stage = Stage::Iterating;
                    }
                    assert(code@ =~= self.graph.arena.setup@ + self.graph.descent());
                    Action::Execute(code)
                }
            },
            Stage::Comparing => {
                self.stage = Stage::Deciding;
                Action::Compare(self.graph.conv())
            },
            Stage::Finished => Action::Done,
            Stage::Iterating | Stage::Deciding | Stage::Closing => {
                let mut code: Vec<Op> = Vec::new();
                if self.stage == Stage::Closing || (self.stage == Stage::Deciding && settled) {
                    self.graph.ascend(&mut code);
                    self.stage = Stage::Finished;
                    assert(code@ =~= self.graph.ascent());
                } else {
                    self.graph.iterate(&mut code);
                    if self.rounds < usize::MAX {
                        self.rounds = self.rounds + 1;
                    }
                    self.stage = Stage::Comparing;
                    assert(code@ =~= self.graph.round());
                }
                Action::Execute(code)
            },
        }
    }
}

} // verus!
