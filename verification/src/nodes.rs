use vstd::prelude::*;
use crate::message::{Op, Seed, Slot};

verus! {

/// The edges of one contest's factor graph. An edge joins a value node and a
/// function node and carries the two messages `Slot::Up` and `Slot::Down` of
/// its number; `setup` holds the operations that give every edge its first
/// messages.
pub struct Arena {
    pub edges: usize,
    pub setup: Vec<Op>,
}

/// The two loads that give a new edge its first messages.
pub open spec fn fresh_edge(edge: usize, up: Seed, down: Seed) -> Seq<Op> {
    seq![
        Op::Load { dst: Slot::Up(edge), value: up },
        Op::Load { dst: Slot::Down(edge), value: down },
    ]
}

impl Arena {
    /// Every edge has put its two loads into `setup`, so the number of edges
    /// stays far below the largest `usize`.
    pub open spec fn wf(&self) -> bool {
        2 * self.edges <= self.setup@.len()
    }

    pub fn new() -> (arena: Self)
        ensures
            arena.wf(),
            arena.edges == 0,
            arena.setup@ == Seq::<Op>::empty(),
    {
        Arena { edges: 0, setup: Vec::new() }
    }

    /// Makes the next edge, with the given first messages.
    pub fn open_edge(&mut self, up: Seed, down: Seed) -> (edge: usize)
        requires
            old(self).wf(),
        ensures
            final(self).wf(),
            edge == old(self).edges,
            final(self).edges == old(self).edges + 1,
            final(self).setup@ == old(self).setup@ + fresh_edge(edge, up, down),
    {
        let edge = self.edges;
        self.setup.push(Op::Load { dst: Slot::Up(edge), value: up });
        self.setup.push(Op::Load { dst: Slot::Down(edge), value: down });
        let loaded: usize = self.setup.len();
        assert(2 * edge + 2 <= loaded);
        self.edges = edge + 1;
        assert(self.setup@ =~= old(self).setup@ + fresh_edge(edge, up, down));
        edge
    }
}

/// A node of the factor graph. Refreshing it is a fixed sequence of
/// operations on the slots of its edges.
pub trait TreeNode {
    /// The operations that refresh the messages this node sends.
    spec fn program(&self) -> Seq<Op>;

    /// Appends the node's program to `code`.
    fn infer(&self, code: &mut Vec<Op>)
        ensures
            final(code)@ == old(code)@ + self.program(),
    ;
}

/// A node that stands for a variable. Function nodes attach to it through
/// `add_edge`.
pub trait ValueNode: TreeNode + Sized {
    /// The edges of the node, oldest first.
    spec fn incident(&self) -> Seq<usize>;

    /// Whether the next neighbour gets an edge of its own.
    spec fn grows(&self) -> bool;

    /// The edge to one more neighbour. A node that grows gets a new edge,
    /// over which nothing has come in yet and zero goes out; any other node
    /// hands out the edge it has.
    fn add_edge(&mut self, arena: &mut Arena) -> (edge: usize)
        requires
            old(arena).wf(),
        ensures
            final(arena).wf(),
            old(self).grows() ==> {
                &&& edge == old(arena).edges
                &&& final(self).incident() == old(self).incident().push(edge)
                &&& final(arena).edges == old(arena).edges + 1
                &&& final(arena).setup@ == old(arena).setup@ + fresh_edge(
                    edge,
                    Seed::One,
                    Seed::Zero,
                )
            },
            !old(self).grows() ==> {
                &&& *final(self) == *old(self)
                &&& old(self).incident().len() > 0
                &&& edge == old(self).incident().last()
                &&& final(arena).edges == old(arena).edges
                &&& final(arena).setup@ == old(arena).setup@
            },
    ;
}

/// What `add_edge` does to a node when `made` edges exist: a node that grows
/// gets the next edge as its last one, any other node stays as it is and
/// hands out its last edge.
pub open spec fn joins<V: ValueNode>(before: V, after: V, made: usize, edge: usize) -> bool {
    if before.grows() {
        edge == made && after.incident() == before.incident().push(edge)
    } else {
        after == before && before.incident().len() > 0 && edge == before.incident().last()
    }
}

/// The number of edges that `add_edge` on `node` makes.
pub open spec fn growth<V: ValueNode>(node: V) -> int {
    if node.grows() {
        1
    } else {
        0
    }
}

/// The setup that `add_edge` on `node` adds when it returns `edge`.
pub open spec fn welcome<V: ValueNode>(node: V, edge: usize) -> Seq<Op> {
    if node.grows() {
        fresh_edge(edge, Seed::One, Seed::Zero)
    } else {
        Seq::empty()
    }
}

/// The number of edges there are once the first `count` of `nodes` have
/// each got a neighbour, when there were `start` before.
pub open spec fn grown<V: ValueNode>(nodes: Seq<V>, start: int, count: int) -> int
    decreases count,
{
    if count <= 0 {
        start
    } else {
        grown(nodes, start, count - 1) + growth(nodes[count - 1])
    }
}

/// The setup that is added when the first `count` of `nodes` each get a
/// neighbour, over `edges`.
pub open spec fn welcomes<V: ValueNode>(nodes: Seq<V>, edges: Seq<usize>, count: int) -> Seq<Op>
    decreases count,
{
    if count <= 0 {
        Seq::empty()
    } else {
        welcomes(nodes, edges, count - 1) + welcome(nodes[count - 1], edges[count - 1])
    }
}

/// `welcomes` looks at the first `count` edges only.
pub proof fn lemma_welcomes_of_prefix<V: ValueNode>(
    nodes: Seq<V>,
    edges: Seq<usize>,
    other: Seq<usize>,
    count: int,
)
    requires
        forall|x: int| 0 <= x < count ==> edges[x] == other[x],
    ensures
        welcomes(nodes, edges, count) == welcomes(nodes, other, count),
    decreases count,
{
    if count > 0 {
        lemma_welcomes_of_prefix(nodes, edges, other, count - 1);
    }
}

/// A node that stands for a constraint between variables. Making one
/// attaches it to its neighbours: each input gets a neighbour, in order,
/// then the output.
pub trait FuncNode: TreeNode + Sized {
    /// The edge to the variable that the constraint defines.
    spec fn output(&self) -> usize;

    /// The edges to the variables that the constraint reads, in order.
    spec fn inputs(&self) -> Seq<usize>;

    /// The constraint between `output` and any number of inputs of one kind.
    fn new<O: ValueNode, V: ValueNode>(
        arena: &mut Arena,
        output: &mut O,
        summands: &mut Vec<V>,
    ) -> (node: Self)
        requires
            old(arena).wf(),
        ensures
            final(arena).wf(),
            final(summands).len() == old(summands).len(),
            node.inputs().len() == old(summands).len(),
            forall|i: int|
                0 <= i < old(summands).len() ==> joins(
                    old(summands)[i],
                    #[trigger] final(summands)[i],
                    grown(old(summands)@, old(arena).edges as int, i) as usize,
                    node.inputs()[i],
                ),
            joins(
                *old(output),
                *final(output),
                grown(old(summands)@, old(arena).edges as int, old(summands).len() as int) as usize,
                node.output(),
            ),
            final(arena).edges == grown(
                old(summands)@,
                old(arena).edges as int,
                old(summands).len() as int,
            ) + growth(*old(output)),
            final(arena).setup@ == old(arena).setup@ + welcomes(
                old(summands)@,
                node.inputs(),
                old(summands).len() as int,
            ) + welcome(*old(output), node.output()),
    ;

    /// The constraint between `output` and two inputs of any kinds.
    fn pair<O: ValueNode, A: ValueNode, B: ValueNode>(
        arena: &mut Arena,
        output: &mut O,
        first: &mut A,
        second: &mut B,
    ) -> (node: Self)
        requires
            old(arena).wf(),
        ensures
            final(arena).wf(),
            node.inputs().len() == 2,
            joins(*old(first), *final(first), old(arena).edges, node.inputs()[0]),
            joins(
                *old(second),
                *final(second),
                (old(arena).edges + growth(*old(first))) as usize,
                node.inputs()[1],
            ),
            joins(
                *old(output),
                *final(output),
                (old(arena).edges + growth(*old(first)) + growth(*old(second))) as usize,
                node.output(),
            ),
            final(arena).edges == old(arena).edges + growth(*old(first)) + growth(*old(second))
                + growth(*old(output)),
            final(arena).setup@ == old(arena).setup@ + welcome(*old(first), node.inputs()[0])
                + welcome(*old(second), node.inputs()[1]) + welcome(*old(output), node.output()),
    ;
}

/// A variable that is the product of the beliefs its neighbours send.
pub struct ProdNode {
    pub edges: Vec<usize>,
}

/// A variable held within `eps` thousandths of zero.
#[derive(Clone, Copy, Debug, PartialEq, Eq, Structural)]
pub struct LeqNode {
    pub eps: u64,
    pub edge: usize,
}

/// A variable held above `eps` thousandths.
#[derive(Clone, Copy, Debug, PartialEq, Eq, Structural)]
pub struct GreaterNode {
    pub eps: u64,
    pub edge: usize,
}

/// The constraint that the output variable is the sum of the input variables.
pub struct SumNode {
    pub out_edge: usize,
    pub sum_edges: Vec<usize>,
}

/// Folds the belief that comes in over `edge` into the accumulator.
pub open spec fn gather(edge: usize) -> Op {
    Op::Prod { dst: Slot::Acc, lhs: Slot::Acc, rhs: Slot::Up(edge) }
}

/// Sends over `edge` the accumulated product without what came in over it.
pub open spec fn scatter(edge: usize) -> Op {
    Op::Quot { dst: Slot::Down(edge), lhs: Slot::Acc, rhs: Slot::Up(edge) }
}

/// The program of a product node with the given edges: the product of all
/// incoming beliefs, then for each edge that product divided by what the
/// edge brought.
pub open spec fn prod_program(edges: Seq<usize>) -> Seq<Op> {
    seq![Op::Load { dst: Slot::Acc, value: Seed::One }]
        + Seq::new(edges.len(), |i: int| gather(edges[i]))
        + Seq::new(edges.len(), |i: int| scatter(edges[i]))
}

impl Clone for ProdNode {
    fn clone(&self) -> (copy: Self)
        ensures
            copy.edges@ == self.edges@,
    {
        ProdNode { edges: self.edges.clone() }
    }
}

impl ProdNode {
    /// A variable without neighbours.
    pub fn new() -> (node: Self)
        ensures
            node.edges@ == Seq::<usize>::empty(),
    {
        ProdNode { edges: Vec::new() }
    }

    pub fn get_edges(&self) -> (edges: &Vec<usize>)
        ensures
            edges == &self.edges,
    {
        &self.edges
    }

    pub fn get_edges_mut(&mut self) -> (edges: &mut Vec<usize>)
        ensures
            *edges == old(self).edges,
            final(self).edges == *final(edges),
    {
        &mut self.edges
    }
}

impl TreeNode for ProdNode {
    open spec fn program(&self) -> Seq<Op> {
        prod_program(self.edges@)
    }

    fn infer(&self, code: &mut Vec<Op>) {
        let ghost before = code@;
        let ghost head = seq![Op::Load { dst: Slot::Acc, value: Seed::One }];
        let n = self.edges.len();
        code.push(Op::Load { dst: Slot::Acc, value: Seed::One });
        assert(code@ =~= before + head + Seq::new(0, |k: int| gather(self.edges@[k])));
        let mut i: usize = 0;
        while i < n
            invariant
                i <= n,
                n == self.edges@.len(),
                code@ == before + head + Seq::new(i as nat, |k: int| gather(self.edges@[k])),
            decreases n - i,
        {
            let edge = self.edges[i];
            code.push(Op::Prod { dst: Slot::Acc, lhs: Slot::Acc, rhs: Slot::Up(edge) });
            i += 1;
            assert(code@ =~= before + head + Seq::new(i as nat, |k: int| gather(self.edges@[k])));
        }
        let ghost gathered = code@;
        assert(code@ =~= gathered + Seq::new(0, |k: int| scatter(self.edges@[k])));
        let mut j: usize = 0;
        while j < n
            invariant
                j <= n,
                n == self.edges@.len(),
                code@ == gathered + Seq::new(j as nat, |k: int| scatter(self.edges@[k])),
            decreases n - j,
        {
            let edge = self.edges[j];
            code.push(Op::Quot { dst: Slot::Down(edge), lhs: Slot::Acc, rhs: Slot::Up(edge) });
            j += 1;
            assert(code@ =~= gathered + Seq::new(j as nat, |k: int| scatter(self.edges@[k])));
        }
    }
}

impl ValueNode for ProdNode {
    open spec fn incident(&self) -> Seq<usize> {
        self.edges@
    }

    open spec fn grows(&self) -> bool {
        true
    }

    /// A product node gets a new edge for every neighbour.
    fn add_edge(&mut self, arena: &mut Arena) -> (edge: usize) {
        let edge = arena.open_edge(Seed::One, Seed::Zero);
        self.edges.push(edge);
        edge
    }
}

impl LeqNode {
    /// A variable held within `eps` thousandths of zero, with its one edge,
    /// on which both messages start at zero.
    pub fn new(eps: u64, arena: &mut Arena) -> (node: Self)
        requires
            old(arena).wf(),
        ensures
            final(arena).wf(),
            node == (LeqNode { eps, edge: old(arena).edges }),
            final(arena).edges == old(arena).edges + 1,
            final(arena).setup@ == old(arena).setup@ + fresh_edge(node.edge, Seed::Zero, Seed::Zero),
    {
        let edge = arena.open_edge(Seed::Zero, Seed::Zero);
        LeqNode { eps, edge }
    }
}

impl TreeNode for LeqNode {
    open spec fn program(&self) -> Seq<Op> {
        seq![Op::Leq { dst: Slot::Down(self.edge), src: Slot::Up(self.edge), eps: self.eps }]
    }

    fn infer(&self, code: &mut Vec<Op>) {
        code.push(Op::Leq { dst: Slot::Down(self.edge), src: Slot::Up(self.edge), eps: self.eps });
        assert(code@ =~= old(code)@ + self.program());
    }
}

impl ValueNode for LeqNode {
    open spec fn incident(&self) -> Seq<usize> {
        seq![self.edge]
    }

    open spec fn grows(&self) -> bool {
        false
    }

    /// Every neighbour gets the node's one edge.
    fn add_edge(&mut self, arena: &mut Arena) -> (edge: usize) {
        assert(self.incident().last() == self.edge);
        self.edge
    }
}

impl GreaterNode {
    /// A variable held above `eps` thousandths, with its one edge, on which
    /// both messages start at zero.
    pub fn new(eps: u64, arena: &mut Arena) -> (node: Self)
        requires
            old(arena).wf(),
        ensures
            final(arena).wf(),
            node == (GreaterNode { eps, edge: old(arena).edges }),
            final(arena).edges == old(arena).edges + 1,
            final(arena).setup@ == old(arena).setup@ + fresh_edge(node.edge, Seed::Zero, Seed::Zero),
    {
        let edge = arena.open_edge(Seed::Zero, Seed::Zero);
        GreaterNode { eps, edge }
    }
}

impl TreeNode for GreaterNode {
    open spec fn program(&self) -> Seq<Op> {
        seq![Op::Greater { dst: Slot::Down(self.edge), src: Slot::Up(self.edge), eps: self.eps }]
    }

    fn infer(&self, code: &mut Vec<Op>) {
        code.push(
            Op::Greater { dst: Slot::Down(self.edge), src: Slot::Up(self.edge), eps: self.eps },
        );
        assert(code@ =~= old(code)@ + self.program());
    }
}

impl ValueNode for GreaterNode {
    open spec fn incident(&self) -> Seq<usize> {
        seq![self.edge]
    }

    open spec fn grows(&self) -> bool {
        false
    }

    /// Every neighbour gets the node's one edge.
    fn add_edge(&mut self, arena: &mut Arena) -> (edge: usize) {
        assert(self.incident().last() == self.edge);
        self.edge
    }
}

/// Extends the running sum of the inputs by input `i`, which comes in over
/// `edge`.
pub open spec fn extend_prefix(i: int, edge: usize) -> Op {
    Op::Sum { dst: Slot::Prefix((i + 1) as usize), lhs: Slot::Prefix(i as usize), rhs: Slot::Down(edge) }
}

/// Extends the sum of the inputs behind input `i` by input `i`, which comes
/// in over `edge`.
pub open spec fn extend_suffix(i: int, edge: usize) -> Op {
    Op::Sum { dst: Slot::Suffix(i as usize), lhs: Slot::Suffix((i + 1) as usize), rhs: Slot::Down(edge) }
}

/// Takes the inputs before input `i` off what the output variable reports.
pub open spec fn strip_prefix(i: int, out_edge: usize) -> Op {
    Op::Diff { dst: Slot::Acc, lhs: Slot::Down(out_edge), rhs: Slot::Prefix(i as usize) }
}

/// Takes the inputs behind input `i` off as well and sends the rest to input
/// `i` over `edge`.
pub open spec fn strip_suffix(i: int, edge: usize) -> Op {
    Op::Diff { dst: Slot::Up(edge), lhs: Slot::Acc, rhs: Slot::Suffix((i + 1) as usize) }
}

/// The running sums of the inputs, first to last.
pub open spec fn prefix_pass(inputs: Seq<usize>) -> Seq<Op> {
    seq![Op::Load { dst: Slot::Prefix(0), value: Seed::Zero }]
        + Seq::new(inputs.len(), |i: int| extend_prefix(i, inputs[i]))
}

/// The running sums of the inputs, last to first.
pub open spec fn suffix_pass(inputs: Seq<usize>) -> Seq<Op> {
    seq![Op::Load { dst: Slot::Suffix(inputs.len() as usize), value: Seed::Zero }]
        + Seq::new(inputs.len(), |k: int| extend_suffix(inputs.len() - 1 - k, inputs[inputs.len() - 1 - k]))
}

/// What each input is told: the output without all the other inputs.
pub open spec fn share_pass(out_edge: usize, inputs: Seq<usize>) -> Seq<Op> {
    Seq::new(
        2 * inputs.len(),
        |k: int|
            if k % 2 == 0 {
                strip_prefix(k / 2, out_edge)
            } else {
                strip_suffix(k / 2, inputs[k / 2])
            },
    )
}

/// The program of a sum node: the sum of all inputs goes to the output
/// variable, and each input is told the output without the other inputs.
pub open spec fn sum_program(out_edge: usize, inputs: Seq<usize>) -> Seq<Op> {
    prefix_pass(inputs) + suffix_pass(inputs) + seq![
        Op::Copy { dst: Slot::Up(out_edge), src: Slot::Prefix(inputs.len() as usize) },
    ] + share_pass(out_edge, inputs)
}

impl Clone for SumNode {
    fn clone(&self) -> (copy: Self)
        ensures
            copy.out_edge == self.out_edge,
            copy.sum_edges@ == self.sum_edges@,
    {
        SumNode { out_edge: self.out_edge, sum_edges: self.sum_edges.clone() }
    }
}

impl FuncNode for SumNode {
    open spec fn output(&self) -> usize {
        self.out_edge
    }

    open spec fn inputs(&self) -> Seq<usize> {
        self.sum_edges@
    }

    fn new<O: ValueNode, V: ValueNode>(
        arena: &mut Arena,
        output: &mut O,
        summands: &mut Vec<V>,
    ) -> (node: Self) {
        let ghost start = arena.edges as int;
        let ghost setup0 = arena.setup@;
        let n = summands.len();
        let mut sum_edges: Vec<usize> = Vec::new();
        let mut i: usize = 0;
        assert(arena.setup@ =~= setup0 + welcomes(old(summands)@, sum_edges@, 0));
        while i < n
            invariant
                i <= n,
                n == old(summands).len(),
                summands.len() == n,
                sum_edges.len() == i,
                arena.wf(),
                arena.edges == grown(old(summands)@, start, i as int),
                arena.setup@ == setup0 + welcomes(old(summands)@, sum_edges@, i as int),
                forall|x: int|
                    0 <= x < i ==> joins(
                        old(summands)[x],
                        #[trigger] summands[x],
                        grown(old(summands)@, start, x) as usize,
                        sum_edges[x],
                    ),
                forall|x: int| i <= x < n ==> #[trigger] summands[x] == old(summands)[x],
            decreases n - i,
        {
            let ghost before = sum_edges@;
            let edge = summands[i].add_edge(arena);
            sum_edges.push(edge);
            proof {
                lemma_welcomes_of_prefix(old(summands)@, before, sum_edges@, i as int);
                assert(arena.setup@ =~= setup0 + welcomes(old(summands)@, sum_edges@, i + 1));
            }
            i += 1;
        }
        let out_edge = output.add_edge(arena);
        SumNode { out_edge, sum_edges }
    }

    fn pair<O: ValueNode, A: ValueNode, B: ValueNode>(
        arena: &mut Arena,
        output: &mut O,
        first: &mut A,
        second: &mut B,
    ) -> (node: Self) {
        let mut sum_edges: Vec<usize> = Vec::new();
        let one = first.add_edge(arena);
        sum_edges.push(one);
        let other = second.add_edge(arena);
        sum_edges.push(other);
        let out_edge = output.add_edge(arena);
        SumNode { out_edge, sum_edges }
    }
}

impl TreeNode for SumNode {
    open spec fn program(&self) -> Seq<Op> {
        sum_program(self.out_edge, self.sum_edges@)
    }

    fn infer(&self, code: &mut Vec<Op>) {
        let ghost before = code@;
        let ghost inputs = self.sum_edges@;
        let n = self.sum_edges.len();
        code.push(Op::Load { dst: Slot::Prefix(0), value: Seed::Zero });
        let mut i: usize = 0;
        while i < n
            invariant
                i <= n,
                n == inputs.len(),
                inputs == self.sum_edges@,
                code@ == before + seq![Op::Load { dst: Slot::Prefix(0), value: Seed::Zero }]
                    + Seq::new(i as nat, |k: int| extend_prefix(k, inputs[k])),
            decreases n - i,
        {
            let edge = self.sum_edges[i];
            code.push(Op::Sum { dst: Slot::Prefix(i + 1), lhs: Slot::Prefix(i), rhs: Slot::Down(edge) });
            i += 1;
        }
        assert(code@ =~= before + prefix_pass(inputs));
        let ghost summed = code@;
        code.push(Op::Load { dst: Slot::Suffix(n), value: Seed::Zero });
        let mut j: usize = n;
        while j > 0
            invariant
                j <= n,
                n == inputs.len(),
                inputs == self.sum_edges@,
                code@ == summed + seq![Op::Load { dst: Slot::Suffix(n), value: Seed::Zero }]
                    + Seq::new((n - j) as nat, |k: int| extend_suffix(n - 1 - k, inputs[n - 1 - k])),
            decreases j,
        {
            j -= 1;
            let edge = self.sum_edges[j];
            code.push(Op::Sum { dst: Slot::Suffix(j), lhs: Slot::Suffix(j + 1), rhs: Slot::Down(edge) });
        }
        assert(code@ =~= summed + suffix_pass(inputs));
        code.push(Op::Copy { dst: Slot::Up(self.out_edge), src: Slot::Prefix(n) });
        let ghost told = code@;
        let mut m: usize = 0;
        while m < n
            invariant
                m <= n,
                n == inputs.len(),
                inputs == self.sum_edges@,
                code@ == told + Seq::new(
                    2 * (m as nat),
                    |k: int|
                        if k % 2 == 0 {
                            strip_prefix(k / 2, self.out_edge)
                        } else {
                            strip_suffix(k / 2, inputs[k / 2])
                        },
                ),
            decreases n - m,
        {
            let edge = self.sum_edges[m];
            code.push(Op::Diff { dst: Slot::Acc, lhs: Slot::Down(self.out_edge), rhs: Slot::Prefix(m) });
            code.push(Op::Diff { dst: Slot::Up(edge), lhs: Slot::Acc, rhs: Slot::Suffix(m + 1) });
            m += 1;
        }
        assert(code@ =~= told + share_pass(self.out_edge, inputs));
        assert(code@ =~= before + self.program());
    }
}

} // verus!
