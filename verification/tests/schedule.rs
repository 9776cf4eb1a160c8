use trueskill_spb::graph::Graph;
use trueskill_spb::inference::{Action, Inference, Stage};
use trueskill_spb::message::{Op, Seed, Slot};
use trueskill_spb::nodes::{Arena, GreaterNode, LeqNode, ProdNode, TreeNode};
use trueskill_spb::rating_system::{
    gen_player_message, gen_team_message, infer1, infer2, infer3, infer_ld, load_rating,
};

fn contest_of(places: &[&[&[&str]]]) -> Vec<Vec<Vec<String>>> {
    places
        .iter()
        .map(|place| place.iter().map(|team| team.iter().map(|p| p.to_string()).collect()).collect())
        .collect()
}

fn program<N: TreeNode>(node: &N) -> Vec<Op> {
    let mut code = Vec::new();
    node.infer(&mut code);
    code
}

fn leq(edge: usize) -> LeqNode {
    LeqNode { eps: 5, edge }
}

fn leq_op(edge: usize) -> Op {
    Op::Leq { dst: Slot::Down(edge), src: Slot::Up(edge), eps: 5 }
}

fn greater_op(edge: usize) -> Op {
    Op::Greater { dst: Slot::Down(edge), src: Slot::Up(edge), eps: 9 }
}

#[test]
fn gen_team_message_follows_the_shape() {
    let places = vec![vec![1u8, 2, 3], vec![], vec![4]];
    let ret = gen_team_message(&places, &7u32);
    assert_eq!(ret, vec![vec![7, 7, 7], vec![], vec![7]]);
    let none: Vec<Vec<u8>> = Vec::new();
    assert!(gen_team_message(&none, &7u32).is_empty());
}

#[test]
fn gen_player_message_follows_the_shape() {
    let places = vec![vec![vec!['a', 'b'], vec![]], vec![], vec![vec!['c']]];
    let ret = gen_player_message(&places, &String::from("x"));
    assert_eq!(
        ret,
        vec![vec![vec!["x".to_string(), "x".to_string()], vec![]], vec![], vec![vec!["x".to_string()]]]
    );
}

#[test]
fn gen_messages_of_nodes_are_separate() {
    let places = vec![vec![vec![0u8], vec![0u8]]];
    let mut arena = Arena::new();
    let mut nodes = gen_team_message(&places, &ProdNode::new());
    nodes[0][0].get_edges_mut().push(3);
    assert_eq!(nodes[0][0].edges, vec![3]);
    assert!(nodes[0][1].edges.is_empty());
    let margins = gen_player_message(&places, &LeqNode::new(736, &mut arena));
    assert_eq!(margins[0][0][0], LeqNode { eps: 736, edge: 0 });
    assert_eq!(margins[0][1][0], LeqNode { eps: 736, edge: 0 });
}

#[test]
fn infer1_goes_in_order() {
    let who = vec![leq(4), leq(2), leq(9)];
    let mut code = vec![leq_op(0)];
    infer1(&who, &mut code);
    assert_eq!(code, vec![leq_op(0), leq_op(4), leq_op(2), leq_op(9)]);
    let nobody: Vec<LeqNode> = Vec::new();
    infer1(&nobody, &mut code);
    assert_eq!(code.len(), 4);
}

#[test]
fn infer2_goes_row_by_row() {
    let who = vec![vec![leq(1), leq(2)], vec![], vec![leq(3)]];
    let mut code = Vec::new();
    infer2(&who, &mut code);
    assert_eq!(code, vec![leq_op(1), leq_op(2), leq_op(3)]);
}

#[test]
fn infer3_goes_block_by_block() {
    let who = vec![vec![vec![leq(1)], vec![leq(2), leq(3)]], vec![vec![leq(4)]]];
    let mut code = Vec::new();
    infer3(&who, &mut code);
    assert_eq!(code, vec![leq_op(1), leq_op(2), leq_op(3), leq_op(4)]);
}

#[test]
fn infer_ld_goes_down_and_up() {
    let l = vec![leq(0), leq(1), leq(2)];
    let ld = vec![GreaterNode { eps: 9, edge: 10 }, GreaterNode { eps: 9, edge: 11 }];
    let mut code = Vec::new();
    infer_ld(&ld, &l, &mut code);
    assert_eq!(
        code,
        vec![
            leq_op(0),
            greater_op(10),
            leq_op(1),
            greater_op(11),
            leq_op(2),
            greater_op(11),
            leq_op(1),
            greater_op(10),
            leq_op(0),
        ]
    );
}

#[test]
fn infer_ld_of_a_single_place() {
    let l = vec![leq(6)];
    let ld: Vec<GreaterNode> = Vec::new();
    let mut code = Vec::new();
    infer_ld(&ld, &l, &mut code);
    assert_eq!(code, vec![leq_op(6)]);
}

#[test]
fn load_rating_ages_by_the_time_elapsed() {
    let seen = vec![vec![vec![Some(3), None]], vec![vec![Some(10)]]];
    let mut code = Vec::new();
    load_rating(&seen, 10, &mut code);
    let a = Slot::Rating(0, 0, 0);
    let b = Slot::Rating(0, 0, 1);
    let c = Slot::Rating(1, 0, 0);
    assert_eq!(
        code,
        vec![
            Op::Age { dst: a, src: a, elapsed: 7 },
            Op::Load { dst: b, value: Seed::Newcomer },
            Op::Age { dst: b, src: b, elapsed: 0 },
            Op::Age { dst: c, src: c, elapsed: 0 },
        ]
    );
}

#[test]
fn sweeps_of_two_players() {
    let graph = Graph::assemble(&contest_of(&[&[&["A"]], &[&["B"]]]));
    let (s0, s1) = (&graph.s[0][0][0], &graph.s[1][0][0]);
    let (sp0, sp1) = (&graph.sp[0][0][0], &graph.sp[1][0][0]);
    let (p0, p1) = (&graph.p[0][0][0], &graph.p[1][0][0]);
    let (pt0, pt1) = (&graph.pt[0][0], &graph.pt[1][0]);
    let (t0, t1) = (&graph.t[0][0], &graph.t[1][0]);
    let (tul0, tul1) = (&graph.tul[0][0], &graph.tul[1][0]);
    let (u0, u1) = (&graph.u[0][0], &graph.u[1][0]);
    let (l0, l1) = (&graph.l[0], &graph.l[1]);
    let (d0, ld0) = (&graph.d[0], &graph.ld[0]);

    let mut down = Vec::new();
    graph.descend(&mut down);
    let mut expected = Vec::new();
    expected.extend(program(s0));
    expected.extend(program(s1));
    expected.extend(program(sp0));
    expected.extend(program(sp1));
    expected.extend(program(p0));
    expected.extend(program(p1));
    expected.extend(program(pt0));
    expected.extend(program(pt1));
    expected.extend(program(t0));
    expected.extend(program(t1));
    expected.extend(program(tul0));
    expected.extend(program(tul1));
    expected.extend(program(u0));
    expected.extend(program(u1));
    expected.extend(program(tul0));
    expected.extend(program(tul1));
    assert_eq!(down, expected);

    let mut round = Vec::new();
    graph.iterate(&mut round);
    let mut expected = vec![
        Op::Copy { dst: Slot::PastUp(7), src: Slot::Up(7) },
        Op::Copy { dst: Slot::PastDown(7), src: Slot::Down(7) },
        Op::Copy { dst: Slot::PastUp(16), src: Slot::Up(16) },
        Op::Copy { dst: Slot::PastDown(16), src: Slot::Down(16) },
    ];
    expected.extend(program(l0));
    expected.extend(program(ld0));
    expected.extend(program(l1));
    expected.extend(program(ld0));
    expected.extend(program(l0));
    expected.extend(program(d0));
    expected.extend(program(ld0));
    expected.extend(program(l0));
    expected.extend(program(l1));
    expected.extend(program(tul0));
    expected.extend(program(tul1));
    expected.extend(program(u0));
    expected.extend(program(u1));
    expected.extend(program(tul0));
    expected.extend(program(tul1));
    assert_eq!(round, expected);

    let mut up = Vec::new();
    graph.ascend(&mut up);
    let mut expected = Vec::new();
    expected.extend(program(t0));
    expected.extend(program(t1));
    expected.extend(program(pt0));
    expected.extend(program(pt1));
    expected.extend(program(p0));
    expected.extend(program(p1));
    expected.extend(program(sp0));
    expected.extend(program(sp1));
    expected.extend(program(s0));
    expected.extend(program(s1));
    expected.push(Op::Prod { dst: Slot::Rating(0, 0, 0), lhs: Slot::Up(0), rhs: Slot::Down(0) });
    expected.push(Op::Prod { dst: Slot::Rating(1, 0, 0), lhs: Slot::Up(9), rhs: Slot::Down(9) });
    assert_eq!(up, expected);
}

#[test]
fn steps_of_a_contest() {
    let contest = contest_of(&[&[&["A"]], &[&["B"]]]);
    let graph = Graph::assemble(&contest);
    let mut first = graph.arena.setup.clone();
    graph.descend(&mut first);
    let mut round = Vec::new();
    graph.iterate(&mut round);
    let mut last = Vec::new();
    graph.ascend(&mut last);

    let mut run = Inference::new(&contest);
    assert_eq!(run.stage(), Stage::Start);
    assert_eq!(run.rounds(), 0);
    assert_eq!(run.graph().arena.edges, graph.arena.edges);

    assert_eq!(run.step(true), Action::Execute(first));
    assert_eq!(run.stage(), Stage::Iterating);
    // the first round is executed whatever is reported
    assert_eq!(run.step(true), Action::Execute(round.clone()));
    assert_eq!((run.stage(), run.rounds()), (Stage::Comparing, 1));
    assert_eq!(run.step(true), Action::Compare(vec![7, 16]));
    assert_eq!((run.stage(), run.rounds()), (Stage::Deciding, 1));
    assert_eq!(run.step(false), Action::Execute(round.clone()));
    assert_eq!((run.stage(), run.rounds()), (Stage::Comparing, 2));
    assert_eq!(run.step(false), Action::Compare(vec![7, 16]));
    assert_eq!(run.step(true), Action::Execute(last));
    assert_eq!((run.stage(), run.rounds()), (Stage::Finished, 2));
    assert_eq!(run.step(false), Action::Done);
    assert_eq!((run.stage(), run.rounds()), (Stage::Finished, 2));
}

#[test]
fn steps_without_any_team() {
    let contest: Vec<Vec<Vec<String>>> = vec![Vec::new()];
    let graph = Graph::assemble(&contest);
    let mut first = graph.arena.setup.clone();
    graph.descend(&mut first);
    let mut last = Vec::new();
    graph.ascend(&mut last);
    let mut run = Inference::new(&contest);
    assert_eq!(run.step(false), Action::Execute(first));
    assert_eq!(run.stage(), Stage::Closing);
    assert_eq!(run.step(false), Action::Execute(last));
    assert_eq!((run.stage(), run.rounds()), (Stage::Finished, 0));
    assert_eq!(run.step(false), Action::Done);
}

#[test]
fn steps_of_an_empty_contest() {
    let contest: Vec<Vec<Vec<String>>> = Vec::new();
    let mut run = Inference::new(&contest);
    assert_eq!(run.step(false), Action::Done);
    assert_eq!((run.stage(), run.rounds()), (Stage::Finished, 0));
}

#[test]
fn steps_of_a_single_place() {
    let contest = contest_of(&[&[&["A"], &["B"], &["C"]]]);
    let graph = Graph::assemble(&contest);
    assert_eq!(graph.conv().len(), 3);
    let mut first = graph.arena.setup.clone();
    graph.descend(&mut first);
    let mut last = Vec::new();
    graph.ascend(&mut last);
    let mut run = Inference::new(&contest);
    assert_eq!(run.step(false), Action::Execute(first));
    // nothing to settle between places: no round
    assert_eq!((run.stage(), run.rounds()), (Stage::Closing, 0));
    assert_eq!(run.step(false), Action::Execute(last));
    assert_eq!((run.stage(), run.rounds()), (Stage::Finished, 0));
    assert_eq!(run.step(false), Action::Done);
}
