use trueskill_spb::graph::Graph;
use trueskill_spb::message::{Op, Seed, Slot};
use trueskill_spb::nodes::{GreaterNode, LeqNode};
use trueskill_spb::rating_system::{EPS, GAP};

fn contest_of(places: &[&[&[&str]]]) -> Vec<Vec<Vec<String>>> {
    places
        .iter()
        .map(|place| place.iter().map(|team| team.iter().map(|p| p.to_string()).collect()).collect())
        .collect()
}

fn fresh(edge: usize, up: Seed) -> Vec<Op> {
    vec![
        Op::Load { dst: Slot::Up(edge), value: up },
        Op::Load { dst: Slot::Down(edge), value: Seed::Zero },
    ]
}

#[test]
fn constants() {
    assert_eq!(EPS, 736);
    assert_eq!(GAP, 1472);
}

#[test]
fn one_player_against_a_team_of_two() {
    let graph = Graph::assemble(&contest_of(&[&[&["A"]], &[&["B", "C"]]]));
    assert_eq!(graph.arena.edges, 26);

    assert_eq!(graph.s[0][0][0].edges, vec![0, 1]);
    assert_eq!(graph.perf[0][0][0].edges, vec![2]);
    assert_eq!(graph.p[0][0][0].edges, vec![3, 4]);
    assert_eq!(graph.sp[0][0][0].out_edge, 3);
    assert_eq!(graph.sp[0][0][0].sum_edges, vec![1, 2]);
    assert_eq!(graph.pt[0][0].out_edge, 5);
    assert_eq!(graph.pt[0][0].sum_edges, vec![4]);
    assert_eq!(graph.t[0][0].edges, vec![5, 7]);
    assert_eq!(graph.u[0][0], LeqNode { eps: 736, edge: 6 });
    assert_eq!(graph.tul[0][0].out_edge, 8);
    assert_eq!(graph.tul[0][0].sum_edges, vec![7, 6]);
    assert_eq!(graph.l[0].edges, vec![8, 25]);

    assert_eq!(graph.s[1][0][0].edges, vec![9, 10]);
    assert_eq!(graph.perf[1][0][0].edges, vec![11]);
    assert_eq!(graph.p[1][0][0].edges, vec![12, 17]);
    assert_eq!(graph.s[1][0][1].edges, vec![13, 14]);
    assert_eq!(graph.perf[1][0][1].edges, vec![15]);
    assert_eq!(graph.p[1][0][1].edges, vec![16, 18]);
    assert_eq!(graph.sp[1][0][1].out_edge, 16);
    assert_eq!(graph.sp[1][0][1].sum_edges, vec![14, 15]);
    assert_eq!(graph.pt[1][0].out_edge, 19);
    assert_eq!(graph.pt[1][0].sum_edges, vec![17, 18]);
    assert_eq!(graph.t[1][0].edges, vec![19, 21]);
    assert_eq!(graph.u[1][0], LeqNode { eps: 736, edge: 20 });
    assert_eq!(graph.tul[1][0].out_edge, 22);
    assert_eq!(graph.tul[1][0].sum_edges, vec![21, 20]);
    assert_eq!(graph.l[1].edges, vec![22, 24]);

    assert_eq!(graph.d, vec![GreaterNode { eps: 1472, edge: 23 }]);
    assert_eq!(graph.ld.len(), 1);
    assert_eq!(graph.ld[0].out_edge, 25);
    assert_eq!(graph.ld[0].sum_edges, vec![24, 23]);

    assert_eq!(graph.conv(), vec![7, 21]);
}

#[test]
fn setup_of_a_single_player() {
    let graph = Graph::assemble(&contest_of(&[&[&["A"]]]));
    let mut expected = Vec::new();
    expected.extend(fresh(0, Seed::One));
    expected.push(Op::Copy { dst: Slot::Up(0), src: Slot::Rating(0, 0, 0) });
    expected.extend(fresh(1, Seed::One));
    expected.extend(fresh(2, Seed::One));
    expected.extend(fresh(3, Seed::One));
    expected.push(Op::Load { dst: Slot::Down(2), value: Seed::Noise });
    expected.extend(fresh(4, Seed::One));
    expected.extend(fresh(5, Seed::One));
    expected.extend(fresh(6, Seed::Zero));
    expected.extend(fresh(7, Seed::One));
    expected.extend(fresh(8, Seed::One));
    assert_eq!(graph.arena.setup, expected);
    assert_eq!(graph.arena.edges, 9);
    assert!(graph.d.is_empty());
    assert!(graph.ld.is_empty());
    assert_eq!(graph.l[0].edges, vec![8]);
}

#[test]
fn empty_contest_has_no_nodes() {
    let contest: Vec<Vec<Vec<String>>> = Vec::new();
    let graph = Graph::assemble(&contest);
    assert!(graph.s.is_empty() && graph.perf.is_empty() && graph.p.is_empty());
    assert!(graph.t.is_empty() && graph.u.is_empty() && graph.l.is_empty() && graph.d.is_empty());
    assert!(graph.sp.is_empty() && graph.pt.is_empty() && graph.tul.is_empty());
    assert!(graph.ld.is_empty());
    assert_eq!(graph.arena.edges, 0);
    assert!(graph.arena.setup.is_empty());
    assert!(graph.conv().is_empty());
}

#[test]
fn place_without_teams() {
    let contest: Vec<Vec<Vec<String>>> = vec![Vec::new(), vec![vec!["A".to_string()]]];
    let graph = Graph::assemble(&contest);
    assert!(graph.t[0].is_empty());
    assert!(graph.u[0].is_empty());
    assert_eq!(graph.s[1][0][0].edges, vec![0, 1]);
    assert_eq!(graph.l[0].edges, vec![11]);
    assert_eq!(graph.l[1].edges, vec![8, 10]);
    assert_eq!(graph.d, vec![GreaterNode { eps: 1472, edge: 9 }]);
    assert_eq!(graph.ld[0].out_edge, 11);
    assert_eq!(graph.ld[0].sum_edges, vec![10, 9]);
    assert_eq!(graph.arena.edges, 12);
}

#[test]
fn team_without_players() {
    let contest: Vec<Vec<Vec<String>>> = vec![vec![Vec::new()]];
    let graph = Graph::assemble(&contest);
    assert!(graph.s[0][0].is_empty());
    assert_eq!(graph.pt[0][0].out_edge, 0);
    assert!(graph.pt[0][0].sum_edges.is_empty());
    assert_eq!(graph.u[0][0], LeqNode { eps: 736, edge: 1 });
    assert_eq!(graph.t[0][0].edges, vec![0, 2]);
    assert_eq!(graph.tul[0][0].sum_edges, vec![2, 1]);
    assert_eq!(graph.l[0].edges, vec![3]);
    assert_eq!(graph.arena.edges, 4);
}

#[test]
fn three_places_chain() {
    let graph = Graph::assemble(&contest_of(&[&[&["A"]], &[&["B"]], &[&["C"]]]));
    // a team of one takes nine edges; places two and three add three each
    assert_eq!(graph.arena.edges, 9 + 9 + 3 + 9 + 3);
    assert_eq!(graph.l[0].edges, vec![8, 20]);
    assert_eq!(graph.l[1].edges, vec![17, 19, 32]);
    assert_eq!(graph.l[2].edges, vec![29, 31]);
    assert_eq!(graph.ld[0].out_edge, 20);
    assert_eq!(graph.ld[0].sum_edges, vec![19, 18]);
    assert_eq!(graph.ld[1].out_edge, 32);
    assert_eq!(graph.ld[1].sum_edges, vec![31, 30]);
    assert_eq!(graph.d, vec![GreaterNode { eps: 1472, edge: 18 }, GreaterNode { eps: 1472, edge: 30 }]);
    assert_eq!(graph.conv(), vec![7, 16, 28]);
}

#[test]
fn every_margin_and_gap_has_its_own_edge() {
    let graph = Graph::assemble(&contest_of(&[&[&["A"], &["B"]], &[&["C"]], &[&["D"]]]));
    let margins = [graph.u[0][0].edge, graph.u[0][1].edge, graph.u[1][0].edge, graph.u[2][0].edge];
    for a in 0..margins.len() {
        for b in 0..a {
            assert_ne!(margins[a], margins[b]);
        }
        assert!(margins[a] < graph.arena.edges);
    }
    assert_ne!(graph.d[0].edge, graph.d[1].edge);
    assert!(!margins.contains(&graph.d[0].edge) && !margins.contains(&graph.d[1].edge));
}
