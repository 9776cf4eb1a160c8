use std::collections::HashMap;

use statrs::function::erf::erfc;
use trueskill_spb::inference::{Action, Inference};
use trueskill_spb::message::{Op, Seed, Slot};
use trueskill_spb::rating_system;
use trueskill_spb::rating_system::load_rating;

const BETA: f64 = rating_system::BETA as f64;
const MU: f64 = rating_system::MU as f64;
const SIGMA: f64 = rating_system::SIGMA as f64;
const CONVERGENCE_EPS: f64 = rating_system::CONVERGENCE_EPS as f64 / 1e6;
const SIGMA_GROWTH: f64 = rating_system::SIGMA_GROWTH as f64;
const PREC: f64 = 1e-3;

#[derive(Clone, Copy, Debug)]
struct Gaussian {
    mu: f64,
    sigma: f64,
}

const ONE: Gaussian = Gaussian { mu: 0., sigma: f64::INFINITY };
const ZERO: Gaussian = Gaussian { mu: 0., sigma: 0. };

fn sum(a: Gaussian, b: Gaussian) -> Gaussian {
    Gaussian { mu: a.mu + b.mu, sigma: (a.sigma.powi(2) + b.sigma.powi(2)).sqrt() }
}

fn diff(a: Gaussian, b: Gaussian) -> Gaussian {
    Gaussian { mu: a.mu - b.mu, sigma: (a.sigma.powi(2) + b.sigma.powi(2)).sqrt() }
}

fn prod(a: Gaussian, b: Gaussian) -> Gaussian {
    if b.sigma.is_infinite() {
        return a;
    }
    if a.sigma.is_infinite() {
        return b;
    }
    let s1 = a.sigma.powi(2);
    let s2 = b.sigma.powi(2);
    Gaussian { mu: (a.mu * s2 + b.mu * s1) / (s1 + s2), sigma: a.sigma * b.sigma / (s1 + s2).sqrt() }
}

fn quot(a: Gaussian, b: Gaussian) -> Gaussian {
    if b.sigma.is_infinite() {
        return a;
    }
    let s1 = a.sigma.powi(2);
    let s2 = b.sigma.powi(2);
    Gaussian {
        mu: (a.mu * s2 - b.mu * s1) / (s2 - s1),
        sigma: a.sigma * b.sigma / (s2 - s1).abs().sqrt(),
    }
}

fn gauss_exponent(mu: f64, sigma: f64, t: f64) -> f64 {
    (-((t - mu) / sigma).powi(2)).exp()
}

fn moment0(mu: f64, sigma: f64, t: f64) -> f64 {
    sigma * std::f64::consts::PI.sqrt() / 2. * erfc((t - mu) / sigma)
}

fn moment1(mu: f64, sigma: f64, t: f64) -> f64 {
    mu * moment0(0., sigma, t - mu) + sigma.powi(2) / 2. * gauss_exponent(mu, sigma, t)
}

fn moment2(mu: f64, sigma: f64, t: f64) -> f64 {
    mu.powi(2) * moment0(0., sigma, t - mu)
        + 2. * mu * moment1(0., sigma, t - mu)
        + sigma.powi(2) / 4.
            * (2. * gauss_exponent(mu, sigma, t) * (t - mu)
                + sigma * std::f64::consts::PI.sqrt() * erfc((t - mu) / sigma))
}

fn leq_eps(g: Gaussian, eps: f64) -> Gaussian {
    let alpha = moment0(g.mu, g.sigma, -eps) - moment0(g.mu, g.sigma, eps);
    if alpha < PREC {
        return quot(Gaussian { mu: 0., sigma: (1. / 3. as f64).sqrt() }, g);
    }
    let mu = 1. / alpha * (moment1(g.mu, g.sigma, -eps) - moment1(g.mu, g.sigma, eps));
    let sigma2 =
        1. / alpha * (moment2(g.mu, g.sigma, -eps) - moment2(g.mu, g.sigma, eps)) - mu.powi(2);
    let sigma = sigma2.sqrt();
    assert!(!mu.is_nan() && !sigma.is_nan());
    quot(Gaussian { mu, sigma }, g)
}

fn greater_eps(g: Gaussian, eps: f64) -> Gaussian {
    let alpha = moment0(g.mu, g.sigma, eps);
    if alpha < PREC {
        return quot(Gaussian { mu: eps, sigma: g.sigma / (2. as f64).sqrt() }, g);
    }
    let mu = 1. / alpha * moment1(g.mu, g.sigma, eps);
    let sigma2 = 1. / alpha * moment2(g.mu, g.sigma, eps) - mu.powi(2);
    let sigma = sigma2.sqrt();
    assert!(!mu.is_nan() && !sigma.is_nan());
    quot(Gaussian { mu, sigma }, g)
}

struct Machine {
    slots: HashMap<Slot, Gaussian>,
}

impl Machine {
    fn get(&self, slot: &Slot) -> Gaussian {
        *self.slots.get(slot).unwrap()
    }

    fn execute(&mut self, ops: &[Op]) {
        for op in ops {
            let (dst, value) = match op {
                Op::Load { dst, value } => (
                    dst,
                    match value {
                        Seed::One => ONE,
                        Seed::Zero => ZERO,
                        Seed::Noise => Gaussian { mu: 0., sigma: BETA },
                        Seed::Newcomer => Gaussian { mu: MU, sigma: SIGMA },
                    },
                ),
                Op::Copy { dst, src } => (dst, self.get(src)),
                Op::Sum { dst, lhs, rhs } => (dst, sum(self.get(lhs), self.get(rhs))),
                Op::Diff { dst, lhs, rhs } => (dst, diff(self.get(lhs), self.get(rhs))),
                Op::Prod { dst, lhs, rhs } => (dst, prod(self.get(lhs), self.get(rhs))),
                Op::Quot { dst, lhs, rhs } => (dst, quot(self.get(lhs), self.get(rhs))),
                Op::Leq { dst, src, eps } => (dst, leq_eps(self.get(src), *eps as f64 / 1000.)),
                Op::Greater { dst, src, eps } => {
                    (dst, greater_eps(self.get(src), *eps as f64 / 1000.))
                }
                Op::Age { dst, src, elapsed } => {
                    let g = self.get(src);
                    (
                        dst,
                        Gaussian {
                            mu: g.mu,
                            sigma: f64::min(SIGMA, g.sigma + *elapsed as f64 * SIGMA_GROWTH),
                        },
                    )
                }
            };
            self.slots.insert(*dst, value);
        }
    }

    fn distance(&self, edges: &[usize]) -> f64 {
        let mut ret: f64 = 0.;
        for e in edges {
            let up = self.get(&Slot::Up(*e));
            let old_up = self.get(&Slot::PastUp(*e));
            let down = self.get(&Slot::Down(*e));
            let old_down = self.get(&Slot::PastDown(*e));
            ret = f64::max(
                ret,
                f64::max(
                    f64::max(f64::abs(up.mu - old_up.mu), f64::abs(up.sigma - old_up.sigma)),
                    f64::max(
                        f64::abs(down.mu - old_down.mu),
                        f64::abs(down.sigma - old_down.sigma),
                    ),
                ),
            );
        }
        ret
    }
}

type History = HashMap<String, Vec<(Gaussian, usize)>>;

fn contest_of(places: &[&[&[&str]]]) -> Vec<Vec<Vec<String>>> {
    places
        .iter()
        .map(|place| place.iter().map(|team| team.iter().map(|p| p.to_string()).collect()).collect())
        .collect()
}

/// Rates one contest and returns what the players came with, aged, and the
/// number of rounds.
fn simulate_contest(
    history: &mut History,
    contest: &Vec<Vec<Vec<String>>>,
    when: usize,
) -> (Vec<Gaussian>, usize) {
    let mut machine = Machine { slots: HashMap::new() };
    let mut seen = Vec::new();
    for (k, place) in contest.iter().enumerate() {
        let mut rows = Vec::new();
        for (j, team) in place.iter().enumerate() {
            let mut row = Vec::new();
            for (i, player) in team.iter().enumerate() {
                match history.get(player).and_then(|entries| entries.last()) {
                    Some((rating, then)) => {
                        assert!(*then <= when);
                        machine.slots.insert(Slot::Rating(k, j, i), *rating);
                        row.push(Some(*then));
                    }
                    None => row.push(None),
                }
            }
            rows.push(row);
        }
        seen.push(rows);
    }
    let mut arrivals = Vec::new();
    load_rating(&seen, when, &mut arrivals);
    machine.execute(&arrivals);
    let mut came = Vec::new();
    for (k, place) in contest.iter().enumerate() {
        for (j, team) in place.iter().enumerate() {
            for i in 0..team.len() {
                came.push(machine.get(&Slot::Rating(k, j, i)));
            }
        }
    }
    let mut run = Inference::new(contest);
    let mut settled = false;
    loop {
        match run.step(settled) {
            Action::Execute(ops) => machine.execute(&ops),
            Action::Compare(edges) => settled = machine.distance(&edges) < CONVERGENCE_EPS,
            Action::Done => break,
        }
    }
    // a player who is listed twice keeps the result of the last listing
    let mut rating: HashMap<&String, Gaussian> = HashMap::new();
    for (k, place) in contest.iter().enumerate() {
        for (j, team) in place.iter().enumerate() {
            for (i, player) in team.iter().enumerate() {
                rating.insert(player, machine.get(&Slot::Rating(k, j, i)));
            }
        }
    }
    for place in contest {
        for team in place {
            for player in team {
                let entry = (*rating.get(player).unwrap(), when);
                history.entry(player.clone()).or_insert(Vec::new()).push(entry);
            }
        }
    }
    (came, run.rounds())
}

fn last(history: &History, player: &str) -> Gaussian {
    history.get(player).unwrap().last().unwrap().0
}

#[test]
fn constants_of_the_arithmetic() {
    assert_eq!(BETA, 200.);
    assert_eq!(MU, 1500.);
    assert_eq!(SIGMA, MU / 3.);
    assert_eq!(CONVERGENCE_EPS, 2e-4);
    assert_eq!(SIGMA_GROWTH, 1e5);
    assert_eq!(rating_system::EPS as f64 / 1000., 0.736);
    assert_eq!(rating_system::GAP as f64 / 1000., 2. * 0.736);
}

#[test]
fn three_player_total_order() {
    let mut history = History::new();
    let contest = contest_of(&[&[&["A"]], &[&["B"]], &[&["C"]]]);
    let (_, rounds) = simulate_contest(&mut history, &contest, 0);
    let (a, b, c) = (last(&history, "A"), last(&history, "B"), last(&history, "C"));
    println!("{:?} {:?} {:?} rounds {}", a, b, c, rounds);
    assert!(a.mu > b.mu && b.mu > c.mu);
    assert!(a.sigma < 500. && b.sigma < 500. && c.sigma < 500.);
    assert!((a.mu + b.mu + c.mu - 3. * 1500.).abs() < 1.);
    assert!((a.mu - 1777.5170753119153).abs() < 1e-6);
    assert!((b.sigma - 343.3515376486814).abs() < 1e-6);
    assert_eq!(rounds, 7);
}

#[test]
fn two_tied_winners_one_loser() {
    let mut history = History::new();
    let contest = contest_of(&[&[&["A"], &["B"]], &[&["C"]]]);
    let (_, rounds) = simulate_contest(&mut history, &contest, 0);
    let (a, b, c) = (last(&history, "A"), last(&history, "B"), last(&history, "C"));
    assert!((a.mu - b.mu).abs() < 0.1);
    assert!(a.mu > c.mu);
    assert!((a.mu - 1607.1971071783905).abs() < 1e-6);
    assert!((c.mu - 1285.605785643158).abs() < 1e-6);
    assert!(rounds <= 200);
}

#[test]
fn symmetric_two_team_pair() {
    let mut history = History::new();
    simulate_contest(&mut history, &contest_of(&[&[&["A"]], &[&["B"]]]), 0);
    let (a, b) = (last(&history, "A"), last(&history, "B"));
    assert!((a.mu - 1685.6082858613938).abs() < 1e-6);
    assert!((b.mu - 1314.391714138596).abs() < 1e-6);
    assert!((a.sigma - b.sigma).abs() < 1e-6);
    simulate_contest(&mut history, &contest_of(&[&[&["B"]], &[&["A"]]]), 1);
    let (a, b) = (last(&history, "A"), last(&history, "B"));
    // the two results do not cancel: the second winner ends above the first
    assert!(b.mu > a.mu);
    assert!((a.mu + b.mu - 3000.).abs() < 1.);
    assert!((a.sigma - b.sigma).abs() < 1e-6);
    assert!(a.sigma < 500. && b.sigma < 500.);
    assert!((a.mu - 1387.461392714761).abs() < 1e-6);
    assert!((b.mu - 1612.5386072853619).abs() < 1e-6);
    assert_eq!(history.get("A").unwrap().len(), 2);
    assert_eq!(history.get("A").unwrap()[1].1, 1);
}

#[test]
fn sigma_growth() {
    let mut history = History::new();
    simulate_contest(&mut history, &contest_of(&[&[&["A"]], &[&["B"]]]), 0);
    let after_first = last(&history, "A");
    assert!(after_first.sigma < 500.);
    let (came, _) = simulate_contest(&mut history, &contest_of(&[&[&["A"]], &[&["C"]]]), 10);
    // A had ten seconds to grow by 10^5 a second, and is held at 500
    assert_eq!(came[0].sigma, 500.);
    assert_eq!(came[0].mu, after_first.mu);
    // C is new
    assert_eq!(came[1].mu, 1500.);
    assert_eq!(came[1].sigma, 500.);
}

#[test]
fn no_growth_without_elapsed_time() {
    let mut history = History::new();
    simulate_contest(&mut history, &contest_of(&[&[&["A"]], &[&["B"]]]), 7);
    let after_first = last(&history, "A");
    let (came, _) = simulate_contest(&mut history, &contest_of(&[&[&["A"]], &[&["B"]]]), 7);
    assert_eq!(came[0].sigma, after_first.sigma);
    assert_eq!(came[0].mu, after_first.mu);
}

#[test]
fn single_place_all_tied() {
    let mut history = History::new();
    let contest = contest_of(&[&[&["A"], &["B"], &["C"]]]);
    let (_, rounds) = simulate_contest(&mut history, &contest, 0);
    let (a, b, c) = (last(&history, "A"), last(&history, "B"), last(&history, "C"));
    // no round between places: the place is never refreshed
    assert_eq!(rounds, 0);
    assert_eq!((a.mu, a.sigma), (b.mu, b.sigma));
    assert_eq!((b.mu, b.sigma), (c.mu, c.sigma));
    assert!(a.mu.is_finite() && a.sigma.is_finite());
    assert!(a.sigma < 500.);
    assert!((a.mu - 206.89655172413782).abs() < 1e-6);
    assert!((a.sigma - 185.69600518497094).abs() < 1e-6);
}

#[test]
fn single_player_alone() {
    let mut history = History::new();
    let (_, rounds) = simulate_contest(&mut history, &contest_of(&[&[&["A"]]]), 0);
    assert_eq!(rounds, 0);
    let a = last(&history, "A");
    assert!((a.mu - 206.89655172413782).abs() < 1e-6);
    assert!((a.sigma - 185.69600518497094).abs() < 1e-6);
}

#[test]
fn teams_of_several_players() {
    let mut history = History::new();
    let contest = contest_of(&[&[&["A", "B"]], &[&["C", "D"], &["E"]]]);
    let (_, rounds) = simulate_contest(&mut history, &contest, 0);
    assert!((last(&history, "A").mu - 1523.3559871000566).abs() < 1e-6);
    assert!((last(&history, "B").mu - 1523.3559871000566).abs() < 1e-6);
    assert!((last(&history, "C").mu - 1061.1805428146708).abs() < 1e-6);
    assert!((last(&history, "E").mu - 1915.4634700849035).abs() < 1e-6);
    assert!((last(&history, "E").sigma - 395.73721212288467).abs() < 1e-6);
    assert_eq!(rounds, 3);
}

#[test]
fn empty_contest_is_a_no_op() {
    let mut history = History::new();
    let contest: Vec<Vec<Vec<String>>> = Vec::new();
    let (came, rounds) = simulate_contest(&mut history, &contest, 0);
    assert!(came.is_empty());
    assert_eq!(rounds, 0);
    assert!(history.is_empty());
    let mut run = Inference::new(&contest);
    assert_eq!(run.step(false), Action::Done);
    assert_eq!(run.step(true), Action::Done);
}

#[test]
fn convergence_bound() {
    // twenty places of one player each
    let contest: Vec<Vec<Vec<String>>> = (0..20).map(|k| vec![vec![format!("p{}", k)]]).collect();
    let mut history = History::new();
    let (_, rounds) = simulate_contest(&mut history, &contest, 0);
    println!("rounds until convergence: {}", rounds);
    assert_eq!(rounds, 12);
    assert!(rounds <= 200);
    assert!((last(&history, "p0").mu - 2116.6841421902304).abs() < 1e-5);
    assert!((last(&history, "p19").mu - 883.3158578091691).abs() < 1e-5);
    for k in 0..20 {
        let rating = last(&history, &format!("p{}", k));
        assert!(rating.mu.is_finite() && rating.sigma.is_finite());
        assert!(rating.sigma < 500.);
    }
}

#[test]
fn convergence_bound_of_teams() {
    // ten places of one team of three each
    let contest: Vec<Vec<Vec<String>>> =
        (0..10).map(|k| vec![(0..3).map(|i| format!("t{}_{}", k, i)).collect()]).collect();
    let mut history = History::new();
    let (_, rounds) = simulate_contest(&mut history, &contest, 0);
    assert_eq!(rounds, 11);
    assert!((last(&history, "t0_0").mu - 1791.243628993132).abs() < 1e-5);
    assert!((last(&history, "t9_2").mu - 1208.7563710066743).abs() < 1e-5);
}

#[test]
fn convergence_bound_of_five_hundred_contestants() {
    // two places of 250 tied players each
    let contest: Vec<Vec<Vec<String>>> =
        (0..2).map(|q| (0..250).map(|k| vec![format!("p{}_{}", q, k)]).collect()).collect();
    let mut history = History::new();
    let (_, rounds) = simulate_contest(&mut history, &contest, 0);
    assert_eq!(rounds, 3);
    assert!(rounds <= 200);
    assert!((last(&history, "p0_0").mu - 1512.1202306718071).abs() < 1e-5);
    assert!((last(&history, "p1_249").mu - 1487.879769328175).abs() < 1e-5);
}

#[test]
fn repeated_player_keeps_the_last_result() {
    let mut history = History::new();
    let contest = contest_of(&[&[&["A"]], &[&["B"]], &[&["A"]]]);
    simulate_contest(&mut history, &contest, 0);
    let entries = history.get("A").unwrap();
    assert_eq!(entries.len(), 2);
    assert!(entries[0].0.mu.is_finite());
    assert_eq!(entries[0].0.mu, entries[1].0.mu);
    assert_eq!(entries[0].0.sigma, entries[1].0.sigma);
    assert_eq!(history.get("B").unwrap().len(), 1);
}

fn close(a: f64, b: f64) -> bool {
    (a - b).abs() <= 1e-9 * (1. + a.abs().max(b.abs()))
}

fn same(a: Gaussian, b: Gaussian) -> bool {
    close(a.mu, b.mu) && close(a.sigma, b.sigma)
}

const SAMPLES: [Gaussian; 4] = [
    Gaussian { mu: 0.25, sigma: 0.5 },
    Gaussian { mu: 0.9, sigma: 0.125 },
    Gaussian { mu: 0.0, sigma: 1.0 },
    Gaussian { mu: 0.6, sigma: 0.75 },
];

#[test]
fn arithmetic_sum_laws() {
    for a in SAMPLES {
        assert!(same(sum(a, ZERO), a));
        for b in SAMPLES {
            assert!(same(sum(a, b), sum(b, a)));
            let half = Gaussian { mu: sum(a, b).mu * 0.5, sigma: sum(a, b).sigma * 0.5 };
            assert!(close(half.mu, (a.mu + b.mu) / 2.));
            for c in SAMPLES {
                assert!(same(sum(sum(a, b), c), sum(a, sum(b, c))));
            }
        }
    }
    let d = diff(Gaussian { mu: 5., sigma: 3. }, Gaussian { mu: 2., sigma: 4. });
    assert_eq!((d.mu, d.sigma), (3., 5.));
    let s = sum(Gaussian { mu: 5., sigma: 3. }, Gaussian { mu: 2., sigma: 4. });
    assert_eq!((s.mu, s.sigma), (7., 5.));
}

#[test]
fn arithmetic_identity_laws() {
    for a in SAMPLES {
        let c = prod(a, ONE);
        assert_eq!((c.mu, c.sigma), (a.mu, a.sigma));
        let c = prod(ONE, a);
        assert_eq!((c.mu, c.sigma), (a.mu, a.sigma));
        let c = quot(a, ONE);
        assert_eq!((c.mu, c.sigma), (a.mu, a.sigma));
    }
    let equal = prod(Gaussian { mu: 0.2, sigma: 0.5 }, Gaussian { mu: 0.8, sigma: 0.5 });
    assert!(close(equal.mu, 0.5));
    assert!(close(equal.sigma, 0.5 / (2. as f64).sqrt()));
}

#[test]
fn arithmetic_product_and_quotient_cancel() {
    for (mu, sigma) in [(100., 0.3), (150., 0.7), (200., 0.05)] {
        for (other_mu, other_sigma) in [(0.4, 300.), (0.1, 500.), (0.9, 700.)] {
            let a = Gaussian { mu, sigma };
            let b = Gaussian { mu: other_mu, sigma: other_sigma };
            assert!(same(quot(prod(a, b), b), a));
            assert!(same(prod(quot(a, b), b), a));
        }
    }
}

#[test]
fn arithmetic_quotient_by_itself_is_not_finite() {
    for a in SAMPLES {
        let c = quot(a, a);
        assert!(!(c.mu.is_finite() && c.sigma.is_finite()));
    }
}

#[test]
fn arithmetic_truncation_is_finite() {
    for g in [SAMPLES[0], SAMPLES[2], Gaussian { mu: 100., sigma: 300. }, Gaussian { mu: 1500., sigma: 500. }] {
        for eps in [0., 0.5, 0.736, 5., 50., 1000.] {
            let c = leq_eps(g, eps);
            assert!(c.mu.is_finite() && c.sigma.is_finite(), "{:?} {}", g, eps);
        }
    }
    let c = leq_eps(Gaussian { mu: 0., sigma: 1. }, 0.736);
    assert!(close(c.mu, 0.) && (c.sigma - 0.42977514916156717).abs() < 1e-9);
    let c = greater_eps(Gaussian { mu: 1., sigma: 2. }, 0.5);
    assert!(c.mu.is_finite() && c.sigma.is_finite());
}

#[test]
fn arithmetic_truncation_falls_back_on_little_mass() {
    // hardly any mass of N(1500, 500) lies within 0.736 of zero
    let g = Gaussian { mu: 1500., sigma: 500. };
    let alpha = moment0(g.mu, g.sigma, -0.736) - moment0(g.mu, g.sigma, 0.736);
    assert!(alpha < PREC);
    let c = leq_eps(g, 0.736);
    let fallback = quot(Gaussian { mu: 0., sigma: (1. / 3. as f64).sqrt() }, g);
    assert_eq!((c.mu, c.sigma), (fallback.mu, fallback.sigma));
    assert!(c.mu.is_finite() && c.sigma.is_finite());
    assert!((c.sigma - 0.57735065409019).abs() < 1e-9);
    // nor above 5000
    let c = greater_eps(g, 5000.);
    let fallback = quot(Gaussian { mu: 5000., sigma: 500. / (2. as f64).sqrt() }, g);
    assert_eq!((c.mu, c.sigma), (fallback.mu, fallback.sigma));
}
