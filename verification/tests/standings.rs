use trueskill_spb::standings::contest_adaptor;

fn row(handle: &str, lo: usize, hi: usize) -> (String, usize, usize) {
    (handle.to_string(), lo, hi)
}

fn names(contest: &Vec<Vec<Vec<String>>>) -> Vec<Vec<Vec<&str>>> {
    contest
        .iter()
        .map(|place| place.iter().map(|team| team.iter().map(|p| p.as_str()).collect()).collect())
        .collect()
}

#[test]
fn equal_ranks_share_a_place() {
    let standings =
        vec![row("a", 1, 1), row("b", 2, 3), row("c", 2, 3), row("d", 4, 4), row("e", 5, 6), row("f", 5, 6)];
    let contest = contest_adaptor(&standings);
    assert_eq!(
        names(&contest),
        vec![vec![vec!["a"]], vec![vec!["b"], vec!["c"]], vec![vec!["d"]], vec![vec!["e"], vec!["f"]]]
    );
}

#[test]
fn no_rows_no_places() {
    let contest = contest_adaptor(&Vec::new());
    assert!(contest.is_empty());
}

#[test]
fn one_row_one_place() {
    let contest = contest_adaptor(&vec![row("only", 1, 1)]);
    assert_eq!(names(&contest), vec![vec![vec!["only"]]]);
}

#[test]
fn all_tied_is_one_place() {
    let contest = contest_adaptor(&vec![row("a", 1, 3), row("b", 1, 3), row("c", 1, 3)]);
    assert_eq!(names(&contest), vec![vec![vec!["a"], vec!["b"], vec!["c"]]]);
}

#[test]
fn largest_rank_opens_a_place_too() {
    let contest = contest_adaptor(&vec![row("a", usize::MAX, usize::MAX)]);
    assert_eq!(names(&contest), vec![vec![vec!["a"]]]);
}

#[test]
fn only_the_best_rank_decides() {
    let contest = contest_adaptor(&vec![row("a", 1, 2), row("b", 1, 9), row("c", 3, 3)]);
    assert_eq!(names(&contest), vec![vec![vec!["a"], vec!["b"]], vec![vec!["c"]]]);
}
