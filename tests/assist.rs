use illu_logi::assist::{get_hints_hidden, mask_line, set_inner, weak_pass_line};
use illu_logi::deduce::Infeasible;

fn cells(s: &str) -> Vec<Option<bool>> {
    s.chars()
        .map(|c| match c {
            'o' => Some(true),
            '.' => Some(false),
            _ => None,
        })
        .collect()
}

#[test]
fn mask_of_decided_lines() {
    assert_eq!(mask_line(&cells("oo.o"), &vec![2, 1]), vec![true, true]);
    assert_eq!(mask_line(&cells("o.oo"), &vec![2, 1]), vec![false, false]);
}

#[test]
fn mask_of_overfilled_line() {
    assert_eq!(mask_line(&cells("ooo?"), &vec![1, 1]), vec![false, false]);
}

#[test]
fn mask_from_front_and_back() {
    assert_eq!(mask_line(&cells("oo.???"), &vec![2, 1]), vec![true, false]);
    assert_eq!(mask_line(&cells("???.oo"), &vec![1, 2]), vec![false, true]);
    assert_eq!(mask_line(&cells("o.??.o"), &vec![1, 3, 1]), vec![true, false, true]);
}

#[test]
fn mask_when_unknowns_complete_the_line() {
    // reading the unknown cells as filled matches
    assert_eq!(mask_line(&cells("o?o"), &vec![3]), vec![true]);
    // reading them as empty matches
    assert_eq!(mask_line(&cells("o??"), &vec![1]), vec![true]);
}

#[test]
fn hints_hidden_for_board() {
    let board = vec![cells("oo"), cells("?.")];
    let hints = (vec![vec![2], vec![1]], vec![vec![1], vec![1]]);
    let (rows, cols) = get_hints_hidden(&board, &hints);
    assert_eq!(rows, vec![vec![true], vec![true]]);
    assert_eq!(cols, vec![vec![true], vec![true]]);
}

#[test]
fn weak_pass_rules() {
    assert_eq!(weak_pass_line(&cells("o???"), &vec![4]), cells("oooo"));
    assert_eq!(weak_pass_line(&cells("o???"), &vec![1]), cells("o..."));
    assert_eq!(weak_pass_line(&cells("o???"), &vec![1, 1]), cells("o.??"));
    assert_eq!(weak_pass_line(&cells("???o"), &vec![1, 1]), cells("??.o"));
    assert_eq!(weak_pass_line(&cells("oo??"), &vec![1]), cells("oo??"));
}

#[test]
fn set_fills_a_full_row() {
    let mut board = vec![cells("?????")];
    let hints = (vec![vec![5]], vec![vec![1]; 5]);
    assert_eq!(set_inner(0, 0, Some(true), &mut board, &hints), Ok(()));
    assert_eq!(board, vec![cells("ooooo")]);
}

#[test]
fn set_closes_a_run() {
    let mut board = vec![cells("????")];
    let hints = (vec![vec![1, 1]], vec![vec![1], vec![], vec![1], vec![]]);
    assert_eq!(set_inner(0, 0, Some(true), &mut board, &hints), Ok(()));
    assert_eq!(board, vec![cells("o.??")]);
}

#[test]
fn set_propagates_through_columns() {
    let mut board = vec![cells("??"), cells("??")];
    let hints = (vec![vec![2], vec![1]], vec![vec![2], vec![1]]);
    assert_eq!(set_inner(0, 0, Some(true), &mut board, &hints), Ok(()));
    assert_eq!(board, vec![cells("oo"), cells("o.")]);
}

#[test]
fn set_can_clear_a_cell() {
    let mut board = vec![cells("o.")];
    let hints = (vec![vec![1]], vec![vec![1], vec![]]);
    assert_eq!(set_inner(0, 0, None, &mut board, &hints), Ok(()));
    assert_eq!(board, vec![cells("o.")]);
}

#[test]
fn set_reports_a_contradiction() {
    // two filled cells in a row whose hint allows one
    let mut board = vec![cells("o??")];
    let hints = (vec![vec![1]], vec![vec![1], vec![1], vec![]]);
    assert_eq!(set_inner(0, 1, Some(true), &mut board, &hints), Err(Infeasible));
    // a decided row whose runs differ from its hint
    let mut board = vec![cells("o.")];
    let hints = (vec![vec![2]], vec![vec![1], vec![1]]);
    assert_eq!(set_inner(0, 1, Some(false), &mut board, &hints), Err(Infeasible));
}
