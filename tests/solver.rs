use rand::{Rng, SeedableRng};
use illu_logi::deduce::{enumerate, overlap_fill, scan_back, scan_front, solve_line, Infeasible};
use illu_logi::generator::{board_hints, gen_inner};
use illu_logi::line::compress;
use illu_logi::solver::{Outcome, Solver};

fn hints(v: &[&[usize]]) -> Vec<Vec<usize>> {
    v.iter().map(|h| h.to_vec()).collect()
}

fn render(s: &Solver) -> Vec<String> {
    (0..s.h)
        .map(|y| {
            (0..s.w)
                .map(|x| match s.grid[y * s.w + x] {
                    Some(true) => 'o',
                    Some(false) => '.',
                    None => '?',
                })
                .collect()
        })
        .collect()
}

#[test]
fn test() {}

#[test]
fn compress_runs_of_filled_cells() {
    let line = [false, true, true, true, false, true, true, true, true, false];
    assert_eq!(compress(&line), vec![3, 4]);
    assert_eq!(compress(&[]), Vec::<usize>::new());
    assert_eq!(compress(&[false, false]), Vec::<usize>::new());
    assert_eq!(compress(&[true; 5]), vec![5]);
}

#[test]
fn test_solve() {
    let h = hints(&[&[2], &[2], &[3], &[5], &[4]]);
    let mut solver = Solver::new(5, 5, (h.clone(), h));
    assert_eq!(solver.solve(), Outcome::Solved);
    assert!(solver.grid.iter().all(|c| c.is_some()));
    assert_eq!(render(&solver), vec!["...oo", "...oo", "..ooo", "ooooo", "oooo."]);

    let rows = hints(&[
        &[2, 2],
        &[1, 1, 1, 1],
        &[15],
        &[4, 1, 4],
        &[3, 3, 3],
        &[1, 1, 1],
        &[1, 3, 1],
        &[1, 1, 1],
        &[3, 1, 1, 3],
        &[1, 1, 1, 1],
        &[3, 3, 3],
        &[1, 1, 1],
        &[2, 2],
        &[2, 2],
        &[11],
    ]);
    let cols = hints(&[
        &[4, 7],
        &[1, 4, 1, 1, 2],
        &[5, 1, 1, 2],
        &[2, 1],
        &[1, 2, 1],
        &[1, 1],
        &[1, 1, 1, 1, 1],
        &[6, 2, 1],
        &[1, 1, 1, 1, 1],
        &[1, 1],
        &[1, 2, 1],
        &[2, 1],
        &[5, 1, 1, 2],
        &[1, 4, 1, 1, 2],
        &[4, 7],
    ]);
    let mut solver = Solver::new(15, 15, (rows, cols));
    let outcome = solver.solve();
    assert_ne!(outcome, Outcome::Infeasible);
}

#[test]
fn test_solve_random() {
    let mut rng = rand_chacha::ChaCha20Rng::seed_from_u64(0);
    let (h, w) = (20, 20);
    let board: Vec<bool> = (0..h * w).map(|_| rng.gen_bool(0.5)).collect();
    let hints = board_hints(&board, h, w);
    let mut solver = Solver::new(h, w, hints);
    let outcome = solver.solve();
    assert_ne!(outcome, Outcome::Infeasible);
    for p in 0..h * w {
        if let Some(v) = solver.grid[p] {
            assert_eq!(v, board[p]);
        }
    }
}

#[test]
fn generate_is_deterministic_and_valid() {
    let a = gen_inner(6, 6, 42).unwrap();
    let b = gen_inner(6, 6, 42).unwrap();
    assert_eq!(a.0, b.0);
    assert_eq!(a.1, b.1);
    assert_eq!(a.0.len(), 36);
    for row in a.1 .0.iter() {
        assert!(!row.is_empty());
        assert!(!(row.len() == 1 && row[0] == 6));
    }
    let mut solver = Solver::new(6, 6, a.1.clone());
    assert_eq!(solver.solve(), Outcome::Solved);
    let plain: Vec<bool> = solver.grid.iter().map(|c| c.unwrap()).collect();
    assert_eq!(plain, a.0);
}

#[test]
fn line_techniques() {
    // overlap: a run of 4 in 6 cells fills the middle two
    let mut line = vec![None; 6];
    assert_eq!(overlap_fill(&mut line, &vec![4]), Ok(()));
    assert_eq!(line, vec![None, None, Some(true), Some(true), None, None]);

    // edge scan: a filled first cell fixes the first run
    let mut line = vec![Some(true), None, None, None, None];
    assert_eq!(scan_front(&mut line, &vec![2, 1]), Ok(()));
    assert_eq!(&line[..2], &[Some(true), Some(true)]);

    let mut line = vec![None, None, None, None, Some(true)];
    assert_eq!(scan_back(&mut line, &vec![1, 2]), Ok(()));
    assert_eq!(&line[3..], &[Some(true), Some(true)]);

    // a gap shorter than the run is empty
    let mut line = vec![None, Some(false), None, None, None];
    assert_eq!(scan_front(&mut line, &vec![3]), Ok(()));
    assert_eq!(line[0], Some(false));

    // enumeration decides every forced cell
    let mut line = vec![None, None, None];
    assert_eq!(enumerate(&mut line, &vec![1, 1]), Ok(()));
    assert_eq!(line, vec![Some(true), Some(false), Some(true)]);

    // contradictions
    let mut line = vec![Some(true), Some(false), None];
    assert_eq!(scan_front(&mut line, &vec![2]), Err(Infeasible));
    let mut line = vec![None, None];
    assert_eq!(enumerate(&mut line, &vec![3]), Err(Infeasible));
    let mut line = vec![None; 4];
    assert_eq!(solve_line(&mut line, &vec![2, 2]), Err(Infeasible));
}

#[test]
fn solving_a_solved_board_changes_nothing() {
    let h = hints(&[&[2], &[2], &[3], &[5], &[4]]);
    let mut solver = Solver::new(5, 5, (h.clone(), h));
    assert_eq!(solver.solve(), Outcome::Solved);
    let before = solver.grid.clone();
    assert_eq!(solver.solve(), Outcome::Solved);
    assert_eq!(solver.grid, before);
}

#[test]
fn ambiguous_puzzle_stalls() {
    let h = hints(&[&[1], &[1]]);
    let mut solver = Solver::new(2, 2, (h.clone(), h));
    assert_eq!(solver.solve(), Outcome::Stalled);
    assert!(solver.grid.iter().all(|c| c.is_none()));
}

#[test]
fn contradictory_hints_are_infeasible() {
    let mut solver = Solver::new(1, 1, (hints(&[&[1]]), hints(&[&[]])));
    assert_eq!(solver.solve(), Outcome::Infeasible);
    let mut solver = Solver::new(1, 2, (hints(&[&[3]]), hints(&[&[1], &[1]])));
    assert_eq!(solver.solve(), Outcome::Infeasible);
    let mut solver = Solver::new(1, 1, (hints(&[&[0]]), hints(&[&[]])));
    assert_eq!(solver.solve(), Outcome::Infeasible);
}

#[test]
fn board_hints_of_a_board() {
    let board = vec![true, true, false, false, true, true];
    let (rows, cols) = board_hints(&board, 2, 3);
    assert_eq!(rows, vec![vec![2], vec![2]]);
    assert_eq!(cols, vec![vec![1], vec![2], vec![1]]);
}

#[test]
fn generator_seeds_differ() {
    let a = gen_inner(5, 5, 1).unwrap();
    let b = gen_inner(5, 5, 2).unwrap();
    assert_ne!(a.0, b.0);
    for (x, col) in a.1 .1.iter().enumerate() {
        assert!(!col.is_empty(), "column {} empty", x);
        assert!(!(col.len() == 1 && col[0] == 5));
    }
    assert_eq!(board_hints(&a.0, 5, 5), a.1);
}

#[test]
fn generator_on_wide_boards() {
    let (board, (rows, cols)) = gen_inner(3, 7, 7).unwrap();
    assert_eq!(board.len(), 21);
    assert_eq!(rows.len(), 3);
    assert_eq!(cols.len(), 7);
}

#[test]
fn enumeration_uses_every_combination() {
    let mut line = vec![None, Some(true), None, None, None];
    assert_eq!(enumerate(&mut line, &vec![2, 1]), Ok(()));
    assert_eq!(line[1], Some(true));
    assert_eq!(line[3], None);
    let mut line = vec![None; 5];
    assert_eq!(enumerate(&mut line, &vec![3, 1]), Ok(()));
    assert_eq!(line, vec![Some(true), Some(true), Some(true), Some(false), Some(true)]);
    let mut line = vec![None; 4];
    assert_eq!(enumerate(&mut line, &vec![]), Ok(()));
    assert_eq!(line, vec![Some(false); 4]);
}

#[test]
fn edge_scan_halts_when_ambiguous() {
    // a block longer than the run with an unknown first cell
    let mut line = vec![None; 4];
    assert_eq!(scan_front(&mut line, &vec![2]), Ok(()));
    assert_eq!(line, vec![None; 4]);
    // a block as long as the run but with no filled cell
    let mut line = vec![None, None, Some(false), None];
    assert_eq!(scan_front(&mut line, &vec![2, 1]), Ok(()));
    assert_eq!(line, vec![None, None, Some(false), None]);
    // a block as long as the run holding a filled cell is filled, a block
    // too short for the next run is emptied, and the scan goes on
    let mut line = vec![None, Some(true), Some(false), None, Some(false), Some(true), None, None];
    assert_eq!(scan_front(&mut line, &vec![2, 3]), Ok(()));
    assert_eq!(
        line,
        vec![Some(true), Some(true), Some(false), Some(false), Some(false), Some(true), Some(true), Some(true)]
    );
}

#[test]
fn overlap_of_two_runs() {
    let mut line = vec![None; 6];
    assert_eq!(overlap_fill(&mut line, &vec![3, 1]), Ok(()));
    assert_eq!(line, vec![None, Some(true), Some(true), None, None, None]);
    let mut line = vec![None; 3];
    assert_eq!(overlap_fill(&mut line, &vec![2, 1]), Err(Infeasible));
    let mut line = vec![None; 4];
    assert_eq!(overlap_fill(&mut line, &vec![2, 1]), Ok(()));
    assert_eq!(line, vec![Some(true), Some(true), None, Some(true)]);
    let mut line = vec![None, None, Some(false)];
    assert_eq!(overlap_fill(&mut line, &vec![3]), Err(Infeasible));
}

#[test]
fn solved_board_matches_its_hints() {
    let h = hints(&[&[2], &[2], &[3], &[5], &[4]]);
    let mut solver = Solver::new(5, 5, (h.clone(), h.clone()));
    assert_eq!(solver.solve(), Outcome::Solved);
    let board: Vec<bool> = solver.grid.iter().map(|c| *c == Some(true)).collect();
    assert_eq!(board_hints(&board, 5, 5), (h.clone(), h));
}

#[test]
fn decided_board_against_its_hints_is_infeasible() {
    let mut solver = Solver::new(1, 2, (hints(&[&[1]]), hints(&[&[1], &[]])));
    solver.grid = vec![Some(false), Some(true)];
    assert_eq!(solver.solve(), Outcome::Infeasible);
}

#[test]
fn compress_inverts_expansion() {
    // gaps 0, 2, 1, 0 around runs 3, 1, 2
    let mut line = Vec::new();
    for (gap, run) in [(0usize, 3usize), (2, 1), (1, 2)] {
        line.extend(std::iter::repeat(false).take(gap));
        line.extend(std::iter::repeat(true).take(run));
    }
    assert_eq!(compress(&line), vec![3, 1, 2]);
    line.push(false);
    assert_eq!(compress(&line), vec![3, 1, 2]);
}
