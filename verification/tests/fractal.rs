use mandelbrot::fractal::Mandelbrot;
use mandelbrot::mandel::Magnitude;

fn reading(z: (f64, f64)) -> Magnitude {
    let size = z.0.powi(2) + z.1.powi(2);
    if size >= 4. {
        Magnitude::Outside
    } else if size.is_finite() && size < 4. {
        Magnitude::Inside
    } else {
        Magnitude::Unordered
    }
}

fn step(z: (f64, f64), c: (f64, f64)) -> (f64, f64) {
    (z.0.powi(2) - z.1.powi(2) + c.0, 2. * z.0 * z.1 + c.1)
}

fn centred(size: (usize, usize), scale: f64) -> Mandelbrot<(f64, f64)> {
    let mid_y = (size.0 - 1) as f64 / 2.;
    let mid_x = (size.1 - 1) as f64 / 2.;
    Mandelbrot::new(size, (0., 0.), |i: usize, j: usize| {
        ((i as f64 - mid_y) * scale, (j as f64 - mid_x) * scale)
    })
}

fn counts(state: &Mandelbrot<(f64, f64)>) -> Vec<Vec<usize>> {
    let grid = state.iters();
    (0..grid.rows())
        .map(|i| (0..grid.cols()).map(|j| *grid.get(i, j)).collect())
        .collect()
}

fn flags(state: &Mandelbrot<(f64, f64)>) -> Vec<Vec<bool>> {
    let grid = state.finished();
    (0..grid.rows())
        .map(|i| (0..grid.cols()).map(|j| *grid.get(i, j)).collect())
        .collect()
}

#[test]
fn new_state_is_blank() {
    let state = centred((3, 3), 1.);
    assert_eq!(state.total_iters(), 0);
    assert_eq!(counts(&state), vec![vec![0; 3]; 3]);
    assert_eq!(flags(&state), vec![vec![false; 3]; 3]);
    for i in 0..3 {
        for j in 0..3 {
            assert_eq!(*state.z().get(i, j), (0., 0.));
            assert_eq!(*state.c().get(i, j), (i as f64 - 1., j as f64 - 1.));
        }
    }
}

#[test]
fn one_pass_counts_the_steps_of_each_point() {
    let mut state = centred((3, 3), 1.);
    state.iter_inplace(5, &reading, &step);
    assert_eq!(state.total_iters(), 5);
    assert_eq!(counts(&state), vec![vec![3, 5, 3], vec![5, 5, 5], vec![2, 2, 2]]);
    assert_eq!(
        flags(&state),
        vec![vec![true, false, true], vec![false, false, false], vec![true, true, true]]
    );
}

#[test]
fn second_pass_skips_the_finished_points() {
    let mut state = centred((3, 3), 1.);
    state.iter_inplace(5, &reading, &step);
    let z_before: Vec<(f64, f64)> = (0..3).map(|j| *state.z().get(2, j)).collect();
    state.iter_inplace(5, &reading, &step);
    assert_eq!(state.total_iters(), 10);
    assert_eq!(counts(&state), vec![vec![3, 10, 3], vec![10, 10, 10], vec![2, 2, 2]]);
    let z_after: Vec<(f64, f64)> = (0..3).map(|j| *state.z().get(2, j)).collect();
    assert_eq!(z_before, z_after);
    assert_eq!(*state.z().get(2, 1), (2., 0.));
}

#[test]
fn point_that_escapes_on_the_last_step_is_finished_one_pass_later() {
    let mut state = centred((5, 5), 0.75);
    state.iter_inplace(4, &reading, &step);
    assert_eq!(
        counts(&state),
        vec![
            vec![1, 3, 4, 3, 1],
            vec![2, 4, 4, 4, 2],
            vec![2, 4, 4, 4, 2],
            vec![2, 2, 3, 2, 2],
            vec![1, 2, 2, 2, 1]
        ]
    );
    assert!(!*state.finished().get(1, 1));
    state.iter_inplace(4, &reading, &step);
    assert_eq!(
        counts(&state),
        vec![
            vec![1, 3, 8, 3, 1],
            vec![2, 4, 8, 4, 2],
            vec![2, 8, 8, 8, 2],
            vec![2, 2, 3, 2, 2],
            vec![1, 2, 2, 2, 1]
        ]
    );
    assert!(*state.finished().get(1, 1));
    assert_eq!(state.total_iters(), 8);
}

#[test]
fn passes_add_up_to_one_long_run() {
    let mut state = centred((5, 5), 0.75);
    for _ in 0..10 {
        state.iter_inplace(10, &reading, &step);
    }
    assert_eq!(state.total_iters(), 100);
    assert_eq!(
        counts(&state),
        vec![
            vec![1, 3, 100, 3, 1],
            vec![2, 4, 100, 4, 2],
            vec![2, 34, 100, 34, 2],
            vec![2, 2, 3, 2, 2],
            vec![1, 2, 2, 2, 1]
        ]
    );
}

#[test]
fn counts_never_decrease_and_stay_within_the_budget() {
    let mut state = centred((7, 9), 0.4);
    let mut before = counts(&state);
    for n in [0usize, 1, 3, 0, 10, 2, 50] {
        state.iter_inplace(n, &reading, &step);
        let after = counts(&state);
        for i in 0..7 {
            for j in 0..9 {
                assert!(before[i][j] <= after[i][j]);
                assert!(after[i][j] <= state.total_iters());
            }
        }
        before = after;
    }
    assert_eq!(state.total_iters(), 66);
}

#[test]
fn finished_points_are_never_touched_again() {
    let mut state = centred((7, 9), 0.4);
    for n in [2usize, 3, 0, 5, 20] {
        let was_finished = flags(&state);
        let old_counts = counts(&state);
        let old_z: Vec<Vec<(f64, f64)>> =
            (0..7).map(|i| (0..9).map(|j| *state.z().get(i, j)).collect()).collect();
        state.iter_inplace(n, &reading, &step);
        for i in 0..7 {
            for j in 0..9 {
                if was_finished[i][j] {
                    assert!(*state.finished().get(i, j));
                    assert_eq!(*state.iters().get(i, j), old_counts[i][j]);
                    assert_eq!(*state.z().get(i, j), old_z[i][j]);
                }
            }
        }
    }
}

#[test]
fn exploded_is_the_finished_grid_after_every_pass() {
    let mut state = centred((7, 9), 0.4);
    for n in [0usize, 4, 1, 0, 30] {
        state.iter_inplace(n, &reading, &step);
        let exploded = state.exploded();
        assert_eq!(exploded.rows(), 7);
        assert_eq!(exploded.cols(), 9);
        for i in 0..7 {
            for j in 0..9 {
                assert_eq!(*exploded.get(i, j), *state.finished().get(i, j));
                assert_eq!(*exploded.get(i, j), *state.iters().get(i, j) < state.total_iters());
            }
        }
    }
}

#[test]
fn pass_without_budget_changes_nothing() {
    let mut state = centred((3, 3), 1.);
    state.iter_inplace(5, &reading, &step);
    let old_counts = counts(&state);
    let old_flags = flags(&state);
    state.iter_inplace(0, &reading, &step);
    assert_eq!(state.total_iters(), 5);
    assert_eq!(counts(&state), old_counts);
    assert_eq!(flags(&state), old_flags);
}

#[test]
fn offsets_are_never_changed() {
    let mut state = centred((3, 3), 1.);
    state.iter_inplace(7, &reading, &step);
    for i in 0..3 {
        for j in 0..3 {
            assert_eq!(*state.c().get(i, j), (i as f64 - 1., j as f64 - 1.));
        }
    }
}

#[test]
fn state_renders_the_counts_of_the_escaped_points() {
    let mut state = centred((3, 3), 1.);
    state.iter_inplace(5, &reading, &step);
    state.iter_inplace(5, &reading, &step);
    assert_eq!(state.render(), "3 |   | 3\n  |   |  \n2 | 2 | 2\n");
    let labels = state.labels();
    assert_eq!(labels.get(0, 0).as_str(), "3");
    assert_eq!(labels.get(0, 1).as_str(), "");
}

#[test]
fn blank_state_renders_empty_cells() {
    let state = centred((2, 2), 1.);
    assert_eq!(state.render(), " | \n | \n");
}

#[test]
fn try_pass_is_the_pass_where_the_budget_fits() {
    let mut tried = centred((5, 5), 0.75);
    let mut plain = centred((5, 5), 0.75);
    for n in [4usize, 0, 4, 92] {
        assert!(tried.try_iter_inplace(n, &reading, &step));
        plain.iter_inplace(n, &reading, &step);
        assert_eq!(tried.total_iters(), plain.total_iters());
        assert_eq!(counts(&tried), counts(&plain));
        assert_eq!(flags(&tried), flags(&plain));
    }
    assert_eq!(tried.total_iters(), 100);
    assert_eq!(*tried.iters().get(2, 1), 34);
}

#[test]
fn try_pass_beyond_the_range_changes_nothing() {
    let mut state = Mandelbrot::new((1, 2), (0., 0.), |_i: usize, j: usize| (10., j as f64));
    state.iter_inplace(5, &reading, &step);
    assert_eq!(counts(&state), vec![vec![1, 1]]);
    assert_eq!(flags(&state), vec![vec![true, true]]);
    let z_before = (*state.z().get(0, 0), *state.z().get(0, 1));

    assert!(!state.try_iter_inplace(usize::MAX, &reading, &step));
    assert!(!state.try_iter_inplace(usize::MAX - 4, &reading, &step));
    assert_eq!(state.total_iters(), 5);
    assert_eq!(counts(&state), vec![vec![1, 1]]);
    assert_eq!(flags(&state), vec![vec![true, true]]);
    assert_eq!((*state.z().get(0, 0), *state.z().get(0, 1)), z_before);

    assert!(state.try_iter_inplace(usize::MAX - 5, &reading, &step));
    assert_eq!(state.total_iters(), usize::MAX);
    assert_eq!(counts(&state), vec![vec![1, 1]]);
    assert_eq!((*state.z().get(0, 0), *state.z().get(0, 1)), z_before);
    assert!(state.try_iter_inplace(0, &reading, &step));
    assert!(!state.try_iter_inplace(1, &reading, &step));
}

#[test]
fn two_passes_make_one() {
    for (first, second) in [(4usize, 4usize), (0, 8), (8, 0), (1, 7), (3, 30), (34, 1)] {
        let mut twice = centred((5, 5), 0.75);
        let mut once = centred((5, 5), 0.75);
        twice.iter_inplace(first, &reading, &step);
        twice.iter_inplace(second, &reading, &step);
        once.iter_inplace(first + second, &reading, &step);
        assert_eq!(twice.total_iters(), once.total_iters());
        assert_eq!(counts(&twice), counts(&once));
        assert_eq!(flags(&twice), flags(&once));
        for i in 0..5 {
            for j in 0..5 {
                assert_eq!(*twice.z().get(i, j), *once.z().get(i, j));
            }
        }
    }
}
