use gauss_elim::engine::{
    chunk_size, round_jobs, run_round, RoundPlanner, RowRange, Strategy, MIN_CHUNK_SIZE,
};

const ALL: [Strategy; 5] = [
    Strategy::Sequential,
    Strategy::ThreadPerRow,
    Strategy::PooledPerRow,
    Strategy::PooledChunked,
    Strategy::CooperativeTasks,
];

fn rr(start: usize, end: usize) -> RowRange {
    RowRange { start, end }
}

type Unit = (Vec<f64>, f64);

fn row_update(norm: usize, base: &Unit, current: &Unit) -> Unit {
    let m = current.0[norm] / base.0[norm];
    let mut row = current.0.clone();
    for col in norm..base.0.len() {
        row[col] -= base.0[col] * m;
    }
    (row, current.1 - base.1 * m)
}

/// Runs forward elimination by the planner's jobs and then back substitution.
fn solve(a: &[Vec<f64>], b: &[f64], strategy: Strategy, threads: usize) -> Vec<f64> {
    let n = b.len();
    let mut units: Vec<Unit> = a.iter().cloned().zip(b.iter().cloned()).collect();
    let mut planner = RoundPlanner::new(n, strategy, threads);
    while let Some((norm, jobs)) = planner.next_round() {
        run_round(&mut units, norm, &jobs, &row_update);
    }
    let mut x = vec![0.0; n];
    for row in (0..n).rev() {
        x[row] = units[row].1;
        for col in ((row + 1)..n).rev() {
            x[row] -= units[row].0[col] * x[col];
        }
        x[row] /= units[row].0[row];
    }
    x
}

#[test]
fn run_round_updates_covered_rows_only() {
    let mut rows: Vec<i64> = vec![3, 10, 20, 30, 40, 50];
    let jobs = vec![rr(2, 4), rr(5, 6)];
    run_round(&mut rows, 1, &jobs, &|norm: usize, p: &i64, r: &i64| r * 100 + p + norm as i64);
    assert_eq!(rows, vec![3, 10, 2011, 3011, 40, 5011]);
}

#[test]
fn run_round_reads_the_pivot_before_the_round() {
    let mut rows: Vec<i64> = vec![1, 2, 3, 4];
    let jobs = round_jobs(4, 0, Strategy::PooledPerRow, 2);
    run_round(&mut rows, 0, &jobs, &|_: usize, p: &i64, r: &i64| r - p);
    assert_eq!(rows, vec![1, 1, 2, 3]);
}

#[test]
fn chunk_size_values() {
    assert_eq!(MIN_CHUNK_SIZE, 16);
    assert_eq!(chunk_size(10, 4), 16);
    assert_eq!(chunk_size(64, 4), 16);
    assert_eq!(chunk_size(1000, 4), 250);
    assert_eq!(chunk_size(1001, 8), 125);
    assert_eq!(chunk_size(0, 1), 16);
}

#[test]
fn per_row_jobs() {
    for s in [Strategy::ThreadPerRow, Strategy::PooledPerRow, Strategy::CooperativeTasks] {
        assert_eq!(round_jobs(5, 1, s, 4), vec![rr(2, 3), rr(3, 4), rr(4, 5)]);
    }
}

#[test]
fn sequential_job() {
    assert_eq!(round_jobs(5, 1, Strategy::Sequential, 4), vec![rr(2, 5)]);
    assert_eq!(round_jobs(5, 4, Strategy::Sequential, 4), vec![]);
}

#[test]
fn chunked_jobs() {
    assert_eq!(
        round_jobs(1000, 0, Strategy::PooledChunked, 4),
        vec![rr(1, 251), rr(251, 501), rr(501, 751), rr(751, 1000)]
    );
    assert_eq!(
        round_jobs(40, 0, Strategy::PooledChunked, 4),
        vec![rr(1, 17), rr(17, 33), rr(33, 40)]
    );
}

#[test]
fn jobs_tile_rows_below_pivot() {
    for n in 1..40usize {
        for norm in 0..n {
            for threads in 1..6usize {
                for s in ALL {
                    let jobs = round_jobs(n, norm, s, threads);
                    let mut owner = vec![0usize; n];
                    for job in &jobs {
                        assert!(job.start < job.end);
                        for row in job.start..job.end {
                            owner[row] += 1;
                        }
                    }
                    for row in 0..n {
                        let want = if row > norm { 1 } else { 0 };
                        assert_eq!(owner[row], want);
                    }
                }
            }
        }
    }
}

#[test]
fn no_job_touches_pivot_or_another_jobs_rows() {
    let jobs = round_jobs(100, 3, Strategy::PooledChunked, 3);
    for (i, a) in jobs.iter().enumerate() {
        assert!(!(a.start <= 3 && 3 < a.end));
        for (j, b) in jobs.iter().enumerate() {
            if i != j {
                assert!(a.end <= b.start || b.end <= a.start);
            }
        }
    }
}

#[test]
fn job_count_scaling() {
    let n = 4096;
    let threads = 4;
    for norm in [0usize, 100, 2000, 4000] {
        let chunked = round_jobs(n, norm, Strategy::PooledChunked, threads).len();
        assert!(chunked <= 2 * threads);
        assert_eq!(round_jobs(n, norm, Strategy::ThreadPerRow, threads).len(), n - norm - 1);
    }
    assert_eq!(round_jobs(n, 0, Strategy::PooledChunked, threads).len(), 4);
    assert_eq!(round_jobs(4099, 0, Strategy::PooledChunked, threads).len(), 5);
}

#[test]
fn planner_hands_out_rounds_in_order() {
    let mut p = RoundPlanner::new(4, Strategy::PooledPerRow, 2);
    assert_eq!(p.next_round(), Some((0, vec![rr(1, 2), rr(2, 3), rr(3, 4)])));
    assert_eq!(p.next_round(), Some((1, vec![rr(2, 3), rr(3, 4)])));
    assert_eq!(p.next_round(), Some((2, vec![rr(3, 4)])));
    assert_eq!(p.next_round(), None);
    assert_eq!(p.next_round(), None);
    let mut single = RoundPlanner::new(1, Strategy::Sequential, 1);
    assert_eq!(single.next_round(), None);
    let mut empty = RoundPlanner::new(0, Strategy::Sequential, 1);
    assert_eq!(empty.next_round(), None);
}

#[test]
fn fixture_two_by_two() {
    let a = vec![vec![2.0, 3.0], vec![1.0, 4.0]];
    for s in ALL {
        assert_eq!(solve(&a, &[10.0, 10.0], s, 2), vec![2.0, 2.0]);
    }
}

#[test]
fn fixture_identity() {
    let a = vec![vec![1.0, 0.0], vec![0.0, 1.0]];
    for s in ALL {
        assert_eq!(solve(&a, &[5.0, -3.0], s, 2), vec![5.0, -3.0]);
    }
}

#[test]
fn strategies_give_identical_solutions() {
    let n = 60;
    let mut state: u64 = 12345;
    let mut a = vec![vec![0.0; n]; n];
    for r in 0..n {
        for c in 0..n {
            state = state.wrapping_mul(6364136223846793005).wrapping_add(1442695040888963407);
            a[r][c] = ((state >> 33) % 1000) as f64 / 100.0 + if r == c { 50.0 } else { 0.0 };
        }
    }
    let b = vec![1.0; n];
    let reference = solve(&a, &b, Strategy::Sequential, 1);
    for s in ALL {
        for threads in [1, 3, 8] {
            let x = solve(&a, &b, s, threads);
            assert_eq!(x, reference);
            assert_eq!(solve(&a, &b, s, threads), x);
        }
    }
}
