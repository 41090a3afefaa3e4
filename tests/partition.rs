use space::partition::{
    compute_target_threads, div_ceil, SolverConfig, WorkPlan, BARNES_HUT_CUTOFF, MAX_THREADS,
    OBJECTS_PER_THREAD,
};

#[test]
fn target_threads_under_builtin_limits() {
    assert_eq!(compute_target_threads(1), 1);
    assert_eq!(compute_target_threads(OBJECTS_PER_THREAD), 1);
    assert_eq!(compute_target_threads(OBJECTS_PER_THREAD + 1), 2);
    assert_eq!(compute_target_threads(39_999), 20);
    assert_eq!(compute_target_threads(100_000), MAX_THREADS);
}

#[test]
fn target_threads_with_own_config() {
    let c = SolverConfig { max_threads: 4, objects_per_thread: 10, barnes_hut_cutoff: 50 };
    assert_eq!(c.target_threads(25), 3);
    assert_eq!(c.target_threads(35), 4);
    assert_eq!(c.target_threads(1_000), 4);
    assert!(!c.use_barnes_hut(50));
    assert!(c.use_barnes_hut(51));
}

#[test]
fn standard_config_holds_builtin_values() {
    let c = SolverConfig::standard();
    assert_eq!(c.max_threads, MAX_THREADS);
    assert_eq!(c.objects_per_thread, OBJECTS_PER_THREAD);
    assert_eq!(c.barnes_hut_cutoff, BARNES_HUT_CUTOFF);
    assert!(!c.use_barnes_hut(1000));
    assert!(c.use_barnes_hut(1001));
}

#[test]
fn ceiling_division() {
    assert_eq!(div_ceil(7, 2), 4);
    assert_eq!(div_ceil(8, 2), 4);
    assert_eq!(div_ceil(0, 3), 0);
    assert_eq!(div_ceil(1, 5), 1);
}

#[test]
fn plan_of_ten_for_four() {
    let p = WorkPlan::new(10, 4);
    assert_eq!(p.per_thread, 3);
    assert_eq!(p.num_chunks(), 4);
    assert_eq!(p.chunks(), vec![(0, 3), (3, 6), (6, 9), (9, 10)]);
    assert_eq!(p.chunk(3), (9, 10));
}

#[test]
fn plan_with_more_threads_than_items() {
    let p = WorkPlan::new(3, 8);
    assert_eq!(p.per_thread, 1);
    assert_eq!(p.chunks(), vec![(0, 1), (1, 2), (2, 3)]);
}

#[test]
fn chunks_cover_every_index_once_for_any_thread_count() {
    for t in [1usize, 2, 4, 8] {
        let p = WorkPlan::new(500, t);
        let chunks = p.chunks();
        assert!(chunks.len() <= t);
        assert_eq!(chunks[0].0, 0);
        assert_eq!(chunks[chunks.len() - 1].1, 500);
        for w in chunks.windows(2) {
            assert_eq!(w[0].1, w[1].0);
        }
        let mut seen = vec![0u32; 500];
        for (s, e) in chunks {
            for i in s..e {
                seen[i] += 1;
            }
        }
        assert!(seen.iter().all(|&c| c == 1));
    }
}

#[test]
fn midpoint_halves() {
    assert_eq!(WorkPlan::midpoint(0, 4), 2);
    assert_eq!(WorkPlan::midpoint(3, 5), 4);
    assert_eq!(WorkPlan::midpoint(0, 7), 3);
}
