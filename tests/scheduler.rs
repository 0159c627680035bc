use julia::bands::bands;
use julia::scheduler::{ConfigError, Scheduler};

#[test]
fn zero_workers_are_rejected() {
    assert_eq!(Scheduler::new(800, 800, 0).err(), Some(ConfigError::NoWorkers));
    assert_eq!(Scheduler::new(0, 0, 0).err(), Some(ConfigError::NoWorkers));
}

#[test]
fn empty_grids_are_rejected() {
    assert_eq!(Scheduler::new(0, 800, 4).err(), Some(ConfigError::EmptyGrid));
    assert_eq!(Scheduler::new(800, 0, 4).err(), Some(ConfigError::EmptyGrid));
}

#[test]
fn oversized_grid_is_rejected_only_where_memory_cannot_index_it() {
    let r = Scheduler::new(u32::MAX, u32::MAX, 4);
    if (u32::MAX as usize).checked_mul(u32::MAX as usize).is_none() {
        assert_eq!(r.err(), Some(ConfigError::GridTooLarge));
    } else {
        assert!(r.is_ok());
    }
}

#[test]
fn new_scheduler_has_submitted_nothing() {
    let s = Scheduler::new(800, 600, 4).unwrap();
    assert_eq!(s.width(), 800);
    assert_eq!(s.height(), 600);
    assert_eq!(s.n_workers(), 4);
    assert_eq!(s.jobs_submitted(), 0);
}

#[test]
fn idle_workers_get_one_band_each() {
    let mut s = Scheduler::new(800, 10, 3).unwrap();
    let jobs = s.generate(false);
    assert_eq!(jobs, bands(10, 3));
    assert_eq!(s.jobs_submitted(), 3);
}

#[test]
fn busy_workers_get_nothing() {
    let mut s = Scheduler::new(800, 10, 3).unwrap();
    s.generate(false);
    let jobs = s.generate(true);
    assert!(jobs.is_empty());
    assert_eq!(s.jobs_submitted(), 3);
    let jobs = s.generate(true);
    assert!(jobs.is_empty());
    assert_eq!(s.jobs_submitted(), 3);
}

#[test]
fn each_idle_frame_submits_again() {
    let mut s = Scheduler::new(16, 16, 4).unwrap();
    for frame in 1..=5u64 {
        assert_eq!(s.generate(false).len(), 4);
        assert_eq!(s.jobs_submitted(), 4 * frame);
    }
}
