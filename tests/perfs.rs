use gol_core::perfs::PerformanceMetrics;

#[test]
fn empty_metrics_have_no_statistics() {
    let m = PerformanceMetrics::new(3);
    assert_eq!(m.avg_step_time(), None);
    assert_eq!(m.avg_render_time(), None);
    assert_eq!(m.percentile_95_step(), None);
}

#[test]
fn window_keeps_the_most_recent_samples() {
    let mut m = PerformanceMetrics::new(3);
    for d in [10u64, 20, 30, 40, 50] {
        m.record_step(d);
    }
    // only 30, 40, 50 remain
    assert_eq!(m.avg_step_time(), Some(40));
    assert_eq!(m.avg_render_time(), None);
}

#[test]
fn render_window_is_separate() {
    let mut m = PerformanceMetrics::new(2);
    m.record_render(7);
    m.record_render(8);
    m.record_render(100);
    m.record_step(1);
    assert_eq!(m.avg_render_time(), Some(54));
    assert_eq!(m.avg_step_time(), Some(1));
}

#[test]
fn average_rounds_down() {
    let mut m = PerformanceMetrics::new(10);
    m.record_step(1);
    m.record_step(2);
    assert_eq!(m.avg_step_time(), Some(1));
}

#[test]
fn average_of_huge_durations_does_not_overflow() {
    let mut m = PerformanceMetrics::new(4);
    m.record_step(u64::MAX);
    m.record_step(u64::MAX);
    assert_eq!(m.avg_step_time(), Some(u64::MAX));
}

#[test]
fn zero_capacity_keeps_nothing() {
    let mut m = PerformanceMetrics::new(0);
    m.record_step(5);
    assert_eq!(m.avg_step_time(), None);
}

#[test]
fn percentile_of_increasing_samples() {
    let mut m = PerformanceMetrics::new(100);
    for d in 0..21u64 {
        m.record_step(d * 10);
    }
    // floor(0.95 * 21) = 19 = floor(0.95 * 20)
    assert_eq!(m.percentile_95_step(), Some(190));
}

#[test]
fn percentile_sorts_a_copy() {
    let mut m = PerformanceMetrics::new(100);
    for d in [50u64, 10, 40, 20, 30] {
        m.record_step(d);
    }
    // floor(0.95 * 5) = 4: the largest
    assert_eq!(m.percentile_95_step(), Some(50));
    // the window itself keeps insertion order: evicting the oldest drops 50
    let mut small = PerformanceMetrics::new(5);
    for d in [50u64, 10, 40, 20, 30, 5] {
        small.record_step(d);
    }
    assert_eq!(small.percentile_95_step(), Some(40));
    let mut twenty = PerformanceMetrics::new(100);
    for d in 1..=20u64 {
        twenty.record_step(d);
    }
    assert_eq!(twenty.percentile_95_step(), Some(20));
}

#[test]
fn should_log_at_most_once_per_interval() {
    let mut m = PerformanceMetrics::new(1);
    assert!(!m.should_log(500, 1000));
    assert!(m.should_log(1000, 1000));
    assert!(!m.should_log(1500, 1000));
    assert!(!m.should_log(1999, 1000));
    assert!(m.should_log(2000, 1000));
    // a time before the last report counts as no time passed
    assert!(!m.should_log(10, 1000));
}
