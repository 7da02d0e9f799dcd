use cu_solver::progress::{percent_done, report, Progress};

#[test]
fn percent_is_the_whole_part_of_the_ratio() {
    assert_eq!(percent_done(0, 3), 0);
    assert_eq!(percent_done(1, 3), 33);
    assert_eq!(percent_done(2, 3), 66);
    assert_eq!(percent_done(3, 3), 100);
    assert_eq!(percent_done(1, 200), 0);
    assert_eq!(percent_done(2, 200), 1);
    assert_eq!(percent_done(199, 200), 99);
    assert_eq!(percent_done(127, 127), 100);
}

#[test]
fn percent_never_exceeds_one_hundred() {
    assert_eq!(percent_done(4, 3), 100);
    assert_eq!(percent_done(u32::MAX, 1), 100);
    assert_eq!(percent_done(u32::MAX, u32::MAX), 100);
}

#[test]
fn percent_of_large_counts_does_not_wrap() {
    assert_eq!(percent_done(0x7fff_ffff, 0xffff_fffe), 50);
    assert_eq!(percent_done(2_000_000_000, 4_000_000_000), 50);
    assert_eq!(percent_done(3_999_999_999, 4_000_000_000), 99);
}

#[test]
fn percent_of_nothing_to_do_is_all_done() {
    assert_eq!(percent_done(0, 0), 100);
    assert_eq!(percent_done(5, 0), 100);
}

#[test]
fn report_shows_only_a_higher_percentage() {
    assert_eq!(report(1, 4, 0), Some(25));
    assert_eq!(report(1, 4, 25), None);
    assert_eq!(report(1, 4, 30), None);
    assert_eq!(report(2, 4, 25), Some(50));
    assert_eq!(report(1, 200, 0), None);
    assert_eq!(report(4, 4, 99), Some(100));
    assert_eq!(report(4, 4, 100), None);
}

#[test]
fn ticks_report_each_percentage_once() {
    let progress = Progress::new(4);
    assert_eq!(progress.tick(), Some(25));
    assert_eq!(progress.tick(), Some(50));
    assert_eq!(progress.tick(), Some(75));
    assert_eq!(progress.tick(), Some(100));
    assert_eq!(progress.tick(), None);
}

#[test]
fn ticks_stay_silent_while_the_percentage_stands() {
    let progress = Progress::new(200);
    assert_eq!(progress.tick(), None);
    assert_eq!(progress.tick(), Some(1));
    assert_eq!(progress.tick(), None);
    assert_eq!(progress.tick(), Some(2));
}

#[test]
fn clones_share_one_count() {
    let progress = Progress::new(2);
    let other = progress.clone();
    assert_eq!(progress.tick(), Some(50));
    assert_eq!(other.tick(), Some(100));
    assert_eq!(progress.tick(), None);
}
