use timetrack::categories::UniqueCategories;
use timetrack::counter::CategoryDurationCounter;
use timetrack::daemon::{
    change_time_window, check_time_intervals, resume_or_start_window, time_to_next_rotation,
    write_durations_to_disk,
};
use timetrack::database::{Database, StoreError};

fn chars(s: &str) -> Vec<char> {
    s.chars().collect()
}

fn text(v: &[char]) -> String {
    v.iter().collect()
}

fn cats(names: &[&str]) -> UniqueCategories {
    UniqueCategories(names.iter().map(|s| s.to_string()).collect())
}

#[test]
fn focus_changes_then_flush_write_expected_entry() {
    // categories [coding, unknown]; activity starts as coding, switches to
    // unknown 30 s later; a flush fires 10 s after the switch
    let mut db = Database::open(None, cats(&["coding", "unknown"])).unwrap();
    let mut counter = CategoryDurationCounter::new(db.categories().clone(), 1000);
    counter.category_changed(Some("coding".to_string()), 1000);
    counter.category_changed(Some("unknown".to_string()), 1030);
    write_durations_to_disk(&mut db, &mut counter, 5000, 1040);
    assert_eq!(text(&db.content), "time\tcoding\tunknown\n5000\t30\t10\n");
    assert_eq!(db.get_last_entry(), Ok(Some((5000, vec![30, 10]))));
}

#[test]
fn fresh_store_stays_empty_until_the_first_flush() {
    let mut db = Database::open(None, cats(&["coding", "unknown"])).unwrap();
    assert_eq!(text(&db.content), "time\tcoding\tunknown\n");
    assert_eq!(db.get_last_entry(), Ok(None));
    let mut counter = CategoryDurationCounter::new(db.categories().clone(), 0);
    write_durations_to_disk(&mut db, &mut counter, 777, 0);
    assert_eq!(text(&db.content), "time\tcoding\tunknown\n777\t0\t0\n");
}

#[test]
fn rotation_seals_the_entry_and_advances_the_boundary() {
    let mut db = Database::open(None, cats(&["a"])).unwrap();
    let mut counter = CategoryDurationCounter::new(db.categories().clone(), 0);
    counter.category_changed(Some("a".to_string()), 0);
    let mut window_start: u64 = 7200;
    change_time_window(&mut db, &mut counter, &mut window_start, 3600, 50);
    assert_eq!(window_start, 10800);
    assert_eq!(text(&db.content), "time\ta\n7200\t50\n");
    assert_eq!(db.get_last_entry(), Ok(None));
    // the next flush opens a fresh entry with reset durations; the sealed
    // line stays untouched
    write_durations_to_disk(&mut db, &mut counter, window_start, 50);
    assert_eq!(text(&db.content), "time\ta\n7200\t50\n10800\t0\n");
    assert_eq!(db.get_last_entry(), Ok(Some((10800, vec![0]))));
}

#[test]
fn startup_resumes_a_window_still_in_progress() {
    let mut db = Database::open(Some(chars("time\ta\tb\n2000\t7\t8\n")), cats(&["a", "b"]))
        .unwrap();
    let mut counter = CategoryDurationCounter::new(db.categories().clone(), 0);
    let ws = resume_or_start_window(&mut db, &mut counter, 2500, 3600).unwrap();
    assert_eq!(ws, 2000);
    assert_eq!(counter.durations(), &vec![7, 8]);
    assert_eq!(text(&db.content), "time\ta\tb\n2000\t7\t8\n");
}

#[test]
fn startup_seals_an_expired_window() {
    let mut db = Database::open(Some(chars("time\ta\n2000\t7\n")), cats(&["a"])).unwrap();
    let mut counter = CategoryDurationCounter::new(db.categories().clone(), 0);
    let ws = resume_or_start_window(&mut db, &mut counter, 5600, 3600).unwrap();
    assert_eq!(ws, 5600);
    assert_eq!(counter.durations(), &vec![0]);
    assert_eq!(db.get_last_entry(), Ok(None));
    // the stale entry is immutable now: a flush appends rather than rewrites
    write_durations_to_disk(&mut db, &mut counter, ws, 0);
    assert_eq!(text(&db.content), "time\ta\n2000\t7\n5600\t0\n");
}

#[test]
fn startup_treats_a_backwards_clock_as_a_new_window() {
    let mut db = Database::open(Some(chars("time\ta\n2000\t7\n")), cats(&["a"])).unwrap();
    let mut counter = CategoryDurationCounter::new(db.categories().clone(), 0);
    let ws = resume_or_start_window(&mut db, &mut counter, 1500, 3600).unwrap();
    assert_eq!(ws, 1500);
    assert_eq!(counter.durations(), &vec![0]);
    assert_eq!(db.get_last_entry(), Ok(None));
}

#[test]
fn startup_with_no_entry_starts_at_now() {
    let mut db = Database::open(None, cats(&["a"])).unwrap();
    let mut counter = CategoryDurationCounter::new(db.categories().clone(), 0);
    let ws = resume_or_start_window(&mut db, &mut counter, 4242, 3600).unwrap();
    assert_eq!(ws, 4242);
}

#[test]
fn startup_fails_on_a_malformed_open_entry() {
    let mut db = Database::open(Some(chars("time\ta\nbroken\n")), cats(&["a"])).unwrap();
    let mut counter = CategoryDurationCounter::new(db.categories().clone(), 0);
    match resume_or_start_window(&mut db, &mut counter, 0, 3600) {
        Err(e) => assert_eq!(e, StoreError::MalformedEntry),
        Ok(_) => panic!("malformed entry resumed"),
    }
}

#[test]
fn rotation_schedule_stays_on_the_grid() {
    assert_eq!(time_to_next_rotation(2500, 2000, 3600), 3100);
    assert_eq!(time_to_next_rotation(2000, 2000, 3600), 3600);
}

#[test]
fn interval_validation_matches_the_configuration_rule() {
    assert!(check_time_intervals(60, 3600));
    assert!(!check_time_intervals(0, 3600));
    assert!(!check_time_intervals(3600, 3600));
    assert!(!check_time_intervals(3700, 3600));
}
