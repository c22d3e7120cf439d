use timetrack::categories::UniqueCategories;
use timetrack::counter::CategoryDurationCounter;

fn cats(names: &[&str]) -> UniqueCategories {
    UniqueCategories(names.iter().map(|s| s.to_string()).collect())
}

#[test]
fn time_is_conserved_over_a_run_of_events() {
    let mut c = CategoryDurationCounter::new(cats(&["coding", "unknown"]), 10);
    c.category_changed(Some("coding".to_string()), 10);
    c.category_changed(Some("unknown".to_string()), 40);
    c.category_changed(Some("coding".to_string()), 100);
    let total: u64 = c.durations().iter().sum();
    assert_eq!(total, 90);
    assert_eq!(c.durations(), &vec![30, 60]);
}

#[test]
fn unselected_time_is_not_attributed() {
    let mut c = CategoryDurationCounter::new(cats(&["a"]), 0);
    c.category_changed(Some("a".to_string()), 50);
    assert_eq!(c.durations(), &vec![0]);
    c.category_changed(None, 60);
    assert_eq!(c.durations(), &vec![10]);
    c.category_changed(Some("a".to_string()), 100);
    assert_eq!(c.durations(), &vec![10]);
}

#[test]
fn flush_records_without_changing_the_selection() {
    let mut c = CategoryDurationCounter::new(cats(&["a", "b"]), 0);
    c.category_changed(Some("b".to_string()), 0);
    c.record_current_duration(25);
    assert_eq!(c.durations(), &vec![0, 25]);
    c.record_current_duration(40);
    assert_eq!(c.durations(), &vec![0, 40]);
    assert_eq!(c.current_category, Some(1));
}

#[test]
fn reset_keeps_selection_and_clock() {
    let mut c = CategoryDurationCounter::new(cats(&["a", "b"]), 0);
    c.category_changed(Some("a".to_string()), 0);
    c.record_current_duration(30);
    c.reset_durations();
    assert_eq!(c.durations(), &vec![0, 0]);
    assert_eq!(c.current_category, Some(0));
    assert_eq!(c.last_update, 30);
    // time in flight keeps accruing into the new window
    c.record_current_duration(42);
    assert_eq!(c.durations(), &vec![12, 0]);
}

#[test]
fn restored_durations_seed_the_totals() {
    let mut c = CategoryDurationCounter::new(cats(&["a", "b"]), 5);
    c.set_durations(vec![100, 200]);
    assert_eq!(c.durations(), &vec![100, 200]);
    assert_eq!(c.last_update, 5);
}
