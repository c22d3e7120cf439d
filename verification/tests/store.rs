use timetrack::categories::UniqueCategories;
use timetrack::database::{Database, StoreError};

fn chars(s: &str) -> Vec<char> {
    s.chars().collect()
}

fn text(v: &[char]) -> String {
    v.iter().collect()
}

fn cats(names: &[&str]) -> UniqueCategories {
    UniqueCategories(names.iter().map(|s| s.to_string()).collect())
}

#[test]
fn fresh_store_has_header_and_no_entries() {
    let db = Database::open(None, cats(&["coding", "unknown"])).unwrap();
    assert_eq!(text(&db.content), "time\tcoding\tunknown\n");
    assert_eq!(db.get_last_entry(), Ok(None));
}

#[test]
fn open_existing_with_entries() {
    let db = Database::open(Some(chars("time\ta\tb\n100\t1\t2\n")), cats(&["a", "b"])).unwrap();
    assert_eq!(db.get_last_entry(), Ok(Some((100, vec![1, 2]))));
}

#[test]
fn open_accepts_subset_of_categories() {
    let db = Database::open(Some(chars("time\ta\tb\tc\n")), cats(&["a", "c"])).unwrap();
    assert_eq!(db.categories().0.len(), 3);
}

#[test]
fn header_rejects_unsorted_categories() {
    match Database::open(Some(chars("time\tb\ta\n")), cats(&[])) {
        Err(e) => assert_eq!(e, StoreError::UnsortedCategories),
        Ok(_) => panic!("unsorted header accepted"),
    }
}

#[test]
fn header_rejects_duplicate_categories() {
    match Database::open(Some(chars("time\ta\ta\n")), cats(&[])) {
        Err(e) => assert_eq!(e, StoreError::UnsortedCategories),
        Ok(_) => panic!("duplicate category accepted"),
    }
}

#[test]
fn empty_file_is_missing_header() {
    match Database::open(Some(chars("")), cats(&[])) {
        Err(e) => assert_eq!(e, StoreError::MissingHeader),
        Ok(_) => panic!("empty file accepted"),
    }
}

#[test]
fn unterminated_header_is_missing_header() {
    match Database::open(Some(chars("time\ta")), cats(&[])) {
        Err(e) => assert_eq!(e, StoreError::MissingHeader),
        Ok(_) => panic!("unterminated header accepted"),
    }
}

#[test]
fn wrong_first_field_is_missing_time_marker() {
    match Database::open(Some(chars("date\ta\n")), cats(&[])) {
        Err(e) => assert_eq!(e, StoreError::MissingTimeMarker),
        Ok(_) => panic!("bad marker accepted"),
    }
}

#[test]
fn required_categories_must_be_a_subsequence() {
    match Database::open(Some(chars("time\ta\tc\n")), cats(&["b"])) {
        Err(e) => assert_eq!(e, StoreError::SchemaMismatch),
        Ok(_) => panic!("mismatched schema accepted"),
    }
}

#[test]
fn subsequence_is_order_preserving() {
    match Database::open(Some(chars("time\ta\tb\n")), cats(&["b", "a"])) {
        Err(e) => assert_eq!(e, StoreError::SchemaMismatch),
        Ok(_) => panic!("order-violating subset accepted"),
    }
}

#[test]
fn scan_rejects_nonfinal_line_with_wrong_field_count() {
    match Database::open(Some(chars("time\ta\tb\n5\t1\n6\t1\t2\n")), cats(&[])) {
        Err(e) => assert_eq!(e, StoreError::WrongFieldCount),
        Ok(_) => panic!("short non-final line accepted"),
    }
}

#[test]
fn scan_leaves_final_line_to_entry_parsing() {
    // the final (open) line has the wrong field count: the scan accepts the
    // file, and reading the open entry reports it
    let db = Database::open(Some(chars("time\ta\tb\n5\t1\t2\n6\n")), cats(&[])).unwrap();
    assert_eq!(db.get_last_entry(), Err(StoreError::MalformedEntry));
}

#[test]
fn nonnumeric_open_entry_is_malformed() {
    let db = Database::open(Some(chars("time\ta\n5\tx\n")), cats(&["a"])).unwrap();
    assert_eq!(db.get_last_entry(), Err(StoreError::MalformedEntry));
}

#[test]
fn unterminated_open_entry_is_malformed() {
    let db = Database::open(Some(chars("time\ta\n5\t1")), cats(&["a"])).unwrap();
    assert_eq!(db.get_last_entry(), Err(StoreError::MalformedEntry));
}

#[test]
fn out_of_range_duration_is_malformed() {
    let db = Database::open(
        Some(chars("time\ta\n5\t18446744073709551616\n")),
        cats(&["a"]),
    )
    .unwrap();
    assert_eq!(db.get_last_entry(), Err(StoreError::MalformedEntry));
}

#[test]
fn duration_at_u64_max_parses() {
    let db = Database::open(
        Some(chars("time\ta\n5\t18446744073709551615\n")),
        cats(&["a"]),
    )
    .unwrap();
    assert_eq!(db.get_last_entry(), Ok(Some((5, vec![u64::MAX]))));
}

#[test]
fn category_with_tab_cannot_be_written() {
    match Database::open(None, cats(&["a\tb"])) {
        Err(e) => assert_eq!(e, StoreError::InvalidCategoryName),
        Ok(_) => panic!("tab in category accepted"),
    }
}

#[test]
fn fresh_store_requires_sorted_categories() {
    match Database::open(None, cats(&["b", "a"])) {
        Err(e) => assert_eq!(e, StoreError::UnsortedCategories),
        Ok(_) => panic!("unsorted creation set accepted"),
    }
}

#[test]
fn rewrite_overwrites_only_the_open_entry() {
    let mut db = Database::open(None, cats(&["a", "b"])).unwrap();
    db.rewrite_last_entry(100, &vec![1, 2]);
    assert_eq!(text(&db.content), "time\ta\tb\n100\t1\t2\n");
    db.rewrite_last_entry(100, &vec![3, 4]);
    assert_eq!(text(&db.content), "time\ta\tb\n100\t3\t4\n");
    assert_eq!(db.get_last_entry(), Ok(Some((100, vec![3, 4]))));
}

#[test]
fn lock_makes_the_next_rewrite_append() {
    let mut db = Database::open(None, cats(&["a"])).unwrap();
    db.rewrite_last_entry(100, &vec![7]);
    db.lock_last_entry();
    db.rewrite_last_entry(200, &vec![9]);
    assert_eq!(text(&db.content), "time\ta\n100\t7\n200\t9\n");
    assert_eq!(db.get_last_entry(), Ok(Some((200, vec![9]))));
}

#[test]
fn persisted_store_reopens_identically() {
    let mut db = Database::open(None, cats(&["a", "b"])).unwrap();
    db.rewrite_last_entry(100, &vec![1, 2]);
    db.lock_last_entry();
    db.rewrite_last_entry(200, &vec![3, 4]);
    let saved = db.content.clone();
    let db2 = Database::open(Some(saved), cats(&["a", "b"])).unwrap();
    assert_eq!(text(&db2.content), text(&db.content));
    assert_eq!(db2.get_last_entry(), Ok(Some((200, vec![3, 4]))));
}

#[test]
fn a_seal_is_durable_only_after_the_next_write() {
    let mut db = Database::open(None, cats(&["a"])).unwrap();
    db.rewrite_last_entry(100, &vec![7]);
    db.lock_last_entry();
    // nothing was written after the seal: on disk the sealed line is still
    // the last line, so a restart sees it as the open entry again
    let db2 = Database::open(Some(db.content.clone()), cats(&["a"])).unwrap();
    assert_eq!(db2.get_last_entry(), Ok(Some((100, vec![7]))));
}
