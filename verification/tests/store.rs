use shaker::cache::{
    connect, find_record, insert_record, select_children, select_record, select_records,
    select_sections, select_siblings, Record, Store, Strategy,
};
use shaker::error::StoreError;
use std::str::FromStr;

fn record(ordinal: &str, parent: Option<&str>, title: &str, slug: &str) -> Record {
    Record {
        ordinal: ordinal.to_string(),
        parent: parent.map(|p| p.to_string()),
        ancestor: 1,
        slug: slug.to_string(),
        title: title.to_string(),
        difficulty: None,
        content: String::new(),
    }
}

fn ordinals(rows: &[Record]) -> Vec<&str> {
    rows.iter().map(|r| r.ordinal.as_str()).collect()
}

fn count(store: &Store) -> usize {
    let mut total = select_sections(store).unwrap().len();
    for parent in ["1", "2", "1.1"] {
        total += select_children(store, parent).unwrap().len();
    }
    total
}

#[test]
fn the_strategy_is_read_from_text() {
    assert!(matches!(Strategy::from_text(":memory:"), Strategy::Memory));
    assert!(matches!(Strategy::from_text("test.db"), Strategy::Disk(path) if path == "test.db"));
    assert!(matches!(Strategy::from_text(""), Strategy::Disk(path) if path.is_empty()));
    assert!(matches!(Strategy::from_text(":memory"), Strategy::Disk(path) if path == ":memory"));
    assert!(matches!(Strategy::from_str(":memory:"), Ok(Strategy::Memory)));
    assert!(matches!(Strategy::from_str("a/b.db"), Ok(Strategy::Disk(path)) if path == "a/b.db"));
    assert!(matches!(":memory:".parse::<Strategy>(), Ok(Strategy::Memory)));
}

#[test]
fn a_new_store_is_empty() {
    let store = connect(&Strategy::Memory).unwrap();
    assert!(select_sections(&store).unwrap().is_empty());
    assert!(select_children(&store, "1").unwrap().is_empty());
    assert!(select_record(&store, "1").unwrap().is_none());
}

#[test]
fn a_store_on_disk_starts_empty_and_keeps_records() {
    let mut store = connect(&Strategy::Disk(String::new())).unwrap();
    assert!(select_sections(&store).unwrap().is_empty());
    insert_record(&mut store, &record("1", None, "Intro", "intro")).unwrap();
    assert_eq!(select_record(&store, "1").unwrap().unwrap().title, "Intro");
}

#[test]
fn a_record_found_carries_the_ordinal_asked_for() {
    let mut store = connect(&Strategy::Memory).unwrap();
    for n in ["1", "1.0", "01", "1.1", "1.2"] {
        insert_record(&mut store, &record(n, Some("x"), n, n)).unwrap();
    }
    for n in ["1", "1.0", "01", "1.1", "1.2"] {
        assert_eq!(select_record(&store, n).unwrap().unwrap().ordinal, n);
        assert_eq!(find_record(&store, n).unwrap().ordinal, n);
    }
    let (previous, next) = select_siblings(&store, "1.1").unwrap();
    assert_eq!(previous.unwrap().ordinal, "1.0");
    assert_eq!(next.unwrap().ordinal, "1.2");
}

#[test]
fn the_sibling_before_the_sibling_after_is_the_record_itself() {
    let mut store = connect(&Strategy::Memory).unwrap();
    insert_record(&mut store, &record("1.1", Some("1"), "A", "a")).unwrap();
    insert_record(&mut store, &record("1.2", Some("1"), "B", "b")).unwrap();
    let (_, next) = select_siblings(&store, "1.1").unwrap();
    let (back, _) = select_siblings(&store, &next.unwrap().ordinal).unwrap();
    let back = back.unwrap();
    assert_eq!(back.ordinal, "1.1");
    assert_eq!(back.title, "A");
    assert_eq!(back.slug, "a");
    assert_eq!(back.parent, Some("1".to_string()));
}

#[test]
fn a_name_that_sqlite_may_read_as_a_uri_is_refused() {
    for name in ["file:", "file:shared?mode=memory&cache=shared", "file:/tmp/x.db?nolock=1", "file:x"] {
        let refused = connect(&Strategy::Disk(name.to_string()));
        assert!(matches!(refused, Err(StoreError::StoreCorruption(_))), "{:?}", name);
    }
}

#[test]
fn two_stores_under_a_shared_name_are_never_opened() {
    let name = "file:shaker_shared?mode=memory&cache=shared";
    let mut first = connect(&Strategy::Memory).unwrap();
    insert_record(&mut first, &record("1", None, "Intro", "intro")).unwrap();
    assert!(connect(&Strategy::Disk(name.to_string())).is_err());
    assert!(connect(&Strategy::Disk(name.to_string())).is_err());
    assert_eq!(select_record(&first, "1").unwrap().unwrap().title, "Intro");
}

#[test]
fn a_store_that_cannot_be_opened_is_reported() {
    let nowhere = Strategy::Disk("/nonexistent-directory/of/shaker/cache.db".to_string());
    assert!(matches!(connect(&nowhere), Err(StoreError::StoreCorruption(_))));
}

#[test]
fn a_record_comes_back_as_it_was_stored() {
    let mut store = connect(&Strategy::Memory).unwrap();
    let stored = Record {
        ordinal: "3.1.4".to_string(),
        parent: Some("3.1".to_string()),
        ancestor: 3,
        slug: "equaci-de-segon-grau".to_string(),
        title: "Equació de Segon Grau".to_string(),
        difficulty: Some(4294967295),
        content: "line one\nline two\n".to_string(),
    };
    insert_record(&mut store, &stored).unwrap();
    let found = select_record(&store, "3.1.4").unwrap().unwrap();
    assert_eq!(found.ordinal, "3.1.4");
    assert_eq!(found.parent, Some("3.1".to_string()));
    assert_eq!(found.ancestor, 3);
    assert_eq!(found.slug, "equaci-de-segon-grau");
    assert_eq!(found.title, "Equació de Segon Grau");
    assert_eq!(found.difficulty, Some(4294967295));
    assert_eq!(found.content, "line one\nline two\n");
}

#[test]
fn a_clone_holds_the_same_fields() {
    let mut first = record("1.1", Some("1"), "A", "a");
    first.difficulty = Some(2);
    first.content = "body".to_string();
    let second = first.clone();
    assert_eq!(second.ordinal, "1.1");
    assert_eq!(second.parent, Some("1".to_string()));
    assert_eq!(second.ancestor, 1);
    assert_eq!(second.slug, "a");
    assert_eq!(second.title, "A");
    assert_eq!(second.difficulty, Some(2));
    assert_eq!(second.content, "body");
}

#[test]
fn a_missing_record_is_no_failure() {
    let mut store = connect(&Strategy::Memory).unwrap();
    insert_record(&mut store, &record("1", None, "Intro", "intro")).unwrap();
    assert!(select_record(&store, "2").unwrap().is_none());
    assert!(select_record(&store, "").unwrap().is_none());
    assert!(select_record(&store, "1 ").unwrap().is_none());
    assert!(select_record(&store, "01").unwrap().is_none());
}

#[test]
fn a_record_that_must_be_there_is_missed() {
    let mut store = connect(&Strategy::Memory).unwrap();
    insert_record(&mut store, &record("1", None, "Intro", "intro")).unwrap();
    assert_eq!(find_record(&store, "1").unwrap().title, "Intro");
    assert!(matches!(find_record(&store, "2"), Err(StoreError::NotFound)));
    assert!(matches!(find_record(&store, "2\0"), Err(StoreError::InvalidOrdinal)));
}

#[test]
fn duplicate_insert_fails_and_changes_nothing() {
    let mut store = connect(&Strategy::Memory).unwrap();
    insert_record(&mut store, &record("1", None, "Intro", "intro")).unwrap();
    insert_record(&mut store, &record("1.1", Some("1"), "A", "a")).unwrap();
    let before = count(&store);
    let again = insert_record(&mut store, &record("1", None, "Other", "other"));
    assert!(matches!(again, Err(StoreError::DuplicateOrdinal)));
    let nested = insert_record(&mut store, &record("1.1", Some("2"), "Other", "other"));
    assert!(matches!(nested, Err(StoreError::DuplicateOrdinal)));
    assert_eq!(count(&store), before);
    assert_eq!(before, 2);
    assert_eq!(select_record(&store, "1").unwrap().unwrap().title, "Intro");
    assert_eq!(select_record(&store, "1.1").unwrap().unwrap().parent, Some("1".to_string()));
}

#[test]
fn an_ordinal_with_a_nul_is_refused() {
    let mut store = connect(&Strategy::Memory).unwrap();
    let odd = insert_record(&mut store, &record("1\0", None, "Odd", "odd"));
    assert!(matches!(odd, Err(StoreError::InvalidOrdinal)));
    let child = insert_record(&mut store, &record("1.1", Some("1\0"), "Odd", "odd"));
    assert!(matches!(child, Err(StoreError::InvalidOrdinal)));
    assert!(select_sections(&store).unwrap().is_empty());
    assert!(matches!(select_record(&store, "1\0"), Err(StoreError::InvalidOrdinal)));
    assert!(matches!(select_children(&store, "\0"), Err(StoreError::InvalidOrdinal)));
    assert!(matches!(select_records(&store, Some("a\0b")), Err(StoreError::InvalidOrdinal)));
    assert!(matches!(select_siblings(&store, "\0.1"), Err(StoreError::InvalidOrdinal)));
}

#[test]
fn texts_with_a_nul_elsewhere_are_stored() {
    let mut store = connect(&Strategy::Memory).unwrap();
    let mut odd = record("1", None, "a\0b", "s\0");
    odd.content = "\0".to_string();
    insert_record(&mut store, &odd).unwrap();
    let found = select_record(&store, "1").unwrap().unwrap();
    assert_eq!(found.title, "a\0b");
    assert_eq!(found.slug, "s\0");
    assert_eq!(found.content, "\0");
}

#[test]
fn children_come_in_numeric_order() {
    let mut store = connect(&Strategy::Memory).unwrap();
    insert_record(&mut store, &record("1", None, "Intro", "intro")).unwrap();
    for n in ["1.10", "1.2", "1.1", "1.9", "1.100", "1.11"] {
        insert_record(&mut store, &record(n, Some("1"), n, n)).unwrap();
    }
    let children = select_children(&store, "1").unwrap();
    assert_eq!(ordinals(&children), vec!["1.1", "1.2", "1.9", "1.10", "1.11", "1.100"]);
}

#[test]
fn children_with_numbers_beyond_32_bits_come_in_numeric_order() {
    let mut store = connect(&Strategy::Memory).unwrap();
    let big = ["1.10000000000", "1.9999999999", "1.4294967296", "1.4294967295", "1.7"];
    for n in big {
        insert_record(&mut store, &record(n, Some("1"), n, n)).unwrap();
    }
    let children = select_children(&store, "1").unwrap();
    assert_eq!(
        ordinals(&children),
        vec!["1.7", "1.4294967295", "1.4294967296", "1.9999999999", "1.10000000000"]
    );
}

#[test]
fn sections_come_in_numeric_order() {
    let mut store = connect(&Strategy::Memory).unwrap();
    for n in ["10", "2", "1", "33", "4"] {
        insert_record(&mut store, &record(n, None, n, n)).unwrap();
    }
    insert_record(&mut store, &record("1.1", Some("1"), "A", "a")).unwrap();
    let sections = select_sections(&store).unwrap();
    assert_eq!(ordinals(&sections), vec!["1", "2", "4", "10", "33"]);
    let same = select_records(&store, None).unwrap();
    assert_eq!(ordinals(&same), vec!["1", "2", "4", "10", "33"]);
}

#[test]
fn children_are_those_with_that_parent() {
    let mut store = connect(&Strategy::Memory).unwrap();
    insert_record(&mut store, &record("1", None, "Intro", "intro")).unwrap();
    insert_record(&mut store, &record("2", None, "Advanced", "advanced")).unwrap();
    insert_record(&mut store, &record("1.1", Some("1"), "A", "a")).unwrap();
    insert_record(&mut store, &record("1.1.1", Some("1.1"), "Deep", "deep")).unwrap();
    insert_record(&mut store, &record("2.1", Some("2"), "C", "c")).unwrap();
    insert_record(&mut store, &record("7.7", Some("1"), "Stray", "stray")).unwrap();
    assert_eq!(ordinals(&select_children(&store, "1").unwrap()), vec!["1.1", "7.7"]);
    assert_eq!(ordinals(&select_children(&store, "1.1").unwrap()), vec!["1.1.1"]);
    assert_eq!(ordinals(&select_children(&store, "2").unwrap()), vec!["2.1"]);
    assert_eq!(ordinals(&select_records(&store, Some("2")).unwrap()), vec!["2.1"]);
    assert!(select_children(&store, "1.1.1").unwrap().is_empty());
    assert!(select_children(&store, "3").unwrap().is_empty());
    assert!(select_children(&store, "").unwrap().is_empty());
}

#[test]
fn malformed_ordinals_come_after_the_well_formed() {
    let mut store = connect(&Strategy::Memory).unwrap();
    for n in ["1.b", "1.10", "1.a", "1.2", ""] {
        insert_record(&mut store, &record(n, Some("1"), n, n)).unwrap();
    }
    let children = select_children(&store, "1").unwrap();
    assert_eq!(ordinals(&children), vec!["1.2", "1.10", "", "1.a", "1.b"]);
}

#[test]
fn siblings_are_looked_up_by_arithmetic() {
    let mut store = connect(&Strategy::Memory).unwrap();
    insert_record(&mut store, &record("1.1", Some("1"), "A", "a")).unwrap();
    insert_record(&mut store, &record("1.2", Some("1"), "B", "b")).unwrap();
    insert_record(&mut store, &record("1.3", Some("1"), "C", "c")).unwrap();
    let (previous, next) = select_siblings(&store, "1.1").unwrap();
    assert!(previous.is_none());
    assert_eq!(next.unwrap().title, "B");
    let (previous, next) = select_siblings(&store, "1.2").unwrap();
    assert_eq!(previous.unwrap().title, "A");
    assert_eq!(next.unwrap().title, "C");
    let (previous, next) = select_siblings(&store, "1.3").unwrap();
    assert_eq!(previous.unwrap().title, "B");
    assert!(next.is_none());
}

#[test]
fn siblings_of_an_ordinal_that_is_not_stored_are_looked_up_all_the_same() {
    let mut store = connect(&Strategy::Memory).unwrap();
    insert_record(&mut store, &record("1.1", Some("1"), "A", "a")).unwrap();
    let (previous, next) = select_siblings(&store, "1.2").unwrap();
    assert_eq!(previous.unwrap().title, "A");
    assert!(next.is_none());
    let (previous, next) = select_siblings(&store, "1.0").unwrap();
    assert!(previous.is_none());
    assert_eq!(next.unwrap().title, "A");
}

#[test]
fn siblings_of_a_section_are_sections() {
    let mut store = connect(&Strategy::Memory).unwrap();
    insert_record(&mut store, &record("1", None, "Intro", "intro")).unwrap();
    insert_record(&mut store, &record("2", None, "Advanced", "advanced")).unwrap();
    let (previous, next) = select_siblings(&store, "1").unwrap();
    assert!(previous.is_none());
    assert_eq!(next.unwrap().title, "Advanced");
    let (previous, next) = select_siblings(&store, "0").unwrap();
    assert!(previous.is_none());
    assert_eq!(next.unwrap().title, "Intro");
}

#[test]
fn siblings_beyond_32_bits_are_looked_up() {
    let mut store = connect(&Strategy::Memory).unwrap();
    insert_record(&mut store, &record("1.4294967295", Some("1"), "A", "a")).unwrap();
    insert_record(&mut store, &record("1.4294967297", Some("1"), "C", "c")).unwrap();
    let (previous, next) = select_siblings(&store, "1.4294967296").unwrap();
    assert_eq!(previous.unwrap().title, "A");
    assert_eq!(next.unwrap().title, "C");
}

#[test]
fn siblings_of_a_malformed_ordinal_are_invalid() {
    let store = connect(&Strategy::Memory).unwrap();
    for text in ["", "1.", "1.x", "abc", "1.-1"] {
        assert!(matches!(select_siblings(&store, text), Err(StoreError::InvalidOrdinal)));
    }
}

#[test]
fn siblings_are_found_under_the_spelling_that_arithmetic_gives() {
    let mut store = connect(&Strategy::Memory).unwrap();
    insert_record(&mut store, &record("1.01", Some("1"), "Padded", "padded")).unwrap();
    insert_record(&mut store, &record("1.3", Some("1"), "C", "c")).unwrap();
    let (previous, next) = select_siblings(&store, "1.02").unwrap();
    assert!(previous.is_none());
    assert_eq!(next.unwrap().title, "C");
}
