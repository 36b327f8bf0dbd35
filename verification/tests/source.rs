use shaker::error::StoreError;
use shaker::source::{exclude_by_name, process_entry, slug, Entry, MetaItem, Metadata};

fn item(lang: &str, name: &str, desc: Option<&str>) -> MetaItem {
    MetaItem { lang: lang.to_string(), name: name.to_string(), desc: desc.map(|d| d.to_string()) }
}

fn metadata(number: &str, parent: Option<&str>, data: Vec<MetaItem>) -> Metadata {
    Metadata {
        number: number.to_string(),
        parent: parent.map(|p| p.to_string()),
        difficulty: Some(2),
        data,
    }
}

#[test]
fn slug_drops_letters_beyond_ascii() {
    assert_eq!(slug("Equació de Segon Grau"), "equaci-de-segon-grau");
}

#[test]
fn slug_keeps_letters_and_hyphens_only() {
    assert_eq!(slug("Intro"), "intro");
    assert_eq!(slug("Advanced Topics"), "advanced-topics");
    assert_eq!(slug("a-b c"), "a-b-c");
    assert_eq!(slug("x2 + y2 = 9!"), "x--y--");
    assert_eq!(slug(""), "");
    assert_eq!(slug("1234"), "");
    assert_eq!(slug("ÀÉÎ"), "");
    assert_eq!(slug("  "), "--");
    assert_eq!(slug("A_Z"), "az");
}

#[test]
fn slug_does_not_transliterate() {
    assert_eq!(slug("\u{212A}elvin"), "elvin");
    assert_eq!(slug("\u{0130}stanbul"), "stanbul");
    assert_eq!(slug("ñandú"), "and");
}

#[test]
fn slug_holds_only_slug_characters() {
    for title in ["Equació de Segon Grau", "Hello, World!", "a\tb\nc", "ÇA VA?", "--"] {
        assert!(slug(title).chars().all(|c| c.is_ascii_lowercase() || c == '-'), "{:?}", title);
    }
}

#[test]
fn names_that_are_not_excluded_are_kept() {
    let excluded = ["assets", "temario.md"];
    assert!(exclude_by_name("1.1", &excluded));
    assert!(exclude_by_name("asset", &excluded));
    assert!(exclude_by_name("", &excluded));
    assert!(!exclude_by_name("assets", &excluded));
    assert!(!exclude_by_name("temario.md", &excluded));
    assert!(exclude_by_name("assets", &[]));
}

#[test]
fn an_entry_without_the_language_is_skipped() {
    let meta = metadata("1.1", Some("1"), vec![item("ca", "Títol", Some("cos"))]);
    assert!(matches!(process_entry(&meta, "en"), Ok(Entry::Skipped)));
    let empty = metadata("1.1", Some("1"), vec![]);
    assert!(matches!(process_entry(&empty, "en"), Ok(Entry::Skipped)));
}

#[test]
fn an_entry_without_the_language_is_skipped_whatever_its_ordinal() {
    let meta = metadata("x.1", None, vec![item("ca", "Títol", None)]);
    assert!(matches!(process_entry(&meta, "en"), Ok(Entry::Skipped)));
}

#[test]
fn an_entry_with_a_description_is_complete() {
    let meta = metadata(
        "3.1.4",
        Some("3.1"),
        vec![item("ca", "Equació", Some("cos")), item("en", "Second Degree", Some("body"))],
    );
    match process_entry(&meta, "en") {
        Ok(Entry::Complete(record)) => {
            assert_eq!(record.ordinal, "3.1.4");
            assert_eq!(record.parent, Some("3.1".to_string()));
            assert_eq!(record.ancestor, 3);
            assert_eq!(record.slug, "second-degree");
            assert_eq!(record.title, "Second Degree");
            assert_eq!(record.difficulty, Some(2));
            assert_eq!(record.content, "body");
        },
        other => panic!("{:?}", other),
    }
}

#[test]
fn an_entry_without_a_description_waits_for_its_body() {
    let meta = metadata("2", None, vec![item("es", "Avanzado", None)]);
    match process_entry(&meta, "es") {
        Ok(Entry::Pending { record, content_path }) => {
            assert_eq!(content_path, "theory/es.md");
            assert_eq!(record.ordinal, "2");
            assert_eq!(record.parent, None);
            assert_eq!(record.ancestor, 2);
            assert_eq!(record.slug, "avanzado");
            assert_eq!(record.title, "Avanzado");
            assert_eq!(record.content, "");
        },
        other => panic!("{:?}", other),
    }
}

#[test]
fn the_first_item_of_the_language_is_taken() {
    let meta = metadata(
        "1",
        None,
        vec![item("en", "First", Some("one")), item("en", "Second", Some("two"))],
    );
    match process_entry(&meta, "en") {
        Ok(Entry::Complete(record)) => assert_eq!(record.title, "First"),
        other => panic!("{:?}", other),
    }
}

#[test]
fn an_entry_with_a_malformed_ordinal_is_invalid() {
    let meta = metadata("x.1", None, vec![item("en", "Title", Some("body"))]);
    assert!(matches!(process_entry(&meta, "en"), Err(StoreError::InvalidOrdinal)));
    let empty = metadata("", None, vec![item("en", "Title", None)]);
    assert!(matches!(process_entry(&empty, "en"), Err(StoreError::InvalidOrdinal)));
}

#[test]
fn only_the_first_segment_of_the_ordinal_is_read() {
    let meta = metadata("4.x", Some("4"), vec![item("en", "Title", Some("body"))]);
    match process_entry(&meta, "en") {
        Ok(Entry::Complete(record)) => assert_eq!(record.ancestor, 4),
        other => panic!("{:?}", other),
    }
}
