//! Tests for the builder and the store: ordering, single finish, prefix
//! queries, and homograph retrieval.

use kosha::kosha::{Builder, Kosha};
use kosha::packing::decode;
use kosha::semantics::{Linga, Pada, Pratipadika, Purusha, Vacana, Vibhakti};
use kosha::semantics::{Dhatu, Lakara, PadaPrayoga};
use kosha::KoshaError;

fn stem(text: &str) -> Pratipadika {
    Pratipadika::new(text.to_string())
}

fn avyaya(text: &str) -> Pada {
    Pada::make_avyaya(stem(text))
}

fn build(entries: &[(&str, Pada)]) -> Vec<u8> {
    let mut builder = Builder::new();
    for (key, pada) in entries {
        builder.insert(key, pada).expect("keys are in order");
    }
    builder.finish().expect("first finish succeeds")
}

#[test]
fn out_of_order_key_is_rejected() {
    let mut builder = Builder::new();
    assert_eq!(builder.insert("a", &avyaya("a")), Ok(()));
    assert_eq!(builder.insert("b", &avyaya("b")), Ok(()));
    assert_eq!(builder.insert("a", &avyaya("a")), Err(KoshaError::OrderingError));
    // the failed insert left the entries untouched: the builder still works
    assert_eq!(builder.insert("c", &avyaya("c")), Ok(()));
    let bytes = builder.finish().expect("finish after a rejected insert");
    let kosha = Kosha::new(&bytes).expect("a finished store loads");
    assert!(kosha.contains_key("a"));
    assert!(kosha.contains_key("b"));
    assert!(kosha.contains_key("c"));
    assert_eq!(kosha.get_all("a").len(), 1);
}

#[test]
fn equal_keys_accumulate_in_order() {
    let first = Pada::make_subanta(stem("a"), Some(Linga::Pum), None, None);
    let second = Pada::make_subanta(stem("a"), Some(Linga::Stri), None, None);
    let mut builder = Builder::new();
    assert_eq!(builder.insert("a", &first), Ok(()));
    assert_eq!(builder.insert("a", &second), Ok(()));
    assert_eq!(builder.insert("b", &avyaya("b")), Ok(()));
    let bytes = builder.finish().expect("finish");
    let kosha = Kosha::new(&bytes).expect("load");
    let records = kosha.get_all("a");
    assert_eq!(records.len(), 2);
    assert_eq!(decode(&records[0]).expect("first decodes"), first);
    assert_eq!(decode(&records[1]).expect("second decodes"), second);
}

#[test]
fn second_finish_fails() {
    let mut builder = Builder::new();
    builder.insert("a", &avyaya("a")).expect("insert");
    assert!(builder.finish().is_ok());
    assert_eq!(builder.finish().err(), Some(KoshaError::AlreadyFinishedError));
}

#[test]
fn insert_after_finish_fails() {
    let mut builder = Builder::new();
    builder.insert("a", &avyaya("a")).expect("insert");
    builder.finish().expect("finish");
    assert_eq!(builder.insert("b", &avyaya("b")), Err(KoshaError::AlreadyFinishedError));
}

#[test]
fn prefix_semantics() {
    let bytes = build(&[
        ("rama", avyaya("rama")),
        ("ramau", avyaya("ramau")),
        ("ramya", avyaya("ramya")),
    ]);
    let kosha = Kosha::new(&bytes).expect("load");
    assert!(kosha.contains_prefix("ram"));
    assert!(kosha.contains_prefix("ramy"));
    assert!(!kosha.contains_prefix("ramz"));
    assert!(!kosha.contains_key("ram"));
    assert!(kosha.contains_key("rama"));
    assert!(kosha.contains_prefix("rama"));
    assert!(kosha.contains_prefix(""));
}

#[test]
fn homograph_retrieval() {
    // two distinct readings of "te": a nominal and a verb
    let nominal = Pada::make_subanta(
        stem("tad"),
        Some(Linga::Pum),
        Some(Vibhakti::V1),
        Some(Vacana::Bahu),
    );
    let verb = Pada::make_tinanta(
        Some(Dhatu::new("as".to_string())),
        Some(Purusha::Prathama),
        Some(Vacana::Eka),
        Some(Lakara::Lat),
        Some(PadaPrayoga::AtmanepadaKartari),
    );
    let mut builder = Builder::new();
    builder.insert("te", &nominal).expect("insert nominal");
    builder.insert("te", &verb).expect("insert verb");
    let bytes = builder.finish().expect("finish");
    let kosha = Kosha::new(&bytes).expect("load");
    let records = kosha.get_all("te");
    assert_eq!(records.len(), 2);
    assert_eq!(decode(&records[0]).expect("nominal decodes"), nominal);
    assert_eq!(decode(&records[1]).expect("verb decodes"), verb);
}

#[test]
fn absent_key_gives_empty_not_error() {
    let bytes = build(&[("a", avyaya("a"))]);
    let kosha = Kosha::new(&bytes).expect("load");
    assert_eq!(kosha.get_all("zzz").len(), 0);
    assert!(!kosha.contains_key("zzz"));
}

#[test]
fn empty_store_answers_nothing() {
    let bytes = build(&[]);
    let kosha = Kosha::new(&bytes).expect("an empty store still loads");
    assert!(!kosha.contains_key("a"));
    assert!(!kosha.contains_prefix(""));
    assert_eq!(kosha.get_all("a").len(), 0);
}

#[test]
fn ordering_is_bytewise() {
    // "aB" < "aa" in byte order (uppercase before lowercase), no folding
    let bytes = build(&[("aB", avyaya("x")), ("aa", avyaya("y"))]);
    let kosha = Kosha::new(&bytes).expect("load");
    assert!(kosha.contains_key("aB"));
    assert!(kosha.contains_key("aa"));
    assert!(!kosha.contains_key("ab"));
    let mut builder = Builder::new();
    builder.insert("aa", &avyaya("y")).expect("first");
    assert_eq!(builder.insert("aB", &avyaya("x")), Err(KoshaError::OrderingError));
}
