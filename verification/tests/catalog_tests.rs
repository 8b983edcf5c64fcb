use book_catalog::catalog::{Catalog, Entry, InsertionOutcome};
use rayon::prelude::ParallelIterator;
use rayon::prelude::IntoParallelRefIterator;
use std::sync::Mutex;

fn entry(title: &str) -> Entry {
    Entry {
        title: String::from(title),
        source_location: format!("books/{}.epub", title),
        cover_location: format!("covers/{}.jpg", title),
    }
}

fn titles(c: &Catalog) -> Vec<String> {
    let mut out = Vec::new();
    let mut i = 0;
    while i < c.len() {
        out.push(c.get(i).title.clone());
        i += 1;
    }
    out
}

#[test]
fn locate_between_existing_titles() {
    let mut c = Catalog::new();
    assert!(c.insert_new(entry("Alpha")));
    assert!(c.insert_new(entry("Charlie")));
    assert_eq!(c.locate("Bravo"), InsertionOutcome::InsertAt(1));
}

#[test]
fn locate_in_empty_catalog() {
    let c = Catalog::new();
    assert_eq!(c.locate("Zeta"), InsertionOutcome::InsertAt(0));
}

#[test]
fn locate_present_title() {
    let mut c = Catalog::new();
    assert!(c.insert_new(entry("Delta")));
    assert_eq!(c.locate("Delta"), InsertionOutcome::AlreadyPresent);
}

#[test]
fn locate_before_and_after_all() {
    let mut c = Catalog::new();
    assert!(c.insert_new(entry("Mid")));
    assert_eq!(c.locate("Aardvark"), InsertionOutcome::InsertAt(0));
    assert_eq!(c.locate("Zebra"), InsertionOutcome::InsertAt(1));
}

#[test]
fn insert_keeps_catalog_sorted_and_unique() {
    let mut c = Catalog::new();
    for t in ["Pear", "Apple", "Quince", "Apple", "Banana", "Pear"] {
        c.insert_new(entry(t));
    }
    assert_eq!(titles(&c), vec!["Apple", "Banana", "Pear", "Quince"]);
}

#[test]
fn inserting_present_title_is_a_no_op() {
    let mut c = Catalog::new();
    let mut first = entry("Echo");
    first.cover_location = String::from("covers/original.jpg");
    assert!(c.insert_new(first));
    let mut second = entry("Echo");
    second.cover_location = String::from("covers/usurper.jpg");
    assert!(!c.insert_new(second));
    assert_eq!(c.len(), 1);
    // the existing entry is left untouched: no metadata refresh
    assert_eq!(c.get(0).cover_location, "covers/original.jpg");
}

#[test]
fn duplicate_discovery_survives_once() {
    // two workers both discover a file titled "Echo"; whichever submits
    // second must resolve to AlreadyPresent
    let mut c = Catalog::new();
    assert!(c.insert_new(entry("Echo")));
    assert_eq!(c.locate("Echo"), InsertionOutcome::AlreadyPresent);
    assert!(!c.insert_new(entry("Echo")));
    assert_eq!(titles(&c), vec!["Echo"]);
}

#[test]
fn merge_twice_is_idempotent() {
    let items = vec![entry("Foxtrot"), entry("Bravo"), entry("Delta"), entry("Bravo")];
    let mut c = Catalog::from_entries(&items);
    let after_first = titles(&c);
    assert_eq!(after_first, vec!["Bravo", "Delta", "Foxtrot"]);
    c.merge(&items);
    assert_eq!(titles(&c), after_first);
}

#[test]
fn merge_extends_a_loaded_catalog() {
    let loaded = vec![entry("Alpha"), entry("Charlie")];
    let mut c = Catalog::from_entries(&loaded);
    let newly_found = vec![entry("Bravo"), entry("Charlie")];
    c.merge(&newly_found);
    assert_eq!(titles(&c), vec!["Alpha", "Bravo", "Charlie"]);
}

#[test]
fn empty_title_is_a_valid_input() {
    let mut c = Catalog::new();
    assert_eq!(c.locate(""), InsertionOutcome::InsertAt(0));
    assert!(c.insert_new(entry("")));
    assert_eq!(c.locate(""), InsertionOutcome::AlreadyPresent);
    assert!(c.insert_new(entry("Alpha")));
    // the empty title sorts before every other title
    assert_eq!(titles(&c), vec!["", "Alpha"]);
}

#[test]
fn concurrent_workers_insert_each_title_once() {
    // several workers race to submit the same discoveries; every insertion
    // re-validates under the lock, so each title survives exactly once
    let shared = Mutex::new(Catalog::new());
    let discoveries = vec!["Echo", "Alpha", "Echo", "Bravo", "Alpha", "Echo"];
    discoveries.par_iter().for_each(|t| {
        let mut guard = shared.lock().unwrap();
        match guard.locate(t) {
            InsertionOutcome::AlreadyPresent => {}
            InsertionOutcome::InsertAt(_) => {
                guard.insert_new(entry(t));
            }
        }
    });
    let c = shared.into_inner().unwrap();
    assert_eq!(titles(&c), vec!["Alpha", "Bravo", "Echo"]);
}

#[test]
fn rebuilding_from_stored_entries_changes_nothing() {
    // what a run persists, the next run loads and re-merges; the catalog
    // must come back identical
    let items = vec![entry("Golf"), entry("Alpha"), entry("Echo")];
    let c = Catalog::from_entries(&items);
    let mut stored = Vec::new();
    let mut i = 0;
    while i < c.len() {
        stored.push(c.get(i).duplicate());
        i += 1;
    }
    let mut reloaded = Catalog::from_entries(&stored);
    assert_eq!(titles(&reloaded), titles(&c));
    // and discovering the same items again is still a no-op
    reloaded.merge(&items);
    assert_eq!(titles(&reloaded), titles(&c));
}

#[test]
fn titles_compare_case_sensitively() {
    let mut c = Catalog::new();
    assert!(c.insert_new(entry("apple")));
    // "Apple" differs from "apple": no duplicate
    assert!(c.insert_new(entry("Apple")));
    // upper-case code points come first
    assert_eq!(titles(&c), vec!["Apple", "apple"]);
}
