use memory_search::paths::{cache_dir, cache_path, model_dir, socket_path};
use memory_search::stamp::{store_stamp, Stat, EPOCH};
use memory_search::store::{chunk_store, StoreEntry, Unreadable};

fn found(name: &[u8], raw: &str) -> StoreEntry {
    StoreEntry::Found {
        name: name.to_vec(),
        raw: Some(raw.to_owned()),
    }
}

fn unreadable(name: &[u8]) -> StoreEntry {
    StoreEntry::Found {
        name: name.to_vec(),
        raw: None,
    }
}

fn files(entries: Vec<StoreEntry>) -> Vec<String> {
    match chunk_store(&entries) {
        Ok(chunks) => chunks.into_iter().map(|c| c.file).collect(),
        Err(u) => panic!("entry {} could not be read", u.entry),
    }
}

#[test]
fn memories_are_listed_by_name() {
    let got = files(vec![
        found(b"b.md", "x\n"),
        found(b"B.md", "x\n"),
        found(b"a.md", "x\n"),
    ]);
    assert_eq!(got, vec!["B.md", "a.md", "b.md"]);
}

#[test]
fn other_files_are_passed_over() {
    let got = files(vec![
        found(b"MEMORY.md", "x\n"),
        found(b"notes.txt", "x\n"),
        found(b".md", "x\n"),
        found(b"a.MD", "x\n"),
        found(b"md", "x\n"),
        found(b"memory.md", "x\n"),
        StoreEntry::Lost,
        unreadable(b"image.png"),
        unreadable(b"MEMORY.md"),
    ]);
    assert_eq!(got, vec!["memory.md"]);
}

#[test]
fn the_first_unreadable_memory_is_reported() {
    let entries = vec![
        unreadable(b"z.md"),
        found(b"a.md", "x\n"),
        unreadable(b"b.md"),
    ];
    assert_eq!(chunk_store(&entries).err(), Some(Unreadable { entry: 2 }));
}

#[test]
fn names_that_are_no_text_are_shown_anyway() {
    let got = files(vec![found(b"\xffa.md", "x\n"), found("ก.md".as_bytes(), "x\n")]);
    assert_eq!(got, vec!["ก.md".to_owned(), "\u{fffd}a.md".to_owned()]);
}

#[test]
fn an_empty_store_has_no_chunks() {
    assert_eq!(files(vec![]), Vec::<String>::new());
}

fn stat(name: &[u8], modified: Option<i128>) -> Stat {
    Stat {
        name: name.to_vec(),
        modified,
    }
}

#[test]
fn the_stamp_is_the_newest_time() {
    let stats = vec![
        stat(b"a.md", Some(20)),
        stat(b"b.md", None),
        stat(b"c.md", Some(10)),
        stat(b"d.txt", Some(99)),
        stat(b"MEMORY.md", Some(25)),
    ];
    assert_eq!(store_stamp(Some(5), &stats), 25);
    assert_eq!(store_stamp(Some(30), &stats), 30);
    assert_eq!(store_stamp(None, &vec![]), EPOCH);
    assert_eq!(store_stamp(None, &vec![stat(b"a.md", Some(-7))]), EPOCH);
    assert_eq!(store_stamp(Some(-9), &vec![stat(b"a.md", Some(-7))]), -7);
}

#[test]
fn changes_move_the_stamp() {
    let before = store_stamp(Some(5), &vec![stat(b"a.md", Some(4))]);
    let edited = store_stamp(Some(5), &vec![stat(b"a.md", Some(6))]);
    let removed = store_stamp(Some(7), &vec![]);
    let same = store_stamp(Some(5), &vec![stat(b"a.md", Some(4))]);
    assert!(edited > before);
    assert!(removed > before);
    assert_eq!(same, before);
}

#[test]
fn derived_data_stands_outside_the_store() {
    assert_eq!(cache_dir("/home/u"), "/home/u/.cache/memory-search");
    assert_eq!(cache_path("/home/u"), "/home/u/.cache/memory-search/index-v1.json");
    assert_eq!(socket_path("/home/u"), "/home/u/.cache/memory-search/memqd.sock");
    assert_eq!(model_dir("/home/u/"), "/home/u/.cache/memory-search/models");
}
