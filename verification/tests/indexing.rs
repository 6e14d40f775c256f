use memory_search::chunk::chunk_file;
use memory_search::index::{
    query_embedding, ApplyError, BeginError, Cache, Index, Reindex, WarmCache, REINDEX_BATCH,
};
use memory_search::store::{StoreEntry, Unreadable};
use memory_search::strmap::StrMap;

fn found(name: &str, raw: &str) -> StoreEntry {
    StoreEntry::Found {
        name: name.as_bytes().to_vec(),
        raw: Some(raw.to_owned()),
    }
}

fn store() -> Vec<StoreEntry> {
    vec![found("b.md", "bee\n"), found("a.md", "ay\n## More\nmore\n")]
}

fn hashes(entries: &[(&str, &str)]) -> Vec<String> {
    entries
        .iter()
        .flat_map(|(n, r)| chunk_file(n, r).into_iter().map(|c| c.hash))
        .collect()
}

fn cache_of(pairs: &[(String, u32)]) -> Cache {
    let mut embeddings = StrMap::new();
    for (h, bits) in pairs {
        embeddings.insert(h.clone(), vec![*bits]);
    }
    Cache { embeddings }
}

fn begin(entries: &Vec<StoreEntry>, cached: Option<Cache>) -> Reindex {
    match Index::begin_reindex(entries, cached) {
        Ok(w) => w,
        Err(u) => panic!("entry {} could not be read", u.entry),
    }
}

fn finish(work: &mut Reindex, first: u32) -> u32 {
    let mut bits = first;
    while !work.is_done() {
        let n = work.next_batch().len();
        let rows: Vec<Vec<u32>> = (0..n as u32).map(|k| vec![bits + k]).collect();
        work.record(&rows);
        bits += n as u32;
    }
    bits
}

fn keys(c: &Cache) -> Vec<String> {
    c.embeddings.entries().iter().map(|e| e.0.clone()).collect()
}

#[test]
fn a_pass_begins_with_what_the_cache_lacks() {
    let h = hashes(&[("a.md", "ay\n## More\nmore\n"), ("b.md", "bee\n")]);
    assert_eq!(h.len(), 3);
    let work = begin(&store(), Some(cache_of(&[(h[1].clone(), 7)])));
    assert_eq!(work.work(), 2);
    assert_eq!(work.remaining(), 2);
    assert_eq!(work.chunk_count(), 3);
    assert!(!work.is_done());
    assert_eq!(work.next_batch(), vec!["[a.md] \nay\n"]);
    assert_eq!(REINDEX_BATCH, 1);
}

#[test]
fn no_cache_counts_as_an_empty_one() {
    assert_eq!(begin(&store(), None).work(), 3);
    assert_eq!(begin(&store(), Some(Cache::default())).work(), 3);
}

#[test]
fn a_full_pass_is_applied() {
    let mut work = begin(&store(), None);
    finish(&mut work, 10);
    let mut index = Index::new();
    assert_eq!(index.apply(work), Ok(()));
    let files: Vec<&str> = index.chunks.iter().map(|c| c.file.as_str()).collect();
    assert_eq!(files, vec!["a.md", "a.md", "b.md"]);
    assert_eq!(index.embeddings, vec![vec![10], vec![11], vec![12]]);
}

#[test]
fn unfinished_work_is_not_applied() {
    let work = begin(&store(), None);
    let mut index = Index::new();
    assert_eq!(index.apply(work), Err(ApplyError::NotDone(3)));
    assert!(index.chunks.is_empty());
    assert!(index.embeddings.is_empty());
}

#[test]
fn a_chunk_without_an_embedding_is_named() {
    let mut work = begin(&store(), None);
    work.record(&vec![vec![1]]);
    work.record(&vec![]);
    work.record(&vec![vec![3]]);
    assert!(work.is_done());
    let mut index = Index::new();
    assert_eq!(
        index.apply(work),
        Err(ApplyError::NoEmbedding {
            file: "a.md".to_owned(),
            heading: "More".to_owned(),
        })
    );
    assert!(index.chunks.is_empty());
}

#[test]
fn a_row_too_many_is_passed_over() {
    let mut work = begin(&vec![found("a.md", "ay\n")], None);
    work.record(&vec![vec![1], vec![2]]);
    let mut index = Index::new();
    assert_eq!(index.apply(work), Ok(()));
    assert_eq!(index.embeddings, vec![vec![1]]);
}

#[test]
fn only_what_was_embedded_is_owed_to_the_disk() {
    let mut work = begin(&store(), None);
    assert!(work.prune().is_none());
    finish(&mut work, 10);
    let written = work.prune().map(|c| keys(c));
    let mut want = hashes(&[("a.md", "ay\n## More\nmore\n"), ("b.md", "bee\n")]);
    want.sort();
    assert_eq!(written, Some(want));

    let h = hashes(&[("a.md", "ay\n")]);
    let mut clean = begin(&vec![found("a.md", "ay\n")], Some(cache_of(&[(h[0].clone(), 7)])));
    assert!(clean.is_done());
    assert!(clean.prune().is_none());
}

#[test]
fn pruning_drops_what_no_chunk_needs() {
    let old = ("gone".to_owned(), 1);
    let mut work = begin(&vec![found("a.md", "ay\n")], Some(cache_of(&[old])));
    finish(&mut work, 5);
    let h = hashes(&[("a.md", "ay\n")]);
    assert_eq!(work.prune().map(|c| keys(c)), Some(h));
    let mut index = Index::new();
    assert_eq!(index.apply(work), Ok(()));
    assert_eq!(index.embeddings, vec![vec![5]]);
}

#[test]
fn an_unchanged_store_needs_no_work() {
    let mut work = begin(&store(), None);
    finish(&mut work, 10);
    let pairs: Vec<(String, u32)> = match work.prune() {
        Some(c) => c.embeddings.entries().iter().map(|e| (e.0.clone(), e.1[0])).collect(),
        None => panic!("nothing to write"),
    };
    assert_eq!(begin(&store(), Some(cache_of(&pairs))).work(), 0);
    let fewer = vec![found("b.md", "bee\n")];
    assert_eq!(begin(&fewer, Some(cache_of(&pairs))).work(), 0);
    let renamed = vec![found("c.md", "bee\n")];
    assert_eq!(begin(&renamed, Some(cache_of(&pairs))).work(), 1);
}

#[test]
fn work_that_was_given_up_is_kept() {
    let mut first = begin(&store(), None);
    first.record(&vec![vec![1]]);
    let mut warm: Option<WarmCache> = Some(first.into_warm());
    let fewer = vec![found("a.md", "ay\n")];
    let mut next = match Index::begin_reindex_with(&fewer, &mut warm) {
        Ok(w) => w,
        Err(_) => panic!("the pass did not begin"),
    };
    assert!(warm.is_none());
    assert_eq!(next.work(), 0);
    // What the first pass embedded is still owed to the disk.
    assert_eq!(next.prune().map(|c| keys(c)), Some(hashes(&[("a.md", "ay\n")])));
    let mut index = Index::new();
    assert_eq!(index.apply(next), Ok(()));
    assert_eq!(index.embeddings, vec![vec![1]]);
}

#[test]
fn cached_embeddings_keep_their_values() {
    let h = hashes(&[("a.md", "ay\n## More\nmore\n"), ("b.md", "bee\n")]);
    let mut work = begin(&store(), Some(cache_of(&[(h[1].clone(), 7)])));
    finish(&mut work, 10);
    assert!(work.prune().is_some());
    let mut index = Index::new();
    assert_eq!(index.apply(work), Ok(()));
    assert_eq!(index.embeddings, vec![vec![10], vec![7], vec![11]]);
}

#[test]
fn a_failed_start_costs_nothing() {
    let mut first = begin(&store(), None);
    first.record(&vec![vec![1]]);
    let mut warm: Option<WarmCache> = Some(first.into_warm());
    let broken = vec![StoreEntry::Found {
        name: b"a.md".to_vec(),
        raw: None,
    }];
    assert_eq!(
        Index::begin_reindex_with(&broken, &mut warm).err(),
        Some(BeginError::Store(Unreadable { entry: 0 }))
    );
    assert!(warm.is_some());
    match Index::begin_reindex_with(&store(), &mut warm) {
        Ok(w) => assert_eq!(w.work(), 2),
        Err(_) => panic!("the pass did not begin"),
    }
    assert_eq!(
        Index::begin_reindex_with(&store(), &mut warm).err(),
        Some(BeginError::NoCache)
    );
}

#[test]
fn an_index_from_the_cache_leaves_the_rest_out() {
    let h = hashes(&[("a.md", "ay\n## More\nmore\n"), ("b.md", "bee\n")]);
    let cached = || cache_of(&[(h[2].clone(), 9), (h[1].clone(), 8)]);
    match Index::build_cached(&store(), Some(cached())) {
        Ok((index, left)) => {
            assert_eq!(left, 1);
            let headings: Vec<&str> = index.chunks.iter().map(|c| c.heading.as_str()).collect();
            assert_eq!(headings, vec!["More", ""]);
            assert_eq!(index.embeddings, vec![vec![8], vec![9]]);
            assert_eq!(begin(&store(), Some(cached())).work(), left);
        }
        Err(u) => panic!("entry {} could not be read", u.entry),
    }
    let broken = vec![StoreEntry::Found {
        name: b"a.md".to_vec(),
        raw: None,
    }];
    assert_eq!(Index::build_cached(&broken, None).err(), Some(Unreadable { entry: 0 }));
    assert_eq!(Index::begin_reindex(&broken, None).err(), Some(Unreadable { entry: 0 }));
}

#[test]
fn the_first_row_is_the_embedding_of_a_query() {
    assert_eq!(query_embedding(Ok(vec![vec![1, 2], vec![3]])).ok(), Some(Some(vec![1, 2])));
    assert_eq!(query_embedding(Ok(vec![])).ok(), Some(None));
    match query_embedding(Err(anyhow::Error::msg("no such tensor"))) {
        Ok(_) => panic!("a failure was lost"),
        Err(e) => assert_eq!(e.cause.to_string(), "no such tensor"),
    }
}
