use memory_search::chunk::Chunk;
use memory_search::hits::{
    bench_row, best_per_file, pool, prompt_answer, raw_answer, select, shown_heading, tool_answer,
    tool_k, BENCH_FILES, DEFAULT_K, MIN_MARGIN, MIN_SCORE, POOL, RELATED_LIMIT,
};
use memory_search::index::Index;
use memory_search::links::LinkGraph;
use memory_search::search::{does_reach, is_below, numeric};
use memory_search::store::StoreEntry;

fn chunk(file: &str, heading: &str, body: &str) -> Chunk {
    Chunk {
        file: file.to_owned(),
        heading: heading.to_owned(),
        text: format!("[{file}] about — {heading}\n{body}"),
        hash: "h".to_owned(),
    }
}

fn index(chunks: Vec<Chunk>) -> Index {
    let embeddings = chunks.iter().map(|_| vec![]).collect();
    Index { chunks, embeddings }
}

fn bits(scores: &[f32]) -> Vec<u32> {
    scores.iter().map(|s| s.to_bits()).collect()
}

fn three(scores: &[(u32, &Chunk)]) -> Vec<String> {
    scores.iter().map(|h| format!("{:.3}", f32::from_bits(h.0))).collect()
}

fn files(hits: &[(u32, &Chunk)]) -> Vec<String> {
    hits.iter().map(|h| h.1.file.clone()).collect()
}

fn graph(entries: &[(&str, &str)]) -> LinkGraph {
    let listed: Vec<StoreEntry> = entries
        .iter()
        .map(|(n, r)| StoreEntry::Found {
            name: n.as_bytes().to_vec(),
            raw: Some((*r).to_owned()),
        })
        .collect();
    match LinkGraph::build(&listed) {
        Ok(g) => g,
        Err(u) => panic!("entry {} spoils the graph", u.entry),
    }
}

#[test]
fn bits_compare_as_their_numbers_do() {
    let xs = [
        f32::NEG_INFINITY, -2.5, -1.0, -f32::MIN_POSITIVE, -0.0, 0.0, 1.0e-40, 0.13, 0.53, 1.0,
        f32::MAX, f32::INFINITY, f32::NAN,
    ];
    for a in xs {
        assert_eq!(numeric(a.to_bits()), !a.is_nan());
        for b in xs {
            assert_eq!(is_below(a.to_bits(), b.to_bits()), a < b, "{a} {b}");
            assert_eq!(does_reach(a.to_bits(), b.to_bits()), a >= b, "{a} {b}");
        }
    }
}

#[test]
fn the_thresholds_are_the_bits_of_their_numbers() {
    assert_eq!(MIN_SCORE, 0.53f32.to_bits());
    assert_eq!(MIN_MARGIN, 0.13f32.to_bits());
    assert_eq!((DEFAULT_K, POOL, RELATED_LIMIT, BENCH_FILES), (3, 40, 5, 5));
}

#[test]
fn the_best_come_first_and_equal_ones_keep_their_order() {
    let i = index(vec![
        chunk("a.md", "", "1"),
        chunk("b.md", "", "2"),
        chunk("c.md", "", "3"),
        chunk("d.md", "", "4"),
    ]);
    let (hits, median) = i.search_scored(&bits(&[0.5, 0.9, 0.5, -0.1]), 3);
    assert_eq!(files(&hits), vec!["b.md", "a.md", "c.md"]);
    assert_eq!(f32::from_bits(hits[0].0), 0.9);
    assert_eq!(f32::from_bits(median), 0.5);
    assert_eq!(files(&i.search(&bits(&[0.5, 0.9, 0.5, -0.1]), 1)), vec!["b.md"]);
    assert_eq!(files(&i.search(&bits(&[0.0, -0.0, 0.0, -0.0]), 9)), vec!["a.md", "b.md", "c.md", "d.md"]);
}

#[test]
fn the_median_does_not_depend_on_how_many_are_asked_for() {
    let i = index((0..5).map(|n| chunk(&format!("{n}.md"), "", "x")).collect());
    let scores = bits(&[0.1, 0.2, 0.3, 0.4, 0.5]);
    for k in 0..7 {
        let (hits, median) = i.search_scored(&scores, k);
        assert_eq!(hits.len(), k.min(5));
        assert_eq!(f32::from_bits(median), 0.3);
    }
    let (hits, median) = i.search_scored(&bits(&[0.1, 0.2]), 9);
    assert_eq!(files(&hits), vec!["1.md", "0.md"]);
    assert_eq!(f32::from_bits(median), 0.1);
}

#[test]
fn nothing_is_found_in_an_empty_index() {
    let i = Index::new();
    let (hits, median) = i.search_scored(&vec![], 3);
    assert!(hits.is_empty());
    assert_eq!(median, 0);
    assert!(i.search(&bits(&[0.5]), 3).is_empty());
}

#[test]
fn a_single_score_need_be_no_number() {
    let i = index(vec![chunk("a.md", "", "1")]);
    assert_eq!(i.search(&vec![f32::NAN.to_bits()], 3).len(), 1);
}

#[test]
fn one_hit_speaks_for_a_file() {
    let i = index(vec![
        chunk("a.md", "one", "1"),
        chunk("a.md", "two", "2"),
        chunk("b.md", "", "3"),
    ]);
    let hits = i.search(&bits(&[0.6, 0.9, 0.7]), 40);
    let best = best_per_file(&hits, 5);
    assert_eq!(files(&best), vec!["a.md", "b.md"]);
    assert_eq!(best[0].1.heading, "two");
    assert_eq!(files(&best_per_file(&hits, 1)), vec!["a.md"]);
    assert!(best_per_file(&hits, 0).is_empty());
}

#[test]
fn prompts_are_answered_with_good_hits_alone() {
    let i = index(vec![
        chunk("a.md", "one", "1"),
        chunk("b.md", "", "2"),
        chunk("c.md", "", "3"),
        chunk("a.md", "two", "4"),
        chunk("d.md", "", "5"),
    ]);
    let hits = i.search(&bits(&[0.9, 0.53, 0.5299, 0.8, 0.6]), 40);
    let peak = 0.13f32.to_bits();
    assert_eq!(files(&select(&hits, peak, 3)), vec!["a.md", "d.md", "b.md"]);
    assert_eq!(files(&select(&hits, peak, 2)), vec!["a.md", "d.md"]);
    assert!(select(&hits, peak, 0).is_empty());
    assert!(select(&hits, 0.1299f32.to_bits(), 3).is_empty());
    assert!(select(&hits, f32::NAN.to_bits(), 3).is_empty());
    assert!(select(&vec![], peak, 3).is_empty());
}

#[test]
fn strictness_only_takes_away() {
    let i = index((0..6).map(|n| chunk(&format!("{}.md", n % 4), "", "x")).collect());
    let hits = i.search(&bits(&[0.4, 0.9, 0.8, 0.52, 0.7, 0.6]), 40);
    let strict = files(&select(&hits, 1.0f32.to_bits(), 3));
    let all = files(&best_per_file(&hits, 3));
    assert_eq!(strict, all[..strict.len()].to_vec());
}

#[test]
fn an_answer_to_a_prompt_names_linked_files() {
    let i = index(vec![chunk("a.md", "", "alpha"), chunk("b.md", "Setup", "beta\nmore")]);
    let g = graph(&[
        ("a.md", "[[c]]\n"),
        ("b.md", "---\ndescription: about b\n---\n"),
        ("c.md", "---\ndescription: about c\n---\n"),
    ]);
    let hits = i.search(&bits(&[0.9, 0.6]), 40);
    assert_eq!(
        prompt_answer(&g, &hits, &three(&hits)),
        "### a.md — (top) (score 0.900)\nalpha\n\n\
         ### b.md — Setup (score 0.600)\nbeta\nmore\n\n\
         ### Linked from the above (names only — read if relevant)\n- `c` — about c\n\n"
    );
    let alone = i.search(&bits(&[0.1, 0.6]), 1);
    assert_eq!(
        prompt_answer(&g, &alone, &three(&alone)),
        "### b.md — Setup (score 0.600)\nbeta\nmore\n\n"
    );
    assert_eq!(prompt_answer(&g, &vec![], &vec![]), "");
}

#[test]
fn an_answer_to_a_search_is_joined() {
    let i = index(vec![
        chunk("a.md", "", "alpha"),
        chunk("a.md", "Two", "beta"),
    ]);
    let g = graph(&[("a.md", "[[c]]\n"), ("c.md", "---\ndescription: about c\n---\n")]);
    let hits = i.search(&bits(&[0.9, 0.1]), 5);
    assert_eq!(
        tool_answer(&g, &hits, &three(&hits)),
        "### a.md — (top) (score 0.900)\nalpha\n\n\
         ### a.md — Two (score 0.100)\nbeta\n\n\
         ### Linked from the above (names only — read if relevant)\n- `c` — about c\n"
    );
    assert_eq!(tool_answer(&g, &vec![], &vec![]), "");
}

#[test]
fn raw_hits_are_not_held_back() {
    let i = index(vec![
        chunk("a.md", "one", "1"),
        chunk("a.md", "two", "2"),
        chunk("b.md", "", "3"),
    ]);
    let g = graph(&[("b.md", "[[c]]\n"), ("c.md", "---\ndescription: about c\n---\n")]);
    let hits = i.search(&bits(&[0.01, 0.02, -0.5]), 40);
    let r = raw_answer(&g, &hits, 5);
    let seen: Vec<(&str, &str, f32, &str)> = r
        .hits
        .iter()
        .map(|h| (h.file.as_str(), h.heading.as_str(), f32::from_bits(h.score), h.body.as_str()))
        .collect();
    assert_eq!(seen, vec![("a.md", "two", 0.02, "2"), ("b.md", "", -0.5, "3")]);
    assert_eq!(r.related, vec![("c".to_owned(), "about c".to_owned())]);
    let one = raw_answer(&g, &hits, 1);
    assert_eq!(one.hits.len(), 1);
    assert!(one.related.is_empty());
}

#[test]
fn a_bench_row_lists_the_files() {
    let i = index(vec![chunk("a.md", "", "1"), chunk("b.md", "", "2")]);
    let hits = i.search(&bits(&[0.5, 0.75]), 40);
    let best = best_per_file(&hits, BENCH_FILES);
    assert_eq!(bench_row("who?", &best, &three(&best)), "who?\tb.md:0.750,a.md:0.500");
    assert_eq!(bench_row("who?", &vec![], &vec![]), "who?\t");
}

#[test]
fn counts_have_their_bounds() {
    assert_eq!((pool(0), pool(3), pool(40), pool(41)), (40, 40, 40, 41));
    assert_eq!((tool_k(None), tool_k(Some(0)), tool_k(Some(20)), tool_k(Some(21))), (5, 0, 20, 20));
    assert_eq!((shown_heading(""), shown_heading("x")), ("(top)".to_owned(), "x".to_owned()));
}
