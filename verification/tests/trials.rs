use memory_search::trial::{judge, right_answers, Outcome};

fn labels(names: &[&str]) -> Vec<String> {
    names.iter().map(|n| (*n).to_owned()).collect()
}

fn bits(scores: &[f32]) -> Vec<u32> {
    scores.iter().map(|s| s.to_bits()).collect()
}

#[test]
fn the_right_passage_has_its_rank() {
    let l = labels(&["a", "b", "c"]);
    let s = bits(&[0.2, 0.9, 0.4]);
    assert_eq!(
        judge(&l, &s, "b"),
        Some(Outcome {
            first: 1,
            second: Some(2),
            rank: 1
        })
    );
    assert_eq!(judge(&l, &s, "c").map(|o| o.rank), Some(2));
    assert_eq!(judge(&l, &s, "a").map(|o| o.rank), Some(3));
    assert_eq!(judge(&l, &s, "d"), None);
}

#[test]
fn the_best_of_a_label_counts() {
    let l = labels(&["a", "b", "a"]);
    assert_eq!(judge(&l, &bits(&[0.1, 0.5, 0.3]), "a").map(|o| o.rank), Some(2));
}

#[test]
fn only_first_ranks_are_right() {
    let of = |rank: usize| Outcome {
        first: 0,
        second: None,
        rank,
    };
    assert_eq!(right_answers(&vec![of(1), of(2), of(1), of(3)]), 2);
    assert_eq!(right_answers(&vec![]), 0);
}

#[test]
fn a_trial_may_be_small() {
    assert_eq!(
        judge(&labels(&["a"]), &bits(&[-0.5]), "a"),
        Some(Outcome {
            first: 0,
            second: None,
            rank: 1
        })
    );
    assert_eq!(judge(&labels(&[]), &bits(&[]), "a"), None);
    // Passages without a score take no part.
    let l = labels(&["a", "b", "c"]);
    assert_eq!(judge(&l, &bits(&[0.1, 0.2]), "a").map(|o| o.rank), Some(2));
    assert_eq!(judge(&l, &bits(&[0.1, 0.2]), "c"), None);
}
