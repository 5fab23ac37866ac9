use lockbook::rank::{best_of_each_file, candidates, ranked, RERANK_K, TOP_K};

fn bits(scores: &[f32]) -> Vec<u32> {
    scores.iter().map(|s| s.to_bits()).collect()
}

fn sorted(scores: &[f32]) -> Vec<usize> {
    let mut order: Vec<usize> = (0..scores.len()).collect();
    order.sort_by(|a, b| {
        scores[*b]
            .partial_cmp(&scores[*a])
            .unwrap_or(std::cmp::Ordering::Equal)
    });
    order
}

fn paths(names: &[&str]) -> Vec<String> {
    names.iter().map(|n| n.to_string()).collect()
}

#[test]
fn higher_scores_come_first() {
    assert_eq!(ranked(&bits(&[0.1, 0.9, -3.0, 0.5])), vec![1, 3, 0, 2]);
}

#[test]
fn equal_scores_keep_their_order() {
    assert_eq!(ranked(&bits(&[1.0, 2.0, 1.0, 2.0, 1.0])), vec![1, 3, 0, 2, 4]);
    assert_eq!(ranked(&bits(&[-0.0, 0.0, -0.0])), vec![0, 1, 2]);
}

#[test]
fn ranking_agrees_with_comparing_the_numbers() {
    let mut scores = vec![
        0.0,
        -0.0,
        f32::MIN_POSITIVE,
        -f32::MIN_POSITIVE,
        f32::INFINITY,
        f32::NEG_INFINITY,
        f32::MAX,
        f32::MIN,
        1e-45,
        -1e-45,
    ];
    let mut x: u32 = 12345;
    for _ in 0..500 {
        x = x.wrapping_mul(1664525).wrapping_add(1013904223);
        let f = f32::from_bits(x);
        if !f.is_nan() {
            scores.push(f);
            scores.push(((x >> 24) as f32) - 128.0);
        }
    }
    assert_eq!(ranked(&bits(&scores)), sorted(&scores));
}

#[test]
fn nothing_is_ranked_where_nothing_is_scored() {
    assert_eq!(ranked(&vec![]), Vec::<usize>::new());
    assert_eq!(candidates(&vec![], 10), Vec::<usize>::new());
    assert_eq!(best_of_each_file(&vec![], &vec![]), Vec::<usize>::new());
}

#[test]
fn candidates_are_the_best() {
    let scores = [0.2, 0.8, 0.8, 0.1, 0.9];
    assert_eq!(candidates(&bits(&scores), 3), vec![4, 1, 2]);
    assert_eq!(candidates(&bits(&scores), 0), Vec::<usize>::new());
    assert_eq!(candidates(&bits(&scores), 9), ranked(&bits(&scores)));
    let many: Vec<f32> = (0..250).map(|i| (i % 17) as f32).collect();
    let expected: Vec<usize> = sorted(&many).into_iter().take(RERANK_K).collect();
    assert_eq!(candidates(&bits(&many), RERANK_K), expected);
}

#[test]
fn each_file_is_shown_once() {
    let p = paths(&["a", "b", "a", "c", "b"]);
    let s = bits(&[0.1, 0.2, 0.5, 0.4, 0.3]);
    assert_eq!(best_of_each_file(&p, &s), vec![2, 3, 4]);
}

#[test]
fn at_most_five_files_are_shown() {
    let p = paths(&["a", "b", "c", "d", "e", "f", "g"]);
    let s = bits(&[1.0, 2.0, 3.0, 4.0, 5.0, 6.0, 7.0]);
    let best = best_of_each_file(&p, &s);
    assert_eq!(best.len(), TOP_K);
    assert_eq!(best, vec![6, 5, 4, 3, 2]);
}

#[test]
fn the_first_result_is_the_best_hit() {
    let p = paths(&["a", "a", "b"]);
    let s = bits(&[-1.0, -1.0, -2.0]);
    assert_eq!(best_of_each_file(&p, &s), vec![0, 2]);
}

#[test]
fn what_is_no_number_is_not_higher_than_anything() {
    assert_eq!(ranked(&bits(&[1.0, f32::NAN])), vec![0, 1]);
    assert_eq!(ranked(&bits(&[f32::NAN, 1.0])), vec![0, 1]);
    assert_eq!(ranked(&bits(&[f32::NAN, -f32::NAN, f32::NAN])), vec![0, 1, 2]);
    assert_eq!(candidates(&bits(&[1.0, f32::NAN]), 1), vec![0]);
    let p = paths(&["a", "b"]);
    assert_eq!(best_of_each_file(&p, &bits(&[f32::INFINITY, f32::NAN])), vec![0, 1]);
    let mut order = ranked(&bits(&[0.5, f32::NAN, 2.0, f32::NAN, 1.0]));
    order.sort();
    assert_eq!(order, vec![0, 1, 2, 3, 4]);
}
