use crf::{CRF, SCALE, SCORE_BOUND, SENTINEL};

#[test]
fn the_sentinel_is_ten_thousand_wholes_below_zero() {
    assert_eq!(SENTINEL, -10_000 * SCALE);
    assert_eq!(SENTINEL, -10 * SCORE_BOUND);
    assert_eq!(SCALE, 1_000_000);
}

#[test]
fn new_puts_the_sentinels_in_place() {
    let seed: Vec<Vec<i64>> = (0..5)
        .map(|i| (0..5).map(|j| 10 * i + j + 1).collect())
        .collect();
    let crf = CRF::new(3, &seed);
    assert_eq!(crf.n, 5);
    assert_eq!(crf.W.len(), 5);
    for i in 0..5 {
        assert_eq!(crf.W[i].len(), 5);
        for j in 0..5 {
            if i == 3 || j == 4 {
                assert_eq!(crf.W[i][j], SENTINEL);
            } else {
                assert_eq!(crf.W[i][j], seed[i][j]);
            }
        }
    }
}

#[test]
fn new_keeps_the_free_scores() {
    let seed = vec![
        vec![7, -8, 9, 1, 2],
        vec![3, 4, -5, 6, 7],
        vec![-1, -2, -3, -4, -5],
        vec![11, 12, 13, 14, 15],
        vec![21, 22, 23, 24, 25],
    ];
    let crf = CRF::new(3, &seed);
    assert_eq!(
        crf.W,
        vec![
            vec![7, -8, 9, 1, SENTINEL],
            vec![3, 4, -5, 6, SENTINEL],
            vec![-1, -2, -3, -4, SENTINEL],
            vec![SENTINEL, SENTINEL, SENTINEL, SENTINEL, SENTINEL],
            vec![21, 22, 23, 24, SENTINEL],
        ]
    );
}

#[test]
fn new_without_labels_holds_sentinels_only_where_reserved() {
    let crf = CRF::new(0, &vec![vec![1, 2], vec![3, 4]]);
    assert_eq!(crf.n, 2);
    // START is tag 0 and END is tag 1: row 0 and column 1 are reserved.
    assert_eq!(crf.W, vec![vec![SENTINEL, SENTINEL], vec![3, SENTINEL]]);
}

#[test]
fn a_new_model_decodes_to_labels() {
    let seed: Vec<Vec<i64>> = (0..5)
        .map(|i| (0..5).map(|j| ((7 * i + 3 * j) % 11 - 5) * SCALE).collect())
        .collect();
    let crf = CRF::new(3, &seed);
    let mut init = vec![SENTINEL; 5];
    init[3] = 0;
    // Emissions that favour the reserved tags as far as a free score can.
    let feats = vec![vec![-SCORE_BOUND, -SCORE_BOUND, -SCORE_BOUND, SCORE_BOUND, SCORE_BOUND]; 6];
    let (_score, path) = crf.forward(&feats, &init);
    assert_eq!(path.len(), 6);
    assert!(path.iter().all(|tag| 0 <= *tag && *tag < 3));
}

#[test]
fn a_new_model_without_steps_scores_start_to_end() {
    let seed: Vec<Vec<i64>> = (0..5)
        .map(|i| (0..5).map(|j| (i * 5 + j) * SCALE).collect())
        .collect();
    let crf = CRF::new(3, &seed);
    let mut init = vec![SENTINEL; 5];
    init[3] = 0;
    let (score, path) = crf.forward(&Vec::new(), &init);
    assert!(path.is_empty());
    assert_eq!(score, (23 * SCALE) as i128);
    assert_eq!(score, crf.W[4][3] as i128);
}
