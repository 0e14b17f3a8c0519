use crf::{DecodeError, CRF, SCALE, SENTINEL};

/// A score given in wholes, in the units of the library.
fn units(x: f64) -> i64 {
    (x * SCALE as f64).round() as i64
}

fn table(rows: &[&[f64]]) -> Vec<Vec<i64>> {
    rows.iter()
        .map(|row| row.iter().map(|x| units(*x)).collect())
        .collect()
}

fn zeros(n: usize) -> Vec<Vec<i64>> {
    vec![vec![0; n]; n]
}

/// The model over the labels B, I, O with hand-picked transition scores.
fn bio_model() -> CRF {
    let mut crf = CRF::new(3, &zeros(5)); // B, I, O, <START>, <END>
    crf.W = table(&[
        &[-1.2, -1.1, 1.8, 2.2, -1.4],
        &[3.1, 2.0, -0.3, -0.4, -0.5],
        &[1.7, -0.2, 1.8, 1.1, -1.1],
        &[-0.5, -0.1, -0.9, -1.1, -0.4],
        &[1.1, 1.3, 2.1, -0.4, -0.2],
    ]);
    crf
}

fn bio_feats() -> Vec<Vec<i64>> {
    table(&[
        &[3.7, 1.4, 1.2, -0.1, -1.2],
        &[2.6, 4.1, 0.9, -0.7, -2.1],
        &[0.2, 0.5, 2.4, -0.4, -0.8],
        &[3.6, 0.4, 1.1, -0.2, -0.5],
    ])
}

fn usual_init(crf: &CRF) -> Vec<i64> {
    let mut init_vvars: Vec<i64> = (0..crf.n).map(|_| -10_000 * SCALE).collect::<Vec<_>>();
    init_vvars[crf.n as usize - 2] = 0;
    init_vvars
}

#[test]
fn forward() {
    let mut crf = CRF::new(3, &zeros(5)); // B, I, O, <START>, <END>

    crf.W = table(&[
        &[-1.2, -1.1, 1.8, 2.2, -1.4],
        &[3.1, 2.0, -0.3, -0.4, -0.5],
        &[1.7, -0.2, 1.8, 1.1, -1.1],
        &[-0.5, -0.1, -0.9, -1.1, -0.4],
        &[1.1, 1.3, 2.1, -0.4, -0.2],
    ]);

    let mut init_vvars: Vec<i64> = (0..crf.n).map(|_| -10_000 * SCALE).collect::<Vec<_>>();
    init_vvars[crf.n as usize - 2] = 0;

    let feats = table(&[
        &[3.7, 1.4, 1.2, -0.1, -1.2],
        &[2.6, 4.1, 0.9, -0.7, -2.1],
        &[0.2, 0.5, 2.4, -0.4, -0.8],
        &[3.6, 0.4, 1.1, -0.2, -0.5],
    ]);

    let (_score, path) = crf.forward(&feats, &init_vvars);

    assert_eq!(path, vec![0, 1, 2, 0]);
}

#[test]
fn forward_scores_the_decoded_path() {
    let crf = bio_model();
    let (score, path) = crf.forward(&bio_feats(), &usual_init(&crf));
    // START->B 2.2 + 3.7, B->I 3.1 + 4.1, I->O -0.2 + 2.4, O->B 1.8 + 3.6, B->END 1.1
    assert_eq!(score, 21_800_000);
    assert_eq!(path, vec![0, 1, 2, 0]);
}

#[test]
fn forward_is_repeatable() {
    let crf = bio_model();
    let feats = bio_feats();
    let init = usual_init(&crf);
    let first = crf.forward(&feats, &init);
    let second = crf.forward(&feats, &init);
    assert_eq!(first, second);
}

#[test]
fn forward_returns_one_label_per_step() {
    let crf = bio_model();
    let init = usual_init(&crf);
    let feats = bio_feats();
    for steps in 0..=feats.len() {
        let (_score, path) = crf.forward(&feats[..steps].to_vec(), &init);
        assert_eq!(path.len(), steps);
        assert!(path.iter().all(|tag| 0 <= *tag && *tag < 3));
    }
}

#[test]
fn forward_without_steps_scores_start_to_end() {
    let crf = bio_model();
    let (score, path) = crf.forward(&Vec::new(), &usual_init(&crf));
    assert_eq!(path, Vec::<i64>::new());
    assert_eq!(score, units(-0.4) as i128);
    assert_eq!(score, crf.W[4][3] as i128);
}

#[test]
fn forward_without_steps_takes_the_best_start() {
    // Initial scores that do not favour START: the best of init[j] + W[END][j].
    let crf = bio_model();
    let init = vec![units(1.0), units(0.5), units(-3.0), 0, 0];
    let (score, path) = crf.forward(&Vec::new(), &init);
    assert_eq!(path, Vec::<i64>::new());
    assert_eq!(score, 2_100_000); // 1.0 + 1.1
}

#[test]
fn forward_without_labels() {
    // Only START (0) and END (1): every step has to select a reserved tag.
    let mut crf = CRF::new(0, &zeros(2));
    assert_eq!(crf.n, 2);
    crf.W = vec![vec![5, 7], vec![3, 4]];
    let (score, path) = crf.forward(&vec![vec![1, 2]], &vec![0, -10]);
    assert_eq!(path, vec![0]);
    assert_eq!(score, 9); // 0 + W[0][0] + 1 + W[1][0]
    let (score, path) = crf.forward(&Vec::new(), &vec![0, -10]);
    assert_eq!(path, Vec::<i64>::new());
    assert_eq!(score, 3);
}

#[test]
fn ties_go_to_the_lowest_tag() {
    let mut crf = CRF::new(1, &zeros(3));
    crf.W = zeros(3);
    let (score, path) = crf.forward(&vec![vec![0, 0, 0], vec![0, 0, 0]], &vec![0, 0, 0]);
    assert_eq!(score, 0);
    assert_eq!(path, vec![0, 0]);
}

#[test]
fn ties_are_settled_from_the_last_step() {
    // Two label sequences score 10: (1, 0) by its emissions and (0, 1) by the
    // transition from 0 into 1. The last tag is compared first, so the one
    // that ends in 0 is chosen.
    let mut crf = CRF::new(2, &zeros(4));
    crf.W = vec![
        vec![0, 0, 0, 0],
        vec![10, 0, 0, 0],
        vec![0, 0, 0, 0],
        vec![0, 0, 0, 0],
    ];
    let off = SENTINEL;
    let init = vec![off, off, 0, off];
    let feats = vec![vec![0, 5, off, off], vec![5, 0, off, off]];
    let (score, path) = crf.forward(&feats, &init);
    assert_eq!(score, 10);
    assert_eq!(path, vec![1, 0]);
}

#[test]
fn a_raised_emission_changes_the_decoded_tag() {
    let crf = bio_model();
    let init = usual_init(&crf);
    let mut feats = bio_feats();
    let (score, path) = crf.forward(&feats, &init);
    assert_eq!(path[1], 1);
    // The best sequence through O at the second step scores 19.2; a margin of
    // ten wholes is more than the gap of 2.6 to the best.
    feats[1][2] += units(10.0);
    let (raised_score, raised_path) = crf.forward(&feats, &init);
    assert_eq!(raised_path[1], 2);
    assert_eq!(raised_path, vec![0, 2, 2, 0]);
    assert_eq!(raised_score, 29_200_000);
    assert!(raised_score >= score);
}

#[test]
fn a_margin_below_the_gap_changes_nothing() {
    let crf = bio_model();
    let init = usual_init(&crf);
    let mut feats = bio_feats();
    feats[1][2] += units(2.5);
    let (score, path) = crf.forward(&feats, &init);
    assert_eq!(path, vec![0, 1, 2, 0]);
    assert_eq!(score, 21_800_000);
}

#[test]
fn scores_beyond_sixty_four_bits_are_added_exactly() {
    let mut crf = CRF::new(1, &zeros(3));
    crf.W = vec![
        vec![i64::MAX, i64::MAX, i64::MAX],
        vec![i64::MAX, i64::MAX, i64::MAX],
        vec![i64::MAX, i64::MAX, i64::MAX],
    ];
    let feats = vec![vec![i64::MAX, 0, 0], vec![i64::MAX, 0, 0]];
    let (score, path) = crf.forward(&feats, &vec![i64::MAX, 0, 0]);
    assert_eq!(path, vec![0, 0]);
    assert_eq!(score, 6 * (i64::MAX as i128));
    let low = vec![vec![i64::MIN; 3]; 3];
    crf.W = low.clone();
    let (score, path) = crf.forward(&vec![vec![i64::MIN; 3]; 2], &vec![i64::MIN; 3]);
    assert_eq!(path, vec![0, 0]);
    assert_eq!(score, 6 * (i64::MIN as i128));
}

#[test]
fn decode_agrees_with_forward() {
    let crf = bio_model();
    let feats = bio_feats();
    let init = usual_init(&crf);
    assert_eq!(crf.decode(&feats, &init), Ok(crf.forward(&feats, &init)));
    assert_eq!(crf.decode(&feats, &init), Ok((21_800_000, vec![0, 1, 2, 0])));
    assert!(crf.check_dimensions(&feats, &init));
}

#[test]
fn decode_refuses_a_short_initial_vector() {
    let crf = bio_model();
    let init = vec![0; 4];
    assert!(!crf.check_dimensions(&bio_feats(), &init));
    assert_eq!(crf.decode(&bio_feats(), &init), Err(DecodeError::DimensionMismatch));
}

#[test]
fn decode_refuses_a_step_of_the_wrong_width() {
    let crf = bio_model();
    let init = usual_init(&crf);
    let mut feats = bio_feats();
    feats[2].push(0);
    assert_eq!(crf.decode(&feats, &init), Err(DecodeError::DimensionMismatch));
    feats[2].truncate(4);
    assert_eq!(crf.decode(&feats, &init), Err(DecodeError::DimensionMismatch));
    feats[2].push(0);
    assert!(crf.decode(&feats, &init).is_ok());
}

#[test]
fn decode_refuses_a_table_that_is_not_square() {
    let mut crf = bio_model();
    let init = usual_init(&crf);
    crf.W[1].pop();
    assert_eq!(crf.decode(&bio_feats(), &init), Err(DecodeError::DimensionMismatch));
    let mut crf = bio_model();
    crf.W.pop();
    assert_eq!(crf.decode(&bio_feats(), &init), Err(DecodeError::DimensionMismatch));
}

#[test]
fn decode_refuses_a_wrong_tag_count() {
    let init = vec![0; 5];
    let mut crf = bio_model();
    crf.n = 4;
    assert_eq!(crf.decode(&Vec::new(), &init), Err(DecodeError::DimensionMismatch));
    crf.n = -5;
    assert_eq!(crf.decode(&Vec::new(), &init), Err(DecodeError::DimensionMismatch));
    let crf = CRF { W: vec![vec![0]], n: 1 };
    assert_eq!(crf.decode(&Vec::new(), &vec![0]), Err(DecodeError::DimensionMismatch));
}
