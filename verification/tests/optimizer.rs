use rankcoder::batch::Game;
use rankcoder::ranker::{FeatureKind, MoveRanker, ProbTables};
use rankcoder::spsa::{HyperParameters, Spsa};

fn zero_tables() -> ProbTables {
    ProbTables::new(vec![0u16; 384], vec![0u16; 384]).unwrap()
}

fn four_feature_ranker() -> MoveRanker {
    MoveRanker::new(
        vec![
            FeatureKind::CaptureValue,
            FeatureKind::PawnAttack,
            FeatureKind::DestFrequency,
            FeatureKind::CastleBonus,
        ],
        zero_tables(),
    )
    .unwrap()
}

/// A batch whose loss cannot depend on the weights: its only game is tagged
/// as starting from a custom position, so nothing is ever ranked.
fn constant_loss_batch() -> Vec<Game> {
    vec![Game { standard_start: false, plies: vec![] }]
}

#[test]
fn it_works() {
    let mut ranker = four_feature_ranker();
    let games = constant_loss_batch();
    let mut spsa: Spsa = HyperParameters::default().spsa();
    for i in 0..2000 {
        println!("{}: {:?}", i, spsa.theta());
        spsa.step(&mut ranker, &games);
    }
    assert_eq!(spsa.k, 2000);
}

#[test]
fn constant_loss_never_moves_the_weights() {
    // the loss of this batch is identical for every weight vector, so each
    // paired evaluation cancels and the summed gradient estimate is the
    // zero vector: the weights must stay exactly where they started
    let mut ranker = four_feature_ranker();
    let games = constant_loss_batch();
    let mut params = HyperParameters::default();
    params.theta = vec![250, -1000, 42, 0];
    let mut spsa = params.spsa();
    for _ in 0..50 {
        let record = spsa.step(&mut ranker, &games);
        assert_eq!(record.theta, vec![250, -1000, 42, 0]);
    }
    assert_eq!(spsa.theta(), vec![250, -1000, 42, 0]);
}

#[test]
fn zero_perturbation_components_are_harmless() {
    // a draw range of one makes zero perturbation components frequent;
    // every step must complete without dividing by them
    let mut ranker = four_feature_ranker();
    let games = constant_loss_batch();
    let mut params = HyperParameters::default();
    params.draw_range = 1;
    params.ens_size = 8;
    let mut spsa = params.spsa();
    for _ in 0..30 {
        let record = spsa.step(&mut ranker, &games);
        assert!(record.avg_loss_milli <= rankcoder::batch::LOSS_CAP);
    }
    assert_eq!(spsa.k, 30);
}

#[test]
fn runs_with_equal_seeds_are_identical() {
    let games = constant_loss_batch();
    let mut params = HyperParameters::default();
    params.seed = 12345;
    let mut ranker_a = four_feature_ranker();
    let mut spsa_a = params.spsa();
    let mut ranker_b = four_feature_ranker();
    let mut spsa_b = params.spsa();
    for _ in 0..20 {
        let ra = spsa_a.step(&mut ranker_a, &games);
        let rb = spsa_b.step(&mut ranker_b, &games);
        assert_eq!(ra.iteration, rb.iteration);
        assert_eq!(ra.avg_loss_milli, rb.avg_loss_milli);
        assert_eq!(ra.theta, rb.theta);
    }
}

#[test]
fn records_report_the_iteration_and_weights() {
    let mut ranker = four_feature_ranker();
    let games = constant_loss_batch();
    let mut spsa = HyperParameters::default().spsa();
    let first = spsa.step(&mut ranker, &games);
    assert_eq!(first.iteration, 0);
    assert_eq!(first.theta, spsa.theta());
    let second = spsa.step(&mut ranker, &games);
    assert_eq!(second.iteration, 1);
    assert_eq!(spsa.k, 2);
}

#[test]
fn empty_and_near_empty_batches_are_harmless() {
    // an evaluation over no games, or over games with no usable moves,
    // must not fail: smoothing keeps the code well defined throughout
    let mut ranker = four_feature_ranker();
    let w = vec![0i64; 4];
    let none: Vec<Game> = vec![];
    let model = rankcoder::batch::eval_batch(&mut ranker, &w, &none, 256);
    assert_eq!(model.moves, 0);
    assert_eq!(model.bits(), 0);
    let near_empty = vec![Game { standard_start: true, plies: vec![] }];
    let cost = rankcoder::batch::batch_loss(&mut ranker, &w, &near_empty, 256);
    assert_eq!(cost, 0);
}

#[test]
fn seedable_generator_replays_exactly() {
    let mut a = rankcoder::rng::XorShift::from_seed(99);
    let mut b = rankcoder::rng::XorShift::from_seed(99);
    for _ in 0..100 {
        assert_eq!(a.next_word(), b.next_word());
    }
    let mut c = rankcoder::rng::XorShift::new_unseeded();
    let mut saw_zero = false;
    for _ in 0..100 {
        let d = c.draw(4);
        assert!((-4..=4).contains(&d));
        if d == 0 {
            saw_zero = true;
        }
    }
    assert!(saw_zero);
}
