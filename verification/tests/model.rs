use rankcoder::cost::RankCostModel;
use rankcoder::fixmath::gain_div;
use rankcoder::ranker::{
    find_rank, order_moves, FeatureKind, MoveCand, MovePattern, MoveRanker, ProbTables, RankError,
    Role, ScoredMove,
};

fn zero_tables() -> ProbTables {
    ProbTables::new(vec![0u16; 384], vec![0u16; 384]).unwrap()
}

fn full_config() -> Vec<FeatureKind> {
    vec![
        FeatureKind::CaptureValue,
        FeatureKind::PawnAttack,
        FeatureKind::DestFrequency,
        FeatureKind::SrcDestInteraction,
        FeatureKind::CastleBonus,
        FeatureKind::LastMoveDistance,
    ]
}

fn quiet(role: Role, from: u8, to: u8) -> MoveCand {
    MoveCand { role, from, to, capture: None, promotion: None, castle: false, pawn_attacked: false }
}

#[test]
fn tables_reject_bad_shapes() {
    assert!(ProbTables::new(vec![0u16; 10], vec![0u16; 384]).is_none());
    assert!(ProbTables::new(vec![1001u16; 384], vec![0u16; 384]).is_none());
    assert!(ProbTables::new(vec![1000u16; 384], vec![0u16; 384]).is_some());
}

#[test]
fn ranker_rejects_bad_arity() {
    assert!(MoveRanker::new(vec![FeatureKind::CaptureValue], zero_tables()).is_none());
    assert!(MoveRanker::new(full_config(), zero_tables()).is_some());
}

#[test]
fn order_is_permutation_of_input() {
    let cfg = full_config();
    let w = vec![1000i64, 1000, 1000, 1000, 1000, 1000];
    let tables = zero_tables();
    let legal = vec![
        quiet(Role::Knight, 6, 21),
        MoveCand {
            role: Role::Pawn,
            from: 12,
            to: 21,
            capture: Some(Role::Queen),
            promotion: None,
            castle: false,
            pawn_attacked: false,
        },
        quiet(Role::Pawn, 12, 20),
    ];
    let sorted: Vec<ScoredMove> = order_moves(&cfg, &w, &tables, true, &None, &legal);
    assert_eq!(sorted.len(), legal.len());
    for m in &legal {
        let occurrences = sorted.iter().filter(|sm| sm.mv == *m).count();
        assert_eq!(occurrences, 1);
    }
    // the queen capture must outrank both quiet moves
    assert_eq!(sorted[0].mv.capture, Some(Role::Queen));
    // weakly descending scores
    for i in 1..sorted.len() {
        assert!(sorted[i - 1].score >= sorted[i].score);
    }
}

#[test]
fn order_is_deterministic() {
    let cfg = full_config();
    let w = vec![500i64, -200, 300, 100, 700, -50];
    let tables = zero_tables();
    let legal = vec![
        quiet(Role::Rook, 0, 8),
        quiet(Role::Rook, 0, 16),
        quiet(Role::King, 4, 12),
    ];
    let a = order_moves(&cfg, &w, &tables, false, &Some(30), &legal);
    let b = order_moves(&cfg, &w, &tables, false, &Some(30), &legal);
    assert_eq!(a, b);
}

#[test]
fn equal_scores_keep_input_order() {
    // with zero weights two promotions of the same pawn tie exactly (equal
    // tie-break terms too); the stable sort keeps them in input order
    let cfg = full_config();
    let w = vec![0i64; 6];
    let tables = zero_tables();
    let promo = |r: Role| MoveCand {
        role: Role::Pawn,
        from: 52,
        to: 60,
        capture: None,
        promotion: Some(r),
        castle: false,
        pawn_attacked: false,
    };
    let ab = vec![promo(Role::Queen), promo(Role::Knight)];
    let ba = vec![promo(Role::Knight), promo(Role::Queen)];
    let sorted_ab = order_moves(&cfg, &w, &tables, true, &None, &ab);
    let sorted_ba = order_moves(&cfg, &w, &tables, true, &None, &ba);
    assert_eq!(sorted_ab[0].mv.promotion, Some(Role::Queen));
    assert_eq!(sorted_ba[0].mv.promotion, Some(Role::Knight));
    assert_eq!(sorted_ab[0].score, sorted_ab[1].score);
}

#[test]
fn rank_lookup_finds_unique_match() {
    let cfg = full_config();
    let w = vec![0i64; 6];
    let tables = zero_tables();
    let legal = vec![quiet(Role::Pawn, 12, 28), quiet(Role::Pawn, 12, 20)];
    let sorted = order_moves(&cfg, &w, &tables, true, &None, &legal);
    // the higher destination square gets the larger tie-break score
    let pat = MovePattern::Normal {
        role: Role::Pawn,
        from_file: None,
        from_rank: None,
        capture: false,
        to: 28,
        promotion: None,
    };
    assert_eq!(find_rank(&sorted, &pat), Ok(0));
    let pat2 = MovePattern::Normal {
        role: Role::Pawn,
        from_file: None,
        from_rank: None,
        capture: false,
        to: 20,
        promotion: None,
    };
    assert_eq!(find_rank(&sorted, &pat2), Ok(1));
}

#[test]
fn rank_lookup_reports_missing_move() {
    let cfg = full_config();
    let w = vec![0i64; 6];
    let tables = zero_tables();
    let legal = vec![quiet(Role::Pawn, 12, 20)];
    let sorted = order_moves(&cfg, &w, &tables, true, &None, &legal);
    let pat = MovePattern::Normal {
        role: Role::Knight,
        from_file: None,
        from_rank: None,
        capture: false,
        to: 20,
        promotion: None,
    };
    assert_eq!(find_rank(&sorted, &pat), Err(RankError::MoveNotFound));
}

#[test]
fn rank_lookup_reports_ambiguous_notation() {
    let cfg = full_config();
    let w = vec![0i64; 6];
    let tables = zero_tables();
    // two knights can reach the same square; notation without a file or
    // rank hint matches both
    let legal = vec![quiet(Role::Knight, 1, 18), quiet(Role::Knight, 12, 18)];
    let sorted = order_moves(&cfg, &w, &tables, true, &None, &legal);
    let pat = MovePattern::Normal {
        role: Role::Knight,
        from_file: None,
        from_rank: None,
        capture: false,
        to: 18,
        promotion: None,
    };
    assert_eq!(find_rank(&sorted, &pat), Err(RankError::DuplicateMoveMatch));
    // a file hint disambiguates
    let pat_b = MovePattern::Normal {
        role: Role::Knight,
        from_file: Some(1),
        from_rank: None,
        capture: false,
        to: 18,
        promotion: None,
    };
    assert!(matches!(find_rank(&sorted, &pat_b), Ok(_)));
}

#[test]
fn castle_pattern_matches_castle_moves_only() {
    let cfg = full_config();
    let w = vec![0i64; 6];
    let tables = zero_tables();
    let short_castle = MoveCand {
        role: Role::King,
        from: 4,
        to: 7,
        capture: None,
        promotion: None,
        castle: true,
        pawn_attacked: false,
    };
    let long_castle = MoveCand {
        role: Role::King,
        from: 4,
        to: 0,
        capture: None,
        promotion: None,
        castle: true,
        pawn_attacked: false,
    };
    let legal = vec![short_castle, long_castle, quiet(Role::King, 4, 12)];
    let sorted = order_moves(&cfg, &w, &tables, true, &None, &legal);
    let r_short = find_rank(&sorted, &MovePattern::Castle { long: false }).unwrap();
    let r_long = find_rank(&sorted, &MovePattern::Castle { long: true }).unwrap();
    assert_ne!(r_short, r_long);
    assert!(sorted[r_short].mv.castle && sorted[r_short].mv.to % 8 != 0);
    assert!(sorted[r_long].mv.castle && sorted[r_long].mv.to % 8 == 0);
}

#[test]
fn scores_are_exact_fixed_point_values() {
    let cfg = full_config();
    let tables = zero_tables();
    // one unit of weight on the capture feature: a queen capture is worth
    // exactly 9 units, and every score carries the square tie terms
    let w = vec![1000i64, 0, 0, 0, 0, 0];
    let capture = MoveCand {
        role: Role::Knight,
        from: 1,
        to: 18,
        capture: Some(Role::Queen),
        promotion: None,
        castle: false,
        pawn_attacked: false,
    };
    let sorted = order_moves(&cfg, &w, &tables, true, &None, &vec![capture]);
    assert_eq!(sorted[0].score, 1000 * 9_000_000 + (18 + 1) * 1_000_000);
    // one unit on the distance feature: two king steps from the previous
    // destination cost their square
    let wd = vec![0i64, 0, 0, 0, 0, 1000];
    let king = quiet(Role::King, 4, 12);
    let sorted_d = order_moves(&cfg, &wd, &tables, true, &Some(28), &vec![king]);
    assert_eq!(sorted_d[0].score, 1000 * 4_000_000 + (12 + 4) * 1_000_000);
}

#[test]
fn gain_schedule_matches_fixed_point_reference() {
    // a / (k + 1 + offset)^alpha at k = 0 with the stock exponents
    assert_eq!(gain_div(700, 101, 11, 4), 29);
    // c0 / (k + 1)^gamma at k = 0 and k = 1
    assert_eq!(gain_div(1800, 1, 13, 7), 1800);
    assert_eq!(gain_div(1800, 2, 13, 7), 1677);
}

#[test]
fn histogram_accumulates_counts() {
    let mut model = RankCostModel::new(8);
    assert_eq!(model.alphabet(), 8);
    model.accumulate(3);
    model.accumulate(3);
    model.accumulate(0);
    assert_eq!(model.count_at(3), 2);
    assert_eq!(model.count_at(0), 1);
    assert_eq!(model.count_at(7), 0);
    assert_eq!(model.moves, 3);
}

#[test]
fn bits_match_hand_built_huffman_code() {
    // histogram [100, 50, 25, 1, 1]; smoothed weights [101, 51, 26, 2, 2]
    // give code lengths 1, 2, 3, 4, 4, so the raw counts cost
    // 100*1 + 50*2 + 25*3 + 1*4 + 1*4 = 283 bits
    let mut model = RankCostModel::new(5);
    for _ in 0..100 {
        model.accumulate(0);
    }
    for _ in 0..50 {
        model.accumulate(1);
    }
    for _ in 0..25 {
        model.accumulate(2);
    }
    model.accumulate(3);
    model.accumulate(4);
    assert_eq!(model.bits(), 283);
}

#[test]
fn bits_stay_within_flat_code_bound() {
    // 177 moves over a 5-symbol alphabet: a flat code of
    // ceil(log2(5 + 1)) = 3 bits per move costs 531 bits
    let mut model = RankCostModel::new(5);
    for _ in 0..100 {
        model.accumulate(0);
    }
    for _ in 0..50 {
        model.accumulate(1);
    }
    for _ in 0..25 {
        model.accumulate(2);
    }
    model.accumulate(3);
    model.accumulate(4);
    let n: u64 = model.moves;
    assert_eq!(n, 177);
    assert!(model.bits() <= n * 3);
}

#[test]
fn empty_histogram_costs_nothing() {
    // add-one smoothing gives every symbol a finite code length, and with
    // no observed ranks the total cost is zero
    let model = RankCostModel::new(256);
    assert_eq!(model.bits(), 0);
    assert_eq!(model.bytes_per_game_milli(200), 0);
}

#[test]
fn average_bytes_per_game_is_exact() {
    let mut model = RankCostModel::new(2);
    for _ in 0..16 {
        model.accumulate(1);
    }
    // smoothed [1, 17]: both code lengths are 1 bit, so 16 bits total;
    // over 2 games that is 1 byte each: 1000 thousandths
    assert_eq!(model.bits(), 16);
    assert_eq!(model.bytes_per_game_milli(2), 1000);
}
