use std::ops::ControlFlow;

use pgn_reader::{RawTag, Reader, SanPlus, Visitor};
use shakmaty::attacks::pawn_attacks;
use shakmaty::san::San;
use shakmaty::{CastlingSide, Chess, Move, Position};

use rankcoder::batch::{batch_loss, eval_batch, Game, Ply, RANK_ALPHABET};
use rankcoder::ranker::{FeatureKind, MoveCand, MovePattern, MoveRanker, ProbTables, Role};
use rankcoder::spsa::HyperParameters;

fn conv_role(r: shakmaty::Role) -> Role {
    match r {
        shakmaty::Role::Pawn => Role::Pawn,
        shakmaty::Role::Knight => Role::Knight,
        shakmaty::Role::Bishop => Role::Bishop,
        shakmaty::Role::Rook => Role::Rook,
        shakmaty::Role::Queen => Role::Queen,
        shakmaty::Role::King => Role::King,
    }
}

fn conv_move(pos: &Chess, m: Move) -> MoveCand {
    let attacked = (pawn_attacks(pos.turn(), m.to()) & pos.board().pawns() & pos.them()).any();
    MoveCand {
        role: conv_role(m.role()),
        from: m.from().expect("no drops in standard chess") as u8,
        to: m.to() as u8,
        capture: m.capture().map(conv_role),
        promotion: m.promotion().map(conv_role),
        castle: m.is_castle(),
        pawn_attacked: attacked,
    }
}

fn conv_san(s: San) -> Option<MovePattern> {
    match s {
        San::Normal { role, file, rank, capture, to, promotion } => Some(MovePattern::Normal {
            role: conv_role(role),
            from_file: file.map(|f| f as u8),
            from_rank: rank.map(|r| r as u8),
            capture,
            to: to as u8,
            promotion: promotion.map(conv_role),
        }),
        San::Castle(side) => Some(MovePattern::Castle { long: side == CastlingSide::QueenSide }),
        _ => None,
    }
}

struct DecodeState {
    pos: Chess,
    standard: bool,
    stopped: bool,
    plies: Vec<Ply>,
}

struct Decoder;

impl Visitor for Decoder {
    type Tags = bool;
    type Movetext = DecodeState;
    type Output = Game;

    fn begin_tags(&mut self) -> ControlFlow<Game, bool> {
        ControlFlow::Continue(true)
    }

    fn tag(&mut self, standard: &mut bool, name: &[u8], _value: RawTag<'_>) -> ControlFlow<Game> {
        if name == b"FEN" {
            *standard = false;
        }
        ControlFlow::Continue(())
    }

    fn begin_movetext(&mut self, standard: bool) -> ControlFlow<Game, DecodeState> {
        ControlFlow::Continue(DecodeState {
            pos: Chess::default(),
            standard,
            stopped: false,
            plies: Vec::new(),
        })
    }

    fn san(&mut self, st: &mut DecodeState, sp: SanPlus) -> ControlFlow<Game> {
        if st.stopped || !st.standard {
            return ControlFlow::Continue(());
        }
        let legal = st.pos.legal_moves();
        let cands: Vec<MoveCand> = legal.iter().map(|m| conv_move(&st.pos, *m)).collect();
        match conv_san(sp.san) {
            None => {
                st.stopped = true;
            }
            Some(pattern) => {
                st.plies.push(Ply { legal: cands, played: pattern });
                let hits: Vec<Move> =
                    legal.iter().copied().filter(|m| sp.san.matches(*m)).collect();
                if hits.len() == 1 {
                    st.pos.play_unchecked(hits[0]);
                } else {
                    st.stopped = true;
                }
            }
        }
        ControlFlow::Continue(())
    }

    fn end_game(&mut self, st: DecodeState) -> Game {
        Game { standard_start: st.standard, plies: st.plies }
    }
}

fn decode_games(pgn: &str) -> Vec<Game> {
    let mut reader = Reader::new(pgn.as_bytes());
    let mut decoder = Decoder;
    let mut games = Vec::new();
    while let Some(game) = reader.read_game(&mut decoder).expect("in-memory read") {
        games.push(game);
    }
    games
}

fn zero_tables() -> ProbTables {
    ProbTables::new(vec![0u16; 384], vec![0u16; 384]).unwrap()
}

fn full_ranker() -> MoveRanker {
    MoveRanker::new(
        vec![
            FeatureKind::CaptureValue,
            FeatureKind::PawnAttack,
            FeatureKind::DestFrequency,
            FeatureKind::SrcDestInteraction,
            FeatureKind::CastleBonus,
            FeatureKind::LastMoveDistance,
        ],
        zero_tables(),
    )
    .unwrap()
}

#[test]
fn one_game_corpus_costs_the_same_across_runs() {
    let games = decode_games("1. e4 e5 2. Nf3");
    assert_eq!(games.len(), 1);
    assert_eq!(games[0].plies.len(), 3);
    let w = vec![0i64; 6];
    let mut ranker_a = full_ranker();
    let cost_a = batch_loss(&mut ranker_a, &w, &games, RANK_ALPHABET);
    let games_again = decode_games("1. e4 e5 2. Nf3");
    let mut ranker_b = full_ranker();
    let cost_b = batch_loss(&mut ranker_b, &w, &games_again, RANK_ALPHABET);
    assert_eq!(cost_a, cost_b);
    assert!(cost_a > 0);
    assert!(cost_a < rankcoder::batch::LOSS_CAP);
}

#[test]
fn optimizer_runs_are_seed_reproducible_end_to_end() {
    let pgn = "1. e4 e5 2. Nf3";
    let mut params = HyperParameters::default();
    params.theta = vec![0i64; 6];
    let mut last = None;
    for _ in 0..2 {
        let games = decode_games(pgn);
        let mut ranker = full_ranker();
        let mut spsa = params.spsa();
        let mut trace = Vec::new();
        for _ in 0..3 {
            let record = spsa.step(&mut ranker, &games);
            trace.push((record.avg_loss_milli, record.theta));
        }
        if let Some(prev) = last.take() {
            assert_eq!(prev, trace);
        }
        last = Some(trace);
    }
}

#[test]
fn custom_start_position_contributes_nothing() {
    let pgn = "[FEN \"8/8/8/8/8/4k3/8/4K2R w K - 0 1\"]\n\n1. Rh3+ Kd4";
    let games = decode_games(pgn);
    assert_eq!(games.len(), 1);
    assert!(!games[0].standard_start);
    let w = vec![0i64; 6];
    let mut ranker = full_ranker();
    let model = eval_batch(&mut ranker, &w, &games, RANK_ALPHABET);
    assert_eq!(model.moves, 0);
    for i in 0..RANK_ALPHABET {
        assert_eq!(model.count_at(i), 0);
    }
}

#[test]
fn illegal_move_keeps_earlier_statistics_and_later_games() {
    // the king cannot reach e3 at move three: that ply fails the rank
    // lookup, the rest of its game is dropped, and the following game is
    // still counted
    let pgn = "1. e4 e5 2. Qh5 Nc6 3. Ke3 Nf6 4. d4 *\n\n1. d4 d5 *";
    let games = decode_games(pgn);
    assert_eq!(games.len(), 2);
    let w = vec![0i64; 6];
    let mut ranker = full_ranker();
    let model = eval_batch(&mut ranker, &w, &games, RANK_ALPHABET);
    // four plies before the failure, plus both plies of the second game
    assert_eq!(model.moves, 6);
}

#[test]
fn ambiguous_notation_is_rejected_like_a_missing_move() {
    // after 1. e4 e5 2. Ne2 a6 3. Nbc3 both knights could go to c3 if the
    // notation gave no file hint; strip the hint by rewriting the SAN
    let games = decode_games("1. e4 e5 2. Ne2 a6");
    assert_eq!(games.len(), 1);
    assert_eq!(games[0].plies.len(), 4);
    // hand the library an ambiguous pattern against the resulting position
    let mut pos = Chess::default();
    for san_text in ["e4", "e5", "Ne2", "a6"] {
        let san: San = san_text.parse().unwrap();
        let m = san.to_move(&pos).unwrap();
        pos.play_unchecked(m);
    }
    let legal = pos.legal_moves();
    let cands: Vec<MoveCand> = legal.iter().map(|m| conv_move(&pos, *m)).collect();
    let ambiguous = MovePattern::Normal {
        role: Role::Knight,
        from_file: None,
        from_rank: None,
        capture: false,
        to: 18,  // c3
        promotion: None,
    };
    let game = Game {
        standard_start: true,
        plies: vec![Ply { legal: cands, played: ambiguous }],
    };
    let w = vec![0i64; 6];
    let mut ranker = full_ranker();
    let model = eval_batch(&mut ranker, &w, &vec![game], RANK_ALPHABET);
    assert_eq!(model.moves, 0);
}
