//! Evaluation of one batch of decoded games.
//!
//! A batch is a slice of games, each already decoded into, per move played,
//! the full legal-move list and the loose notation pattern of the played
//! move.  Evaluation ranks every played move, accumulates the rank
//! histogram, and reports the smoothed prefix-code cost.  A game whose
//! header declared a non-standard starting position contributes nothing; a
//! move whose notation matches no legal move, or several, ends that game's
//! statistics and evaluation continues with the next game.

use vstd::prelude::*;

use crate::cost::{counts_sum, huffman_bits_spec, RankCostModel, MOVES_CAP};
use crate::ranker::{
    first_match, match_count, scored_of, sort_desc_spec, FeatureKind, MoveCand, MovePattern,
    MoveRanker, ProbTables, WEIGHT_MAX,
};

verus! {

/// Rank symbols per histogram: safely above the legal-move ceiling of any
/// position.
pub const RANK_ALPHABET: usize = 256;

/// Ceiling on a reported batch loss, in thousandths of a byte per game.
pub const LOSS_CAP: u64 = 0x10000000000;

/// One played move: the legal moves of its position and its notation.
pub struct Ply {
    pub legal: Vec<MoveCand>,
    pub played: MovePattern,
}

/// One decoded game.
pub struct Game {
    /// False when the game's header declared a custom starting position.
    pub standard_start: bool,
    pub plies: Vec<Ply>,
}

pub open spec fn ply_wf(p: Ply) -> bool {
    &&& p.legal@.len() < 1000000
    &&& forall|i: int| 0 <= i < p.legal@.len() ==> (#[trigger] p.legal@[i]).wf()
}

pub open spec fn game_wf(g: Game) -> bool {
    forall|i: int| 0 <= i < g.plies@.len() ==> ply_wf(#[trigger] g.plies@[i])
}

pub open spec fn games_wf(gs: Seq<Game>) -> bool {
    forall|i: int| 0 <= i < gs.len() ==> game_wf(#[trigger] gs[i])
}

/// Evaluation state within a game: the histogram, whether the rest of the
/// game is skipped, and the last played destination square.
pub open spec fn ply_step(
    cfg: Seq<FeatureKind>,
    w: Seq<i64>,
    tables: ProbTables,
    st: (Seq<u64>, bool, Option<u8>),
    ply: Ply,
    white: bool,
) -> (Seq<u64>, bool, Option<u8>) {
    if st.1 {
        st
    } else {
        let sorted = sort_desc_spec(scored_of(cfg, w, tables, white, st.2, ply.legal@));
        if match_count(sorted, ply.played) != 1 {
            (st.0, true, st.2)
        } else {
            let idx = first_match(sorted, ply.played);
            let nl = Option::Some(sorted[idx].mv.to);
            if idx < st.0.len() && counts_sum(st.0) < MOVES_CAP as int {
                (st.0.update(idx, (st.0[idx] + 1) as u64), false, nl)
            } else {
                (st.0, true, nl)
            }
        }
    }
}

/// Folds `ply_step` over the plies of one game from index `i` on; white
/// moves on even indices.
pub open spec fn game_plies(
    cfg: Seq<FeatureKind>,
    w: Seq<i64>,
    tables: ProbTables,
    plies: Seq<Ply>,
    i: nat,
    st: (Seq<u64>, bool, Option<u8>),
) -> (Seq<u64>, bool, Option<u8>)
    decreases plies.len() - i,
{
    if i >= plies.len() {
        st
    } else {
        game_plies(cfg, w, tables, plies, i + 1, ply_step(cfg, w, tables, st, plies[i as int], i
            % 2 == 0))
    }
}

/// Folds whole games from index `i` on; each game starts unskipped exactly
/// when its start is standard, with no last destination.
pub open spec fn eval_games(
    cfg: Seq<FeatureKind>,
    w: Seq<i64>,
    tables: ProbTables,
    games: Seq<Game>,
    i: nat,
    counts: Seq<u64>,
) -> Seq<u64>
    decreases games.len() - i,
{
    if i >= games.len() {
        counts
    } else {
        let g = games[i as int];
        let st = game_plies(
            cfg,
            w,
            tables,
            g.plies@,
            0,
            (counts, !g.standard_start, Option::<u8>::None),
        );
        eval_games(cfg, w, tables, games, i + 1, st.0)
    }
}

/// The rank histogram of one batch.
pub open spec fn batch_counts_spec(
    cfg: Seq<FeatureKind>,
    w: Seq<i64>,
    tables: ProbTables,
    games: Seq<Game>,
    alphabet: nat,
) -> Seq<u64> {
    eval_games(cfg, w, tables, games, 0, Seq::new(alphabet, |i: int| 0u64))
}

/// Average thousandths of a byte per game of the optimal prefix code for
/// one batch's rank histogram.
pub open spec fn batch_loss_spec(
    cfg: Seq<FeatureKind>,
    w: Seq<i64>,
    tables: ProbTables,
    games: Seq<Game>,
    alphabet: nat,
) -> int {
    huffman_bits_spec(batch_counts_spec(cfg, w, tables, games, alphabet)) * 125 / (
    games.len() as int)
}

/// The batch loss, held below the fixed ceiling.
pub open spec fn capped_loss_spec(
    cfg: Seq<FeatureKind>,
    w: Seq<i64>,
    tables: ProbTables,
    games: Seq<Game>,
    alphabet: nat,
) -> int {
    let l = batch_loss_spec(cfg, w, tables, games, alphabet);
    if l > LOSS_CAP as int {
        LOSS_CAP as int
    } else {
        l
    }
}

/// Once a game is skipped, its remaining plies change nothing.
///
/// Together with `lemma_failed_match_sets_skip` this is the recovery rule: a
/// game contributes statistics exactly for the plies before its first
/// failure, and evaluation goes on with the next game.
pub proof fn lemma_skip_freezes_game(
    cfg: Seq<FeatureKind>,
    w: Seq<i64>,
    tables: ProbTables,
    plies: Seq<Ply>,
    i: nat,
    st: (Seq<u64>, bool, Option<u8>),
)
    requires
        st.1,
    ensures
        game_plies(cfg, w, tables, plies, i, st) == st,
    decreases plies.len() - i,
{
    if i < plies.len() {
        lemma_skip_freezes_game(cfg, w, tables, plies, (i + 1) as nat, st);
    }
}

/// A ply whose pattern has no unique match leaves the histogram untouched
/// and skips the remainder of its game.
pub proof fn lemma_failed_match_sets_skip(
    cfg: Seq<FeatureKind>,
    w: Seq<i64>,
    tables: ProbTables,
    st: (Seq<u64>, bool, Option<u8>),
    ply: Ply,
    white: bool,
)
    requires
        !st.1,
        match_count(
            sort_desc_spec(scored_of(cfg, w, tables, white, st.2, ply.legal@)),
            ply.played,
        ) != 1,
    ensures
        ply_step(cfg, w, tables, st, ply, white) == (st.0, true, st.2),
{
}

/// A game tagged with a custom starting position contributes no histogram
/// entry at all.
pub proof fn lemma_nonstandard_game_adds_nothing(
    cfg: Seq<FeatureKind>,
    w: Seq<i64>,
    tables: ProbTables,
    games: Seq<Game>,
    i: nat,
    counts: Seq<u64>,
)
    requires
        i < games.len(),
        !games[i as int].standard_start,
    ensures
        eval_games(cfg, w, tables, games, i, counts) == eval_games(
            cfg,
            w,
            tables,
            games,
            (i + 1) as nat,
            counts,
        ),
{
    let g = games[i as int];
    lemma_skip_freezes_game(
        cfg,
        w,
        tables,
        g.plies@,
        0,
        (counts, true, Option::<u8>::None),
    );
}

/// Evaluates one batch: ranks every played move of every standard game and
/// accumulates the rank histogram.
pub fn eval_batch(
    ranker: &mut MoveRanker,
    w: &Vec<i64>,
    games: &Vec<Game>,
    alphabet: usize,
) -> (model: RankCostModel)
    requires
        old(ranker).wf(),
        w@.len() == old(ranker).config@.len(),
        forall|i: int| 0 <= i < w@.len() ==> -WEIGHT_MAX <= #[trigger] w@[i] <= WEIGHT_MAX,
        games_wf(games@),
        1 <= alphabet <= 1024,
    ensures
        final (ranker).wf(),
        final (ranker).config == old(ranker).config,
        final (ranker).tables == old(ranker).tables,
        final (ranker).last_dest is None,
        model.wf(),
        model.counts@.len() == alphabet,
        model.counts@ == batch_counts_spec(
            old(ranker).config@,
            w@,
            old(ranker).tables,
            games@,
            alphabet as nat,
        ),
{
    let ghost cfg_vec = ranker.config;
    let ghost cfg = ranker.config@;
    let ghost tables = ranker.tables;
    let ghost init = Seq::new(alphabet as nat, |i: int| 0u64);
    let mut model = RankCostModel::new(alphabet);
    proof {
        assert(model.counts@ =~= init);
    }
    let mut gi: usize = 0;
    while gi < games.len()
        invariant
            gi <= games@.len(),
            ranker.wf(),
            ranker.config == cfg_vec,
            ranker.config@ == cfg,
            ranker.tables == tables,
            w@.len() == cfg.len(),
            forall|i: int| 0 <= i < w@.len() ==> -WEIGHT_MAX <= #[trigger] w@[i] <= WEIGHT_MAX,
            games_wf(games@),
            1 <= alphabet <= 1024,
            model.wf(),
            model.counts@.len() == alphabet,
            eval_games(cfg, w@, tables, games@, 0, init) == eval_games(
                cfg,
                w@,
                tables,
                games@,
                gi as nat,
                model.counts@,
            ),
        decreases games@.len() - gi,
    {
        let g: &Game = &games[gi];
        ranker.begin_game();
        let mut skip: bool = !g.standard_start;
        let ghost st0 = (model.counts@, skip, Option::<u8>::None);
        let mut pi: usize = 0;
        assert(game_wf(games@[gi as int]));
        while pi < g.plies.len()
            invariant
                pi <= g.plies@.len(),
                ranker.wf(),
                ranker.config == cfg_vec,
                ranker.config@ == cfg,
                ranker.tables == tables,
                w@.len() == cfg.len(),
                forall|i: int| 0 <= i < w@.len() ==> -WEIGHT_MAX <= #[trigger] w@[i]
                    <= WEIGHT_MAX,
                game_wf(*g),
                1 <= alphabet <= 1024,
                model.wf(),
                model.counts@.len() == alphabet,
                game_plies(cfg, w@, tables, g.plies@, 0, st0) == game_plies(
                    cfg,
                    w@,
                    tables,
                    g.plies@,
                    pi as nat,
                    (model.counts@, skip, ranker.last_dest),
                ),
            decreases g.plies@.len() - pi,
        {
            let ghost cur = (model.counts@, skip, ranker.last_dest);
            let ghost white_g = (pi as nat) % 2 == 0;
            assert(ply_wf(g.plies@[pi as int]));
            if skip {
                proof {
                    assert(ply_step(cfg, w@, tables, cur, g.plies@[pi as int], white_g) == cur);
                }
            } else {
                let ply: &Ply = &g.plies[pi];
                let white: bool = pi % 2 == 0;
                let res = ranker.rank_played(w, white, &ply.legal, &ply.played);
                match res {
                    Result::Ok(idx) => {
                        if idx < model.alphabet() && model.moves < MOVES_CAP {
                            model.accumulate(idx);
                        } else {
                            skip = true;
                        }
                    },
                    Result::Err(_) => {
                        skip = true;
                    },
                }
            }
            pi = pi + 1;
        }
        proof {
            assert(game_plies(cfg, w@, tables, g.plies@, pi as nat, (
                model.counts@,
                skip,
                ranker.last_dest,
            )) == (model.counts@, skip, ranker.last_dest));
            assert(eval_games(cfg, w@, tables, games@, gi as nat, st0.0) == eval_games(
                cfg,
                w@,
                tables,
                games@,
                (gi + 1) as nat,
                model.counts@,
            ));
        }
        gi = gi + 1;
    }
    ranker.begin_game();
    proof {
        assert(eval_games(cfg, w@, tables, games@, games@.len() as nat, model.counts@)
            == model.counts@);
    }
    model
}

/// The capped average cost, in thousandths of a byte per game, of encoding
/// this batch's ranks with the optimal prefix code for them.
pub fn batch_loss(
    ranker: &mut MoveRanker,
    w: &Vec<i64>,
    games: &Vec<Game>,
    alphabet: usize,
) -> (r: u64)
    requires
        old(ranker).wf(),
        w@.len() == old(ranker).config@.len(),
        forall|i: int| 0 <= i < w@.len() ==> -WEIGHT_MAX <= #[trigger] w@[i] <= WEIGHT_MAX,
        games_wf(games@),
        1 <= alphabet <= 1024,
        games@.len() >= 1,
    ensures
        final (ranker).wf(),
        final (ranker).config == old(ranker).config,
        final (ranker).tables == old(ranker).tables,
        final (ranker).last_dest is None,
        r as int == capped_loss_spec(
            old(ranker).config@,
            w@,
            old(ranker).tables,
            games@,
            alphabet as nat,
        ),
        r <= LOSS_CAP,
{
    let model = eval_batch(ranker, w, games, alphabet);
    let bytes: u64 = model.bytes_per_game_milli(games.len() as u64);
    if bytes > LOSS_CAP {
        LOSS_CAP
    } else {
        bytes
    }
}

/// The batch loss is never negative.
pub proof fn lemma_loss_nonneg(
    cfg: Seq<FeatureKind>,
    w: Seq<i64>,
    tables: ProbTables,
    games: Seq<Game>,
    alphabet: nat,
)
    requires
        games.len() >= 1,
        alphabet >= 1,
    ensures
        0 <= capped_loss_spec(cfg, w, tables, games, alphabet) <= LOSS_CAP as int,
{
    let counts = batch_counts_spec(cfg, w, tables, games, alphabet);
    lemma_counts_len_nonneg(cfg, w, tables, games, alphabet);
    vstd::arithmetic::div_mod::lemma_div_pos_is_pos(
        huffman_bits_spec(counts) * 125,
        games.len() as int,
    );
}

/// The histogram stays nonnegative in cost, whatever its shape.
proof fn lemma_counts_len_nonneg(
    cfg: Seq<FeatureKind>,
    w: Seq<i64>,
    tables: ProbTables,
    games: Seq<Game>,
    alphabet: nat,
)
    ensures
        huffman_bits_spec(batch_counts_spec(cfg, w, tables, games, alphabet)) * 125 >= 0,
{
    let counts = batch_counts_spec(cfg, w, tables, games, alphabet);
    crate::cost::lemma_node_seq_all_pos(counts);
    crate::cost::lemma_hb_bound(crate::cost::node_seq(counts));
}

} // verus!
