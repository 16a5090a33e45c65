//! Scoring and ordering of legal moves, and rank lookup of the played move.
//!
//! Every quantity is an exact integer.  Weights are thousandths of a unit,
//! feature values are millionths, so a weighted score term carries nine
//! fractional decimal digits.  Small monotonic tie-break terms derived from
//! the raw source and destination square indices are embedded in every score,
//! and the sort is stable, so the produced order is a pure function of the
//! inputs with no nondeterministic ties.

use vstd::prelude::*;

verus! {

/// Largest admitted weight magnitude, in thousandths (a thousand units).
pub const WEIGHT_MAX: i64 = 1000000;

/// Largest feature magnitude, in millionths (a captured king plus a queen
/// promotion).
pub const FEATURE_MAX: i64 = 1005000000;

/// Piece kind of a mover, capture or promotion.
#[derive(Clone, Copy, PartialEq, Eq, Structural, Debug)]
pub enum Role {
    Pawn,
    Knight,
    Bishop,
    Rook,
    Queen,
    King,
}

/// Row of a role in the probability tables.
pub open spec fn role_idx(r: Role) -> int {
    match r {
        Role::Pawn => 0,
        Role::Knight => 1,
        Role::Bishop => 2,
        Role::Rook => 3,
        Role::Queen => 4,
        Role::King => 5,
    }
}

/// Exchange value of a role, in millionths.
pub open spec fn role_value_u(r: Role) -> int {
    match r {
        Role::Pawn => 1000000,
        Role::Knight => 3000000,
        Role::Bishop => 3000000,
        Role::Rook => 3000000,
        Role::Queen => 9000000,
        Role::King => 1000000000,
    }
}

/// Promotion bonus of a role, in millionths.
pub open spec fn promo_value_u(r: Role) -> int {
    match r {
        Role::Pawn => 0,
        Role::Knight => 2000000,
        Role::Bishop => 1000000,
        Role::Rook => 1000000,
        Role::Queen => 5000000,
        Role::King => 0,
    }
}

/// One already-decoded candidate move.
///
/// Squares are 0..63 with file = square % 8 and rank = square / 8.  For a
/// castling move `from` is the king's square and `to` the rook's square.
/// `pawn_attacked` says whether an enemy pawn attacks the destination; the
/// caller computes it from the position, which the ranker never sees.
#[derive(Clone, Copy, PartialEq, Eq, Debug)]
pub struct MoveCand {
    pub role: Role,
    pub from: u8,
    pub to: u8,
    pub capture: Option<Role>,
    pub promotion: Option<Role>,
    pub castle: bool,
    pub pawn_attacked: bool,
}

impl MoveCand {
    /// Both squares are on the board.
    pub open spec fn wf(self) -> bool {
        self.from < 64 && self.to < 64
    }
}

/// The decoded notation of a played move, kept as loose as the notation
/// itself so that ambiguous notation can be detected against the legal moves.
#[derive(Clone, Copy, PartialEq, Eq, Debug)]
pub enum MovePattern {
    Normal {
        role: Role,
        from_file: Option<u8>,
        from_rank: Option<u8>,
        capture: bool,
        to: u8,
        promotion: Option<Role>,
    },
    Castle {
        long: bool,
    },
}

/// Structural match of a pattern against one candidate move.
pub open spec fn pattern_matches(p: MovePattern, m: MoveCand) -> bool {
    match p {
        MovePattern::Normal { role, from_file, from_rank, capture, to, promotion } => {
            &&& !m.castle
            &&& m.role == role
            &&& match from_file {
                Option::None => true,
                Option::Some(f) => m.from % 8 == f,
            }
            &&& match from_rank {
                Option::None => true,
                Option::Some(r) => m.from / 8 == r,
            }
            &&& capture == (m.capture is Some)
            &&& m.to == to
            &&& m.promotion == promotion
        },
        MovePattern::Castle { long } => m.castle && (long <==> m.to % 8 == 0),
    }
}

/// Rank lookup failure: the notation matched no legal move, or several.
#[derive(Clone, Copy, PartialEq, Eq, Structural, Debug)]
pub enum RankError {
    MoveNotFound,
    DuplicateMoveMatch,
}

/// The two empirically derived 6-role-by-64-square tables, in per-mille.
///
/// They are immutable configuration data produced by a separate frequency
/// pass over a corpus; the ranker only reads them.
pub struct ProbTables {
    pub dest: Vec<u16>,
    pub src: Vec<u16>,
}

impl ProbTables {
    pub open spec fn wf(self) -> bool {
        &&& self.dest@.len() == 384
        &&& self.src@.len() == 384
        &&& forall|i: int| 0 <= i < 384 ==> self.dest@[i] <= 1000
        &&& forall|i: int| 0 <= i < 384 ==> self.src@[i] <= 1000
    }

    /// Accepts the two tables exactly when each has 384 per-mille entries.
    pub fn new(dest: Vec<u16>, src: Vec<u16>) -> (r: Option<ProbTables>)
        ensures
            match r {
                Option::Some(t) => t.wf() && t.dest@ == dest@ && t.src@ == src@,
                Option::None => !(ProbTables { dest, src }).wf(),
            },
    {
        if dest.len() != 384 || src.len() != 384 {
            return Option::None;
        }
        let mut i: usize = 0;
        while i < 384
            invariant
                i <= 384,
                dest@.len() == 384,
                src@.len() == 384,
                forall|j: int| 0 <= j < i ==> dest@[j] <= 1000,
                forall|j: int| 0 <= j < i ==> src@[j] <= 1000,
            decreases 384 - i,
        {
            if dest[i] > 1000 || src[i] > 1000 {
                return Option::None;
            }
            i = i + 1;
        }
        Option::Some(ProbTables { dest, src })
    }
}

/// The square from the mover's viewpoint: vertically flipped for white, so
/// one table serves both sides.
pub open spec fn mirror_sq(sq: u8, white: bool) -> int {
    if white {
        56 - 8 * (sq as int / 8) + sq as int % 8
    } else {
        sq as int
    }
}

/// Chebyshev (king-step) distance between two squares.
pub open spec fn sq_distance(a: u8, b: u8) -> int {
    let df = if a as int % 8 >= b as int % 8 {
        a as int % 8 - b as int % 8
    } else {
        b as int % 8 - a as int % 8
    };
    let dr = if a as int / 8 >= b as int / 8 {
        a as int / 8 - b as int / 8
    } else {
        b as int / 8 - a as int / 8
    };
    if df >= dr {
        df
    } else {
        dr
    }
}

/// The named feature functions a ranker can be configured with.
#[derive(Clone, Copy, PartialEq, Eq, Structural, Debug)]
pub enum FeatureKind {
    /// Captured-piece value plus promotion bonus.
    CaptureValue,
    /// Pawn-attack-on-destination indicator, scaled by one half less the
    /// captured-role value.
    PawnAttack,
    /// Destination-square probability from the tables.
    DestFrequency,
    /// Product of destination and source probabilities.
    SrcDestInteraction,
    /// Fixed bonus for castling moves.
    CastleBonus,
    /// Squared king-step distance from the previous move's destination.
    LastMoveDistance,
}

/// Value of the captured role, zero when nothing is captured.
pub open spec fn capture_value_u(m: MoveCand) -> int {
    match m.capture {
        Option::Some(r) => role_value_u(r),
        Option::None => 0,
    }
}

/// One feature of one candidate move, in millionths.
pub open spec fn feature_value(
    k: FeatureKind,
    m: MoveCand,
    tables: ProbTables,
    white: bool,
    last_dest: Option<u8>,
) -> int {
    match k {
        FeatureKind::CaptureValue => capture_value_u(m) + match m.promotion {
            Option::Some(r) => promo_value_u(r),
            Option::None => 0,
        },
        FeatureKind::PawnAttack => if m.pawn_attacked {
            500000 - capture_value_u(m)
        } else {
            0
        },
        FeatureKind::DestFrequency => dest_prob(m, tables, white) * 5000,
        FeatureKind::SrcDestInteraction => dest_prob(m, tables, white) * src_prob(m, tables, white)
            * 25,
        FeatureKind::CastleBonus => if m.castle {
            50000000
        } else {
            0
        },
        FeatureKind::LastMoveDistance => match last_dest {
            Option::Some(d) => sq_distance(m.to, d) * sq_distance(m.to, d) * 1000000,
            Option::None => 0,
        },
    }
}

/// Per-mille destination probability of a move.
pub open spec fn dest_prob(m: MoveCand, tables: ProbTables, white: bool) -> int {
    tables.dest@[role_idx(m.role) * 64 + mirror_sq(m.to, white)] as int
}

/// Per-mille source probability of a move.
pub open spec fn src_prob(m: MoveCand, tables: ProbTables, white: bool) -> int {
    tables.src@[role_idx(m.role) * 64 + mirror_sq(m.from, white)] as int
}

/// Tie-break term embedded in every score: a thousandth of a unit per index
/// step of the raw destination and source squares.
pub open spec fn tie_term(m: MoveCand) -> int {
    (m.to as int + m.from as int) * 1000000
}

/// Weighted score of the first `i` configured features, plus the tie term.
pub open spec fn score_partial(
    cfg: Seq<FeatureKind>,
    w: Seq<i64>,
    m: MoveCand,
    tables: ProbTables,
    white: bool,
    last_dest: Option<u8>,
    i: nat,
) -> int
    decreases i,
{
    if i == 0 {
        tie_term(m)
    } else {
        score_partial(cfg, w, m, tables, white, last_dest, (i - 1) as nat) + w[i - 1] as int
            * feature_value(cfg[i - 1], m, tables, white, last_dest)
    }
}

/// Full score of one candidate move under a configuration and weights.
pub open spec fn score_spec(
    cfg: Seq<FeatureKind>,
    w: Seq<i64>,
    m: MoveCand,
    tables: ProbTables,
    white: bool,
    last_dest: Option<u8>,
) -> int {
    score_partial(cfg, w, m, tables, white, last_dest, cfg.len())
}

/// Every feature value stays within `FEATURE_MAX`.
pub proof fn lemma_feature_bound(
    k: FeatureKind,
    m: MoveCand,
    tables: ProbTables,
    white: bool,
    last_dest: Option<u8>,
)
    requires
        tables.wf(),
        m.wf(),
        match last_dest {
            Option::Some(d) => d < 64,
            Option::None => true,
        },
    ensures
        -FEATURE_MAX <= feature_value(k, m, tables, white, last_dest) <= FEATURE_MAX,
{
    assert(0 <= mirror_sq(m.to, white) < 64);
    assert(0 <= mirror_sq(m.from, white) < 64);
    assert(0 <= role_idx(m.role) * 64 + mirror_sq(m.to, white) < 384);
    assert(0 <= role_idx(m.role) * 64 + mirror_sq(m.from, white) < 384);
    let d = dest_prob(m, tables, white);
    let s = src_prob(m, tables, white);
    assert(0 <= d <= 1000);
    assert(0 <= s <= 1000);
    assert(d * 5000 <= 5000000) by (nonlinear_arith)
        requires 0 <= d <= 1000;
    assert(0 <= d * s * 25 <= 25000000) by (nonlinear_arith)
        requires 0 <= d <= 1000, 0 <= s <= 1000;
    match last_dest {
        Option::Some(ld) => {
            let dist = sq_distance(m.to, ld);
            assert(0 <= dist <= 7);
            assert(0 <= dist * dist * 1000000 <= 49000000) by (nonlinear_arith)
                requires 0 <= dist <= 7;
        },
        Option::None => {},
    }
}

/// Exec mirror of one feature value.
fn feature_exec(
    k: FeatureKind,
    m: &MoveCand,
    tables: &ProbTables,
    white: bool,
    last_dest: &Option<u8>,
) -> (f: i64)
    requires
        tables.wf(),
        m.wf(),
        match last_dest {
            Option::Some(d) => *d < 64,
            Option::None => true,
        },
    ensures
        f as int == feature_value(k, *m, *tables, white, *last_dest),
        -FEATURE_MAX <= f <= FEATURE_MAX,
{
    proof {
        lemma_feature_bound(k, *m, *tables, white, *last_dest);
    }
    match k {
        FeatureKind::CaptureValue => {
            let cap: i64 = match m.capture {
                Option::Some(r) => role_value_exec(r),
                Option::None => 0,
            };
            let promo: i64 = match m.promotion {
                Option::Some(r) => promo_value_exec(r),
                Option::None => 0,
            };
            cap + promo
        },
        FeatureKind::PawnAttack => {
            if m.pawn_attacked {
                let cap: i64 = match m.capture {
                    Option::Some(r) => role_value_exec(r),
                    Option::None => 0,
                };
                500000 - cap
            } else {
                0
            }
        },
        FeatureKind::DestFrequency => {
            let d: i64 = table_lookup(&tables.dest, m.role, m.to, white);
            d * 5000
        },
        FeatureKind::SrcDestInteraction => {
            let d: i64 = table_lookup(&tables.dest, m.role, m.to, white);
            let s: i64 = table_lookup(&tables.src, m.role, m.from, white);
            d * s * 25
        },
        FeatureKind::CastleBonus => {
            if m.castle {
                50000000
            } else {
                0
            }
        },
        FeatureKind::LastMoveDistance => {
            match last_dest {
                Option::Some(d) => {
                    let dist: i64 = distance_exec(m.to, *d);
                    dist * dist * 1000000
                },
                Option::None => 0,
            }
        },
    }
}

fn role_value_exec(r: Role) -> (v: i64)
    ensures
        v as int == role_value_u(r),
{
    match r {
        Role::Pawn => 1000000,
        Role::Knight => 3000000,
        Role::Bishop => 3000000,
        Role::Rook => 3000000,
        Role::Queen => 9000000,
        Role::King => 1000000000,
    }
}

fn promo_value_exec(r: Role) -> (v: i64)
    ensures
        v as int == promo_value_u(r),
{
    match r {
        Role::Pawn => 0,
        Role::Knight => 2000000,
        Role::Bishop => 1000000,
        Role::Rook => 1000000,
        Role::Queen => 5000000,
        Role::King => 0,
    }
}

fn role_index_exec(r: Role) -> (v: usize)
    ensures
        v as int == role_idx(r),
{
    match r {
        Role::Pawn => 0,
        Role::Knight => 1,
        Role::Bishop => 2,
        Role::Rook => 3,
        Role::Queen => 4,
        Role::King => 5,
    }
}

fn table_lookup(table: &Vec<u16>, role: Role, sq: u8, white: bool) -> (v: i64)
    requires
        table@.len() == 384,
        forall|i: int| 0 <= i < 384 ==> table@[i] <= 1000,
        sq < 64,
    ensures
        v as int == table@[role_idx(role) * 64 + mirror_sq(sq, white)] as int,
        0 <= v <= 1000,
{
    let row: usize = role_index_exec(role);
    let col: usize = if white {
        56 - 8 * ((sq as usize) / 8) + (sq as usize) % 8
    } else {
        sq as usize
    };
    table[row * 64 + col] as i64
}

fn distance_exec(a: u8, b: u8) -> (d: i64)
    requires
        a < 64,
        b < 64,
    ensures
        d as int == sq_distance(a, b),
        0 <= d <= 7,
{
    let fa: i64 = (a as i64) % 8;
    let fb: i64 = (b as i64) % 8;
    let ra: i64 = (a as i64) / 8;
    let rb: i64 = (b as i64) / 8;
    let df: i64 = if fa >= fb {
        fa - fb
    } else {
        fb - fa
    };
    let dr: i64 = if ra >= rb {
        ra - rb
    } else {
        rb - ra
    };
    if df >= dr {
        df
    } else {
        dr
    }
}

/// Exec mirror of the full score.
fn score_exec(
    cfg: &Vec<FeatureKind>,
    w: &Vec<i64>,
    m: &MoveCand,
    tables: &ProbTables,
    white: bool,
    last_dest: &Option<u8>,
) -> (s: i64)
    requires
        tables.wf(),
        m.wf(),
        cfg@.len() == w@.len(),
        cfg@.len() <= 6,
        forall|i: int| 0 <= i < w@.len() ==> -WEIGHT_MAX <= #[trigger] w@[i] <= WEIGHT_MAX,
        match last_dest {
            Option::Some(d) => *d < 64,
            Option::None => true,
        },
    ensures
        s as int == score_spec(cfg@, w@, *m, *tables, white, *last_dest),
{
    let mut acc: i64 = ((m.to as i64) + (m.from as i64)) * 1000000;
    let mut i: usize = 0;
    while i < cfg.len()
        invariant
            i <= cfg@.len(),
            cfg@.len() == w@.len(),
            cfg@.len() <= 6,
            tables.wf(),
            m.wf(),
            forall|j: int| 0 <= j < w@.len() ==> -WEIGHT_MAX <= #[trigger] w@[j] <= WEIGHT_MAX,
            match last_dest {
                Option::Some(d) => *d < 64,
                Option::None => true,
            },
            acc as int == score_partial(cfg@, w@, *m, *tables, white, *last_dest, i as nat),
            -200000000 - (i as int) * 1005000000000000 <= acc as int <= 200000000 + (
            i as int) * 1005000000000000,
        decreases cfg@.len() - i,
    {
        let f: i64 = feature_exec(cfg[i], m, tables, white, last_dest);
        let wi: i64 = w[i];
        assert(-1005000000000000 <= wi as int * f as int <= 1005000000000000) by (nonlinear_arith)
            requires
                -WEIGHT_MAX <= wi as int <= WEIGHT_MAX,
                -FEATURE_MAX <= f as int <= FEATURE_MAX,
                WEIGHT_MAX == 1000000,
                FEATURE_MAX == 1005000000,
        ;
        acc = acc + wi * f;
        i = i + 1;
    }
    acc
}

/// A candidate move together with its score.
#[derive(Clone, Copy, PartialEq, Eq, Debug)]
pub struct ScoredMove {
    pub mv: MoveCand,
    pub score: i64,
}

/// The scored image of a legal-move list, in input order.
pub open spec fn scored_of(
    cfg: Seq<FeatureKind>,
    w: Seq<i64>,
    tables: ProbTables,
    white: bool,
    last_dest: Option<u8>,
    legal: Seq<MoveCand>,
) -> Seq<ScoredMove> {
    legal.map_values(
        |m: MoveCand| (ScoredMove {
            mv: m,
            score: score_spec(cfg, w, m, tables, white, last_dest) as i64,
        }),
    )
}

/// Number of leading entries whose score is at least that of `x`; a stable
/// descending insertion puts `x` directly after them.
pub open spec fn insert_pos_desc(s: Seq<ScoredMove>, x: ScoredMove) -> int
    decreases s.len(),
{
    if s.len() == 0 {
        0
    } else if s[0].score >= x.score {
        1 + insert_pos_desc(s.drop_first(), x)
    } else {
        0
    }
}

/// Stable descending insertion of one scored move.
pub open spec fn insert_desc(s: Seq<ScoredMove>, x: ScoredMove) -> Seq<ScoredMove> {
    s.insert(insert_pos_desc(s, x), x)
}

/// Stable descending insertion sort.
pub open spec fn sort_desc_spec(s: Seq<ScoredMove>) -> Seq<ScoredMove>
    decreases s.len(),
{
    if s.len() == 0 {
        Seq::empty()
    } else {
        insert_desc(sort_desc_spec(s.drop_last()), s.last())
    }
}

/// Scores in weakly descending order.
pub open spec fn sorted_desc(s: Seq<ScoredMove>) -> bool {
    forall|i: int, j: int| 0 <= i < j < s.len() ==> s[i].score >= s[j].score
}

proof fn lemma_insert_pos_range(s: Seq<ScoredMove>, x: ScoredMove)
    ensures
        0 <= insert_pos_desc(s, x) <= s.len(),
        forall|j: int| 0 <= j < insert_pos_desc(s, x) ==> s[j].score >= x.score,
        insert_pos_desc(s, x) < s.len() ==> s[insert_pos_desc(s, x)].score < x.score,
    decreases s.len(),
{
    if s.len() == 0 {
    } else if s[0].score >= x.score {
        lemma_insert_pos_range(s.drop_first(), x);
        assert forall|j: int| 0 <= j < insert_pos_desc(s, x) implies s[j].score >= x.score by {
            if j > 0 {
                assert(s.drop_first()[j - 1] == s[j]);
            }
        }
    } else {
    }
}

proof fn lemma_insert_desc_sorted(s: Seq<ScoredMove>, x: ScoredMove)
    requires
        sorted_desc(s),
    ensures
        sorted_desc(insert_desc(s, x)),
{
    let p = insert_pos_desc(s, x);
    lemma_insert_pos_range(s, x);
    let t = s.insert(p, x);
    s.insert_ensures(p, x);
    assert forall|i: int, j: int| 0 <= i < j < t.len() implies t[i].score >= t[j].score by {
        if i < p && j < p {
        } else if i == p {
            if j > p {
                assert(t[j] == s[j - 1]);
                if j - 1 == p {
                } else {
                    assert(s[p].score >= s[j - 1].score);
                }
            }
        } else if j == p {
            assert(t[i] == s[i]);
        } else if i < p && j > p {
            assert(t[i] == s[i] && t[j] == s[j - 1]);
            if i == j - 1 {
                assert(s[i].score >= x.score);
                assert(t[j] == s[i]);
            } else {
                assert(s[i].score >= s[j - 1].score);
            }
        } else {
            assert(t[i] == s[i - 1] && t[j] == s[j - 1]);
            if i - 1 == j - 1 {
            } else {
                assert(s[i - 1].score >= s[j - 1].score);
            }
        }
    }
}

/// The sorted image is sorted.
pub proof fn lemma_sort_desc_sorted(s: Seq<ScoredMove>)
    ensures
        sorted_desc(sort_desc_spec(s)),
    decreases s.len(),
{
    if s.len() == 0 {
    } else {
        lemma_sort_desc_sorted(s.drop_last());
        lemma_insert_desc_sorted(sort_desc_spec(s.drop_last()), s.last());
    }
}

/// The sorted image holds exactly the input entries, with multiplicity.
pub proof fn lemma_sort_desc_multiset(s: Seq<ScoredMove>)
    ensures
        sort_desc_spec(s).to_multiset() == s.to_multiset(),
        sort_desc_spec(s).len() == s.len(),
    decreases s.len(),
{
    broadcast use vstd::seq_lib::group_seq_properties;

    if s.len() == 0 {
        assert(sort_desc_spec(s).to_multiset() =~= s.to_multiset());
    } else {
        let dl = s.drop_last();
        lemma_sort_desc_multiset(dl);
        let t = sort_desc_spec(dl);
        let p = insert_pos_desc(t, s.last());
        lemma_insert_pos_range(t, s.last());
        vstd::seq_lib::to_multiset_insert(t, p, s.last());
        assert(s =~= dl.push(s.last()));
        vstd::seq_lib::to_multiset_build(dl, s.last());
        assert(sort_desc_spec(s).to_multiset() =~= s.to_multiset());
        s.insert_ensures(p, s.last());
    }
}

/// Exec stable insertion into a descending-sorted vector.
fn sorted_insert(v: &mut Vec<ScoredMove>, x: ScoredMove)
    requires
        old(v)@.len() < 1000000,
    ensures
        final (v)@ == insert_desc(old(v)@, x),
        final (v)@.len() == old(v)@.len() + 1,
{
    proof {
        lemma_insert_pos_range(v@, x);
    }
    let ghost gp = insert_pos_desc(v@, x);
    let mut pos: usize = 0;
    while pos < v.len() && v[pos].score >= x.score
        invariant
            pos <= v@.len(),
            v@.len() < 1000000,
            forall|j: int| 0 <= j < pos ==> v@[j].score >= x.score,
            pos <= gp,
            gp == insert_pos_desc(v@, x),
            0 <= gp <= v@.len(),
            forall|j: int| 0 <= j < gp ==> v@[j].score >= x.score,
            gp < v@.len() ==> v@[gp as int].score < x.score,
        decreases v@.len() - pos,
    {
        pos = pos + 1;
        proof {
            if pos <= gp {
            } else {
                assert(pos - 1 >= gp);
                assert(pos - 1 == gp);
                assert(v@[gp as int].score >= x.score);
                assert(false);
            }
        }
    }
    proof {
        if pos < v@.len() {
            assert(v@[pos as int].score < x.score);
            if gp > pos {
                assert(v@[pos as int].score >= x.score);
                assert(false);
            }
        }
        assert(pos == gp);
    }
    v.insert(pos, x);
}

/// Scores a legal-move list and produces the stable descending order.
pub fn order_moves(
    cfg: &Vec<FeatureKind>,
    w: &Vec<i64>,
    tables: &ProbTables,
    white: bool,
    last_dest: &Option<u8>,
    legal: &Vec<MoveCand>,
) -> (r: Vec<ScoredMove>)
    requires
        tables.wf(),
        cfg@.len() == w@.len(),
        cfg@.len() <= 6,
        forall|i: int| 0 <= i < w@.len() ==> -WEIGHT_MAX <= #[trigger] w@[i] <= WEIGHT_MAX,
        forall|i: int| 0 <= i < legal@.len() ==> (#[trigger] legal@[i]).wf(),
        legal@.len() < 1000000,
        match last_dest {
            Option::Some(d) => *d < 64,
            Option::None => true,
        },
    ensures
        r@ == sort_desc_spec(scored_of(cfg@, w@, *tables, white, *last_dest, legal@)),
        r@.len() == legal@.len(),
{
    let ghost full = scored_of(cfg@, w@, *tables, white, *last_dest, legal@);
    let mut res: Vec<ScoredMove> = Vec::new();
    let mut i: usize = 0;
    while i < legal.len()
        invariant
            i <= legal@.len(),
            tables.wf(),
            cfg@.len() == w@.len(),
            cfg@.len() <= 6,
            forall|j: int| 0 <= j < w@.len() ==> -WEIGHT_MAX <= #[trigger] w@[j] <= WEIGHT_MAX,
            forall|j: int| 0 <= j < legal@.len() ==> (#[trigger] legal@[j]).wf(),
            legal@.len() < 1000000,
            match last_dest {
                Option::Some(d) => *d < 64,
                Option::None => true,
            },
            full == scored_of(cfg@, w@, *tables, white, *last_dest, legal@),
            full.len() == legal@.len(),
            res@ == sort_desc_spec(full.subrange(0, i as int)),
            res@.len() == i,
        decreases legal@.len() - i,
    {
        let m: MoveCand = legal[i];
        let s: i64 = score_exec(cfg, w, &m, tables, white, last_dest);
        let sm = ScoredMove { mv: m, score: s };
        proof {
            let pre = full.subrange(0, i as int);
            let cur = full.subrange(0, i + 1);
            assert(cur.drop_last() =~= pre);
            assert(cur.last() == full[i as int]);
            assert(full[i as int] == (ScoredMove {
                mv: legal@[i as int],
                score: score_spec(cfg@, w@, legal@[i as int], *tables, white, *last_dest) as i64,
            }));
            assert(sm == full[i as int]);
        }
        sorted_insert(&mut res, sm);
        i = i + 1;
    }
    proof {
        assert(full.subrange(0, legal@.len() as int) =~= full);
        lemma_sort_desc_multiset(full);
    }
    res
}

/// Matches of a pattern within a scored order.
pub open spec fn match_count(s: Seq<ScoredMove>, p: MovePattern) -> nat
    decreases s.len(),
{
    if s.len() == 0 {
        0
    } else {
        (if pattern_matches(p, s[0].mv) {
            1nat
        } else {
            0nat
        }) + match_count(s.drop_first(), p)
    }
}

/// Index of the first match; meaningful when at least one exists.
pub open spec fn first_match(s: Seq<ScoredMove>, p: MovePattern) -> int
    decreases s.len(),
{
    if s.len() == 0 {
        0
    } else if pattern_matches(p, s[0].mv) {
        0
    } else {
        1 + first_match(s.drop_first(), p)
    }
}

/// With at least one match the first-match index is in range and matches.
pub proof fn lemma_first_match(s: Seq<ScoredMove>, p: MovePattern)
    requires
        match_count(s, p) >= 1,
    ensures
        0 <= first_match(s, p) < s.len(),
        pattern_matches(p, s[first_match(s, p)].mv),
        forall|j: int| 0 <= j < first_match(s, p) ==> !pattern_matches(p, s[j].mv),
    decreases s.len(),
{
    if s.len() == 0 {
    } else if pattern_matches(p, s[0].mv) {
    } else {
        lemma_first_match(s.drop_first(), p);
        assert forall|j: int| 0 <= j < first_match(s, p) implies !pattern_matches(p, s[j].mv) by {
            if j > 0 {
                assert(s.drop_first()[j - 1] == s[j]);
            }
        }
    }
}

/// Exec mirror of the structural pattern match.
pub fn matches_move(p: &MovePattern, m: &MoveCand) -> (r: bool)
    ensures
        r == pattern_matches(*p, *m),
{
    match p {
        MovePattern::Normal { role, from_file, from_rank, capture, to, promotion } => {
            if m.castle {
                return false;
            }
            let role_ok: bool = *role == m.role;
            let file_ok: bool = match from_file {
                Option::Some(f) => m.from % 8 == *f,
                Option::None => true,
            };
            let rank_ok: bool = match from_rank {
                Option::Some(r) => m.from / 8 == *r,
                Option::None => true,
            };
            let cap_ok: bool = *capture == m.capture.is_some();
            let to_ok: bool = *to == m.to;
            let promo_ok: bool = match (promotion, m.promotion) {
                (Option::None, Option::None) => true,
                (Option::Some(a), Option::Some(b)) => *a == b,
                _ => false,
            };
            role_ok && file_ok && rank_ok && cap_ok && to_ok && promo_ok
        },
        MovePattern::Castle { long } => m.castle && (*long == (m.to % 8 == 0)),
    }
}

/// Finds the rank of the unique match of `p` in the scored order `s`.
///
/// Returns the 0-based rank, or `MoveNotFound` when nothing matches and
/// `DuplicateMoveMatch` when the notation is ambiguous.
pub fn find_rank(s: &Vec<ScoredMove>, p: &MovePattern) -> (r: Result<usize, RankError>)
    ensures
        match r {
            Result::Ok(i) => match_count(s@, *p) == 1 && i as int == first_match(s@, *p) && i
                < s@.len(),
            Result::Err(e) => (e == RankError::MoveNotFound <==> match_count(s@, *p) == 0) && (e
                == RankError::DuplicateMoveMatch <==> match_count(s@, *p) >= 2),
        },
{
    let mut count: usize = 0;
    let mut first: usize = 0;
    let mut i: usize = 0;
    while i < s.len()
        invariant
            i <= s@.len(),
            count as int == match_count(s@.subrange(0, i as int), *p),
            count <= i,
            count >= 1 ==> first as int == first_match(s@.subrange(0, i as int), *p) && first
                < i,
        decreases s@.len() - i,
    {
        let hit: bool = matches_move(p, &s[i].mv);
        proof {
            let pre = s@.subrange(0, i as int);
            let cur = s@.subrange(0, i + 1);
            assert(cur.subrange(0, i as int) =~= pre);
            lemma_match_step(pre, cur, *p, i as int);
            assert(cur[i as int] == s@[i as int]);
        }
        if hit {
            if count == 0 {
                first = i;
            }
            count = count + 1;
        }
        i = i + 1;
    }
    proof {
        assert(s@.subrange(0, s@.len() as int) =~= s@);
        if match_count(s@, *p) >= 1 {
            lemma_first_match(s@, *p);
        }
    }
    if count == 0 {
        Result::Err(RankError::MoveNotFound)
    } else if count > 1 {
        Result::Err(RankError::DuplicateMoveMatch)
    } else {
        Result::Ok(first)
    }
}

/// Scores and orders the legal moves of successive positions and locates the
/// rank of the played move, carrying the previous move's destination square
/// across the calls of one game.
pub struct MoveRanker {
    pub config: Vec<FeatureKind>,
    pub tables: ProbTables,
    pub last_dest: Option<u8>,
}

impl MoveRanker {
    /// Valid tables, an arity-four-to-six feature list, and an on-board
    /// remembered destination.
    pub open spec fn wf(self) -> bool {
        &&& self.tables.wf()
        &&& 4 <= self.config@.len() <= 6
        &&& match self.last_dest {
            Option::Some(d) => d < 64,
            Option::None => true,
        }
    }

    /// Accepts a feature list exactly when its arity is four to six.
    pub fn new(config: Vec<FeatureKind>, tables: ProbTables) -> (r: Option<MoveRanker>)
        requires
            tables.wf(),
        ensures
            match r {
                Option::Some(k) => k.wf() && k.config@ == config@ && k.tables.dest@
                    == tables.dest@ && k.tables.src@ == tables.src@ && k.last_dest is None,
                Option::None => !(4 <= config@.len() <= 6),
            },
    {
        if config.len() < 4 || config.len() > 6 {
            return Option::None;
        }
        Option::Some(MoveRanker { config, tables, last_dest: Option::None })
    }

    /// Forgets the previous game's last destination square.
    pub fn begin_game(&mut self)
        ensures
            final (self).config == old(self).config,
            final (self).tables == old(self).tables,
            final (self).last_dest is None,
    {
        self.last_dest = Option::None;
    }

    /// Orders the legal moves by descending score and reports the 0-based
    /// rank of the unique structural match of the played pattern.  On
    /// success the matched move's destination becomes the remembered last
    /// destination; an error leaves the ranker unchanged.
    pub fn rank_played(
        &mut self,
        w: &Vec<i64>,
        white: bool,
        legal: &Vec<MoveCand>,
        played: &MovePattern,
    ) -> (r: Result<usize, RankError>)
        requires
            old(self).wf(),
            w@.len() == old(self).config@.len(),
            forall|i: int| 0 <= i < w@.len() ==> -WEIGHT_MAX <= #[trigger] w@[i] <= WEIGHT_MAX,
            forall|i: int| 0 <= i < legal@.len() ==> (#[trigger] legal@[i]).wf(),
            legal@.len() < 1000000,
        ensures
            final (self).wf(),
            final (self).config == old(self).config,
            final (self).tables == old(self).tables,
            ({
                let sorted = sort_desc_spec(
                    scored_of(
                        old(self).config@,
                        w@,
                        old(self).tables,
                        white,
                        old(self).last_dest,
                        legal@,
                    ),
                );
                match r {
                    Result::Ok(i) => match_count(sorted, *played) == 1 && i as int == first_match(
                        sorted,
                        *played,
                    ) && i < legal@.len() && final (self).last_dest == Option::Some(
                        sorted[i as int].mv.to,
                    ),
                    Result::Err(e) => (e == RankError::MoveNotFound <==> match_count(
                        sorted,
                        *played,
                    ) == 0) && (e == RankError::DuplicateMoveMatch <==> match_count(sorted, *played)
                        >= 2) && final (self).last_dest == old(self).last_dest,
                }
            }),
    {
        let ghost scored = scored_of(
            self.config@,
            w@,
            self.tables,
            white,
            self.last_dest,
            legal@,
        );
        let sorted = order_moves(&self.config, w, &self.tables, white, &self.last_dest, legal);
        let res = find_rank(&sorted, played);
        match res {
            Result::Ok(i) => {
                proof {
                    broadcast use vstd::seq_lib::group_to_multiset_ensures;

                    lemma_sort_desc_multiset(scored);
                    let si = sorted@[i as int];
                    assert(sorted@.contains(si));
                    assert(scored.to_multiset().count(si) > 0);
                    assert(scored.contains(si));
                    let j = choose|j: int| 0 <= j < scored.len() && scored[j] == si;
                    assert(scored[j].mv == legal@[j]);
                    assert(si.mv.wf());
                }
                self.last_dest = Option::Some(sorted[i].mv.to);
                Result::Ok(i)
            },
            Result::Err(e) => Result::Err(e),
        }
    }
}

/// For any weight vector and any legal-move set, the produced order is a
/// permutation of the input: nothing is added, dropped or duplicated.  The
/// scored entries carry the input moves position by position, the sorted
/// order holds exactly those entries with their multiplicities, and it is
/// weakly descending by score.
pub proof fn lemma_order_is_permutation(
    cfg: Seq<FeatureKind>,
    w: Seq<i64>,
    tables: ProbTables,
    white: bool,
    last_dest: Option<u8>,
    legal: Seq<MoveCand>,
)
    ensures
        ({
            let scored = scored_of(cfg, w, tables, white, last_dest, legal);
            let sorted = sort_desc_spec(scored);
            &&& sorted.len() == legal.len()
            &&& sorted.to_multiset() == scored.to_multiset()
            &&& scored.map_values(|sm: ScoredMove| sm.mv) == legal
            &&& sorted_desc(sorted)
        }),
{
    let scored = scored_of(cfg, w, tables, white, last_dest, legal);
    lemma_sort_desc_multiset(scored);
    lemma_sort_desc_sorted(scored);
    assert(scored.map_values(|sm: ScoredMove| sm.mv) =~= legal);
}

/// The ranker is deterministic: identical feature lists, weights, tables,
/// side to move, carried state and legal moves always yield the identical
/// order, and the identical rank for any played pattern.
pub proof fn lemma_rank_deterministic(
    cfg1: Seq<FeatureKind>,
    w1: Seq<i64>,
    tables1: ProbTables,
    white1: bool,
    last1: Option<u8>,
    legal1: Seq<MoveCand>,
    p1: MovePattern,
    cfg2: Seq<FeatureKind>,
    w2: Seq<i64>,
    tables2: ProbTables,
    white2: bool,
    last2: Option<u8>,
    legal2: Seq<MoveCand>,
    p2: MovePattern,
)
    requires
        cfg1 == cfg2,
        w1 == w2,
        tables1 == tables2,
        white1 == white2,
        last1 == last2,
        legal1 == legal2,
        p1 == p2,
    ensures
        sort_desc_spec(scored_of(cfg1, w1, tables1, white1, last1, legal1)) == sort_desc_spec(
            scored_of(cfg2, w2, tables2, white2, last2, legal2),
        ),
        first_match(sort_desc_spec(scored_of(cfg1, w1, tables1, white1, last1, legal1)), p1)
            == first_match(
            sort_desc_spec(scored_of(cfg2, w2, tables2, white2, last2, legal2)),
            p2,
        ),
        match_count(sort_desc_spec(scored_of(cfg1, w1, tables1, white1, last1, legal1)), p1)
            == match_count(
            sort_desc_spec(scored_of(cfg2, w2, tables2, white2, last2, legal2)),
            p2,
        ),
{
}

/// Extending a prefix by one entry extends its match count, and fixes the
/// first match once one exists.
proof fn lemma_match_step(pre: Seq<ScoredMove>, cur: Seq<ScoredMove>, p: MovePattern, i: int)
    requires
        cur.len() == i + 1,
        pre == cur.subrange(0, i),
        pre.len() == i,
        i >= 0,
    ensures
        match_count(cur, p) == match_count(pre, p) + (if pattern_matches(p, cur[i].mv) {
            1int
        } else {
            0int
        }),
        match_count(pre, p) >= 1 ==> first_match(cur, p) == first_match(pre, p),
        match_count(pre, p) == 0 && pattern_matches(p, cur[i].mv) ==> first_match(cur, p) == i,
    decreases i,
{
    if i == 0 {
        assert(cur.drop_first() =~= Seq::<ScoredMove>::empty());
        assert(pre.len() == 0);
        assert(match_count(Seq::<ScoredMove>::empty(), p) == 0);
        assert(match_count(pre, p) == 0);
        assert(match_count(cur, p) == (if pattern_matches(p, cur[0].mv) {
            1int
        } else {
            0int
        }) + match_count(cur.drop_first(), p));
    } else {
        let pre1 = pre.drop_first();
        let cur1 = cur.drop_first();
        assert(pre1 =~= cur1.subrange(0, i - 1));
        lemma_match_step(pre1, cur1, p, i - 1);
        assert(pre[0] == cur[0]);
        assert(cur1[i - 1] == cur[i]);
        assert(match_count(cur, p) == (if pattern_matches(p, cur[0].mv) {
            1int
        } else {
            0int
        }) + match_count(cur1, p));
        assert(match_count(pre, p) == (if pattern_matches(p, pre[0].mv) {
            1int
        } else {
            0int
        }) + match_count(pre1, p));
    }
}

} // verus!
