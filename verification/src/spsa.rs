//! Simultaneous-perturbation stochastic approximation over the batch loss.
//!
//! The optimizer keeps the weight vector and an iteration counter.  Each
//! step draws an ensemble of random perturbations, evaluates the batch loss
//! at the weights moved up and down by each perturbation (all evaluations of
//! one step share the same batch), sums the per-ensemble finite-difference
//! gradient estimates — deliberately a sum, not an average, which biases the
//! effective step size upward with the ensemble size — and moves the weights
//! against the estimate.  Weights are held
//! inside the fixed-point domain by saturation; the gain schedule uses
//! dyadic-rational exponents, computed exactly in fixed point.  Every value
//! is an exact integer, so a whole run is a pure function of the seed, the
//! hyperparameters and the corpus.

use vstd::prelude::*;

use crate::batch::{capped_loss_spec, batch_loss, games_wf, Game, LOSS_CAP, RANK_ALPHABET};
use crate::fixmath::{clamp_i, gain_div, pow_frac};
use crate::ranker::{FeatureKind, MoveRanker, WEIGHT_MAX};
use crate::rng::{draw_spec, next_state_spec, next_word_spec, XorShift};

verus! {

/// Truncating signed division, as the update rule uses it: the quotient of
/// the magnitudes, with the sign of the exact quotient.
pub open spec fn tdiv(n: int, d: int) -> int
    recommends
        d != 0,
{
    if n >= 0 && d > 0 {
        n / d
    } else if n <= 0 && d < 0 {
        (-n) / (-d)
    } else if n < 0 {
        -((-n) / d)
    } else {
        -(n / (-d))
    }
}

/// The magnitude of a truncating quotient never exceeds the numerator's.
pub proof fn lemma_tdiv_bound(n: int, d: int)
    requires
        d != 0,
        -0x100000000000000 <= n <= 0x100000000000000,
    ensures
        -0x100000000000000 <= tdiv(n, d) <= 0x100000000000000,
{
    let m = if n >= 0 {
        n
    } else {
        -n
    };
    let e = if d >= 0 {
        d
    } else {
        -d
    };
    assert(m / e <= m) by (nonlinear_arith)
        requires m >= 0, e >= 1;
    vstd::arithmetic::div_mod::lemma_div_pos_is_pos(m, e);
}

/// Fixed hyperparameters of a run.  `a_par` and `noise_var` are in
/// thousandths; the gain exponents are the dyadic rationals
/// `alpha_num / 2^alpha_logden` and `gamma_num / 2^gamma_logden`.
#[derive(Debug)]
pub struct HyperParameters {
    pub alpha_num: u32,
    pub alpha_logden: u32,
    pub gamma_num: u32,
    pub gamma_logden: u32,
    pub theta: Vec<i64>,
    pub a_par: u64,
    pub noise_var: u64,
    pub stability_offset: u32,
    pub ens_size: u32,
    pub draw_range: u32,
    pub seed: u32,
}

impl HyperParameters {
    pub open spec fn wf(self) -> bool {
        &&& 1 <= self.alpha_logden <= 7
        &&& 1 <= self.gamma_logden <= 7
        &&& 4 <= self.theta@.len() <= 6
        &&& forall|i: int| 0 <= i < self.theta@.len() ==> -WEIGHT_MAX <= #[trigger] self.theta@[i]
            <= WEIGHT_MAX
        &&& self.a_par <= 1000000
        &&& 1 <= self.noise_var <= 1000000
        &&& self.stability_offset <= 1000000
        &&& 1 <= self.ens_size <= 64
        &&& 1 <= self.draw_range <= 1000
    }

    /// Starts a run: the optimizer takes the starting weights, a zeroed
    /// iteration counter and the seeded generator.
    pub fn spsa(&self) -> (r: Spsa)
        requires
            self.wf(),
            self.noise_var > 0,
        ensures
            r.params.wf(),
            r.params.alpha_num == self.alpha_num,
            r.params.alpha_logden == self.alpha_logden,
            r.params.gamma_num == self.gamma_num,
            r.params.gamma_logden == self.gamma_logden,
            r.params.theta@ == self.theta@,
            r.params.a_par == self.a_par,
            r.params.noise_var == self.noise_var,
            r.params.stability_offset == self.stability_offset,
            r.params.ens_size == self.ens_size,
            r.params.draw_range == self.draw_range,
            r.params.seed == self.seed,
            r.k == 0,
            r.theta@ == self.theta@,
            r.rng@ == (
                (if self.seed == 0 {
                    0x193a6754u32
                } else {
                    self.seed
                }),
                0xa8a7d469u32,
                0x97830e05u32,
                0x113ba7bbu32,
            ),
            r.wf(),
    {
        let theta: Vec<i64> = copy_weights(&self.theta);
        let theta_p: Vec<i64> = copy_weights(&self.theta);
        let params = HyperParameters {
            alpha_num: self.alpha_num,
            alpha_logden: self.alpha_logden,
            gamma_num: self.gamma_num,
            gamma_logden: self.gamma_logden,
            theta: theta_p,
            a_par: self.a_par,
            noise_var: self.noise_var,
            stability_offset: self.stability_offset,
            ens_size: self.ens_size,
            draw_range: self.draw_range,
            seed: self.seed,
        };
        Spsa { rng: XorShift::from_seed(self.seed), k: 0, theta, params }
    }
}

impl Default for HyperParameters {
    /// The stock configuration: exponents near 0.7 and 0.101 (as 11/16 and
    /// 13/128), four zero weights, scale 0.7, noise scale 1.8, offset 100,
    /// ensemble of three, draws from -4..=4, and the fixed default seed.
    fn default() -> (r: HyperParameters)
        ensures
            r.wf(),
            r.alpha_num == 11 && r.alpha_logden == 4,
            r.gamma_num == 13 && r.gamma_logden == 7,
            r.theta@ =~= seq![0i64, 0i64, 0i64, 0i64],
            r.a_par == 700 && r.noise_var == 1800,
            r.stability_offset == 100 && r.ens_size == 3 && r.draw_range == 4,
            r.seed == 0,
    {
        let mut theta: Vec<i64> = Vec::new();
        theta.push(0);
        theta.push(0);
        theta.push(0);
        theta.push(0);
        HyperParameters {
            alpha_num: 11,
            alpha_logden: 4,
            gamma_num: 13,
            gamma_logden: 7,
            theta,
            a_par: 700,
            noise_var: 1800,
            stability_offset: 100,
            ens_size: 3,
            draw_range: 4,
            seed: 0,
        }
    }
}

/// Step-size gain of iteration `k`, in thousandths:
/// `a / (k + 1 + stability_offset) ^ alpha`.
pub open spec fn a_k_spec(p: HyperParameters, k: u32) -> int {
    (p.a_par as int * 0x100000) / pow_frac(
        k as int + 1 + p.stability_offset as int,
        p.alpha_num as int,
        p.alpha_logden as nat,
    )
}

/// Perturbation gain of iteration `k`, in thousandths:
/// `c0 / (k + 1) ^ gamma`.
pub open spec fn c_k_spec(p: HyperParameters, k: u32) -> int {
    (p.noise_var as int * 0x100000) / pow_frac(
        k as int + 1,
        p.gamma_num as int,
        p.gamma_logden as nat,
    )
}

/// The integer draws of one perturbation vector, oldest first, with the
/// generator state after them.
pub open spec fn draw_seq_rec(s: (u32, u32, u32, u32), n: nat, range: u32) -> (
    Seq<int>,
    (u32, u32, u32, u32),
)
    decreases n,
{
    if n == 0 {
        (Seq::empty(), s)
    } else {
        let (pre, s1) = draw_seq_rec(s, (n - 1) as nat, range);
        (pre.push(draw_spec(next_word_spec(s1), range)), next_state_spec(s1))
    }
}

/// A perturbation vector: each draw scaled by the perturbation gain.
pub open spec fn delta_seq(draws: Seq<int>, ck: int) -> Seq<int> {
    draws.map_values(|d: int| ck * d)
}

/// Weights moved by a perturbation and saturated into the weight domain.
pub open spec fn probe_spec(theta: Seq<i64>, delta: Seq<int>, plus: bool) -> Seq<i64> {
    Seq::new(
        theta.len(),
        |i: int| clamp_i(
            theta[i] as int + (if plus {
                delta[i]
            } else {
                -delta[i]
            }),
            -WEIGHT_MAX as int,
            WEIGHT_MAX as int,
        ) as i64,
    )
}

/// One ensemble member's contribution to the gradient estimate: components
/// with a zero perturbation are excluded, never divided by.
pub open spec fn ghat_after(g: Seq<i64>, delta: Seq<int>, jp: int, jm: int) -> Seq<i64> {
    Seq::new(
        g.len(),
        |i: int| if delta[i] == 0 {
            g[i]
        } else {
            (g[i] as int + tdiv((jp - jm) * 1000, 2 * delta[i])) as i64
        },
    )
}

/// The summed gradient estimate, generator state and loss total after the
/// first `e` ensemble members of one step.
pub open spec fn ensemble_rec(
    cfg: Seq<FeatureKind>,
    tables: crate::ranker::ProbTables,
    games: Seq<Game>,
    theta: Seq<i64>,
    ck: int,
    range: u32,
    s: (u32, u32, u32, u32),
    e: nat,
) -> (Seq<i64>, (u32, u32, u32, u32), int)
    decreases e,
{
    if e == 0 {
        (Seq::new(theta.len(), |i: int| 0i64), s, 0)
    } else {
        let (g0, s0, tot0) = ensemble_rec(cfg, tables, games, theta, ck, range, s, (e - 1) as nat);
        let (draws, s1) = draw_seq_rec(s0, theta.len(), range);
        let delta = delta_seq(draws, ck);
        let jp = capped_loss_spec(
            cfg,
            probe_spec(theta, delta, true),
            tables,
            games,
            RANK_ALPHABET as nat,
        );
        let jm = capped_loss_spec(
            cfg,
            probe_spec(theta, delta, false),
            tables,
            games,
            RANK_ALPHABET as nat,
        );
        (ghat_after(g0, delta, jp, jm), s1, tot0 + jp + jm)
    }
}

/// The weights after one update: moved against the summed estimate, scaled
/// by the step gain, and saturated into the weight domain.
pub open spec fn theta_after(theta: Seq<i64>, ak: int, g: Seq<i64>) -> Seq<i64> {
    Seq::new(
        theta.len(),
        |i: int| clamp_i(
            theta[i] as int - tdiv(ak * (g[i] as int), 1000),
            -WEIGHT_MAX as int,
            WEIGHT_MAX as int,
        ) as i64,
    )
}

/// The observability record of one step.
pub struct StepRecord {
    /// The iteration the step carried out.
    pub iteration: u32,
    /// Realized average loss of the step's evaluations, in thousandths of a
    /// byte per game.
    pub avg_loss_milli: u64,
    /// The weights after the update, in thousandths.
    pub theta: Vec<i64>,
}

/// The optimizer state: generator, iteration counter, weights and the fixed
/// hyperparameters.
pub struct Spsa {
    pub rng: XorShift,
    pub k: u32,
    pub theta: Vec<i64>,
    pub params: HyperParameters,
}

impl Spsa {
    pub open spec fn wf(self) -> bool {
        &&& self.params.wf()
        &&& self.theta@.len() == self.params.theta@.len()
        &&& forall|i: int| 0 <= i < self.theta@.len() ==> -WEIGHT_MAX <= #[trigger] self.theta@[i]
            <= WEIGHT_MAX
        &&& self.k <= 0x40000000
    }

    /// The current weight vector, in thousandths.
    pub fn theta(&self) -> (r: Vec<i64>)
        ensures
            r@ == self.theta@,
    {
        copy_weights(&self.theta)
    }

    /// One optimizer step over one batch of games.
    ///
    /// Draws `ens_size` perturbations, evaluates the batch loss at the
    /// weights moved up and down by each (all on this same batch), sums the
    /// finite-difference estimates, updates the weights and advances the
    /// iteration counter.  Returns the step's observability record.
    #[verifier::loop_isolation(false)]
    #[verifier::rlimit(100)]
    pub fn step(&mut self, ranker: &mut MoveRanker, games: &Vec<Game>) -> (r: StepRecord)
        requires
            old(self).wf(),
            old(self).k < 0x40000000,
            old(ranker).wf(),
            old(self).theta@.len() == old(ranker).config@.len(),
            games_wf(games@),
            1 <= games@.len(),
        ensures
            final (self).wf(),
            final (ranker).wf(),
            final (ranker).config == old(ranker).config,
            final (ranker).tables == old(ranker).tables,
            final (self).params == old(self).params,
            final (self).k == old(self).k + 1,
            ({
                let ck = c_k_spec(old(self).params, old(self).k);
                let ak = a_k_spec(old(self).params, old(self).k);
                let (g, s2, tot) = ensemble_rec(
                    old(ranker).config@,
                    old(ranker).tables,
                    games@,
                    old(self).theta@,
                    ck,
                    old(self).params.draw_range,
                    old(self).rng@,
                    old(self).params.ens_size as nat,
                );
                &&& final (self).rng@ == s2
                &&& final (self).theta@ == theta_after(old(self).theta@, ak, g)
                &&& r.iteration == old(self).k
                &&& r.avg_loss_milli as int == tot / (2 * old(self).params.ens_size as int)
                &&& r.theta@ == final (self).theta@
            }),
    {
        let iter: u32 = self.k;
        let ghost p = self.params;
        let ghost k0 = self.k;
        let ghost theta0 = self.theta@;
        let ghost cfg = ranker.config@;
        let ghost cfg_vec = ranker.config;
        let ghost tables = ranker.tables;
        let ghost s_init = self.rng@;
        let arity: usize = self.theta.len();
        let offs: u64 = (self.params.stability_offset as u64) + 1 + (self.k as u64);
        let ak: u64 = gain_div(
            self.params.a_par,
            offs,
            self.params.alpha_num,
            self.params.alpha_logden,
        );
        let ck: u64 = gain_div(
            self.params.noise_var,
            (self.k as u64) + 1,
            self.params.gamma_num,
            self.params.gamma_logden,
        );
        proof {
            assert(ak as int == a_k_spec(p, k0));
            assert(ck as int == c_k_spec(p, k0));
        }
        let mut ghat: Vec<i64> = Vec::new();
        let mut i: usize = 0;
        while i < arity
            invariant
                i <= arity,
                ghat@.len() == i,
                forall|j: int| 0 <= j < i ==> ghat@[j] == 0i64,
            decreases arity - i,
        {
            ghat.push(0);
            i = i + 1;
        }
        let mut total: u64 = 0;
        let mut e: usize = 0;
        proof {
            assert(ghat@ =~= ensemble_rec(cfg, tables, games@, theta0, ck as int, p.draw_range,
            s_init, 0).0);
        }
        while e < self.params.ens_size as usize
            invariant
                e <= p.ens_size as usize,
                self.params == p,
                self.k == k0,
                self.theta@ == theta0,
                self.wf(),
                ranker.wf(),
                ranker.config == cfg_vec,
                ranker.config@ == cfg,
                ranker.tables == tables,
                games_wf(games@),
                1 <= games@.len(),
                arity == theta0.len(),
                arity == cfg.len(),
                ck as int == c_k_spec(p, k0),
                ck <= 1000000,
                ghat@.len() == arity,
                ({
                    let (g, s, tot) = ensemble_rec(cfg, tables, games@, theta0, ck as int,
                    p.draw_range, s_init, e as nat);
                    &&& ghat@ == g
                    &&& self.rng@ == s
                    &&& total as int == tot
                }),
                total <= 2 * (e as int) * (LOSS_CAP as int),
                forall|j: int| 0 <= j < arity ==> -0x100000000000000 * (e as int) <= (
                #[trigger] ghat@[j] as int) <= 0x100000000000000 * (e as int),
            decreases p.ens_size - e,
        {
            let ghost s0 = self.rng@;
            let ghost g_pre = ghat@;
            let ghost tot_pre = total as int;
            // draw one perturbation vector
            let mut delta: Vec<i64> = Vec::new();
            let mut j: usize = 0;
            while j < arity
                invariant
                    j <= arity,
                    self.params == p,
                    self.k == k0,
                    self.theta@ == theta0,
                    self.wf(),
                    delta@.len() == j,
                    ck <= 1000000,
                    ({
                        let (dr, s1) = draw_seq_rec(s0, j as nat, p.draw_range);
                        &&& self.rng@ == s1
                        &&& forall|t: int| 0 <= t < j ==> #[trigger] delta@[t] as int == (
                        ck as int) * dr[t]
                        &&& dr.len() == j
                    }),
                    forall|t: int| 0 <= t < j ==> -1000000000 <= #[trigger] delta@[t]
                        <= 1000000000,
                decreases arity - j,
            {
                let d: i64 = self.rng.draw(self.params.draw_range);
                proof {
                    assert(-1000000000 <= (ck as int) * (d as int) <= 1000000000)
                        by (nonlinear_arith)
                        requires
                            0 <= (ck as int) <= 1000000,
                            -1000 <= (d as int) <= 1000,
                    ;
                }
                let dd: i64 = (ck as i64) * d;
                delta.push(dd);
                j = j + 1;
                proof {
                    let (dr_new, s_new) = draw_seq_rec(s0, j as nat, p.draw_range);
                    let (dr_old, s_old) = draw_seq_rec(s0, (j - 1) as nat, p.draw_range);
                    assert(dr_new == dr_old.push(draw_spec(next_word_spec(s_old), p.draw_range)));
                    assert(s_new == next_state_spec(s_old));
                }
            }
            // probe weights up and down
            let theta_plus: Vec<i64> = probe_exec(&self.theta, &delta, true);
            let theta_minus: Vec<i64> = probe_exec(&self.theta, &delta, false);
            let ghost dseq = delta_seq(draw_seq_rec(s0, arity as nat, p.draw_range).0, ck as int);
            proof {
                assert(forall|t: int| 0 <= t < arity ==> #[trigger] dseq[t] == delta@[t] as int);
                assert(dseq =~= delta@.map_values(|x: i64| x as int));
                assert(theta_plus@ =~= probe_spec(theta0, dseq, true));
                assert(theta_minus@ =~= probe_spec(theta0, dseq, false));
            }
            // two loss evaluations on the same batch
            let jp: u64 = batch_loss(ranker, &theta_plus, games, RANK_ALPHABET);
            let jm: u64 = batch_loss(ranker, &theta_minus, games, RANK_ALPHABET);
            total = total + jp + jm;
            // accumulate the finite-difference estimate, skipping zeros
            let diff: i64 = (jp as i64) - (jm as i64);
            let n: i64 = diff * 1000;
            let mut t: usize = 0;
            while t < arity
                invariant
                    t <= arity,
                    ghat@.len() == arity,
                    delta@.len() == arity,
                    n as int == ((jp as int) - (jm as int)) * 1000,
                    -0x10000000000000 <= n <= 0x10000000000000,
                    jp <= LOSS_CAP,
                    jm <= LOSS_CAP,
                    forall|q: int| 0 <= q < arity ==> -1000000000 <= #[trigger] delta@[q]
                        <= 1000000000,
                    forall|q: int| 0 <= q < arity ==> #[trigger] dseq[q] == delta@[q] as int,
                    dseq.len() == arity,
                    forall|q: int| 0 <= q < t ==> #[trigger] ghat@[q] as int == ghat_after(
                        g_pre,
                        dseq,
                        jp as int,
                        jm as int,
                    )[q],
                    forall|q: int| t <= q < arity ==> #[trigger] ghat@[q] == g_pre[q],
                    g_pre.len() == arity,
                    forall|q: int| 0 <= q < arity ==> -0x100000000000000 * (e as int) <= (
                    #[trigger] g_pre[q] as int) <= 0x100000000000000 * (e as int),
                    e < p.ens_size as usize <= 64,
                decreases arity - t,
            {
                let dt: i64 = delta[t];
                if dt != 0 {
                    let den: i64 = 2 * dt;
                    let term: i64 = tdiv_exec(n, den);
                    proof {
                        lemma_tdiv_bound(n as int, den as int);
                    }
                    let cur: i64 = ghat[t];
                    ghat.set(t, cur + term);
                }
                t = t + 1;
            }
            proof {
                assert(ghat@ =~= ghat_after(g_pre, dseq, jp as int, jm as int));
            }
            e = e + 1;
            proof {
                let (g_new, s_new, tot_new) = ensemble_rec(cfg, tables, games@, theta0,
                ck as int, p.draw_range, s_init, e as nat);
                assert(g_new == ghat_after(g_pre, dseq, jp as int, jm as int));
                assert(s_new == self.rng@);
                assert(tot_new == tot_pre + jp as int + jm as int);
                assert forall|q: int| 0 <= q < arity implies -0x100000000000000 * (e as int) <= (
                #[trigger] ghat@[q] as int) <= 0x100000000000000 * (e as int) by {
                    if dseq[q] != 0 {
                        lemma_tdiv_bound(((jp as int) - (jm as int)) * 1000, 2 * dseq[q]);
                    }
                }
            }
        }
        // update the weights against the summed estimate
        let mut i2: usize = 0;
        let ghost g_fin = ghat@;
        let ghost s_fin = self.rng@;
        while i2 < arity
            invariant
                i2 <= arity,
                self.params == p,
                self.k == k0,
                self.rng@ == s_fin,
                self.theta@.len() == arity,
                arity == theta0.len(),
                ghat@ == g_fin,
                ghat@.len() == arity,
                ak <= 1000000,
                ak as int == a_k_spec(p, k0),
                forall|q: int| 0 <= q < arity ==> -0x4000000000000000 <= (#[trigger] g_fin[
                q] as int) <= 0x4000000000000000,
                forall|q: int| i2 <= q < arity ==> #[trigger] self.theta@[q] == theta0[q],
                forall|q: int| 0 <= q < i2 ==> #[trigger] self.theta@[q] == theta_after(
                    theta0,
                    ak as int,
                    g_fin,
                )[q],
            decreases arity - i2,
        {
            let g: i64 = ghat[i2];
            proof {
                assert(-0x40000000000000000000000 <= (ak as int) * (g as int)
                    <= 0x40000000000000000000000) by (nonlinear_arith)
                    requires
                        0 <= (ak as int) <= 1000000,
                        -0x4000000000000000 <= (g as int) <= 0x4000000000000000,
                ;
            }
            let prod: i128 = (ak as i128) * (g as i128);
            let mag: i128 = if prod >= 0 {
                prod / 1000
            } else {
                -((-prod) / 1000)
            };
            let cur: i64 = self.theta[i2];
            let moved: i128 = (cur as i128) - mag;
            let clamped: i64 = if moved < -(WEIGHT_MAX as i128) {
                -WEIGHT_MAX
            } else if moved > WEIGHT_MAX as i128 {
                WEIGHT_MAX
            } else {
                moved as i64
            };
            proof {
                assert(mag as int == tdiv(ak as int * (g as int), 1000)) by {
                    if prod >= 0 {
                    } else {
                    }
                }
                assert(clamped as int == clamp_i(
                    theta0[i2 as int] as int - tdiv(ak as int * (g_fin[i2 as int] as int), 1000),
                    -WEIGHT_MAX as int,
                    WEIGHT_MAX as int,
                ));
            }
            self.theta.set(i2, clamped);
            i2 = i2 + 1;
        }
        proof {
            assert(self.theta@ =~= theta_after(theta0, ak as int, g_fin));
        }
        self.k = self.k + 1;
        let denom: u64 = 2 * (self.params.ens_size as u64);
        let avg: u64 = total / denom;
        let theta_out: Vec<i64> = self.theta();
        StepRecord { iteration: iter, avg_loss_milli: avg, theta: theta_out }
    }
}

/// Exec truncating division.
fn tdiv_exec(n: i64, d: i64) -> (r: i64)
    requires
        d != 0,
        -0x100000000000000 <= n <= 0x100000000000000,
        -0x100000000000000 <= d <= 0x100000000000000,
    ensures
        r as int == tdiv(n as int, d as int),
        -0x100000000000000 <= r <= 0x100000000000000,
{
    proof {
        lemma_tdiv_bound(n as int, d as int);
    }
    let nm: i64 = if n >= 0 {
        n
    } else {
        -n
    };
    let dm: i64 = if d >= 0 {
        d
    } else {
        -d
    };
    let q: i64 = nm / dm;
    proof {
        vstd::arithmetic::div_mod::lemma_div_pos_is_pos(nm as int, dm as int);
        assert((nm as int) / (dm as int) <= nm as int) by (nonlinear_arith)
            requires nm as int >= 0, dm as int >= 1;
    }
    if (n >= 0) == (d >= 0) {
        q
    } else {
        -q
    }
}

/// Exec mirror of one probe.
fn probe_exec(theta: &Vec<i64>, delta: &Vec<i64>, plus: bool) -> (r: Vec<i64>)
    requires
        theta@.len() == delta@.len(),
        forall|i: int| 0 <= i < theta@.len() ==> -WEIGHT_MAX <= #[trigger] theta@[i] <= WEIGHT_MAX,
        forall|i: int| 0 <= i < delta@.len() ==> -1000000000 <= #[trigger] delta@[i] <= 1000000000,
    ensures
        r@ == probe_spec(theta@, delta@.map_values(|x: i64| x as int), plus),
        r@.len() == theta@.len(),
        forall|i: int| 0 <= i < r@.len() ==> -WEIGHT_MAX <= #[trigger] r@[i] <= WEIGHT_MAX,
{
    let ghost dseq = delta@.map_values(|x: i64| x as int);
    let mut r: Vec<i64> = Vec::new();
    let mut i: usize = 0;
    while i < theta.len()
        invariant
            i <= theta@.len(),
            theta@.len() == delta@.len(),
            r@.len() == i,
            dseq == delta@.map_values(|x: i64| x as int),
            forall|j: int| 0 <= j < theta@.len() ==> -WEIGHT_MAX <= #[trigger] theta@[j]
                <= WEIGHT_MAX,
            forall|j: int| 0 <= j < delta@.len() ==> -1000000000 <= #[trigger] delta@[j]
                <= 1000000000,
            forall|j: int| 0 <= j < i ==> #[trigger] r@[j] == probe_spec(theta@, dseq, plus)[j],
            forall|j: int| 0 <= j < i ==> -WEIGHT_MAX <= #[trigger] r@[j] <= WEIGHT_MAX,
        decreases theta@.len() - i,
    {
        let d: i64 = if plus {
            delta[i]
        } else {
            -delta[i]
        };
        let moved: i64 = theta[i] + d;
        let clamped: i64 = if moved < -WEIGHT_MAX {
            -WEIGHT_MAX
        } else if moved > WEIGHT_MAX {
            WEIGHT_MAX
        } else {
            moved
        };
        r.push(clamped);
        i = i + 1;
    }
    proof {
        assert(r@ =~= probe_spec(theta@, dseq, plus));
    }
    r
}

/// An exact copy of a weight vector.
fn copy_weights(v: &Vec<i64>) -> (r: Vec<i64>)
    ensures
        r@ == v@,
{
    let mut r: Vec<i64> = Vec::new();
    let mut i: usize = 0;
    while i < v.len()
        invariant
            i <= v@.len(),
            r@ == v@.subrange(0, i as int),
        decreases v@.len() - i,
    {
        r.push(v[i]);
        i = i + 1;
    }
    proof {
        assert(v@.subrange(0, v@.len() as int) =~= v@);
    }
    r
}

/// A zero perturbation component contributes nothing to the estimate:
/// excluded, not divided by and not treated as an error.
pub proof fn lemma_zero_delta_component_skipped(
    g: Seq<i64>,
    delta: Seq<int>,
    jp: int,
    jm: int,
    i: int,
)
    requires
        0 <= i < g.len(),
        delta[i] == 0,
    ensures
        ghat_after(g, delta, jp, jm)[i] == g[i],
{
}

/// Equal paired losses leave the whole estimate untouched.
pub proof fn lemma_equal_losses_leave_ghat(g: Seq<i64>, delta: Seq<int>, jp: int, jm: int)
    requires
        jp == jm,
    ensures
        ghat_after(g, delta, jp, jm) == g,
{
    assert forall|i: int| 0 <= i < g.len() implies ghat_after(g, delta, jp, jm)[i] == g[i] by {
        if delta[i] != 0 {
            assert(tdiv(0, 2 * delta[i]) == 0) by {
                if delta[i] > 0 {
                    assert(0int / (2 * delta[i]) == 0) by (nonlinear_arith)
                        requires delta[i] > 0;
                } else {
                    assert(0int / (-(2 * delta[i])) == 0) by (nonlinear_arith)
                        requires delta[i] < 0;
                }
            }
        }
    }
    assert(ghat_after(g, delta, jp, jm) =~= g);
}

/// With a loss that is constant in the weights, every step's summed
/// gradient estimate is the zero vector and the weights do not move.
pub proof fn lemma_constant_loss_keeps_theta(
    cfg: Seq<FeatureKind>,
    tables: crate::ranker::ProbTables,
    games: Seq<Game>,
    theta: Seq<i64>,
    ck: int,
    ak: int,
    range: u32,
    s: (u32, u32, u32, u32),
    e: nat,
)
    requires
        forall|w1: Seq<i64>, w2: Seq<i64>| capped_loss_spec(cfg, w1, tables, games,
        RANK_ALPHABET as nat) == capped_loss_spec(cfg, w2, tables, games, RANK_ALPHABET as nat),
        forall|i: int| 0 <= i < theta.len() ==> -WEIGHT_MAX <= #[trigger] theta[i] <= WEIGHT_MAX,
    ensures
        ensemble_rec(cfg, tables, games, theta, ck, range, s, e).0 == Seq::new(
            theta.len(),
            |i: int| 0i64,
        ),
        theta_after(theta, ak, ensemble_rec(cfg, tables, games, theta, ck, range, s, e).0)
            == theta,
    decreases e,
{
    let zero = Seq::new(theta.len(), |i: int| 0i64);
    if e == 0 {
    } else {
        lemma_constant_loss_keeps_theta(cfg, tables, games, theta, ck, ak, range, s, (e
            - 1) as nat);
        let (g0, s0, tot0) = ensemble_rec(cfg, tables, games, theta, ck, range, s, (e - 1) as nat);
        let (draws, s1) = draw_seq_rec(s0, theta.len(), range);
        let delta = delta_seq(draws, ck);
        let jp = capped_loss_spec(cfg, probe_spec(theta, delta, true), tables, games,
        RANK_ALPHABET as nat);
        let jm = capped_loss_spec(cfg, probe_spec(theta, delta, false), tables, games,
        RANK_ALPHABET as nat);
        assert(jp == jm);
        lemma_equal_losses_leave_ghat(g0, delta, jp, jm);
    }
    let g = ensemble_rec(cfg, tables, games, theta, ck, range, s, e).0;
    assert forall|i: int| 0 <= i < theta.len() implies theta_after(theta, ak, g)[i] == theta[i] by {
        assert(g[i] == 0i64);
        assert(ak * (0i64 as int) == 0) by (nonlinear_arith);
        assert(tdiv(0, 1000) == 0) by {
            assert(0int / 1000 == 0);
        }
        assert(clamp_i(theta[i] as int, -WEIGHT_MAX as int, WEIGHT_MAX as int) == theta[i] as int);
    }
    assert(theta_after(theta, ak, g) =~= theta);
}

} // verus!
