//! Rank histogram and optimal prefix-code bit cost.
//!
//! The model accumulates a fixed-size histogram of observed ranks.  On
//! request it measures the total bits a Huffman code, built for the add-one
//! smoothed frequencies, needs for the raw counts.  The cost is computed by
//! the merge recursion itself: every merge of two clusters lengthens the code
//! of each symbol below them by one bit, so it contributes the merged
//! smoothed weight minus the merged symbol count (the smoothing surplus) to
//! the total.  The recursion always merges the two smallest weights, first
//! occurrences first, so the cost is a pure function of the histogram and
//! equals the total code length of a reference Huffman construction.

use vstd::prelude::*;

verus! {

/// Ceiling on the moves one model may count; keeps every weight sum far from
/// the integer limits.
pub const MOVES_CAP: u64 = 0x10000000000;

/// Sum of a histogram.
pub open spec fn counts_sum(s: Seq<u64>) -> int
    decreases s.len(),
{
    if s.len() == 0 {
        0
    } else {
        s[0] as int + counts_sum(s.drop_first())
    }
}

proof fn lemma_counts_sum_push(s: Seq<u64>, x: u64)
    ensures
        counts_sum(s.push(x)) == counts_sum(s) + x as int,
    decreases s.len(),
{
    if s.len() == 0 {
        assert(s.push(x).drop_first() =~= Seq::<u64>::empty());
        assert(s.push(x)[0] == x);
        assert(counts_sum(Seq::<u64>::empty()) == 0);
        assert(counts_sum(s) == 0);
        assert(counts_sum(s.push(x)) == counts_sum(s) + x as int);
    } else {
        assert(s.push(x).drop_first() =~= s.drop_first().push(x));
        assert(s.push(x)[0] == s[0]);
        lemma_counts_sum_push(s.drop_first(), x);
        assert(s.push(x).len() == s.len() + 1 > 0);
        assert(counts_sum(s.push(x)) == s.push(x)[0] as int + counts_sum(
            s.push(x).drop_first(),
        ));
        assert(counts_sum(s) == s[0] as int + counts_sum(s.drop_first()));
    }
}

proof fn lemma_counts_sum_update(s: Seq<u64>, i: int, v: u64)
    requires
        0 <= i < s.len(),
    ensures
        counts_sum(s.update(i, v)) == counts_sum(s) - s[i] + v as int,
    decreases s.len(),
{
    if i == 0 {
        assert(s.update(0, v).drop_first() =~= s.drop_first());
    } else {
        assert(s.update(i, v).drop_first() =~= s.drop_first().update(i - 1, v));
        lemma_counts_sum_update(s.drop_first(), i - 1, v);
    }
}

/// In a histogram every entry is at most the sum.
proof fn lemma_count_le_sum(s: Seq<u64>, i: int)
    requires
        0 <= i < s.len(),
    ensures
        s[i] as int <= counts_sum(s),
        counts_sum(s) >= 0,
    decreases s.len(),
{
    lemma_counts_sum_nonneg(s.drop_first());
    if i == 0 {
    } else {
        lemma_count_le_sum(s.drop_first(), i - 1);
    }
}

proof fn lemma_counts_sum_nonneg(s: Seq<u64>)
    ensures
        counts_sum(s) >= 0,
    decreases s.len(),
{
    if s.len() > 0 {
        lemma_counts_sum_nonneg(s.drop_first());
    }
}

/// Merge nodes: (smoothed weight, symbol count).
pub open spec fn node_seq(counts: Seq<u64>) -> Seq<(int, int)> {
    counts.map_values(|c: u64| (c as int + 1, 1int))
}

/// Index of the first minimal weight.
pub open spec fn argmin_w(ns: Seq<(int, int)>) -> int
    decreases ns.len(),
{
    if ns.len() <= 1 {
        0
    } else {
        let j = argmin_w(ns.drop_first());
        if ns[0].0 <= ns[j + 1].0 {
            0
        } else {
            j + 1
        }
    }
}

/// The first-minimum characterization of `argmin_w`.
pub proof fn lemma_argmin(ns: Seq<(int, int)>)
    requires
        ns.len() >= 1,
    ensures
        0 <= argmin_w(ns) < ns.len(),
        forall|j: int| 0 <= j < ns.len() ==> ns[argmin_w(ns)].0 <= #[trigger] ns[j].0,
        forall|j: int| 0 <= j < argmin_w(ns) ==> #[trigger] ns[j].0 > ns[argmin_w(ns)].0,
    decreases ns.len(),
{
    if ns.len() <= 1 {
    } else {
        lemma_argmin(ns.drop_first());
        let j = argmin_w(ns.drop_first());
        assert forall|k: int| 0 <= k < ns.len() implies ns[argmin_w(ns)].0 <= #[trigger] ns[k].0 by {
            if k > 0 {
                assert(ns.drop_first()[k - 1] == ns[k]);
                assert(ns.drop_first()[j] == ns[j + 1]);
            }
        }
        assert forall|k: int| 0 <= k < argmin_w(ns) implies #[trigger] ns[k].0 > ns[argmin_w(
            ns,
        )].0 by {
            if k > 0 {
                assert(ns.drop_first()[k - 1] == ns[k]);
                assert(ns.drop_first()[j] == ns[j + 1]);
            }
        }
    }
}

/// Total bits of the Huffman merge recursion: each merge contributes its
/// merged weight minus its merged symbol count.
pub open spec fn hb(ns: Seq<(int, int)>) -> int
    decreases ns.len(),
    via hb_decreases
{
    if ns.len() < 2 {
        0
    } else {
        let i1 = argmin_w(ns);
        let n1 = ns[i1];
        let r1 = ns.remove(i1);
        let i2 = argmin_w(r1);
        let n2 = r1[i2];
        let r2 = r1.remove(i2);
        (n1.0 + n2.0 - n1.1 - n2.1) + hb(r2.push((n1.0 + n2.0, n1.1 + n2.1)))
    }
}

#[via_fn]
proof fn hb_decreases(ns: Seq<(int, int)>) {
    if ns.len() >= 2 {
        lemma_argmin(ns);
        let r1 = ns.remove(argmin_w(ns));
        lemma_argmin(r1);
    }
}

/// Bits needed by the reference Huffman code over the add-one smoothed
/// histogram to encode the raw counts.
pub open spec fn huffman_bits_spec(counts: Seq<u64>) -> int {
    hb(node_seq(counts))
}

/// Sum of the node weights.
pub open spec fn sum_w(ns: Seq<(int, int)>) -> int
    decreases ns.len(),
{
    if ns.len() == 0 {
        0
    } else {
        ns[0].0 + sum_w(ns.drop_first())
    }
}

/// Every node has a weight at least its symbol count, which is positive.
pub open spec fn all_pos(ns: Seq<(int, int)>) -> bool {
    forall|i: int| 0 <= i < ns.len() ==> (#[trigger] ns[i]).0 >= ns[i].1 >= 1
}

proof fn lemma_sum_w_push(ns: Seq<(int, int)>, x: (int, int))
    ensures
        sum_w(ns.push(x)) == sum_w(ns) + x.0,
    decreases ns.len(),
{
    if ns.len() == 0 {
        assert(ns.push(x).drop_first() =~= Seq::<(int, int)>::empty());
        assert(ns.push(x)[0] == x);
        assert(sum_w(Seq::<(int, int)>::empty()) == 0);
        assert(sum_w(ns) == 0);
        assert(sum_w(ns.push(x)) == sum_w(ns) + x.0);
    } else {
        assert(ns.push(x).drop_first() =~= ns.drop_first().push(x));
        assert(ns.push(x)[0] == ns[0]);
        lemma_sum_w_push(ns.drop_first(), x);
        assert(sum_w(ns.push(x)) == ns.push(x)[0].0 + sum_w(ns.push(x).drop_first()));
        assert(sum_w(ns) == ns[0].0 + sum_w(ns.drop_first()));
    }
}

proof fn lemma_sum_w_remove(ns: Seq<(int, int)>, i: int)
    requires
        0 <= i < ns.len(),
    ensures
        sum_w(ns.remove(i)) == sum_w(ns) - ns[i].0,
    decreases ns.len(),
{
    if i == 0 {
        assert(ns.remove(0) =~= ns.drop_first());
    } else {
        assert(ns.remove(i).drop_first() =~= ns.drop_first().remove(i - 1));
        lemma_sum_w_remove(ns.drop_first(), i - 1);
    }
}

proof fn lemma_w_le_sum(ns: Seq<(int, int)>, i: int)
    requires
        0 <= i < ns.len(),
        all_pos(ns),
    ensures
        ns[i].0 <= sum_w(ns),
        sum_w(ns) >= 0,
    decreases ns.len(),
{
    lemma_sum_w_nonneg(ns.drop_first());
    if i == 0 {
    } else {
        assert(all_pos(ns.drop_first())) by {
            assert(forall|k: int| 0 <= k < ns.drop_first().len() ==> ns.drop_first()[k] == ns[k
                + 1]);
        }
        lemma_w_le_sum(ns.drop_first(), i - 1);
    }
}

proof fn lemma_sum_w_nonneg(ns: Seq<(int, int)>)
    ensures
        all_pos(ns) ==> sum_w(ns) >= 0,
    decreases ns.len(),
{
    if ns.len() > 0 {
        assert(forall|k: int| 0 <= k < ns.drop_first().len() ==> ns.drop_first()[k] == ns[k + 1]);
        lemma_sum_w_nonneg(ns.drop_first());
    }
}

/// Sum of the node symbol counts.
pub open spec fn sum_s(ns: Seq<(int, int)>) -> int
    decreases ns.len(),
{
    if ns.len() == 0 {
        0
    } else {
        ns[0].1 + sum_s(ns.drop_first())
    }
}

proof fn lemma_sum_s_push(ns: Seq<(int, int)>, x: (int, int))
    ensures
        sum_s(ns.push(x)) == sum_s(ns) + x.1,
    decreases ns.len(),
{
    if ns.len() == 0 {
        assert(ns.push(x).drop_first() =~= Seq::<(int, int)>::empty());
        assert(ns.push(x)[0] == x);
        assert(sum_s(Seq::<(int, int)>::empty()) == 0);
        assert(sum_s(ns) == 0);
        assert(sum_s(ns.push(x)) == sum_s(ns) + x.1);
    } else {
        assert(ns.push(x).drop_first() =~= ns.drop_first().push(x));
        assert(ns.push(x)[0] == ns[0]);
        lemma_sum_s_push(ns.drop_first(), x);
        assert(sum_s(ns.push(x)) == ns.push(x)[0].1 + sum_s(ns.push(x).drop_first()));
        assert(sum_s(ns) == ns[0].1 + sum_s(ns.drop_first()));
    }
}

proof fn lemma_sum_s_remove(ns: Seq<(int, int)>, i: int)
    requires
        0 <= i < ns.len(),
    ensures
        sum_s(ns.remove(i)) == sum_s(ns) - ns[i].1,
    decreases ns.len(),
{
    if i == 0 {
        assert(ns.remove(0) =~= ns.drop_first());
    } else {
        assert(ns.remove(i).drop_first() =~= ns.drop_first().remove(i - 1));
        lemma_sum_s_remove(ns.drop_first(), i - 1);
    }
}

/// With every weight at least its symbol count, so are the sums.
proof fn lemma_sum_s_le_sum_w(ns: Seq<(int, int)>)
    requires
        all_pos(ns),
    ensures
        0 <= sum_s(ns) <= sum_w(ns),
    decreases ns.len(),
{
    if ns.len() > 0 {
        assert(forall|k: int| 0 <= k < ns.drop_first().len() ==> ns.drop_first()[k] == ns[k + 1]);
        lemma_sum_s_le_sum_w(ns.drop_first());
    }
}

/// One merge step preserves positivity and the weight sum, and the cost
/// recursion stays within linear bounds.
pub proof fn lemma_hb_bound(ns: Seq<(int, int)>)
    requires
        all_pos(ns),
    ensures
        0 <= hb(ns),
        hb(ns) <= (ns.len() as int - 1) * sum_w(ns),
        hb(ns) <= (ns.len() as int - 1) * (sum_w(ns) - sum_s(ns)),
    decreases ns.len(),
{
    lemma_sum_w_nonneg(ns);
    lemma_sum_s_le_sum_w(ns);
    if ns.len() < 2 {
        assert((ns.len() as int - 1) * sum_w(ns) >= 0) by (nonlinear_arith)
            requires sum_w(ns) >= 0 && ns.len() as int - 1 >= -1;
        assert((ns.len() as int - 1) * (sum_w(ns) - sum_s(ns)) >= 0) by (nonlinear_arith)
            requires sum_w(ns) - sum_s(ns) >= 0 && ns.len() as int - 1 >= -1;
    } else {
        let i1 = argmin_w(ns);
        lemma_argmin(ns);
        let n1 = ns[i1];
        let r1 = ns.remove(i1);
        assert(all_pos(r1)) by {
            assert(forall|k: int| 0 <= k < r1.len() ==> r1[k] == (if k < i1 {
                ns[k]
            } else {
                ns[k + 1]
            }));
        }
        let i2 = argmin_w(r1);
        lemma_argmin(r1);
        let n2 = r1[i2];
        let r2 = r1.remove(i2);
        assert(all_pos(r2)) by {
            assert(forall|k: int| 0 <= k < r2.len() ==> r2[k] == (if k < i2 {
                r1[k]
            } else {
                r1[k + 1]
            }));
        }
        let merged = (n1.0 + n2.0, n1.1 + n2.1);
        let nxt = r2.push(merged);
        assert(all_pos(nxt)) by {
            assert(forall|k: int| 0 <= k < r2.len() ==> nxt[k] == r2[k]);
            assert(nxt[nxt.len() - 1] == merged);
        }
        lemma_sum_w_remove(ns, i1);
        lemma_sum_w_remove(r1, i2);
        lemma_sum_w_push(r2, merged);
        lemma_sum_s_remove(ns, i1);
        lemma_sum_s_remove(r1, i2);
        lemma_sum_s_push(r2, merged);
        assert(sum_w(nxt) == sum_w(ns));
        assert(sum_s(nxt) == sum_s(ns));
        lemma_hb_bound(nxt);
        lemma_w_le_sum(ns, i1);
        lemma_sum_w_nonneg(r2);
        lemma_sum_s_le_sum_w(r2);
        assert(n1.0 + n2.0 <= sum_w(ns));
        assert(hb(ns) == (n1.0 + n2.0 - n1.1 - n2.1) + hb(nxt));
        assert(hb(nxt) <= (nxt.len() as int - 1) * sum_w(nxt));
        assert((nxt.len() as int - 1) * sum_w(ns) + sum_w(ns) == (ns.len() as int - 1) * sum_w(
            ns,
        )) by (nonlinear_arith)
            requires nxt.len() == ns.len() - 1;
        // the merged pair's smoothing slack is at most the whole slack
        assert(n1.0 + n2.0 - n1.1 - n2.1 <= sum_w(ns) - sum_s(ns));
        assert(hb(nxt) <= (nxt.len() as int - 1) * (sum_w(nxt) - sum_s(nxt)));
        assert((nxt.len() as int - 1) * (sum_w(ns) - sum_s(ns)) + (sum_w(ns) - sum_s(ns)) == (
        ns.len() as int - 1) * (sum_w(ns) - sum_s(ns))) by (nonlinear_arith)
            requires nxt.len() == ns.len() - 1;
    }
}

/// The bit cost is bounded: never negative, and each of the merge levels
/// (one fewer than there are symbols) costs at most the raw move total.
/// This is the linear bound the merge recursion yields directly; it is
/// weaker than the logarithmic bound an optimality argument would give.
pub proof fn lemma_bits_linear_bound(counts: Seq<u64>)
    requires
        counts.len() >= 1,
    ensures
        0 <= huffman_bits_spec(counts),
        huffman_bits_spec(counts) <= (counts.len() as int - 1) * counts_sum(counts),
{
    lemma_node_seq_all_pos(counts);
    lemma_node_seq_sum(counts);
    lemma_node_seq_sum_s(counts);
    lemma_hb_bound(node_seq(counts));
}

proof fn lemma_node_seq_sum_s(counts: Seq<u64>)
    ensures
        sum_s(node_seq(counts)) == counts.len(),
    decreases counts.len(),
{
    if counts.len() == 0 {
    } else {
        assert(node_seq(counts).drop_first() =~= node_seq(counts.drop_first()));
        lemma_node_seq_sum_s(counts.drop_first());
    }
}

/// The merge nodes of any histogram are positive, with weight at least
/// symbol count.
pub proof fn lemma_node_seq_all_pos(counts: Seq<u64>)
    ensures
        all_pos(node_seq(counts)),
{
    assert(forall|i: int| 0 <= i < counts.len() ==> node_seq(counts)[i] == (
    #[trigger] counts[i] as int + 1, 1int));
}

/// Lift of exec merge nodes into the spec domain.
pub open spec fn lift_nodes(s: Seq<(u64, u64)>) -> Seq<(int, int)> {
    s.map_values(|p: (u64, u64)| (p.0 as int, p.1 as int))
}

/// Accumulates rank frequencies for one batch and reports the bit cost of an
/// optimal prefix code for them.
pub struct RankCostModel {
    /// Histogram over rank symbols 0 .. alphabet-1.
    pub counts: Vec<u64>,
    /// Total ranks accumulated.
    pub moves: u64,
}

impl RankCostModel {
    /// Histogram sums to the accumulated move total, which stays below the
    /// cap, and the alphabet is fixed and small.
    pub open spec fn wf(self) -> bool {
        &&& 1 <= self.counts@.len() <= 1024
        &&& counts_sum(self.counts@) == self.moves as int
        &&& self.moves <= MOVES_CAP
    }

    /// A fresh all-zero histogram over `alphabet` rank symbols.
    pub fn new(alphabet: usize) -> (r: RankCostModel)
        requires
            1 <= alphabet <= 1024,
        ensures
            r.wf(),
            r.counts@.len() == alphabet,
            r.moves == 0,
            forall|i: int| 0 <= i < alphabet ==> r.counts@[i] == 0,
    {
        let mut counts: Vec<u64> = Vec::new();
        let mut i: usize = 0;
        while i < alphabet
            invariant
                i <= alphabet,
                counts@.len() == i,
                counts_sum(counts@) == 0,
                forall|j: int| 0 <= j < i ==> counts@[j] == 0,
            decreases alphabet - i,
        {
            proof {
                lemma_counts_sum_push(counts@, 0);
            }
            counts.push(0);
            i = i + 1;
        }
        RankCostModel { counts, moves: 0 }
    }

    /// The alphabet size.
    pub fn alphabet(&self) -> (r: usize)
        ensures
            r == self.counts@.len(),
    {
        self.counts.len()
    }

    /// The count recorded for one rank symbol.
    pub fn count_at(&self, rank: usize) -> (r: u64)
        requires
            rank < self.counts@.len(),
        ensures
            r == self.counts@[rank as int],
    {
        self.counts[rank]
    }

    /// Records one observed rank.
    pub fn accumulate(&mut self, rank: usize)
        requires
            old(self).wf(),
            rank < old(self).counts@.len(),
            old(self).moves < MOVES_CAP,
        ensures
            final (self).wf(),
            final (self).counts@ == old(self).counts@.update(
                rank as int,
                (old(self).counts@[rank as int] + 1) as u64,
            ),
            final (self).moves == old(self).moves + 1,
            final (self).counts@.len() == old(self).counts@.len(),
    {
        proof {
            lemma_count_le_sum(self.counts@, rank as int);
            lemma_counts_sum_update(
                self.counts@,
                rank as int,
                (self.counts@[rank as int] + 1) as u64,
            );
        }
        let c: u64 = self.counts[rank];
        self.counts.set(rank, c + 1);
        self.moves = self.moves + 1;
    }

    /// Total bits of the reference Huffman code for the smoothed histogram,
    /// weighted by the raw counts.
    pub fn bits(&self) -> (r: u64)
        requires
            self.wf(),
        ensures
            r as int == huffman_bits_spec(self.counts@),
            0 <= r as int <= 1023 * (MOVES_CAP + 1024),
    {
        let ghost init = node_seq(self.counts@);
        let ghost total = sum_w(init);
        proof {
            lemma_node_seq_sum(self.counts@);
            assert(all_pos(init)) by {
                assert(forall|i: int| 0 <= i < self.counts@.len() ==> init[i] == (
                self.counts@[i] as int + 1, 1int));
            }
            lemma_hb_bound(init);
            assert((init.len() as int - 1) * sum_w(init) <= 1023 * (MOVES_CAP + 1024))
                by (nonlinear_arith)
                requires
                    1 <= init.len() <= 1024,
                    0 <= sum_w(init) <= MOVES_CAP + 1024,
            ;
        }
        let mut nodes: Vec<(u64, u64)> = Vec::new();
        let mut i: usize = 0;
        while i < self.counts.len()
            invariant
                self.wf(),
                i <= self.counts@.len(),
                nodes@.len() == i,
                init == node_seq(self.counts@),
                forall|j: int| 0 <= j < i ==> lift_nodes(nodes@)[j] == init[j],
            decreases self.counts@.len() - i,
        {
            proof {
                lemma_count_le_sum(self.counts@, i as int);
            }
            let c: u64 = self.counts[i];
            nodes.push((c + 1, 1));
            i = i + 1;
        }
        proof {
            assert(lift_nodes(nodes@) =~= init);
        }
        let ghost goal = hb(init);
        let mut acc: u64 = 0;
        while nodes.len() >= 2
            invariant
                1 <= nodes@.len() <= 1024,
                all_pos(lift_nodes(nodes@)),
                sum_w(lift_nodes(nodes@)) == total,
                0 <= total <= MOVES_CAP + 1024,
                acc as int + hb(lift_nodes(nodes@)) == goal,
                0 <= goal <= 1023 * (MOVES_CAP + 1024),
                0 <= acc as int <= goal,
            decreases nodes@.len(),
        {
            let ghost cur = lift_nodes(nodes@);
            proof {
                lemma_hb_bound(cur);
            }
            let i1: usize = find_min(&nodes);
            let n1: (u64, u64) = nodes[i1];
            nodes.remove(i1);
            let ghost r1 = lift_nodes(nodes@);
            proof {
                assert(r1 =~= cur.remove(i1 as int));
            }
            let i2: usize = find_min(&nodes);
            let n2: (u64, u64) = nodes[i2];
            nodes.remove(i2);
            let ghost r2 = lift_nodes(nodes@);
            proof {
                assert(r2 =~= cur.remove(i1 as int).remove(i2 as int));
                assert(all_pos(r1)) by {
                    assert(forall|k: int| 0 <= k < r1.len() ==> r1[k] == (if k < i1 as int {
                        cur[k]
                    } else {
                        cur[k + 1]
                    }));
                }
                assert(all_pos(r2)) by {
                    assert(forall|k: int| 0 <= k < r2.len() ==> r2[k] == (if k < i2 as int {
                        r1[k]
                    } else {
                        r1[k + 1]
                    }));
                }
                lemma_sum_w_remove(cur, i1 as int);
                lemma_sum_w_remove(r1, i2 as int);
                lemma_w_le_sum(cur, i1 as int);
                assert(r1[i2 as int].0 <= sum_w(r1)) by {
                    lemma_w_le_sum(r1, i2 as int);
                }
                lemma_sum_w_nonneg(r2);
            }
            let w: u64 = n1.0 + n2.0;
            let s: u64 = n1.1 + n2.1;
            nodes.push((w, s));
            proof {
                let merged = ((n1.0 + n2.0) as int, (n1.1 + n2.1) as int);
                assert(lift_nodes(nodes@) =~= r2.push(merged));
                lemma_sum_w_push(r2, merged);
                assert(hb(cur) == (merged.0 - merged.1) + hb(r2.push(merged)));
                lemma_hb_bound(r2.push(merged));
            }
            acc = acc + (w - s);
        }
        acc
    }

    /// Average bytes per game, in thousandths: bits / (8 * games), i.e.
    /// bits * 125 / games.
    pub fn bytes_per_game_milli(&self, games: u64) -> (r: u64)
        requires
            self.wf(),
            1 <= games,
        ensures
            r as int == huffman_bits_spec(self.counts@) * 125 / games as int,
    {
        let b: u64 = self.bits();
        (b * 125) / games
    }
}

proof fn lemma_node_seq_sum(counts: Seq<u64>)
    ensures
        sum_w(node_seq(counts)) == counts_sum(counts) + counts.len(),
        counts_sum(counts) >= 0,
    decreases counts.len(),
{
    lemma_counts_sum_nonneg(counts);
    if counts.len() == 0 {
    } else {
        assert(node_seq(counts).drop_first() =~= node_seq(counts.drop_first()));
        lemma_node_seq_sum(counts.drop_first());
    }
}

/// Index of the first minimal weight in a nonempty node vector.
fn find_min(nodes: &Vec<(u64, u64)>) -> (r: usize)
    requires
        nodes@.len() >= 1,
    ensures
        r as int == argmin_w(lift_nodes(nodes@)),
        r < nodes@.len(),
{
    let ghost ln = lift_nodes(nodes@);
    proof {
        lemma_argmin(ln);
    }
    let mut best: usize = 0;
    let mut i: usize = 1;
    while i < nodes.len()
        invariant
            nodes@.len() >= 1,
            best < i <= nodes@.len(),
            ln == lift_nodes(nodes@),
            forall|j: int| 0 <= j < i ==> ln[best as int].0 <= #[trigger] ln[j].0,
            forall|j: int| 0 <= j < best ==> #[trigger] ln[j].0 > ln[best as int].0,
        decreases nodes@.len() - i,
    {
        if nodes[i].0 < nodes[best].0 {
            best = i;
        }
        i = i + 1;
    }
    proof {
        let a = argmin_w(ln);
        if a < best {
            assert(ln[a].0 > ln[best as int].0);
            assert(ln[best as int].0 >= ln[a].0);
            assert(false);
        }
        if best < a {
            assert(ln[best as int].0 > ln[a].0);
            assert(ln[a].0 >= ln[best as int].0);
            assert(false);
        }
    }
    best
}

} // verus!
