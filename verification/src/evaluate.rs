use vstd::prelude::*;
use crate::sums::{sum_where, lemma_sum_where_mono_pred, lemma_sum_where_same,
    lemma_sum_where_mono_upto, lemma_sum_where_nonneg, lemma_sum_where_zero_span,
    lemma_sum_where_disjoint};
use crate::index::PresenceIndex;
use crate::{Combination, valid_subset};

verus! {

/// Node `n` is core for the subset `ss`: every genome of the subset
/// touches it.
pub open spec fn in_core(ix: PresenceIndex, ss: Seq<usize>, n: int) -> bool {
    forall|i: int| 0 <= i < ss.len() ==> ix.touches(#[trigger] ss[i] as int, n)
}

/// Node `n` is in the pangenome of the subset `ss`: at least one genome of
/// the subset touches it.
pub open spec fn in_pan(ix: PresenceIndex, ss: Seq<usize>, n: int) -> bool {
    exists|i: int| 0 <= i < ss.len() && ix.touches(#[trigger] ss[i] as int, n)
}

pub open spec fn core_pred(ix: PresenceIndex, ss: Seq<usize>) -> spec_fn(int) -> bool {
    |n: int| in_core(ix, ss, n)
}

pub open spec fn pan_pred(ix: PresenceIndex, ss: Seq<usize>) -> spec_fn(int) -> bool {
    |n: int| in_pan(ix, ss, n)
}

/// Nodes that genome `g` adds to the pangenome of the subset `prev`.
pub open spec fn new_pred(ix: PresenceIndex, prev: Seq<usize>, g: int) -> spec_fn(int) -> bool {
    |n: int| ix.touches(g, n) && !in_pan(ix, prev, n)
}

/// Core-genome length of a subset: summed length of the nodes every
/// selected genome touches.
pub open spec fn core_sum(ix: PresenceIndex, ss: Seq<usize>) -> int {
    sum_where(ix.node_lengths@, core_pred(ix, ss), ix.num_nodes())
}

/// Pangenome length of a subset: summed length of the nodes at least one
/// selected genome touches.
pub open spec fn pan_sum(ix: PresenceIndex, ss: Seq<usize>) -> int {
    sum_where(ix.node_lengths@, pan_pred(ix, ss), ix.num_nodes())
}

/// The next node bound during a walk of a sorted node list: the node at
/// position `j`, or the node count once the list is exhausted.
pub open spec fn walk_bound(lst: Seq<usize>, j: int, n: int) -> int {
    if j < lst.len() {
        lst[j] as int
    } else {
        n
    }
}

/// No node of the span `[a, b)` appears in genome `g`'s sorted node list,
/// so the genome touches none of them.
proof fn lemma_no_touch_span(ix: PresenceIndex, g: int, a: int, b: int)
    requires
        ix.wf(),
        0 <= g < ix.num_genomes(),
        0 <= a,
        b <= ix.num_nodes(),
        ix.num_nodes() <= usize::MAX as int,
        forall|i: int|
            0 <= i < ix.genome_nodes@[g]@.len()
                ==> !(a <= #[trigger] ix.genome_nodes@[g]@[i] < b),
    ensures
        forall|m: int| a <= m < b ==> !ix.touches(g, m),
{
    assert forall|m: int| a <= m < b implies !ix.touches(g, m) by {
        if ix.touches(g, m) {
            let mu = m as usize;
            assert(mu as int == m);
            assert(ix.touches(g, mu as int));
            assert(ix.genome_nodes@[g]@.contains(mu));
            let i = choose|i: int|
                0 <= i < ix.genome_nodes@[g]@.len() && ix.genome_nodes@[g]@[i] == mu;
            assert(!(a <= ix.genome_nodes@[g]@[i] < b));
        }
    }
}

/// Any sum of node lengths over a predicate stays within the total graph
/// length, which itself fits in `u64`.
proof fn lemma_pred_sum_bounds(ix: PresenceIndex, p: spec_fn(int) -> bool, upto: int)
    requires
        ix.wf(),
        0 <= upto <= ix.num_nodes(),
    ensures
        0 <= sum_where(ix.node_lengths@, p, upto) <= ix.total_len_spec(),
{
    lemma_sum_where_nonneg(ix.node_lengths@, p, upto);
    lemma_sum_where_mono_pred(ix.node_lengths@, p, |n: int| true, upto);
    lemma_sum_where_mono_upto(ix.node_lengths@, |n: int| true, upto, ix.num_nodes());
}

/// Adding genome `g` to a subset grows the pangenome by exactly the nodes
/// `g` touches that no earlier genome of the subset touched.
pub proof fn lemma_pan_extend(ix: PresenceIndex, prev: Seq<usize>, g: usize)
    requires
        ix.wf(),
        (g as int) < ix.num_genomes(),
    ensures
        pan_sum(ix, prev.push(g)) == pan_sum(ix, prev) + sum_where(
            ix.node_lengths@,
            new_pred(ix, prev, g as int),
            ix.num_nodes(),
        ),
{
    let nl = ix.node_lengths@;
    let pushed = prev.push(g);
    assert forall|m: int| 0 <= m < ix.num_nodes() implies (#[trigger] pan_pred(ix, pushed)(m)
        <==> (pan_pred(ix, prev)(m) || new_pred(ix, prev, g as int)(m))) by {
        if in_pan(ix, pushed, m) {
            let i = choose|i: int|
                0 <= i < pushed.len() && ix.touches(#[trigger] pushed[i] as int, m);
            if i < prev.len() {
                assert(prev[i] == pushed[i]);
                assert(in_pan(ix, prev, m));
            } else {
                assert(pushed[i] == g);
            }
        }
        if in_pan(ix, prev, m) {
            let i = choose|i: int|
                0 <= i < prev.len() && ix.touches(#[trigger] prev[i] as int, m);
            assert(pushed[i] == prev[i]);
            assert(in_pan(ix, pushed, m));
        }
        if ix.touches(g as int, m) {
            assert(pushed[prev.len() as int] == g);
            assert(in_pan(ix, pushed, m));
        }
    }
    lemma_sum_where_disjoint(
        nl,
        pan_pred(ix, prev),
        new_pred(ix, prev, g as int),
        pan_pred(ix, pushed),
        ix.num_nodes(),
    );
}

impl PresenceIndex {
    /// Core-genome length of the subset: total length of the nodes touched
    /// by every selected genome. Walks only the sorted node list of the
    /// selected genome with the fewest nodes, checking the others through
    /// the membership rows.
    pub fn core_length(&self, subset: &Vec<usize>) -> (r: u64)
        requires
            self.wf(),
            subset@.len() >= 1,
            valid_subset(subset@, self.num_genomes() as nat, subset@.len() as nat),
        ensures
            r as int == core_sum(*self, subset@),
    {
        let ghost ixg = *self;
        let ghost ss = subset@;
        let ghost nl = self.node_lengths@;
        let ghost nn = self.num_nodes();
        let nnum = self.node_lengths.len();
        proof {
            assert(nn == nnum as int);
        }
        let ghost p = core_pred(*self, subset@);
        // Pick the selected genome with the fewest touched nodes.
        let mut g_min: usize = subset[0];
        let mut t: usize = 1;
        while t < subset.len()
            invariant
                1 <= t <= ss.len(),
                ss == subset@,
                self.wf(),
                valid_subset(ss, self.num_genomes() as nat, ss.len() as nat),
                exists|wi: int| 0 <= wi < ss.len() && ss[wi] == g_min,
                (g_min as int) < self.num_genomes(),
            decreases ss.len() - t,
        {
            if self.genome_nodes[subset[t]].len() < self.genome_nodes[g_min].len() {
                g_min = subset[t];
                proof {
                    assert(ss[t as int] == g_min);
                }
            }
            t = t + 1;
        }
        let ghost gl = self.genome_nodes@[g_min as int]@;
        let mut acc: u64 = 0;
        let mut j: usize = 0;
        proof {
            // Nothing below the first listed node is core.
            lemma_no_touch_span(*self, g_min as int, 0, walk_bound(gl, 0, nn));
            assert forall|m: int| 0 <= m < walk_bound(gl, 0, nn) implies !(#[trigger] p(m)) by {
                let wi = choose|wi: int| 0 <= wi < ss.len() && ss[wi] == g_min;
                assert(!ixg.touches(ss[wi] as int, m));
            }
            lemma_sum_where_zero_span(nl, p, 0, walk_bound(gl, 0, nn));
        }
        while j < self.genome_nodes[g_min].len()
            invariant
                j <= gl.len(),
                ss == subset@,
                nl == self.node_lengths@,
                nn == self.num_nodes(),
                nn <= usize::MAX as int,
                p == core_pred(*self, subset@),
                ixg == *self,
                gl == self.genome_nodes@[g_min as int]@,
                self.wf(),
                valid_subset(ss, self.num_genomes() as nat, ss.len() as nat),
                ss.len() >= 1,
                exists|wi: int| 0 <= wi < ss.len() && ss[wi] == g_min,
                (g_min as int) < self.num_genomes(),
                acc as int == sum_where(nl, p, walk_bound(gl, j as int, nn)),
            decreases gl.len() - j,
        {
            let v = self.genome_nodes[g_min][j];
            // Is the node core: do all selected genomes touch it?
            let mut all = true;
            let mut t: usize = 0;
            while t < subset.len()
                invariant
                    t <= ss.len(),
                    ss == subset@,
                    ixg == *self,
                    self.wf(),
                    valid_subset(ss, self.num_genomes() as nat, ss.len() as nat),
                    (v as int) < self.num_nodes(),
                    all == (forall|i: int|
                        0 <= i < t ==> ixg.touches(#[trigger] ss[i] as int, v as int)),
                decreases ss.len() - t,
            {
                let gg = subset[t];
                all = all && self.presence[gg][v];
                t = t + 1;
            }
            proof {
                assert(all == in_core(ixg, ss, v as int));
                assert(p(v as int) == in_core(ixg, ss, v as int));
                // The span from the next node to the next listed node holds
                // no core node.
                let nb = walk_bound(gl, j + 1, nn);
                assert forall|i: int|
                    0 <= i < gl.len() implies !(v as int + 1 <= #[trigger] gl[i] < nb) by {
                    if i <= j {
                        assert(gl[i] <= gl[j as int]);
                    }
                }
                lemma_no_touch_span(*self, g_min as int, v as int + 1, nb);
                assert forall|m: int| v as int + 1 <= m < nb implies !(#[trigger] p(m)) by {
                    let wi = choose|wi: int| 0 <= wi < ss.len() && ss[wi] == g_min;
                    assert(!ixg.touches(ss[wi] as int, m));
                }
                lemma_sum_where_zero_span(nl, p, v as int + 1, nb);
                lemma_pred_sum_bounds(ixg, p, v as int + 1);
            }
            if all {
                acc = acc + self.node_lengths[v];
            }
            j = j + 1;
        }
        acc
    }

    /// Pangenome length of the subset: total length of the nodes touched by
    /// at least one selected genome. Walks the sorted node lists of the
    /// selected genomes, counting each node for the first genome that
    /// touches it.
    pub fn pangenome_length(&self, subset: &Vec<usize>) -> (r: u64)
        requires
            self.wf(),
            subset@.len() >= 1,
            valid_subset(subset@, self.num_genomes() as nat, subset@.len() as nat),
        ensures
            r as int == pan_sum(*self, subset@),
    {
        let ghost ixg = *self;
        let ghost ss = subset@;
        let ghost nl = self.node_lengths@;
        let ghost nn = self.num_nodes();
        let nnum = self.node_lengths.len();
        proof {
            assert(nn == nnum as int);
        }
        let mut acc: u64 = 0;
        let mut i: usize = 0;
        proof {
            assert(ss.take(0) =~= Seq::<usize>::empty());
            assert forall|m: int| 0 <= m < nn implies !(#[trigger] pan_pred(ixg, ss.take(0))(
                m,
            )) by {
                assert(!in_pan(ixg, ss.take(0), m));
            }
            lemma_sum_where_zero_span(nl, pan_pred(ixg, ss.take(0)), 0, nn);
        }
        while i < subset.len()
            invariant
                i <= ss.len(),
                ss == subset@,
                nl == self.node_lengths@,
                nn == self.num_nodes(),
                nn <= usize::MAX as int,
                ixg == *self,
                self.wf(),
                valid_subset(ss, self.num_genomes() as nat, ss.len() as nat),
                acc as int == pan_sum(ixg, ss.take(i as int)),
            decreases ss.len() - i,
        {
            let g = subset[i];
            let ghost prev = ss.take(i as int);
            let ghost np = new_pred(ixg, prev, g as int);
            let ghost gl = self.genome_nodes@[g as int]@;
            let mut j: usize = 0;
            proof {
                lemma_no_touch_span(*self, g as int, 0, walk_bound(gl, 0, nn));
                assert forall|m: int| 0 <= m < walk_bound(gl, 0, nn) implies !(#[trigger] np(
                    m,
                )) by {
                    assert(!ixg.touches(g as int, m));
                }
                lemma_sum_where_zero_span(nl, np, 0, walk_bound(gl, 0, nn));
            }
            while j < self.genome_nodes[g].len()
                invariant
                    j <= gl.len(),
                    i < ss.len(),
                    ss == subset@,
                    nl == self.node_lengths@,
                    nn == self.num_nodes(),
                    nn <= usize::MAX as int,
                    ixg == *self,
                    self.wf(),
                    valid_subset(ss, self.num_genomes() as nat, ss.len() as nat),
                    g == ss[i as int],
                    prev == ss.take(i as int),
                    np == new_pred(ixg, prev, g as int),
                    gl == self.genome_nodes@[g as int]@,
                    acc as int == pan_sum(ixg, prev) + sum_where(
                        nl,
                        np,
                        walk_bound(gl, j as int, nn),
                    ),
                decreases gl.len() - j,
            {
                let v = self.genome_nodes[g][j];
                // Did an earlier selected genome already touch this node?
                let mut seen = false;
                let mut t: usize = 0;
                while t < i
                    invariant
                        t <= i,
                        i < ss.len(),
                        ss == subset@,
                        ixg == *self,
                        self.wf(),
                        valid_subset(ss, self.num_genomes() as nat, ss.len() as nat),
                        (v as int) < self.num_nodes(),
                        seen == (exists|u: int|
                            0 <= u < t && ixg.touches(#[trigger] ss[u] as int, v as int)),
                    decreases i - t,
                {
                    let gg = subset[t];
                    seen = seen || self.presence[gg][v];
                    proof {
                        if self.presence@[gg as int]@[v as int] {
                            assert(ixg.touches(ss[t as int] as int, v as int));
                        }
                    }
                    t = t + 1;
                }
                proof {
                    // `seen` says whether an earlier genome already counted
                    // this node.
                    if seen {
                        let u = choose|u: int|
                            0 <= u < i && ixg.touches(#[trigger] ss[u] as int, v as int);
                        assert(prev[u] == ss[u]);
                        assert(in_pan(ixg, prev, v as int));
                    }
                    if in_pan(ixg, prev, v as int) {
                        let u = choose|u: int|
                            0 <= u < prev.len() && ixg.touches(
                                #[trigger] prev[u] as int,
                                v as int,
                            );
                        assert(prev[u] == ss[u]);
                    }
                    assert(np(v as int) == (ixg.touches(g as int, v as int) && !seen));
                    assert(ixg.touches(g as int, v as int));
                    // Skip to the next listed node: nothing in between is new.
                    let nb = walk_bound(gl, j + 1, nn);
                    assert forall|ii: int|
                        0 <= ii < gl.len() implies !(v as int + 1 <= #[trigger] gl[ii] < nb) by {
                        if ii <= j {
                            assert(gl[ii] <= gl[j as int]);
                        }
                    }
                    lemma_no_touch_span(*self, g as int, v as int + 1, nb);
                    assert forall|m: int| v as int + 1 <= m < nb implies !(#[trigger] np(m)) by {
                        assert(!ixg.touches(g as int, m));
                    }
                    lemma_sum_where_zero_span(nl, np, v as int + 1, nb);
                    // The running value stays within the total graph length.
                    lemma_pan_extend(ixg, prev, g);
                    lemma_sum_where_mono_upto(nl, np, v as int + 1, nn);
                    lemma_sum_where_nonneg(nl, np, v as int + 1);
                    lemma_pred_sum_bounds(ixg, pan_pred(ixg, prev.push(g)), nn);
                    lemma_pred_sum_bounds(ixg, pan_pred(ixg, prev), nn);
                    lemma_sum_where_nonneg(nl, np, nn);
                }
                if !seen {
                    acc = acc + self.node_lengths[v];
                }
                j = j + 1;
            }
            proof {
                lemma_pan_extend(ixg, prev, g);
                assert(ss.take(i as int + 1) =~= prev.push(g));
            }
            i = i + 1;
        }
        proof {
            assert(ss.take(ss.len() as int) =~= ss);
        }
        acc
    }
}

/// The result of evaluating one combination: the identifying pair and the
/// two foundational quantities.
#[derive(Clone, Copy, PartialEq, Eq, Debug)]
pub struct EvaluationResult {
    pub subset_size: usize,
    pub iteration_index: usize,
    pub core_length: u64,
    pub pangenome_length: u64,
}

/// Evaluate one combination against the presence index. Pure: the index is
/// only read.
pub fn one_iteration(ix: &PresenceIndex, c: &Combination) -> (r: EvaluationResult)
    requires
        ix.wf(),
        c.wf(ix.num_genomes() as nat),
        c.size >= 1,
    ensures
        r.subset_size == c.size,
        r.iteration_index == c.iteration,
        r.core_length as int == core_sum(*ix, c.genomes@),
        r.pangenome_length as int == pan_sum(*ix, c.genomes@),
{
    let core = ix.core_length(&c.genomes);
    let pan = ix.pangenome_length(&c.genomes);
    EvaluationResult {
        subset_size: c.size,
        iteration_index: c.iteration,
        core_length: core,
        pangenome_length: pan,
    }
}

/// Evaluate every combination, in the order given, into a result sequence
/// of the same order.
pub fn evaluate_all(ix: &PresenceIndex, combos: &Vec<Combination>) -> (res: Vec<EvaluationResult>)
    requires
        ix.wf(),
        forall|i: int|
            0 <= i < combos@.len() ==> (#[trigger] combos@[i]).wf(ix.num_genomes() as nat)
                && combos@[i].size >= 1,
    ensures
        res@.len() == combos@.len(),
        forall|i: int|
            0 <= i < combos@.len() ==> {
                &&& (#[trigger] res@[i]).subset_size == combos@[i].size
                &&& res@[i].iteration_index == combos@[i].iteration
                &&& res@[i].core_length as int == core_sum(*ix, combos@[i].genomes@)
                &&& res@[i].pangenome_length as int == pan_sum(*ix, combos@[i].genomes@)
            },
{
    let mut res: Vec<EvaluationResult> = Vec::new();
    let mut i: usize = 0;
    while i < combos.len()
        invariant
            i <= combos@.len(),
            ix.wf(),
            forall|t: int|
                0 <= t < combos@.len() ==> (#[trigger] combos@[t]).wf(ix.num_genomes() as nat)
                    && combos@[t].size >= 1,
            res@.len() == i,
            forall|t: int|
                0 <= t < i ==> {
                    &&& (#[trigger] res@[t]).subset_size == combos@[t].size
                    &&& res@[t].iteration_index == combos@[t].iteration
                    &&& res@[t].core_length as int == core_sum(*ix, combos@[t].genomes@)
                    &&& res@[t].pangenome_length as int == pan_sum(*ix, combos@[t].genomes@)
                },
        decreases combos@.len() - i,
    {
        let r = one_iteration(ix, &combos[i]);
        res.push(r);
        i = i + 1;
    }
    res
}

/// The genome subset holding every genome of the run.
pub open spec fn all_genomes(count: nat) -> Seq<usize> {
    Seq::new(count, |i: int| i as usize)
}

/// Node `n` is touched by at least one genome of the whole run.
pub open spec fn covered(ix: PresenceIndex, n: int) -> bool {
    exists|g: int| 0 <= g < ix.num_genomes() && ix.touches(g, n)
}

/// The core of a subset never exceeds its pangenome.
pub proof fn lemma_core_within_pan(ix: PresenceIndex, ss: Seq<usize>)
    requires
        ix.wf(),
        ss.len() >= 1,
    ensures
        0 <= core_sum(ix, ss) <= pan_sum(ix, ss) <= ix.total_len_spec(),
{
    assert forall|m: int| 0 <= m < ix.num_nodes() && #[trigger] core_pred(ix, ss)(m)
        implies pan_pred(ix, ss)(m) by {
        assert(ix.touches(ss[0] as int, m));
    }
    lemma_sum_where_mono_pred(ix.node_lengths@, core_pred(ix, ss), pan_pred(ix, ss), ix.num_nodes());
    lemma_pred_sum_bounds(ix, core_pred(ix, ss), ix.num_nodes());
    lemma_pred_sum_bounds(ix, pan_pred(ix, ss), ix.num_nodes());
}

/// For a subset of one genome, core and pangenome both equal that genome's
/// total sequence length.
pub proof fn lemma_singleton_lengths(ix: PresenceIndex, g: usize)
    requires
        ix.wf(),
        (g as int) < ix.num_genomes(),
    ensures
        core_sum(ix, seq![g]) == ix.genome_len_spec(g as int),
        pan_sum(ix, seq![g]) == ix.genome_len_spec(g as int),
{
    let ss = seq![g];
    assert(ss.len() == 1 && ss[0] == g);
    assert forall|m: int| 0 <= m < ix.num_nodes() implies (#[trigger] core_pred(ix, ss)(m)
        <==> ix.touches(g as int, m)) by {
        if ix.touches(g as int, m) {
            assert forall|i: int| 0 <= i < ss.len() implies ix.touches(
                #[trigger] ss[i] as int, m) by {
                assert(ss[i] == g);
            }
        }
    }
    assert forall|m: int| 0 <= m < ix.num_nodes() implies (#[trigger] pan_pred(ix, ss)(m)
        <==> ix.touches(g as int, m)) by {
        if ix.touches(g as int, m) {
            assert(ix.touches(ss[0] as int, m));
        }
    }
    lemma_sum_where_same(
        ix.node_lengths@,
        core_pred(ix, ss),
        |n: int| ix.touches(g as int, n),
        ix.num_nodes(),
    );
    lemma_sum_where_same(
        ix.node_lengths@,
        pan_pred(ix, ss),
        |n: int| ix.touches(g as int, n),
        ix.num_nodes(),
    );
}

/// For the subset of all genomes, the pangenome is the summed length of the
/// covered nodes; when every node is covered, it is the whole graph's
/// length.
pub proof fn lemma_full_subset_pan(ix: PresenceIndex)
    requires
        ix.wf(),
        ix.num_genomes() <= usize::MAX as int,
    ensures
        pan_sum(ix, all_genomes(ix.num_genomes() as nat)) == sum_where(
            ix.node_lengths@,
            |n: int| covered(ix, n),
            ix.num_nodes(),
        ),
        (forall|n: int| 0 <= n < ix.num_nodes() ==> covered(ix, n)) ==> pan_sum(
            ix,
            all_genomes(ix.num_genomes() as nat),
        ) == ix.total_len_spec(),
{
    let ss = all_genomes(ix.num_genomes() as nat);
    assert forall|m: int| 0 <= m < ix.num_nodes() implies (#[trigger] pan_pred(ix, ss)(m)
        <==> covered(ix, m)) by {
        if in_pan(ix, ss, m) {
            let i = choose|i: int| 0 <= i < ss.len() && ix.touches(#[trigger] ss[i] as int, m);
            assert(ss[i] == i as usize);
            assert(i as usize as int == i);
        }
        if covered(ix, m) {
            let g = choose|g: int| 0 <= g < ix.num_genomes() && ix.touches(g, m);
            assert(ss[g] == g as usize);
            assert(g as usize as int == g);
            assert(ix.touches(ss[g] as int, m));
        }
    }
    lemma_sum_where_same(
        ix.node_lengths@,
        pan_pred(ix, ss),
        |n: int| covered(ix, n),
        ix.num_nodes(),
    );
    if forall|n: int| 0 <= n < ix.num_nodes() ==> covered(ix, n) {
        lemma_sum_where_same(
            ix.node_lengths@,
            |n: int| covered(ix, n),
            |n: int| true,
            ix.num_nodes(),
        );
    }
}

/// Growing a subset by one genome never shrinks the pangenome and never
/// grows the core.
pub proof fn lemma_monotone_step(ix: PresenceIndex, ss: Seq<usize>, g: usize)
    requires
        ix.wf(),
    ensures
        pan_sum(ix, ss.push(g)) >= pan_sum(ix, ss),
        core_sum(ix, ss.push(g)) <= core_sum(ix, ss),
{
    let pushed = ss.push(g);
    assert forall|m: int| 0 <= m < ix.num_nodes() && #[trigger] pan_pred(ix, ss)(m)
        implies pan_pred(ix, pushed)(m) by {
        let i = choose|i: int| 0 <= i < ss.len() && ix.touches(#[trigger] ss[i] as int, m);
        assert(pushed[i] == ss[i]);
        assert(in_pan(ix, pushed, m));
    }
    assert forall|m: int| 0 <= m < ix.num_nodes() && #[trigger] core_pred(ix, pushed)(m)
        implies core_pred(ix, ss)(m) by {
        assert forall|i: int| 0 <= i < ss.len() implies ix.touches(
            #[trigger] ss[i] as int, m) by {
            assert(pushed[i] == ss[i]);
        }
    }
    lemma_sum_where_mono_pred(ix.node_lengths@, pan_pred(ix, ss), pan_pred(ix, pushed), ix.num_nodes());
    lemma_sum_where_mono_pred(ix.node_lengths@, core_pred(ix, pushed), core_pred(ix, ss), ix.num_nodes());
}

/// Every combination of the list is well formed for a run with `n` genomes
/// and nonempty, so the list can be evaluated.
pub fn check_combinations(combos: &Vec<Combination>, n: usize) -> (r: bool)
    ensures
        r == (forall|i: int|
            0 <= i < combos@.len() ==> (#[trigger] combos@[i]).wf(n as nat) && combos@[i].size
                >= 1),
{
    let mut i: usize = 0;
    while i < combos.len()
        invariant
            i <= combos@.len(),
            forall|t: int|
                0 <= t < i ==> (#[trigger] combos@[t]).wf(n as nat) && combos@[t].size >= 1,
        decreases combos@.len() - i,
    {
        let c = &combos[i];
        if c.size == 0 || c.genomes.len() != c.size {
            proof {
                if combos@[i as int].size != 0 {
                    assert(combos@[i as int].genomes@.len() != combos@[i as int].size);
                    assert(!combos@[i as int].wf(n as nat));
                }
            }
            return false;
        }
        let mut t: usize = 0;
        let mut sorted = true;
        while t < c.genomes.len()
            invariant
                t <= c.genomes@.len(),
                i < combos@.len(),
                c == &combos@[i as int],
                sorted == (forall|a: int, b: int|
                    0 <= a < b < t ==> c.genomes@[a] < c.genomes@[b]) && (forall|a: int|
                    0 <= a < t ==> #[trigger] c.genomes@[a] < n),
            decreases c.genomes@.len() - t,
        {
            if c.genomes[t] >= n {
                proof {
                    assert(combos@[i as int].genomes@[t as int] >= n);
                    assert(!combos@[i as int].wf(n as nat));
                }
                return false;
            }
            if t >= 1 && c.genomes[t - 1] >= c.genomes[t] {
                sorted = false;
            }
            proof {
                if sorted {
                    assert forall|a: int, b: int|
                        0 <= a < b < t + 1 implies c.genomes@[a] < c.genomes@[b] by {
                        if b == t && a < t - 1 {
                            assert(c.genomes@[a] < c.genomes@[t - 1]);
                        }
                    }
                }
            }
            t = t + 1;
        }
        if !sorted {
            proof {
                assert(!combos@[i as int].wf(n as nat));
            }
            return false;
        }
        i = i + 1;
    }
    true
}

/// The closed set of metrics a result row can report, each derived from
/// the two foundational quantities.
#[derive(Clone, Copy, PartialEq, Eq, Debug)]
pub enum Metric {
    CoreLength,
    PangenomeLength,
}

impl Metric {
    /// The reported value of one evaluation under this metric.
    pub fn value_of(&self, r: &EvaluationResult) -> (v: u64)
        ensures
            *self == Metric::CoreLength ==> v == r.core_length,
            *self == Metric::PangenomeLength ==> v == r.pangenome_length,
    {
        match self {
            Metric::CoreLength => r.core_length,
            Metric::PangenomeLength => r.pangenome_length,
        }
    }
}

} // verus!
