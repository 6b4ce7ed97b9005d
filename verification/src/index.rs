use vstd::prelude::*;
use crate::sums::{sum_where, sum_all, lemma_sum_where_mono_pred, lemma_sum_where_same,
    lemma_sum_where_mono_upto, lemma_sum_where_nonneg};

verus! {

/// Why building the presence index failed.
#[derive(Clone, Copy, PartialEq, Eq, Debug)]
pub enum IndexError {
    /// A genome mentions a node identifier that the graph does not have.
    NodeOutOfRange,
    /// The summed sequence length of all nodes does not fit in `u64`.
    TotalLengthOverflow,
}

/// Precomputed node-to-genome membership structure, built once per run and
/// read-only afterwards. For each genome it records which nodes the genome
/// touches (as a membership row and, redundantly, as a sorted node list) and
/// the genome's total sequence length over its distinct touched nodes.
pub struct PresenceIndex {
    /// Sequence length of each node; the node identifier is the position.
    pub node_lengths: Vec<u64>,
    /// `presence[g][n]` holds exactly when genome `g` touches node `n`.
    pub presence: Vec<Vec<bool>>,
    /// For each genome, the nodes it touches, strictly ascending.
    pub genome_nodes: Vec<Vec<usize>>,
    /// For each genome, the summed length of its distinct touched nodes.
    pub genome_lengths: Vec<u64>,
}

impl PresenceIndex {
    pub open spec fn num_nodes(self) -> int {
        self.node_lengths@.len() as int
    }

    pub open spec fn num_genomes(self) -> int {
        self.presence@.len() as int
    }

    /// Genome `g` touches node `n`.
    pub open spec fn touches(self, g: int, n: int) -> bool {
        self.presence@[g]@[n]
    }

    /// The total sequence length of genome `g`: the lengths of the distinct
    /// nodes it touches, summed.
    pub open spec fn genome_len_spec(self, g: int) -> int {
        sum_where(self.node_lengths@, |n: int| self.touches(g, n), self.num_nodes())
    }

    /// The summed length of every node of the graph.
    pub open spec fn total_len_spec(self) -> int {
        sum_all(self.node_lengths@)
    }

    pub open spec fn wf(self) -> bool {
        &&& forall|g: int|
            0 <= g < self.num_genomes() ==> (#[trigger] self.presence@[g])@.len()
                == self.num_nodes()
        &&& self.genome_nodes@.len() == self.num_genomes()
        &&& self.genome_lengths@.len() == self.num_genomes()
        &&& forall|g: int, i: int, j: int|
            0 <= g < self.num_genomes() && 0 <= i < j < self.genome_nodes@[g]@.len()
                ==> #[trigger] self.genome_nodes@[g]@[i] < #[trigger] self.genome_nodes@[g]@[j]
        &&& forall|g: int, i: int|
            0 <= g < self.num_genomes() && 0 <= i < self.genome_nodes@[g]@.len()
                ==> #[trigger] self.genome_nodes@[g]@[i] < self.num_nodes()
        &&& forall|g: int, i: int|
            0 <= g < self.num_genomes() && 0 <= i < self.genome_nodes@[g]@.len()
                ==> self.touches(g, #[trigger] self.genome_nodes@[g]@[i] as int)
        &&& forall|g: int, n: usize|
            0 <= g < self.num_genomes() && (n as int) < self.num_nodes() && self.touches(
                g,
                n as int,
            ) ==> #[trigger] self.genome_nodes@[g]@.contains(n)
        &&& forall|g: int|
            0 <= g < self.num_genomes() ==> (#[trigger] self.genome_lengths@[g]) as int
                == self.genome_len_spec(g)
        &&& self.total_len_spec() <= u64::MAX as int
    }
}

/// Sum all node lengths, detecting overflow of `u64` exactly.
fn total_length(node_lengths: &Vec<u64>) -> (r: Result<u64, IndexError>)
    ensures
        match r {
            Ok(t) => t as int == sum_all(node_lengths@),
            Err(e) => e == IndexError::TotalLengthOverflow && sum_all(node_lengths@)
                > u64::MAX as int,
        },
{
    let n = node_lengths.len();
    let mut total: u64 = 0;
    let mut i: usize = 0;
    while i < n
        invariant
            i <= n,
            n == node_lengths@.len(),
            total as int == sum_where(node_lengths@, |m: int| true, i as int),
        decreases n - i,
    {
        let x = node_lengths[i];
        if x > u64::MAX - total {
            proof {
                lemma_sum_where_mono_upto(node_lengths@, |m: int| true, i + 1, n as int);
            }
            return Err(IndexError::TotalLengthOverflow);
        }
        total = total + x;
        i = i + 1;
    }
    Ok(total)
}

/// Build one genome's membership row over all nodes.
fn presence_row(num_nodes: usize, ids: &Vec<usize>) -> (row: Vec<bool>)
    requires
        forall|j: int| 0 <= j < ids@.len() ==> #[trigger] ids@[j] < num_nodes,
    ensures
        row@.len() == num_nodes,
        forall|m: usize| m < num_nodes ==> (#[trigger] row@[m as int] <==> ids@.contains(m)),
{
    let mut row: Vec<bool> = Vec::new();
    let mut k: usize = 0;
    while k < num_nodes
        invariant
            k <= num_nodes,
            row@.len() == k,
            forall|m: int| 0 <= m < k ==> !(#[trigger] row@[m]),
        decreases num_nodes - k,
    {
        row.push(false);
        k = k + 1;
    }
    let mut j: usize = 0;
    while j < ids.len()
        invariant
            j <= ids@.len(),
            row@.len() == num_nodes,
            forall|t: int| 0 <= t < ids@.len() ==> #[trigger] ids@[t] < num_nodes,
            forall|m: usize|
                m < num_nodes ==> (#[trigger] row@[m as int] <==> ids@.take(j as int).contains(
                    m,
                )),
        decreases ids@.len() - j,
    {
        let id = ids[j];
        row.set(id, true);
        proof {
            assert forall|m: usize| m < num_nodes implies (#[trigger] row@[m as int]
                <==> ids@.take(j as int + 1).contains(m)) by {
                if row@[m as int] {
                    if m == id {
                        assert(ids@.take(j as int + 1)[j as int] == id);
                    } else {
                        assert(ids@.take(j as int).contains(m));
                        let t = choose|t: int|
                            0 <= t < j && #[trigger] ids@.take(j as int)[t] == m;
                        assert(ids@.take(j as int + 1)[t] == m);
                    }
                } else {
                    if ids@.take(j as int + 1).contains(m) {
                        let t = choose|t: int|
                            0 <= t < j + 1 && #[trigger] ids@.take(j as int + 1)[t] == m;
                        if t < j {
                            assert(ids@.take(j as int)[t] == m);
                        }
                    }
                }
            }
        }
        j = j + 1;
    }
    proof {
        assert(ids@.take(ids@.len() as int) == ids@);
    }
    row
}

/// Collect one genome's sorted node list and its total sequence length from
/// its membership row.
fn genome_list(node_lengths: &Vec<u64>, row: &Vec<bool>) -> (r: (Vec<usize>, u64))
    requires
        row@.len() == node_lengths@.len(),
        sum_all(node_lengths@) <= u64::MAX as int,
    ensures
        forall|i: int, j: int| 0 <= i < j < r.0@.len() ==> r.0@[i] < r.0@[j],
        forall|i: int| 0 <= i < r.0@.len() ==> (#[trigger] r.0@[i] as int) < node_lengths@.len(),
        forall|i: int| 0 <= i < r.0@.len() ==> row@[#[trigger] r.0@[i] as int],
        forall|m: usize| (m as int) < row@.len() && row@[m as int] ==> r.0@.contains(m),
        r.1 as int == sum_where(node_lengths@, |n: int| row@[n], node_lengths@.len() as int),
{
    let n = node_lengths.len();
    let mut lst: Vec<usize> = Vec::new();
    let mut acc: u64 = 0;
    let mut m: usize = 0;
    while m < n
        invariant
            m <= n,
            n == node_lengths@.len(),
            row@.len() == n,
            sum_all(node_lengths@) <= u64::MAX as int,
            forall|i: int, j: int| 0 <= i < j < lst@.len() ==> lst@[i] < lst@[j],
            forall|i: int| 0 <= i < lst@.len() ==> (#[trigger] lst@[i] as int) < m,
            forall|i: int| 0 <= i < lst@.len() ==> row@[#[trigger] lst@[i] as int],
            forall|t: usize| t < m && row@[t as int] ==> lst@.contains(t),
            acc as int == sum_where(node_lengths@, |j: int| row@[j], m as int),
        decreases n - m,
    {
        if row[m] {
            proof {
                lemma_sum_where_mono_pred(
                    node_lengths@,
                    |j: int| row@[j],
                    |j: int| true,
                    m + 1,
                );
                lemma_sum_where_mono_upto(node_lengths@, |j: int| true, m + 1, n as int);
                lemma_sum_where_nonneg(node_lengths@, |j: int| row@[j], m as int);
            }
            let ghost old_lst = lst@;
            lst.push(m);
            acc = acc + node_lengths[m];
            proof {
                assert forall|t: usize| t < m + 1 && row@[t as int] implies lst@.contains(
                    t,
                ) by {
                    if t < m {
                        let i = choose|i: int| 0 <= i < old_lst.len() && old_lst[i] == t;
                        assert(lst@[i] == t);
                    } else {
                        assert(lst@[lst@.len() - 1] == t);
                    }
                }
            }
        }
        m = m + 1;
    }
    (lst, acc)
}

impl PresenceIndex {
    /// Build the index from the graph's node lengths and, for each genome,
    /// the list of node identifiers the genome's paths pass through
    /// (duplicates allowed; they are not double-counted).
    pub fn build(node_lengths: Vec<u64>, genomes: &Vec<Vec<usize>>) -> (r: Result<
        PresenceIndex,
        IndexError,
    >)
        ensures
            match r {
                Ok(ix) => {
                    &&& ix.wf()
                    &&& ix.node_lengths@ == node_lengths@
                    &&& ix.num_genomes() == genomes@.len()
                    &&& forall|g: int, n: usize|
                        0 <= g < genomes@.len() && (n as int) < node_lengths@.len()
                            ==> (ix.touches(g, n as int) <==> #[trigger] genomes@[g]@.contains(
                            n,
                        ))
                },
                Err(IndexError::TotalLengthOverflow) => sum_all(node_lengths@)
                    > u64::MAX as int,
                Err(IndexError::NodeOutOfRange) => sum_all(node_lengths@) <= u64::MAX as int
                    && exists|g: int, j: int|
                    0 <= g < genomes@.len() && 0 <= j < genomes@[g]@.len()
                        && #[trigger] genomes@[g]@[j] >= node_lengths@.len(),
            },
            r is Ok <==> sum_all(node_lengths@) <= u64::MAX as int && forall|g: int, j: int|
                0 <= g < genomes@.len() && 0 <= j < genomes@[g]@.len()
                    ==> #[trigger] genomes@[g]@[j] < node_lengths@.len(),
    {
        let n = node_lengths.len();
        let gcount = genomes.len();
        let total = match total_length(&node_lengths) {
            Ok(t) => t,
            Err(e) => {
                return Err(e);
            },
        };
        // Reject any genome that names a node the graph does not have.
        let mut g: usize = 0;
        while g < gcount
            invariant
                g <= gcount,
                gcount == genomes@.len(),
                n == node_lengths@.len(),
                sum_all(node_lengths@) <= u64::MAX as int,
                forall|g2: int, j: int|
                    0 <= g2 < g && 0 <= j < genomes@[g2]@.len()
                        ==> #[trigger] genomes@[g2]@[j] < n,
            decreases gcount - g,
        {
            let ids = &genomes[g];
            let mut j: usize = 0;
            while j < ids.len()
                invariant
                    j <= ids@.len(),
                    ids@ == genomes@[g as int]@,
                    g < gcount,
                    gcount == genomes@.len(),
                    n == node_lengths@.len(),
                    sum_all(node_lengths@) <= u64::MAX as int,
                    forall|t: int| 0 <= t < j ==> #[trigger] ids@[t] < n,
                decreases ids@.len() - j,
            {
                if ids[j] >= n {
                    proof {
                        assert(#[trigger] genomes@[g as int]@[j as int] >= n);
                    }
                    return Err(IndexError::NodeOutOfRange);
                }
                j = j + 1;
            }
            g = g + 1;
        }
        // Membership rows, sorted node lists, genome lengths.
        let mut presence: Vec<Vec<bool>> = Vec::new();
        let mut genome_nodes: Vec<Vec<usize>> = Vec::new();
        let mut genome_lengths: Vec<u64> = Vec::new();
        let mut g: usize = 0;
        while g < gcount
            invariant
                g <= gcount,
                gcount == genomes@.len(),
                n == node_lengths@.len(),
                sum_all(node_lengths@) <= u64::MAX as int,
                forall|g2: int, j: int|
                    0 <= g2 < gcount && 0 <= j < genomes@[g2]@.len()
                        ==> #[trigger] genomes@[g2]@[j] < n,
                presence@.len() == g,
                genome_nodes@.len() == g,
                genome_lengths@.len() == g,
                forall|g2: int|
                    0 <= g2 < g ==> (#[trigger] presence@[g2])@.len() == n,
                forall|g2: int, m: usize|
                    0 <= g2 < g && m < n ==> (#[trigger] presence@[g2]@[m as int]
                        <==> genomes@[g2]@.contains(m)),
                forall|g2: int, i: int, j: int|
                    0 <= g2 < g && 0 <= i < j < genome_nodes@[g2]@.len()
                        ==> #[trigger] genome_nodes@[g2]@[i] < #[trigger] genome_nodes@[g2]@[j],
                forall|g2: int, i: int|
                    0 <= g2 < g && 0 <= i < genome_nodes@[g2]@.len()
                        ==> (#[trigger] genome_nodes@[g2]@[i] as int) < n,
                forall|g2: int, i: int|
                    0 <= g2 < g && 0 <= i < genome_nodes@[g2]@.len()
                        ==> presence@[g2]@[#[trigger] genome_nodes@[g2]@[i] as int],
                forall|g2: int, m: usize|
                    0 <= g2 < g && (m as int) < n && presence@[g2]@[m as int]
                        ==> #[trigger] genome_nodes@[g2]@.contains(m),
                forall|g2: int|
                    0 <= g2 < g ==> (#[trigger] genome_lengths@[g2]) as int == sum_where(
                        node_lengths@,
                        |m: int| presence@[g2]@[m],
                        n as int,
                    ),
            decreases gcount - g,
        {
            let row = presence_row(n, &genomes[g]);
            let (lst, glen) = genome_list(&node_lengths, &row);
            presence.push(row);
            genome_nodes.push(lst);
            genome_lengths.push(glen);
            proof {
                assert forall|g2: int|
                    0 <= g2 < g + 1 implies (#[trigger] genome_lengths@[g2]) as int
                    == sum_where(node_lengths@, |m: int| presence@[g2]@[m], n as int) by {
                    if g2 < g {
                        lemma_sum_where_same(
                            node_lengths@,
                            |m: int| presence@.take(g as int)[g2]@[m],
                            |m: int| presence@[g2]@[m],
                            n as int,
                        );
                    }
                }
            }
            g = g + 1;
        }
        let ix = PresenceIndex { node_lengths, presence, genome_nodes, genome_lengths };
        proof {
            assert forall|g2: int|
                0 <= g2 < ix.num_genomes() implies (#[trigger] ix.genome_lengths@[g2]) as int
                == ix.genome_len_spec(g2) by {
                lemma_sum_where_same(
                    ix.node_lengths@,
                    |m: int| ix.presence@[g2]@[m],
                    |m: int| ix.touches(g2, m),
                    ix.num_nodes(),
                );
            }
        }
        Ok(ix)
    }
}

} // verus!
