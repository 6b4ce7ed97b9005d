use vstd::prelude::*;

pub mod sums;
pub mod index;
pub mod evaluate;
pub mod filter;
pub mod generator;
pub mod meta;

verus! {

/// A sampled subset of genomes of a given size, tagged with a run-local
/// iteration index. The genome indices are kept sorted in strictly
/// increasing order, so the vector represents a set.
#[derive(Clone, PartialEq, Eq, Debug)]
pub struct Combination {
    pub size: usize,
    pub iteration: usize,
    pub genomes: Vec<usize>,
}

/// A sequence of genome indices is a valid representation of a subset of
/// `{0, .., n-1}` of cardinality `k`: sorted strictly increasing (hence
/// duplicate-free) with every element below `n`.
pub open spec fn valid_subset(s: Seq<usize>, n: nat, k: nat) -> bool {
    &&& s.len() == k
    &&& forall|i: int, j: int| 0 <= i < j < s.len() ==> s[i] < s[j]
    &&& forall|i: int| 0 <= i < s.len() ==> s[i] < n
}

impl Combination {
    /// Well-formed for a run with `n` genomes: the index vector is a valid
    /// subset whose cardinality equals the recorded size.
    pub open spec fn wf(self, n: nat) -> bool {
        valid_subset(self.genomes@, n, self.size as nat)
    }

    /// The mathematical value of a combination: its triple.
    pub open spec fn view_triple(self) -> (nat, nat, Seq<usize>) {
        (self.size as nat, self.iteration as nat, self.genomes@)
    }

    /// A copy whose triple is provably the same.
    pub fn duplicate(&self) -> (c: Combination)
        ensures
            c.view_triple() == self.view_triple(),
    {
        Combination {
            size: self.size,
            iteration: self.iteration,
            genomes: clone_indices(&self.genomes),
        }
    }
}

/// An element-for-element copy of a list of genome indices.
pub fn clone_indices(v: &Vec<usize>) -> (r: Vec<usize>)
    ensures
        r@ == v@,
{
    let mut r: Vec<usize> = Vec::new();
    let mut i: usize = 0;
    while i < v.len()
        invariant
            i <= v@.len(),
            r@ == v@.take(i as int),
        decreases v@.len() - i,
    {
        r.push(v[i]);
        proof {
            assert(r@ =~= v@.take(i as int + 1));
        }
        i = i + 1;
    }
    proof {
        assert(v@.take(v@.len() as int) =~= v@);
    }
    r
}

/// The triples of a combination list.
pub open spec fn triples_of(s: Seq<Combination>) -> Seq<(nat, nat, Seq<usize>)> {
    s.map_values(|c: Combination| c.view_triple())
}

} // verus!
