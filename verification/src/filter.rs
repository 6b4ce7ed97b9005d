use vstd::prelude::*;
use crate::{Combination, triples_of};

verus! {

/// The Partition Filter keeps a combination when it matches both optional
/// selectors: a non-negative `level` selects one subset size, a
/// non-negative `line` selects one iteration index; a negative selector
/// keeps everything.
pub open spec fn keep_triple(line: i64, level: i64) -> spec_fn((nat, nat, Seq<usize>)) -> bool {
    |t: (nat, nat, Seq<usize>)|
        (level < 0 || t.0 == level as int) && (line < 0 || t.1 == line as int)
}

/// Narrow the combination list in place to the selected subset size
/// (`level`) and iteration line (`line`); a negative selector is no
/// restriction. An empty result is allowed.
pub fn reduce_meta(combinations: &mut Vec<Combination>, line: i64, level: i64)
    ensures
        triples_of(final(combinations)@) == triples_of(old(combinations)@).filter(
            keep_triple(line, level),
        ),
{
    let ghost orig = combinations@;
    let ghost kp = keep_triple(line, level);
    let mut result: Vec<Combination> = Vec::new();
    let mut i: usize = 0;
    proof {
        assert(triples_of(orig.take(0)) =~= Seq::<(nat, nat, Seq<usize>)>::empty());
    }
    while i < combinations.len()
        invariant
            i <= orig.len(),
            combinations@ == orig,
            kp == keep_triple(line, level),
            triples_of(result@) == triples_of(orig.take(i as int)).filter(kp),
        decreases orig.len() - i,
    {
        let c = &combinations[i];
        let keep = (level < 0 || c.size as u64 == level as u64) && (line < 0 || c.iteration
            as u64 == line as u64);
        proof {
            assert(keep == kp(c.view_triple()));
        }
        let ghost pre = result@;
        if keep {
            result.push(c.duplicate());
        }
        proof {
            reveal(Seq::filter);
            let tk = triples_of(orig.take(i as int));
            let tk1 = triples_of(orig.take(i as int + 1));
            assert(tk1 =~= tk.push(orig[i as int].view_triple()));
            assert(tk1.drop_last() =~= tk);
            assert(tk1.drop_last() == tk);
            assert(tk1.len() > 0);
            assert(tk1.last() == orig[i as int].view_triple());
            if keep {
                assert(triples_of(result@) =~= triples_of(pre).push(
                    orig[i as int].view_triple(),
                ));
                assert(tk1.filter(kp) == tk.filter(kp).push(tk1.last()));
            } else {
                assert(tk1.filter(kp) == tk.filter(kp));
            }
        }
        i = i + 1;
    }
    proof {
        assert(orig.take(orig.len() as int) =~= orig);
    }
    *combinations = result;
}

/// If every element of a sequence satisfies the predicate, filtering keeps
/// the sequence unchanged.
proof fn lemma_filter_no_change<A>(s: Seq<A>, p: spec_fn(A) -> bool)
    requires
        forall|i: int| 0 <= i < s.len() ==> p(#[trigger] s[i]),
    ensures
        s.filter(p) == s,
    decreases s.len(),
{
    reveal(Seq::filter);
    if s.len() > 0 {
        lemma_filter_no_change(s.drop_last(), p);
        assert(s.drop_last().push(s.last()) =~= s);
    }
}

/// The Partition Filter is idempotent: filtering an already-filtered list
/// by the same selectors changes nothing.
pub proof fn lemma_reduce_meta_idempotent(
    ts: Seq<(nat, nat, Seq<usize>)>,
    line: i64,
    level: i64,
)
    ensures
        ts.filter(keep_triple(line, level)).filter(keep_triple(line, level)) == ts.filter(
            keep_triple(line, level),
        ),
{
    let kp = keep_triple(line, level);
    let f = ts.filter(kp);
    assert forall|i: int| 0 <= i < f.len() implies kp(#[trigger] f[i]) by {
        ts.lemma_filter_pred(kp, i);
    }
    lemma_filter_no_change(f, kp);
}

} // verus!
