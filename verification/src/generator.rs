use vstd::prelude::*;
use crate::Combination;
use rand::Rng;

verus! {

/// Number of `k`-element subsets of an `n`-element set, by Pascal's rule.
pub open spec fn binom(n: nat, k: nat) -> nat
    decreases n,
{
    if k == 0 {
        1
    } else if n == 0 {
        0
    } else {
        binom((n - 1) as nat, (k - 1) as nat) + binom((n - 1) as nat, k)
    }
}

pub proof fn lemma_binom_above(n: nat, k: nat)
    requires
        k > n,
    ensures
        binom(n, k) == 0,
    decreases n,
{
    if n > 0 {
        lemma_binom_above((n - 1) as nat, (k - 1) as nat);
        lemma_binom_above((n - 1) as nat, k);
    }
}

pub proof fn lemma_binom_full(n: nat)
    ensures
        binom(n, n) == 1,
    decreases n,
{
    if n > 0 {
        lemma_binom_full((n - 1) as nat);
        lemma_binom_above((n - 1) as nat, n);
    }
}

/// A sequence is a subset of `[lo, n)` of size `k` in canonical form:
/// strictly ascending.
pub open spec fn range_subset(w: Seq<usize>, lo: int, n: int, k: int) -> bool {
    &&& w.len() == k
    &&& forall|i: int, j: int| 0 <= i < j < w.len() ==> w[i] < w[j]
    &&& forall|i: int| 0 <= i < w.len() ==> lo <= #[trigger] w[i] < n
}

/// The list holds every `k`-element subset of `[0, n)`.
pub open spec fn holds_all_subsets(list: Seq<Vec<usize>>, n: int, k: int) -> bool {
    forall|w: Seq<usize>|
        range_subset(w, 0, n, k) ==> exists|i: int|
            0 <= i < list.len() && (#[trigger] list[i])@ == w
}

/// `min(binom(n, k), cap)`, computed by saturating Pascal rows.
#[verifier::loop_isolation(false)]
fn binom_capped(n: usize, k: usize, cap: usize) -> (r: usize)
    requires
        cap >= 1,
        k < usize::MAX,
    ensures
        binom(n as nat, k as nat) <= cap as nat ==> r as nat == binom(n as nat, k as nat),
        binom(n as nat, k as nat) > cap as nat ==> r == cap,
{
    let mut row: Vec<usize> = Vec::new();
    row.push(1);
    let mut i: usize = 0;
    while i < k
        invariant
            i <= k,
            row@.len() == i + 1,
            row@[0] == 1,
            forall|t: int| 1 <= t <= i ==> #[trigger] row@[t] == 0,
        decreases k - i,
    {
        row.push(0);
        i = i + 1;
    }
    proof {
        assert forall|t: int| 0 <= t <= k implies (
            (binom(0, t as nat) <= cap as nat ==> #[trigger] row@[t] as nat == binom(0, t as nat))
            && (binom(0, t as nat) > cap as nat ==> row@[t] == cap)) by {
        }
    }
    let mut m: usize = 0;
    while m < n
        invariant
            m <= n,
            cap >= 1,
            row@.len() == k + 1,
            forall|t: int| 0 <= t <= k ==> (
                (binom(m as nat, t as nat) <= cap as nat ==> #[trigger] row@[t] as nat == binom(
                    m as nat,
                    t as nat,
                )) && (binom(m as nat, t as nat) > cap as nat ==> row@[t] == cap)),
        decreases n - m,
    {
        let mut next: Vec<usize> = Vec::new();
        next.push(1);
        let mut t: usize = 1;
        while t <= k
            invariant
                1 <= t <= k + 1,
                t <= usize::MAX,
                cap >= 1,
                m < n,
                next@.len() == t,
                next@[0] == 1,
                row@.len() == k + 1,
                forall|u: int| 0 <= u <= k ==> (
                    (binom(m as nat, u as nat) <= cap as nat ==> #[trigger] row@[u] as nat
                        == binom(m as nat, u as nat)) && (binom(m as nat, u as nat)
                        > cap as nat ==> row@[u] == cap)),
                forall|u: int| 0 <= u < t ==> (
                    (binom((m + 1) as nat, u as nat) <= cap as nat ==> #[trigger] next@[u] as nat
                        == binom((m + 1) as nat, u as nat)) && (binom((m + 1) as nat, u as nat)
                        > cap as nat ==> next@[u] == cap)),
            decreases k + 1 - t,
        {
            let a = row[t - 1];
            let b = row[t];
            proof {
                assert(a <= cap && b <= cap);
                assert(binom((m + 1) as nat, t as nat) == binom(m as nat, (t - 1) as nat)
                    + binom(m as nat, t as nat));
            }
            let s = if a > cap - b {
                cap
            } else {
                a + b
            };
            next.push(s);
            t = t + 1;
        }
        row = next;
        m = m + 1;
    }
    row[k]
}

/// All `k`-element subsets of `[lo, n)`, in ascending lexicographic order:
/// those beginning with `lo` first, then the rest. The list is complete,
/// duplicate-free and exactly `binom(n - lo, k)` long.
#[verifier::loop_isolation(false)]
fn enum_subsets(lo: usize, n: usize, k: usize) -> (res: Vec<Vec<usize>>)
    requires
        lo <= n,
        k <= n - lo,
    ensures
        res@.len() == binom((n - lo) as nat, k as nat),
        forall|i: int|
            0 <= i < res@.len() ==> range_subset(
                (#[trigger] res@[i])@,
                lo as int,
                n as int,
                k as int,
            ),
        forall|i: int, j: int| 0 <= i < j < res@.len() ==> res@[i]@ != res@[j]@,
        forall|w: Seq<usize>|
            range_subset(w, lo as int, n as int, k as int) ==> exists|i: int|
                0 <= i < res@.len() && (#[trigger] res@[i])@ == w,
    decreases n - lo,
{
    if k == 0 {
        let mut res: Vec<Vec<usize>> = Vec::new();
        let empty: Vec<usize> = Vec::new();
        res.push(empty);
        proof {
            assert forall|w: Seq<usize>|
                range_subset(w, lo as int, n as int, 0) implies exists|i: int|
                0 <= i < res@.len() && (#[trigger] res@[i])@ == w by {
                assert(res@[0]@ =~= w);
            }
        }
        return res;
    }
    // k >= 1, so lo < n.
    let sub1 = enum_subsets(lo + 1, n, k - 1);
    let mut res: Vec<Vec<usize>> = Vec::new();
    let mut i: usize = 0;
    while i < sub1.len()
        invariant
            i <= sub1@.len(),
            lo < n,
            1 <= k <= n - lo,
            forall|t: int|
                0 <= t < sub1@.len() ==> range_subset(
                    (#[trigger] sub1@[t])@,
                    lo as int + 1,
                    n as int,
                    k as int - 1,
                ),
            res@.len() == i,
            forall|t: int| 0 <= t < i ==> (#[trigger] res@[t])@ == seq![lo].add(sub1@[t]@),
        decreases sub1@.len() - i,
    {
        let mut w: Vec<usize> = Vec::new();
        w.push(lo);
        let src = &sub1[i];
        let mut j: usize = 0;
        while j < src.len()
            invariant
                j <= src@.len(),
                src@ == sub1@[i as int]@,
                i < sub1@.len(),
                w@ == seq![lo].add(src@.take(j as int)),
            decreases src@.len() - j,
        {
            w.push(src[j]);
            proof {
                assert(w@ =~= seq![lo].add(src@.take(j as int + 1)));
            }
            j = j + 1;
        }
        proof {
            assert(src@.take(src@.len() as int) =~= src@);
        }
        res.push(w);
        i = i + 1;
    }
    let ghost part1 = res@;
    proof {
        assert(part1.len() == binom((n - lo - 1) as nat, (k - 1) as nat));
        assert(forall|t: int|
            0 <= t < part1.len() ==> (#[trigger] part1[t])@ == seq![lo].add(sub1@[t]@));
        assert forall|t: int|
            0 <= t < part1.len() implies range_subset(
            (#[trigger] part1[t])@,
            lo as int,
            n as int,
            k as int,
        ) by {
            let s1 = sub1@[t]@;
            let w = part1[t]@;
            assert(w == seq![lo].add(s1));
            assert(w[0] == lo);
            assert forall|a: int, b: int| 0 <= a < b < w.len() implies w[a] < w[b] by {
                if a > 0 {
                    assert(w[a] == s1[a - 1] && w[b] == s1[b - 1]);
                } else {
                    assert(w[b] == s1[b - 1]);
                }
            }
            assert forall|a: int| 0 <= a < w.len() implies lo as int <= #[trigger] w[a]
                < n as int by {
                if a > 0 {
                    assert(w[a] == s1[a - 1]);
                }
            }
        }
        assert forall|a: int, b: int| 0 <= a < b < part1.len() implies part1[a]@
            != part1[b]@ by {
            if part1[a]@ == part1[b]@ {
                assert(seq![lo].add(sub1@[a]@) =~= seq![lo].add(sub1@[b]@));
                assert forall|u: int| 0 <= u < sub1@[a]@.len() implies sub1@[a]@[u]
                    == sub1@[b]@[u] by {
                    assert(part1[a]@[u + 1] == sub1@[a]@[u]);
                    assert(part1[b]@[u + 1] == sub1@[b]@[u]);
                }
                assert(sub1@[a]@ =~= sub1@[b]@);
            }
        }
    }
    if k <= n - lo - 1 {
        let sub2 = enum_subsets(lo + 1, n, k);
        let mut i: usize = 0;
        while i < sub2.len()
            invariant
                i <= sub2@.len(),
                lo < n,
                1 <= k <= n - lo,
                forall|t: int|
                    0 <= t < sub2@.len() ==> range_subset(
                        (#[trigger] sub2@[t])@,
                        lo as int + 1,
                        n as int,
                        k as int,
                    ),
                res@.len() == part1.len() + i,
                forall|t: int| 0 <= t < part1.len() ==> res@[t] == part1[t],
                forall|t: int|
                    0 <= t < i ==> (#[trigger] res@[part1.len() + t])@ == sub2@[t]@,
            decreases sub2@.len() - i,
        {
            let w = crate::clone_indices(&sub2[i]);
            res.push(w);
            i = i + 1;
        }
        proof {
            assert(res@.len() == binom((n - lo - 1) as nat, (k - 1) as nat) + binom(
                (n - lo - 1) as nat,
                k as nat,
            ));
            assert forall|t: int|
                0 <= t < res@.len() implies range_subset(
                (#[trigger] res@[t])@,
                lo as int,
                n as int,
                k as int,
            ) by {
                if t < part1.len() {
                    assert(res@[t] == part1[t]);
                    assert(range_subset(part1[t]@, lo as int, n as int, k as int));
                } else {
                    let tt = t - part1.len();
                    assert(res@[part1.len() + tt]@ == sub2@[tt]@);
                    assert(range_subset(sub2@[tt]@, lo as int + 1, n as int, k as int));
                }
            }
            assert(binom((n - lo) as nat, k as nat) == binom((n - lo - 1) as nat, (k - 1) as nat)
                + binom((n - lo - 1) as nat, k as nat));
            assert forall|a: int, b: int| 0 <= a < b < res@.len() implies res@[a]@
                != res@[b]@ by {
                if a < part1.len() {
                    assert(res@[a] == part1[a]);
                    assert(res@[a]@[0] == lo);
                } else {
                    let ta = a - part1.len();
                    assert(res@[part1.len() + ta]@ == sub2@[ta]@);
                    assert(range_subset(sub2@[ta]@, lo as int + 1, n as int, k as int));
                    assert(res@[a]@[0] >= lo + 1);
                }
                if b < part1.len() {
                    assert(res@[b] == part1[b]);
                    assert(res@[b]@[0] == lo);
                } else {
                    let tb = b - part1.len();
                    assert(res@[part1.len() + tb]@ == sub2@[tb]@);
                    assert(range_subset(sub2@[tb]@, lo as int + 1, n as int, k as int));
                    assert(res@[b]@[0] >= lo + 1);
                }
            }
            assert forall|w: Seq<usize>|
                range_subset(w, lo as int, n as int, k as int) implies exists|i: int|
                0 <= i < res@.len() && (#[trigger] res@[i])@ == w by {
                if w[0] == lo {
                    let tail = w.skip(1);
                    assert forall|a: int| 0 <= a < tail.len() implies lo as int + 1
                        <= #[trigger] tail[a] < n as int by {
                        assert(tail[a] == w[a + 1]);
                        assert(w[0] < w[a + 1]);
                    }
                    assert forall|a: int, b: int| 0 <= a < b < tail.len() implies tail[a]
                        < tail[b] by {
                        assert(tail[a] == w[a + 1] && tail[b] == w[b + 1]);
                    }
                    assert(range_subset(tail, lo as int + 1, n as int, k as int - 1));
                    let i = choose|i: int|
                        0 <= i < sub1@.len() && (#[trigger] sub1@[i])@ == tail;
                    assert(res@[i] == part1[i]);
                    assert(part1[i]@ == seq![lo].add(sub1@[i]@));
                    assert(res@[i]@ == seq![lo].add(tail));
                    assert(seq![lo].add(tail) =~= w);
                } else {
                    assert(lo <= w[0]);
                    assert forall|a: int| 0 <= a < w.len() implies lo as int + 1
                        <= #[trigger] w[a] < n as int by {
                        if a > 0 {
                            assert(w[0] < w[a]);
                        }
                    }
                    assert(range_subset(w, lo as int + 1, n as int, k as int));
                    let i = choose|i: int|
                        0 <= i < sub2@.len() && (#[trigger] sub2@[i])@ == w;
                    assert(res@[part1.len() + i]@ == w);
                }
            }
        }
        res
    } else {
        proof {
            lemma_binom_above((n - lo - 1) as nat, k as nat);
            assert(binom((n - lo) as nat, k as nat) == binom((n - lo - 1) as nat, (k - 1) as nat));
            assert forall|w: Seq<usize>|
                range_subset(w, lo as int, n as int, k as int) implies exists|i: int|
                0 <= i < res@.len() && (#[trigger] res@[i])@ == w by {
                // With k == n - lo every index of the range is needed, so the
                // subset must begin with lo.
                assert(k == n - lo);
                lemma_ascending_gap(w, w.len() - 1);
                assert(w[0] + (w.len() - 1) <= w[w.len() - 1]);
                assert(w[w.len() - 1] < n);
                assert(lo <= w[0]);
                assert(w[0] == lo);
                let tail = w.skip(1);
                assert forall|a: int| 0 <= a < tail.len() implies lo as int + 1
                    <= #[trigger] tail[a] < n as int by {
                    assert(tail[a] == w[a + 1]);
                    assert(w[0] < w[a + 1]);
                }
                assert forall|a: int, b: int| 0 <= a < b < tail.len() implies tail[a]
                    < tail[b] by {
                    assert(tail[a] == w[a + 1] && tail[b] == w[b + 1]);
                }
                assert(range_subset(tail, lo as int + 1, n as int, k as int - 1));
                let i = choose|i: int| 0 <= i < sub1@.len() && (#[trigger] sub1@[i])@ == tail;
                assert(res@[i]@ == seq![lo].add(tail));
                assert(seq![lo].add(tail) =~= w);
            }
        }
        res
    }
}

/// In a strictly ascending sequence the element at position `a` is at least
/// the first element plus `a`.
proof fn lemma_ascending_gap(w: Seq<usize>, a: int)
    requires
        forall|i: int, j: int| 0 <= i < j < w.len() ==> w[i] < w[j],
        0 <= a < w.len(),
    ensures
        w[a] >= w[0] + a,
    decreases a,
{
    if a > 0 {
        lemma_ascending_gap(w, a - 1);
    }
}

/// Ceiling on the requested iterations per subset size.
pub const AMOUNT_CEILING: usize = 500;

/// Bound on redraws while hunting for unique random subsets.
pub const MAX_DRAW_ATTEMPTS: usize = 10000;

/// Relies on rand::Rng::gen_range over the half-open range `lo..hi`
/// (rejected as empty only when `lo >= hi`): the result lies in the range.
/// Nothing is assumed about which value comes back.
#[verifier::external_body]
fn rand_below(lo: usize, hi: usize) -> (r: usize)
    requires
        lo < hi,
    ensures
        lo <= r < hi,
{
    rand::thread_rng().gen_range(lo..hi)
}

/// Draw a random subset of `[0, n)` of size `k`, returned in ascending
/// order, by selection sampling: scan the indices once, choosing each with
/// the probability that keeps exactly `k` reachable.
#[verifier::loop_isolation(false)]
fn sample_subset(n: usize, k: usize) -> (res: Vec<usize>)
    requires
        1 <= k <= n,
    ensures
        range_subset(res@, 0, n as int, k as int),
{
    let mut res: Vec<usize> = Vec::new();
    let mut idx: usize = 0;
    while idx < n
        invariant
            idx <= n,
            res@.len() <= k,
            k - res@.len() <= n - idx,
            forall|i: int, j: int| 0 <= i < j < res@.len() ==> res@[i] < res@[j],
            forall|i: int| 0 <= i < res@.len() ==> #[trigger] res@[i] < idx,
        decreases n - idx,
    {
        let chosen = res.len();
        if chosen < k {
            let r = rand_below(0, n - idx);
            if r < k - chosen {
                res.push(idx);
            }
        }
        idx = idx + 1;
    }
    res
}

/// The two lists hold the same index sequence.
fn indices_equal(a: &Vec<usize>, b: &Vec<usize>) -> (r: bool)
    ensures
        r == (a@ == b@),
{
    if a.len() != b.len() {
        proof {
            assert(a@ !~= b@);
        }
        return false;
    }
    let mut i: usize = 0;
    while i < a.len()
        invariant
            i <= a@.len(),
            a@.len() == b@.len(),
            forall|t: int| 0 <= t < i ==> a@[t] == b@[t],
        decreases a@.len() - i,
    {
        if a[i] != b[i] {
            proof {
                assert(a@ !~= b@);
            }
            return false;
        }
        i = i + 1;
    }
    proof {
        assert(a@ =~= b@);
    }
    true
}

/// Whether the subset list already holds this subset.
fn contains_subset(list: &Vec<Vec<usize>>, v: &Vec<usize>) -> (r: bool)
    ensures
        r == exists|i: int| 0 <= i < list@.len() && (#[trigger] list@[i])@ == v@,
{
    let mut i: usize = 0;
    while i < list.len()
        invariant
            i <= list@.len(),
            forall|t: int| 0 <= t < i ==> (#[trigger] list@[t])@ != v@,
        decreases list@.len() - i,
    {
        if indices_equal(&list[i], v) {
            return true;
        }
        i = i + 1;
    }
    false
}

/// Produce the subsets for one subset size `k`: the exhaustive list when
/// only `amount` or fewer exist, otherwise up to `amount` unique random
/// draws, giving up (with `r.1` set) once the redraw bound is spent.
#[verifier::rlimit(60)]
#[verifier::loop_isolation(false)]
pub fn combinations_maker(n: usize, k: usize, amount: usize) -> (r: (Vec<Vec<usize>>, bool))
    requires
        1 <= k <= n,
        n < usize::MAX,
        1 <= amount < usize::MAX,
    ensures
        forall|i: int|
            0 <= i < r.0@.len() ==> range_subset((#[trigger] r.0@[i])@, 0, n as int, k as int),
        forall|i: int, j: int| 0 <= i < j < r.0@.len() ==> r.0@[i]@ != r.0@[j]@,
        binom(n as nat, k as nat) <= amount as nat ==> r.0@.len() == binom(n as nat, k as nat),
        binom(n as nat, k as nat) <= amount as nat ==> !r.1,
        binom(n as nat, k as nat) <= amount as nat ==> holds_all_subsets(
            r.0@,
            n as int,
            k as int,
        ),
        binom(n as nat, k as nat) > amount as nat ==> r.0@.len() <= amount,
        binom(n as nat, k as nat) > amount as nat ==> (r.1 <==> r.0@.len() < amount),
{
    let b = binom_capped(n, k, amount + 1);
    if b <= amount {
        let subs = enum_subsets(0, n, k);
        proof {
            assert(binom(n as nat, k as nat) <= amount as nat);
            assert(subs@.len() == binom((n - 0) as nat, k as nat));
            assert(forall|w: Seq<usize>|
                range_subset(w, 0usize as int, n as int, k as int) ==> exists|i: int|
                    0 <= i < subs@.len() && (#[trigger] subs@[i])@ == w);
            assert forall|w: Seq<usize>|
                range_subset(w, 0, n as int, k as int) implies exists|i: int|
                0 <= i < subs@.len() && (#[trigger] subs@[i])@ == w by {
                assert(range_subset(w, 0usize as int, n as int, k as int));
            }
            assert(holds_all_subsets(subs@, n as int, k as int));
        }
        (subs, false)
    } else {
        let mut subs: Vec<Vec<usize>> = Vec::new();
        let mut tries: usize = 0;
        while subs.len() < amount && tries < MAX_DRAW_ATTEMPTS
            invariant
                subs@.len() <= amount,
                tries <= MAX_DRAW_ATTEMPTS,
                forall|i: int|
                    0 <= i < subs@.len() ==> range_subset(
                        (#[trigger] subs@[i])@,
                        0,
                        n as int,
                        k as int,
                    ),
                forall|i: int, j: int| 0 <= i < j < subs@.len() ==> subs@[i]@ != subs@[j]@,
            decreases MAX_DRAW_ATTEMPTS - tries,
        {
            let cand = sample_subset(n, k);
            if !contains_subset(&subs, &cand) {
                subs.push(cand);
            }
            tries = tries + 1;
        }
        let exhausted = subs.len() < amount;
        proof {
            if binom(n as nat, k as nat) <= amount as nat {
                assert(b as nat == binom(n as nat, k as nat));
                assert(false);
            }
        }
        (subs, exhausted)
    }
}

/// The amount of a run is invalid.
#[derive(Clone, Copy, PartialEq, Eq, Debug)]
pub enum ConfigError {
    /// `amount` must be a positive number of iterations.
    InvalidAmount,
}

/// How many combinations of the list have subset size `k`.
pub open spec fn count_size(s: Seq<Combination>, k: nat) -> nat
    decreases s.len(),
{
    if s.len() == 0 {
        0
    } else {
        count_size(s.drop_last(), k) + if s.last().size as nat == k {
            1nat
        } else {
            0nat
        }
    }
}

proof fn lemma_count_size_push(s: Seq<Combination>, c: Combination, k: nat)
    ensures
        count_size(s.push(c), k) == count_size(s, k) + if c.size as nat == k {
            1nat
        } else {
            0nat
        },
{
    assert(s.push(c).drop_last() =~= s);
    assert(s.push(c).last() == c);
}

/// The list holds, at size `k`, a combination for every `k`-element subset
/// of the `n` genomes.
pub open spec fn holds_all_size(combos: Seq<Combination>, n: int, k: int) -> bool {
    forall|w: Seq<usize>|
        range_subset(w, 0, n, k) ==> exists|i: int|
            0 <= i < combos.len() && (#[trigger] combos[i]).size as int == k
                && combos[i].genomes@ == w
}

/// The shape of a generated combination list: every entry well formed with
/// a positive size, ordered by subset size then iteration index, iteration
/// indices numbered 0-based within each size, and no repeated subset within
/// a size.
pub open spec fn generated_wf(combos: Seq<Combination>, n: nat) -> bool {
    &&& forall|i: int|
        0 <= i < combos.len() ==> (#[trigger] combos[i]).wf(n) && 1 <= combos[i].size <= n
    &&& forall|i: int, j: int|
        0 <= i < j < combos.len() ==> (#[trigger] combos[i]).size < (#[trigger] combos[j]).size
            || (combos[i].size == combos[j].size && combos[i].iteration < combos[j].iteration)
    &&& forall|i: int|
        0 <= i < combos.len() ==> (#[trigger] combos[i]).iteration as nat == count_size(
            combos.take(i),
            combos[i].size as nat,
        )
    &&& forall|i: int, j: int|
        0 <= i < j < combos.len() && (#[trigger] combos[i]).size == (
        #[trigger] combos[j]).size ==> combos[i].genomes@ != combos[j].genomes@
}

/// Per subset size `k`, the generated count is as promised: the whole of a
/// small combinatorial space, else the clamped amount unless the redraw
/// bound was spent, which the warning list then records.
pub open spec fn size_counts_ok(
    combos: Seq<Combination>,
    warned: Seq<usize>,
    n: nat,
    clamp: nat,
    k: usize,
) -> bool {
    &&& (binom(n, k as nat) <= clamp ==> count_size(combos, k as nat) == binom(n, k as nat)
        && !warned.contains(k) && holds_all_size(combos, n as int, k as int))
    &&& (binom(n, k as nat) > clamp ==> count_size(combos, k as nat) <= clamp && (
    warned.contains(k) <==> count_size(combos, k as nat) < clamp))
}

/// The requested amount, silently clamped to the ceiling.
pub open spec fn clamped_amount(amount: nat) -> nat {
    if amount <= AMOUNT_CEILING as nat {
        amount
    } else {
        AMOUNT_CEILING as nat
    }
}

/// Generate the whole combination list of a run: for every subset size `k`
/// in `1..=n`, up to `min(amount, 500)` unique subsets, ascending by size
/// and then by iteration index. Returns the list and the sizes whose redraw
/// bound was spent; rejects a zero `amount`.
#[verifier::rlimit(100)]
#[verifier::loop_isolation(false)]
pub fn combinations_maker_wrapper(n: usize, amount: usize) -> (r: Result<
    (Vec<Combination>, Vec<usize>),
    ConfigError,
>)
    requires
        n < usize::MAX,
    ensures
        match r {
            Err(e) => e == ConfigError::InvalidAmount && amount == 0,
            Ok(pair) => {
                &&& amount >= 1
                &&& generated_wf(pair.0@, n as nat)
                &&& forall|k: usize|
                    1 <= k <= n ==> size_counts_ok(
                        pair.0@,
                        pair.1@,
                        n as nat,
                        clamped_amount(amount as nat),
                        k,
                    )
            },
        },
{
    if amount == 0 {
        return Err(ConfigError::InvalidAmount);
    }
    let clamp = if amount > AMOUNT_CEILING {
        AMOUNT_CEILING
    } else {
        amount
    };
    let mut combos: Vec<Combination> = Vec::new();
    let mut warned: Vec<usize> = Vec::new();
    let mut k: usize = 1;
    while k <= n
        invariant
            1 <= k <= n + 1,
            generated_wf(combos@, n as nat),
            forall|i: int| 0 <= i < combos@.len() ==> (#[trigger] combos@[i]).size < k,
            forall|kk: usize| 1 <= kk < k ==> size_counts_ok(
                combos@,
                warned@,
                n as nat,
                clamp as nat,
                kk,
            ),
            forall|kk: nat| kk >= k ==> count_size(combos@, kk) == 0,
            forall|wi: int| 0 <= wi < warned@.len() ==> 1 <= #[trigger] warned@[wi] < k,
        decreases n + 1 - k,
    {
        let (subs, exhausted) = combinations_maker(n, k, clamp);
        let ghost pre = combos@;
        let ghost wpre = warned@;
        let ghost subsg = subs@;
        proof {
            assert(generated_wf(pre, n as nat));
            assert(forall|i: int| 0 <= i < pre.len() ==> (#[trigger] pre[i]).size < k);
            assert(forall|kk: usize|
                1 <= kk < k ==> size_counts_ok(pre, wpre, n as nat, clamp as nat, kk));
            assert(forall|kk: nat| kk >= k ==> count_size(pre, kk) == 0);
            assert(forall|wi: int| 0 <= wi < wpre.len() ==> 1 <= #[trigger] wpre[wi] < k);
        }
        let mut j: usize = 0;
        while j < subs.len()
            invariant
                j <= subsg.len(),
                subs@ == subsg,
                combos@.len() == pre.len() + j,
                forall|t: int| 0 <= t < pre.len() ==> combos@[t] == pre[t],
                forall|t: int|
                    0 <= t < j ==> {
                        &&& (#[trigger] combos@[pre.len() + t]).size == k
                        &&& combos@[pre.len() + t].iteration == t
                        &&& combos@[pre.len() + t].genomes@ == subsg[t]@
                    },
                count_size(combos@, k as nat) == j,
                forall|kk: nat| kk != k ==> count_size(combos@, kk) == count_size(pre, kk),
                forall|t: int|
                    pre.len() <= t < combos@.len() ==> count_size(
                        #[trigger] combos@.take(t),
                        k as nat,
                    ) == t - pre.len(),
            decreases subsg.len() - j,
        {
            let gs = crate::clone_indices(&subs[j]);
            let c = Combination { size: k, iteration: j, genomes: gs };
            let ghost before = combos@;
            combos.push(c);
            proof {
                assert forall|kk: nat| true implies count_size(combos@, kk) == count_size(
                    before,
                    kk,
                ) + (if k as nat == kk {
                    1nat
                } else {
                    0nat
                }) by {
                    lemma_count_size_push(before, c, kk);
                }
                assert(combos@.take(combos@.len() - 1) =~= before);
                assert forall|t: int|
                    pre.len() <= t < combos@.len() implies count_size(
                    #[trigger] combos@.take(t),
                    k as nat,
                ) == t - pre.len() by {
                    assert(combos@.take(t) =~= before.take(t));
                }
            }
            j = j + 1;
        }
        if exhausted {
            warned.push(k);
        }
        proof {
            assert(warned@ == if exhausted { wpre.push(k) } else { wpre });
            // Containment in the warning list changes only at size k.
            assert forall|kk: usize| 1 <= kk < k implies (warned@.contains(kk) <==> wpre.contains(
                kk,
            )) by {
                if warned@.contains(kk) {
                    let wi = choose|wi: int| 0 <= wi < warned@.len() && warned@[wi] == kk;
                    if exhausted && wi == warned@.len() - 1 {
                        assert(warned@[wi] == k);
                        assert(false);
                    }
                    assert(wpre[wi] == kk);
                    assert(wpre.contains(kk));
                }
                if wpre.contains(kk) {
                    let wi = choose|wi: int| 0 <= wi < wpre.len() && wpre[wi] == kk;
                    assert(warned@[wi] == kk);
                    assert(warned@.contains(kk));
                }
            }
            // Shape of the grown list.
            assert forall|i: int|
                0 <= i < combos@.len() implies (#[trigger] combos@[i]).wf(n as nat) && 1
                <= combos@[i].size <= n && combos@[i].size <= k by {
                if i < pre.len() {
                    assert(combos@[i] == pre[i]);
                    assert(pre[i].wf(n as nat) && 1 <= pre[i].size <= n);
                } else {
                    let t = i - pre.len();
                    assert(combos@[pre.len() + t].size == k);
                    assert(combos@[pre.len() + t].genomes@ == subsg[t]@);
                    assert(range_subset(subsg[t]@, 0, n as int, k as int));
                }
            }
            assert forall|i: int, j2: int|
                0 <= i < j2 < combos@.len() implies ((#[trigger] combos@[i]).size < (
            #[trigger] combos@[j2]).size || (combos@[i].size == combos@[j2].size
                && combos@[i].iteration < combos@[j2].iteration)) by {
                if i < pre.len() {
                    assert(combos@[i] == pre[i]);
                }
                if j2 < pre.len() {
                    assert(combos@[j2] == pre[j2]);
                }
                if i >= pre.len() {
                    let t = i - pre.len();
                    assert(combos@[pre.len() + t].size == k);
                    assert(combos@[pre.len() + t].iteration == t);
                }
                if j2 >= pre.len() {
                    let t2 = j2 - pre.len();
                    assert(combos@[pre.len() + t2].size == k);
                    assert(combos@[pre.len() + t2].iteration == t2);
                }
            }
            assert forall|i: int|
                0 <= i < combos@.len() implies (#[trigger] combos@[i]).iteration as nat
                == count_size(combos@.take(i), combos@[i].size as nat) by {
                if i < pre.len() {
                    assert(combos@[i] == pre[i]);
                    assert(combos@.take(i) =~= pre.take(i));
                } else {
                    let t = i - pre.len();
                    assert(combos@[pre.len() + t].size == k);
                    assert(combos@[pre.len() + t].iteration == t);
                    assert(count_size(combos@.take(i), k as nat) == i - pre.len());
                }
            }
            assert forall|i: int, j2: int|
                0 <= i < j2 < combos@.len() && (#[trigger] combos@[i]).size == (
            #[trigger] combos@[j2]).size implies combos@[i].genomes@ != combos@[j2].genomes@ by {
                if j2 >= pre.len() {
                    let t2 = j2 - pre.len();
                    assert(combos@[pre.len() + t2].size == k);
                    if i >= pre.len() {
                        let t = i - pre.len();
                        assert(combos@[pre.len() + t].genomes@ == subsg[t]@);
                        assert(combos@[pre.len() + t2].genomes@ == subsg[t2]@);
                        assert(subsg[t]@ != subsg[t2]@);
                    } else {
                        assert(combos@[i] == pre[i]);
                        assert(pre[i].size < k);
                        assert(false);
                    }
                } else {
                    assert(combos@[i] == pre[i]);
                    assert(combos@[j2] == pre[j2]);
                }
            }
            // Counts per size.
            assert forall|kk: nat| kk >= k + 1 implies count_size(combos@, kk) == 0 by {
                assert(count_size(combos@, kk) == count_size(pre, kk));
            }
            assert forall|kk: usize| 1 <= kk <= k implies size_counts_ok(
                combos@,
                warned@,
                n as nat,
                clamp as nat,
                kk,
            ) by {
                if kk < k {
                    assert(count_size(combos@, kk as nat) == count_size(pre, kk as nat));
                    assert(size_counts_ok(pre, wpre, n as nat, clamp as nat, kk));
                    assert(warned@.contains(kk) <==> wpre.contains(kk));
                    if binom(n as nat, kk as nat) <= clamp as nat {
                        assert forall|w: Seq<usize>|
                            range_subset(w, 0, n as int, kk as int) implies exists|i: int|
                            0 <= i < combos@.len() && (#[trigger] combos@[i]).size as int
                                == kk && combos@[i].genomes@ == w by {
                            let i = choose|i: int|
                                0 <= i < pre.len() && (#[trigger] pre[i]).size as int == kk
                                    && pre[i].genomes@ == w;
                            assert(combos@[i] == pre[i]);
                        }
                        assert(holds_all_size(combos@, n as int, kk as int));
                    }
                } else {
                    assert(count_size(combos@, k as nat) == subsg.len());
                    if binom(n as nat, k as nat) <= clamp as nat {
                        assert(subsg.len() == binom(n as nat, k as nat));
                        assert(!exhausted);
                        assert(warned@ == wpre);
                        if warned@.contains(k) {
                            let wi = choose|wi: int|
                                0 <= wi < warned@.len() && warned@[wi] == k;
                            assert(1 <= wpre[wi] < k);
                            assert(false);
                        }
                        assert forall|w: Seq<usize>|
                            range_subset(w, 0, n as int, k as int) implies exists|i: int|
                            0 <= i < combos@.len() && (#[trigger] combos@[i]).size as int == k
                                && combos@[i].genomes@ == w by {
                            assert(holds_all_subsets(subsg, n as int, k as int));
                            let t = choose|t: int|
                                0 <= t < subsg.len() && (#[trigger] subsg[t])@ == w;
                            assert(combos@[pre.len() + t].size == k);
                            assert(combos@[pre.len() + t].genomes@ == subsg[t]@);
                        }
                        assert(holds_all_size(combos@, n as int, k as int));
                    } else {
                        assert(subsg.len() <= clamp);
                        if exhausted {
                            assert(warned@[warned@.len() - 1] == k);
                            assert(warned@.contains(k));
                        } else {
                            assert(warned@ == wpre);
                            if warned@.contains(k) {
                                let wi = choose|wi: int|
                                    0 <= wi < warned@.len() && warned@[wi] == k;
                                assert(1 <= wpre[wi] < k);
                                assert(false);
                            }
                        }
                    }
                }
            }
            assert forall|wi: int| 0 <= wi < warned@.len() implies 1 <= #[trigger] warned@[wi]
                < k + 1 by {
                if exhausted && wi == warned@.len() - 1 {
                    assert(warned@[wi] == k);
                } else {
                    assert(warned@[wi] == wpre[wi]);
                }
            }
        }
        k = k + 1;
    }
    Ok((combos, warned))
}

/// For the full subset size `k = n`, exactly one combination is generated,
/// and it holds every genome index `0..n`.
pub proof fn lemma_full_size_combination(
    combos: Seq<Combination>,
    warned: Seq<usize>,
    n: usize,
    clamp: nat,
)
    requires
        n >= 1,
        clamp >= 1,
        size_counts_ok(combos, warned, n as nat, clamp, n),
    ensures
        count_size(combos, n as nat) == 1,
        exists|i: int|
            0 <= i < combos.len() && (#[trigger] combos[i]).size as int == n as int
                && combos[i].genomes@ == Seq::new(n as nat, |t: int| t as usize),
{
    lemma_binom_full(n as nat);
    let w = Seq::new(n as nat, |t: int| t as usize);
    assert forall|i: int, j: int| 0 <= i < j < w.len() implies w[i] < w[j] by {
        assert(w[i] == i as usize && w[j] == j as usize);
    }
    assert forall|i: int| 0 <= i < w.len() implies 0 <= #[trigger] w[i] < n as int by {
        assert(w[i] == i as usize);
    }
    assert(range_subset(w, 0, n as int, n as int));
    assert(holds_all_size(combos, n as int, n as int));
}

} // verus!
