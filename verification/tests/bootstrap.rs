use gfastats::evaluate::{check_combinations, evaluate_all, one_iteration, Metric};
use gfastats::generator::{combinations_maker, combinations_maker_wrapper, ConfigError};
use gfastats::index::{IndexError, PresenceIndex};
use gfastats::Combination;

fn three_genome_index() -> PresenceIndex {
    // Nodes 0..5 of length 1; genomes touch {0,1,2}, {1,2,3}, {2,3,4}.
    let node_lengths = vec![1u64, 1, 1, 1, 1];
    let genomes = vec![vec![0usize, 1, 2], vec![1, 2, 3], vec![2, 3, 4]];
    PresenceIndex::build(node_lengths, &genomes).unwrap()
}

#[test]
fn index_build_records_genome_lengths() {
    let ix = three_genome_index();
    assert_eq!(ix.genome_lengths, vec![3u64, 3, 3]);
    assert_eq!(ix.genome_nodes[0], vec![0usize, 1, 2]);
    assert_eq!(ix.genome_nodes[2], vec![2usize, 3, 4]);
}

#[test]
fn index_build_rejects_unknown_node() {
    let r = PresenceIndex::build(vec![1u64, 1], &vec![vec![0usize, 5]]);
    assert_eq!(r.err().unwrap(), IndexError::NodeOutOfRange);
}

#[test]
fn index_build_rejects_total_overflow() {
    let r = PresenceIndex::build(vec![u64::MAX, 1], &vec![vec![0usize]]);
    assert_eq!(r.err().unwrap(), IndexError::TotalLengthOverflow);
}

#[test]
fn index_build_deduplicates_traversals() {
    // A genome crossing a node twice counts its length once.
    let ix = PresenceIndex::build(vec![2u64, 3], &vec![vec![0usize, 0, 1, 0]]).unwrap();
    assert_eq!(ix.genome_lengths, vec![5u64]);
}

#[test]
fn singleton_subset_core_equals_pangenome() {
    let ix = three_genome_index();
    for g in 0..3usize {
        let core = ix.core_length(&vec![g]);
        let pan = ix.pangenome_length(&vec![g]);
        assert_eq!(core, 3);
        assert_eq!(pan, 3);
        assert_eq!(core, ix.genome_lengths[g]);
    }
}

#[test]
fn full_subset_scenario() {
    // The end-to-end graph: for k = 3, core is the one shared node and the
    // pangenome covers all five nodes.
    let ix = three_genome_index();
    let all = vec![0usize, 1, 2];
    assert_eq!(ix.core_length(&all), 1);
    assert_eq!(ix.pangenome_length(&all), 5);
}

#[test]
fn core_never_exceeds_pangenome() {
    let ix = three_genome_index();
    for subset in [vec![0usize], vec![0usize, 1], vec![1usize, 2], vec![0usize, 1, 2]] {
        assert!(ix.core_length(&subset) <= ix.pangenome_length(&subset));
    }
}

#[test]
fn growing_subset_is_monotone() {
    // Adding one genome never shrinks the pangenome, never grows the core.
    let ix = three_genome_index();
    let smaller = vec![0usize, 1];
    let larger = vec![0usize, 1, 2];
    assert!(ix.pangenome_length(&larger) >= ix.pangenome_length(&smaller));
    assert!(ix.core_length(&larger) <= ix.core_length(&smaller));
}

#[test]
fn one_iteration_reports_the_pair() {
    let ix = three_genome_index();
    let c = Combination { size: 2, iteration: 7, genomes: vec![0, 2] };
    let r = one_iteration(&ix, &c);
    assert_eq!(r.subset_size, 2);
    assert_eq!(r.iteration_index, 7);
    assert_eq!(r.core_length, 1);
    assert_eq!(r.pangenome_length, 5);
}

#[test]
fn evaluate_all_keeps_generation_order() {
    let ix = three_genome_index();
    let combos = vec![
        Combination { size: 1, iteration: 0, genomes: vec![1] },
        Combination { size: 2, iteration: 0, genomes: vec![0, 1] },
        Combination { size: 3, iteration: 0, genomes: vec![0, 1, 2] },
    ];
    assert!(check_combinations(&combos, 3));
    let res = evaluate_all(&ix, &combos);
    assert_eq!(res.len(), 3);
    assert_eq!(res[0].subset_size, 1);
    assert_eq!(res[0].core_length, 3);
    assert_eq!(res[1].subset_size, 2);
    assert_eq!(res[1].core_length, 2);
    assert_eq!(res[1].pangenome_length, 4);
    assert_eq!(res[2].core_length, 1);
    assert_eq!(res[2].pangenome_length, 5);
}

#[test]
fn maker_enumerates_small_spaces() {
    let (subs, exhausted) = combinations_maker(3, 2, 10);
    assert!(!exhausted);
    assert_eq!(subs, vec![vec![0usize, 1], vec![0, 2], vec![1, 2]]);
}

#[test]
fn maker_single_full_subset() {
    let (subs, exhausted) = combinations_maker(4, 4, 10);
    assert!(!exhausted);
    assert_eq!(subs, vec![vec![0usize, 1, 2, 3]]);
}

#[test]
fn maker_draws_unique_random_subsets() {
    // C(5, 2) = 10 > 9, so nine unique random draws are needed; a draw
    // that ignored its random source would repeat one subset forever.
    let (subs, exhausted) = combinations_maker(5, 2, 9);
    assert!(!exhausted);
    assert_eq!(subs.len(), 9);
    for s in &subs {
        assert_eq!(s.len(), 2);
        assert!(s[0] < s[1] && s[1] < 5);
    }
    for i in 0..subs.len() {
        for j in 0..i {
            assert_ne!(subs[i], subs[j]);
        }
    }
}

#[test]
fn wrapper_generates_every_level() {
    // For every k in 1..=N the count is min(amount, C(N, k)).
    let (combos, warned) = combinations_maker_wrapper(3, 10).unwrap();
    assert!(warned.is_empty());
    let counts: Vec<usize> =
        (1..=3usize).map(|k| combos.iter().filter(|c| c.size == k).count()).collect();
    assert_eq!(counts, vec![3, 3, 1]);
    assert_eq!(combos.len(), 7);
    // Ascending by size, iteration indices 0-based per size.
    for w in combos.windows(2) {
        assert!(w[0].size < w[1].size || (w[0].size == w[1].size && w[0].iteration < w[1].iteration));
    }
    for c in &combos {
        let expect_iter =
            combos.iter().take_while(|d| (d.size, d.iteration) != (c.size, c.iteration)).filter(|d| d.size == c.size).count();
        assert_eq!(c.iteration, expect_iter);
    }
    // The full-size combination holds every genome.
    let full: Vec<&Combination> = combos.iter().filter(|c| c.size == 3).collect();
    assert_eq!(full.len(), 1);
    assert_eq!(full[0].genomes, vec![0, 1, 2]);
}

#[test]
fn wrapper_clamps_amount() {
    let (combos, _) = combinations_maker_wrapper(2, 501).unwrap();
    // C(2, 1) = 2 and C(2, 2) = 1: the clamp leaves small spaces whole.
    assert_eq!(combos.len(), 3);
}

#[test]
fn wrapper_rejects_zero_amount() {
    assert_eq!(combinations_maker_wrapper(3, 0).err().unwrap(), ConfigError::InvalidAmount);
}

#[test]
fn wrapper_on_empty_run() {
    let (combos, warned) = combinations_maker_wrapper(0, 10).unwrap();
    assert!(combos.is_empty());
    assert!(warned.is_empty());
}

#[test]
fn end_to_end_bootstrap() {
    // Generate, evaluate, and check the k = 3 row of the scenario graph.
    let ix = three_genome_index();
    let (combos, _) = combinations_maker_wrapper(3, 10).unwrap();
    assert!(check_combinations(&combos, 3));
    let res = evaluate_all(&ix, &combos);
    assert_eq!(res.len(), combos.len());
    let full: Vec<_> = res.iter().filter(|r| r.subset_size == 3).collect();
    assert_eq!(full.len(), 1);
    assert_eq!(full[0].core_length, 1);
    assert_eq!(full[0].pangenome_length, 5);
}

#[test]
fn metric_variants_pick_their_quantity() {
    let ix = three_genome_index();
    let c = Combination { size: 3, iteration: 0, genomes: vec![0, 1, 2] };
    let r = one_iteration(&ix, &c);
    assert_eq!(Metric::CoreLength.value_of(&r), 1);
    assert_eq!(Metric::PangenomeLength.value_of(&r), 5);
}

#[test]
fn level_filter_restricts_generated_run() {
    // Supplying level 2 on the scenario graph keeps only the three k = 2
    // combinations, exhaustively enumerable since C(3, 2) = 3.
    let ix = three_genome_index();
    let (mut combos, _) = combinations_maker_wrapper(3, 10).unwrap();
    gfastats::filter::reduce_meta(&mut combos, -1, 2);
    assert_eq!(combos.len(), 3);
    assert!(combos.iter().all(|c| c.size == 2));
    let res = evaluate_all(&ix, &combos);
    assert_eq!(res.len(), 3);
    let mut pairs: Vec<(u64, u64)> =
        res.iter().map(|r| (r.core_length, r.pangenome_length)).collect();
    pairs.sort();
    assert_eq!(pairs, vec![(1, 5), (2, 4), (2, 4)]);
}
