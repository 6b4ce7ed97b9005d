use gfastats::filter::reduce_meta;
use gfastats::meta::{encode_combination, encode_meta, parse_combination, parse_meta, MetaLineError};
use gfastats::Combination;

fn sample_combos() -> Vec<Combination> {
    vec![
        Combination { size: 1, iteration: 0, genomes: vec![2] },
        Combination { size: 2, iteration: 0, genomes: vec![0, 1] },
        Combination { size: 2, iteration: 1, genomes: vec![0, 2] },
        Combination { size: 3, iteration: 0, genomes: vec![0, 1, 2] },
    ]
}

#[test]
fn encode_is_tab_and_comma_separated() {
    let c = Combination { size: 2, iteration: 1, genomes: vec![0, 12] };
    assert_eq!(encode_combination(&c), b"2\t1\t0,12".to_vec());
    let empty = Combination { size: 0, iteration: 3, genomes: vec![] };
    assert_eq!(encode_combination(&empty), b"0\t3\t".to_vec());
}

#[test]
fn meta_round_trip_is_exact() {
    // Writing combinations and reading them back yields the same triples.
    let combos = sample_combos();
    let lines = encode_meta(&combos);
    let back = parse_meta(&lines, 3).unwrap();
    assert_eq!(back, combos);
}

#[test]
fn parse_line_round_trip() {
    let c = Combination { size: 2, iteration: 41, genomes: vec![1, 9] };
    let line = encode_combination(&c);
    assert_eq!(parse_combination(&line, 10).unwrap(), c);
}

#[test]
fn parse_rejects_malformed_lines() {
    for bad in [
        &b"abc"[..],
        &b"2\t0"[..],
        &b"2\t0\t1"[..],
        &b"2\t0\t1,0"[..],
        &b"2\t0\t01,2"[..],
        &b"2\t0\t1,2,"[..],
        &b"2\t\t1,2"[..],
        &b""[..],
    ] {
        assert_eq!(
            parse_combination(&bad.to_vec(), 5).err().unwrap(),
            MetaLineError::MalformedMetaLine
        );
    }
}

#[test]
fn parse_rejects_out_of_range_index() {
    assert_eq!(
        parse_combination(&b"2\t0\t1,7".to_vec(), 5).err().unwrap(),
        MetaLineError::IndexOutOfRange
    );
}

#[test]
fn parse_meta_reports_offending_line() {
    let lines = vec![b"1\t0\t2".to_vec(), b"2\t0\t1,1".to_vec()];
    let (line, kind) = parse_meta(&lines, 3).err().unwrap();
    assert_eq!(line, 1);
    assert_eq!(kind, MetaLineError::MalformedMetaLine);
}

#[test]
fn filter_by_level() {
    // Restricting to level 2 keeps exactly the size-2 combinations.
    let mut combos = sample_combos();
    reduce_meta(&mut combos, -1, 2);
    assert_eq!(combos.len(), 2);
    assert!(combos.iter().all(|c| c.size == 2));
    assert_eq!(combos[0].iteration, 0);
    assert_eq!(combos[1].iteration, 1);
}

#[test]
fn filter_by_line() {
    let mut combos = sample_combos();
    reduce_meta(&mut combos, 0, -1);
    assert_eq!(combos.len(), 3);
    assert!(combos.iter().all(|c| c.iteration == 0));
}

#[test]
fn filter_combines_selectors() {
    let mut combos = sample_combos();
    reduce_meta(&mut combos, 1, 2);
    assert_eq!(combos.len(), 1);
    assert_eq!(combos[0].genomes, vec![0, 2]);
}

#[test]
fn filter_negative_selectors_keep_everything() {
    let mut combos = sample_combos();
    reduce_meta(&mut combos, -1, -1);
    assert_eq!(combos, sample_combos());
}

#[test]
fn filter_may_empty_the_list() {
    let mut combos = sample_combos();
    reduce_meta(&mut combos, -1, 9);
    assert!(combos.is_empty());
}

#[test]
fn filter_is_idempotent() {
    // Filtering an already-filtered list by the same selectors is a no-op.
    let mut once = sample_combos();
    reduce_meta(&mut once, 0, 2);
    let mut twice = once.clone();
    reduce_meta(&mut twice, 0, 2);
    assert_eq!(once, twice);
}

#[test]
fn meta_round_trip_of_a_generated_run() {
    let (combos, _) = gfastats::generator::combinations_maker_wrapper(4, 3).unwrap();
    let lines = encode_meta(&combos);
    let back = parse_meta(&lines, 4).unwrap();
    assert_eq!(back, combos);
}
