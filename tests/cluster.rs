use smafa::{bit_mismatches, cluster, decode, encode, get_distances, nearest};
use smafa::{ClusterError, Clusterer};

fn seqs(items: &[&str]) -> Vec<Vec<u8>> {
    items.iter().map(|s| s.as_bytes().to_vec()).collect()
}

fn run(items: &[&str], max_divergence: u32) -> String {
    let out = cluster(&seqs(items), max_divergence).unwrap();
    String::from_utf8(out).unwrap()
}

#[test]
fn test_simple() {
    assert_eq!(
        "ATGC\tATGC
ATGG\tATGC
AAAA\tAAAA
",
        run(&["ATGC", "ATGG", "AAAA"], 1)
    )
}

#[test]
fn test_bug1() {
    assert_eq!(
        "ATGCAAAAA\tATGCAAAAA\n\
         ATAAAAAAA\tATGCAAAAA\n\
         TTAAAAAAA\tTTAAAAAAA\n",
        run(&["ATGCAAAAA", "ATAAAAAAA", "TTAAAAAAA"], 2)
    )
}

#[test]
fn test_best_hit_changes_bug() {
    // The fourth sequence repeats the second one; it is now nearer to the
    // second representative, but must not be reported again.
    assert_eq!(
        "ATGCAAAAA\tATGCAAAAA\n\
         ATAAAAAAA\tATGCAAAAA\n\
         TTAAAAAAA\tTTAAAAAAA\n",
        run(&["ATGCAAAAA", "ATAAAAAAA", "TTAAAAAAA", "ATAAAAAAA"], 2)
    )
}

#[test]
fn consecutive_duplicate_gives_one_line() {
    assert_eq!("ACGT\tACGT\n", run(&["ACGT", "ACGT"], 0));
}

#[test]
fn duplicate_keeps_first_assignment() {
    assert_eq!(
        "ATGC\tATGC\nATGG\tATGC\n",
        run(&["ATGC", "ATGG", "ATGG"], 1)
    );
}

#[test]
fn first_sequence_is_representative_with_zero_divergence() {
    assert_eq!("GATT\tGATT\n", run(&["GATT"], 0));
    let mut c = Clusterer::new(0);
    assert_eq!(Ok(Some(0)), c.add(&b"GATT".to_vec()));
    assert_eq!(1, c.representative_count());
}

#[test]
fn zero_divergence_separates_every_distinct_sequence() {
    assert_eq!("AAAA\tAAAA\nAAAT\tAAAT\n", run(&["AAAA", "AAAT"], 0));
}

#[test]
fn earliest_representative_wins_tie() {
    assert_eq!(
        "AAAA\tAAAA\nTTAA\tTTAA\nTAAA\tAAAA\n",
        run(&["AAAA", "TTAA", "TAAA"], 1)
    );
}

#[test]
fn repeated_runs_are_identical() {
    let input = ["ATGCAAAAA", "ATAAAAAAA", "TTAAAAAAA", "GGGGGGGGG"];
    assert_eq!(run(&input, 2), run(&input, 2));
}

#[test]
fn empty_input_gives_empty_output() {
    assert_eq!("", run(&[], 3));
}

#[test]
fn unequal_length_is_an_error() {
    let r = cluster(&seqs(&["ACGT", "ACGT", "ACG"]), 1);
    assert_eq!(
        Err(ClusterError::LengthMismatch { record: 2, expected: 4, found: 3 }),
        r
    );
}

#[test]
fn unequal_length_leaves_clusterer_unchanged() {
    let mut c = Clusterer::new(1);
    assert_eq!(Ok(Some(0)), c.add(&b"ACGT".to_vec()));
    assert_eq!(
        Err(ClusterError::LengthMismatch { record: 1, expected: 4, found: 5 }),
        c.add(&b"ACGTA".to_vec())
    );
    assert_eq!(1, c.processed());
    assert_eq!(1, c.representative_count());
    assert_eq!(Ok(Some(0)), c.add(&b"ACGA".to_vec()));
    assert_eq!(Ok(None), c.add(&b"ACGA".to_vec()));
    assert_eq!(3, c.processed());
}

#[test]
fn clusterer_grows_representatives() {
    let mut c = Clusterer::new(1);
    assert_eq!(Ok(Some(0)), c.add(&b"ATGC".to_vec()));
    assert_eq!(Ok(Some(0)), c.add(&b"ATGG".to_vec()));
    assert_eq!(Ok(Some(1)), c.add(&b"AAAA".to_vec()));
    assert_eq!(2, c.representative_count());
    assert_eq!(b"AAAA".to_vec(), c.representative_text(1));
    assert_eq!(b"ATGC".to_vec(), c.representative_text(0));
}

#[test]
fn encoding_is_one_hot() {
    let e = encode(&b"AC-".to_vec());
    assert_eq!(
        vec![
            true, false, false, false, false, false, true, false, false, false, false, false,
            false, false, true
        ],
        e
    );
    assert_eq!(vec![false; 5], encode(&b"X".to_vec()));
}

#[test]
fn decode_inverts_encode() {
    let s = b"ACGT-TGCA".to_vec();
    assert_eq!(s, decode(&encode(&s)));
    assert_eq!(b"ANT".to_vec(), decode(&encode(&b"AXT".to_vec())));
}

#[test]
fn decode_ignores_partial_chunk() {
    let mut e = encode(&b"G".to_vec());
    e.push(true);
    assert_eq!(b"G".to_vec(), decode(&e));
}

#[test]
fn mismatch_is_twice_symbol_differences() {
    let a = encode(&b"ATGCAAAAA".to_vec());
    let b = encode(&b"TTAAAAAAA".to_vec());
    assert_eq!(6, bit_mismatches(&a, &b));
    assert_eq!(0, bit_mismatches(&a, &a));
}

#[test]
fn mismatch_is_symmetric() {
    let a = encode(&b"ACGT".to_vec());
    let b = encode(&b"AGGA".to_vec());
    assert_eq!(bit_mismatches(&a, &b), bit_mismatches(&b, &a));
    assert_eq!(4, bit_mismatches(&b, &a));
}

#[test]
fn unrecognized_symbol_costs_one_bit() {
    let a = encode(&b"A".to_vec());
    let n = encode(&b"N".to_vec());
    assert_eq!(1, bit_mismatches(&a, &n));
}

#[test]
fn line_is_tab_separated() {
    assert_eq!(
        b"ACGA\tACGT\n".to_vec(),
        smafa::format_line(&b"ACGA".to_vec(), &b"ACGT".to_vec())
    );
}

#[test]
fn distances_follow_representative_order() {
    let reps = vec![encode(&b"AAAA".to_vec()), encode(&b"TTAA".to_vec())];
    let q = encode(&b"TAAA".to_vec());
    let mut d = vec![0usize; 2];
    get_distances(&reps, &q, &mut d);
    assert_eq!(vec![2, 2], d);
    assert_eq!(0, nearest(&d));
    assert_eq!(2, nearest(&vec![5, 4, 3, 3]));
}
