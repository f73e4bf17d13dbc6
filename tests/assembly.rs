use rosalind::assembly::{
    assemble, assemble_with_min_overlap, assembly_round, build_overlap_index, get_largest_overlaps,
    merge_records, min_overlap_for, AssemblyError, OverlapRecord,
};
use rosalind::overlap::{get_suffix_prefix_match, OverlapError};

fn frags(items: &[&str]) -> Vec<Vec<u8>> {
    items.iter().map(|s| s.as_bytes().to_vec()).collect()
}

#[test]
fn assembles_four_reads() {
    let f = frags(&["ATTAGACCTG", "CCTGCCGGAA", "AGACCTGCCG", "GCCGGAATAC"]);
    assert_eq!(min_overlap_for(&f), 5);
    assert_eq!(assemble(&f), Ok(b"ATTAGACCTGCCGGAATAC".to_vec()));
}

#[test]
fn assembly_ignores_input_order() {
    let base = ["ATTAGACCTG", "CCTGCCGGAA", "AGACCTGCCG", "GCCGGAATAC"];
    let orders: [[usize; 4]; 6] = [
        [0, 1, 2, 3],
        [3, 2, 1, 0],
        [1, 3, 0, 2],
        [2, 0, 3, 1],
        [3, 0, 2, 1],
        [1, 2, 3, 0],
    ];
    for order in orders.iter() {
        let items: Vec<&str> = order.iter().map(|&i| base[i]).collect();
        assert_eq!(assemble(&frags(&items)), Ok(b"ATTAGACCTGCCGGAATAC".to_vec()));
    }
}

#[test]
fn stuck_without_overlap() {
    let f = frags(&["AAAA", "TTTT"]);
    assert_eq!(build_overlap_index(&f, 2), Vec::<OverlapRecord>::new());
    assert_eq!(assembly_round(&f, 2), None);
    assert_eq!(get_largest_overlaps(&f, 2), None);
    assert_eq!(assemble(&f), Err(AssemblyError::NoProgressPossible));
}

#[test]
fn two_reads_overlap_by_seven() {
    let f = frags(&["ACGTACGT", "CGTACGTA"]);
    assert_eq!(get_suffix_prefix_match(&f[0], &f[1], 4), Ok(7));
    assert_eq!(merge_records(&f[0], &f[1], 7), b"ACGTACGTA".to_vec());
    assert_eq!(get_largest_overlaps(&f, 4), Some((7, vec![(0, 1)])));
    assert_eq!(assemble_with_min_overlap(&f, 4), Ok(b"ACGTACGTA".to_vec()));
}

#[test]
fn single_fragment_is_returned_unchanged() {
    let f = frags(&["GATTACA"]);
    assert_eq!(assemble(&f), Ok(b"GATTACA".to_vec()));
    assert_eq!(assemble_with_min_overlap(&f, 100), Ok(b"GATTACA".to_vec()));
}

#[test]
fn overlap_is_at_least_shared_length() {
    // "CCGGAA" ends the first read and starts the second.
    let a = b"TTACCGGAA".to_vec();
    let b = b"CCGGAAGT".to_vec();
    let k = get_suffix_prefix_match(&a, &b, 3).unwrap();
    assert!(k >= 6);
    assert_eq!(k, 6);
}

#[test]
fn merged_length_is_sum_less_overlap() {
    let a = b"ATTAGACCTG".to_vec();
    let b = b"AGACCTGCCG".to_vec();
    let k = get_suffix_prefix_match(&a, &b, 5).unwrap();
    assert_eq!(k, 7);
    let m = merge_records(&a, &b, k);
    assert_eq!(m.len(), a.len() + b.len() - k);
    assert_eq!(m, b"ATTAGACCTGCCG".to_vec());
}

#[test]
fn round_shrinks_fragment_set() {
    let f = frags(&["ATTAGACCTG", "CCTGCCGGAA", "AGACCTGCCG", "GCCGGAATAC"]);
    let next = assembly_round(&f, 5).unwrap();
    assert!(next.len() < f.len());
    assert_eq!(
        next,
        frags(&["ATTAGACCTGCCG", "CCTGCCGGAATAC"])
    );
}

#[test]
fn overlap_errors() {
    assert_eq!(
        get_suffix_prefix_match(b"AC", b"ACGT", 3),
        Err(OverlapError::InsufficientLength)
    );
    assert_eq!(
        get_suffix_prefix_match(b"ACGT", b"AC", 3),
        Err(OverlapError::InsufficientLength)
    );
    assert_eq!(
        get_suffix_prefix_match(b"AAAA", b"TTTT", 2),
        Err(OverlapError::NoOverlapFound)
    );
    assert_eq!(
        get_suffix_prefix_match(b"GATCAT", b"GATCAT", 2),
        Err(OverlapError::UnextendableMatch)
    );
}

#[test]
fn index_lists_pairs_in_generation_order() {
    let f = frags(&["ACGTACGT", "CGTACGTA"]);
    assert_eq!(
        build_overlap_index(&f, 4),
        vec![
            OverlapRecord { source: 0, target: 1, length: 7 },
            OverlapRecord { source: 1, target: 0, length: 5 },
        ]
    );
}

#[test]
fn selection_skips_used_fragments() {
    // Both 0 -> 1 and 0 -> 2 overlap by 4; only the first is taken.
    let f = frags(&["GGGGACGT", "ACGTCCCC", "ACGTTTTT"]);
    assert_eq!(get_largest_overlaps(&f, 4), Some((4, vec![(0, 1)])));
    let next = assembly_round(&f, 4).unwrap();
    assert_eq!(next, frags(&["GGGGACGTCCCC", "ACGTTTTT"]));
}
