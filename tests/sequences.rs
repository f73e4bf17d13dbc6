use rosalind::counting::{
    base_counts, checked_factorial, checked_fib, checked_fibd, count_symbol, perfect_matchings,
};
use rosalind::lexicon::lexicon;
use rosalind::motif::{identify_nglyco_motifs, uniprot_id};
use rosalind::splicing::{codon, find_introns, splice_sequence, translate_rna, Codon};
use rosalind::subsequence::{longest_decreasing_subsequence, longest_increasing_subsequence};

#[test]
fn counts_bases() {
    let s = b"AGCTTTTCATTCTGACTGCAACGGGCAATATGTCTCTGTGTGGATTAAAAAAAGAGTGTCTGATAGCAGC";
    assert_eq!(base_counts(s), (20, 12, 17, 21));
    assert_eq!(count_symbol(b"", b'A'), 0);
}

#[test]
fn counts_perfect_matchings() {
    assert_eq!(perfect_matchings(b"AGCUAGUCAU"), 12);
    assert_eq!(perfect_matchings(b"UUCC"), 1);
}

#[test]
fn checked_counts() {
    assert_eq!(checked_factorial(5), Some(120));
    assert!(checked_factorial(34).is_some());
    assert_eq!(checked_factorial(35), None);
    assert_eq!(checked_fib(5, 3), Some(19));
    assert_eq!(checked_fib(1, 3), None);
    assert_eq!(checked_fib(200, 5), None);
    assert_eq!(checked_fibd(6, 3), Some(4));
    assert_eq!(checked_fibd(0, 3), Some(0));
}

#[test]
fn lexicon_enumerates_in_order() {
    let mut lex = lexicon(vec!['A', 'C', 'G', 'T'], 2);
    let mut words: Vec<String> = Vec::new();
    while let Some(w) = lex.next() {
        words.push(w.iter().collect());
    }
    let expected = [
        "AA", "AC", "AG", "AT", "CA", "CC", "CG", "CT", "GA", "GC", "GG", "GT", "TA", "TC", "TG",
        "TT",
    ];
    assert_eq!(words, expected.iter().map(|s| s.to_string()).collect::<Vec<String>>());
    assert!(lex.next().is_none());
}

#[test]
fn lexicon_two_letters_length_one() {
    let mut lex = lexicon(vec!['X', 'Y'], 1);
    assert_eq!(lex.next(), Some(vec!['X']));
    assert_eq!(lex.next(), Some(vec!['Y']));
    assert_eq!(lex.next(), None);
}

#[test]
fn monotone_subsequences() {
    let x = vec![5, 1, 4, 2, 3];
    assert_eq!(longest_increasing_subsequence(&x), vec![1, 2, 3]);
    assert_eq!(longest_decreasing_subsequence(&x), vec![5, 4, 3]);
    assert_eq!(longest_increasing_subsequence(&vec![]), Vec::<usize>::new());
    assert_eq!(longest_increasing_subsequence(&vec![7, 7, 7]), vec![7]);
    assert_eq!(longest_decreasing_subsequence(&vec![1, 2, 3]).len(), 1);
}

#[test]
fn uniprot_accessions() {
    assert_eq!(uniprot_id(b"B5ZC00_ECOLI"), b"B5ZC00".to_vec());
    assert_eq!(uniprot_id(b"P07204"), b"P07204".to_vec());
    assert_eq!(uniprot_id(b"_X"), Vec::<u8>::new());
}

#[test]
fn nglyco_motif_positions() {
    assert_eq!(identify_nglyco_motifs(b"XNGSAXX"), vec![2]);
    assert_eq!(identify_nglyco_motifs(b"NPSANGTAX"), vec![5]);
    assert_eq!(identify_nglyco_motifs(b"XXNGSA"), vec![3]);
    assert_eq!(identify_nglyco_motifs(b"NGSA"), vec![1]);
    assert_eq!(identify_nglyco_motifs(b"NGS"), Vec::<usize>::new());
}

#[test]
fn codon_lookup() {
    assert_eq!(codon(b'A', b'T', b'G'), Codon::Amino(b'M'));
    assert_eq!(codon(b'T', b'A', b'A'), Codon::Stop);
    assert_eq!(codon(b'A', b'U', b'G'), Codon::Unknown);
    assert_eq!(translate_rna(b"ATGGCCTAA"), b"MA".to_vec());
}

#[test]
fn splices_and_translates() {
    let template = b"ATGGTCTACATAGCTGACAAACAGCACGTAGCAATCGGTCGAATCTCGAGAGGCATATGGTCACATGATCGGTCGAGCGTGTTTCAAAGTTTGCGCCTAG";
    let introns = vec![b"ATCGGTCGAA".to_vec(), b"ATCGGTCGAGCGTGT".to_vec()];
    let regions = find_introns(template, &introns);
    assert_eq!(regions, vec![(33, 43), (67, 82)]);
    let spliced = splice_sequence(template, &regions).unwrap();
    assert_eq!(spliced.len(), template.len() - 25);
    assert_eq!(translate_rna(&spliced), b"MVYIADKQHVASREAYGHMFKVCA".to_vec());
}

#[test]
fn intron_matches_do_not_overlap() {
    assert_eq!(find_introns(b"AAAA", &vec![b"AA".to_vec()]), vec![(0, 2), (2, 4)]);
    assert_eq!(find_introns(b"ACGT", &vec![Vec::new()]), Vec::<(usize, usize)>::new());
}

#[test]
fn splice_rejects_regions_out_of_range() {
    assert_eq!(splice_sequence(b"ACGT", &vec![(1, 9)]), None);
    assert_eq!(splice_sequence(b"ACGTAC", &vec![(0, 2), (4, 6)]), Some(b"GT".to_vec()));
}

#[test]
fn intron_regions_come_out_sorted() {
    let template = b"GGAATTCCAATT";
    let introns = vec![b"CC".to_vec(), b"AATT".to_vec()];
    assert_eq!(find_introns(template, &introns), vec![(2, 6), (6, 8), (8, 12)]);
}
