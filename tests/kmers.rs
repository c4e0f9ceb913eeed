use rustyphylotyper::detect::detect_kmers_across_sequences;
use rustyphylotyper::kmers::{checked_n_kmers, kmers, word_base4};
use rustyphylotyper::KmerError;

#[test]
fn sequence_to_kmers_in_base4() {
    assert!(word_base4(b"ACCTggC").is_ok());
    assert!(word_base4(b"NNA").is_err());
    assert_eq!(kmers(b"ACGT", 1), vec![0, 1, 2, 3]);
    assert_eq!(kmers(b"AAAA", 4), vec![0]);
    assert_eq!(kmers(b"CAAAA", 4), vec![64, 0]);
    assert_eq!(kmers(b"ACGT", 2), vec![1, 6, 11]);
    assert_eq!(kmers(b"NNNN", 2), Vec::<usize>::new());
    assert_eq!(kmers(b"", 1), Vec::<usize>::new());
    assert_eq!(kmers(b"ACGT", 100), Vec::<usize>::new());
    assert_eq!(kmers(b"CAAAAN", 4), vec![64, 0]);
    assert_eq!(kmers(b"CAAAANACGT", 4), vec![64, 0, 27]);
}

#[test]
fn kmer_matrix() {
    let sequences = vec!["ACGT", "ACGT", "ACGT"];
    let kmer_counts = detect_kmers_across_sequences(&sequences, 1);
    assert_eq!(kmer_counts.shape(), [4, 3]);
    assert_eq!(kmer_counts.column(0).iter().sum::<u8>(), 4);
    assert_eq!(kmer_counts.column(1).iter().sum::<u8>(), 4);
    assert_eq!(kmer_counts.column(2).iter().sum::<u8>(), 4);

    let sequences = vec!["ACGT", "ACGT", "ACG"];
    let kmer_counts = detect_kmers_across_sequences(&sequences, 4);
    assert_eq!(kmer_counts.column(0).iter().sum::<u8>(), 1);
    assert_eq!(kmer_counts.column(1).iter().sum::<u8>(), 1);
    assert_eq!(kmer_counts.column(2).iter().sum::<u8>(), 0);
    let col_one = kmer_counts.column(0);
    assert_eq!(
        *col_one.iter().nth(word_base4(b"ACGT").unwrap()).unwrap(),
        1
    );
    let col_two = kmer_counts.column(1);
    assert_eq!(
        *col_two.iter().nth(word_base4(b"ACGT").unwrap()).unwrap(),
        1
    );
}

#[test]
fn word_base4_values() {
    assert_eq!(word_base4(b"ACGT"), Ok(27));
    assert_eq!(word_base4(b"acgt"), Ok(27));
    assert_eq!(word_base4(b"TTT"), Ok(63));
    assert_eq!(word_base4(b"CGC"), Ok(25));
    assert_eq!(word_base4(b""), Ok(0));
    assert_eq!(word_base4(b"ACNT"), Err(KmerError::InvalidBase));
}

#[test]
fn kmers_lowercase_matches_uppercase() {
    assert_eq!(kmers(b"caaaan", 4), vec![64, 0]);
    assert_eq!(kmers(b"AcGt", 2), kmers(b"ACGT", 2));
}

#[test]
fn kmers_count_one_per_window_on_valid_sequence() {
    let seq = b"ACGTTGCAAC";
    for k in 1..=12usize {
        let expected = if seq.len() >= k { seq.len() - k + 1 } else { 0 };
        assert_eq!(kmers(seq, k).len(), expected);
    }
}

#[test]
fn kmers_invalid_symbol_drops_only_its_windows() {
    // Windows 0..=2 hold the `N` at position 2; windows 3 and 4 do not.
    assert_eq!(kmers(b"ACNGTAC", 3), vec![word_base4(b"GTA").unwrap(), word_base4(b"TAC").unwrap()]);
}

#[test]
fn checked_n_kmers_bounds() {
    assert_eq!(checked_n_kmers(0), Some(1));
    assert_eq!(checked_n_kmers(3), Some(64));
    assert_eq!(checked_n_kmers(200), None);
}

#[test]
fn detection_column_flags_and_sums() {
    let sequences = vec!["AAAA", "ACNGT", "", "acgt"];
    let m = detect_kmers_across_sequences(&sequences, 2);
    assert_eq!(m.shape(), [16, 4]);
    // Repeated k-mer counts once.
    assert_eq!(m.column(0).iter().sum::<u8>(), 1);
    assert_eq!(m.get(0, 0), 1);
    // Windows with `N` are skipped: only AC and GT remain.
    assert_eq!(m.column(1).iter().sum::<u8>(), 2);
    assert_eq!(m.get(1, 1), 1);
    assert_eq!(m.get(11, 1), 1);
    // Empty sequence gives an all-zero column.
    assert_eq!(m.column(2).iter().sum::<u8>(), 0);
    assert_eq!(m.column(3).iter().sum::<u8>(), 3);
    for c in 0..4 {
        let len = sequences[c].len();
        let windows = if len >= 2 { len - 1 } else { 0 };
        assert!((m.column(c).iter().sum::<u8>() as usize) <= windows);
        assert!(m.column(c).iter().all(|&f| f == 0 || f == 1));
    }
}
