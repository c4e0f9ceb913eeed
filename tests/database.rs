use rustyphylotyper::database::{ConditionalProb, KmerDatabase};
use rustyphylotyper::KmerError;

fn value(p: ConditionalProb) -> f64 {
    (p.kmer_in_genus as f64 + (p.kmer_in_corpus as f64 + 0.5) / (p.n_sequences as f64 + 1.0))
        / p.genus_size as f64
}

fn row(db: &KmerDatabase, w: usize) -> Vec<f64> {
    (0..db.n_genera()).map(|g| value(db.conditional_prob(w, g))).collect()
}

fn assert_close(expected: Vec<f64>, actual: Vec<f64>) {
    assert_eq!(expected.len(), actual.len());
    for (e, a) in expected.iter().zip(actual.iter()) {
        assert!((*e - *a).abs() < 1e-6, "expected {} got {}", e, a);
    }
}

#[test]
fn test_genus_specific_conditional_probabilities() {
    let sequences = vec!["ATGCGCTA", "ATGCGCTC", "ATGCGCTC"];
    let genera = vec!["Genus1", "Genus2", "Genus2"];
    let kmer_size = 3;
    let result =
        KmerDatabase::build(&sequences, &genera, kmer_size).expect("Failed to build kmer database");
    assert_close(vec![0.9375000, 0.9583333], row(&result, 25));
    assert_close(vec![0.6875, 0.1250], row(&result, 28));
    assert_close(vec![0.3125, 0.8750], row(&result, 29));
    assert_close(vec![0.06250000, 0.04166667], row(&result, 63));
}

#[test]
fn test_unique_genera() {
    let sequences = vec!["ATGCGCTA", "ATGCGCTC", "ATGCGCTC", ""];
    let genera = vec!["Genus1", "Genus2", "Genus2", "Genus3"];
    let kmer_size = 1;
    let result =
        KmerDatabase::build(&sequences, &genera, kmer_size).expect("Failed to build kmer database");
    let genera = result.genera;
    assert_eq!(genera.len(), 3);
    assert_eq!(genera[0], "Genus1");
    assert_eq!(genera[1], "Genus2");
    assert_eq!(genera[2], "Genus3");
}

#[test]
fn build_terms_exact() {
    let sequences = vec!["ATGCGCTA", "ATGCGCTC", "ATGCGCTC"];
    let genera = vec!["Genus1", "Genus2", "Genus2"];
    let db = KmerDatabase::build(&sequences, &genera, 3).unwrap();
    assert_eq!(db.n_kmers(), 64);
    assert_eq!(db.n_genera(), 2);
    assert_eq!(
        db.conditional_prob(25, 0),
        ConditionalProb { kmer_in_genus: 1, kmer_in_corpus: 3, n_sequences: 3, genus_size: 2 }
    );
    assert_eq!(
        db.conditional_prob(25, 1),
        ConditionalProb { kmer_in_genus: 2, kmer_in_corpus: 3, n_sequences: 3, genus_size: 3 }
    );
    assert_eq!(value(db.conditional_prob(25, 0)), 0.9375);
}

#[test]
fn build_counts_repeated_kmers_every_time() {
    let sequences = vec!["AAAA"];
    let genera = vec!["G"];
    let db = KmerDatabase::build(&sequences, &genera, 1).unwrap();
    let p = db.conditional_prob(0, 0);
    assert_eq!(p.kmer_in_genus, 4);
    assert_eq!(p.kmer_in_corpus, 4);
    assert_eq!(p.genus_size, 2);
    // (4 + 4.5 / 2) / 2
    assert_eq!(value(p), 3.125);
}

#[test]
fn build_probabilities_in_unit_interval() {
    let sequences = vec!["ATGCGCTA", "ATGCGCTC", "ATGCGCTC", "NNACG", ""];
    let genera = vec!["Genus1", "Genus2", "Genus2", "Genus3", "Genus1"];
    let db = KmerDatabase::build(&sequences, &genera, 3).unwrap();
    for w in 0..db.n_kmers() {
        for g in 0..db.n_genera() {
            let v = value(db.conditional_prob(w, g));
            assert!(v > 0.0 && v <= 1.0);
        }
    }
}

#[test]
fn build_first_occurrence_order() {
    let sequences = vec!["A", "C", "G", "T", "A"];
    let genera = vec!["Zeta", "Alpha", "Zeta", "Mid", "Alpha"];
    let db = KmerDatabase::build(&sequences, &genera, 1).unwrap();
    assert_eq!(db.genera, vec!["Zeta".to_string(), "Alpha".to_string(), "Mid".to_string()]);
    assert_eq!(db.conditional_prob(0, 0).genus_size, 3);
    assert_eq!(db.conditional_prob(0, 2).genus_size, 2);
}

#[test]
fn build_is_deterministic() {
    let sequences = vec!["ATGCGCTA", "ATGCGCTC", "GGGTTTAC"];
    let genera = vec!["B", "A", "B"];
    let a = KmerDatabase::build(&sequences, &genera, 2).unwrap();
    let b = KmerDatabase::build(&sequences, &genera, 2).unwrap();
    assert_eq!(a.genera, b.genera);
    for w in 0..a.n_kmers() {
        for g in 0..a.n_genera() {
            assert_eq!(a.conditional_prob(w, g), b.conditional_prob(w, g));
            assert_eq!(value(a.conditional_prob(w, g)).to_bits(), value(b.conditional_prob(w, g)).to_bits());
        }
    }
}

#[test]
fn build_rejects_length_mismatch() {
    let sequences = vec!["ACGT", "ACGT"];
    let genera = vec!["G"];
    assert!(matches!(KmerDatabase::build(&sequences, &genera, 2), Err(KmerError::InvalidArgument)));
}

#[test]
fn build_rejects_zero_kmer_size() {
    let sequences = vec!["ACGT"];
    let genera = vec!["G"];
    assert!(matches!(KmerDatabase::build(&sequences, &genera, 0), Err(KmerError::InvalidArgument)));
}

#[test]
fn build_rejects_oversized_kmer_size() {
    let sequences = vec!["ACGT"];
    let genera = vec!["G"];
    assert!(matches!(KmerDatabase::build(&sequences, &genera, 40), Err(KmerError::InvalidArgument)));
}

#[test]
fn build_empty_corpus() {
    let sequences: Vec<&str> = vec![];
    let genera: Vec<&str> = vec![];
    let db = KmerDatabase::build(&sequences, &genera, 2).unwrap();
    assert_eq!(db.n_genera(), 0);
    assert_eq!(db.n_kmers(), 16);
}
