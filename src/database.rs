//! Genus-conditional k-mer probability database built from a labelled corpus.
use vstd::prelude::*;
use vstd::string::StringSliceAdditionalSpecFns;

use crate::kmers::{checked_n_kmers, index_fits, kmers, kmers_of, n_windows, pow4};
use crate::KmerError;

verus! {

/// The bytes of each sequence of a corpus.
pub open spec fn corpus_of(sequences: Seq<&str>) -> Seq<Seq<u8>> {
    sequences.map_values(|s: &str| s.spec_bytes())
}

/// The characters of each label.
pub open spec fn labels_of(genera: Seq<&str>) -> Seq<Seq<char>> {
    genera.map_values(|s: &str| s@)
}

/// Total length of the first `n` sequences.
pub open spec fn bytes_upto(seqs: Seq<Seq<u8>>, n: nat) -> nat
    decreases n,
{
    if n == 0 || n > seqs.len() {
        0
    } else {
        bytes_upto(seqs, (n - 1) as nat) + seqs[n - 1].len()
    }
}

/// Distinct labels among the first `n`, in order of first occurrence.
pub open spec fn distinct_upto(labels: Seq<Seq<char>>, n: nat) -> Seq<Seq<char>>
    decreases n,
{
    if n == 0 || n > labels.len() {
        Seq::empty()
    } else {
        let prev = distinct_upto(labels, (n - 1) as nat);
        if prev.contains(labels[n - 1]) {
            prev
        } else {
            prev.push(labels[n - 1])
        }
    }
}

/// Distinct labels of a corpus, in order of first occurrence.
pub open spec fn distinct_labels(labels: Seq<Seq<char>>) -> Seq<Seq<char>> {
    distinct_upto(labels, labels.len())
}

/// How many of the first `n` labels equal `label`.
pub open spec fn label_count_upto(labels: Seq<Seq<char>>, label: Seq<char>, n: nat) -> nat
    decreases n,
{
    if n == 0 || n > labels.len() {
        0
    } else {
        label_count_upto(labels, label, (n - 1) as nat) + if labels[n - 1] == label {
            1nat
        } else {
            0nat
        }
    }
}

/// How often `w` occurs in `ks`.
pub open spec fn occurrences(ks: Seq<nat>, w: nat) -> nat
    decreases ks.len(),
{
    if ks.len() == 0 {
        0
    } else {
        occurrences(ks.drop_last(), w) + if ks.last() == w {
            1nat
        } else {
            0nat
        }
    }
}

/// Occurrences of k-mer `w` over the first `n` sequences.
pub open spec fn kmer_total_upto(seqs: Seq<Seq<u8>>, k: nat, w: nat, n: nat) -> nat
    decreases n,
{
    if n == 0 || n > seqs.len() {
        0
    } else {
        kmer_total_upto(seqs, k, w, (n - 1) as nat) + occurrences(kmers_of(seqs[n - 1], k), w)
    }
}

/// Occurrences of k-mer `w` over those of the first `n` sequences whose
/// label is `label`.
pub open spec fn genus_kmer_upto(
    seqs: Seq<Seq<u8>>,
    labels: Seq<Seq<char>>,
    label: Seq<char>,
    k: nat,
    w: nat,
    n: nat,
) -> nat
    decreases n,
{
    if n == 0 || n > seqs.len() || n > labels.len() {
        0
    } else {
        genus_kmer_upto(seqs, labels, label, k, w, (n - 1) as nat) + if labels[n - 1] == label {
            occurrences(kmers_of(seqs[n - 1], k), w)
        } else {
            0nat
        }
    }
}

/// The counts a database holds.
pub struct DatabaseModel {
    /// Distinct genus labels, in order of first occurrence.
    pub genera: Seq<Seq<char>>,
    /// Number of training sequences.
    pub n_sequences: nat,
    /// Per genus: its number of sequences plus a pseudocount of one.
    pub genus_counts: Seq<nat>,
    /// Per k-mer: its occurrences over the whole corpus.
    pub kmer_counts: Seq<nat>,
    /// Per genus, then per k-mer: its occurrences in the sequences of that genus.
    pub genus_kmer_counts: Seq<Seq<nat>>,
}

/// The database of a corpus of sequences `seqs`, labelled `labels`, for
/// k-mers of size `k`.
pub open spec fn database_model(seqs: Seq<Seq<u8>>, labels: Seq<Seq<char>>, k: nat) -> DatabaseModel {
    let genera = distinct_labels(labels);
    DatabaseModel {
        genera,
        n_sequences: seqs.len(),
        genus_counts: Seq::new(
            genera.len(),
            |g: int| label_count_upto(labels, genera[g], labels.len()) + 1,
        ),
        kmer_counts: Seq::new(pow4(k), |w: int| kmer_total_upto(seqs, k, w as nat, seqs.len())),
        genus_kmer_counts: Seq::new(
            genera.len(),
            |g: int|
                Seq::new(
                    pow4(k),
                    |w: int| genus_kmer_upto(seqs, labels, genera[g], k, w as nat, seqs.len()),
                ),
        ),
    }
}

/// Numerator of the conditional probability of k-mer `w` given genus `g`,
/// over the denominator `prob_denominator(m, g)`:
/// `(c + (p + 1/2) / (N + 1)) / n_g` with `c` the occurrences of `w` in the
/// genus, `p` those in the corpus, `N` the corpus size and `n_g` the
/// pseudocount-seeded genus size.
pub open spec fn prob_numerator(m: DatabaseModel, w: int, g: int) -> int {
    (2 * (m.n_sequences + 1) * m.genus_kmer_counts[g][w] + 2 * m.kmer_counts[w] + 1) as int
}

/// Denominator of the conditional probability of any k-mer given genus `g`.
pub open spec fn prob_denominator(m: DatabaseModel, g: int) -> int {
    (2 * (m.n_sequences + 1) * m.genus_counts[g]) as int
}

/// A k-mer occurs at most as often in `ks` as `ks` is long.
pub proof fn lemma_occurrences_bound(ks: Seq<nat>, w: nat)
    ensures
        occurrences(ks, w) <= ks.len(),
    decreases ks.len(),
{
    if ks.len() > 0 {
        lemma_occurrences_bound(ks.drop_last(), w);
    }
}

/// A k-mer occurs at most as often in a sequence as the sequence is long.
pub proof fn lemma_sequence_occurrences_bound(s: Seq<u8>, k: nat, w: nat)
    requires
        k >= 1,
    ensures
        occurrences(kmers_of(s, k), w) <= s.len(),
{
    lemma_occurrences_bound(kmers_of(s, k), w);
    crate::kmers::lemma_kmers_of_bounds(s, k);
}

proof fn lemma_kmer_total_bound(seqs: Seq<Seq<u8>>, k: nat, w: nat, n: nat)
    requires
        k >= 1,
        n <= seqs.len(),
    ensures
        kmer_total_upto(seqs, k, w, n) <= bytes_upto(seqs, n),
    decreases n,
{
    if n > 0 {
        lemma_kmer_total_bound(seqs, k, w, (n - 1) as nat);
        lemma_sequence_occurrences_bound(seqs[n - 1], k, w);
    }
}

proof fn lemma_genus_kmer_bound(
    seqs: Seq<Seq<u8>>,
    labels: Seq<Seq<char>>,
    label: Seq<char>,
    k: nat,
    w: nat,
    n: nat,
)
    requires
        k >= 1,
        n <= seqs.len(),
        n <= labels.len(),
    ensures
        genus_kmer_upto(seqs, labels, label, k, w, n) <= bytes_upto(seqs, n),
    decreases n,
{
    if n > 0 {
        lemma_genus_kmer_bound(seqs, labels, label, k, w, (n - 1) as nat);
        lemma_sequence_occurrences_bound(seqs[n - 1], k, w);
    }
}

proof fn lemma_bytes_upto_monotonic(seqs: Seq<Seq<u8>>, a: nat, b: nat)
    requires
        a <= b <= seqs.len(),
    ensures
        bytes_upto(seqs, a) <= bytes_upto(seqs, b),
    decreases b,
{
    if a < b {
        lemma_bytes_upto_monotonic(seqs, a, (b - 1) as nat);
    }
}

proof fn lemma_label_count_bound(labels: Seq<Seq<char>>, label: Seq<char>, n: nat)
    requires
        n <= labels.len(),
    ensures
        label_count_upto(labels, label, n) <= n,
    decreases n,
{
    if n > 0 {
        lemma_label_count_bound(labels, label, (n - 1) as nat);
    }
}

/// The distinct labels of a prefix hold each label of it once, and no other.
pub proof fn lemma_distinct_upto(labels: Seq<Seq<char>>, n: nat)
    requires
        n <= labels.len(),
    ensures
        distinct_upto(labels, n).no_duplicates(),
        forall|i: int| 0 <= i < n ==> distinct_upto(labels, n).contains(#[trigger] labels[i]),
        forall|x: Seq<char>|
            #[trigger] distinct_upto(labels, n).contains(x) ==> exists|i: int|
                0 <= i < n && labels[i] == x,
    decreases n,
{
    if n > 0 {
        lemma_distinct_upto(labels, (n - 1) as nat);
        let prev = distinct_upto(labels, (n - 1) as nat);
        let cur = distinct_upto(labels, n);
        assert forall|i: int| 0 <= i < n implies cur.contains(#[trigger] labels[i]) by {
            if i < n - 1 {
                assert(prev.contains(labels[i]));
                let j = choose|j: int| 0 <= j < prev.len() && prev[j] == labels[i];
                assert(cur[j] == labels[i]);
            } else if !prev.contains(labels[n - 1]) {
                assert(cur[prev.len() as int] == labels[i]);
            }
        }
        assert forall|x: Seq<char>| #[trigger] cur.contains(x) implies exists|i: int|
            0 <= i < n && labels[i] == x by {
            let j = choose|j: int| 0 <= j < cur.len() && cur[j] == x;
            if j < prev.len() {
                assert(prev[j] == x);
                assert(prev.contains(x));
            } else {
                assert(labels[n - 1] == x);
            }
        }
    }
}

/// A label absent from the distinct labels of a prefix does not occur in it.
proof fn lemma_label_count_absent(labels: Seq<Seq<char>>, label: Seq<char>, n: nat)
    requires
        n <= labels.len(),
        !distinct_upto(labels, n).contains(label),
    ensures
        label_count_upto(labels, label, n) == 0,
    decreases n,
{
    if n > 0 {
        lemma_distinct_upto(labels, n);
        lemma_distinct_upto(labels, (n - 1) as nat);
        let prev = distinct_upto(labels, (n - 1) as nat);
        if prev.contains(label) {
            let j = choose|j: int| 0 <= j < prev.len() && prev[j] == label;
            assert(distinct_upto(labels, n)[j] == label);
        }
        lemma_label_count_absent(labels, label, (n - 1) as nat);
    }
}

/// Whether every count of a corpus fits in a `usize`: the number of
/// sequences plus one, and their total length, which bounds every k-mer
/// count.
pub open spec fn counts_fit(sequences: Seq<&str>) -> bool {
    sequences.len() < usize::MAX && bytes_upto(corpus_of(sequences), sequences.len()) <= usize::MAX
}

fn corpus_counts_fit(sequences: &[&str]) -> (r: bool)
    ensures
        r == counts_fit(sequences@),
{
    let ghost seqs = corpus_of(sequences@);
    if sequences.len() == usize::MAX {
        return false;
    }
    let mut total: usize = 0;
    let mut i: usize = 0;
    while i < sequences.len()
        invariant
            i <= sequences@.len(),
            seqs == corpus_of(sequences@),
            total as nat == bytes_upto(seqs, i as nat),
        decreases sequences@.len() - i,
    {
        let len = sequences[i].as_bytes().len();
        assert(len as nat == seqs[i as int].len());
        match total.checked_add(len) {
            Some(t) => {
                total = t;
            },
            None => {
                proof {
                    lemma_bytes_upto_monotonic(seqs, i as nat + 1, sequences@.len() as nat);
                }
                return false;
            },
        }
        i = i + 1;
    }
    true
}

/// A vector of `n` zeros.
fn zeros(n: usize) -> (r: Vec<usize>)
    ensures
        r@.len() == n,
        forall|i: int| 0 <= i < n ==> #[trigger] r@[i] == 0,
{
    let mut v: Vec<usize> = Vec::new();
    let mut i: usize = 0;
    while i < n
        invariant
            i <= n,
            v@.len() == i,
            forall|j: int| 0 <= j < i ==> #[trigger] v@[j] == 0,
        decreases n - i,
    {
        v.push(0);
        i = i + 1;
    }
    v
}

/// Adds to `counts[w]` every occurrence of k-mer `w` in `sequence`.
fn count_into(counts: &mut Vec<usize>, sequence: &[u8], k: usize)
    requires
        k >= 1,
        index_fits(k as nat),
        old(counts)@.len() == pow4(k as nat),
        forall|w: int|
            0 <= w < old(counts)@.len() ==> #[trigger] old(counts)@[w] + sequence@.len()
                <= usize::MAX,
    ensures
        final(counts)@.len() == old(counts)@.len(),
        forall|w: int|
            0 <= w < old(counts)@.len() ==> #[trigger] final(counts)@[w] == old(counts)@[w]
                + occurrences(kmers_of(sequence@, k as nat), w as nat),
{
    let ghost init = counts@;
    let ks = kmers(sequence, k);
    let ghost kseq = kmers_of(sequence@, k as nat);
    assert(ks@.len() == kseq.len());
    assert forall|i: int| 0 <= i < ks@.len() implies #[trigger] ks@[i] as nat == kseq[i] by {
        assert(ks@.map_values(|v: usize| v as nat)[i] == ks@[i] as nat);
    }
    proof {
        crate::kmers::lemma_kmers_of_bounds(sequence@, k as nat);
        assert(kseq.subrange(0, 0) =~= Seq::<nat>::empty());
    }
    let mut j: usize = 0;
    while j < ks.len()
        invariant
            j <= ks@.len(),
            ks@.len() == kseq.len(),
            kseq.len() <= sequence@.len(),
            forall|i: int| 0 <= i < ks@.len() ==> #[trigger] ks@[i] as nat == kseq[i],
            forall|i: int| 0 <= i < kseq.len() ==> #[trigger] kseq[i] < pow4(k as nat),
            counts@.len() == init.len(),
            init.len() == pow4(k as nat),
            forall|w: int| 0 <= w < init.len() ==> #[trigger] init[w] + sequence@.len() <= usize::MAX,
            forall|w: int|
                0 <= w < init.len() ==> #[trigger] counts@[w] == init[w] + occurrences(
                    kseq.subrange(0, j as int),
                    w as nat,
                ),
        decreases ks@.len() - j,
    {
        let v = ks[j];
        assert(kseq[j as int] == v as nat);
        let ghost pre = kseq.subrange(0, j as int);
        let ghost next = kseq.subrange(0, j + 1);
        assert(next.drop_last() =~= pre);
        proof {
            lemma_occurrences_bound(pre, v as nat);
        }
        let c = counts[v];
        counts.set(v, c + 1);
        assert forall|w: int| 0 <= w < init.len() implies #[trigger] counts@[w] == init[w]
            + occurrences(next, w as nat) by {
            assert(occurrences(next, w as nat) == occurrences(pre, w as nat) + if next.last() == w as nat {
                1nat
            } else {
                0nat
            });
        }
        j = j + 1;
    }
    assert(kseq.subrange(0, ks@.len() as int) =~= kseq);
}

/// Position of `label` in `names`, if it is there.
fn find_label(names: &Vec<String>, label: &String) -> (r: Option<usize>)
    ensures
        r matches Some(j) ==> j < names@.len() && names@[j as int]@ == label@,
        r is None ==> forall|j: int| 0 <= j < names@.len() ==> #[trigger] names@[j]@ != label@,
{
    let mut j: usize = 0;
    while j < names.len()
        invariant
            j <= names@.len(),
            forall|i: int| 0 <= i < j ==> #[trigger] names@[i]@ != label@,
        decreases names@.len() - j,
    {
        if names[j] == *label {
            return Some(j);
        }
        j = j + 1;
    }
    None
}

/// Result of the label indexing pass: the distinct labels in order of first
/// occurrence, each one's pseudocount-seeded number of sequences, and the
/// index of each sequence's label.
struct GenusIndex {
    names: Vec<String>,
    counts: Vec<usize>,
    of_sequence: Vec<usize>,
}

/// Views of a list of strings.
pub open spec fn names_view(names: Seq<String>) -> Seq<Seq<char>> {
    names.map_values(|s: String| s@)
}

/// Assigns each distinct label the next index in order of first occurrence,
/// and counts the sequences of each label on top of a pseudocount of one.
fn index_genera(genera: &[&str]) -> (r: GenusIndex)
    requires
        genera@.len() < usize::MAX,
    ensures
        names_view(r.names@) == distinct_labels(labels_of(genera@)),
        r.counts@.len() == r.names@.len(),
        forall|g: int|
            0 <= g < r.counts@.len() ==> #[trigger] r.counts@[g] == label_count_upto(
                labels_of(genera@),
                r.names@[g]@,
                genera@.len() as nat,
            ) + 1,
        r.of_sequence@.len() == genera@.len(),
        forall|i: int|
            0 <= i < genera@.len() ==> #[trigger] r.of_sequence@[i] < r.names@.len()
                && r.names@[r.of_sequence@[i] as int]@ == genera@[i]@,
{
    let ghost labels = labels_of(genera@);
    let mut names: Vec<String> = Vec::new();
    let mut counts: Vec<usize> = Vec::new();
    let mut of_sequence: Vec<usize> = Vec::new();
    let mut i: usize = 0;
    proof {
        assert(names_view(names@) =~= distinct_upto(labels, 0));
    }
    while i < genera.len()
        invariant
            i <= genera@.len(),
            genera@.len() < usize::MAX,
            labels == labels_of(genera@),
            names_view(names@) == distinct_upto(labels, i as nat),
            counts@.len() == names@.len(),
            forall|g: int|
                0 <= g < counts@.len() ==> #[trigger] counts@[g] == label_count_upto(
                    labels,
                    names@[g]@,
                    i as nat,
                ) + 1,
            of_sequence@.len() == i,
            forall|j: int|
                0 <= j < i ==> #[trigger] of_sequence@[j] < names@.len()
                    && names@[of_sequence@[j] as int]@ == genera@[j]@,
        decreases genera@.len() - i,
    {
        let label: String = genera[i].to_owned();
        let ghost x = labels[i as int];
        assert(x == genera@[i as int]@);
        assert(label@ == x);
        let ghost prev_names = names_view(names@);
        proof {
            lemma_distinct_upto(labels, i as nat);
            lemma_distinct_upto(labels, i as nat + 1);
            assert forall|g: int| 0 <= g < names@.len() implies #[trigger] names@[g]@ == prev_names[g] by {}
        }
        let j: usize = match find_label(&names, &label) {
            Some(j) => {
                assert(prev_names[j as int] == x);
                assert(prev_names.contains(x));
                j
            },
            None => {
                assert(!prev_names.contains(x)) by {
                    if prev_names.contains(x) {
                        let g = choose|g: int| 0 <= g < prev_names.len() && prev_names[g] == x;
                        assert(names@[g]@ == x);
                    }
                }
                proof {
                    lemma_label_count_absent(labels, x, i as nat);
                }
                let n = names.len();
                names.push(label);
                counts.push(1);
                assert(names_view(names@) =~= prev_names.push(x));
                n
            },
        };
        assert(names_view(names@) == distinct_upto(labels, i as nat + 1));
        proof {
            lemma_label_count_bound(labels, x, i as nat);
            let nv = names_view(names@);
            assert(nv[j as int] == names@[j as int]@);
        }
        let c = counts[j];
        counts.set(j, c + 1);
        of_sequence.push(j);
        assert forall|g: int| 0 <= g < counts@.len() implies #[trigger] counts@[g] == label_count_upto(
            labels,
            names@[g]@,
            i as nat + 1,
        ) + 1 by {
            let nv = names_view(names@);
            assert(nv[g] == names@[g]@);
            assert(nv[j as int] == names@[j as int]@);
            if g != j {
                assert(nv.no_duplicates());
                assert(names@[g]@ != x);
            }
        }
        i = i + 1;
    }
    GenusIndex { names, counts, of_sequence }
}

/// The terms of one conditional probability `P(k-mer w | genus g)`, whose
/// value is `(kmer_in_genus + (kmer_in_corpus + 0.5) / (n_sequences + 1)) /
/// genus_size`.
#[derive(Debug, Clone, Copy, PartialEq, Eq, Structural)]
pub struct ConditionalProb {
    /// Occurrences of the k-mer in the sequences of the genus.
    pub kmer_in_genus: usize,
    /// Occurrences of the k-mer in the whole corpus.
    pub kmer_in_corpus: usize,
    /// Number of sequences in the corpus.
    pub n_sequences: usize,
    /// Number of sequences of the genus, plus a pseudocount of one.
    pub genus_size: usize,
}

/// Numerator of a conditional probability given by its terms, over
/// `prob_terms_denominator`.
pub open spec fn prob_terms_numerator(p: ConditionalProb) -> int {
    2 * (p.n_sequences + 1) * p.kmer_in_genus + 2 * p.kmer_in_corpus + 1
}

/// Denominator of a conditional probability given by its terms.
pub open spec fn prob_terms_denominator(p: ConditionalProb) -> int {
    2 * (p.n_sequences + 1) * p.genus_size
}

/// Genus-conditional k-mer counts of a labelled corpus, from which every
/// conditional probability `P(k-mer w | genus g)` follows.
pub struct KmerDatabase {
    /// Distinct genus labels, in order of first occurrence.
    pub genera: Vec<String>,
    n_sequences: usize,
    genus_counts: Vec<usize>,
    kmer_counts: Vec<usize>,
    genus_kmer_counts: Vec<Vec<usize>>,
}

/// Naturals of a list of counts.
pub open spec fn nats(v: Seq<usize>) -> Seq<nat> {
    v.map_values(|c: usize| c as nat)
}

impl View for KmerDatabase {
    type V = DatabaseModel;

    closed spec fn view(&self) -> DatabaseModel {
        DatabaseModel {
            genera: names_view(self.genera@),
            n_sequences: self.n_sequences as nat,
            genus_counts: nats(self.genus_counts@),
            kmer_counts: nats(self.kmer_counts@),
            genus_kmer_counts: self.genus_kmer_counts@.map_values(|c: Vec<usize>| nats(c@)),
        }
    }
}

impl KmerDatabase {
    /// Builds the database of `sequences`, labelled by the parallel list
    /// `genera`, for k-mers of size `kmer_size`. Fails with
    /// `InvalidArgument` where the two lists differ in length, where
    /// `kmer_size` is zero, where `4^kmer_size` does not fit in a `usize`, or
    /// where the corpus is too large for its counts to fit in a `usize`.
    pub fn build(sequences: &[&str], genera: &[&str], kmer_size: u32) -> (r: Result<
        KmerDatabase,
        KmerError,
    >)
        ensures
            r is Err <==> (sequences@.len() != genera@.len() || kmer_size < 1 || !index_fits(
                kmer_size as nat,
            ) || !counts_fit(sequences@)),
            r matches Err(e) ==> e == KmerError::InvalidArgument,
            r matches Ok(db) ==> db.wf() && db@ == database_model(
                corpus_of(sequences@),
                labels_of(genera@),
                kmer_size as nat,
            ),
    {
        if sequences.len() != genera.len() || kmer_size < 1 {
            return Err(KmerError::InvalidArgument);
        }
        let nrows = match checked_n_kmers(kmer_size) {
            Some(n) => n,
            None => {
                return Err(KmerError::InvalidArgument);
            },
        };
        if !corpus_counts_fit(sequences) {
            return Err(KmerError::InvalidArgument);
        }
        let k = kmer_size as usize;
        let ghost seqs = corpus_of(sequences@);
        let ghost labels = labels_of(genera@);
        let n = sequences.len();
        let index = index_genera(genera);
        proof {
            lemma_distinct_upto(labels, n as nat);
        }

        // Occurrences of each k-mer over the whole corpus.
        let mut kmer_counts = zeros(nrows);
        let mut i: usize = 0;
        while i < n
            invariant
                n == sequences@.len(),
                i <= n,
                seqs == corpus_of(sequences@),
                k == kmer_size,
                k >= 1,
                index_fits(k as nat),
                nrows as nat == pow4(k as nat),
                bytes_upto(seqs, n as nat) <= usize::MAX,
                kmer_counts@.len() == nrows,
                forall|w: int|
                    0 <= w < nrows ==> #[trigger] kmer_counts@[w] == kmer_total_upto(
                        seqs,
                        k as nat,
                        w as nat,
                        i as nat,
                    ),
            decreases n - i,
        {
            let bytes = sequences[i].as_bytes();
            assert(bytes@ == seqs[i as int]);
            proof {
                lemma_bytes_upto_monotonic(seqs, i as nat + 1, n as nat);
                assert forall|w: int| 0 <= w < nrows implies #[trigger] kmer_counts@[w] + bytes@.len()
                    <= usize::MAX by {
                    lemma_kmer_total_bound(seqs, k as nat, w as nat, i as nat);
                }
            }
            count_into(&mut kmer_counts, bytes, k);
            i = i + 1;
        }

        // Occurrences of each k-mer in the sequences of each genus.
        let mut genus_kmer_counts: Vec<Vec<usize>> = Vec::new();
        let mut g: usize = 0;
        while g < index.names.len()
            invariant
                n == sequences@.len(),
                n == genera@.len(),
                seqs == corpus_of(sequences@),
                labels == labels_of(genera@),
                k == kmer_size,
                k >= 1,
                index_fits(k as nat),
                nrows as nat == pow4(k as nat),
                bytes_upto(seqs, n as nat) <= usize::MAX,
                g <= index.names@.len(),
                names_view(index.names@) == distinct_labels(labels),
                distinct_labels(labels).no_duplicates(),
                index.of_sequence@.len() == n,
                forall|j: int|
                    0 <= j < n ==> #[trigger] index.of_sequence@[j] < index.names@.len()
                        && index.names@[index.of_sequence@[j] as int]@ == genera@[j]@,
                genus_kmer_counts@.len() == g,
                forall|h: int, w: int|
                    0 <= h < g && 0 <= w < nrows ==> #[trigger] genus_kmer_counts@[h]@[w]
                        == genus_kmer_upto(
                        seqs,
                        labels,
                        index.names@[h]@,
                        k as nat,
                        w as nat,
                        n as nat,
                    ),
                forall|h: int| 0 <= h < g ==> #[trigger] genus_kmer_counts@[h]@.len() == nrows,
            decreases index.names@.len() - g,
        {
            let ghost name = index.names@[g as int]@;
            let mut column = zeros(nrows);
            let mut i: usize = 0;
            while i < n
                invariant
                    n == sequences@.len(),
                    n == genera@.len(),
                    i <= n,
                    g < index.names@.len(),
                    name == index.names@[g as int]@,
                    seqs == corpus_of(sequences@),
                    labels == labels_of(genera@),
                    k == kmer_size,
                    k >= 1,
                    index_fits(k as nat),
                    nrows as nat == pow4(k as nat),
                    bytes_upto(seqs, n as nat) <= usize::MAX,
                    names_view(index.names@) == distinct_labels(labels),
                    distinct_labels(labels).no_duplicates(),
                    index.of_sequence@.len() == n,
                    forall|j: int|
                        0 <= j < n ==> #[trigger] index.of_sequence@[j] < index.names@.len()
                            && index.names@[index.of_sequence@[j] as int]@ == genera@[j]@,
                    column@.len() == nrows,
                    forall|w: int|
                        0 <= w < nrows ==> #[trigger] column@[w] == genus_kmer_upto(
                            seqs,
                            labels,
                            name,
                            k as nat,
                            w as nat,
                            i as nat,
                        ),
                decreases n - i,
            {
                let ghost nv = names_view(index.names@);
                let ghost x = labels[i as int];
                assert(x == genera@[i as int]@);
                let gi = index.of_sequence[i];
                assert(nv[gi as int] == index.names@[gi as int]@);
                assert(nv[g as int] == index.names@[g as int]@);
                assert((gi == g) == (x == name));
                if gi == g {
                    let bytes = sequences[i].as_bytes();
                    assert(bytes@ == seqs[i as int]);
                    proof {
                        lemma_bytes_upto_monotonic(seqs, i as nat + 1, n as nat);
                        assert forall|w: int| 0 <= w < nrows implies #[trigger] column@[w]
                            + bytes@.len() <= usize::MAX by {
                            lemma_genus_kmer_bound(seqs, labels, name, k as nat, w as nat, i as nat);
                        }
                    }
                    count_into(&mut column, bytes, k);
                }
                i = i + 1;
            }
            genus_kmer_counts.push(column);
            g = g + 1;
        }
        let db = KmerDatabase {
            genera: index.names,
            n_sequences: n,
            genus_counts: index.counts,
            kmer_counts,
            genus_kmer_counts,
        };
        let ghost m = database_model(seqs, labels, k as nat);
        assert(db@.genera == m.genera);
        assert(db@.genus_counts =~= m.genus_counts);
        assert(db@.kmer_counts =~= m.kmer_counts);
        assert forall|h: int| 0 <= h < m.genera.len() implies #[trigger] db@.genus_kmer_counts[h]
            == m.genus_kmer_counts[h] by {
            assert(names_view(db.genera@)[h] == db.genera@[h]@);
            assert(db@.genus_kmer_counts[h] =~= m.genus_kmer_counts[h]);
        }
        assert(db@.genus_kmer_counts =~= m.genus_kmer_counts);
        Ok(db)
    }

    /// Number of k-mer indices, `4^k`.
    pub fn n_kmers(&self) -> (r: usize)
        ensures
            r as nat == self@.kmer_counts.len(),
    {
        self.kmer_counts.len()
    }

    /// Number of distinct genera.
    pub fn n_genera(&self) -> (r: usize)
        ensures
            r as nat == self@.genera.len(),
    {
        self.genera.len()
    }

    /// The terms of the conditional probability of k-mer `w` given genus `g`.
    pub fn conditional_prob(&self, w: usize, g: usize) -> (r: ConditionalProb)
        requires
            self.wf(),
            w < self@.kmer_counts.len(),
            g < self@.genera.len(),
        ensures
            r.kmer_in_genus as nat == self@.genus_kmer_counts[g as int][w as int],
            r.kmer_in_corpus as nat == self@.kmer_counts[w as int],
            r.n_sequences as nat == self@.n_sequences,
            r.genus_size as nat == self@.genus_counts[g as int],
            prob_terms_numerator(r) == prob_numerator(self@, w as int, g as int),
            prob_terms_denominator(r) == prob_denominator(self@, g as int),
    {
        let r = ConditionalProb {
            kmer_in_genus: self.genus_kmer_counts[g][w],
            kmer_in_corpus: self.kmer_counts[w],
            n_sequences: self.n_sequences,
            genus_size: self.genus_counts[g],
        };
        assert(self@.genus_kmer_counts[g as int] == nats(self.genus_kmer_counts@[g as int]@));
        r
    }

    /// Every column of counts is as long as there are k-mers, and there is
    /// one count of each kind per genus.
    pub closed spec fn wf(&self) -> bool {
        &&& self.genus_counts@.len() == self.genera@.len()
        &&& self.genus_kmer_counts@.len() == self.genera@.len()
        &&& forall|g: int|
            0 <= g < self.genus_kmer_counts@.len() ==> #[trigger] self.genus_kmer_counts@[g]@.len()
                == self.kmer_counts@.len()
    }
}

/// A k-mer that a list holds at most once occurs at most once in it.
proof fn lemma_occurrences_no_duplicates(ks: Seq<nat>, w: nat)
    requires
        ks.no_duplicates(),
    ensures
        occurrences(ks, w) <= 1,
    decreases ks.len(),
{
    if ks.len() > 0 {
        let pre = ks.drop_last();
        assert(pre.no_duplicates()) by {
            assert forall|i: int, j: int| 0 <= i < pre.len() && 0 <= j < pre.len() && i != j implies pre[i] != pre[j] by {
                assert(pre[i] == ks[i] && pre[j] == ks[j]);
            }
        }
        lemma_occurrences_no_duplicates(pre, w);
        if ks.last() == w {
            lemma_occurrences_absent(pre, w);
        }
    }
}

proof fn lemma_occurrences_absent(ks: Seq<nat>, w: nat)
    requires
        !ks.contains(w),
    ensures
        occurrences(ks, w) == 0,
    decreases ks.len(),
{
    if ks.len() > 0 {
        let pre = ks.drop_last();
        assert(!pre.contains(w)) by {
            if pre.contains(w) {
                let i = choose|i: int| 0 <= i < pre.len() && pre[i] == w;
                assert(ks[i] == w);
            }
        }
        lemma_occurrences_absent(pre, w);
    }
}

/// Where no sequence repeats a k-mer, a genus holds each k-mer at most as
/// often as it has sequences.
proof fn lemma_genus_kmer_at_most_label_count(
    seqs: Seq<Seq<u8>>,
    labels: Seq<Seq<char>>,
    label: Seq<char>,
    k: nat,
    w: nat,
    n: nat,
)
    requires
        n <= seqs.len(),
        seqs.len() == labels.len(),
        forall|i: int| 0 <= i < seqs.len() ==> (#[trigger] kmers_of(seqs[i], k)).no_duplicates(),
    ensures
        genus_kmer_upto(seqs, labels, label, k, w, n) <= label_count_upto(labels, label, n),
        kmer_total_upto(seqs, k, w, n) <= n,
    decreases n,
{
    if n > 0 {
        lemma_genus_kmer_at_most_label_count(seqs, labels, label, k, w, (n - 1) as nat);
        lemma_occurrences_no_duplicates(kmers_of(seqs[n - 1], k), w);
    }
}

/// Every conditional probability of a database is strictly positive: its
/// numerator and its denominator are both above zero.
pub proof fn lemma_conditional_prob_positive(
    seqs: Seq<Seq<u8>>,
    labels: Seq<Seq<char>>,
    k: nat,
    w: int,
    g: int,
)
    requires
        seqs.len() == labels.len(),
        0 <= w < pow4(k),
        0 <= g < distinct_labels(labels).len(),
    ensures
        prob_numerator(database_model(seqs, labels, k), w, g) > 0,
        prob_denominator(database_model(seqs, labels, k), g) > 0,
{
    let m = database_model(seqs, labels, k);
    let c = m.genus_kmer_counts[g][w];
    let gc = m.genus_counts[g];
    let n1 = m.n_sequences + 1;
    assert(n1 * c >= 0) by (nonlinear_arith)
        requires
            n1 >= 1,
            c >= 0,
    ;
    assert(2 * n1 * gc >= 2) by (nonlinear_arith)
        requires
            n1 >= 1,
            gc >= 1,
    ;
    assert(2 * n1 * c >= 0) by (nonlinear_arith)
        requires
            n1 >= 1,
            c >= 0,
    ;
}

/// Where no sequence of the corpus holds a k-mer twice, every conditional
/// probability of its database is at most one: the numerator does not
/// exceed the denominator.
pub proof fn lemma_conditional_prob_at_most_one(
    seqs: Seq<Seq<u8>>,
    labels: Seq<Seq<char>>,
    k: nat,
    w: int,
    g: int,
)
    requires
        seqs.len() == labels.len(),
        0 <= w < pow4(k),
        0 <= g < distinct_labels(labels).len(),
        forall|i: int| 0 <= i < seqs.len() ==> (#[trigger] kmers_of(seqs[i], k)).no_duplicates(),
    ensures
        prob_numerator(database_model(seqs, labels, k), w, g) <= prob_denominator(
            database_model(seqs, labels, k),
            g,
        ),
{
    let m = database_model(seqs, labels, k);
    let label = m.genera[g];
    lemma_genus_kmer_at_most_label_count(seqs, labels, label, k, w as nat, seqs.len());
    let c = m.genus_kmer_counts[g][w];
    let p = m.kmer_counts[w];
    let l = label_count_upto(labels, label, labels.len());
    let n = m.n_sequences;
    assert(c <= l && p <= n);
    assert(m.genus_counts[g] == l + 1);
    assert(2 * (n + 1) * c + 2 * p + 1 <= 2 * (n + 1) * (l + 1)) by (nonlinear_arith)
        requires
            c <= l,
            p <= n,
            n >= 0,
            c >= 0,
    ;
}

/// Whether `x` is among the first `p` labels.
pub open spec fn occurs_before(labels: Seq<Seq<char>>, x: Seq<char>, p: int) -> bool {
    exists|q: int| 0 <= q < p && labels[q] == x
}

/// The genera of a database are its labels without repeats, in order of
/// first occurrence: each label is among them, each of them is a label, and
/// every occurrence of a later genus is preceded by an occurrence of each
/// earlier one.
pub proof fn lemma_genera_first_occurrence_order(labels: Seq<Seq<char>>)
    ensures
        distinct_labels(labels).no_duplicates(),
        forall|i: int| 0 <= i < labels.len() ==> distinct_labels(labels).contains(#[trigger] labels[i]),
        forall|x: Seq<char>|
            #[trigger] distinct_labels(labels).contains(x) ==> exists|i: int|
                0 <= i < labels.len() && labels[i] == x,
        forall|a: int, b: int, p: int|
            #![trigger distinct_labels(labels)[a], distinct_labels(labels)[b], labels[p]]
            0 <= a < b < distinct_labels(labels).len() && 0 <= p < labels.len() && labels[p]
                == distinct_labels(labels)[b] ==> occurs_before(labels, distinct_labels(labels)[a], p),
{
    lemma_distinct_upto(labels, labels.len());
    lemma_first_occurrence_upto(labels, labels.len());
    assert forall|a: int, b: int, p: int|
        #![trigger distinct_labels(labels)[a], distinct_labels(labels)[b], labels[p]]
        0 <= a < b < distinct_labels(labels).len() && 0 <= p < labels.len() && labels[p]
            == distinct_labels(labels)[b] implies occurs_before(labels, distinct_labels(labels)[a], p) by {
        let e = distinct_upto(labels, labels.len());
        assert(e[a] == distinct_labels(labels)[a] && e[b] == distinct_labels(labels)[b]);
        assert(exists|q: int| 0 <= q < p && labels[q] == e[a]);
    }
}

proof fn lemma_first_occurrence_upto(labels: Seq<Seq<char>>, n: nat)
    requires
        n <= labels.len(),
    ensures
        forall|a: int, b: int, p: int|
            #![trigger distinct_upto(labels, n)[a], distinct_upto(labels, n)[b], labels[p]]
            0 <= a < b < distinct_upto(labels, n).len() && 0 <= p < n && labels[p] == distinct_upto(
                labels,
                n,
            )[b] ==> exists|q: int| 0 <= q < p && labels[q] == distinct_upto(labels, n)[a],
    decreases n,
{
    if n > 0 {
        let prev = distinct_upto(labels, (n - 1) as nat);
        let cur = distinct_upto(labels, n);
        lemma_first_occurrence_upto(labels, (n - 1) as nat);
        lemma_distinct_upto(labels, (n - 1) as nat);
        assert forall|a: int, b: int, p: int|
            #![trigger cur[a], cur[b], labels[p]]
            0 <= a < b < cur.len() && 0 <= p < n && labels[p] == cur[b] implies exists|q: int|
            0 <= q < p && labels[q] == cur[a] by {
            assert(cur[a] == prev[a]);
            assert(prev.contains(prev[a]));
            if b < prev.len() {
                assert(cur[b] == prev[b]);
                if p < n - 1 {
                } else {
                    assert(prev.contains(prev[b]));
                    let p2 = choose|i: int| 0 <= i < n - 1 && labels[i] == prev[b];
                    let q = choose|q: int| 0 <= q < p2 && labels[q] == prev[a];
                    assert(0 <= q < p && labels[q] == cur[a]);
                }
            } else {
                // `cur[b]` is the label first seen at `n - 1`.
                assert(!prev.contains(labels[n - 1]));
                assert(cur[b] == labels[n - 1]);
                if p < n - 1 {
                    assert(prev.contains(labels[p]));
                    assert(false);
                } else {
                    let q = choose|i: int| 0 <= i < n - 1 && labels[i] == prev[a];
                    assert(0 <= q < p && labels[q] == cur[a]);
                }
            }
        }
    }
}

/// A database is a function of its inputs alone: two builds from the same
/// corpus, labels and k-mer size hold the same counts.
pub proof fn lemma_build_deterministic(
    a: KmerDatabase,
    b: KmerDatabase,
    sequences: Seq<&str>,
    genera: Seq<&str>,
    k: nat,
)
    requires
        a@ == database_model(corpus_of(sequences), labels_of(genera), k),
        b@ == database_model(corpus_of(sequences), labels_of(genera), k),
    ensures
        a@ == b@,
{
}

} // verus!
