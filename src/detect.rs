//! Presence/absence matrix of k-mers over a batch of sequences.
use vstd::prelude::*;
use vstd::string::StringSliceAdditionalSpecFns;

use crate::kmers::{checked_n_kmers, index_fits, kmers, kmers_of, n_windows, pow4};

verus! {

/// Column of the detection matrix for one sequence: entry `w` is 1 where
/// k-mer `w` occurs in `s` at least once, 0 elsewhere.
pub open spec fn presence_column(s: Seq<u8>, k: nat) -> Seq<u8> {
    Seq::new(pow4(k), |w: int| if kmers_of(s, k).contains(w as nat) { 1u8 } else { 0u8 })
}

/// Sum of the entries of a column.
pub open spec fn column_sum(col: Seq<u8>) -> nat
    decreases col.len(),
{
    if col.len() == 0 {
        0
    } else {
        column_sum(col.drop_last()) + col.last() as nat
    }
}

/// Number of indices below `n` that `ks` holds.
spec fn presence_count(ks: Seq<nat>, n: nat) -> nat
    decreases n,
{
    if n == 0 {
        0
    } else {
        presence_count(ks, (n - 1) as nat) + if ks.contains((n - 1) as nat) {
            1nat
        } else {
            0nat
        }
    }
}

proof fn lemma_presence_count_push(ks: Seq<nat>, x: nat, n: nat)
    ensures
        presence_count(ks.push(x), n) <= presence_count(ks, n) + if x < n {
            1nat
        } else {
            0nat
        },
    decreases n,
{
    if n > 0 {
        lemma_presence_count_push(ks, x, (n - 1) as nat);
        let m = (n - 1) as nat;
        if m != x && ks.push(x).contains(m) {
            let i = choose|i: int| 0 <= i < ks.push(x).len() && ks.push(x)[i] == m;
            assert(i < ks.len());
            assert(ks[i] == m);
        }
    }
}

proof fn lemma_presence_count_bound(ks: Seq<nat>, n: nat)
    ensures
        presence_count(ks, n) <= ks.len(),
    decreases ks.len(), n,
{
    if ks.len() == 0 {
        if n > 0 {
            lemma_presence_count_bound(ks, (n - 1) as nat);
        }
    } else {
        let pre = ks.drop_last();
        lemma_presence_count_bound(pre, n);
        assert(pre.push(ks.last()) =~= ks);
        lemma_presence_count_push(pre, ks.last(), n);
    }
}

proof fn lemma_column_sum_prefix(s: Seq<u8>, k: nat, n: nat)
    requires
        n <= pow4(k),
    ensures
        column_sum(presence_column(s, k).take(n as int)) == presence_count(kmers_of(s, k), n),
    decreases n,
{
    if n > 0 {
        let col = presence_column(s, k);
        assert(col.take(n as int).drop_last() =~= col.take(n - 1));
        lemma_column_sum_prefix(s, k, (n - 1) as nat);
    }
}

/// Each column of the detection matrix sums to at most the number of
/// windows of its sequence.
pub proof fn lemma_presence_column_sum(s: Seq<u8>, k: nat)
    requires
        k >= 1,
    ensures
        presence_column(s, k).len() == pow4(k),
        column_sum(presence_column(s, k)) <= n_windows(s.len(), k),
{
    let col = presence_column(s, k);
    lemma_column_sum_prefix(s, k, pow4(k));
    assert(col.take(pow4(k) as int) =~= col);
    lemma_presence_count_bound(kmers_of(s, k), pow4(k));
    crate::kmers::lemma_kmers_of_bounds(s, k);
}

/// A dense matrix of 0/1 flags with one row per k-mer index and one column
/// per sequence, kept as a list of columns.
pub struct KmerMatrix {
    nrows: usize,
    columns: Vec<Vec<u8>>,
}

impl View for KmerMatrix {
    type V = Seq<Seq<u8>>;

    closed spec fn view(&self) -> Seq<Seq<u8>> {
        self.columns@.map_values(|c: Vec<u8>| c@)
    }
}

impl KmerMatrix {
    /// Number of rows, one per k-mer index.
    pub closed spec fn spec_nrows(&self) -> nat {
        self.nrows as nat
    }

    /// Every column is as long as the matrix has rows.
    pub closed spec fn wf(&self) -> bool {
        forall|c: int| 0 <= c < self.columns@.len() ==> #[trigger] self.columns@[c]@.len() == self.nrows
    }

    /// `[rows, columns]`.
    pub fn shape(&self) -> (r: [usize; 2])
        ensures
            r@[0] as nat == self.spec_nrows(),
            r@[1] as nat == self@.len(),
    {
        [self.nrows, self.columns.len()]
    }

    /// The flags of column `c`, one per k-mer index.
    pub fn column(&self, c: usize) -> (r: &Vec<u8>)
        requires
            c < self@.len(),
        ensures
            r@ == self@[c as int],
    {
        &self.columns[c]
    }

    /// The flag at row `w`, column `c`.
    pub fn get(&self, w: usize, c: usize) -> (r: u8)
        requires
            self.wf(),
            c < self@.len(),
            w < self.spec_nrows(),
        ensures
            r == self@[c as int][w as int],
    {
        self.columns[c][w]
    }
}

/// Column of presence flags for one sequence.
fn presence_flags(sequence: &[u8], k: usize, nrows: usize) -> (r: Vec<u8>)
    requires
        k >= 1,
        index_fits(k as nat),
        nrows as nat == pow4(k as nat),
    ensures
        r@ == presence_column(sequence@, k as nat),
{
    let mut col: Vec<u8> = Vec::new();
    let mut w: usize = 0;
    while w < nrows
        invariant
            w <= nrows,
            col@.len() == w,
            forall|i: int| 0 <= i < w ==> #[trigger] col@[i] == 0u8,
        decreases nrows - w,
    {
        col.push(0u8);
        w = w + 1;
    }
    let ks = kmers(sequence, k);
    let ghost kseq = kmers_of(sequence@, k as nat);
    assert(ks@.len() == kseq.len());
    assert forall|i: int| 0 <= i < ks@.len() implies #[trigger] ks@[i] as nat == kseq[i] by {
        assert(ks@.map_values(|v: usize| v as nat)[i] == ks@[i] as nat);
    }
    proof {
        crate::kmers::lemma_kmers_of_bounds(sequence@, k as nat);
    }
    let mut j: usize = 0;
    while j < ks.len()
        invariant
            j <= ks@.len(),
            ks@.len() == kseq.len(),
            forall|i: int| 0 <= i < ks@.len() ==> #[trigger] ks@[i] as nat == kseq[i],
            forall|i: int| 0 <= i < kseq.len() ==> #[trigger] kseq[i] < pow4(k as nat),
            col@.len() == nrows,
            nrows as nat == pow4(k as nat),
            forall|x: int|
                0 <= x < nrows ==> (#[trigger] col@[x] == 1u8 <==> exists|i: int|
                    0 <= i < j && kseq[i] == x),
            forall|x: int| 0 <= x < nrows ==> (#[trigger] col@[x] == 0u8 || col@[x] == 1u8),
        decreases ks@.len() - j,
    {
        let v = ks[j];
        assert(kseq[j as int] == v as nat);
        col.set(v, 1u8);
        assert forall|x: int| 0 <= x < nrows implies (#[trigger] col@[x] == 1u8 <==> exists|i: int|
            0 <= i < j + 1 && kseq[i] == x) by {
            if x == v {
                assert(kseq[j as int] == x);
            } else {
                if exists|i: int| 0 <= i < j + 1 && kseq[i] == x {
                    let i = choose|i: int| 0 <= i < j + 1 && kseq[i] == x;
                    assert(i < j);
                }
            }
        }
        j = j + 1;
    }
    assert forall|x: int| 0 <= x < nrows implies #[trigger] col@[x] == presence_column(sequence@, k as nat)[x] by {
        if kseq.contains(x as nat) {
            let i = choose|i: int| 0 <= i < kseq.len() && kseq[i] == x as nat;
            assert(kseq[i] == x);
        } else {
            if col@[x] == 1u8 {
                let i = choose|i: int| 0 <= i < kseq.len() && kseq[i] == x;
                assert(kseq[i] == x as nat);
            }
        }
    }
    assert(col@ =~= presence_column(sequence@, k as nat));
    col
}

/// Presence/absence matrix of the k-mers of each sequence: one row per k-mer
/// index `0 .. 4^k`, one column per sequence in input order, entry 1 where the
/// k-mer occurs in the sequence and 0 where it does not.
pub fn detect_kmers_across_sequences(sequences: &[&str], kmer_size: u32) -> (r: KmerMatrix)
    requires
        kmer_size >= 1,
        index_fits(kmer_size as nat),
    ensures
        r.wf(),
        r.spec_nrows() == pow4(kmer_size as nat),
        r@.len() == sequences@.len(),
        forall|c: int|
            0 <= c < sequences@.len() ==> #[trigger] r@[c] == presence_column(
                sequences@[c].spec_bytes(),
                kmer_size as nat,
            ),
{
    let nrows = match checked_n_kmers(kmer_size) {
        Some(n) => n,
        None => {
            assert(false);
            0
        },
    };
    let k = kmer_size as usize;
    let mut columns: Vec<Vec<u8>> = Vec::new();
    let mut c: usize = 0;
    while c < sequences.len()
        invariant
            c <= sequences@.len(),
            k == kmer_size,
            k >= 1,
            index_fits(k as nat),
            nrows as nat == pow4(k as nat),
            columns@.len() == c,
            forall|i: int|
                0 <= i < c ==> #[trigger] columns@[i]@ == presence_column(
                    sequences@[i].spec_bytes(),
                    k as nat,
                ),
        decreases sequences@.len() - c,
    {
        let bytes = sequences[c].as_bytes();
        let col = presence_flags(bytes, k, nrows);
        columns.push(col);
        c = c + 1;
    }
    let r = KmerMatrix { nrows, columns };
    assert(r@.len() == sequences@.len());
    assert forall|i: int| 0 <= i < sequences@.len() implies #[trigger] r@[i] == presence_column(
        sequences@[i].spec_bytes(),
        kmer_size as nat,
    ) by {
        assert(r@[i] == r.columns@[i]@);
    }
    r
}

} // verus!
