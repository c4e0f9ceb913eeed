//! Base-4 encoding of nucleotide windows and sliding-window k-mer extraction.
use vstd::prelude::*;

use crate::KmerError;

verus! {

/// Whether a byte is one of the four nucleotides, in either case.
pub open spec fn is_base(b: u8) -> bool {
    b == 65u8 || b == 97u8 || b == 67u8 || b == 99u8 || b == 71u8 || b == 103u8 || b == 84u8
        || b == 116u8
}

/// Digit of a nucleotide: `A` = 0, `C` = 1, `G` = 2, `T` = 3.
pub open spec fn base_digit(b: u8) -> nat {
    if b == 65u8 || b == 97u8 {
        0
    } else if b == 67u8 || b == 99u8 {
        1
    } else if b == 71u8 || b == 103u8 {
        2
    } else {
        3
    }
}

/// Whether every byte of a window is a nucleotide.
pub open spec fn is_word(w: Seq<u8>) -> bool {
    forall|i: int| 0 <= i < w.len() ==> is_base(#[trigger] w[i])
}

/// `4^n`.
pub open spec fn pow4(n: nat) -> nat
    decreases n,
{
    if n == 0 {
        1
    } else {
        4 * pow4((n - 1) as nat)
    }
}

/// Whether every index of a k-mer of size `k`, and the count `4^k` itself,
/// fit in a `usize`.
pub open spec fn index_fits(k: nat) -> bool {
    pow4(k) <= usize::MAX
}

/// Positional base-4 value of a window, most significant base first.
pub open spec fn word_value(w: Seq<u8>) -> nat
    decreases w.len(),
{
    if w.len() == 0 {
        0
    } else {
        word_value(w.drop_last()) * 4 + base_digit(w.last())
    }
}

/// The positional sum `Σ base_digit(w[i]) * 4^(len - 1 - i)`, written from
/// the most significant base.
pub open spec fn positional_value(w: Seq<u8>) -> nat
    decreases w.len(),
{
    if w.len() == 0 {
        0
    } else {
        base_digit(w[0]) * pow4((w.len() - 1) as nat) + positional_value(w.drop_first())
    }
}

proof fn lemma_word_value_split_first(w: Seq<u8>)
    requires
        w.len() >= 1,
    ensures
        word_value(w) == base_digit(w[0]) * pow4((w.len() - 1) as nat) + word_value(w.drop_first()),
    decreases w.len(),
{
    if w.len() == 1 {
        assert(w.drop_last().len() == 0);
        assert(w.drop_first().len() == 0);
        assert(w.last() == w[0]);
        assert(pow4(0) == 1);
        assert(word_value(w) == word_value(w.drop_last()) * 4 + base_digit(w.last()));
        assert(word_value(w.drop_first()) == 0);
        assert(base_digit(w[0]) * pow4(0) == base_digit(w[0]));
        assert(word_value(w) == base_digit(w[0]) * pow4((w.len() - 1) as nat) + word_value(w.drop_first()));
    } else {
        let pre = w.drop_last();
        lemma_word_value_split_first(pre);
        let tail = w.drop_first();
        assert(tail.drop_last() =~= pre.drop_first());
        assert(tail.last() == w.last());
        assert(pre[0] == w[0]);
        let d0 = base_digit(w[0]);
        let dl = base_digit(w.last());
        let p = pow4((w.len() - 2) as nat);
        let a = word_value(pre.drop_first());
        assert(pow4((w.len() - 1) as nat) == 4 * p);
        assert(word_value(pre) == d0 * p + a);
        assert(word_value(tail) == a * 4 + dl);
        assert(word_value(w) == word_value(pre) * 4 + dl);
        assert((d0 * p + a) * 4 + dl == d0 * (4 * p) + (a * 4 + dl)) by (nonlinear_arith);
        assert(word_value(w) == d0 * pow4((w.len() - 1) as nat) + word_value(tail));
    }
}

/// The base-4 value of a window is the positional sum of its digits.
pub proof fn lemma_word_value_positional(w: Seq<u8>)
    ensures
        word_value(w) == positional_value(w),
    decreases w.len(),
{
    if w.len() > 0 {
        lemma_word_value_split_first(w);
        lemma_word_value_positional(w.drop_first());
    }
}

/// `4^n` is at least one.
pub proof fn lemma_pow4_positive(n: nat)
    ensures
        pow4(n) >= 1,
    decreases n,
{
    if n > 0 {
        lemma_pow4_positive((n - 1) as nat);
    }
}

/// `4^n` grows with `n`.
pub proof fn lemma_pow4_monotonic(a: nat, b: nat)
    requires
        a <= b,
    ensures
        pow4(a) <= pow4(b),
    decreases b,
{
    if a < b {
        lemma_pow4_monotonic(a, (b - 1) as nat);
        lemma_pow4_positive((b - 1) as nat);
    }
}

/// The value of a window of length `n` is below `4^n`.
pub proof fn lemma_word_value_bound(w: Seq<u8>)
    ensures
        word_value(w) < pow4(w.len()),
    decreases w.len(),
{
    if w.len() > 0 {
        lemma_word_value_bound(w.drop_last());
    }
}

/// Encodes a window as its base-4 value; fails on any byte that is not a
/// nucleotide.
pub fn word_base4(seq: &[u8]) -> (r: Result<usize, KmerError>)
    requires
        index_fits(seq@.len()),
    ensures
        r is Ok <==> is_word(seq@),
        r matches Ok(v) ==> v as nat == word_value(seq@),
        r matches Err(e) ==> e == KmerError::InvalidBase,
{
    let mut acc: usize = 0;
    let mut i: usize = 0;
    while i < seq.len()
        invariant
            i <= seq@.len(),
            index_fits(seq@.len()),
            forall|j: int| 0 <= j < i ==> is_base(#[trigger] seq@[j]),
            acc as nat == word_value(seq@.subrange(0, i as int)),
        decreases seq@.len() - i,
    {
        let b = seq[i];
        let d: usize = if b == 65u8 || b == 97u8 {
            0
        } else if b == 67u8 || b == 99u8 {
            1
        } else if b == 71u8 || b == 103u8 {
            2
        } else if b == 84u8 || b == 116u8 {
            3
        } else {
            return Err(KmerError::InvalidBase);
        };
        proof {
            let pre = seq@.subrange(0, i as int);
            let next = seq@.subrange(0, i + 1);
            assert(next.drop_last() =~= pre);
            lemma_word_value_bound(pre);
            lemma_pow4_monotonic(i as nat + 1, seq@.len());
            assert(pow4(i as nat + 1) == 4 * pow4(i as nat));
        }
        acc = acc * 4 + d;
        i = i + 1;
    }
    assert(seq@.subrange(0, seq@.len() as int) =~= seq@);
    Ok(acc)
}

/// Number of windows of width `k` in a sequence of length `len`.
pub open spec fn n_windows(len: nat, k: nat) -> nat {
    if len >= k {
        (len - k + 1) as nat
    } else {
        0
    }
}

/// The window of width `k` that starts at `start`.
pub open spec fn window(s: Seq<u8>, start: int, k: nat) -> Seq<u8> {
    s.subrange(start, start + k)
}

/// Encoded k-mers of the first `n` windows of `s`, in order of their start,
/// skipping every window that holds a byte other than a nucleotide.
pub open spec fn kmers_upto(s: Seq<u8>, k: nat, n: nat) -> Seq<nat>
    decreases n,
{
    if n == 0 {
        Seq::empty()
    } else {
        let prev = kmers_upto(s, k, (n - 1) as nat);
        let w = window(s, n - 1, k);
        if is_word(w) {
            prev.push(word_value(w))
        } else {
            prev
        }
    }
}

/// Encoded k-mers of every valid window of `s`, in order of their start.
pub open spec fn kmers_of(s: Seq<u8>, k: nat) -> Seq<nat> {
    kmers_upto(s, k, n_windows(s.len(), k))
}

/// Every k-mer of the first `n` windows is below `4^k`, and there are at
/// most `n` of them.
pub proof fn lemma_kmers_upto_bounds(s: Seq<u8>, k: nat, n: nat)
    requires
        n <= n_windows(s.len(), k),
    ensures
        kmers_upto(s, k, n).len() <= n,
        forall|i: int| 0 <= i < kmers_upto(s, k, n).len() ==> #[trigger] kmers_upto(s, k, n)[i] < pow4(k),
    decreases n,
{
    if n > 0 {
        lemma_kmers_upto_bounds(s, k, (n - 1) as nat);
        let w = window(s, n - 1, k);
        assert(w.len() == k);
        lemma_word_value_bound(w);
    }
}

/// Every k-mer of `s` is below `4^k`, and there is at most one per window.
pub proof fn lemma_kmers_of_bounds(s: Seq<u8>, k: nat)
    ensures
        kmers_of(s, k).len() <= n_windows(s.len(), k),
        forall|i: int| 0 <= i < kmers_of(s, k).len() ==> #[trigger] kmers_of(s, k)[i] < pow4(k),
{
    lemma_kmers_upto_bounds(s, k, n_windows(s.len(), k));
}

/// A sequence made of nucleotides only yields exactly one k-mer per window.
pub proof fn lemma_kmers_of_all_valid(s: Seq<u8>, k: nat)
    requires
        is_word(s),
    ensures
        kmers_of(s, k).len() == n_windows(s.len(), k),
{
    lemma_kmers_upto_all_valid(s, k, n_windows(s.len(), k));
}

proof fn lemma_kmers_upto_all_valid(s: Seq<u8>, k: nat, n: nat)
    requires
        is_word(s),
        n <= n_windows(s.len(), k),
    ensures
        kmers_upto(s, k, n).len() == n,
    decreases n,
{
    if n > 0 {
        lemma_kmers_upto_all_valid(s, k, (n - 1) as nat);
        let w = window(s, n - 1, k);
        assert forall|i: int| 0 <= i < w.len() implies is_base(#[trigger] w[i]) by {
            assert(w[i] == s[n - 1 + i]);
        }
    }
}

/// Encoded k-mers of every valid window of `sequence`, ordered by the start
/// of the window; windows that hold any other byte than a nucleotide are
/// skipped.
pub fn kmers(sequence: &[u8], k: usize) -> (r: Vec<usize>)
    requires
        k >= 1,
        sequence@.len() < k || index_fits(k as nat),
    ensures
        r@.map_values(|v: usize| v as nat) == kmers_of(sequence@, k as nat),
{
    let mut out: Vec<usize> = Vec::new();
    if sequence.len() < k {
        assert(out@.map_values(|v: usize| v as nat) =~= kmers_of(sequence@, k as nat));
        return out;
    }
    let n: usize = sequence.len() - k + 1;
    let mut start: usize = 0;
    while start < n
        invariant
            n == n_windows(sequence@.len(), k as nat),
            n + k == sequence.len() + 1,
            start <= n,
            k >= 1,
            index_fits(k as nat),
            out@.map_values(|v: usize| v as nat) == kmers_upto(sequence@, k as nat, start as nat),
        decreases n - start,
    {
        let w = &sequence[start..start + k];
        assert(w@ == window(sequence@, start as int, k as nat));
        let ghost prev = out@;
        match word_base4(w) {
            Ok(v) => {
                out.push(v);
                assert(out@.map_values(|v: usize| v as nat) =~= prev.map_values(
                    |v: usize| v as nat,
                ).push(v as nat));
            },
            Err(_) => {},
        }
        start = start + 1;
    }
    out
}

/// Upper-case letter of a base-4 digit: 0 = `A`, 1 = `C`, 2 = `G`, 3 = `T`.
pub open spec fn digit_letter(d: nat) -> u8 {
    if d == 0 {
        65u8
    } else if d == 1 {
        67u8
    } else if d == 2 {
        71u8
    } else {
        84u8
    }
}

/// Upper-case form of a nucleotide byte.
pub open spec fn upper_base(b: u8) -> u8 {
    digit_letter(base_digit(b))
}

/// The window of length `k` whose base-4 value is `v`, in upper case.
pub open spec fn decode_word(v: nat, k: nat) -> Seq<u8>
    decreases k,
{
    if k == 0 {
        Seq::empty()
    } else {
        decode_word(v / 4, (k - 1) as nat).push(digit_letter(v % 4))
    }
}

/// Decoding the value of a valid window gives back the window in upper case.
pub proof fn lemma_decode_word_value(w: Seq<u8>)
    requires
        is_word(w),
    ensures
        decode_word(word_value(w), w.len()) == w.map_values(|b: u8| upper_base(b)),
    decreases w.len(),
{
    if w.len() > 0 {
        let pre = w.drop_last();
        assert(is_word(pre)) by {
            assert forall|i: int| 0 <= i < pre.len() implies is_base(#[trigger] pre[i]) by {
                assert(pre[i] == w[i]);
            }
        }
        lemma_decode_word_value(pre);
        let a = word_value(pre);
        let d = base_digit(w.last());
        assert(d < 4);
        assert((a * 4 + d) / 4 == a && (a * 4 + d) % 4 == d) by (nonlinear_arith)
            requires
                d < 4,
                a >= 0,
        ;
        assert(decode_word(word_value(w), w.len()) =~= w.map_values(|b: u8| upper_base(b)));
    }
}

/// Every value below `4^k` decodes to a valid window of length `k` that
/// encodes back to it.
pub proof fn lemma_word_value_decode(v: nat, k: nat)
    requires
        v < pow4(k),
    ensures
        decode_word(v, k).len() == k,
        is_word(decode_word(v, k)),
        word_value(decode_word(v, k)) == v,
    decreases k,
{
    if k > 0 {
        let q = v / 4;
        let r = v % 4;
        assert(q < pow4((k - 1) as nat) && v == q * 4 + r && r < 4) by (nonlinear_arith)
            requires
                v < 4 * pow4((k - 1) as nat),
                q == v / 4,
                r == v % 4,
        ;
        lemma_word_value_decode(q, (k - 1) as nat);
        let w = decode_word(v, k);
        assert(w.drop_last() =~= decode_word(q, (k - 1) as nat));
        assert forall|i: int| 0 <= i < w.len() implies is_base(#[trigger] w[i]) by {
            if i < k - 1 {
                assert(w[i] == decode_word(q, (k - 1) as nat)[i]);
            }
        }
    }
}

/// `4^k`, or `None` where it does not fit in a `usize`.
pub fn checked_n_kmers(k: u32) -> (r: Option<usize>)
    ensures
        r is Some <==> index_fits(k as nat),
        r matches Some(n) ==> n as nat == pow4(k as nat),
{
    let mut n: usize = 1;
    let mut i: u32 = 0;
    while i < k
        invariant
            i <= k,
            n as nat == pow4(i as nat),
        decreases k - i,
    {
        match n.checked_mul(4) {
            Some(m) => {
                n = m;
            },
            None => {
                proof {
                    lemma_pow4_monotonic(i as nat + 1, k as nat);
                }
                return None;
            },
        }
        i = i + 1;
    }
    Some(n)
}

} // verus!
