//! Rearrangements of spectra and impulses, and the bins that they involve.

use crate::config::Config;
use crate::num::{round_div, rounded_quotient};
use vstd::prelude::*;

verus! {

/// Swap the two halves of the first `2 * (numbins - 1)` samples.
pub fn ifftshift<T: Copy>(source: &[T], destination: &mut [T], numbins: usize)
    requires
        1 <= numbins,
        2 * (numbins - 1) <= source@.len(),
        2 * (numbins - 1) <= old(destination)@.len(),
    ensures
        final(destination)@.len() == old(destination)@.len(),
        forall|i: int|
            0 <= i < old(destination)@.len() ==> #[trigger] final(destination)@[i] == (if i < numbins
                - 1 {
                source@[i + numbins - 1]
            } else if i < 2 * (numbins - 1) {
                source@[i - (numbins - 1)]
            } else {
                old(destination)@[i]
            }),
{
    let ghost before = destination@;
    let half: usize = numbins - 1;
    let total: usize = source.len();
    let mut k: usize = 0;
    while k < half
        invariant
            half == numbins - 1,
            total == source@.len(),
            k <= half,
            2 * half <= total,
            2 * half <= destination@.len(),
            destination@.len() == before.len(),
            forall|i: int|
                0 <= i < before.len() ==> #[trigger] destination@[i] == (if i < k {
                    source@[i + half]
                } else if half <= i < half + k {
                    source@[i - half]
                } else {
                    before[i]
                }),
        decreases half - k,
    {
        destination[k] = source[half + k];
        destination[half + k] = source[k];
        k = k + 1;
    }
}

/// Swapping the halves twice changes nothing.
pub proof fn lemma_ifftshift_twice<T>(a: Seq<T>, b: Seq<T>, c: Seq<T>, half: int)
    requires
        0 <= half,
        a.len() == 2 * half,
        b.len() == 2 * half,
        c.len() == 2 * half,
        forall|i: int|
            0 <= i < 2 * half ==> #[trigger] b[i] == (if i < half { a[i + half] } else { a[i
                - half] }),
        forall|i: int|
            0 <= i < 2 * half ==> #[trigger] c[i] == (if i < half { b[i + half] } else { b[i
                - half] }),
    ensures
        c == a,
{
    assert(c =~= a);
}

/// Mirror the bins below half the sampling rate onto those above it.
pub fn mirror_upper<T: Copy>(arr: &mut [T], numbins: usize)
    requires
        2 <= numbins,
        2 * numbins - 2 <= old(arr)@.len(),
    ensures
        final(arr)@.len() == old(arr)@.len(),
        forall|i: int|
            0 <= i < old(arr)@.len() ==> #[trigger] final(arr)@[i] == (if numbins <= i < 2 * numbins
                - 2 {
                old(arr)@[2 * numbins - 2 - i]
            } else {
                old(arr)@[i]
            }),
{
    let ghost before = arr@;
    let total: usize = arr.len();
    let mut k: usize = 0;
    while k < numbins - 2
        invariant
            2 <= numbins,
            2 * numbins - 2 <= total,
            total == arr@.len(),
            arr@.len() == before.len(),
            k <= numbins - 2,
            forall|i: int|
                0 <= i < before.len() ==> #[trigger] arr@[i] == (if numbins <= i < numbins + k {
                    before[2 * numbins - 2 - i]
                } else {
                    before[i]
                }),
        decreases numbins - 2 - k,
    {
        assert(arr@[numbins - 2 - k] == before[numbins - 2 - k]);
        let value: T = arr[numbins - 2 - k];
        arr[numbins + k] = value;
        k = k + 1;
    }
}

/// A mirrored spectrum is symmetric: bins `i` and `fftsize - i` agree.
pub proof fn lemma_mirror_symmetric<T>(before: Seq<T>, after: Seq<T>, numbins: int, i: int)
    requires
        2 <= numbins,
        after.len() == before.len(),
        2 * numbins - 2 <= before.len(),
        forall|k: int|
            0 <= k < before.len() ==> #[trigger] after[k] == (if numbins <= k < 2 * numbins - 2 {
                before[2 * numbins - 2 - k]
            } else {
                before[k]
            }),
        0 < i < 2 * numbins - 2,
    ensures
        after[i] == after[2 * numbins - 2 - i],
{
    assert(0 <= 2 * numbins - 2 - i < before.len());
}

/// The bin at or after the pitch, from which a spectrum is folded back.
pub open spec fn replica_bin(fo: int, fs: int, numbins: int) -> int {
    1 + rounded_quotient(2 * fo * (numbins - 1), fs)
}

/// How many bins a low-frequency replica covers.
pub fn replica_bins(cfg: &Config, fo: u64) -> (bins: usize)
    requires
        cfg.ok(),
        2 * fo <= cfg.fs,
    ensures
        bins == replica_bin(fo as int, cfg.fs as int, cfg.numbins as int),
        bins <= cfg.numbins,
{
    let n: i128 = (cfg.numbins - 1) as i128;
    let ghost x = 2 * fo * (cfg.numbins - 1);
    proof {
        assert(0 <= x <= (cfg.numbins - 1) * cfg.fs) by (nonlinear_arith)
            requires
                x == 2 * fo * (cfg.numbins - 1),
                0 <= 2 * fo <= cfg.fs,
                cfg.numbins >= 1,
        ;
        assert(x <= 0x4000_0000 * 0xffff_ffff_ffff_ffff) by (nonlinear_arith)
            requires
                x <= (cfg.numbins - 1) * cfg.fs,
                0 <= cfg.numbins - 1 <= 0x4000_0000,
                0 <= cfg.fs <= 0xffff_ffff_ffff_ffff,
        ;
        assert(0 * cfg.fs == 0);
        crate::num::lemma_rounded_between(x, cfg.fs as int, 0, cfg.numbins - 1);
    }
    1 + round_div(2 * fo as i128 * n, cfg.fs as i128) as usize
}

/// Unfold a spectrum for smoothing: put its mirrored half, then the spectrum itself,
/// into `unfolded`.
pub fn unfold_spectrum<T: Copy>(envelope: &[T], numbins: usize, unfolded: &mut Vec<T>)
    requires
        2 <= numbins,
        2 * numbins - 2 <= envelope@.len(),
    ensures
        final(unfolded)@ == envelope@.subrange(numbins as int, 2 * numbins - 2) + envelope@.subrange(
            0,
            2 * numbins - 2,
        ),
{
    let total: usize = envelope.len();
    let fftsize: usize = 2 * (numbins - 1);
    unfolded.clear();
    let ghost high = envelope@.subrange(numbins as int, fftsize as int);
    let ghost all = envelope@.subrange(0, fftsize as int);
    let mut k: usize = numbins;
    assert(high.take(0) =~= Seq::empty());
    while k < fftsize
        invariant
            2 <= numbins,
            total == envelope@.len(),
            fftsize == 2 * numbins - 2,
            fftsize <= total,
            numbins <= k,
            k <= fftsize || k == numbins,
            high == envelope@.subrange(numbins as int, fftsize as int),
            k <= fftsize ==> unfolded@ == high.take(k - numbins),
            k > fftsize ==> unfolded@ == Seq::<T>::empty(),
        decreases fftsize - k,
    {
        assert(high.take(k - numbins).push(envelope@[k as int]) =~= high.take(k + 1 - numbins));
        unfolded.push(envelope[k]);
        k = k + 1;
    }
    assert(unfolded@ =~= high);
    let mut j: usize = 0;
    assert(high + all.take(0) =~= high);
    while j < fftsize
        invariant
            total == envelope@.len(),
            fftsize <= total,
            all == envelope@.subrange(0, fftsize as int),
            j <= fftsize,
            unfolded@ == high + all.take(j as int),
        decreases fftsize - j,
    {
        assert((high + all.take(j as int)).push(envelope@[j as int]) =~= high + all.take(j + 1));
        unfolded.push(envelope[j]);
        j = j + 1;
    }
    assert(all.take(j as int) =~= all);
}

/// The sample of a half spectrum of `half + 1` bins that stands at position `i` when
/// the spectrum is extended by `boundary` mirrored bins below and above.
pub open spec fn extended_bin(half: int, boundary: int, i: int) -> int {
    if i < boundary {
        boundary - i
    } else if i < half + boundary {
        i - boundary
    } else {
        half - (i - (half + boundary))
    }
}

/// Put a half spectrum, extended by mirrored bins on either side, into `mirror`.
pub fn extend_spectrum<T: Copy>(input: &[T], boundary: usize, mirror: &mut Vec<T>)
    requires
        boundary < input@.len(),
        input@.len() + 2 * boundary <= usize::MAX,
    ensures
        final(mirror)@ == Seq::new(
            (input@.len() + 2 * boundary) as nat,
            |i: int| input@[extended_bin(input@.len() - 1, boundary as int, i)],
        ),
{
    let half: usize = input.len() - 1;
    let total: usize = half + 2 * boundary + 1;
    mirror.clear();
    let mut i: usize = 0;
    while i < total
        invariant
            half == input@.len() - 1,
            boundary <= half,
            total == half + 2 * boundary + 1,
            i <= total,
            mirror@ == Seq::new(
                i as nat,
                |k: int| input@[extended_bin(half as int, boundary as int, k)],
            ),
        decreases total - i,
    {
        let at: usize = if i < boundary {
            boundary - i
        } else if i < half + boundary {
            i - boundary
        } else {
            half - (i - (half + boundary))
        };
        mirror.push(input[at]);
        i = i + 1;
    }
}

/// Put the running sums of samples under `plus` into `sums`: the first sample, then
/// each sample added to the sum before it.
pub fn running_sum<T: Copy, A: Fn(T, T) -> T>(samples: &[T], plus: A, sums: &mut Vec<T>)
    requires
        forall|a: T, b: T| call_requires(plus, (a, b)),
    ensures
        final(sums)@.len() == samples@.len(),
        samples@.len() > 0 ==> final(sums)@[0] == samples@[0],
        forall|i: int, j: int|
            0 <= i && j == i + 1 && j < samples@.len() ==> call_ensures(
                plus,
                (samples@[j], #[trigger] final(sums)@[i]),
                #[trigger] final(sums)@[j],
            ),
{
    sums.clear();
    let mut k: usize = 0;
    while k < samples.len()
        invariant
            forall|a: T, b: T| call_requires(plus, (a, b)),
            k <= samples@.len(),
            sums@.len() == k,
            k > 0 ==> sums@[0] == samples@[0],
            forall|i: int, j: int|
                0 <= i && j == i + 1 && j < k ==> call_ensures(
                    plus,
                    (samples@[j], #[trigger] sums@[i]),
                    #[trigger] sums@[j],
                ),
        decreases samples@.len() - k,
    {
        if k == 0 {
            sums.push(samples[0]);
        } else {
            let sum: T = plus(samples[k], sums[k - 1]);
            sums.push(sum);
        }
        k = k + 1;
    }
}

// --- laws -------------------------------------------------------------------

/// A replica reaches to the first bin after the one that is nearest to the pitch: bin `b` of
/// `2 * (numbins - 1)` stands for that share of the sampling rate.
pub proof fn lemma_replica_reaches_pitch(fo: int, fs: int, numbins: int)
    requires
        fs > 0,
    ensures
        ({
            let b = replica_bin(fo, fs, numbins) - 1;
            -fs <= 2 * (2 * fo * (numbins - 1) - b * fs) < fs
        }),
{
    crate::num::lemma_rounded_quotient(2 * fo * (numbins - 1), fs, 0);
}

/// An extended spectrum is the spectrum itself, with its bins mirrored at the lowest and at the
/// highest.
pub proof fn lemma_extended_is_mirrored(half: int, boundary: int, k: int)
    requires
        0 <= boundary <= half,
        0 <= k,
    ensures
        k <= half ==> extended_bin(half, boundary, boundary + k) == k,
        k <= boundary ==> extended_bin(half, boundary, boundary - k) == k,
        k <= boundary ==> extended_bin(half, boundary, boundary + half + k) == half - k,
{
}

} // verus!
