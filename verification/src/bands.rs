//! Band selection on harmonic embeddings: chimera vectors that take their low
//! harmonics from one vector and their high harmonics from another, sparse
//! wave packets that keep a chosen set of DFT bands, and selective loading of
//! DFT coefficients. Entries are only moved, so any copyable entry type will
//! do.
use vstd::prelude::*;

verus! {

/// One band of a wave packet: its frequency index, amplitude and phase.
#[derive(Clone, Copy, Debug)]
pub struct BandEntry<T> {
    pub n: usize,
    pub amplitude: T,
    pub phase: T,
}

/// The requested bands that exist in both the amplitude and the phase lists,
/// in the order they were requested.
pub open spec fn kept_bands(band_set: Seq<usize>, n_amplitudes: nat, n_phases: nat) -> Seq<
    usize,
> {
    band_set.filter(|n: usize| n < n_amplitudes && n < n_phases)
}

/// A requested band is kept exactly when it lies below both the number of
/// amplitudes and the number of phases, and when every requested band does,
/// all of them are kept, in the order requested.
pub proof fn lemma_kept_bands_are_those_in_range(
    band_set: Seq<usize>,
    n_amplitudes: nat,
    n_phases: nat,
)
    ensures
        forall|n: usize|
            #[trigger] kept_bands(band_set, n_amplitudes, n_phases).contains(n) <==> (
            band_set.contains(n) && n < n_amplitudes && n < n_phases),
        (forall|i: int|
            0 <= i < band_set.len() ==> #[trigger] band_set[i] < n_amplitudes && band_set[i]
                < n_phases) ==> kept_bands(band_set, n_amplitudes, n_phases) == band_set,
    decreases band_set.len(),
{
    let pred = |n: usize| n < n_amplitudes && n < n_phases;
    let kept = kept_bands(band_set, n_amplitudes, n_phases);
    assert forall|n: usize| #[trigger] kept.contains(n) <==> (band_set.contains(n)
        && n < n_amplitudes && n < n_phases) by {
        if kept.contains(n) {
            let i = choose|i: int| 0 <= i < kept.len() && kept[i] == n;
            band_set.lemma_filter_pred(pred, i);
            band_set.lemma_filter_contains_rev(pred, n);
        }
        if band_set.contains(n) && n < n_amplitudes && n < n_phases {
            let i = choose|i: int| 0 <= i < band_set.len() && band_set[i] == n;
            band_set.lemma_filter_contains(pred, i);
        }
    }
    if band_set.len() > 0 {
        let rest = band_set.drop_last();
        lemma_kept_bands_are_those_in_range(rest, n_amplitudes, n_phases);
        if forall|i: int|
            0 <= i < band_set.len() ==> #[trigger] band_set[i] < n_amplitudes && band_set[i]
                < n_phases {
            assert forall|i: int| 0 <= i < rest.len() implies #[trigger] rest[i] < n_amplitudes
                && rest[i] < n_phases by {
                assert(rest[i] == band_set[i]);
            }
            reveal_with_fuel(Seq::<_>::filter, 1);
            assert(band_set.last() < n_amplitudes && band_set.last() < n_phases);
            assert(kept == kept_bands(rest, n_amplitudes, n_phases).push(band_set.last()));
            assert(kept =~= band_set);
        }
    } else {
        reveal_with_fuel(Seq::<_>::filter, 1);
        assert(kept =~= band_set);
    }
}

/// Chimera construction: harmonics below `split_harmonic` come from `vec_a`,
/// the others from `vec_b`. Harmonic `h` occupies entries `2h` (cosine) and
/// `2h + 1` (sine).
pub fn chimera<T: Copy>(vec_a: &[T], vec_b: &[T], split_harmonic: usize) -> (r: Vec<T>)
    requires
        vec_a@.len() == vec_b@.len(),
        vec_a@.len() % 2 == 0,
    ensures
        r@.len() == vec_a@.len(),
        forall|i: int|
            0 <= i < r@.len() ==> #[trigger] r@[i] == if i / 2 < split_harmonic {
                vec_a@[i]
            } else {
                vec_b@[i]
            },
{
    let len = vec_a.len();
    let n_harmonics = len / 2;
    let mut result: Vec<T> = Vec::new();
    for h in 0..n_harmonics
        invariant
            len == vec_a@.len(),
            n_harmonics == len / 2,
            vec_a@.len() == vec_b@.len(),
            vec_a@.len() % 2 == 0,
            result@.len() == 2 * h,
            forall|i: int|
                0 <= i < result@.len() ==> #[trigger] result@[i] == if i / 2 < split_harmonic {
                    vec_a@[i]
                } else {
                    vec_b@[i]
                },
    {
        let ci = h * 2;
        let si = h * 2 + 1;
        if h < split_harmonic {
            result.push(vec_a[ci]);
            result.push(vec_a[si]);
        } else {
            result.push(vec_b[ci]);
            result.push(vec_b[si]);
        }
    }
    result
}

/// A sparse wave packet: one entry per requested band that exists in both
/// lists, in the order requested, with its amplitude and phase.
pub fn make_wave_packet<T: Copy>(amplitudes: &[T], phases: &[T], band_set: &[usize]) -> (r: Vec<
    BandEntry<T>,
>)
    ensures
        r@.len() == kept_bands(band_set@, amplitudes@.len(), phases@.len()).len(),
        forall|i: int|
            0 <= i < r@.len() ==> {
                let n = kept_bands(band_set@, amplitudes@.len(), phases@.len())[i];
                &&& #[trigger] r@[i].n == n
                &&& r@[i].amplitude == amplitudes@[n as int]
                &&& r@[i].phase == phases@[n as int]
            },
{
    let mut packet: Vec<BandEntry<T>> = Vec::new();
    let count = band_set.len();
    let mut k: usize = 0;
    while k < count
        invariant
            k <= count,
            count == band_set@.len(),
            packet@.len() == kept_bands(band_set@.take(k as int), amplitudes@.len(), phases@.len()).len(),
            forall|i: int|
                0 <= i < packet@.len() ==> {
                    let n = kept_bands(band_set@.take(k as int), amplitudes@.len(), phases@.len())[i];
                    &&& #[trigger] packet@[i].n == n
                    &&& packet@[i].amplitude == amplitudes@[n as int]
                    &&& packet@[i].phase == phases@[n as int]
                },
        decreases count - k,
    {
        let n = band_set[k];
        proof {
            reveal_with_fuel(Seq::<_>::filter, 1);
            assert(band_set@.take(k + 1).drop_last() =~= band_set@.take(k as int));
        }
        let ghost before = packet@;
        let ghost old_kept = kept_bands(band_set@.take(k as int), amplitudes@.len(), phases@.len());
        let ghost new_kept = kept_bands(band_set@.take(k + 1), amplitudes@.len(), phases@.len());
        if n < amplitudes.len() && n < phases.len() {
            packet.push(BandEntry { n, amplitude: amplitudes[n], phase: phases[n] });
            assert(new_kept == old_kept.push(n));
        } else {
            assert(new_kept == old_kept);
        }
        assert forall|i: int| 0 <= i < packet@.len() implies {
            let m = new_kept[i];
            &&& #[trigger] packet@[i].n == m
            &&& packet@[i].amplitude == amplitudes@[m as int]
            &&& packet@[i].phase == phases@[m as int]
        } by {
            if i < before.len() {
                assert(packet@[i] == before[i]);
                assert(before[i].n == old_kept[i]);
                assert(new_kept[i] == old_kept[i]);
            } else {
                assert(new_kept[i] == n);
            }
        }
        k = k + 1;
    }
    assert(band_set@.take(count as int) =~= band_set@);
    packet
}

/// Selective band loading: entry `i` of the result is `coeffs[i]` when band
/// `i` is requested in `band_set`, and `zero` otherwise; requested bands
/// beyond the end of `coeffs` are ignored.
pub fn keep_bands<T: Copy>(coeffs: &[T], band_set: &[usize], zero: T) -> (r: Vec<T>)
    ensures
        r@.len() == coeffs@.len(),
        forall|i: int|
            0 <= i < r@.len() ==> #[trigger] r@[i] == if band_set@.contains(i as usize) {
                coeffs@[i]
            } else {
                zero
            },
{
    let len = coeffs.len();
    let mut partial: Vec<T> = Vec::new();
    let mut i: usize = 0;
    while i < len
        invariant
            i <= len,
            len == coeffs@.len(),
            partial@.len() == i,
            forall|j: int| 0 <= j < i ==> #[trigger] partial@[j] == zero,
        decreases len - i,
    {
        partial.push(zero);
        i = i + 1;
    }
    let count = band_set.len();
    let mut k: usize = 0;
    while k < count
        invariant
            k <= count,
            count == band_set@.len(),
            len == coeffs@.len(),
            partial@.len() == len,
            forall|j: int|
                0 <= j < len ==> #[trigger] partial@[j] == if band_set@.take(k as int).contains(
                    j as usize,
                ) {
                    coeffs@[j]
                } else {
                    zero
                },
        decreases count - k,
    {
        let n = band_set[k];
        let ghost before = partial@;
        if n < len {
            partial.set(n, coeffs[n]);
        }
        assert forall|j: int| 0 <= j < len implies #[trigger] partial@[j] == if band_set@.take(
            k + 1,
        ).contains(j as usize) {
            coeffs@[j]
        } else {
            zero
        } by {
            let prev = band_set@.take(k as int);
            let next = band_set@.take(k + 1);
            assert(next == prev.push(n));
            if prev.contains(j as usize) {
                let w = choose|w: int| 0 <= w < prev.len() && prev[w] == j as usize;
                assert(next[w] == j as usize);
            }
            if next.contains(j as usize) && j as usize != n {
                let w = choose|w: int| 0 <= w < next.len() && next[w] == j as usize;
                assert(prev[w] == j as usize);
            }
            if j as usize == n {
                assert(next[k as int] == n);
            }
        }
        k = k + 1;
    }
    assert(band_set@.take(count as int) =~= band_set@);
    partial
}

} // verus!
