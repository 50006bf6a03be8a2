//! Maximally even scales and Fokker blocks, as steps of each
//! generator.
use crate::shape::has_rows;
use crate::{ETMap, Exponent, Mapping};
use vstd::prelude::*;

verus! {

/// Pitch `i` of the maximally even scale of `d` notes from `n`
/// steps, in the given rotation.
pub open spec fn even_pitch(d: int, n: int, rotation: int, i: int) -> int {
    ((i + 1) * n + rotation) / d - rotation / d
}

/// Bounds on a pitch of a maximally even scale.
proof fn lemma_even_pitch(d: int, n: int, rotation: int, i: int)
    requires
        0 <= i < d,
        n >= 0,
        rotation >= 0,
    ensures
        0 <= even_pitch(d, n, rotation, i) <= n,
        0 <= (i + 1) * n + rotation <= d * n + rotation,
{
    let a = (i + 1) * n + rotation;
    assert(0 <= (i + 1) * n <= d * n) by (nonlinear_arith)
        requires
            0 <= i < d,
            n >= 0,
    ;
    let q = rotation / d;
    let r = rotation % d;
    assert(rotation == d * q + r && 0 <= r < d) by (nonlinear_arith)
        requires
            d > 0,
            q == rotation / d,
            r == rotation % d,
    ;
    // rotation <= a <= d·n + rotation, so q <= a / d <= n + q
    assert(a / d >= q) by (nonlinear_arith)
        requires
            d > 0,
            a >= d * q,
    ;
    assert(a / d <= n + q) by (nonlinear_arith)
        requires
            d > 0,
            a <= d * n + d * q + r,
            0 <= r < d,
    ;
}

/// A maximally even scale of `d` notes from `n` steps: pitch `i` is
/// `⌊((i+1)·n + rotation) / d⌋ − ⌊rotation / d⌋`, so that the last
/// pitch is `n`.
pub fn maximally_even(d: Exponent, n: Exponent, rotation: Exponent) -> (scale: ETMap)
    requires
        d >= 0,
        n > 0,
        rotation >= 0,
    ensures
        scale.len() == d,
        forall|i: int| 0 <= i < d ==> #[trigger] scale[i] == even_pitch(d as int, n as int, rotation as int, i),
{
    let mut scale: ETMap = Vec::new();
    if d == 0 {
        return scale;
    }
    let tonic: i64 = (rotation as i64) / (d as i64);
    let mut i: i32 = 0;
    while i < d
        invariant
            0 <= i <= d,
            d > 0,
            n > 0,
            rotation >= 0,
            tonic == rotation as int / d as int,
            scale.len() == i,
            forall|k: int|
                0 <= k < i ==> #[trigger] scale[k] == even_pitch(d as int, n as int, rotation as int, k),
        decreases d - i,
    {
        proof {
            lemma_even_pitch(d as int, n as int, rotation as int, i as int);
            assert(d * n <= 0x7fff_ffff * 0x7fff_ffff) by (nonlinear_arith)
                requires
                    0 <= d <= 0x7fff_ffff,
                    0 <= n <= 0x7fff_ffff,
            ;
        }
        let raw: i64 = ((i as i64 + 1) * (n as i64) + rotation as i64) / (d as i64);
        scale.push((raw - tonic) as i32);
        i += 1;
    }
    scale
}

/// Step `i` of generator `octave` in the block of `n_pitches`:
/// `⌈(i+1)·octave / n_pitches⌉`.
pub open spec fn block_step(n_pitches: int, octave: int, i: int) -> int {
    even_pitch(n_pitches, octave, n_pitches - 1, i)
}

/// The Fokker block of `n_pitches` pitches for equal temperaments
/// with the given numbers of steps to the octave: pitch `i` is, for
/// each of them, its step in the maximally even scale of
/// `n_pitches` notes.
pub fn fokker_block(n_pitches: Exponent, octaves: ETMap) -> (block: Mapping)
    requires
        n_pitches >= 0,
        forall|j: int| 0 <= j < octaves.len() ==> #[trigger] octaves[j] > 0,
    ensures
        block.len() == n_pitches,
        forall|i: int|
            0 <= i < n_pitches ==> {
                &&& (#[trigger] block[i]).len() == octaves.len()
                &&& forall|j: int|
                    0 <= j < octaves.len() ==> #[trigger] block[i][j] == block_step(
                        n_pitches as int,
                        octaves[j] as int,
                        i,
                    )
            },
{
    let mut scales: Mapping = Vec::new();
    let mut j: usize = 0;
    while j < octaves.len()
        invariant
            j <= octaves.len(),
            n_pitches >= 0,
            scales.len() == j,
            forall|k: int| 0 <= k < octaves.len() ==> #[trigger] octaves[k] > 0,
            forall|k: int|
                0 <= k < j ==> {
                    &&& (#[trigger] scales[k]).len() == n_pitches
                    &&& forall|i: int|
                        0 <= i < n_pitches ==> #[trigger] scales[k][i] == block_step(
                            n_pitches as int,
                            octaves[k] as int,
                            i,
                        )
                },
        decreases octaves.len() - j,
    {
        let rotation: i32 = if n_pitches == 0 {
            0
        } else {
            n_pitches - 1
        };
        let scale = maximally_even(n_pitches, octaves[j], rotation);
        scales.push(scale);
        j += 1;
    }
    transpose(&scales, n_pitches as usize)
}

/// The rows of a list of columns of `n` entries each.
fn transpose(scales: &Mapping, n: usize) -> (block: Mapping)
    requires
        has_rows(scales@, n as nat),
    ensures
        block.len() == n,
        forall|i: int|
            0 <= i < n ==> {
                &&& (#[trigger] block[i]).len() == scales.len()
                &&& forall|j: int| 0 <= j < scales.len() ==> #[trigger] block[i][j] == scales[j][i]
            },
{
    let mut block: Mapping = Vec::new();
    let mut i: usize = 0;
    while i < n
        invariant
            i <= n,
            has_rows(scales@, n as nat),
            block.len() == i,
            forall|k: int|
                0 <= k < i ==> {
                    &&& (#[trigger] block[k]).len() == scales.len()
                    &&& forall|j: int|
                        0 <= j < scales.len() ==> #[trigger] block[k][j] == scales[j][k]
                },
        decreases n - i,
    {
        let mut pitch: ETMap = Vec::new();
        let mut j: usize = 0;
        while j < scales.len()
            invariant
                j <= scales.len(),
                i < n,
                has_rows(scales@, n as nat),
                pitch.len() == j,
                forall|k: int| 0 <= k < j ==> #[trigger] pitch[k] == scales[k][i as int],
            decreases scales.len() - j,
        {
            pitch.push(scales[j][i]);
            j += 1;
        }
        block.push(pitch);
        i += 1;
    }
    block
}

/// Step `i` of the generator with `octave` steps to the octave in
/// the periodicity block of `n_pitches`:
/// `⌊(i+2)·octave / n_pitches⌋ − ⌊octave / n_pitches⌋`.
pub open spec fn periodic_step(n_pitches: int, octave: int, i: int) -> int {
    ((i + 2) * octave) / n_pitches - octave / n_pitches
}

/// Bounds on a step of a periodicity block.
proof fn lemma_periodic_step(n: int, o: int, i: int)
    requires
        0 <= i < n,
        o >= 0,
    ensures
        0 <= periodic_step(n, o, i) <= o,
        0 <= (i + 2) * o <= (n + 1) * o,
{
    let a = (i + 2) * o;
    assert(o <= a <= (n + 1) * o) by (nonlinear_arith)
        requires
            0 <= i < n,
            o >= 0,
            a == (i + 2) * o,
    ;
    let q = o / n;
    let r = o % n;
    assert(o == n * q + r && 0 <= r < n) by (nonlinear_arith)
        requires
            n > 0,
            q == o / n,
            r == o % n,
    ;
    assert(a / n >= q) by (nonlinear_arith)
        requires
            n > 0,
            a >= n * q,
    ;
    assert((n + 1) * o == n * o + n * q + r) by (nonlinear_arith)
        requires
            o == n * q + r,
    ;
    assert(a / n <= o + q) by (nonlinear_arith)
        requires
            n > 0,
            a <= n * o + n * q + r,
            0 <= r < n,
    ;
}

/// The Fokker block of a mapping as steps of each generator, not
/// pitches: for `n_pitches` pitches, pitch `i` holds for each
/// equal temperament of the mapping the step `periodic_step` of
/// its steps to the octave.  This might not actually be a
/// periodicity block, because there is no check on `n_pitches`.
pub fn fokker_block_steps(mapping: &[ETMap], n_pitches: Exponent) -> (block: Mapping)
    requires
        n_pitches >= 0,
        forall|j: int|
            0 <= j < mapping.len() ==> (#[trigger] mapping[j]).len() > 0 && mapping[j][0] > 0,
    ensures
        block.len() == n_pitches,
        forall|i: int|
            0 <= i < n_pitches ==> {
                &&& (#[trigger] block[i]).len() == mapping.len()
                &&& forall|j: int|
                    0 <= j < mapping.len() ==> #[trigger] block[i][j] == periodic_step(
                        n_pitches as int,
                        mapping[j][0] as int,
                        i,
                    )
            },
{
    let mut scales: Mapping = Vec::new();
    let mut j: usize = 0;
    while j < mapping.len()
        invariant
            j <= mapping.len(),
            n_pitches >= 0,
            scales.len() == j,
            forall|k: int|
                0 <= k < mapping.len() ==> (#[trigger] mapping[k]).len() > 0 && mapping[k][0] > 0,
            forall|k: int|
                0 <= k < j ==> {
                    &&& (#[trigger] scales[k]).len() == n_pitches
                    &&& forall|i: int|
                        0 <= i < n_pitches ==> #[trigger] scales[k][i] == periodic_step(
                            n_pitches as int,
                            mapping[k][0] as int,
                            i,
                        )
                },
        decreases mapping.len() - j,
    {
        let octave: i64 = mapping[j][0] as i64;
        let mut scale: ETMap = Vec::new();
        let mut i: i32 = 0;
        while i < n_pitches
            invariant
                0 <= i <= n_pitches,
                0 < octave <= i32::MAX,
                scale.len() == i,
                forall|k: int|
                    0 <= k < i ==> #[trigger] scale[k] == periodic_step(
                        n_pitches as int,
                        octave as int,
                        k,
                    ),
            decreases n_pitches - i,
        {
            proof {
                lemma_periodic_step(n_pitches as int, octave as int, i as int);
                assert((n_pitches + 1) * octave <= 0x8000_0000 * 0x7fff_ffff) by (nonlinear_arith)
                    requires
                        0 <= n_pitches <= 0x7fff_ffff,
                        0 <= octave <= 0x7fff_ffff,
                ;
            }
            let raw: i64 = ((i as i64 + 2) * octave) / (n_pitches as i64);
            let tonic: i64 = octave / (n_pitches as i64);
            scale.push((raw - tonic) as i32);
            i += 1;
        }
        scales.push(scale);
        j += 1;
    }
    transpose(&scales, n_pitches as usize)
}

} // verus!
