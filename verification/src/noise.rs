//! Where the seeded noise of a run lands.
//!
//! The ordering of the draws is load-bearing for a run being reproducible: video noise in tensor order,
//! audio noise from the same already-advanced stream, and a fresh per-segment generator for reference
//! condition augmentation. The draws themselves come from the program around this crate.
use vstd::prelude::*;

use crate::sampler;

verus! {

/// Whether each element is its latent mixed with its own draw.
pub open spec fn mixed_from<T, F: Fn(T, T) -> T>(
    mixed: Seq<T>,
    lat: Seq<T>,
    draws: Seq<T>,
    n: int,
    mix: F,
) -> bool {
    mixed.len() == n && forall|j: int|
        0 <= j < n ==> call_ensures(mix, (lat[j], draws[j]), #[trigger] mixed[j])
}

/// A reference's latent mixed with fresh noise, patched into rows.
///
/// `draws` are the generator's numbers in the order it gave them: one per element of the latent, in
/// tensor order. `mix` is the visual condition augmentation of one element.
pub fn augment_ref<T: Copy, F: Fn(T, T) -> T>(
    lat: &[T],
    draws: &[T],
    rows: &mut [T],
    t_len: usize,
    h: usize,
    w: usize,
    mix: F,
)
    requires
        sampler::latent_len(t_len as int, h as int, w as int) <= lat@.len(),
        sampler::latent_len(t_len as int, h as int, w as int) == draws@.len(),
        forall|z: T, n: T| #[trigger] call_requires(mix, (z, n)),
        forall|j: int|
            0 <= j < draws@.len() ==> #[trigger] sampler::patched_at(
                j,
                t_len as int,
                h as int,
                w as int,
            ) < old(rows)@.len(),
    ensures
        exists|mixed: Seq<T>|
            #![trigger mixed_from(mixed, lat@, draws@, draws@.len() as int, mix)]
            mixed_from(mixed, lat@, draws@, draws@.len() as int, mix) && sampler::patched(
                mixed,
                old(rows)@,
                final(rows)@,
                draws@.len() as int,
                t_len as int,
                h as int,
                w as int,
            ),
{
    let n: usize = draws.len();
    let mut mixed: Vec<T> = Vec::new();
    let mut j: usize = 0;
    while j < n
        invariant
            n == draws@.len(),
            n <= lat@.len(),
            j <= n,
            forall|z: T, n: T| #[trigger] call_requires(mix, (z, n)),
            mixed_from(mixed@, lat@, draws@, j as int, mix),
        decreases n - j,
    {
        let value = mix(lat[j], draws[j]);
        mixed.push(value);
        j += 1;
    }
    sampler::tensor_to_rows(mixed.as_slice(), rows, t_len, h, w);
    assert(mixed_from(mixed@, lat@, draws@, draws@.len() as int, mix));
}

} // verus!
