use h3_hrx::model::{LATENT_CH, VIDEO_PATCH};
use h3_hrx::noise::augment_ref;
use h3_hrx::sampler::tensor_to_rows;
use rand::{Rng, SeedableRng};
use rand_chacha::ChaCha12Rng;
use rand_distr::StandardNormal;

const AUGMENT: f32 = 0.999;

fn draws(seed: u64, n: usize) -> Vec<f32> {
    let mut rng = ChaCha12Rng::seed_from_u64(seed);
    (0..n).map(|_| rng.sample(StandardNormal)).collect()
}

fn mix(z: f32, n: f32) -> f32 {
    AUGMENT * z + (1.0 - AUGMENT) * n
}

#[test]
fn augmentation_is_mostly_the_latent_and_per_segment_reproducible() {
    let (t_len, h, w) = (1usize, 4usize, 4usize);
    let lat: Vec<f32> = (0..LATENT_CH * t_len * h * w).map(|i| i as f32).collect();
    let rows_n = t_len * (h / 2) * (w / 2);
    let mut a = vec![0.0f32; rows_n * VIDEO_PATCH];
    let mut b = vec![0.0f32; rows_n * VIDEO_PATCH];
    augment_ref(&lat, &draws(42, lat.len()), &mut a, t_len, h, w, mix);
    augment_ref(&lat, &draws(42, lat.len()), &mut b, t_len, h, w, mix);
    assert_eq!(a, b, "the same seed augments the same way");
    // the noise contributes a thousandth, so each row is within a few sigma of the latent it patched
    let mut plain = vec![0.0f32; rows_n * VIDEO_PATCH];
    tensor_to_rows(&lat, &mut plain, t_len, h, w);
    for (got, want) in a.iter().zip(&plain) {
        assert!((got - AUGMENT * want).abs() < 0.02, "{got} vs {want}");
    }
}

#[test]
fn a_draw_goes_to_the_element_it_was_drawn_for() {
    let (t_len, h, w) = (2usize, 2usize, 4usize);
    let n = LATENT_CH * t_len * h * w;
    let lat: Vec<u64> = (0..n as u64).collect();
    let mut rows = vec![0u64; t_len * 2 * VIDEO_PATCH];
    // the draws come in tensor order
    augment_ref(&lat, &lat, &mut rows, t_len, h, w, |z, d| {
        assert_eq!(z, d);
        1000 * z + d
    });
    let mut plain = vec![0u64; rows.len()];
    tensor_to_rows(&lat, &mut plain, t_len, h, w);
    for (got, want) in rows.iter().zip(&plain) {
        assert_eq!(*got, 1001 * want);
    }
}
