use h3_hrx::model::{AUDIO_CH, LATENT_CH, VIDEO_PATCH};
use h3_hrx::sampler::{
    advance, audio_rows_to_tensor, audio_tensor_to_rows, denoised_audio, denoised_video,
    euler_update, extrapolates, patch_index, rows_to_tensor, tensor_to_rows,
};

/// `r x + (1 - r) (x + sigma v)`, in single precision, exactly as written.
fn euler(sigma: f32, r: f32) -> impl Fn(f32, f32) -> f32 {
    move |x, v| r * x + (1.0 - r) * (x + sigma * v)
}

/// The audio's estimate, with the network's output re-expressed on the video's grid in double precision.
fn audio_estimate(sigma_v: f32, sigma_a: f32, ascale: f64) -> impl Fn(f32, f32, f32) -> f32 {
    move |y, x, v| {
        let out = (1.0 - ascale) * f64::from(x)
            - (1.0 + (ascale - 1.0) * f64::from(sigma_a)) * f64::from(v);
        (f64::from(y) - f64::from(sigma_v) * out) as f32
    }
}

/// One multistep advance on a grid of noise levels.
fn step_on(x: &mut [f32], d: &[f32], old: Option<&[f32]>, sigmas: &[f32], step: usize) {
    let (sigma, sigma_next) = (sigmas[step], sigmas[step + 1]);
    let r = sigma_next / sigma;
    let (mut h, mut b1, mut b2) = (0.0, 0.0, 0.0);
    if extrapolates(old, sigma_next == 0.0) {
        let t = -f64::from(sigma).ln();
        let t_prev = -f64::from(sigmas[step - 1]).ln();
        h = -f64::from(sigma_next).ln() - t;
        let c2 = (t_prev - t) / h;
        let phi1 = (-h).exp_m1() / -h;
        let phi2 = (phi1 - 1.0) / -h;
        (b1, b2) = (phi1 - phi2 / c2, phi2 / c2);
    }
    let decay = (-h).exp();
    advance(
        x,
        d,
        old,
        sigma_next == 0.0,
        &|x, d| r * x + (1.0 - r) * d,
        |x, d, o| {
            (decay * f64::from(x) + h * (b1 * f64::from(d) + b2 * f64::from(o))) as f32
        },
    );
}

#[test]
fn the_euler_update_keeps_its_uncancelled_form() {
    // r x + (1 - r)(x + sigma v) and x + (1 - r) sigma v agree in exact arithmetic and not in f32.
    // These values differ in the last bit, which is why the un-cancelled form is preserved.
    let (sigma, r) = (2.0f32, 0.1f32);
    let mut x = [1.0f32];
    let v = [1.0f32];
    euler_update(&mut x, &v, &euler(sigma, r));
    let simplified = 1.0f32 + (1.0 - r) * (sigma * v[0]);
    assert_eq!(x[0], 2.799_999_7);
    assert_ne!(x[0], simplified, "the two forms must not be assumed equal");
}

#[test]
fn a_full_step_is_the_identity_and_a_zero_step_lands_on_the_estimate() {
    // r = 1 leaves x alone
    let mut x = [3.0f32, -1.0];
    euler_update(&mut x, &[5.0, 5.0], &euler(2.0, 1.0));
    assert_eq!(x, [3.0, -1.0]);
    // r = 0 moves all the way to x + sigma v
    let mut x = [3.0f32, -1.0];
    euler_update(&mut x, &[5.0, 5.0], &euler(2.0, 0.0));
    assert_eq!(x, [13.0, 9.0]);
}

#[test]
fn the_first_advance_falls_back_to_euler() {
    let sigmas = [1.0f32, 0.5, 0.0];
    let d = [2.0f32, 4.0];
    let mut a = [1.0f32, 1.0];
    let mut b = [1.0f32, 1.0];
    step_on(&mut a, &d, None, &sigmas, 0);
    // the same as the explicit Euler form on the denoised estimate
    let r = sigmas[1] / sigmas[0];
    for (i, x) in b.iter_mut().enumerate() {
        *x = r * *x + (1.0 - r) * d[i];
    }
    assert_eq!(a, b);
}

#[test]
fn landing_on_zero_sigma_falls_back_even_with_a_previous_estimate() {
    let sigmas = [1.0f32, 0.5, 0.0];
    let d = [2.0f32];
    let old = [1.5f32];
    let mut with_old = [1.0f32];
    let mut without = [1.0f32];
    step_on(&mut with_old, &d, Some(&old), &sigmas, 1); // sigma_next is zero
    step_on(&mut without, &d, None, &sigmas, 1);
    assert_eq!(with_old, without, "the last step must not extrapolate");
}

#[test]
fn the_second_order_step_reduces_to_its_coefficients() {
    // With the previous denoised estimate equal to the current one, b1 + b2 multiplies one value,
    // so the result is decay * x + h * (b1 + b2) * d and can be checked directly.
    let sigmas = [1.0f32, 0.6, 0.3];
    let d = [2.0f32];
    let old = [2.0f32];
    let mut x = [1.0f32];
    step_on(&mut x, &d, Some(&old), &sigmas, 1);

    let t = -f64::from(sigmas[1]).ln();
    let t_next = -f64::from(sigmas[2]).ln();
    let t_prev = -f64::from(sigmas[0]).ln();
    let h = t_next - t;
    let c2 = (t_prev - t) / h;
    let phi1 = (-h).exp_m1() / -h;
    let phi2 = (phi1 - 1.0) / -h;
    let want = ((-h).exp() * 1.0 + h * ((phi1 - phi2 / c2) + phi2 / c2) * 2.0) as f32;
    assert_eq!(x[0], want);
}

#[test]
fn an_advance_extrapolates_from_an_estimate_alone() {
    assert!(!extrapolates::<f32>(None, false));
    assert!(!extrapolates::<f32>(Some(&[]), false));
    assert!(!extrapolates(Some(&[1.0]), true));
    assert!(extrapolates(Some(&[1.0]), false));
    // what has no estimate stays
    let mut x = [1, 2, 3];
    advance(&mut x, &[10, 20], Some(&[100]), false, &|x, d| x + d, |x, d, o| x + d + o);
    assert_eq!(x, [111, 2, 3]);
    advance(&mut x, &[10, 20], None, false, &|x, d| x + d, |x, d, o| x + d + o);
    assert_eq!(x, [121, 22, 3]);
}

#[test]
fn the_video_estimate_is_as_long_as_its_output() {
    assert_eq!(denoised_video(&[1.0, 2.0, 3.0], &[4.0, 5.0], |x, o| x + 0.5 * o), vec![3.0, 4.5]);
}

#[test]
fn the_audio_output_is_re_expressed_in_f64() {
    // A scale of one makes the first term vanish, leaving y - sigma_v * (-(1) * v).
    let y = [1.0f32];
    let x_a = [0.5f32];
    let v = [2.0f32];
    let got = denoised_audio(&y, &x_a, &v, audio_estimate(0.5, 0.25, 1.0));
    assert!((got[0] - (1.0 + 0.5 * 2.0)).abs() < 1e-6, "{}", got[0]);
    // and with a scale, the x_a term appears
    let got = denoised_audio(&y, &x_a, &v, audio_estimate(1.0, 1.0, 4.0));
    let want = (1.0f64 - ((1.0 - 4.0) * 0.5 - (1.0 + 3.0 * 1.0) * 2.0)) as f32;
    assert_eq!(got[0], want);
}

#[test]
fn patching_round_trips() {
    let (t_len, h, w) = (3usize, 4usize, 6usize);
    let lat: Vec<f32> = (0..LATENT_CH * t_len * h * w).map(|i| i as f32).collect();
    let rows_n = t_len * (h / 2) * (w / 2);
    let mut rows = vec![-1.0f32; rows_n * VIDEO_PATCH];
    tensor_to_rows(&lat, &mut rows, t_len, h, w);
    let mut back = vec![0.0f32; lat.len()];
    rows_to_tensor(&rows, &mut back, t_len, h, w);
    assert_eq!(lat, back);
    // every row is written exactly once
    assert!(rows.iter().all(|v| *v >= 0.0));
}

#[test]
fn the_patch_index_is_the_documented_one() {
    // channel-major within a 2x2 patch: (y % 2) * 2 + (x % 2) picks the corner
    let (h, w) = (4usize, 6usize);
    assert_eq!(patch_index(0, 0, 0, 0, h, w), (0, 0));
    assert_eq!(patch_index(0, 0, 0, 1, h, w), (0, 1));
    assert_eq!(patch_index(0, 0, 1, 0, h, w), (0, 2));
    assert_eq!(patch_index(0, 0, 1, 1, h, w), (0, 3));
    assert_eq!(patch_index(1, 0, 0, 0, h, w), (0, 4));
    assert_eq!(patch_index(0, 0, 0, 2, h, w), (1, 0));
    assert_eq!(patch_index(0, 0, 2, 0, h, w), (3, 0));
    assert_eq!(patch_index(0, 1, 0, 0, h, w), (6, 0));
}

#[test]
fn audio_patching_round_trips_and_unscales() {
    let a = 5usize;
    let lat: Vec<f32> = (0..2 * AUDIO_CH * a).map(|i| i as f32 + 1.0).collect();
    let mut rows = vec![0.0f32; 2 * a * AUDIO_CH];
    audio_tensor_to_rows(&lat, &mut rows, a);
    let mut back = vec![0.0f32; lat.len()];
    audio_rows_to_tensor(&rows, &mut back, a, |v| v);
    assert_eq!(lat, back);
    // the carried variable ends at scale * x_a, so the write divides it out
    let mut scaled = vec![0.0f32; lat.len()];
    audio_rows_to_tensor(&rows, &mut scaled, a, |v| v / 4.0);
    assert_eq!(scaled[0], lat[0] / 4.0);
}

#[test]
fn a_sound_row_is_one_step_of_one_channel() {
    let a = 3usize;
    let lat: Vec<usize> = (0..2 * AUDIO_CH * a).collect();
    let mut rows = vec![0usize; lat.len()];
    audio_tensor_to_rows(&lat, &mut rows, a);
    // row c * a + t holds latent [c][k][t] for every k
    assert_eq!(rows[0], 0);
    assert_eq!(rows[1], a);
    assert_eq!(rows[AUDIO_CH], 1);
    assert_eq!(rows[a * AUDIO_CH], AUDIO_CH * a);
}
