use h3_hrx::conditioning::{final_table, mods_table, project, temb};
use h3_hrx::model::{BLOCKS, CLASSES, HID, MODALITIES, MODS_ROWS};

/// One step of a projection, in single precision.
fn step(acc: f32, w: f32, x: f32) -> f32 {
    acc + w * x
}

/// A timestep's eight numbers: clamped, scaled, and interpolated in double precision.
fn at(curve: &[f32], t: f32) -> [f32; 8] {
    let pos = f64::from(t).clamp(0.0, 1.0) * 1024.0;
    temb(curve, pos.floor() as usize, |a, b, i0| {
        let f = pos - i0 as f64;
        (f64::from(a) * (1.0 - f) + f64::from(b) * f) as f32
    })
}

fn ramp(n: usize) -> Vec<f32> {
    (0..n).map(|i| (i % 97) as f32 * 0.01 - 0.5).collect()
}

#[test]
fn temb_interpolates_and_clamps() {
    // a curve whose j-th component at sample i is i + j/10, so the answer is readable
    let curve: Vec<f32> =
        (0..1025 * 8).map(|k| (k / 8) as f32 + (k % 8) as f32 / 10.0).collect();
    // t = 0 is sample 0 exactly
    assert_eq!(at(&curve, 0.0)[0], 0.0);
    assert!((at(&curve, 0.0)[3] - 0.3).abs() < 1e-6);
    // t = 1 clamps to the last whole sample, with no second-sample overrun
    assert!((at(&curve, 1.0)[0] - 1024.0).abs() < 1e-3);
    // halfway between samples 0 and 1
    let half = at(&curve, 0.5 / 1024.0);
    assert!((half[0] - 0.5).abs() < 1e-5, "{}", half[0]);
    // out of range clamps rather than indexing past the curve
    assert_eq!(at(&curve, -1.0)[0], at(&curve, 0.0)[0]);
    assert_eq!(at(&curve, 5.0)[0], at(&curve, 1.0)[0]);
}

#[test]
fn the_final_table_swaps_the_projection_halves() {
    // a weight of zero leaves the bias, so the permutation is all that is visible
    let w = vec![0.0f32; 2 * HID * 8];
    let mut b = vec![0.0f32; 2 * HID];
    for (r, v) in b.iter_mut().enumerate() {
        *v = if r < HID { 1.0 } else { 2.0 };
    }
    let te = [0.0f32; 8];
    let ft = final_table(&w, &b, &te, &te, &step);
    // the projection's first half is the shift, which lands in row 2m + 1
    assert_eq!(ft[HID], 1.0); // row 1: shift for class 0
    assert_eq!(ft[0], 2.0); // row 0: scale for class 0
    assert_eq!(ft[3 * HID], 1.0); // row 3: shift for class 1
    assert_eq!(ft[2 * HID], 2.0); // row 2: scale for class 1
}

#[test]
fn the_mods_table_places_every_class() {
    // one layer, weights zero so each chunk is its bias and its destination is identifiable
    let w = vec![vec![0.0f32; MODALITIES * 6 * HID * 8]; BLOCKS];
    let mut b = vec![vec![0.0f32; MODALITIES * 6 * HID]; BLOCKS];
    for d in 0..MODALITIES {
        for j in 0..6 {
            let value = (d * 6 + j) as f32;
            let at = (d * 6 + j) * HID;
            b[0][at..at + HID].fill(value);
        }
    }
    let te = [0.0f32; 8];
    let t = mods_table(&w, &b, &te, &te, &te, &te, &step);
    assert_eq!(t.len(), BLOCKS * MODS_ROWS * HID);
    // modality 0, class 0: chunk 1 is the scale, chunk 0 the shift
    assert_eq!(t[0], 1.0);
    assert_eq!(t[HID], 0.0);
    assert_eq!(t[2 * CLASSES * HID], 2.0); // gate_msa
    assert_eq!(t[3 * CLASSES * HID], 4.0); // scale_mlp
    assert_eq!(t[(3 * CLASSES + 1) * HID], 3.0); // shift_mlp
    assert_eq!(t[5 * CLASSES * HID], 5.0); // gate_mlp
    // modality tag 1 of timestep 0 is class 1, and reads the second chunk group
    assert_eq!(t[2 * HID], 7.0); // scale_msa of class 1 is chunk (1, 1)
}

#[test]
fn the_tables_take_each_timestep_where_its_classes_are() {
    // a weight of one on the first number, so a row names the embedding its class reads
    let mut w = vec![0u32; MODALITIES * 6 * HID * 8];
    for r in 0..MODALITIES * 6 * HID {
        w[r * 8] = 1;
    }
    let w = vec![w; BLOCKS];
    let b = vec![vec![0u32; MODALITIES * 6 * HID]; BLOCKS];
    let te = |m: u32| [m, 0, 0, 0, 0, 0, 0, 0];
    let t = mods_table(&w, &b, &te(10), &te(11), &te(12), &te(13), &|acc, w, x| acc + w * x);
    for class in 0..CLASSES {
        assert_eq!(t[2 * class * HID], 10 + (class / MODALITIES) as u32, "class {class}");
    }
    let f = final_table(&w[0], &b[0], &te(10), &te(11), &|acc, w, x| acc + w * x);
    assert_eq!((f[0], f[4 * HID - 1]), (10, 11));
}

#[test]
fn the_projection_accumulates_in_the_weights_order() {
    // Summing eight terms in a different order would change the last bits; this pins the order by
    // constructing values whose f32 sum is order-dependent.
    let te = [1e8f32, 1.0, -1e8, 1.0, 0.0, 0.0, 0.0, 0.0];
    let w: Vec<f32> = te.iter().map(|_| 1.0).collect();
    let b = vec![0.0f32];
    let mut out = [0.0f32; 1];
    project(&w, &b, &te, &mut out, &step);
    // left to right: ((1e8 + 1) - 1e8) + 1 == 1, not 2
    assert_eq!(out[0], 1.0);
}

#[test]
fn a_ramp_projects_deterministically() {
    let w = vec![ramp(MODALITIES * 6 * HID * 8); 1];
    let b = vec![ramp(MODALITIES * 6 * HID); 1];
    let te = [0.1f32, -0.2, 0.3, -0.4, 0.5, -0.6, 0.7, -0.8];
    let mut a = vec![0.0f32; MODALITIES * 6 * HID];
    let mut b2 = vec![0.0f32; MODALITIES * 6 * HID];
    project(&w[0], &b[0], &te, &mut a, &step);
    project(&w[0], &b[0], &te, &mut b2, &step);
    assert_eq!(a, b2);
}
