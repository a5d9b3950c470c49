use h3_hrx::checkpoint::Checkpoint;
use h3_hrx::names::Named;
use h3_hrx::weights::{
    conv3d_taps, interleave16, interleaved_runs, regroup, rows_of, rows_padded, rows_permuted,
    scales_interleave16, scales_rows, up, widen_f32, widen_padded, widen_runs, Error, Placed, Recipe,
    Result, Staged, Weights,
};

/// A file holding the given tensors, laid out in the order they are listed.
fn file(tensors: &[(&str, &str, Vec<usize>, Vec<u8>)]) -> Vec<u8> {
    let (mut header, mut offset, mut blob) = (String::from("{"), 0usize, Vec::new());
    for (i, (name, dtype, shape, bytes)) in tensors.iter().enumerate() {
        if i > 0 {
            header.push(',');
        }
        let shape_text = shape.iter().map(|d| d.to_string()).collect::<Vec<_>>().join(",");
        header.push_str(&format!(
            "\"{name}\":{{\"dtype\":\"{dtype}\",\"shape\":[{shape_text}],\"data_offsets\":[{},{}]}}",
            offset,
            offset + bytes.len()
        ));
        offset += bytes.len();
        blob.extend_from_slice(bytes);
    }
    header.push('}');
    let mut out = (header.len() as u64).to_le_bytes().to_vec();
    out.extend_from_slice(header.as_bytes());
    out.extend_from_slice(&blob);
    out
}

fn open(file: &[u8]) -> Checkpoint<'_> {
    Checkpoint::open("c.safetensors".to_string(), file).unwrap()
}

fn f32_bytes(values: &[f32]) -> Vec<u8> {
    values.iter().flat_map(|v| v.to_le_bytes()).collect()
}

fn as_f32(bytes: &[u8]) -> Vec<f32> {
    bytes.chunks_exact(4).map(|c| f32::from_le_bytes(c.try_into().unwrap())).collect()
}

#[test]
fn rows_of_concatenates_in_order() {
    let file = file(&[
        ("a", "I8", vec![2, 4], vec![1, 2, 3, 4, 5, 6, 7, 8]),
        ("b", "I8", vec![1, 4], vec![9, 10, 11, 12]),
    ]);
    let ck = open(&file);
    let recipe = rows_of(&ck, &["a", "b"], 0).unwrap();
    assert_eq!(recipe.device_bytes(), 12);
    assert_eq!(recipe.assemble(&ck).unwrap(), (1..=12u8).collect::<Vec<_>>());
}

#[test]
fn a_pitch_pads_each_row_with_zeros() {
    let one = file(&[("a", "I8", vec![2, 4], vec![1, 2, 3, 4, 5, 6, 7, 8])]);
    let ck = open(&one);
    let recipe = rows_of(&ck, &["a"], 6).unwrap();
    assert_eq!(recipe.device_bytes(), 12);
    assert_eq!(recipe.assemble(&ck).unwrap(), vec![1, 2, 3, 4, 0, 0, 5, 6, 7, 8, 0, 0]);
    // a pitch narrower than the row is a plan error, not a truncation
    assert!(rows_of(&ck, &["a"], 3).is_err());
    // and concatenating differing row widths is refused
    let two = file(&[
        ("a", "I8", vec![1, 4], vec![0; 4]),
        ("b", "I8", vec![1, 8], vec![0; 8]),
    ]);
    let ck2 = open(&two);
    assert!(rows_of(&ck2, &["a", "b"], 0).is_err());
}

#[test]
fn interleave16_alternates_the_halves_in_sixteens() {
    // 32 gate rows then 32 up rows, one byte each, valued by row so the order is readable
    let gate: Vec<u8> = (0..32u8).collect();
    let up: Vec<u8> = (100..132u8).collect();
    let file = file(&[("gate", "I8", vec![32, 1], gate), ("up", "I8", vec![32, 1], up)]);
    let ck = open(&file);
    let recipe = interleave16(&ck, ("gate", 0), ("up", 0), 32, 0).unwrap();
    let out = recipe.assemble(&ck).unwrap();
    assert_eq!(out.len(), 64);
    assert_eq!(&out[0..16], &(0..16u8).collect::<Vec<_>>()[..]);
    assert_eq!(&out[16..32], &(100..116u8).collect::<Vec<_>>()[..]);
    assert_eq!(&out[32..48], &(16..32u8).collect::<Vec<_>>()[..]);
    assert_eq!(&out[48..64], &(116..132u8).collect::<Vec<_>>()[..]);
    // a half count that is not a multiple of sixteen does not describe the operand
    assert!(interleave16(&ck, ("gate", 0), ("up", 0), 24, 0).is_err());
    assert!(interleave16(&ck, ("gate", 16), ("up", 0), 32, 0).is_err());
}

#[test]
fn scales_interleave16_follows_the_rows() {
    let gate: Vec<f32> = (0..32).map(|i| i as f32).collect();
    let up: Vec<f32> = (0..32).map(|i| 100.0 + i as f32).collect();
    let one = file(&[
        ("gs", "F32", vec![32, 1], f32_bytes(&gate)),
        ("us", "F32", vec![32, 1], f32_bytes(&up)),
    ]);
    let ck = open(&one);
    let out = as_f32(
        &scales_interleave16(&ck, ("gs", 0), ("us", 0), 32).unwrap().assemble(&ck).unwrap(),
    );
    assert_eq!(out.len(), 64);
    assert_eq!(&out[0..16], &gate[0..16]);
    assert_eq!(&out[16..32], &up[0..16]);
    assert_eq!(&out[32..48], &gate[16..32]);
    assert_eq!(&out[48..64], &up[16..32]);
    // scales must be f32 [N, 1]
    let two = file(&[("gs", "F16", vec![32, 1], vec![0; 64])]);
    let ck2 = open(&two);
    assert!(scales_interleave16(&ck2, ("gs", 0), ("gs", 0), 32).is_err());
}

#[test]
fn widen_f32_is_exact_for_f16_and_bf16() {
    let f16_bits: Vec<u8> = [1.0f32, -2.5, 0.5]
        .iter()
        .flat_map(|v| half::f16::from_f32(*v).to_le_bytes())
        .collect();
    let bf16_bits: Vec<u8> =
        [3.0f32, -0.25].iter().flat_map(|v| half::bf16::from_f32(*v).to_le_bytes()).collect();
    let one = file(&[
        ("h", "F16", vec![3], f16_bits),
        ("b", "BF16", vec![2], bf16_bits),
        ("f", "F32", vec![2], f32_bytes(&[7.5, -8.25])),
    ]);
    let ck = open(&one);
    let out = as_f32(&widen_f32(&ck, &["h", "b", "f"]).unwrap().assemble(&ck).unwrap());
    assert_eq!(out, vec![1.0, -2.5, 0.5, 3.0, -0.25, 7.5, -8.25]);
    // int8 rows are not widened by this path: their scales are separate tensors
    let two = file(&[("q", "I8", vec![4], vec![0; 4])]);
    let ck2 = open(&two);
    assert!(widen_f32(&ck2, &["q"]).is_err());
}

#[test]
fn every_half_widens_to_the_single_it_means() {
    for high in [false, true] {
        let bits: Vec<u16> = (0..=u16::MAX).filter(|b| (b & 0x8000 != 0) == high).collect();
        let raw: Vec<u8> = bits.iter().flat_map(|b| b.to_le_bytes()).collect();
        let file = file(&[
            ("h", "F16", vec![bits.len()], raw.clone()),
            ("b", "BF16", vec![bits.len()], raw),
        ]);
        let ck = open(&file);
        let out = widen_f32(&ck, &["h", "b"]).unwrap().assemble(&ck).unwrap();
        for (i, b) in bits.iter().enumerate() {
            let at = |k: usize| u32::from_le_bytes(out[4 * k..4 * k + 4].try_into().unwrap());
            assert_eq!(at(i), half::f16::from_bits(*b).to_f32().to_bits(), "half {b:#06x}");
            assert_eq!(
                at(bits.len() + i),
                half::bf16::from_bits(*b).to_f32().to_bits(),
                "brain float {b:#06x}"
            );
        }
    }
}

#[test]
fn widen_padded_zero_extends() {
    let file = file(&[("bias", "F32", vec![3], f32_bytes(&[1.0, 2.0, 3.0]))]);
    let ck = open(&file);
    let out = as_f32(&widen_padded(&ck, "bias", 6).unwrap().assemble(&ck).unwrap());
    assert_eq!(out, vec![1.0, 2.0, 3.0, 0.0, 0.0, 0.0]);
    assert!(widen_padded(&ck, "bias", 2).is_err());
}

#[test]
fn rows_padded_appends_zero_rows() {
    let file = file(&[("w", "I8", vec![2, 3], vec![1, 2, 3, 4, 5, 6])]);
    let ck = open(&file);
    let recipe = rows_padded(&ck, "w", 2, 0).unwrap();
    assert_eq!(recipe.device_bytes(), 12);
    assert_eq!(recipe.assemble(&ck).unwrap(), vec![1, 2, 3, 4, 5, 6, 0, 0, 0, 0, 0, 0]);
}

#[test]
fn rows_permuted_reorders_whole_rows() {
    // three rows of two bytes; ask for them as [row2, row0, row1]
    let file = file(&[("qkv", "I8", vec![3, 2], vec![0, 1, 2, 3, 4, 5])]);
    let ck = open(&file);
    let out =
        rows_permuted(&ck, "qkv", &[(2, 1), (0, 1), (1, 1)], 0).unwrap().assemble(&ck).unwrap();
    assert_eq!(out, vec![4, 5, 0, 1, 2, 3]);
    assert!(rows_permuted(&ck, "qkv", &[(2, 2)], 0).is_err());
}

#[test]
fn regroup_zero_extends_each_group() {
    // two rows of two groups of two f16 elements, widened to three elements per group
    let file = file(&[("w", "F16", vec![2, 4], (1..=16u8).collect())]);
    let ck = open(&file);
    let out = regroup(&ck, "w", 2, 2, 3, 0).unwrap().assemble(&ck).unwrap();
    assert_eq!(out.len(), 2 * 2 * 3 * 2);
    assert_eq!(&out[0..4], &[1, 2, 3, 4]); // group 0's two elements
    assert_eq!(&out[4..6], &[0, 0]); // the extension
    assert_eq!(&out[6..10], &[5, 6, 7, 8]); // group 1
    assert_eq!(&out[10..12], &[0, 0]);
    // out_rows pads whole rows too
    let padded = regroup(&ck, "w", 2, 2, 3, 4).unwrap().assemble(&ck).unwrap();
    assert_eq!(padded.len(), 4 * 2 * 3 * 2);
    assert!(padded[24..].iter().all(|b| *b == 0));
    assert!(regroup(&ck, "w", 2, 2, 1, 0).is_err()); // narrower than the input
    assert!(regroup(&ck, "w", 3, 2, 3, 0).is_err()); // the row does not hold the groups
}

#[test]
fn widen_runs_permutes_elements() {
    let file = file(&[("b", "F32", vec![4], f32_bytes(&[0.0, 1.0, 2.0, 3.0]))]);
    let ck = open(&file);
    let out = as_f32(&widen_runs(&ck, "b", &[(2, 2), (0, 2)]).unwrap().assemble(&ck).unwrap());
    assert_eq!(out, vec![2.0, 3.0, 0.0, 1.0]);
    assert!(widen_runs(&ck, "b", &[(3, 2)]).is_err());
}

#[test]
fn interleaved_runs_pairs_the_halves() {
    assert_eq!(
        interleaved_runs(0, 32, 32, 16),
        vec![(0, 16), (32, 16), (16, 16), (48, 16)]
    );
}

#[test]
fn scales_follow_each_other() {
    let file = file(&[
        ("a", "F32", vec![2, 1], f32_bytes(&[1.0, 2.0])),
        ("b", "F32", vec![1, 1], f32_bytes(&[3.0])),
    ]);
    let ck = open(&file);
    let out = as_f32(&scales_rows(&ck, &["a", "b"]).unwrap().assemble(&ck).unwrap());
    assert_eq!(out, vec![1.0, 2.0, 3.0]);
}

#[test]
fn convolution_taps_are_laid_out_tap_by_tap_with_their_channels_together() {
    // one output channel and two input channels; nine taps are the last temporal one's
    let values: Vec<u16> = (1..=54).collect();
    let raw: Vec<u8> = values.iter().flat_map(|v| v.to_le_bytes()).collect();
    let file = file(&[("w", "F16", vec![1, 2, 3, 3, 3], raw)]);
    let ck = open(&file);
    let recipe = conv3d_taps(&ck, "w", 1, 2, 9).unwrap();
    // 9 taps of 8 channels are 72, and the row is padded to 96; the rows to 64
    assert_eq!(recipe.device_bytes(), 64 * 96 * 2);
    let out = recipe.assemble(&ck).unwrap();
    let at = |i: usize| u16::from_le_bytes([out[2 * i], out[2 * i + 1]]);
    for tap in 0..9 {
        assert_eq!(at(tap * 8), 19 + tap as u16);
        assert_eq!(at(tap * 8 + 1), 46 + tap as u16);
        assert_eq!(at(tap * 8 + 2), 0);
    }
    assert!(out[96 * 2..].iter().all(|b| *b == 0));
    let clip = conv3d_taps(&ck, "w", 1, 2, 27).unwrap().assemble(&ck).unwrap();
    assert_eq!(clip.len(), 64 * 224 * 2);
    assert_eq!(u16::from_le_bytes([clip[2 * 26 * 8], clip[2 * 26 * 8 + 1]]), 27);
    let message = conv3d_taps(&ck, "w", 1, 2, 8).err().unwrap().message();
    assert_eq!(message, "conv3d_taps: taps must be 27 or 9");
    assert_eq!(up(72, 32), 96);
    assert_eq!(up(64, 64), 64);
}

#[test]
fn a_plan_that_fails_names_the_tensor_it_wanted() {
    let file = file(&[("present", "I8", vec![1, 4], vec![0; 4])]);
    let ck = open(&file);
    let plan = |ck: &Checkpoint<'_>| -> Result<Named<Recipe>> {
        let mut out = Named::new();
        out.insert("kept".into(), rows_of(ck, &["present"], 0)?);
        out.insert("lost".into(), rows_of(ck, &["blocks.0.attn.qkv_proj.weight"], 0)?);
        Ok(out)
    };
    let planned = plan(&ck);
    let message = Weights::open(ck, planned).err().unwrap().message();
    assert!(message.contains("blocks.0.attn.qkv_proj.weight"), "{message}");
}

#[test]
fn weights_expose_recipes_and_host_tables() {
    let file = file(&[("bias", "F16", vec![2], vec![0, 60, 0, 64])]);
    let ck = open(&file);
    let mut table = Named::new();
    table.insert("b".into(), widen_f32(&ck, &["bias"]).unwrap());
    let w = Weights::open(ck, Ok(table)).unwrap();
    assert!(w.has("b") && !w.has("nope"));
    let host: Vec<f32> =
        w.host_f32("b", 2).unwrap().into_iter().map(f32::from_bits).collect();
    assert_eq!(host, vec![1.0, 2.0]);
    assert!(w.host_f32("b", 3).is_err());
    assert!(matches!(w.recipe("nope"), Err(Error::NoRecipe(_))));
}

#[test]
fn a_tensor_is_resident_once_it_was_put_there() {
    let file = file(&[("a", "I8", vec![2, 4], (1..=8u8).collect())]);
    let ck = open(&file);
    let mut table = Named::new();
    table.insert("a".into(), rows_of(&ck, &["a"], 6).unwrap());
    let mut w = Weights::open(ck, Ok(table)).unwrap();
    assert_eq!(w.at("a", 12).unwrap(), Placed::Absent(12));
    w.keep("a", 77);
    assert_eq!(w.at("a", 12).unwrap(), Placed::Resident(77));
    assert!(matches!(w.at("a", 11), Err(Error::Layout(_))));
    assert!(matches!(w.at("b", 12), Err(Error::NoRecipe(_))));
    assert_eq!(w.rows("a", 2, 4, 6).unwrap(), Placed::Resident(77));
    let message = w.rows("a", 2, 4, 4).unwrap_err().message();
    assert!(message.contains("2 rows of 4 bytes at pitch 4"), "{message}");
}

#[test]
fn transfers_carry_the_whole_tensor() {
    let file = file(&[("a", "I8", vec![2, 4], (1..=8u8).collect())]);
    let ck = open(&file);
    for pitch in [0, 6] {
        let recipe = rows_of(&ck, &["a"], pitch).unwrap();
        let want = recipe.assemble(&ck).unwrap();
        let mut table = Named::new();
        table.insert("a".into(), recipe);
        let again = open(&file);
        let w = Weights::open(again, Ok(table)).unwrap();
        let recipe = w.recipe("a").unwrap();
        let (mut got, mut i) = (Vec::new(), 0);
        while let Some(up) = w.fill(recipe, i).unwrap() {
            assert_eq!(up.offset, got.len());
            match up.bytes {
                Staged::Mapped(bytes) => {
                    assert_eq!(pitch, 0, "only straight rows go up as they are");
                    got.extend_from_slice(bytes);
                }
                Staged::Host(bytes) => {
                    assert_ne!(pitch, 0, "straight rows are not staged");
                    got.extend_from_slice(&bytes);
                }
            }
            i += 1;
        }
        assert_eq!(got, want);
    }
}

#[test]
fn interleaved_runs_tile_both_halves() {
    assert_eq!(interleaved_runs(0, 32, 32, 16), vec![(0, 16), (32, 16), (16, 16), (48, 16)]);
    assert!(interleaved_runs(0, 32, 0, 16).is_empty());
    // a run as long as can be counted, where the halves are shorter
    assert_eq!(interleaved_runs(1, 5, 3, usize::MAX), vec![(1, usize::MAX), (5, usize::MAX)]);
}
