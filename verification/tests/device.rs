use h3_hrx::conditioning::device::{blocks, final_layer, Projection};
use h3_hrx::dit::run::{
    after_step, ensure_blocks, ensure_cache, ensure_refiner, ensure_seq, layer_cond, table_bytes,
    PromptWeights,
};
use h3_hrx::hrx::{Buffer, BufferRef};
use h3_hrx::model::{AUDIO_CH, BLOCKS, FINAL_N, HID, MODS_ROWS, VIDEO_PATCH};
use h3_hrx::sampler::device::{split_head, Euler, Ratio};

#[test]
fn a_head_holds_the_sound_rows_and_then_the_picture_rows() {
    let head: Vec<usize> = (0..3 * FINAL_N).collect();
    let mut audio = vec![0usize; AUDIO_CH];
    let mut video = vec![0usize; 2 * VIDEO_PATCH];
    split_head(&head, 1, &mut audio, &mut video);
    // a picture row is the first ninety-six columns, a sound row the rest
    assert_eq!(audio, (VIDEO_PATCH..FINAL_N).collect::<Vec<_>>());
    assert_eq!(&video[..VIDEO_PATCH], &(FINAL_N..FINAL_N + VIDEO_PATCH).collect::<Vec<_>>()[..]);
    assert_eq!(video[VIDEO_PATCH], 2 * FINAL_N);
}

#[test]
fn resident_latents_step_in_two_launches() {
    let (audio_rows, video_rows) = (10, 24);
    let (a, v) = Euler::sizes(audio_rows, video_rows).unwrap();
    assert_eq!((a, v), (10 * AUDIO_CH * 4, 24 * VIDEO_PATCH * 4));
    let euler =
        Euler::new(audio_rows, video_rows, Buffer::new(1, a), Buffer::new(2, v)).unwrap();
    assert!(euler.matches(10, 24) && !euler.matches(10, 25));
    let head = Buffer::new(3, 34 * FINAL_N * 4);
    let half = Ratio { sigma: 0x3f00_0000, ratio: 0x3f00_0000 };
    let (one, two) = euler.step(head.binding(), half, half).unwrap();
    let bound = |buffers: &[BufferRef]| {
        let mut handles: Vec<u64> = buffers.iter().map(|b| b.buffer).collect();
        handles.sort();
        handles
    };
    assert_eq!(bound(&one.bindings), vec![1, 3]);
    assert_eq!(bound(&two.bindings), vec![2, 3]);
    // a head too short for its rows is refused
    let short = BufferRef { buffer: 3, offset: 0, length: 34 * FINAL_N * 4 - 4 };
    assert!(euler.step(short, half, half).is_err());
}

#[test]
fn the_blocks_tables_are_projected_at_four_timesteps() {
    let w: Vec<Vec<f32>> = vec![vec![0.0; 18 * HID * 8]; BLOCKS];
    let b: Vec<Vec<f32>> = vec![vec![0.0; 18 * HID]; BLOCKS];
    let plan = blocks(&w, &b).unwrap();
    assert_eq!(plan.maps.len(), 4);
    assert_eq!(plan.output_bytes, BLOCKS * MODS_ROWS * HID * 4);
    // short weights are refused
    let short: Vec<Vec<f32>> = vec![vec![0.0; 8]; BLOCKS];
    assert!(blocks(&short, &b).is_err());
}

#[test]
fn the_final_table_is_projected_at_two() {
    let plan = final_layer(vec![0.0f32; 2 * HID * 8], vec![0.0f32; 2 * HID]).unwrap();
    assert_eq!(plan.maps.len(), 2);
    let (weights, bias) = plan.operand_bytes();
    let maps = plan.maps.iter().map(|m| Buffer::new(7, m.len() * 4)).collect();
    let output = Buffer::new(8, plan.output_bytes);
    let p = Projection {
        plan,
        weights: Buffer::new(5, weights),
        bias: Buffer::new(6, bias),
        maps,
    };
    let launches = p.run(&[[0; 8]; 2], &output).unwrap();
    assert_eq!(launches.len(), 2);
    assert!(p.run(&[[0; 8]; 3], &output).is_err(), "one timestep too many");
    assert!(p.run(&[[0; 8]; 2], &Buffer::new(8, 4)).is_err(), "a short table");
}

#[test]
fn what_is_built_is_kept_while_it_fits() {
    assert!(ensure_blocks(None, 10, 8));
    assert!(!ensure_blocks(Some((10, 8)), 10, 8));
    assert!(ensure_blocks(Some((10, 8)), 10, 4));
    assert!(ensure_cache(Some(5), 6) && !ensure_cache(Some(6), 6));
    assert!(ensure_refiner(None, 4) && !ensure_refiner(Some(4), 4));
    let sizes = ensure_seq(None, 257).unwrap();
    assert_eq!((sizes.capacity, sizes.x), (544, 544 * HID * 4));
    assert!(ensure_seq(Some(544), 544).is_none());
    assert!(ensure_seq(Some(288), 289).is_some());
}

#[test]
fn a_blocks_conditioning_is_its_rows_of_the_table() {
    let (mods, _) = table_bytes();
    let table = Buffer::new(4, mods);
    let a = layer_cond(&table, 0);
    let b = layer_cond(&table, 1);
    assert_eq!(b.table_msa.offset - a.table_msa.offset, MODS_ROWS * HID * 4);
    let last = layer_cond(&table, BLOCKS - 1);
    assert!(last.gate_mlp.offset + last.gate_mlp.length <= mods);
}

#[test]
fn a_run_stops_where_it_is_told_to() {
    assert!(after_step(false).is_ok());
    assert_eq!(after_step(true).unwrap_err().message(), "cancelled");
}

#[test]
fn the_prompts_weights_are_asked_for_by_name() {
    assert_eq!(PromptWeights::wanted().len(), 3);
}
