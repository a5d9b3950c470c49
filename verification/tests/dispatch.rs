use h3_hrx::dispatch::{
    axpy, axpy_kernel, checkable, classes_fit, gemm_module, gemm_stem, steps_of, upload_at, Classes,
    Elem, Form, Gemm, Mode, Prepare, Tile, Tuning,
};
use h3_hrx::hrx::{Buffer, Extent};

fn lanes(width: usize) -> Option<usize> {
    if width == 5376 {
        Some(768)
    } else {
        None
    }
}

fn fast_group(_tokens: usize, _k: usize, _n: usize) -> u32 {
    3
}

fn group(_tokens: usize, _k: usize, _n: usize, bits: usize) -> u32 {
    bits as u32
}

fn grid_y(tokens: usize, m_group: u32, m_tile: usize) -> u32 {
    (tokens.div_ceil(m_tile) as u32).div_ceil(m_group) * m_group
}

fn pair(key: &str, value: &str) -> (String, String) {
    (key.to_string(), value.to_string())
}

#[test]
fn a_class_is_a_row_of_the_table_it_indexes() {
    assert!(checkable(&[0, 1, 2], 3, 8).is_ok());
    // the kernel assumes the index is in range, so these are what stands between a caller's
    // mistake and a read outside the modulation table
    assert!(checkable(&[0, 3], 3, 8).is_err(), "a class past the table");
    assert!(checkable(&[-1], 3, 8).is_err(), "a negative class");
    assert!(checkable(&[0; 9], 3, 8).is_err(), "more rows than fit");
    assert!(checkable(&[0], 1, 8).is_ok(), "the single-class table");
}

#[test]
fn a_stray_class_is_named() {
    assert!(classes_fit(&[], 0).is_ok());
    assert!(classes_fit(&[0, 1, 1], 2).is_ok());
    let message = classes_fit(&[0, 1, 2], 2).unwrap_err().message();
    assert!(message.contains('2'), "{message}");
}

#[test]
fn the_decoder_tiles_refuse_what_they_cannot_do() {
    let t = Tuning { lanes, fast_group, group, grid_y };
    let bad = |elem: Elem, bias: bool, n: usize, mode: Mode, gate_first: bool| {
        Gemm::build(&t, mode, elem, bias, gate_first, 2048, n, 1, 1, 0, Tile::Fast, 0).is_err()
    };
    assert!(bad(Elem::I8, true, 2048, Mode::Plain, false)); // not f16
    assert!(bad(Elem::F16, false, 2048, Mode::Plain, false)); // no bias
    assert!(bad(Elem::F16, true, 2050, Mode::Plain, false)); // N not a multiple of 256
    assert!(bad(Elem::F16, true, 2048, Mode::Swiglu, true)); // gate-first SwiGLU
    assert!(!bad(Elem::F16, true, 2048, Mode::Swiglu, false)); // the shape the decoder uses
}

#[test]
fn a_refused_gemm_says_which_rule_it_broke() {
    let t = Tuning { lanes, fast_group, group, grid_y };
    let family = Gemm::build(
        &t, Mode::Plain, Elem::I8, true, false, 2048, 2048, 1, 1, 0, Tile::Wide, 0,
    );
    assert_eq!(
        family.unwrap_err().message(),
        "decoder GEMM requires the biased f16 family and N divisible by 256"
    );
    for stride in [896, 1025, 65664] {
        let pitch = Gemm::build(
            &t, Mode::Swiglu, Elem::F16, true, false, 2048, 2048, 1, 1, 0, Tile::Fast, stride,
        );
        assert_eq!(pitch.unwrap_err().message(), "invalid wide SwiGLU output stride");
    }
}

#[test]
fn a_gemm_is_named_by_its_shape() {
    for (elem, mode, bias, gate_first, tile, stem, module) in [
        (Elem::I8, Mode::Plain, false, true, Tile::Plain, "gemm_i8_256", "gemm_packed_256"),
        (Elem::I8, Mode::Resid, false, true, Tile::Plain, "gemm_i8_resid_256", "gemm_packed_256"),
        (Elem::I8, Mode::Swiglu, true, false, Tile::Plain, "gemm_i8_swiglu_256b_gs", "gemm_packed_256"),
        (Elem::F16, Mode::Resid, true, true, Tile::Plain, "gemm_f16_resid_256b", "gemm_f16_family"),
        (Elem::BF16, Mode::Swiglu, false, true, Tile::Plain, "gemm_bf16_swiglu_256", "gemm_bf16_family"),
        (Elem::F16, Mode::Swiglu, true, false, Tile::Fast, "gemm_f16_fast_swiglu_256b_gs", "gemm_f16_fast_swiglu_256b_gs"),
        (Elem::F16, Mode::Plain, true, true, Tile::Wide, "gemm_f16_wide_256b", "gemm_f16_wide_256b"),
    ] {
        let got = gemm_stem(elem, mode, bias, gate_first, tile);
        assert_eq!(got, stem);
        assert_eq!(gemm_module(elem, tile, &got), module);
    }
}

#[test]
fn a_gemm_keeps_the_extents_it_was_compiled_from() {
    let t = Tuning { lanes, fast_group, group, grid_y };
    let plain = Gemm::build(
        &t, Mode::Resid, Elem::I8, false, true, 5376, 7168, 300, 12, 5504, Tile::Plain, 0,
    )
    .unwrap();
    assert_eq!((plain.m_tile, plain.n_tile, plain.threads), (256, 128, 256));
    assert_eq!((plain.k_stride, plain.out_width, plain.out_bytes), (5504, 7168, 4));
    assert_eq!(plain.m_group(), 8);
    assert_eq!(plain.kernel.symbol, "h3_gemm_i8_resid_256");
    assert_eq!(
        plain.kernel.config,
        vec![
            pair("h3.gemm_i8_resid_256.k_size", "5376"),
            pair("h3.gemm_i8_resid_256.n_size", "7168"),
            pair("h3.gemm_i8_resid_256.m_group", "8"),
            pair("h3.gemm_i8_resid_256.classes", "12"),
            pair("h3.gemm_i8_resid_256.k_stride", "5504"),
        ]
    );
    let wide = Gemm::build(
        &t, Mode::Swiglu, Elem::F16, true, false, 2048, 2048, 300, 1, 0, Tile::Wide, 1152,
    )
    .unwrap();
    assert_eq!((wide.m_tile, wide.n_tile, wide.threads), (256, 256, 512));
    assert_eq!((wide.k_stride, wide.out_width, wide.out_bytes), (2048, 1152, 2));
    let fast = Gemm::build(
        &t, Mode::Swiglu, Elem::F16, true, false, 2048, 2048, 300, 1, 0, Tile::Fast, 0,
    )
    .unwrap();
    assert_eq!((fast.m_tile, fast.m_group, fast.out_width), (128, 3, 1024));
}

#[test]
fn a_gemm_launch_covers_its_rows_and_binds_its_operands() {
    let t = Tuning { lanes, fast_group, group, grid_y };
    let gemm = Gemm::build(
        &t, Mode::Plain, Elem::F16, true, false, 64, 256, 300, 1, 0, Tile::Plain, 0,
    )
    .unwrap();
    let a = Buffer::new(1, 300 * 64 * 2);
    let w = Buffer::new(2, 256 * 64 * 2);
    let out = Buffer::new(3, 300 * 256 * 2);
    let bias = Buffer::new(4, 256 * 4);
    let launch = gemm
        .run(
            &t, "projection", 300, a.binding(), w.binding(), None, out.binding(), None,
            Some(bias.binding()),
        )
        .unwrap();
    assert_eq!(launch.grid, Extent { x: 2, y: 16, z: 1 });
    assert_eq!(launch.block, Extent { x: 256, y: 1, z: 1 });
    assert_eq!(launch.scalars, vec![300]);
    assert_eq!(
        launch.bindings.iter().map(|b| b.buffer).collect::<Vec<_>>(),
        vec![1, 2, 3, 4]
    );
    // a binding one byte short is refused where it stands
    let short = out.slice(0, 300 * 256 * 2 - 1);
    let refused = gemm.run(
        &t, "projection", 300, a.binding(), w.binding(), None, short, None, Some(bias.binding()),
    );
    assert_eq!(
        refused.unwrap_err().message(),
        "projection: binding 2 is 153599 bytes, the kernel addresses 153600"
    );
}

#[test]
fn a_prepare_needs_a_measured_lane_count() {
    let t = Tuning { lanes, fast_group, group, grid_y };
    let p = Prepare::build(&t, Form::Norm, Elem::I8, 5376, "1e-06", 12, 5504).unwrap();
    assert_eq!((p.lanes, p.width, p.out_stride, p.classes), (768, 5376, 5504, 12));
    assert_eq!(p.kernel.module, "prepare_i8_family");
    assert_eq!(p.kernel.symbol, "h3_prepare_norm_i8");
    assert_eq!(p.kernel.config[2], pair("h3.prepare_norm_i8.eps", "1e-06"));
    let missing = Prepare::build(&t, Form::Plain, Elem::F16, 100, "1e-06", 1, 0);
    assert_eq!(missing.unwrap_err().message(), "no prepare lane count for width 100");
}

#[test]
fn a_wide_integer_row_stages_as_halves() {
    let every = |_width: usize| Some(1024usize);
    let t = Tuning { lanes: every, fast_group, group, grid_y };
    let p = Prepare::build(&t, Form::Plain, Elem::I8, 16385, "1e-06", 1, 0).unwrap();
    assert_eq!(p.kernel.module, "prepare_plain16_i8");
    assert_eq!(p.kernel.symbol, "h3_prepare_plain16_i8");
    let p = Prepare::build(&t, Form::Plain, Elem::I8, 16384, "1e-06", 1, 0).unwrap();
    assert_eq!(p.kernel.module, "prepare_i8_family");
    let p = Prepare::build(&t, Form::Norm, Elem::I8, 16385, "1e-06", 1, 0).unwrap();
    assert_eq!(p.kernel.symbol, "h3_prepare_norm_i8");
}

#[test]
fn class_rows_are_offered_only_once_they_are_checked_and_uploaded() {
    assert_eq!(Classes::bytes_for(0), 4);
    assert_eq!(Classes::bytes_for(5), 20);
    let mut classes = Classes::zeroed(Buffer::new(9, 20), 5);
    // zeros are a row of every table
    let rows = classes.all().against("stage", 5, 1).unwrap();
    assert_eq!((rows.buffer, rows.offset, rows.length), (9, 0, 20));
    // the bytes that go up are the values', in order
    let bytes = classes.write(&[2, 0, 1], 3).unwrap();
    let expected: Vec<u8> = [2i32, 0, 1].iter().flat_map(|v| v.to_ne_bytes()).collect();
    assert_eq!(bytes, &expected[..]);
    let to = classes.destination().unwrap();
    assert_eq!((to.buffer, to.offset, to.length), (9, 0, 12));
    assert!(classes.all().against("stage", 1, 3).is_err(), "nothing is offered before the upload");
    classes.uploaded();
    assert_eq!(classes.destination(), None);
    let rows = classes.slice(1, 2).against("stage", 2, 3).unwrap();
    assert_eq!((rows.offset, rows.length), (4, 8));
    assert_eq!(
        classes.all().against("stage", 3, 2).unwrap_err().message(),
        "stage: classes checked against 3 rows, the table has 2"
    );
    assert_eq!(
        classes.all().against("stage", 4, 3).unwrap_err().message(),
        "stage: 4 rows want a class each, 3 given"
    );
    // a refusal leaves nothing behind to bind
    assert!(classes.write(&[0, 3], 3).is_err());
    assert!(classes.all().against("stage", 1, 3).is_err());
    assert!(classes.write(&[0; 6], 3).is_err(), "more rows than fit");
}

#[test]
fn an_upload_stays_inside_its_buffer() {
    let dst = Buffer::new(5, 16);
    let range = upload_at(&dst, 4, &[0; 12]).unwrap();
    assert_eq!((range.buffer, range.offset, range.length), (5, 4, 12));
    assert!(upload_at(&dst, 5, &[0; 12]).is_err());
}

#[test]
fn steps_cover_what_they_step_over() {
    assert_eq!(steps_of(0, 256), 0);
    assert_eq!(steps_of(1, 256), 1);
    assert_eq!(steps_of(256, 256), 1);
    assert_eq!(steps_of(257, 256), 2);
}

#[test]
fn a_scaled_sum_is_one_kernel_over_every_element() {
    let kernel = axpy_kernel("0.5", "2");
    let x = Buffer::new(1, 4 * 1000);
    let y = Buffer::new(2, 4 * 1000);
    assert_eq!(
        kernel.config,
        vec![pair("h3.axpy_f32.a", "0.5"), pair("h3.axpy_f32.b", "2")]
    );
    let launch = axpy(&kernel, "sum", 1000, x.binding(), y.binding()).unwrap();
    assert_eq!(launch.grid, Extent { x: 4, y: 1, z: 1 });
    assert_eq!(launch.scalars, vec![1000]);
    assert_eq!(launch.bindings, vec![x.binding(), y.binding()]);
    assert!(axpy(&kernel, "sum", 1001, x.binding(), y.binding()).is_err());
}
