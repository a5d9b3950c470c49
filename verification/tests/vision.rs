use h3_hrx::hrx::{Buffer, BufferRef};
use h3_hrx::rope::merge_row;
use h3_hrx::stack::Want;
use h3_hrx::vision::{
    add_positions, deepstack_at, extents, requests, sizes, Buffers, Kernels, Op, Rows, Tower,
    TowerWeights, VBLOCKS, VHID, VOUT, VPOS_GRID,
};

/// Where `k` steps out of `span` fall on a table of `last` cells.
fn split(k: usize, last: usize, span: usize) -> (usize, f32) {
    let f = if span == 0 { 0.0 } else { k as f32 * last as f32 / span as f32 };
    let cell = f as usize;
    (cell, f - cell as f32)
}

fn blend(v: f32, around: (f32, f32, f32, f32), dh: f32, dw: f32) -> f32 {
    let (r00, r01, r10, r11) = around;
    v + ((1.0 - dh) * (1.0 - dw) * r00 + (1.0 - dh) * dw * r01 + dh * (1.0 - dw) * r10 + dh * dw * r11)
}

/// A position table whose row `(r, c)` is the constant `r * 100 + c`, so an interpolated row reads
/// back as its grid coordinate.
fn ramp_table() -> Vec<f32> {
    let g = VPOS_GRID;
    let mut pos = vec![0.0f32; g * g * VHID];
    for r in 0..g {
        for c in 0..g {
            let v = (r * 100 + c) as f32;
            pos[(r * g + c) * VHID..(r * g + c) * VHID + VHID].fill(v);
        }
    }
    pos
}

#[test]
fn the_corners_of_the_grid_land_on_the_corners_of_the_table() {
    let (gh, gw) = (4usize, 4usize);
    let pos = ramp_table();
    let mut x = vec![0.0f32; gh * gw * VHID];
    add_positions(&mut x, &pos, gh, gw, split, blend);
    let row = |hy: usize, wx: usize| {
        let pi = (((hy / 2) * (gw / 2) + wx / 2) * 2 + hy % 2) * 2 + wx % 2;
        x[pi * VHID]
    };
    assert_eq!(row(0, 0), 0.0);
    let last = (VPOS_GRID - 1) as f32;
    assert!((row(gh - 1, gw - 1) - (last * 100.0 + last)).abs() < 0.01);
    // and a middle patch lands proportionally along
    assert!((row(1, 0) - (47.0 / 3.0 * 100.0)).abs() < 1.0, "{}", row(1, 0));
}

#[test]
fn a_single_row_or_column_maps_to_zero_rather_than_dividing_by_it() {
    // no image reaches this — a multiple-of-32 extent gives at least two patches each way — but the
    // guard is what keeps the division from being by zero, so it is exercised directly.
    let pos = ramp_table();
    let mut x = vec![0.0f32; 2 * VHID];
    add_positions(&mut x, &pos, 1, 2, split, blend);
    assert!(x.iter().all(|v| v.is_finite()));
    assert_eq!(x[0], 0.0, "a lone row reads the table's first row");
}

#[test]
fn the_positions_are_added_not_assigned() {
    let pos = ramp_table();
    let (gh, gw) = (2usize, 2usize);
    let mut x = vec![7.0f32; gh * gw * VHID];
    add_positions(&mut x, &pos, gh, gw, split, blend);
    assert_eq!(x[0], 7.0, "patch (0, 0) reads table row 0, which is zero");
    assert!(x[VHID] > 7.0, "and the others accumulate onto what was there");
}

#[test]
fn every_patch_gets_exactly_one_position() {
    // The merge permutation has to be a bijection, or some row would be written twice and another
    // not at all. It is one exactly when both extents are even — which `extents` guarantees, since a
    // multiple-of-32 image is a multiple-of-2 patch grid.
    for (gh, gw) in [(2usize, 2usize), (6, 8), (2, 64), (64, 2), (48, 84)] {
        let mut seen = vec![0u32; gh * gw];
        for hy in 0..gh {
            for wx in 0..gw {
                seen[merge_row(hy, wx, gw)] += 1;
            }
        }
        assert!(seen.iter().all(|c| *c == 1), "{gh}x{gw}: {seen:?}");
    }
    // one column scatters a patch past the end of the grid, which is why the extents are checked
    assert_eq!(merge_row(1, 0, 1), 2);
}

#[test]
fn an_image_is_whole_blocks_of_patches() {
    let e = extents(64, 96).unwrap();
    assert_eq!((e.gh, e.gw, e.n, e.m, e.cap), (4, 6, 24, 6, 64));
    for (h, w) in [(64, 48), (48, 64), (0, 64), (64, 0), (63, 64)] {
        assert_eq!(
            extents(h, w).unwrap_err().message(),
            "vision images need height and width multiples of 32"
        );
    }
}

#[test]
fn the_deepstack_mergers_read_after_three_blocks() {
    let reading: Vec<_> = (0..VBLOCKS).filter_map(|i| deepstack_at(i).map(|j| (i, j))).collect();
    assert_eq!(reading, vec![(8, 0), (16, 1), (24, 2)]);
}

#[test]
fn a_run_of_the_tower_reads_its_deepstack_rows_and_then_its_own() {
    let patch = 1536;
    let e = extents(64, 64).unwrap();
    let list = requests(patch);
    let placed: Vec<BufferRef> = list
        .iter()
        .enumerate()
        .map(|(i, r)| {
            let length = match r.want {
                Want::Bytes(n) => n,
                Want::Rows { rows, pitch_bytes, .. } => rows * pitch_bytes,
            };
            BufferRef { buffer: 1000 + i as u64, offset: 0, length }
        })
        .collect();
    assert_eq!(list[0].name, "vis.patch.w");
    let w = TowerWeights::new(&placed);
    let s = sizes(&e, patch);
    let b = Buffers {
        patches: Buffer::new(1, s.patches),
        x32: Buffer::new(2, s.x32),
        x16: Buffer::new(3, s.x16),
        cos: Buffer::new(4, s.rope),
        sin: Buffer::new(5, s.rope),
        ln: Buffer::new(6, s.ln),
        qkv: Buffer::new(7, s.qkv),
        q16: Buffer::new(8, s.padded),
        k16: Buffer::new(9, s.padded),
        v16: Buffer::new(10, s.padded),
        att16: Buffer::new(11, s.padded),
        hid: Buffer::new(12, s.hid),
        hid16: Buffer::new(13, s.hid16),
        ln4: Buffer::new(14, s.ln4),
        mid: Buffer::new(15, s.mid),
        out: Buffer::new(16, s.out),
        lambda: Buffer::new(17, s.lambda),
    };
    let kernels = Kernels::build(&e, patch);
    let tower = Tower { e, patch, kernels: &kernels, w: &w, b: &b };
    let ops = tower.project();
    assert_eq!(ops.len(), 1);
    let ops = tower.embed();
    let reads: Vec<Rows> = ops
        .iter()
        .filter_map(|op| match op {
            Op::Read { from, rows } => {
                assert_eq!(from.length, e.m * VOUT * 4);
                Some(*rows)
            }
            Op::Launch(_) => None,
        })
        .collect();
    assert_eq!(
        reads,
        vec![Rows::Deepstack(0), Rows::Deepstack(1), Rows::Deepstack(2), Rows::Merged]
    );
    assert!(matches!(ops.last(), Some(Op::Read { .. })));
    let attends = ops
        .iter()
        .filter(|op| matches!(op, Op::Launch(l) if l.kernel.symbol == "h3_attention_mha_lds_f16_wmma"))
        .count();
    assert_eq!(attends, VBLOCKS);
}
