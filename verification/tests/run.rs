use h3_hrx::compile::Number;
use h3_hrx::conditioning::device as modulation;
use h3_hrx::dispatch::{Classes, Kind, Matmul16, NormMod, Tuning};
use h3_hrx::dit::run::{
    block_dims, ensure_seq, table_bytes, Blocks, CacheBuffers, Conditioning, Denoise, Host, Op, Pack,
    Projection, Prompt, PromptWeights, Ratios, Refiner, Segment, SeqBuffers,
};
use h3_hrx::dit::{refiner_dims, seq_capacity};
use h3_hrx::hrx::{Buffer, BufferRef};
use h3_hrx::model::{
    AUDIO_CH, BLOCKS, CLASSES, FINAL_N, HID, REFINER_BLOCKS, ROPE_HALF, TEXT_DIM, VAE_BLOCKS,
    VAE_HID, VAE_KIN, VAE_OUT, VAE_REG, VIDEO_PATCH,
};
use h3_hrx::sampler::device::{Euler, Ratio};
use h3_hrx::stack::{
    layer_requests, Alloc, Block, Buffers, Constants, IntBuffers, Knobs, Plan, Request, Scales, Stack,
    StackDims, Want, ONES_BYTES, ZEROS_BYTES,
};
use h3_hrx::vvae;

fn lanes(_width: usize) -> Option<usize> {
    Some(256)
}

fn fast_group(_tokens: usize, _k: usize, _n: usize) -> u32 {
    2
}

fn group(_tokens: usize, _k: usize, _n: usize, _bits: usize) -> u32 {
    4
}

fn grid_y(tokens: usize, m_group: u32, m_tile: usize) -> u32 {
    (tokens.div_ceil(m_tile) as u32).div_ceil(m_group) * m_group
}

type Measured = Tuning<
    fn(usize) -> Option<usize>,
    fn(usize, usize, usize) -> u32,
    fn(usize, usize, usize, usize) -> u32,
    fn(usize, u32, usize) -> u32,
>;

fn tuning() -> Measured {
    Tuning { lanes, fast_group, group, grid_y }
}

/// Hands out allocations, each with a handle of its own.
struct Shelf(u64);

impl Shelf {
    fn bytes(&mut self, bytes: usize) -> Buffer {
        self.0 += 1;
        Buffer::new(self.0, bytes)
    }

    fn sized(&mut self, a: &Alloc) -> Buffer {
        self.bytes(a.bytes)
    }

    fn view(&mut self, bytes: usize) -> BufferRef {
        self.bytes(bytes).binding()
    }

    fn requests(&mut self, list: &[Request]) -> Vec<BufferRef> {
        list.iter()
            .map(|r| {
                self.view(match r.want {
                    Want::Bytes(n) => n,
                    Want::Rows { rows, pitch_bytes, .. } => rows * pitch_bytes,
                })
            })
            .collect()
    }

    fn stack(&mut self, d: StackDims, tokens: usize, layers: usize, qk: bool, scaled: bool) -> Stack {
        let knobs = Knobs::of(None, None, None, None);
        let small = Number::Finite { negative: false, digits: 88388347648318447, exponent: -2 };
        let scales = Scales { head: small, operand: small };
        let plan = Plan::new(&tuning(), d, tokens, layers, &knobs, &scales).unwrap();
        let s = &plan.sizes;
        let buffers = Buffers {
            a_q: self.sized(&s.a_q),
            a_s: self.sized(&s.a_s),
            fused: self.sized(&s.fused),
            q: s.q.as_ref().map(|a| self.sized(a)),
            k: s.k.as_ref().map(|a| self.sized(a)),
            v: s.v.as_ref().map(|a| self.sized(a)),
            attn: self.sized(&s.attn),
            gu: self.sized(&s.gu),
            int_qk: s.int_qk.as_ref().map(|i| IntBuffers {
                qi: self.sized(&i.qi),
                ki: self.sized(&i.ki),
                qs: self.sized(&i.qs),
                ks: self.sized(&i.ks),
                kmean: self.sized(&i.kmean),
                zmean: self.sized(&i.zmean),
                vt: self.sized(&i.vt),
            }),
        };
        let ones = self.view(ONES_BYTES);
        let mut blocks = Vec::new();
        for i in 0..layers {
            let placed = self.requests(&layer_requests(&d, &format!("b{i}."), qk, scaled));
            blocks.push(Block::new(&d, qk, scaled, &placed, ones));
        }
        Stack::new(plan, buffers, blocks, "test".to_string())
    }

    fn projection(&mut self, k: usize, n: usize) -> Projection {
        let (w, b) = Projection::weights_for(k, n);
        Projection::build(k, n, self.view(w), self.view(b))
    }

    fn modulation(&mut self, plan: modulation::Plan) -> modulation::Projection {
        let (weights, bias) = plan.operand_bytes();
        let maps = plan.maps.iter().map(|m| self.bytes(m.len() * 4)).collect();
        modulation::Projection {
            weights: self.bytes(weights),
            bias: self.bytes(bias),
            maps,
            plan,
        }
    }

    fn seq(&mut self, rows: usize) -> SeqBuffers {
        let s = ensure_seq(None, rows).unwrap();
        SeqBuffers {
            capacity: s.capacity,
            x: self.bytes(s.x),
            cls: Classes::zeroed(self.bytes(s.classes), s.capacity),
            cls0: Classes::zeroed(self.bytes(s.classes), s.capacity),
            tcls: Classes::zeroed(self.bytes(s.classes), s.capacity),
            cos: self.bytes(s.rope),
            sin: self.bytes(s.rope),
            in32: self.bytes(s.in32),
            out32: self.bytes(s.out32),
        }
    }
}

/// The stages of a run's launches, and a word for everything else it does.
fn steps(ops: &[Op<'_>]) -> Vec<String> {
    ops.iter()
        .map(|op| match op {
            Op::Launch(launch) => launch.stage.to_string(),
            Op::Copy { .. } => "copy".to_string(),
            Op::Upload { rows, .. } => format!("upload {rows:?}"),
            Op::Read { rows, .. } => format!("read {rows:?}"),
            Op::Carry => "carry".to_string(),
            Op::Fill(i) => format!("fill {i}"),
            Op::Advance => "advance".to_string(),
        })
        .collect()
}

struct Made {
    seq: SeqBuffers,
    blocks: Blocks,
    cond: Conditioning,
    euler: Euler,
    cache: CacheBuffers,
    pack: Pack,
}

/// A run of ten text and reference rows, four of sound and six of picture.
fn made() -> Made {
    let mut shelf = Shelf(0);
    let pack = Pack { lr: 10, na: 4, nv: 6 };
    let tokens = 20;
    let mut seq = shelf.seq(tokens);
    seq.cls.write(&[1; 20], CLASSES).unwrap();
    seq.cls.uploaded();
    seq.tcls.write(&[1, 1, 1, 1, 0, 0, 0, 0, 0, 0], 2).unwrap();
    seq.tcls.uploaded();
    let blocks = Blocks {
        stack: shelf.stack(block_dims(8, None), tokens, BLOCKS, true, false),
        tokens,
        qk_bits: 8,
        final_norm: NormMod::build(&tuning(), HID, "9.9999997473787516e-06", 2).unwrap(),
        final_norm_scale: shelf.view(HID * 4),
        audio_in: shelf.projection(AUDIO_CH, HID),
        video_in: shelf.projection(VIDEO_PATCH, HID),
        final_out: shelf.projection(HID, FINAL_N),
        text_copy: shelf.bytes(seq_capacity(tokens) * HID * 4),
    };
    let (mods, last) = table_bytes();
    let w: Vec<Vec<()>> = (0..BLOCKS).map(|_| vec![(); 18 * HID * 8]).collect();
    let b: Vec<Vec<()>> = (0..BLOCKS).map(|_| vec![(); 18 * HID]).collect();
    let cond = Conditioning {
        adaln: shelf.modulation(modulation::blocks(&w, &b).unwrap()),
        final_adaln: shelf
            .modulation(modulation::final_layer(vec![(); 2 * HID * 8], vec![(); 2 * HID]).unwrap()),
        mods: shelf.bytes(mods),
        final_table: shelf.bytes(last),
    };
    let (a, v) = Euler::sizes(pack.na, pack.nv).unwrap();
    let (audio, video) = (shelf.bytes(a), shelf.bytes(v));
    let euler = Euler::new(pack.na, pack.nv, audio, video).unwrap();
    let (n, groups) = (tokens * HID, 3);
    let (metric, plus, minus) = CacheBuffers::kernels();
    let cache = CacheBuffers {
        n,
        groups,
        xb0: shelf.bytes(n * 4),
        prev: shelf.bytes(n * 4),
        resid: shelf.bytes(n * 4),
        partials: shelf.bytes(groups * 8),
        metric,
        plus,
        minus,
    };
    Made { seq, blocks, cond, euler, cache, pack }
}

fn denoise(made: &Made, resident: bool) -> Denoise<'_> {
    Denoise {
        seq: &made.seq,
        blocks: &made.blocks,
        cond: &made.cond,
        euler: if resident { Some(&made.euler) } else { None },
        pack: made.pack,
    }
}

#[test]
fn a_resident_step_opens_with_its_tables_its_rows_and_its_references() {
    let made = made();
    let run = denoise(&made, true);
    let segments = [Segment { row0: 8, rows: 2, audio: false }];
    let te = [[0u32; 8]; 4];
    let first = run.opening(0, &te, &segments);
    // four tables of the blocks' and two of the final layer's
    let words = steps(&first);
    assert_eq!(
        words[6..],
        ["audio in", "video in", "fill 0", "upload Segment(0)", "ref video in", "copy"]
    );
    let Some(Op::Copy { to, from }) = first.last() else { panic!("{words:?}") };
    assert_eq!((to.buffer, to.length), (made.blocks.text_copy.binding().buffer, 10 * HID * 4));
    assert_eq!((from.buffer, from.offset), (made.seq.x.binding().buffer, 0));
    // later steps restore what the first kept
    let later = run.opening(3, &te, &segments);
    assert_eq!(steps(&later)[6..], ["audio in", "video in", "copy"]);
    let Some(Op::Copy { to: back, from: kept }) = later.last() else { panic!("no copy") };
    assert_eq!((back.buffer, kept.buffer), (from.buffer, to.buffer));
}

#[test]
fn a_step_on_the_host_carries_uploads_and_advances() {
    let made = made();
    let run = denoise(&made, false);
    let opened = steps(&run.opening(1, &[[0; 8]; 4], &[]));
    assert_eq!(
        opened[6..],
        ["carry", "upload Audio", "audio in", "upload Video", "video in", "copy"]
    );
    let none = Ratio { sigma: 0, ratio: 0 };
    let closed = run.closing(Ratios { audio: none, video: none });
    assert_eq!(steps(&closed), ["final norm", "final out", "read Head", "advance"]);
    let Op::Read { from, rows: Host::Head } = &closed[2] else { panic!("not the head") };
    assert_eq!(from.length, 10 * FINAL_N * 4);
}

#[test]
fn a_resident_step_closes_on_the_device() {
    let made = made();
    let run = denoise(&made, true);
    let half = Ratio { sigma: 0x3f00_0000, ratio: 0 };
    let closed = run.closing(Ratios { audio: half, video: half });
    assert_eq!(steps(&closed)[..2], ["final norm", "final out"]);
    assert_eq!(closed.len(), 4);
    // the final norm sees the generated rows alone
    let Op::Launch(norm) = &closed[0] else { panic!("no launch") };
    let rows = norm.bindings.iter().find(|b| b.buffer == made.seq.x.binding().buffer).unwrap();
    assert_eq!((rows.offset, rows.length), (10 * HID * 4, 10 * HID * 4));
}

#[test]
fn a_cached_step_measures_the_first_block_and_skips_the_rest() {
    let made = made();
    let run = denoise(&made, true);
    let t = tuning();
    let all = run.run_blocks(&t).len();
    assert_eq!(all % BLOCKS, 0);
    let each = all / BLOCKS;
    // the first step has nothing to compare with
    assert_eq!(run.run_first_block(&t, &made.cache, 0).len(), each);
    let measured = steps(&run.run_first_block(&t, &made.cache, 1));
    assert_eq!(measured[each..], ["cache metric", "read Partials"]);
    assert_eq!(steps(&run.run_rest(&t, &made.cache, true)), ["copy", "cache add"]);
    let full = steps(&run.run_rest(&t, &made.cache, false));
    assert_eq!(full.len(), 2 + (BLOCKS - 1) * each + 2);
    assert_eq!(full[..2], ["copy", "copy"]);
    assert_eq!(full[full.len() - 2..], ["copy", "cache resid"]);
}

#[test]
fn a_prompt_is_projected_refined_and_normed() {
    let mut shelf = Shelf(0);
    let n = 7;
    let seq = shelf.seq(n);
    let refiner = Refiner {
        stack: shelf.stack(refiner_dims(), n, REFINER_BLOCKS, true, false),
        tokens: n,
        cos: shelf.bytes(n * ROPE_HALF * 4),
        sin: shelf.bytes(n * ROPE_HALF * 4),
        norm: NormMod::build(&tuning(), HID, "9.9999997473787516e-06", 1).unwrap(),
    };
    let constants = Constants::new(shelf.bytes(ONES_BYTES), shelf.bytes(ZEROS_BYTES));
    let placed = shelf.requests(&PromptWeights::wanted());
    let proj = Matmul16::build(Kind::Bias, TEXT_DIM, HID);
    let prompt = Prompt {
        seq: &seq,
        refiner: &refiner,
        constants: &constants,
        weights: PromptWeights { cond_w: placed[0], cond_b: placed[1], final_norm: placed[2] },
        proj: &proj,
    };
    let ops = prompt.text_in(&tuning(), shelf.view(n * TEXT_DIM * 4));
    let words = steps(&ops);
    assert_eq!(words[0], "condition proj");
    assert_eq!(words[words.len() - 1], "refiner final norm");
    assert_eq!((words.len() - 2) % REFINER_BLOCKS, 0);
    let rows = prompt.read_rows(n);
    assert_eq!((rows.buffer, rows.offset, rows.length), (seq.x.binding().buffer, 0, n * HID * 4));
}

#[test]
fn a_clip_goes_up_through_the_decoder_and_back() {
    let mut shelf = Shelf(0);
    let grid = vvae::Grid { ft: 1, h: 2, w: 2 };
    let (n, nt) = (4, 9);
    let stack = shelf.stack(vvae::dims(), nt, VAE_BLOCKS, false, true);
    let t = stack.capacity();
    let sizes = vvae::sizes(t);
    let built = vvae::Built {
        stack,
        grid,
        ends: vvae::Ends::build(&tuning(), n, nt).unwrap(),
        x: shelf.bytes(sizes.x),
        cos: shelf.bytes(sizes.rope),
        sin: shelf.bytes(sizes.rope),
        in16: shelf.bytes(sizes.in16),
        a_q: shelf.bytes(sizes.a_q),
        a_s: shelf.bytes(sizes.a_s),
        out16: shelf.bytes(sizes.out16),
        cls: Classes::zeroed(shelf.bytes(sizes.cls), t),
        norm_table: shelf.bytes(sizes.norm_table),
    };
    let placed = shelf.requests(&vvae::EndWeights::requests());
    let decoder = vvae::Decoder {
        built: &built,
        w: vvae::EndWeights {
            norm_out_b: placed[0],
            proj_in_w: placed[1],
            proj_in_b: placed[2],
            registers: placed[3],
            norm_out_w: placed[4],
            proj_out_w: placed[5],
            proj_out_b: placed[6],
        },
        ones: shelf.view(ONES_BYTES),
        zeros: shelf.view(ZEROS_BYTES),
    };
    let ops = decoder.decode_clip(&tuning());
    let vvae::Op::Upload(up) = &ops[0] else { panic!("nothing goes up") };
    assert_eq!((up.buffer, up.length), (built.in16.binding().buffer, n * VAE_KIN * 2));
    let vvae::Op::Zero(cleared) = &ops[1] else { panic!("the stream is not cleared") };
    assert_eq!((cleared.buffer, cleared.length), (built.x.binding().buffer, nt * VAE_HID * 4));
    assert!(matches!(&ops[2], vvae::Op::Launch(l) if l.stage == "vae proj_in"));
    // the register tokens follow the voxels
    let vvae::Op::Copy { to, from } = &ops[3] else { panic!("no registers") };
    assert_eq!((to.offset, to.length), (n * VAE_HID * 4, VAE_REG * VAE_HID * 4));
    assert_eq!(from.buffer, placed[3].buffer);
    let layers = ops.len() - 4 - 3;
    assert_eq!(layers % VAE_BLOCKS, 0);
    let tail = &ops[ops.len() - 3..];
    assert!(matches!(&tail[0], vvae::Op::Launch(l) if l.stage == "vae norm_out"));
    assert!(matches!(&tail[1], vvae::Op::Launch(l) if l.stage == "vae proj_out"));
    let vvae::Op::Read(back) = &tail[2] else { panic!("nothing comes back") };
    assert_eq!((back.buffer, back.length), (built.out16.binding().buffer, n * VAE_OUT * 2));
}
