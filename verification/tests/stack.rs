use h3_hrx::compile::Number;
use h3_hrx::dispatch::{Classes, Launch, Tuning};
use h3_hrx::dit::refiner_dims;
use h3_hrx::dit::run::block_dims;
use h3_hrx::hrx::{Buffer, BufferRef};
use h3_hrx::stack::{
    is_countable, layer_requests, skip_wanted, Alloc, Block, Buffers, Constants, Inputs, IntBuffers, Knobs, Plan,
    Scales, Stack, StackDims, Want,
};
use h3_hrx::vvae;

fn lanes(_width: usize) -> Option<usize> {
    Some(256)
}

fn fast_group(_tokens: usize, _k: usize, _n: usize) -> u32 {
    2
}

fn group(_tokens: usize, _k: usize, _n: usize, _bits: usize) -> u32 {
    4
}

fn grid_y(tokens: usize, m_group: u32, m_tile: usize) -> u32 {
    (tokens.div_ceil(m_tile) as u32).div_ceil(m_group) * m_group
}

fn number(digits: u64, exponent: i32) -> Number {
    Number::Finite { negative: false, digits, exponent: exponent.into() }
}

fn scales() -> Scales {
    Scales { head: number(88388347648318447, -2), operand: number(69053396600248786, -4) }
}

fn knobs(wide: bool, fast: bool) -> Knobs {
    Knobs { wide, fast, skip_tau: None, smooth: true }
}

struct Shelf(u64);

impl Shelf {
    fn buffer(&mut self, alloc: &Alloc) -> Buffer {
        self.0 += 1;
        Buffer::new(self.0, alloc.bytes)
    }

    fn view(&mut self, length: usize) -> BufferRef {
        self.0 += 1;
        BufferRef { buffer: self.0, offset: 0, length }
    }
}

fn build(d: StackDims, tokens: usize, layers: usize, knobs: Knobs, scaled: bool) -> Stack {
    let t = Tuning { lanes, fast_group, group, grid_y };
    let plan = Plan::new(&t, d, tokens, layers, &knobs, &scales()).unwrap();
    let mut shelf = Shelf(0);
    let s = &plan.sizes;
    let buffers = Buffers {
        a_q: shelf.buffer(&s.a_q),
        a_s: shelf.buffer(&s.a_s),
        fused: shelf.buffer(&s.fused),
        q: s.q.as_ref().map(|a| shelf.buffer(a)),
        k: s.k.as_ref().map(|a| shelf.buffer(a)),
        v: s.v.as_ref().map(|a| shelf.buffer(a)),
        attn: shelf.buffer(&s.attn),
        gu: shelf.buffer(&s.gu),
        int_qk: s.int_qk.as_ref().map(|i| IntBuffers {
            qi: shelf.buffer(&i.qi),
            ki: shelf.buffer(&i.ki),
            qs: shelf.buffer(&i.qs),
            ks: shelf.buffer(&i.ks),
            kmean: shelf.buffer(&i.kmean),
            zmean: shelf.buffer(&i.zmean),
            vt: shelf.buffer(&i.vt),
        }),
    };
    let mut blocks = Vec::new();
    for i in 0..layers {
        let list = layer_requests(&d, &format!("b{i}."), true, scaled);
        let placed: Vec<BufferRef> = list
            .iter()
            .map(|r| {
                shelf.view(match r.want {
                    Want::Bytes(n) => n,
                    Want::Rows { rows, pitch_bytes, .. } => rows * pitch_bytes,
                })
            })
            .collect();
        let ones = shelf.view(21504);
        blocks.push(Block::new(&d, true, scaled, &placed, ones));
    }
    Stack::new(plan, buffers, blocks, "dit".to_string())
}

fn constants() -> Constants {
    Constants::new(Buffer::new(9001, 21504), Buffer::new(9002, 204800))
}

fn stages<'a>(launches: &[Launch<'a>]) -> Vec<&'a str> {
    launches.iter().map(|l| l.stage).collect()
}

fn run<'a>(stack: &'a Stack, cond_layers: usize, from: usize, to: Option<usize>) -> Vec<Launch<'a>> {
    let t = Tuning { lanes, fast_group, group, grid_y };
    let tokens = stack.tokens();
    let d = stack.plan.d;
    let classes = Classes::zeroed(Buffer::new(9100, tokens * 4), tokens);
    let inputs = Inputs {
        x: BufferRef { buffer: 9101, offset: 0, length: tokens * d.hidden * 4 },
        cls: classes.all(),
        cos: BufferRef { buffer: 9102, offset: 0, length: tokens * d.rope_dim * 2 },
        sin: BufferRef { buffer: 9103, offset: 0, length: tokens * d.rope_dim * 2 },
    };
    let mut cond = Vec::new();
    for _ in 0..cond_layers {
        let mut c = constants().identity();
        // a table of two rows and a gate of one row per class
        c.table_msa.length = d.classes * d.hidden * 8;
        c.table_mlp.length = d.classes * d.hidden * 8;
        c.gate_msa.length = d.classes * d.hidden * 4;
        c.gate_mlp.length = d.classes * d.hidden * 4;
        cond.push(c);
    }
    let (launches, result) = stack.forward(&t, &inputs, &cond, from, to);
    assert!(result.is_ok(), "{:?}", result.err().map(|e| e.message()));
    launches
}

#[test]
fn a_layer_runs_its_stages_in_order() {
    let stack = build(refiner_dims(), 64, 2, knobs(false, false), false);
    let launches = run(&stack, 2, 0, Some(1));
    let order = stages(&launches);
    let place = |stage: &str| {
        order.iter().position(|s| *s == stage).unwrap_or_else(|| panic!("{stage} in {order:?}"))
    };
    assert_eq!(order[0], "prepare norm");
    assert!(place("attention") < place("gemm out + residual"));
    assert!(place("gemm out + residual") < place("gemm ff + swiglu"));
    assert!(place("gemm ff + swiglu") < place("gemm down + residual"));
    assert_eq!(order.last(), Some(&"gemm down + residual"));
    // every launch binds what it addresses, and both layers run when none is named
    assert_eq!(run(&stack, 2, 0, None).len(), 2 * launches.len());
    assert!(run(&stack, 2, 2, None).is_empty());
}

#[test]
fn an_integer_attention_prepares_its_operands_first() {
    let eight = build(block_dims(8, None), 512, 1, knobs(false, false), false);
    let sixteen = build(block_dims(16, None), 512, 1, knobs(false, false), false);
    assert!(eight.plan.int_qk.is_some() && sixteen.plan.int_qk.is_none());
    let more = run(&eight, 1, 0, None).len();
    let fewer = run(&sixteen, 1, 0, None).len();
    assert!(more > fewer, "{more} launches against {fewer}");
    assert_eq!(eight.plan.attention.symbol, "h3_attention_i8qk_mha_lds_f16_wmma");
    assert_eq!(sixteen.plan.attention.symbol, "h3_attention_mha_lds_f16_wmma");
}

#[test]
fn a_setting_overrides_the_width_of_the_attention() {
    assert_eq!(block_dims(8, Some("f16")).attn_qk_bits, 16);
    assert_eq!(block_dims(16, Some("i8")).attn_qk_bits, 8);
    let d = block_dims(16, Some("i4"));
    assert!(d.attn_i4 && d.attn_qk_bits == 4);
}

#[test]
fn only_the_decoder_has_its_measured_tiles() {
    let plain = build(refiner_dims(), 64, 1, knobs(false, true), false);
    assert_eq!(plain.plan.gemm_gu.n_tile, 128);
    let fast = build(vvae::dims(), 320, 1, knobs(false, true), true);
    assert_eq!((fast.plan.gemm_gu.m_tile, fast.plan.gemm_gu.n_tile), (128, 256));
    assert!(fast.plan.qkv_rope.is_some(), "the fast tile fuses its projection with rope");
    let (q, k, v) = fast.qkv_views();
    assert!(q.buffer == k.buffer && k.buffer == v.buffer);
    let wide = build(vvae::dims(), 320, 1, knobs(true, false), true);
    assert_eq!(wide.plan.gemm_gu.threads, 512);
    assert!(wide.plan.qkv_rope.is_none());
    assert!(!run(&wide, 1, 0, None).is_empty());
}

#[test]
fn a_capacity_leaves_the_tokens_their_slack() {
    for tokens in [1usize, 240, 241, 256, 4096] {
        let stack = build(refiner_dims(), tokens, 1, knobs(false, false), false);
        assert!(stack.capacity() >= tokens + 16);
        assert_eq!(stack.capacity() % 32, 0);
        assert_eq!((stack.tokens(), stack.layers()), (tokens, 1));
    }
}

#[test]
fn a_stream_is_dumped_on_the_pass_asked_for() {
    let mut stack = build(refiner_dims(), 64, 1, knobs(false, false), false);
    assert!(!stack.dumping(false, 0, 0), "no directory");
    assert!(!stack.dumping(true, 1, 0), "the first pass");
    assert!(stack.dumping(true, 1, 0), "the second");
    assert!(!stack.dumping(true, 2, 1), "not from the first layer");
    assert_eq!(stack.dump_name(None), "dit_h_in.f32");
    assert_eq!(stack.dump_name(Some(7)), "dit_blk_07.f32");
    assert_eq!(stack.dump_name(Some(12)), "dit_blk_12.f32");
    assert_eq!(stack.dump_bytes(), 64 * 5376 * 4);
}

#[test]
fn a_skip_threshold_can_be_switched_off() {
    for off in ["off", "OFF", "none", "0", "1e30", ""] {
        assert!(!skip_wanted(off), "{off:?}");
    }
    assert!(skip_wanted("0.5"));
}

#[test]
fn the_constant_rows_are_ones_and_zeros() {
    let ones = Constants::ones_row();
    assert_eq!(ones.len(), 21504);
    assert!(ones.chunks_exact(4).all(|c| f32::from_le_bytes(c.try_into().unwrap()) == 1.0));
    let c = constants().identity();
    assert_eq!((c.gate_msa.buffer, c.table_msa.buffer), (9001, 9002));
}

#[test]
fn the_settings_choose_the_tiles_and_the_smoothing() {
    let unset = Knobs::of(None, None, None, None);
    assert!(!unset.wide && unset.fast && !unset.smooth && unset.skip_tau.is_none());
    let set = Knobs::of(Some("1"), Some("0"), Some("1"), Some(Number::Nan { negative: false }));
    assert!(set.wide && !set.fast && set.smooth && set.skip_tau.is_some());
    let other = Knobs::of(Some("yes"), Some("1"), Some(""), None);
    assert!(!other.wide && other.fast && !other.smooth);
}

#[test]
fn every_kernel_a_pass_launches_was_asked_for() {
    for stack in [
        build(block_dims(8, None), 512, 1, knobs(false, false), false),
        build(block_dims(16, Some("i4")), 512, 1, knobs(false, false), false),
        build(refiner_dims(), 64, 1, knobs(false, false), false),
        build(vvae::dims(), 320, 1, knobs(false, true), true),
    ] {
        let asked = stack.plan.kernels();
        let launched = run(&stack, 1, 0, None);
        for launch in &launched {
            assert!(
                asked.iter().any(|k| k.symbol == launch.kernel.symbol && k.config == launch.kernel.config),
                "{}",
                launch.stage
            );
        }
        assert_eq!(asked[0].symbol, stack.plan.prep_norm.kernel.symbol);
        assert_eq!(asked[asked.len() - 1].symbol, stack.plan.attention.symbol);
    }
}

#[test]
fn a_stack_past_the_address_space_is_not_counted() {
    let (d, k) = (h3_hrx::vvae::dims(), knobs(true, false));
    assert!(is_countable(&d, 1024, &k) && is_countable(&d, 1 << 20, &k));
    assert!(!is_countable(&d, usize::MAX, &k));
    assert!(!is_countable(&StackDims { heads: usize::MAX / 2, ..d }, 16, &k));
    assert!(!is_countable(&StackDims { ffn: usize::MAX / 8, ..d }, 16, &k));
}
