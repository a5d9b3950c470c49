//! Prepared AdaLN projections. Only the eight timestep coefficients cross the host boundary per launch;
//! weights and the resulting tables stay on the device.
use vstd::prelude::*;
use vstd::string::StringExecFns;

use crate::compile;
use crate::compile::{Cfg, Specialization, SpecializationView};
use crate::dispatch;
use crate::dispatch::{Launch, LaunchView};
use crate::error;
use crate::error::{Error, Result};
use crate::hrx::{Buffer, BufferRef, Extent};
use crate::model::{BLOCKS, HID};

verus! {

/// The row of a layer's table that a chunk of a class lands in.
#[verifier::opaque]
pub open spec fn destination(class: int, chunk: int, classes: int) -> int {
    if chunk == 0 {
        2 * class + 1
    } else if chunk == 1 {
        2 * class
    } else if chunk == 2 {
        2 * classes + class
    } else if chunk == 3 {
        3 * classes + 2 * class + 1
    } else if chunk == 4 {
        3 * classes + 2 * class
    } else {
        5 * classes + class
    }
}

/// Which layers a projection is of.
#[derive(Clone, Copy, Debug, PartialEq, Eq, Structural)]
pub enum Layers {
    /// the blocks: six chunks for each of three modalities, at four timesteps
    Blocks,
    /// the final layer: two chunks, at two timesteps
    Last,
}

impl Layers {
    /// The rows of one layer's projection.
    pub open spec fn rows(self) -> int {
        match self {
            Layers::Blocks => 18,
            Layers::Last => 2,
        }
    }

    pub open spec fn timesteps(self) -> int {
        match self {
            Layers::Blocks => 4,
            Layers::Last => 2,
        }
    }

    /// The outputs of one layer.
    pub open spec fn outputs(self) -> int {
        match self {
            Layers::Blocks => 18 * HID,
            Layers::Last => 2 * HID,
        }
    }

    /// Where the row `i` of the projections of one timestep lands among the tables' rows. The rows are
    /// layer by layer, modality by modality, chunk by chunk.
    pub open spec fn lands_at(self, i: int, t: int) -> int {
        match self {
            Layers::Blocks => i / 18 * 72 + destination(t * 3 + i / 6 % 3, i % 6, 12),
            Layers::Last => i / 2 * 4 + destination(t, i % 2, 2),
        }
    }
}

/// A projection to prepare: what it allocates, where its weights go, and where its rows land.
#[derive(Debug)]
pub struct Plan {
    pub kernel: Specialization,
    /// outputs per timestep
    pub count: usize,
    /// the same, of one layer
    pub layer_count: usize,
    pub output_bytes: usize,
    /// for each timestep, where each row lands
    pub maps: Vec<Vec<i32>>,
}

pub open spec fn modulation_kernel(count: int, timesteps: int) -> SpecializationView {
    let ns = "h3.modulation_f32."@;
    SpecializationView {
        module: "modulation_f32"@,
        symbol: "h3_modulation_f32"@,
        config: seq![
            dispatch::count_of(ns, "count"@, count),
            dispatch::count_of(ns, "width"@, HID as int),
            dispatch::count_of(ns, "rows"@, count / HID as int),
            dispatch::count_of(ns, "out_count"@, count * timesteps),
        ],
    }
}

impl Plan {
    /// Whether this prepares the projections of so many layers.
    pub open spec fn of(&self, kind: Layers, layers: int) -> bool {
        &&& self.layer_count == kind.outputs()
        &&& self.count == layers * kind.outputs()
        &&& self.output_bytes == self.count * kind.timesteps() * 4
        &&& self.kernel@ == modulation_kernel(self.count as int, kind.timesteps())
        &&& self.maps@.len() == kind.timesteps()
        &&& forall|t: int|
            0 <= t < kind.timesteps() ==> lands(kind, layers, t, (#[trigger] self.maps@[t])@)
    }

    /// The bytes the weights are allocated with, and the biases.
    pub fn operand_bytes(&self) -> (bytes: (usize, usize))
        requires
            self.count * 32 <= usize::MAX,
        ensures
            bytes == ((self.count * 32) as usize, (self.count * 4) as usize),
    {
        (self.count * 32, self.count * 4)
    }

    /// Where a layer's weights and biases go in theirs.
    pub fn layer_offsets(&self, layer: usize) -> (offsets: (usize, usize))
        requires
            layer * self.layer_count * 32 <= usize::MAX,
        ensures
            offsets == (
                (layer * self.layer_count * 32) as usize,
                (layer * self.layer_count * 4) as usize,
            ),
    {
        assert(layer * self.layer_count >= 0) by (nonlinear_arith);
        let at: usize = layer * self.layer_count;
        (at * 32, at * 4)
    }
}

/// Whether a map says where each row of a timestep lands.
pub open spec fn lands(kind: Layers, layers: int, t: int, map: Seq<i32>) -> bool {
    map.len() == layers * kind.rows() && forall|i: int|
        0 <= i < map.len() ==> #[trigger] map[i] == kind.lands_at(i, t)
}

/// Whether every layer's weights and biases have the length its projection asks for.
pub open spec fn shapes_match<T>(w: Seq<Vec<T>>, b: Seq<Vec<T>>, layer_count: int) -> bool {
    &&& forall|i: int| 0 <= i < w.len() ==> (#[trigger] w[i])@.len() == layer_count * 8
    &&& forall|i: int| 0 <= i < b.len() ==> (#[trigger] b[i])@.len() == layer_count
}

/// The most layers whose tables' rows can be numbered.
pub const MAX_LAYERS: usize = 1000;

fn plan<T>(w: &[Vec<T>], b: &[Vec<T>], kind: Layers) -> (result: Result<Plan>)
    requires
        w@.len() <= MAX_LAYERS,
        w@.len() * kind.outputs() * kind.timesteps() * 4 <= usize::MAX,
    ensures
        if shapes_match(w@, b@, kind.outputs()) {
            result matches Ok(plan) && plan.of(kind, w@.len() as int)
        } else {
            result matches Err(e) && error::blames(e, "AdaLN projection shape mismatch"@)
        },
{
    let (layer_count, timesteps): (usize, usize) = match kind {
        Layers::Blocks => (18 * HID, 4),
        Layers::Last => (2 * HID, 2),
    };
    let layers: usize = w.len();
    let mut i: usize = 0;
    while i < w.len()
        invariant
            i <= w@.len(),
            layer_count == kind.outputs(),
            layer_count <= 18 * HID,
            forall|k: int| 0 <= k < i ==> (#[trigger] w@[k])@.len() == layer_count * 8,
        decreases w@.len() - i,
    {
        if w[i].len() != layer_count * 8 {
            assert(w@[i as int]@.len() != layer_count * 8);
            return Err(Error::Invalid(String::from_str("AdaLN projection shape mismatch")));
        }
        i += 1;
    }
    let mut i: usize = 0;
    while i < b.len()
        invariant
            i <= b@.len(),
            layer_count == kind.outputs(),
            forall|k: int| 0 <= k < i ==> (#[trigger] b@[k])@.len() == layer_count,
        decreases b@.len() - i,
    {
        if b[i].len() != layer_count {
            assert(b@[i as int]@.len() != layer_count);
            return Err(Error::Invalid(String::from_str("AdaLN projection shape mismatch")));
        }
        i += 1;
    }
    assert(0 <= layers * layer_count <= layers * layer_count * timesteps) by (nonlinear_arith)
        requires
            layers >= 0,
            layer_count >= 0,
            timesteps >= 1,
    ;
    let count: usize = layers * layer_count;
    let out_count: usize = count * timesteps;
    let mut maps: Vec<Vec<i32>> = Vec::new();
    let mut t: usize = 0;
    while t < timesteps
        invariant
            t <= timesteps,
            timesteps == kind.timesteps(),
            layers <= MAX_LAYERS,
            maps@.len() == t,
            forall|k: int| 0 <= k < t ==> lands(kind, layers as int, k, (#[trigger] maps@[k])@),
        decreases timesteps - t,
    {
        let map = destinations(layers, t, kind);
        maps.push(map);
        t += 1;
    }
    let mut cfg: Cfg = Vec::new();
    let ns: &str = "h3.modulation_f32.";
    compile::set_count(&mut cfg, ns, "count", count);
    compile::set_count(&mut cfg, ns, "width", HID);
    compile::set_count(&mut cfg, ns, "rows", count / HID);
    compile::set_count(&mut cfg, ns, "out_count", out_count);
    let kernel = Specialization {
        module: String::from_str("modulation_f32"),
        symbol: String::from_str("h3_modulation_f32"),
        config: cfg,
    };
    assert(kernel@.config =~= modulation_kernel(count as int, timesteps as int).config);
    Ok(Plan { kernel, count, layer_count, output_bytes: out_count * 4, maps })
}

/// Where each row of one timestep lands.
fn destinations(layers: usize, t: usize, kind: Layers) -> (map: Vec<i32>)
    requires
        layers <= MAX_LAYERS,
        t < kind.timesteps(),
    ensures
        lands(kind, layers as int, t as int, map@),
{
    let n: usize = match kind {
        Layers::Blocks => layers * 18,
        Layers::Last => layers * 2,
    };
    let mut map: Vec<i32> = Vec::new();
    let mut i: usize = 0;
    while i < n
        invariant
            layers <= MAX_LAYERS,
            t < kind.timesteps(),
            n == layers * kind.rows(),
            i <= n,
            map@.len() == i,
            forall|k: int| 0 <= k < i ==> #[trigger] map@[k] == kind.lands_at(k, t as int),
        decreases n - i,
    {
        let at: usize = match kind {
            Layers::Blocks => i / 18 * 72 + destination_of(t * 3 + i / 6 % 3, i % 6, 12),
            Layers::Last => i / 2 * 4 + destination_of(t, i % 2, 2),
        };
        map.push(at as i32);
        i += 1;
    }
    map
}

fn destination_of(class: usize, chunk: usize, classes: usize) -> (row: usize)
    requires
        class < classes <= 12,
    ensures
        row == destination(class as int, chunk as int, classes as int),
        row < 6 * classes,
{
    proof {
        reveal(destination);
    }
    if chunk == 0 {
        2 * class + 1
    } else if chunk == 1 {
        2 * class
    } else if chunk == 2 {
        2 * classes + class
    } else if chunk == 3 {
        3 * classes + 2 * class + 1
    } else if chunk == 4 {
        3 * classes + 2 * class
    } else {
        5 * classes + class
    }
}

/// The blocks' projections.
pub fn blocks<T>(w: &[Vec<T>], b: &[Vec<T>]) -> (result: Result<Plan>)
    ensures
        if w@.len() != BLOCKS || b@.len() != BLOCKS {
            result matches Err(e) && error::blames(e, "AdaLN layer count mismatch"@)
        } else if shapes_match(w@, b@, Layers::Blocks.outputs()) {
            result matches Ok(plan) && plan.of(Layers::Blocks, BLOCKS as int)
        } else {
            result matches Err(e) && error::blames(e, "AdaLN projection shape mismatch"@)
        },
{
    if w.len() != BLOCKS || b.len() != BLOCKS {
        return Err(Error::Invalid(String::from_str("AdaLN layer count mismatch")));
    }
    plan(w, b, Layers::Blocks)
}

/// The final layer's projection.
pub fn final_layer<T>(w: Vec<T>, b: Vec<T>) -> (result: Result<Plan>)
    ensures
        if w@.len() == Layers::Last.outputs() * 8 && b@.len() == Layers::Last.outputs() {
            result matches Ok(plan) && plan.of(Layers::Last, 1)
        } else {
            result matches Err(e) && error::blames(e, "AdaLN projection shape mismatch"@)
        },
{
    let ghost (wl, bl) = (w@.len(), b@.len());
    let mut ws: Vec<Vec<T>> = Vec::new();
    ws.push(w);
    let mut bs: Vec<Vec<T>> = Vec::new();
    bs.push(b);
    proof {
        assert(ws@[0]@.len() == wl && bs@[0]@.len() == bl);
        assert(shapes_match(ws@, bs@, 2 * HID) <==> wl == 2 * HID * 8 && bl == 2 * HID);
    }
    plan(ws.as_slice(), bs.as_slice(), Layers::Last)
}

/// A projection whose weights, biases and maps are on the device.
#[derive(Debug)]
pub struct Projection {
    pub plan: Plan,
    pub weights: Buffer,
    pub bias: Buffer,
    pub maps: Vec<Buffer>,
}

pub open spec fn modulation_launch(
    p: Projection,
    t: int,
    te: Seq<u32>,
    output: BufferRef,
) -> LaunchView {
    LaunchView {
        kernel: p.plan.kernel@,
        stage: "modulation"@,
        grid: dispatch::line(dispatch::steps(p.plan.count as int, 256) as u32),
        block: dispatch::line(256),
        scalars: te,
        bindings: seq![p.weights.whole(), p.bias.whole(), p.maps@[t].whole(), output],
    }
}

impl Projection {
    /// One launch per timestep, each with its eight coefficients by value, as the bits of singles.
    pub fn run<'a>(&'a self, timesteps: &[[u32; 8]], output: &Buffer) -> (result: Result<
        Vec<Launch<'a>>,
    >)
        ensures
            if timesteps@.len() != self.maps@.len() || output.size() < self.plan.output_bytes {
                result matches Err(e) && error::blames(
                    e,
                    "AdaLN output or timestep shape mismatch"@,
                )
            } else {
                &&& result matches Ok(launches)
                &&& launches@.len() == timesteps@.len()
                &&& forall|t: int|
                    0 <= t < launches@.len() ==> (#[trigger] launches@[t])@ == modulation_launch(
                        *self,
                        t,
                        timesteps@[t]@,
                        output.whole(),
                    )
            },
    {
        if timesteps.len() != self.maps.len() || output.bytes() < self.plan.output_bytes {
            return Err(
                Error::Invalid(String::from_str("AdaLN output or timestep shape mismatch")),
            );
        }
        let mut launches: Vec<Launch<'a>> = Vec::new();
        let mut t: usize = 0;
        while t < timesteps.len()
            invariant
                t <= timesteps@.len(),
                timesteps@.len() == self.maps@.len(),
                launches@.len() == t,
                forall|k: int|
                    0 <= k < t ==> (#[trigger] launches@[k])@ == modulation_launch(
                        *self,
                        k,
                        timesteps@[k]@,
                        output.whole(),
                    ),
            decreases timesteps@.len() - t,
        {
            let mut scalars: Vec<u32> = Vec::new();
            let mut j: usize = 0;
            while j < 8
                invariant
                    j <= 8,
                    t < timesteps@.len(),
                    scalars@ == timesteps@[t as int]@.take(j as int),
                decreases 8 - j,
            {
                scalars.push(timesteps[t][j]);
                j += 1;
                assert(scalars@ =~= timesteps@[t as int]@.take(j as int));
            }
            assert(scalars@ =~= timesteps@[t as int]@);
            let mut bindings: Vec<BufferRef> = Vec::new();
            bindings.push(self.weights.binding());
            bindings.push(self.bias.binding());
            bindings.push(self.maps[t].binding());
            bindings.push(output.binding());
            assert(bindings@ =~= modulation_launch(
                *self,
                t as int,
                timesteps@[t as int]@,
                output.whole(),
            ).bindings);
            launches.push(
                Launch {
                    kernel: &self.plan.kernel,
                    stage: "modulation",
                    grid: Extent {
                        x: dispatch::steps_of(self.plan.count, 256) as u32,
                        y: 1,
                        z: 1,
                    },
                    block: Extent { x: 256, y: 1, z: 1 },
                    scalars,
                    bindings,
                },
            );
            t += 1;
        }
        Ok(launches)
    }
}

/// Every row of every timestep lands on a row of its own, inside the tables: no two lanes of any launches
/// write one place.
pub proof fn law_rows_land_apart(kind: Layers, layers: int, i: int, t: int, j: int, u: int)
    requires
        0 <= layers,
        0 <= i < layers * kind.rows(),
        0 <= j < layers * kind.rows(),
        0 <= t < kind.timesteps(),
        0 <= u < kind.timesteps(),
    ensures
        0 <= kind.lands_at(i, t) < layers * kind.rows() * kind.timesteps(),
        kind.lands_at(i, t) == kind.lands_at(j, u) ==> i == j && t == u,
{
    match kind {
        Layers::Blocks => {
            lemma_block_rows_apart(layers, i, t, j, u);
        },
        Layers::Last => {
            lemma_last_rows_apart(layers, i, t, j, u);
        },
    }
}

proof fn lemma_block_rows_apart(layers: int, i: int, t: int, j: int, u: int)
    requires
        0 <= i < layers * 18,
        0 <= j < layers * 18,
        0 <= t < 4,
        0 <= u < 4,
    ensures
        0 <= Layers::Blocks.lands_at(i, t) < layers * 18 * 4,
        Layers::Blocks.lands_at(i, t) == Layers::Blocks.lands_at(j, u) ==> i == j && t == u,
{
    lemma_split(i);
    lemma_split(j);
    lemma_blocks_apart(i / 18, i / 6 % 3, i % 6, t, j / 18, j / 6 % 3, j % 6, u);
}

proof fn lemma_last_rows_apart(layers: int, i: int, t: int, j: int, u: int)
    requires
        0 <= i < layers * 2,
        0 <= j < layers * 2,
        0 <= t < 2,
        0 <= u < 2,
    ensures
        0 <= Layers::Last.lands_at(i, t) < layers * 2 * 2,
        Layers::Last.lands_at(i, t) == Layers::Last.lands_at(j, u) ==> i == j && t == u,
{
    reveal(destination);
    assert(destination(t, i % 2, 2) == 2 * t + 1 - i % 2);
    assert(destination(u, j % 2, 2) == 2 * u + 1 - j % 2);
}

proof fn lemma_split(i: int)
    requires
        i >= 0,
    ensures
        i == i / 18 * 18 + i / 6 % 3 * 6 + i % 6,
        0 <= i / 6 % 3 < 3,
        0 <= i % 6 < 6,
{
}

proof fn lemma_blocks_apart(l: int, d: int, c: int, t: int, m: int, e: int, k: int, u: int)
    requires
        0 <= d < 3,
        0 <= c < 6,
        0 <= t < 4,
        0 <= e < 3,
        0 <= k < 6,
        0 <= u < 4,
    ensures
        0 <= destination(t * 3 + d, c, 12) < 72,
        l * 72 + destination(t * 3 + d, c, 12) == m * 72 + destination(u * 3 + e, k, 12) ==> l == m
            && d == e && c == k && t == u,
{
    lemma_one_destination(t * 3 + d, c, u * 3 + e, k);
}

proof fn lemma_one_destination(a: int, j: int, b: int, k: int)
    requires
        0 <= a < 12,
        0 <= b < 12,
        0 <= j < 6,
        0 <= k < 6,
    ensures
        0 <= destination(a, j, 12) < 72,
        0 <= destination(b, k, 12) < 72,
        destination(a, j, 12) == destination(b, k, 12) ==> a == b && j == k,
{
    reveal(destination);
}

} // verus!
