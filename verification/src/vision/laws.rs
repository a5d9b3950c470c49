//! What a tower's kernels are compiled for, and how its first launch reads the patches.
use vstd::prelude::*;

use crate::dispatch;
use crate::text;
use crate::vision;
use crate::vision::{Extents, Tower};

verus! {

/// The patches are projected first, every one of them: by the patch projection's own weights and into the stream's rows
/// of singles, which the positions are then added to.
pub proof fn law_the_patches_are_projected_whole(tower: &Tower)
    requires
        tower.wf(),
    ensures
        ({
            let (launch, b, w) = (tower.projection(), tower.b, tower.w);
            &&& launch.kernel == dispatch::matmul16_kernel(dispatch::Kind::Bias, tower.patch as int, 1152)
            &&& launch.scalars == seq![tower.e.n as u32]
            &&& launch.bindings == seq![b.patches.whole(), w.patch_w, w.patch_b, b.x32.whole()]
        }),
{
    let (b, w) = (tower.b, tower.w);
    assert(tower.projection().bindings =~= seq![b.patches.whole(), w.patch_w, w.patch_b, b.x32.whole()]);
}

/// The attention has a workgroup for every head and every sixty-four patches, and the rope one for every head of every
/// patch; both work on heads of 72 that stand 128 apart, sixteen to a row.
pub proof fn law_the_tower_attends_to_every_patch(tower: &Tower, e: Extents)
    requires
        tower.wf(),
        tower.e == e,
        e.n <= u32::MAX,
    ensures
        ({
            let (attends, turns) = (tower.attends(), tower.turns());
            let (a, r) = ("h3.attention_mha_lds_f16_wmma."@, "h3.rope2d_qkv_f16."@);
            &&& attends.grid.x * 64 >= e.n && attends.grid.y == 16 && attends.grid.z == 1 && attends.block.x == 128
            &&& turns.grid.x == e.n && turns.grid.y == 16 && turns.grid.z == 1 && turns.block.x == 128
            &&& attends.kernel.config.contains((a + "q_stride"@, text::decimal(16 * 128)))
            &&& attends.kernel.config.contains((a + "kv_stride"@, text::decimal(16 * 128)))
            &&& attends.kernel.config.contains((a + "out_stride"@, text::decimal(16 * 128)))
            &&& attends.kernel.config.contains((a + "tokens"@, text::decimal(e.n as nat)))
            &&& attends.kernel.config.contains((a + "token_capacity"@, text::decimal(e.cap as nat)))
            &&& turns.kernel.config == seq![
                (r + "heads"@, text::decimal(16)),
                (r + "hd"@, text::decimal(72)),
                (r + "hd_pad"@, text::decimal(128)),
            ]
        }),
{
    dispatch::laws::law_steps_are_the_fewest_that_cover(e.n as nat, 64);
    let config = vision::attention_kernel(e).config;
    let a = "h3.attention_mha_lds_f16_wmma."@;
    assert(config[0] == (a + "q_stride"@, text::decimal(2048)));
    assert(config[1] == (a + "kv_stride"@, text::decimal(2048)));
    assert(config[2] == (a + "tokens"@, text::decimal(e.n as nat)));
    assert(config[3] == (a + "token_capacity"@, text::decimal(e.cap as nat)));
    assert(config[5] == (a + "out_stride"@, text::decimal(2048)));
}

} // verus!
