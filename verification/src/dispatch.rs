//! The kernel builders the stacks dispatch through: the prepare family that produces a GEMM's A operand,
//! and the GEMM family itself.
//!
//! Each one decides its stem, its configuration and its launch geometry from the shape it is built for.
//! Those decisions are the ones `model` holds, so the operand a plan laid out and the operand a kernel
//! reads agree on their pitch.
pub mod laws;

use vstd::prelude::*;
use vstd::string::StringExecFns;

use crate::compile;
use crate::compile::{Error, Result, Specialization, SpecializationView};
use crate::hrx::{Buffer, BufferRef, Extent, Transfer};
use crate::model;
use crate::text;

verus! {

/// What a GEMM's operands are made of.
#[derive(Clone, Copy, Debug, PartialEq, Eq, Structural)]
pub enum Elem {
    I4,
    I8,
    F16,
    BF16,
}

impl Elem {
    pub open spec fn bits_of(self) -> int {
        match self {
            Elem::I4 => 4,
            Elem::I8 => 8,
            Elem::F16 => 16,
            Elem::BF16 => 16,
        }
    }

    pub fn bits(self) -> (bits: usize)
        ensures
            bits == self.bits_of(),
    {
        match self {
            Elem::I4 => 4,
            Elem::I8 => 8,
            Elem::F16 => 16,
            Elem::BF16 => 16,
        }
    }

    pub open spec fn is_quantised(self) -> bool {
        self == Elem::I4 || self == Elem::I8
    }

    /// Whether the rows are integers with a scale each.
    pub fn quantised(self) -> (yes: bool)
        ensures
            yes == self.is_quantised(),
    {
        match self {
            Elem::I4 => true,
            Elem::I8 => true,
            Elem::F16 => false,
            Elem::BF16 => false,
        }
    }

    pub open spec fn named(self) -> Seq<char> {
        match self {
            Elem::I4 => "i4"@,
            Elem::I8 => "i8"@,
            Elem::F16 => "f16"@,
            Elem::BF16 => "bf16"@,
        }
    }

    /// How the kernels' names spell it.
    pub fn name(self) -> (name: &'static str)
        ensures
            name@ == self.named(),
    {
        match self {
            Elem::I4 => "i4",
            Elem::I8 => "i8",
            Elem::F16 => "f16",
            Elem::BF16 => "bf16",
        }
    }
}

/// The measured choices a shape is dispatched with: the lanes of a row reduction, the row group of a
/// GEMM on the decoder's fast tile and on the others, and the grid a row group covers its tokens with.
pub struct Tuning<L, F, M, G> {
    pub lanes: L,
    pub fast_group: F,
    pub group: M,
    pub grid_y: G,
}

impl<
    L: Fn(usize) -> Option<usize>,
    F: Fn(usize, usize, usize) -> u32,
    M: Fn(usize, usize, usize, usize) -> u32,
    G: Fn(usize, u32, usize) -> u32,
> Tuning<L, F, M, G> {
    /// Every shape has been measured, once.
    pub open spec fn measured(&self) -> bool {
        &&& forall|w: usize| #[trigger] call_requires(self.lanes, (w,))
        &&& forall|t: usize, k: usize, n: usize| #[trigger]
            call_requires(self.fast_group, (t, k, n))
        &&& forall|t: usize, k: usize, n: usize, b: usize| #[trigger]
            call_requires(self.group, (t, k, n, b))
        &&& forall|t: usize, g: u32, m: usize| #[trigger] call_requires(self.grid_y, (t, g, m))
        &&& forall|w: usize, a: Option<usize>, b: Option<usize>| #[trigger]
            call_ensures(self.lanes, (w,), a) && #[trigger] call_ensures(self.lanes, (w,), b) ==> a
                == b
        &&& forall|t: usize, k: usize, n: usize, a: u32, b: u32| #[trigger]
            call_ensures(self.fast_group, (t, k, n), a) && #[trigger] call_ensures(
                self.fast_group,
                (t, k, n),
                b,
            ) ==> a == b
        &&& forall|t: usize, k: usize, n: usize, w: usize, a: u32, b: u32| #[trigger]
            call_ensures(self.group, (t, k, n, w), a) && #[trigger] call_ensures(
                self.group,
                (t, k, n, w),
                b,
            ) ==> a == b
        &&& forall|t: usize, g: u32, m: usize, a: u32, b: u32| #[trigger]
            call_ensures(self.grid_y, (t, g, m), a) && #[trigger] call_ensures(
                self.grid_y,
                (t, g, m),
                b,
            ) ==> a == b
    }

    /// The lanes measured for a width, where there are any.
    pub open spec fn lanes_for(&self, width: usize) -> Option<usize> {
        choose|lanes: Option<usize>| call_ensures(self.lanes, (width,), lanes)
    }

    /// The row group measured for a GEMM.
    pub open spec fn m_group_for(&self, fast: bool, t: usize, k: usize, n: usize, bits: usize) -> u32 {
        if fast {
            choose|group: u32| call_ensures(self.fast_group, (t, k, n), group)
        } else {
            choose|group: u32| call_ensures(self.group, (t, k, n, bits), group)
        }
    }

    /// The rows of workgroups that cover a GEMM's tokens.
    pub open spec fn grid_y_for(&self, t: usize, m_group: u32, m_tile: usize) -> u32 {
        choose|y: u32| call_ensures(self.grid_y, (t, m_group, m_tile), y)
    }
}

/// One kernel to run: over which grid, and on what.
#[derive(Debug)]
pub struct Launch<'a> {
    pub kernel: &'a Specialization,
    pub stage: &'a str,
    pub grid: Extent,
    pub block: Extent,
    pub scalars: Vec<u32>,
    pub bindings: Vec<BufferRef>,
}

pub struct LaunchView {
    pub kernel: SpecializationView,
    pub stage: Seq<char>,
    pub grid: Extent,
    pub block: Extent,
    pub scalars: Seq<u32>,
    pub bindings: Seq<BufferRef>,
}

impl<'a> View for Launch<'a> {
    type V = LaunchView;

    open spec fn view(&self) -> LaunchView {
        LaunchView {
            kernel: self.kernel@,
            stage: self.stage@,
            grid: self.grid,
            block: self.block,
            scalars: self.scalars@,
            bindings: self.bindings@,
        }
    }
}

/// The extent of a row of workgroups or of threads.
pub open spec fn line(x: u32) -> Extent {
    Extent { x, y: 1, z: 1 }
}

/// The extent of a plane of workgroups.
pub open spec fn plane(x: u32, y: u32) -> Extent {
    Extent { x, y, z: 1 }
}

/// A binding and the bytes its kernel addresses of it.
pub struct Arg {
    pub view: BufferRef,
    pub need: int,
}

pub open spec fn arg(view: BufferRef, need: int) -> Arg {
    Arg { view, need }
}

/// The first binding that is shorter than what its kernel addresses.
pub open spec fn short_at(args: Seq<Arg>) -> Option<int>
    decreases args.len(),
{
    if args.len() == 0 {
        None
    } else if short_at(args.drop_last()) is Some {
        short_at(args.drop_last())
    } else if args.last().view.length < args.last().need {
        Some(args.len() - 1)
    } else {
        None
    }
}

pub open spec fn views_of(args: Seq<Arg>) -> Seq<BufferRef> {
    Seq::new(args.len(), |i: int| args[i].view)
}

/// What is said of a binding that is too short.
pub open spec fn too_short(stage: Seq<char>, i: int, arg: Arg) -> Seq<char> {
    stage + ": binding "@ + text::decimal(i as nat) + " is "@ + text::decimal(
        arg.view.length as nat,
    ) + " bytes, the kernel addresses "@ + text::decimal(arg.need as nat)
}

/// A launch to make, and what stands in its way if anything does.
pub struct Step {
    pub launch: LaunchView,
    pub trouble: Option<Seq<char>>,
}

/// A launch whose bindings must cover what its kernel addresses.
pub open spec fn bound_step(launch: LaunchView, args: Seq<Arg>) -> Step {
    Step {
        launch,
        trouble: match short_at(args) {
            Some(i) => Some(too_short(launch.stage, i, args[i])),
            None => None,
        },
    }
}

/// A launch nothing stands in the way of.
pub open spec fn free_step(launch: LaunchView) -> Step {
    Step { launch, trouble: None }
}

/// A step made, or refused in its words.
pub open spec fn comes_out(result: Result<Launch>, step: Step) -> bool {
    match step.trouble {
        Some(words) => result matches Err(e) && compile::says(e, words),
        None => result matches Ok(l) && l@ == step.launch,
    }
}

/// A launch, or the refusal of one whose bindings do not cover what its kernel addresses.
pub open spec fn launches(result: Result<Launch>, launch: LaunchView, args: Seq<Arg>) -> bool {
    comes_out(result, bound_step(launch, args))
}

/// Whether the bytes of every binding can be counted.
pub open spec fn countable(args: Seq<Arg>) -> bool {
    forall|i: int| 0 <= i < args.len() ==> 0 <= (#[trigger] args[i]).need <= usize::MAX
}

pub proof fn lemma_short_at(args: Seq<Arg>)
    ensures
        match short_at(args) {
            Some(i) => {
                &&& 0 <= i < args.len()
                &&& args[i].view.length < args[i].need
                &&& forall|j: int| 0 <= j < i ==> (#[trigger] args[j]).view.length >= args[j].need
            },
            None => forall|j: int|
                0 <= j < args.len() ==> (#[trigger] args[j]).view.length >= args[j].need,
        },
    decreases args.len(),
{
    if args.len() > 0 {
        let short = args.drop_last();
        lemma_short_at(short);
        assert forall|j: int| 0 <= j < short.len() implies #[trigger] args[j] == short[j] by {}
    }
}

/// Where the first binding that is too short stands.
proof fn lemma_first_short(args: Seq<Arg>, i: int)
    requires
        0 <= i < args.len(),
        args[i].view.length < args[i].need,
        forall|j: int| 0 <= j < i ==> (#[trigger] args[j]).view.length >= args[j].need,
    ensures
        short_at(args) == Some(i),
{
    lemma_short_at(args);
}

/// Bindings that cover what their kernel addresses are not refused.
pub proof fn lemma_covered(args: Seq<Arg>)
    requires
        forall|i: int| 0 <= i < args.len() ==> (#[trigger] args[i]).view.length >= args[i].need,
    ensures
        short_at(args) is None,
{
    lemma_short_at(args);
}

/// The most buffers any of these kernels binds.
pub const MAX_BINDINGS: usize = 8;

/// One launch's bindings and the extents they must cover.
#[derive(Debug)]
pub(crate) struct Args {
    views: Vec<BufferRef>,
    need: Vec<usize>,
}

impl Args {
    pub(crate) closed spec fn wf(&self) -> bool {
        1 <= self.views@.len() == self.need@.len() <= MAX_BINDINGS
    }

    pub(crate) closed spec fn all(&self) -> Seq<Arg> {
        Seq::new(self.views@.len(), |i: int| Arg { view: self.views@[i], need: self.need@[i] as int })
    }

    pub(crate) fn new(view: BufferRef, need: usize) -> (args: Self)
        ensures
            args.wf(),
            args.all() == seq![arg(view, need as int)],
    {
        let mut args = Args { views: Vec::new(), need: Vec::new() };
        args.views.push(view);
        args.need.push(need);
        assert(args.all() =~= seq![arg(view, need as int)]);
        args
    }

    pub(crate) fn push(&mut self, view: BufferRef, need: usize)
        requires
            old(self).wf(),
            old(self).all().len() < MAX_BINDINGS,
        ensures
            final(self).wf(),
            final(self).all() == old(self).all().push(arg(view, need as int)),
    {
        let ghost before = self.all();
        self.views.push(view);
        self.need.push(need);
        assert(self.all() =~= before.push(arg(view, need as int)));
    }
}

/// A launch whose bindings have been checked against the extents its kernel addresses.
///
/// A kernel is compiled from a set of extents, and `args` restates that same arithmetic in bytes per
/// binding. A binding shorter than its entry is a caller's mistake, and it becomes an error here rather
/// than an out-of-bounds access on the device.
///
/// The bound is the extent the kernel *addresses*, which is not always the extent it fills: an attention
/// kernel indexes to its token capacity rather than to the tokens of the call.
pub(crate) fn checked<'a>(
    kernel: &'a Specialization,
    stage: &'a str,
    grid: Extent,
    block: Extent,
    scalar: u32,
    args: Args,
) -> (result: Result<Launch<'a>>)
    requires
        args.wf(),
    ensures
        launches(
            result,
            LaunchView {
                kernel: kernel@,
                stage: stage@,
                grid,
                block,
                scalars: seq![scalar],
                bindings: views_of(args.all()),
            },
            args.all(),
        ),
{
    let ghost all = args.all();
    let mut i: usize = 0;
    while i < args.views.len()
        invariant
            args.wf(),
            all == args.all(),
            i <= args.views@.len(),
            forall|j: int| 0 <= j < i ==> (#[trigger] all[j]).view.length >= all[j].need,
        decreases args.views@.len() - i,
    {
        if args.views[i].length < args.need[i] {
            proof {
                assert(all[i as int].view.length < all[i as int].need);
                lemma_first_short(all, i as int);
            }
            let mut message = text::cat2(stage, ": binding ");
            text::push_decimal(&mut message, i as u64);
            message.append(" is ");
            text::push_decimal(&mut message, args.views[i].length as u64);
            message.append(" bytes, the kernel addresses ");
            text::push_decimal(&mut message, args.need[i] as u64);
            return Err(Error::Io(message));
        }
        i += 1;
    }
    proof {
        lemma_short_at(all);
        assert(views_of(all) =~= args.views@);
    }
    let mut scalars: Vec<u32> = Vec::new();
    scalars.push(scalar);
    assert(scalars@ =~= seq![scalar]);
    Ok(Launch { kernel, stage, grid, block, scalars, bindings: args.views })
}

/// A launch that was made binds at least what its kernel addresses, in every binding; and one whose
/// bindings all do is made.
pub proof fn law_a_launch_stays_inside_its_bindings(
    result: Result<Launch>,
    launch: LaunchView,
    args: Seq<Arg>,
)
    requires
        launches(result, launch, args),
        launch.bindings == views_of(args),
    ensures
        result is Ok <==> forall|i: int|
            0 <= i < args.len() ==> (#[trigger] args[i]).view.length >= args[i].need,
        result matches Ok(l) ==> l@.bindings.len() == args.len() && forall|i: int|
            0 <= i < args.len() ==> (#[trigger] l@.bindings[i]).length >= args[i].need,
{
    lemma_short_at(args);
}

/// The range an upload into `dst` at a byte offset writes, as long as its source.
pub fn upload_at(dst: &Buffer, offset: usize, bytes: &[u8]) -> (result: Result<Transfer>)
    requires
        offset + bytes@.len() <= usize::MAX,
    ensures
        if offset + bytes@.len() > dst.size() {
            result matches Err(Error::Runtime(message)) && message@ == text::phrase2_of(
                "upload of "@,
                bytes@.len(),
                " bytes at "@,
                offset as nat,
                text::phrase_of(" overruns a "@, dst.size() as nat, "-byte allocation"@),
            )
        } else {
            result matches Ok(t) && t.buffer == dst.handle() && t.offset == offset && t.length
                == bytes@.len()
        },
{
    if offset + bytes.len() > dst.bytes() {
        let tail = text::phrase(" overruns a ", dst.bytes(), "-byte allocation");
        return Err(
            Error::Runtime(
                text::phrase2("upload of ", bytes.len(), " bytes at ", offset, tail.as_str()),
            ),
        );
    }
    let view = dst.slice(offset, bytes.len());
    Ok(Transfer { buffer: view.buffer, offset: view.offset, length: view.length })
}

// Class rows.

/// The bytes of numbers, least byte first.
pub open spec fn least_first(values: Seq<i32>) -> Seq<u8> {
    Seq::new(
        (4 * values.len()) as nat,
        |b: int| crate::bytes::le32(values[b / 4] as u32)[b % 4],
    )
}

/// The bytes of numbers, greatest byte first.
pub open spec fn greatest_first(values: Seq<i32>) -> Seq<u8> {
    Seq::new(
        (4 * values.len()) as nat,
        |b: int| crate::bytes::le32(values[b / 4] as u32)[3 - b % 4],
    )
}

/// `bytemuck::cast_slice`, from 32-bit integers to bytes: the same memory, so every number's four bytes
/// in the machine's own order, one number after the other.
#[verifier::external_body]
fn bytes_of_classes(values: &[i32]) -> (bytes: &[u8])
    ensures
        bytes@ == least_first(values@) || bytes@ == greatest_first(values@),
{
    bytemuck::cast_slice(values)
}

/// Whether a value is a row of a table.
pub open spec fn is_row(value: i32, classes: int) -> bool {
    0 <= value < classes
}

/// The first value that is no row of a table.
pub open spec fn stray(values: Seq<i32>, classes: int) -> Option<i32>
    decreases values.len(),
{
    if values.len() == 0 {
        None
    } else if stray(values.drop_last(), classes) is Some {
        stray(values.drop_last(), classes)
    } else if is_row(values.last(), classes) {
        None
    } else {
        Some(values.last())
    }
}

pub proof fn lemma_stray(values: Seq<i32>, classes: int)
    ensures
        stray(values, classes) is None <==> forall|i: int|
            0 <= i < values.len() ==> is_row(#[trigger] values[i], classes),
    decreases values.len(),
{
    if values.len() > 0 {
        let short = values.drop_last();
        lemma_stray(short, classes);
        if stray(values, classes) is None {
            assert forall|i: int| 0 <= i < values.len() implies is_row(
                #[trigger] values[i],
                classes,
            ) by {
                if i < short.len() {
                    assert(short[i] == values[i]);
                }
            }
        }
        if forall|i: int| 0 <= i < values.len() ==> is_row(#[trigger] values[i], classes) {
            assert forall|i: int| 0 <= i < short.len() implies is_row(
                #[trigger] short[i],
                classes,
            ) by {
                assert(short[i] == values[i]);
            }
            assert(is_row(values[values.len() - 1], classes));
        }
    }
}

/// Whether every value is a row of a `classes`-row table.
pub fn classes_fit(values: &[i32], classes: usize) -> (result: Result<()>)
    ensures
        match stray(values@, classes as int) {
            Some(bad) => result matches Err(e) && compile::says(
                e,
                "class "@ + text::signed(bad as int) + " is not one of the "@ + text::decimal(
                    classes as nat,
                ) + " a table has"@,
            ),
            None => result is Ok,
        },
{
    let mut i: usize = 0;
    assert(values@.take(0).len() == 0);
    while i < values.len()
        invariant
            i <= values@.len(),
            stray(values@.take(i as int), classes as int) is None,
        decreases values@.len() - i,
    {
        let ghost longer = values@.take(i + 1);
        assert(longer.drop_last() =~= values@.take(i as int));
        let v: i32 = values[i];
        if v < 0 || v as usize >= classes {
            proof {
                lemma_stray_stays(values@, classes as int, i + 1);
            }
            let mut message = String::from_str("class ");
            text::push_signed(&mut message, v as i64);
            message.append(" is not one of the ");
            text::push_decimal(&mut message, classes as u64);
            message.append(" a table has");
            return Err(Error::Io(message));
        }
        i += 1;
    }
    assert(values@.take(i as int) =~= values@);
    Ok(())
}

proof fn lemma_stray_stays(values: Seq<i32>, classes: int, n: int)
    requires
        0 <= n <= values.len(),
        stray(values.take(n), classes) is Some,
    ensures
        stray(values, classes) == stray(values.take(n), classes),
    decreases values.len(),
{
    if n == values.len() {
        assert(values.take(n) =~= values);
    } else {
        let short = values.drop_last();
        assert(short.take(n) =~= values.take(n));
        lemma_stray_stays(short, classes, n);
    }
}

/// What [`Classes::write`] accepts: rows that fit, each one a row of the table.
pub fn checkable(values: &[i32], classes: usize, capacity: usize) -> (result: Result<()>)
    ensures
        if values@.len() > capacity {
            result matches Err(e) && compile::says(
                e,
                text::phrase2_of(
                    ""@,
                    values@.len(),
                    " classes do not fit "@,
                    capacity as nat,
                    " rows"@,
                ),
            )
        } else {
            match stray(values@, classes as int) {
                Some(bad) => result matches Err(e) && compile::says(
                    e,
                    "class "@ + text::signed(bad as int) + " is not one of the "@ + text::decimal(
                        classes as nat,
                    ) + " a table has"@,
                ),
                None => result is Ok,
            }
        },
{
    if values.len() > capacity {
        return Err(
            Error::Io(text::phrase2("", values.len(), " classes do not fit ", capacity, " rows")),
        );
    }
    classes_fit(values, classes)
}

/// One class per row, each of them a row of a modulation table.
///
/// The kernels take that value as a table index without a range check, and a class past the table's rows
/// reads memory the table does not own. So the check happens where the values are written, and the bound
/// they were checked against travels with them in this type. A kernel takes these rows only when its own
/// table is at least that wide, which is what [`ClassRows::against`] decides.
pub struct Classes {
    buf: Buffer,
    capacity: usize,
    /// how many leading rows hold checked values; the rest of the allocation is not offered
    written: usize,
    /// every written value is less than this
    bound: usize,
    /// rows that were checked and are on their way up, and what they were checked against
    waiting: Option<(usize, usize)>,
    /// what the leading rows hold
    rows: Ghost<Seq<i32>>,
    /// what the rows on their way up will hold
    coming: Ghost<Seq<i32>>,
}

/// The bytes class rows are allocated with.
pub open spec fn class_bytes(rows: int) -> int {
    if rows < 1 {
        4
    } else {
        4 * rows
    }
}

impl Classes {
    /// The values the leading rows hold.
    pub closed spec fn values(&self) -> Seq<i32> {
        self.rows@
    }

    /// What every value was found to be less than.
    pub closed spec fn checked_against(&self) -> int {
        self.bound as int
    }

    pub closed spec fn room(&self) -> int {
        self.capacity as int
    }

    pub closed spec fn handle(&self) -> u64 {
        self.buf.handle()
    }

    /// The values on their way up, and what they were checked against.
    pub closed spec fn on_the_way(&self) -> Option<(Seq<i32>, int)> {
        match self.waiting {
            Some((_, bound)) => Some((self.coming@, bound as int)),
            None => None,
        }
    }

    /// What is offered has been checked, and fits.
    pub closed spec fn wf(&self) -> bool {
        &&& self.buf.size() == class_bytes(self.capacity as int)
        &&& self.rows@.len() == self.written
        &&& self.written <= self.capacity
        &&& forall|i: int|
            0 <= i < self.rows@.len() ==> is_row(#[trigger] self.rows@[i], self.bound as int)
        &&& match self.waiting {
            Some((n, bound)) => {
                &&& self.coming@.len() == n
                &&& n <= self.capacity
                &&& forall|i: int|
                    0 <= i < self.coming@.len() ==> is_row(#[trigger] self.coming@[i], bound as int)
            },
            None => true,
        }
    }

    /// The bytes to allocate, and to fill with zeros, for `rows` of class zero.
    pub fn bytes_for(rows: usize) -> (bytes: usize)
        requires
            4 * rows <= usize::MAX,
        ensures
            bytes == class_bytes(rows as int),
    {
        if rows < 1 {
            4
        } else {
            rows * 4
        }
    }

    /// `rows` of class zero, which is a row of every table, on an allocation of zeros.
    pub fn zeroed(buf: Buffer, rows: usize) -> (classes: Self)
        requires
            buf.size() == class_bytes(rows as int),
        ensures
            classes.wf(),
            classes.values() == Seq::new(rows as nat, |i: int| 0i32),
            classes.checked_against() == 1,
            classes.room() == rows,
            classes.handle() == buf.handle(),
            classes.on_the_way() is None,
    {
        Classes {
            buf,
            capacity: rows,
            written: rows,
            bound: 1,
            waiting: None,
            rows: Ghost(Seq::new(rows as nat, |i: int| 0i32)),
            coming: Ghost(Seq::empty()),
        }
    }

    /// Takes `values` for the leading rows, refusing any that is not a row of a `classes`-row table, and
    /// gives the bytes to upload at the head of the allocation.
    ///
    /// Nothing is offered until the upload is done: the rows are marked unwritten first, so a caller that
    /// ignores a refusal cannot bind the stale ones.
    pub fn write<'v>(&mut self, values: &'v [i32], classes: usize) -> (result: Result<&'v [u8]>)
        requires
            old(self).wf(),
        ensures
            final(self).wf(),
            final(self).values() == Seq::<i32>::empty(),
            final(self).room() == old(self).room(),
            final(self).handle() == old(self).handle(),
            if values@.len() > old(self).room() {
                &&& result matches Err(e)
                &&& compile::says(
                    e,
                    text::phrase2_of(
                        ""@,
                        values@.len(),
                        " classes do not fit "@,
                        old(self).room() as nat,
                        " rows"@,
                    ),
                )
                &&& final(self).on_the_way() is None
            } else {
                match stray(values@, classes as int) {
                    Some(bad) => {
                        &&& result matches Err(e)
                        &&& compile::says(
                            e,
                            "class "@ + text::signed(bad as int) + " is not one of the "@
                                + text::decimal(classes as nat) + " a table has"@,
                        )
                        &&& final(self).on_the_way() is None
                    },
                    None => {
                        &&& result matches Ok(bytes)
                        &&& bytes@ == least_first(values@) || bytes@ == greatest_first(values@)
                        &&& final(self).on_the_way() == Some((values@, classes as int))
                    },
                }
            },
    {
        self.written = 0;
        self.rows = Ghost(Seq::empty());
        self.waiting = None;
        checkable(values, classes, self.capacity)?;
        proof {
            lemma_stray(values@, classes as int);
        }
        self.coming = Ghost(values@);
        self.waiting = Some((values.len(), classes));
        Ok(bytes_of_classes(values))
    }

    /// Where the rows on their way up go, where any are.
    pub fn destination(&self) -> (view: Option<BufferRef>)
        requires
            self.wf(),
        ensures
            match self.on_the_way() {
                Some((values, _)) => {
                    &&& view matches Some(to)
                    &&& to.buffer == self.handle()
                    &&& to.offset == 0
                    &&& to.length == 4 * values.len()
                    &&& values.len() <= self.room()
                },
                None => view is None,
            },
    {
        match self.waiting {
            Some((rows, _)) => Some(self.buf.slice(0, rows * 4)),
            None => None,
        }
    }

    /// The rows on their way up have arrived.
    pub fn uploaded(&mut self)
        requires
            old(self).wf(),
        ensures
            final(self).wf(),
            final(self).room() == old(self).room(),
            final(self).handle() == old(self).handle(),
            final(self).on_the_way() is None,
            match old(self).on_the_way() {
                Some((values, classes)) => final(self).values() == values
                    && final(self).checked_against() == classes,
                None => final(self).values() == old(self).values() && final(self).checked_against()
                    == old(self).checked_against(),
            },
    {
        if let Some((rows, classes)) = self.waiting {
            self.written = rows;
            self.bound = classes;
            self.rows = Ghost(self.coming@);
        }
        self.waiting = None;
    }

    /// Every row that has been checked.
    pub fn all(&self) -> (rows: ClassRows)
        requires
            self.wf(),
        ensures
            rows.of(self, 0, self.values().len() as int),
    {
        self.slice(0, self.written)
    }

    /// `rows` of them from `from`, which is how a stage takes the classes of its own span.
    pub fn slice(&self, from: usize, rows: usize) -> (run: ClassRows)
        requires
            self.wf(),
            from + rows <= self.values().len(),
        ensures
            run.of(self, from as int, rows as int),
    {
        ClassRows { view: self.buf.slice(from * 4, rows * 4), rows, bound: self.bound }
    }
}

/// A run of checked class rows, and the table width they were checked against.
#[derive(Clone, Copy, Debug)]
pub struct ClassRows {
    view: BufferRef,
    rows: usize,
    bound: usize,
}

impl ClassRows {
    pub closed spec fn binding(&self) -> BufferRef {
        self.view
    }

    pub closed spec fn count(&self) -> int {
        self.rows as int
    }

    pub closed spec fn checked_against(&self) -> int {
        self.bound as int
    }

    /// Whether this is `rows` of class rows from `from`.
    pub open spec fn of(&self, classes: &Classes, from: int, rows: int) -> bool {
        &&& self.count() == rows
        &&& self.checked_against() == classes.checked_against()
        &&& self.binding().buffer == classes.handle()
        &&& self.binding().offset == 4 * from
        &&& self.binding().length == 4 * rows
    }

    /// What is wrong with handing these rows to a kernel of so many tokens and so wide a table.
    pub open spec fn refused(&self, stage: Seq<char>, tokens: int, classes: int) -> Option<Seq<char>> {
        if self.count() < tokens {
            Some(
                stage + text::phrase2_of(
                    ": "@,
                    tokens as nat,
                    " rows want a class each, "@,
                    self.count() as nat,
                    " given"@,
                ),
            )
        } else if self.checked_against() > classes {
            Some(
                stage + text::phrase2_of(
                    ": classes checked against "@,
                    self.checked_against() as nat,
                    " rows, the table has "@,
                    classes as nat,
                    ""@,
                ),
            )
        } else {
            None
        }
    }

    /// The binding, once the kernel's own table has been found wide enough for these values and long
    /// enough for its launch.
    pub fn against(&self, stage: &str, tokens: usize, classes: usize) -> (result: Result<BufferRef>)
        ensures
            match self.refused(stage@, tokens as int, classes as int) {
                Some(words) => result matches Err(e) && compile::says(e, words),
                None => result == Ok::<BufferRef, Error>(self.binding()),
            },
    {
        if self.rows < tokens {
            let tail = text::phrase2(
                ": ",
                tokens,
                " rows want a class each, ",
                self.rows,
                " given",
            );
            return Err(Error::Io(text::cat2(stage, tail.as_str())));
        }
        if self.bound > classes {
            let tail = text::phrase2(
                ": classes checked against ",
                self.bound,
                " rows, the table has ",
                classes,
                "",
            );
            return Err(Error::Io(text::cat2(stage, tail.as_str())));
        }
        Ok(self.view)
    }
}

/// A class row a kernel is handed is a row of the kernel's own table: whatever was written, sliced and
/// accepted, no launch indexes past its table.
pub proof fn law_an_accepted_class_is_a_row_of_the_table(
    classes: &Classes,
    run: ClassRows,
    from: int,
    rows: int,
    stage: Seq<char>,
    tokens: int,
    table: int,
    i: int,
)
    requires
        classes.wf(),
        0 <= from,
        from + rows <= classes.values().len(),
        run.of(classes, from, rows),
        run.refused(stage, tokens, table) is None,
        0 <= i < tokens,
    ensures
        is_row(classes.values()[from + i], table),
        run.binding().length >= 4 * tokens,
{
    assert(is_row(classes.rows@[from + i], classes.bound as int));
}

// The kernels.

/// The namespace a kernel's configuration keys stand in.
pub open spec fn namespace(stem: Seq<char>) -> Seq<char> {
    "h3."@ + stem + "."@
}

/// A configuration key set to a number.
pub open spec fn count_of(ns: Seq<char>, key: Seq<char>, value: int) -> (Seq<char>, Seq<char>) {
    (ns + key, text::decimal(value as nat))
}

/// A number, or another where it is zero.
pub open spec fn or_else(value: int, other: int) -> int {
    if value != 0 {
        value
    } else {
        other
    }
}

/// The least multiple of `step` that is not below `n`.
pub open spec fn up_to(n: int, step: int) -> int {
    (n + step - 1) / step * step
}

/// How many steps cover `n`.
pub open spec fn steps(n: int, step: int) -> int {
    (n + step - 1) / step
}

/// How many steps cover `n`.
pub fn steps_of(n: usize, step: usize) -> (count: usize)
    requires
        step > 0,
    ensures
        count == steps(n as int, step as int),
{
    let whole: usize = n / step;
    let rest: usize = n % step;
    proof {
        let (n, s, w, r) = (n as int, step as int, whole as int, rest as int);
        assert(n == w * s + r) by (nonlinear_arith)
            requires
                w == n / s,
                r == n % s,
                s > 0,
        ;
        if r == 0 {
            assert((n + s - 1) / s == w) by (nonlinear_arith)
                requires
                    n == w * s,
                    s > 0,
            ;
        } else {
            assert((n + s - 1) / s == w + 1) by (nonlinear_arith)
                requires
                    n == w * s + r,
                    0 < r < s,
            ;
            assert(w + 1 <= n) by (nonlinear_arith)
                requires
                    n == w * s + r,
                    0 < r < s,
                    w >= 0,
            ;
        }
    }
    if rest == 0 {
        whole
    } else {
        whole + 1
    }
}

proof fn lemma_product(a: int, b: int)
    by (nonlinear_arith)
    requires
        a >= 0,
        b >= 0,
    ensures
        a * b >= 0,
{
}

/// What a prepare starts from.
#[derive(Clone, Copy, Debug, PartialEq, Eq, Structural)]
pub enum Form {
    /// the modulated RMS norm of the residual stream
    Norm,
    /// the modulated layer norm of the residual stream
    Lnorm,
    /// a half-precision row as it stands
    Plain,
}

impl Form {
    pub open spec fn named(self) -> Seq<char> {
        match self {
            Form::Norm => "norm"@,
            Form::Lnorm => "lnorm"@,
            Form::Plain => "plain"@,
        }
    }

    pub fn name(self) -> (name: &'static str)
        ensures
            name@ == self.named(),
    {
        match self {
            Form::Norm => "norm",
            Form::Lnorm => "lnorm",
            Form::Plain => "plain",
        }
    }
}

/// Produces a GEMM's A operand: the norm forms normalise and modulate the residual stream, `Plain`
/// narrows an existing half-precision row. The integer forms also write a per-token scale; the float
/// ones write rows and nothing else.
#[derive(Debug)]
pub struct Prepare {
    pub kernel: Specialization,
    pub lanes: usize,
    pub form: Form,
    pub elem: Elem,
    /// the extents the kernel was compiled from, kept so `run` can bound its bindings
    pub width: usize,
    pub out_stride: usize,
    pub classes: usize,
}

/// Rows past 64 KB of singles stage as halves instead.
pub open spec fn stages_as_half(form: Form, elem: Elem, width: int) -> bool {
    form == Form::Plain && elem.is_quantised() && width * 4 > 65536
}

pub open spec fn prepare_stem(form: Form, elem: Elem, width: int) -> Seq<char> {
    if stages_as_half(form, elem, width) {
        "prepare_plain16_i8"@
    } else {
        "prepare_"@ + form.named() + "_"@ + elem.named()
    }
}

pub open spec fn prepare_kernel(
    form: Form,
    elem: Elem,
    width: int,
    lanes: int,
    eps: Seq<char>,
    classes: int,
    out_stride: int,
) -> SpecializationView {
    let stem = prepare_stem(form, elem, width);
    let ns = namespace(stem);
    SpecializationView {
        module: if stages_as_half(form, elem, width) {
            stem
        } else {
            "prepare_"@ + elem.named() + "_family"@
        },
        symbol: "h3_"@ + stem,
        config: seq![count_of(ns, "width"@, width), count_of(ns, "lanes"@, lanes)] + (if form
            != Form::Plain {
            seq![(ns + "eps"@, eps), count_of(ns, "classes"@, classes)]
        } else {
            Seq::empty()
        }) + seq![count_of(ns, "out_stride"@, or_else(out_stride, width))],
    }
}

impl Prepare {
    /// Whether this is the prepare of such a shape, whatever its lanes.
    pub open spec fn shaped(
        &self,
        form: Form,
        elem: Elem,
        width: int,
        eps: Seq<char>,
        classes: int,
        out_stride: int,
    ) -> bool {
        &&& self.kernel@ == prepare_kernel(
            form,
            elem,
            width,
            self.lanes as int,
            eps,
            classes,
            out_stride,
        )
        &&& self.form == form
        &&& self.elem == elem
        &&& self.width == width
        &&& self.out_stride == or_else(out_stride, width)
        &&& self.classes == classes
    }

    /// `eps` is spelled as the configuration spells floats.
    pub fn build<
        L: Fn(usize) -> Option<usize>,
        F: Fn(usize, usize, usize) -> u32,
        M: Fn(usize, usize, usize, usize) -> u32,
        G: Fn(usize, u32, usize) -> u32,
    >(
        tuning: &Tuning<L, F, M, G>,
        form: Form,
        elem: Elem,
        width: usize,
        eps: &str,
        classes: usize,
        out_stride: usize,
    ) -> (result: Result<Self>)
        requires
            tuning.measured(),
        ensures
            match result {
                Ok(p) => {
                    &&& tuning.lanes_for(width) == Some(p.lanes)
                    &&& p.shaped(
                        form,
                        elem,
                        width as int,
                        eps@,
                        classes as int,
                        out_stride as int,
                    )
                },
                Err(e) => {
                    &&& tuning.lanes_for(width) is None
                    &&& compile::says(
                        e,
                        text::phrase_of("no prepare lane count for width "@, width as nat, ""@),
                    )
                },
            },
    {
        let half: bool = match form {
            Form::Plain => elem.quantised() && width > 16384,
            _ => false,
        };
        let stem: String = if half {
            String::from_str("prepare_plain16_i8")
        } else {
            let mut s = text::cat3("prepare_", form.name(), "_");
            s.append(elem.name());
            s
        };
        let lanes: usize = match (tuning.lanes)(width) {
            Some(lanes) => lanes,
            None => {
                return Err(
                    Error::Io(text::phrase("no prepare lane count for width ", width, "")),
                );
            },
        };
        let ns = text::cat3("h3.", stem.as_str(), ".");
        let stride: usize = if out_stride != 0 {
            out_stride
        } else {
            width
        };
        let plain: bool = match form {
            Form::Plain => true,
            _ => false,
        };
        let mut cfg: compile::Cfg = Vec::new();
        compile::set_count(&mut cfg, ns.as_str(), "width", width);
        compile::set_count(&mut cfg, ns.as_str(), "lanes", lanes);
        if !plain {
            compile::set(&mut cfg, ns.as_str(), "eps", String::from_str(eps));
            compile::set_count(&mut cfg, ns.as_str(), "classes", classes);
        }
        // the operand rows' pitch, which is the GEMM's k_stride
        compile::set_count(&mut cfg, ns.as_str(), "out_stride", stride);
        let symbol = text::cat2("h3_", stem.as_str());
        let module = if half {
            stem
        } else {
            text::cat3("prepare_", elem.name(), "_family")
        };
        let kernel = Specialization { module, symbol, config: cfg };
        proof {
            let want = prepare_kernel(
                form,
                elem,
                width as int,
                lanes as int,
                eps@,
                classes as int,
                out_stride as int,
            );
            assert(kernel@.config =~= want.config);
        }
        Ok(Prepare { kernel, lanes, form, elem, width, out_stride: stride, classes })
    }

    /// What a launch binds, and the bytes its kernel addresses of each.
    pub open spec fn args(
        &self,
        t: int,
        x: BufferRef,
        norm: Option<(BufferRef, BufferRef, ClassRows)>,
        a_q: BufferRef,
        a_s: Option<BufferRef>,
    ) -> Seq<Arg> {
        // the norm forms read the residual stream; `Plain` narrows a row that a GEMM already wrote
        (if self.form == Form::Plain {
            seq![arg(x, t * self.width * 2)]
        } else {
            seq![
                arg(x, t * self.width * 4),
                // the norm's weight, its (scale, shift) table per class, and a class per row
                arg(norm->Some_0.0, self.width * 4),
                arg(norm->Some_0.1, self.classes * self.width * 8),
                arg(norm->Some_0.2.binding(), t * 4),
            ]
        }) + seq![arg(a_q, t * self.out_stride * self.elem.bits_of() / 8)] + (
        if self.elem.is_quantised() {
            seq![arg(a_s->0, t * 4)]
        } else {
            Seq::empty()
        })
    }

    pub open spec fn launch(&self, stage: Seq<char>, tokens: u32, args: Seq<Arg>) -> LaunchView {
        LaunchView {
            kernel: self.kernel@,
            stage,
            grid: line(tokens),
            block: line(self.lanes as u32),
            scalars: seq![tokens],
            bindings: views_of(args),
        }
    }

    /// A launch, and what stands in its way: the classes first, then the bindings.
    pub open spec fn step(
        &self,
        stage: Seq<char>,
        tokens: u32,
        x: BufferRef,
        norm: Option<(BufferRef, BufferRef, ClassRows)>,
        a_q: BufferRef,
        a_s: Option<BufferRef>,
    ) -> Step {
        let args = self.args(tokens as int, x, norm, a_q, a_s);
        let launch = self.launch(stage, tokens, args);
        let refused = norm->Some_0.2.refused(stage, tokens as int, self.classes as int);
        if self.form != Form::Plain && refused is Some {
            Step { launch, trouble: refused }
        } else {
            bound_step(launch, args)
        }
    }

    /// Whether the bytes a launch addresses can be counted.
    pub open spec fn countable(&self, t: int) -> bool {
        &&& if self.form == Form::Plain {
            t * self.width * 2 <= usize::MAX
        } else {
            &&& t * self.width * 4 <= usize::MAX
            &&& self.classes * self.width * 8 <= usize::MAX
            &&& self.width * 4 <= usize::MAX
        }
        &&& t * self.out_stride * self.elem.bits_of() <= usize::MAX
        &&& t * 4 <= usize::MAX
    }

    /// Norm forms take the weight, the table and the classes; `Plain` takes the rows alone. `a_s` is
    /// written only by the integer forms.
    pub fn run<'a>(
        &'a self,
        stage: &'a str,
        tokens: u32,
        x: BufferRef,
        norm: Option<(BufferRef, BufferRef, ClassRows)>,
        a_q: BufferRef,
        a_s: Option<BufferRef>,
    ) -> (result: Result<Launch<'a>>)
        requires
            self.form != Form::Plain ==> norm is Some,
            self.elem.is_quantised() ==> a_s is Some,
            self.countable(tokens as int),
        ensures
            comes_out(result, self.step(stage@, tokens, x, norm, a_q, a_s)),
    {
        let t: usize = tokens as usize;
        proof {
            lemma_product(t as int, self.width as int);
            lemma_product(t as int, self.out_stride as int);
            lemma_product(self.classes as int, self.width as int);
        }
        let plain: bool = match self.form {
            Form::Plain => true,
            _ => false,
        };
        let rows: usize = t * self.width;
        let mut args = Args::new(
            x,
            if plain {
                rows * 2
            } else {
                rows * 4
            },
        );
        if !plain {
            if let Some((weight, table, cls)) = norm {
                args.push(weight, self.width * 4);
                args.push(table, self.classes * self.width * 8);
                args.push(cls.against(stage, t, self.classes)?, t * 4);
            }
        }
        let bits: usize = self.elem.bits();
        assert(t * self.out_stride <= t * self.out_stride * bits) by (nonlinear_arith)
            requires
                bits >= 1,
                t * self.out_stride >= 0,
        ;
        let operand: usize = t * self.out_stride;
        proof {
            lemma_product(operand as int, bits as int);
        }
        args.push(a_q, operand * bits / 8);
        if self.elem.quantised() {
            if let Some(a_s) = a_s {
                args.push(a_s, t * 4);
            }
        }
        assert(args.all() =~= self.args(t as int, x, norm, a_q, a_s));
        checked(
            &self.kernel,
            stage,
            Extent { x: tokens, y: 1, z: 1 },
            Extent { x: self.lanes as u32, y: 1, z: 1 },
            tokens,
            args,
        )
    }
}

/// What a GEMM does with its product.
#[derive(Clone, Copy, Debug, PartialEq, Eq, Structural)]
pub enum Mode {
    /// stores it
    Plain,
    /// adds it, gated, to the residual stream
    Resid,
    /// consumes half its columns to weigh the other half
    Swiglu,
}

/// Which workgroup tile the decoder uses. `Plain` is the general 256x128; the other two are the measured
/// decoder shapes.
#[derive(Clone, Copy, Debug, PartialEq, Eq, Structural)]
pub enum Tile {
    Plain,
    Wide,
    Fast,
}

/// A GEMM of the integer or half-precision family for one (K, N, row group).
#[derive(Debug)]
pub struct Gemm {
    pub kernel: Specialization,
    pub n: usize,
    pub resid: bool,
    pub bias: bool,
    pub elem: Elem,
    pub m_group: u32,
    pub m_tile: usize,
    pub n_tile: usize,
    pub threads: u32,
    /// the extents the kernel was compiled from, kept so `run` can bound its bindings. The output is
    /// narrower than N in the SwiGLU forms, where half the columns weigh the other half, and it is single
    /// precision only in the residual forms: every other form writes the half-precision stream.
    pub k_stride: usize,
    pub classes: usize,
    pub out_width: usize,
    pub out_bytes: usize,
}

pub open spec fn tile_part(tile: Tile) -> Seq<char> {
    match tile {
        Tile::Plain => ""@,
        Tile::Wide => "_wide"@,
        Tile::Fast => "_fast"@,
    }
}

pub open spec fn mode_part(mode: Mode) -> Seq<char> {
    match mode {
        Mode::Plain => ""@,
        Mode::Resid => "_resid"@,
        Mode::Swiglu => "_swiglu"@,
    }
}

/// The stem of a GEMM: which kernel source is compiled.
pub open spec fn gemm_stem_of(
    elem: Elem,
    mode: Mode,
    bias: bool,
    gate_first: bool,
    tile: Tile,
) -> Seq<char> {
    "gemm_"@ + elem.named() + tile_part(tile) + mode_part(mode) + "_256"@ + (if bias {
        "b"@
    } else {
        ""@
    }) + (if mode == Mode::Swiglu && !gate_first {
        "_gs"@
    } else {
        ""@
    })
}

/// The stem of a GEMM: which kernel source is compiled.
pub fn gemm_stem(elem: Elem, mode: Mode, bias: bool, gate_first: bool, tile: Tile) -> (stem: String)
    ensures
        stem@ == gemm_stem_of(elem, mode, bias, gate_first, tile),
{
    let mut stem = text::cat2("gemm_", elem.name());
    stem.append(
        match tile {
            Tile::Plain => "",
            Tile::Wide => "_wide",
            Tile::Fast => "_fast",
        },
    );
    stem.append(
        match mode {
            Mode::Plain => "",
            Mode::Resid => "_resid",
            Mode::Swiglu => "_swiglu",
        },
    );
    stem.append("_256");
    stem.append(
        if bias {
            "b"
        } else {
            ""
        },
    );
    let gate_second: bool = match mode {
        Mode::Swiglu => !gate_first,
        _ => false,
    };
    stem.append(
        if gate_second {
            "_gs"
        } else {
            ""
        },
    );
    stem
}

/// The module a GEMM's source is in.
pub open spec fn gemm_module_of(elem: Elem, tile: Tile, stem: Seq<char>) -> Seq<char> {
    if tile == Tile::Plain && elem.is_quantised() {
        "gemm_packed_256"@
    } else if tile == Tile::Plain {
        "gemm_"@ + elem.named() + "_family"@
    } else {
        stem
    }
}

/// The module a GEMM's source is in.
pub fn gemm_module(elem: Elem, tile: Tile, stem: &str) -> (module: String)
    ensures
        module@ == gemm_module_of(elem, tile, stem@),
{
    let plain: bool = match tile {
        Tile::Plain => true,
        _ => false,
    };
    if plain && elem.quantised() {
        String::from_str("gemm_packed_256")
    } else if plain {
        text::cat3("gemm_", elem.name(), "_family")
    } else {
        String::from_str(stem)
    }
}

/// Whether a decoder tile cannot do this GEMM.
pub open spec fn tile_refuses(
    mode: Mode,
    elem: Elem,
    bias: bool,
    gate_first: bool,
    n_size: int,
    tile: Tile,
) -> bool {
    tile != Tile::Plain && (elem != Elem::F16 || !bias || n_size % 256 != 0 || (mode == Mode::Swiglu
        && gate_first))
}

/// The pitch a decoder tile writes a SwiGLU product at.
pub open spec fn swiglu_stride(n_size: int, out_stride: int) -> int {
    or_else(out_stride, n_size / 2)
}

/// Whether a decoder tile cannot write a SwiGLU product at that pitch.
pub open spec fn stride_refused(mode: Mode, n_size: int, tile: Tile, out_stride: int) -> bool {
    let stride = swiglu_stride(n_size, out_stride);
    tile != Tile::Plain && mode == Mode::Swiglu && (stride < n_size / 2 || stride > 65536 || stride
        % 128 != 0)
}

pub open spec fn gemm_kernel(
    mode: Mode,
    elem: Elem,
    bias: bool,
    gate_first: bool,
    k_size: int,
    n_size: int,
    m_group: int,
    classes: int,
    k_stride: int,
    tile: Tile,
    out_stride: int,
) -> SpecializationView {
    let stem = gemm_stem_of(elem, mode, bias, gate_first, tile);
    let ns = namespace(stem);
    SpecializationView {
        module: gemm_module_of(elem, tile, stem),
        symbol: "h3_"@ + stem,
        config: seq![
            count_of(ns, "k_size"@, k_size),
            count_of(ns, "n_size"@, n_size),
            count_of(ns, "m_group"@, m_group),
        ] + (if mode == Mode::Resid {
            seq![count_of(ns, "classes"@, classes)]
        } else {
            Seq::empty()
        }) + seq![count_of(ns, "k_stride"@, or_else(k_stride, k_size))] + (if tile != Tile::Plain
            && mode == Mode::Swiglu {
            seq![count_of(ns, "out_stride"@, swiglu_stride(n_size, out_stride))]
        } else {
            Seq::empty()
        }),
    }
}

impl Gemm {
    /// Whether this is the GEMM of such a shape, whatever its row group.
    pub open spec fn shaped(
        &self,
        mode: Mode,
        elem: Elem,
        bias: bool,
        gate_first: bool,
        k_size: int,
        n_size: int,
        classes: int,
        k_stride: int,
        tile: Tile,
        out_stride: int,
    ) -> bool {
        &&& self.kernel@ == gemm_kernel(
            mode,
            elem,
            bias,
            gate_first,
            k_size,
            n_size,
            self.m_group as int,
            classes,
            k_stride,
            tile,
            out_stride,
        )
        &&& self.n == n_size
        &&& self.resid == (mode == Mode::Resid)
        &&& self.bias == bias
        &&& self.elem == elem
        &&& self.m_tile == if tile == Tile::Fast {
            128int
        } else {
            256
        }
        &&& self.n_tile == if tile == Tile::Plain {
            128int
        } else {
            256
        }
        &&& self.threads == if tile == Tile::Wide {
            512
        } else {
            model::THREADS
        }
        &&& self.k_stride == or_else(k_stride, k_size)
        &&& self.classes == classes
        &&& self.out_width == if mode == Mode::Swiglu {
            if tile != Tile::Plain {
                swiglu_stride(n_size, out_stride)
            } else {
                n_size / 2
            }
        } else {
            n_size
        }
        &&& self.out_bytes == if mode == Mode::Resid {
            4int
        } else {
            2
        }
    }

    pub fn build<
        L: Fn(usize) -> Option<usize>,
        F: Fn(usize, usize, usize) -> u32,
        M: Fn(usize, usize, usize, usize) -> u32,
        G: Fn(usize, u32, usize) -> u32,
    >(
        tuning: &Tuning<L, F, M, G>,
        mode: Mode,
        elem: Elem,
        bias: bool,
        gate_first: bool,
        k_size: usize,
        n_size: usize,
        tokens: usize,
        classes: usize,
        k_stride: usize,
        tile: Tile,
        out_stride: usize,
    ) -> (result: Result<Self>)
        requires
            tuning.measured(),
        ensures
            if tile_refuses(mode, elem, bias, gate_first, n_size as int, tile) {
                result matches Err(e) && compile::says(
                    e,
                    "decoder GEMM requires the biased f16 family and N divisible by 256"@,
                )
            } else if stride_refused(mode, n_size as int, tile, out_stride as int) {
                result matches Err(e) && compile::says(e, "invalid wide SwiGLU output stride"@)
            } else {
                &&& result matches Ok(gemm)
                &&& gemm.m_group == tuning.m_group_for(
                    tile == Tile::Fast,
                    tokens,
                    k_size,
                    n_size,
                    elem.bits_of() as usize,
                )
                &&& gemm.shaped(
                    mode,
                    elem,
                    bias,
                    gate_first,
                    k_size as int,
                    n_size as int,
                    classes as int,
                    k_stride as int,
                    tile,
                    out_stride as int,
                )
            },
    {
        let wide: bool = match tile {
            Tile::Wide => true,
            _ => false,
        };
        let fast: bool = match tile {
            Tile::Fast => true,
            _ => false,
        };
        let resid: bool = match mode {
            Mode::Resid => true,
            _ => false,
        };
        let swiglu: bool = match mode {
            Mode::Swiglu => true,
            _ => false,
        };
        let half: bool = match elem {
            Elem::F16 => true,
            _ => false,
        };
        if (wide || fast) && (!half || !bias || n_size % 256 != 0 || (swiglu && gate_first)) {
            return Err(
                Error::Io(
                    String::from_str(
                        "decoder GEMM requires the biased f16 family and N divisible by 256",
                    ),
                ),
            );
        }
        let m_tile: usize = if fast {
            128
        } else {
            256
        };
        let n_tile: usize = if wide || fast {
            256
        } else {
            128
        };
        let threads: u32 = if wide {
            512
        } else {
            model::THREADS
        };
        let m_group: u32 = if fast {
            (tuning.fast_group)(tokens, k_size, n_size)
        } else {
            (tuning.group)(tokens, k_size, n_size, elem.bits())
        };
        let stem = gemm_stem(elem, mode, bias, gate_first, tile);
        let ns = text::cat3("h3.", stem.as_str(), ".");
        // the operand row pitch
        let pitch: usize = if k_stride != 0 {
            k_stride
        } else {
            k_size
        };
        let mut cfg: compile::Cfg = Vec::new();
        compile::set_count(&mut cfg, ns.as_str(), "k_size", k_size);
        compile::set_count(&mut cfg, ns.as_str(), "n_size", n_size);
        compile::set_count(&mut cfg, ns.as_str(), "m_group", m_group as usize);
        if resid {
            compile::set_count(&mut cfg, ns.as_str(), "classes", classes);
        }
        compile::set_count(&mut cfg, ns.as_str(), "k_stride", pitch);
        let mut out_width: usize = if swiglu {
            n_size / 2
        } else {
            n_size
        };
        if (wide || fast) && swiglu {
            let stride: usize = if out_stride != 0 {
                out_stride
            } else {
                n_size / 2
            };
            if stride < n_size / 2 || stride > 65536 || stride % 128 != 0 {
                return Err(Error::Io(String::from_str("invalid wide SwiGLU output stride")));
            }
            compile::set_count(&mut cfg, ns.as_str(), "out_stride", stride);
            out_width = stride;
        }
        let module = gemm_module(elem, tile, stem.as_str());
        let kernel = Specialization {
            module,
            symbol: text::cat2("h3_", stem.as_str()),
            config: cfg,
        };
        proof {
            let want = gemm_kernel(
                mode,
                elem,
                bias,
                gate_first,
                k_size as int,
                n_size as int,
                m_group as int,
                classes as int,
                k_stride as int,
                tile,
                out_stride as int,
            );
            assert(kernel@.config =~= want.config);
        }
        Ok(
            Gemm {
                kernel,
                n: n_size,
                resid,
                bias,
                elem,
                m_group,
                m_tile,
                n_tile,
                threads,
                k_stride: pitch,
                classes,
                out_width,
                out_bytes: if resid {
                    4
                } else {
                    2
                },
            },
        )
    }

    /// What a launch binds, and the bytes its kernel addresses of each.
    ///
    /// Both operands are pitched to `k_stride` in the operand's element type, and every access is guarded
    /// to the token count, so the row extent is the tokens rather than the grid's rounded-up cover.
    pub open spec fn args(
        &self,
        t: int,
        a_q: BufferRef,
        w_q: BufferRef,
        scales: Option<(BufferRef, BufferRef)>,
        out: BufferRef,
        residual: Option<(BufferRef, ClassRows)>,
        bias: Option<BufferRef>,
    ) -> Seq<Arg> {
        let bytes = self.elem.bits_of() / 8;
        seq![arg(a_q, t * self.k_stride * bytes), arg(w_q, self.n * self.k_stride * bytes)] + (
        if self.elem.is_quantised() {
            seq![arg(scales->Some_0.0, self.n * 4), arg(scales->Some_0.1, t * 4)]
        } else {
            Seq::empty()
        }) + seq![arg(out, t * self.out_width * self.out_bytes)] + (if self.resid {
            seq![
                arg(residual->Some_0.0, self.classes * self.n * 4),
                arg(residual->Some_0.1.binding(), t * 4),
            ]
        } else {
            Seq::empty()
        }) + (if self.bias {
            seq![arg(bias->0, self.n * 4)]
        } else {
            Seq::empty()
        })
    }

    pub open spec fn launch(
        &self,
        stage: Seq<char>,
        tokens: u32,
        grid_y: u32,
        args: Seq<Arg>,
    ) -> LaunchView {
        LaunchView {
            kernel: self.kernel@,
            stage,
            grid: plane((self.n / self.n_tile) as u32, grid_y),
            block: line(self.threads),
            scalars: seq![tokens],
            bindings: views_of(args),
        }
    }

    /// A launch, and what stands in its way: the classes first, then the bindings.
    pub open spec fn step(
        &self,
        grid_y: u32,
        stage: Seq<char>,
        tokens: u32,
        a_q: BufferRef,
        w_q: BufferRef,
        scales: Option<(BufferRef, BufferRef)>,
        out: BufferRef,
        residual: Option<(BufferRef, ClassRows)>,
        bias: Option<BufferRef>,
    ) -> Step {
        let args = self.args(tokens as int, a_q, w_q, scales, out, residual, bias);
        let launch = self.launch(stage, tokens, grid_y, args);
        let refused = residual->Some_0.1.refused(stage, tokens as int, self.classes as int);
        if self.resid && refused is Some {
            Step { launch, trouble: refused }
        } else {
            bound_step(launch, args)
        }
    }

    /// Whether the bytes a launch addresses can be counted.
    pub open spec fn countable(&self, t: int) -> bool {
        &&& self.n_tile > 0
        &&& t * self.k_stride <= usize::MAX
        &&& t * self.k_stride * (self.elem.bits_of() / 8) <= usize::MAX
        &&& self.n * self.k_stride <= usize::MAX
        &&& self.n * self.k_stride * (self.elem.bits_of() / 8) <= usize::MAX
        &&& self.out_bytes == 2 || self.out_bytes == 4
        &&& t * self.out_width * self.out_bytes <= usize::MAX
        &&& self.resid ==> self.classes * self.n * 4 <= usize::MAX
        &&& self.n * 4 <= usize::MAX
        &&& t * 4 <= usize::MAX
    }

    /// The operands, the scales of integer ones, the output, a gate and classes of a residual form and
    /// the bias of a biased one: the float operands carry no scales.
    pub fn run<
        'a,
        L: Fn(usize) -> Option<usize>,
        F: Fn(usize, usize, usize) -> u32,
        M: Fn(usize, usize, usize, usize) -> u32,
        G: Fn(usize, u32, usize) -> u32,
    >(
        &'a self,
        tuning: &Tuning<L, F, M, G>,
        stage: &'a str,
        tokens: u32,
        a_q: BufferRef,
        w_q: BufferRef,
        scales: Option<(BufferRef, BufferRef)>,
        out: BufferRef,
        residual: Option<(BufferRef, ClassRows)>,
        bias: Option<BufferRef>,
    ) -> (result: Result<Launch<'a>>)
        requires
            tuning.measured(),
            self.elem.is_quantised() ==> scales is Some,
            self.resid ==> residual is Some,
            self.bias ==> bias is Some,
            self.countable(tokens as int),
        ensures
            comes_out(
                result,
                self.step(
                    tuning.grid_y_for(tokens as usize, self.m_group, self.m_tile),
                    stage@,
                    tokens,
                    a_q,
                    w_q,
                    scales,
                    out,
                    residual,
                    bias,
                ),
            ),
    {
        let t: usize = tokens as usize;
        proof {
            lemma_product(t as int, self.k_stride as int);
            lemma_product(t as int, self.out_width as int);
            lemma_product(self.n as int, self.k_stride as int);
            lemma_product(self.classes as int, self.n as int);
        }
        let bytes: usize = self.elem.bits() / 8;
        let rows: usize = t * self.k_stride;
        let weights: usize = self.n * self.k_stride;
        assert(t * self.out_width <= t * self.out_width * self.out_bytes) by (nonlinear_arith)
            requires
                self.out_bytes >= 1,
                t * self.out_width >= 0,
        ;
        let outs: usize = t * self.out_width;
        proof {
            lemma_product(rows as int, bytes as int);
            lemma_product(weights as int, bytes as int);
            lemma_product(outs as int, self.out_bytes as int);
        }
        let mut args = Args::new(a_q, rows * bytes);
        args.push(w_q, weights * bytes);
        if self.elem.quantised() {
            if let Some((w_s, a_s)) = scales {
                args.push(w_s, self.n * 4);
                args.push(a_s, t * 4);
            }
        }
        args.push(out, outs * self.out_bytes);
        if self.resid {
            if let Some((gate, cls)) = residual {
                args.push(gate, self.classes * self.n * 4);
                args.push(cls.against(stage, t, self.classes)?, t * 4);
            }
        }
        if self.bias {
            if let Some(bias) = bias {
                args.push(bias, self.n * 4);
            }
        }
        assert(args.all() =~= self.args(t as int, a_q, w_q, scales, out, residual, bias));
        let grid_y: u32 = (tuning.grid_y)(t, self.m_group, self.m_tile);
        checked(
            &self.kernel,
            stage,
            Extent { x: (self.n / self.n_tile) as u32, y: grid_y, z: 1 },
            Extent { x: self.threads, y: 1, z: 1 },
            tokens,
            args,
        )
    }

    pub fn m_group(&self) -> (m_group: u32)
        ensures
            m_group == self.m_group,
    {
        self.m_group
    }
}

/// A causal 3-D convolution as an implicit GEMM over channels-last halves.
///
/// The taps are folded into the K dimension, so a 3x3x3 convolution over 128 channels is a GEMM with
/// K = 27*128 rounded up to a multiple of 32. The `add` form takes a residual as a fifth binding, which
/// is how a ResNet block's second convolution and its skip are one dispatch.
#[derive(Debug)]
pub struct Conv3d {
    pub kernel: Specialization,
    pub cout_pad: usize,
    /// the extents the kernel was compiled from
    pub in_rows: usize,
    pub cin_stride: usize,
    pub k_size: usize,
    /// the output extents, which the caller needs to drive the next layer
    pub tout: usize,
    pub ho: usize,
    pub wo: usize,
}

pub open spec fn conv3d_kernel(
    add: bool,
    frames: int,
    h: int,
    w: int,
    stride: int,
    tstride: int,
    taps_t: int,
    cin_pad: int,
    cin_stride: int,
    k_size: int,
    cout_pad: int,
) -> SpecializationView {
    let stem = if add {
        "conv3d_f16_wmma_add"@
    } else {
        "conv3d_f16_wmma"@
    };
    let ns = namespace(stem);
    SpecializationView {
        module: "conv3d_f16_family"@,
        symbol: "h3_"@ + stem,
        config: seq![
            count_of(ns, "frames"@, frames),
            count_of(ns, "height"@, h),
            count_of(ns, "width"@, w),
            count_of(ns, "stride"@, stride),
            count_of(ns, "tstride"@, tstride),
            count_of(ns, "taps_t"@, taps_t),
            count_of(ns, "cin_pad"@, cin_pad),
            count_of(ns, "cin_stride"@, cin_stride),
            count_of(ns, "rows_bound"@, up_to(frames * h * w, 64)),
            count_of(ns, "k_size"@, k_size),
            count_of(ns, "n_size"@, cout_pad),
        ],
    }
}

impl Conv3d {
    pub fn build(
        add: bool,
        frames: usize,
        h: usize,
        w: usize,
        stride: usize,
        tstride: usize,
        taps_t: usize,
        cin_pad: usize,
        cin_stride: usize,
        k_size: usize,
        cout_pad: usize,
    ) -> (conv: Self)
        requires
            frames >= 1,
            stride >= 1,
            tstride >= 1,
            frames * h <= usize::MAX,
            up_to(frames * h * w, 64) <= usize::MAX,
        ensures
            conv.kernel@ == conv3d_kernel(
                add,
                frames as int,
                h as int,
                w as int,
                stride as int,
                tstride as int,
                taps_t as int,
                cin_pad as int,
                cin_stride as int,
                k_size as int,
                cout_pad as int,
            ),
            conv.cout_pad == cout_pad,
            conv.in_rows == frames * h * w,
            conv.cin_stride == cin_stride,
            conv.k_size == k_size,
            conv.tout == (frames as int - 1) / tstride as int + 1,
            conv.ho == h as int / stride as int,
            conv.wo == w as int / stride as int,
    {
        let stem: &str = if add {
            "conv3d_f16_wmma_add"
        } else {
            "conv3d_f16_wmma"
        };
        let ns = text::cat3("h3.", stem, ".");
        proof {
            lemma_product(frames as int, h as int);
            lemma_product(frames * h, w as int);
        }
        let in_rows: usize = frames * h * w;
        let rows_bound: usize = steps_of(in_rows, 64) * 64;
        let mut cfg: compile::Cfg = Vec::new();
        compile::set_count(&mut cfg, ns.as_str(), "frames", frames);
        compile::set_count(&mut cfg, ns.as_str(), "height", h);
        compile::set_count(&mut cfg, ns.as_str(), "width", w);
        compile::set_count(&mut cfg, ns.as_str(), "stride", stride);
        compile::set_count(&mut cfg, ns.as_str(), "tstride", tstride);
        compile::set_count(&mut cfg, ns.as_str(), "taps_t", taps_t);
        compile::set_count(&mut cfg, ns.as_str(), "cin_pad", cin_pad);
        compile::set_count(&mut cfg, ns.as_str(), "cin_stride", cin_stride);
        compile::set_count(&mut cfg, ns.as_str(), "rows_bound", rows_bound);
        compile::set_count(&mut cfg, ns.as_str(), "k_size", k_size);
        compile::set_count(&mut cfg, ns.as_str(), "n_size", cout_pad);
        let kernel = Specialization {
            module: String::from_str("conv3d_f16_family"),
            symbol: text::cat2("h3_", stem),
            config: cfg,
        };
        proof {
            assert(kernel@.config =~= conv3d_kernel(
                add,
                frames as int,
                h as int,
                w as int,
                stride as int,
                tstride as int,
                taps_t as int,
                cin_pad as int,
                cin_stride as int,
                k_size as int,
                cout_pad as int,
            ).config);
            assert((frames - 1) / tstride as int <= frames - 1) by (nonlinear_arith)
                requires
                    frames >= 1,
                    tstride >= 1,
            ;
        }
        Conv3d {
            kernel,
            cout_pad,
            in_rows,
            cin_stride,
            k_size,
            tout: (frames - 1) / tstride + 1,
            ho: h / stride,
            wo: w / stride,
        }
    }

    /// Output rows, which is the next layer's `frames * h * w`.
    pub open spec fn out_rows(&self) -> int {
        self.tout * self.ho * self.wo
    }

    /// Output rows, which is the next layer's `frames * h * w`.
    pub fn rows(&self) -> (rows: usize)
        requires
            self.tout * self.ho <= usize::MAX,
            self.out_rows() <= usize::MAX,
        ensures
            rows == self.out_rows(),
    {
        proof {
            lemma_product(self.tout as int, self.ho as int);
            lemma_product(self.tout * self.ho, self.wo as int);
        }
        self.tout * self.ho * self.wo
    }

    /// What a launch binds: input rows at their channel pitch, the folded taps, a bias per output channel
    /// in single precision, and the output rows.
    pub open spec fn args(
        &self,
        a: BufferRef,
        w: BufferRef,
        b: BufferRef,
        out: BufferRef,
        residual: Option<BufferRef>,
    ) -> Seq<Arg> {
        let plane = self.out_rows() * self.cout_pad * 2;
        seq![
            arg(a, self.in_rows * self.cin_stride * 2),
            arg(w, self.cout_pad * self.k_size * 2),
            arg(b, self.cout_pad * 4),
            arg(out, plane),
        ] + match residual {
            Some(r) => seq![arg(r, plane)],
            None => Seq::empty(),
        }
    }

    pub fn run<'a>(
        &'a self,
        stage: &'a str,
        a: BufferRef,
        w: BufferRef,
        b: BufferRef,
        out: BufferRef,
        residual: Option<BufferRef>,
    ) -> (result: Result<Launch<'a>>)
        requires
            self.tout * self.ho <= usize::MAX,
            self.out_rows() <= usize::MAX,
            countable(self.args(a, w, b, out, residual)),
        ensures
            ({
                let args = self.args(a, w, b, out, residual);
                let m = self.out_rows();
                launches(
                    result,
                    LaunchView {
                        kernel: self.kernel@,
                        stage: stage@,
                        grid: plane((self.cout_pad / 64) as u32, steps(m, 64) as u32),
                        block: line(256),
                        scalars: seq![m as u32],
                        bindings: views_of(args),
                    },
                    args,
                )
            }),
    {
        let m: usize = self.rows();
        let ghost want = self.args(a, w, b, out, residual);
        proof {
            assert(want[0].need == self.in_rows * self.cin_stride * 2);
            assert(want[1].need == self.cout_pad * self.k_size * 2);
            assert(want[2].need == self.cout_pad * 4);
            assert(want[3].need == m * self.cout_pad * 2);
            lemma_product(self.in_rows as int, self.cin_stride as int);
            lemma_product(self.cout_pad as int, self.k_size as int);
            lemma_product(m as int, self.cout_pad as int);
        }
        let plane: usize = m * self.cout_pad * 2;
        let mut args = Args::new(a, self.in_rows * self.cin_stride * 2);
        args.push(w, self.cout_pad * self.k_size * 2);
        args.push(b, self.cout_pad * 4);
        args.push(out, plane);
        if let Some(r) = residual {
            args.push(r, plane);
        }
        assert(args.all() =~= want);
        checked(
            &self.kernel,
            stage,
            Extent { x: (self.cout_pad / 64) as u32, y: steps_of(m, 64) as u32, z: 1 },
            Extent { x: 256, y: 1, z: 1 },
            m as u32,
            args,
        )
    }
}

/// GroupNorm over 32 groups followed by SiLU, in two dispatches: the statistics, then the scaling.
///
/// The split is not an optimisation detail: the statistics are over a whole (frame, group) plane, so they
/// have to land before any element is scaled.
#[derive(Debug)]
pub struct GroupNormSilu {
    pub stats: Specialization,
    pub silu: Specialization,
    pub frames: usize,
    pub rows: usize,
    pub channels: usize,
}

pub open spec fn gn_stats_kernel(plane: int, rows: int, channels: int) -> SpecializationView {
    let ns = "h3.gn_stats_f16."@;
    SpecializationView {
        module: "gn_stats_f16"@,
        symbol: "h3_gn_stats_f16"@,
        config: seq![
            count_of(ns, "channels"@, channels),
            (ns + "groups"@, "32"@),
            count_of(ns, "plane"@, plane),
            count_of(ns, "rows_bound"@, up_to(rows, 64)),
        ],
    }
}

pub open spec fn gn_silu_kernel(plane: int, rows: int, channels: int) -> SpecializationView {
    let ns = "h3.gn_silu_f16."@;
    SpecializationView {
        module: "gn_silu_f16"@,
        symbol: "h3_gn_silu_f16"@,
        config: seq![
            count_of(ns, "channels"@, channels),
            (ns + "groups"@, "32"@),
            count_of(ns, "plane"@, plane),
            count_of(ns, "rows_bound"@, up_to(rows, 64)),
            (ns + "eps"@, "9.9999999999999995e-07"@),
        ],
    }
}

impl GroupNormSilu {
    pub fn build(frames: usize, h: usize, w: usize, channels: usize) -> (norm: Self)
        requires
            h * w <= usize::MAX,
            up_to(frames * (h * w), 64) <= usize::MAX,
        ensures
            norm.stats@ == gn_stats_kernel(h * w, frames * (h * w), channels as int),
            norm.silu@ == gn_silu_kernel(h * w, frames * (h * w), channels as int),
            norm.frames == frames,
            norm.rows == frames * (h * w),
            norm.channels == channels,
    {
        proof {
            lemma_product(h as int, w as int);
            lemma_product(frames as int, h * w);
        }
        let plane: usize = h * w;
        let rows: usize = frames * plane;
        let rows_bound: usize = steps_of(rows, 64) * 64;
        let ns: &str = "h3.gn_stats_f16.";
        let na: &str = "h3.gn_silu_f16.";
        let mut stats_cfg: compile::Cfg = Vec::new();
        compile::set_count(&mut stats_cfg, ns, "channels", channels);
        compile::set(&mut stats_cfg, ns, "groups", String::from_str("32"));
        compile::set_count(&mut stats_cfg, ns, "plane", plane);
        compile::set_count(&mut stats_cfg, ns, "rows_bound", rows_bound);
        let mut silu_cfg: compile::Cfg = Vec::new();
        compile::set_count(&mut silu_cfg, na, "channels", channels);
        compile::set(&mut silu_cfg, na, "groups", String::from_str("32"));
        compile::set_count(&mut silu_cfg, na, "plane", plane);
        compile::set_count(&mut silu_cfg, na, "rows_bound", rows_bound);
        compile::set(&mut silu_cfg, na, "eps", String::from_str("9.9999999999999995e-07"));
        let stats = Specialization {
            module: String::from_str("gn_stats_f16"),
            symbol: String::from_str("h3_gn_stats_f16"),
            config: stats_cfg,
        };
        let silu = Specialization {
            module: String::from_str("gn_silu_f16"),
            symbol: String::from_str("h3_gn_silu_f16"),
            config: silu_cfg,
        };
        assert(stats@.config =~= gn_stats_kernel(
            plane as int,
            rows as int,
            channels as int,
        ).config);
        assert(silu@.config =~= gn_silu_kernel(plane as int, rows as int, channels as int).config);
        GroupNormSilu { stats, silu, frames, rows, channels }
    }

    /// What the two launches bind: half-precision planes, a gamma and a beta per channel, and two
    /// statistics per (frame, group), in single precision.
    pub open spec fn stats_args(&self, x: BufferRef, stats: BufferRef) -> Seq<Arg> {
        seq![arg(x, self.rows * self.channels * 2), arg(stats, self.frames * 256)]
    }

    pub open spec fn silu_args(
        &self,
        x: BufferRef,
        gamma: BufferRef,
        beta: BufferRef,
        stats: BufferRef,
        out: BufferRef,
    ) -> Seq<Arg> {
        seq![
            arg(x, self.rows * self.channels * 2),
            arg(stats, self.frames * 256),
            arg(gamma, self.channels * 4),
            arg(beta, self.channels * 4),
            arg(out, self.rows * self.channels * 2),
        ]
    }

    /// The statistics' launch, and the scaling's where the statistics' was made.
    pub fn run<'a>(
        &'a self,
        stage: &'a str,
        x: BufferRef,
        gamma: BufferRef,
        beta: BufferRef,
        stats: BufferRef,
        out: BufferRef,
    ) -> (result: Result<(Launch<'a>, Result<Launch<'a>>)>)
        requires
            self.rows * self.channels * 2 <= usize::MAX,
            self.frames * 256 <= usize::MAX,
            self.channels * 4 <= usize::MAX,
        ensures
            ({
                let stats_args = self.stats_args(x, stats);
                let silu_args = self.silu_args(x, gamma, beta, stats, out);
                let first = LaunchView {
                    kernel: self.stats@,
                    stage: stage@,
                    grid: plane(self.frames as u32, 32),
                    block: line(32),
                    scalars: seq![self.frames as u32],
                    bindings: views_of(stats_args),
                };
                let second = LaunchView {
                    kernel: self.silu@,
                    stage: stage@,
                    grid: line(steps(self.rows * self.channels, 256) as u32),
                    block: line(256),
                    scalars: seq![self.frames as u32],
                    bindings: views_of(silu_args),
                };
                match result {
                    Ok((a, b)) => launches(Ok(a), first, stats_args) && launches(
                        b,
                        second,
                        silu_args,
                    ),
                    Err(e) => launches(Err(e), first, stats_args),
                }
            }),
    {
        proof {
            lemma_product(self.rows as int, self.channels as int);
        }
        let elements: usize = self.rows * self.channels;
        let bytes: usize = elements * 2;
        let stats_bytes: usize = self.frames * 256;
        let mut args = Args::new(x, bytes);
        args.push(stats, stats_bytes);
        assert(args.all() =~= self.stats_args(x, stats));
        let first = checked(
            &self.stats,
            stage,
            Extent { x: self.frames as u32, y: 32, z: 1 },
            Extent { x: 32, y: 1, z: 1 },
            self.frames as u32,
            args,
        )?;
        let mut args = Args::new(x, bytes);
        args.push(stats, stats_bytes);
        args.push(gamma, self.channels * 4);
        args.push(beta, self.channels * 4);
        args.push(out, bytes);
        assert(args.all() =~= self.silu_args(x, gamma, beta, stats, out));
        let second = checked(
            &self.silu,
            stage,
            Extent { x: steps_of(elements, 256) as u32, y: 1, z: 1 },
            Extent { x: 256, y: 1, z: 1 },
            self.frames as u32,
            args,
        );
        Ok((first, second))
    }
}

/// What a matmul of `m` rows binds: rows, weights of `weight` bytes an element, a bias per column in
/// single precision, and the output, rows and output of `elem` bytes an element.
pub open spec fn matmul_args(
    m: int,
    k: int,
    n: int,
    elem: int,
    weight: int,
    a: BufferRef,
    w: BufferRef,
    b: BufferRef,
    out: BufferRef,
) -> Seq<Arg> {
    seq![arg(a, m * k * elem), arg(w, n * k * weight), arg(b, n * 4), arg(out, m * n * elem)]
}

fn matmul_args_of(
    m: usize,
    k: usize,
    n: usize,
    elem: usize,
    weight: usize,
    a: BufferRef,
    w: BufferRef,
    b: BufferRef,
    out: BufferRef,
) -> (args: Args)
    requires
        elem == 2 || elem == 4,
        weight == 2 || weight == 4,
        countable(
            matmul_args(
                m as int,
                k as int,
                n as int,
                elem as int,
                weight as int,
                a,
                w,
                b,
                out,
            ),
        ),
    ensures
        args.wf(),
        args.all() == matmul_args(
            m as int,
            k as int,
            n as int,
            elem as int,
            weight as int,
            a,
            w,
            b,
            out,
        ),
{
    let ghost want = matmul_args(
        m as int,
        k as int,
        n as int,
        elem as int,
        weight as int,
        a,
        w,
        b,
        out,
    );
    proof {
        lemma_product(m as int, k as int);
        lemma_product(n as int, k as int);
        lemma_product(m as int, n as int);
        assert(want[0].need == m * k * elem && want[1].need == n * k * weight);
        assert(want[2].need == n * 4 && want[3].need == m * n * elem);
        assert(m * k <= m * k * elem && m * n <= m * n * elem && n * k <= n * k * weight)
            by (nonlinear_arith)
            requires
                elem >= 1,
                weight >= 1,
                m * k >= 0,
                n * k >= 0,
                m * n >= 0,
        ;
    }
    let mut args = Args::new(a, m * k * elem);
    args.push(w, n * k * weight);
    args.push(b, n * 4);
    args.push(out, m * n * elem);
    assert(args.all() =~= want);
    args
}

/// A kernel configured by its K and its N alone.
pub open spec fn sized_kernel(
    module: Seq<char>,
    stem: Seq<char>,
    k_key: Seq<char>,
    k: int,
    n_key: Seq<char>,
    n: int,
) -> SpecializationView {
    let ns = namespace(stem);
    SpecializationView {
        module,
        symbol: "h3_"@ + stem,
        config: seq![count_of(ns, k_key, k), count_of(ns, n_key, n)],
    }
}

fn sized(module: &str, stem: &str, k_key: &str, k: usize, n_key: &str, n: usize) -> (kernel:
    Specialization)
    ensures
        kernel@ == sized_kernel(module@, stem@, k_key@, k as int, n_key@, n as int),
{
    let ns = text::cat3("h3.", stem, ".");
    let mut cfg: compile::Cfg = Vec::new();
    compile::set_count(&mut cfg, ns.as_str(), k_key, k);
    compile::set_count(&mut cfg, ns.as_str(), n_key, n);
    let kernel = Specialization {
        module: String::from_str(module),
        symbol: text::cat2("h3_", stem),
        config: cfg,
    };
    assert(kernel@.config =~= sized_kernel(
        module@,
        stem@,
        k_key@,
        k as int,
        n_key@,
        n as int,
    ).config);
    kernel
}

/// A biased matmul with halves in and out: the encoder's 1x1 shortcuts and its posterior head.
#[derive(Debug)]
pub struct Matmul {
    pub kernel: Specialization,
    pub k_size: usize,
    pub n_size: usize,
}

impl Matmul {
    pub fn build(k_size: usize, n_size: usize) -> (matmul: Self)
        ensures
            matmul.kernel@ == sized_kernel(
                "matmul_bias_f16_wmma_af16_cf16"@,
                "matmul_bias_f16_wmma_af16_cf16"@,
                "k_size"@,
                k_size as int,
                "n_size"@,
                n_size as int,
            ),
            matmul.k_size == k_size,
            matmul.n_size == n_size,
    {
        let stem: &str = "matmul_bias_f16_wmma_af16_cf16";
        Matmul { kernel: sized(stem, stem, "k_size", k_size, "n_size", n_size), k_size, n_size }
    }

    pub open spec fn args(
        &self,
        rows: int,
        a: BufferRef,
        w: BufferRef,
        b: BufferRef,
        out: BufferRef,
    ) -> Seq<Arg> {
        matmul_args(rows, self.k_size as int, self.n_size as int, 2, 2, a, w, b, out)
    }

    pub fn run<'a>(
        &'a self,
        stage: &'a str,
        rows: usize,
        a: BufferRef,
        w: BufferRef,
        b: BufferRef,
        out: BufferRef,
    ) -> (result: Result<Launch<'a>>)
        requires
            countable(self.args(rows as int, a, w, b, out)),
        ensures
            ({
                let args = self.args(rows as int, a, w, b, out);
                launches(
                    result,
                    LaunchView {
                        kernel: self.kernel@,
                        stage: stage@,
                        grid: plane((self.n_size / 64) as u32, steps(rows as int, 64) as u32),
                        block: line(256),
                        scalars: seq![rows as u32],
                        bindings: views_of(args),
                    },
                    args,
                )
            }),
    {
        let args = matmul_args_of(rows, self.k_size, self.n_size, 2, 2, a, w, b, out);
        checked(
            &self.kernel,
            stage,
            Extent { x: (self.n_size / 64) as u32, y: steps_of(rows, 64) as u32, z: 1 },
            Extent { x: 256, y: 1, z: 1 },
            rows as u32,
            args,
        )
    }
}

/// `out[m][n] = x[m][k] . w[n][k] + b`, one lane per output element.
///
/// The plain matmul the heads and the patch projections use: no tiling, no quantisation, just the
/// arithmetic in the order the checkpoint stores it.
#[derive(Debug)]
pub struct MatmulF32 {
    pub kernel: Specialization,
    pub k: usize,
    pub n: usize,
}

impl MatmulF32 {
    pub fn build(k: usize, n: usize) -> (matmul: Self)
        ensures
            matmul.kernel@ == sized_kernel(
                "matmul_f32"@,
                "matmul_f32"@,
                "k"@,
                k as int,
                "n"@,
                n as int,
            ),
            matmul.k == k,
            matmul.n == n,
    {
        MatmulF32 { kernel: sized("matmul_f32", "matmul_f32", "k", k, "n", n), k, n }
    }

    pub open spec fn args(
        &self,
        m: int,
        x: BufferRef,
        w: BufferRef,
        b: BufferRef,
        out: BufferRef,
    ) -> Seq<Arg> {
        matmul_args(m, self.k as int, self.n as int, 4, 4, x, w, b, out)
    }

    pub open spec fn launch(&self, stage: Seq<char>, m: usize, args: Seq<Arg>) -> LaunchView {
        LaunchView {
            kernel: self.kernel@,
            stage,
            grid: plane(steps(self.n as int, 256) as u32, m as u32),
            block: line(model::THREADS),
            scalars: seq![m as u32],
            bindings: views_of(args),
        }
    }

    pub fn run<'a>(
        &'a self,
        stage: &'a str,
        m: usize,
        x: BufferRef,
        w: BufferRef,
        b: BufferRef,
        out: BufferRef,
    ) -> (result: Result<Launch<'a>>)
        requires
            countable(self.args(m as int, x, w, b, out)),
        ensures
            ({
                let args = self.args(m as int, x, w, b, out);
                launches(result, self.launch(stage@, m, args), args)
            }),
    {
        let args = matmul_args_of(m, self.k, self.n, 4, 4, x, w, b, out);
        checked(
            &self.kernel,
            stage,
            Extent { x: steps_of(self.n, 256) as u32, y: m as u32, z: 1 },
            Extent { x: model::THREADS, y: 1, z: 1 },
            m as u32,
            args,
        )
    }
}

pub open spec fn axpy_kernel_of(a: Seq<char>, b: Seq<char>) -> SpecializationView {
    let ns = "h3.axpy_f32."@;
    SpecializationView {
        module: "axpy_f32"@,
        symbol: "h3_axpy_f32"@,
        config: seq![(ns + "a"@, a), (ns + "b"@, b)],
    }
}

/// The kernel of `y = a x + b y`. The coefficients are compiled in, so each pair is its own kernel.
pub fn axpy_kernel(a: &str, b: &str) -> (kernel: Specialization)
    ensures
        kernel@ == axpy_kernel_of(a@, b@),
{
    let ns: &str = "h3.axpy_f32.";
    let mut cfg: compile::Cfg = Vec::new();
    compile::set(&mut cfg, ns, "a", String::from_str(a));
    compile::set(&mut cfg, ns, "b", String::from_str(b));
    let kernel = Specialization {
        module: String::from_str("axpy_f32"),
        symbol: String::from_str("h3_axpy_f32"),
        config: cfg,
    };
    assert(kernel@.config =~= axpy_kernel_of(a@, b@).config);
    kernel
}

pub open spec fn axpy_args(count: int, x: BufferRef, y: BufferRef) -> Seq<Arg> {
    seq![arg(x, count * 4), arg(y, count * 4)]
}

/// `y = a x + b y`, elementwise.
pub fn axpy<'a>(
    kernel: &'a Specialization,
    stage: &'a str,
    count: usize,
    x: BufferRef,
    y: BufferRef,
) -> (result: Result<Launch<'a>>)
    requires
        count * 4 <= usize::MAX,
    ensures
        ({
            let args = axpy_args(count as int, x, y);
            launches(
                result,
                LaunchView {
                    kernel: kernel@,
                    stage: stage@,
                    grid: line(steps(count as int, 256) as u32),
                    block: line(model::THREADS),
                    scalars: seq![count as u32],
                    bindings: views_of(args),
                },
                args,
            )
        }),
{
    let mut args = Args::new(x, count * 4);
    args.push(y, count * 4);
    assert(args.all() =~= axpy_args(count as int, x, y));
    checked(
        kernel,
        stage,
        Extent { x: steps_of(count, 256) as u32, y: 1, z: 1 },
        Extent { x: model::THREADS, y: 1, z: 1 },
        count as u32,
        args,
    )
}

/// What the vision tower's GEMM does after the multiply.
#[derive(Clone, Copy, Debug, PartialEq, Eq, Structural)]
pub enum Kind {
    Bias,
    /// the tanh approximation, which the tower's MLP uses
    Gelu,
    /// the error function, which the mergers use
    GeluErf,
    /// adds into an existing half-precision stream
    Resid,
}

impl Kind {
    pub open spec fn named(self) -> Seq<char> {
        match self {
            Kind::Bias => "bias"@,
            Kind::Gelu => "gelu"@,
            Kind::GeluErf => "gelu_erf"@,
            Kind::Resid => "resid"@,
        }
    }

    pub fn name(self) -> (name: &'static str)
        ensures
            name@ == self.named(),
    {
        match self {
            Kind::Bias => "bias",
            Kind::Gelu => "gelu",
            Kind::GeluErf => "gelu_erf",
            Kind::Resid => "resid",
        }
    }
}

/// The vision tower's GEMM family, whose weight rows are stored sixteen bits wide.
///
/// The kind decides what happens after the multiply. The two GELUs are not the same function and are not
/// interchangeable.
#[derive(Debug)]
pub struct Matmul16 {
    pub kernel: Specialization,
    pub k: usize,
    pub n: usize,
    pub resid: bool,
}

pub open spec fn matmul16_kernel(kind: Kind, k: int, n: int) -> SpecializationView {
    let stem = "matmul_"@ + kind.named() + "_bf16_wmma"@;
    sized_kernel(
        if kind == Kind::Resid {
            stem
        } else {
            "matmul_bf16_family"@
        },
        stem,
        "k_size"@,
        k,
        "n_size"@,
        n,
    )
}

impl Matmul16 {
    pub fn build(kind: Kind, k: usize, n: usize) -> (matmul: Self)
        ensures
            matmul.kernel@ == matmul16_kernel(kind, k as int, n as int),
            matmul.k == k,
            matmul.n == n,
            matmul.resid == (kind == Kind::Resid),
    {
        let stem = text::cat3("matmul_", kind.name(), "_bf16_wmma");
        let resid: bool = match kind {
            Kind::Resid => true,
            _ => false,
        };
        let module: &str = if resid {
            stem.as_str()
        } else {
            "matmul_bf16_family"
        };
        Matmul16 {
            kernel: sized(module, stem.as_str(), "k_size", k, "n_size", n),
            k,
            n,
            resid,
        }
    }

    /// What a launch binds: the residual form reads and writes the half-precision stream, the three that
    /// end a chain take singles in and out.
    pub open spec fn args(
        &self,
        m: int,
        a: BufferRef,
        w: BufferRef,
        bias: BufferRef,
        out: BufferRef,
        lambda: Option<BufferRef>,
    ) -> Seq<Arg> {
        let elem = if self.resid {
            2int
        } else {
            4
        };
        matmul_args(m, self.k as int, self.n as int, elem, 2, a, w, bias, out) + match lambda {
            Some(l) => seq![arg(l, self.n * 4)],
            None => Seq::empty(),
        }
    }

    pub open spec fn launch(&self, stage: Seq<char>, m: usize, args: Seq<Arg>) -> LaunchView {
        LaunchView {
            kernel: self.kernel@,
            stage,
            grid: plane((self.n / 64) as u32, steps(m as int, 64) as u32),
            block: line(256),
            scalars: seq![m as u32],
            bindings: views_of(args),
        }
    }

    /// `lambda` is the residual form's per-column scale, and is required by exactly that form.
    pub fn run<'a>(
        &'a self,
        stage: &'a str,
        m: usize,
        a: BufferRef,
        w: BufferRef,
        bias: BufferRef,
        out: BufferRef,
        lambda: Option<BufferRef>,
    ) -> (result: Result<Launch<'a>>)
        requires
            self.resid == lambda is Some,
            countable(self.args(m as int, a, w, bias, out, lambda)),
        ensures
            ({
                let args = self.args(m as int, a, w, bias, out, lambda);
                launches(result, self.launch(stage@, m, args), args)
            }),
    {
        let elem: usize = if self.resid {
            2
        } else {
            4
        };
        let ghost want = self.args(m as int, a, w, bias, out, lambda);
        proof {
            let base = matmul_args(
                m as int,
                self.k as int,
                self.n as int,
                elem as int,
                2,
                a,
                w,
                bias,
                out,
            );
            assert forall|i: int| 0 <= i < base.len() implies 0 <= (#[trigger] base[i]).need
                <= usize::MAX by {
                assert(want[i] == base[i]);
            }
            assert(want[2].need == self.n * 4);
        }
        let mut args = matmul_args_of(m, self.k, self.n, elem, 2, a, w, bias, out);
        if let Some(l) = lambda {
            args.push(l, self.n * 4);
        }
        assert(args.all() =~= want);
        checked(
            &self.kernel,
            stage,
            Extent { x: (self.n / 64) as u32, y: steps_of(m, 64) as u32, z: 1 },
            Extent { x: 256, y: 1, z: 1 },
            m as u32,
            args,
        )
    }
}

/// The modulated RMS norm:
/// `x[row] = rmsnorm(x[row]) * weight * (1 + scale[cls[row]]) + shift[cls[row]]`.
///
/// Its table is a scale row and a shift row per class.
#[derive(Debug)]
pub struct NormMod {
    pub kernel: Specialization,
    pub width: usize,
    pub lanes: usize,
    pub classes: usize,
}

pub open spec fn norm_mod_kernel(
    width: int,
    lanes: int,
    eps: Seq<char>,
    classes: int,
) -> SpecializationView {
    let ns = "h3.norm_mod_f32."@;
    SpecializationView {
        module: "norm_mod_f32"@,
        symbol: "h3_norm_mod_f32"@,
        config: seq![
            count_of(ns, "width"@, width),
            count_of(ns, "lanes"@, lanes),
            (ns + "eps"@, eps),
            count_of(ns, "classes"@, classes),
        ],
    }
}

impl NormMod {
    pub fn build<
        L: Fn(usize) -> Option<usize>,
        F: Fn(usize, usize, usize) -> u32,
        M: Fn(usize, usize, usize, usize) -> u32,
        G: Fn(usize, u32, usize) -> u32,
    >(tuning: &Tuning<L, F, M, G>, width: usize, eps: &str, classes: usize) -> (result: Result<Self>)
        requires
            tuning.measured(),
        ensures
            match result {
                Ok(norm) => {
                    &&& tuning.lanes_for(width) == Some(norm.lanes)
                    &&& norm.kernel@ == norm_mod_kernel(
                        width as int,
                        norm.lanes as int,
                        eps@,
                        classes as int,
                    )
                    &&& norm.width == width
                    &&& norm.classes == classes
                },
                Err(e) => {
                    &&& tuning.lanes_for(width) is None
                    &&& compile::says(
                        e,
                        text::phrase_of("no norm_mod lane count for width "@, width as nat, ""@),
                    )
                },
            },
    {
        let lanes: usize = match (tuning.lanes)(width) {
            Some(lanes) => lanes,
            None => {
                return Err(
                    Error::Io(text::phrase("no norm_mod lane count for width ", width, "")),
                );
            },
        };
        let ns: &str = "h3.norm_mod_f32.";
        let mut cfg: compile::Cfg = Vec::new();
        compile::set_count(&mut cfg, ns, "width", width);
        compile::set_count(&mut cfg, ns, "lanes", lanes);
        compile::set(&mut cfg, ns, "eps", String::from_str(eps));
        compile::set_count(&mut cfg, ns, "classes", classes);
        let kernel = Specialization {
            module: String::from_str("norm_mod_f32"),
            symbol: String::from_str("h3_norm_mod_f32"),
            config: cfg,
        };
        assert(kernel@.config =~= norm_mod_kernel(
            width as int,
            lanes as int,
            eps@,
            classes as int,
        ).config);
        Ok(NormMod { kernel, width, lanes, classes })
    }

    pub open spec fn args(
        &self,
        rows: int,
        x: BufferRef,
        weight: BufferRef,
        table: BufferRef,
        cls: ClassRows,
    ) -> Seq<Arg> {
        seq![
            arg(x, rows * self.width * 4),
            arg(weight, self.width * 4),
            arg(table, self.classes * self.width * 8),
            arg(cls.binding(), rows * 4),
        ]
    }

    pub open spec fn launch(&self, stage: Seq<char>, rows: usize, args: Seq<Arg>) -> LaunchView {
        LaunchView {
            kernel: self.kernel@,
            stage,
            grid: line(rows as u32),
            block: line(self.lanes as u32),
            scalars: seq![rows as u32],
            bindings: views_of(args),
        }
    }

    pub fn run<'a>(
        &'a self,
        stage: &'a str,
        rows: usize,
        x: BufferRef,
        weight: BufferRef,
        table: BufferRef,
        cls: ClassRows,
    ) -> (result: Result<Launch<'a>>)
        requires
            countable(self.args(rows as int, x, weight, table, cls)),
        ensures
            ({
                let args = self.args(rows as int, x, weight, table, cls);
                let launch = self.launch(stage@, rows, args);
                match cls.refused(stage@, rows as int, self.classes as int) {
                    Some(words) => comes_out(result, Step { launch, trouble: Some(words) }),
                    None => launches(result, launch, args),
                }
            }),
    {
        let ghost want = self.args(rows as int, x, weight, table, cls);
        proof {
            lemma_product(rows as int, self.width as int);
            lemma_product(self.classes as int, self.width as int);
            assert(want[0].need == rows * self.width * 4 && want[1].need == self.width * 4);
            assert(want[2].need == self.classes * self.width * 8 && want[3].need == rows * 4);
        }
        let mut args = Args::new(x, rows * self.width * 4);
        args.push(weight, self.width * 4);
        args.push(table, self.classes * self.width * 8);
        args.push(cls.against(stage, rows, self.classes)?, rows * 4);
        assert(args.all() =~= want);
        checked(
            &self.kernel,
            stage,
            Extent { x: rows as u32, y: 1, z: 1 },
            Extent { x: self.lanes as u32, y: 1, z: 1 },
            rows as u32,
            args,
        )
    }
}

/// LayerNorm reading a half-precision stream and writing singles, which is what the vision tower's blocks
/// take.
#[derive(Debug)]
pub struct LayerNorm16 {
    pub kernel: Specialization,
    pub width: usize,
}

pub open spec fn layernorm16_kernel(width: int, eps: Seq<char>) -> SpecializationView {
    let ns = "h3.layernorm_f16_f32."@;
    SpecializationView {
        module: "layernorm_f16_f32"@,
        symbol: "h3_layernorm_f16_f32"@,
        config: seq![count_of(ns, "width"@, width), (ns + "eps"@, eps)],
    }
}

impl LayerNorm16 {
    pub fn build(width: usize, eps: &str) -> (norm: Self)
        ensures
            norm.kernel@ == layernorm16_kernel(width as int, eps@),
            norm.width == width,
    {
        let ns: &str = "h3.layernorm_f16_f32.";
        let mut cfg: compile::Cfg = Vec::new();
        compile::set_count(&mut cfg, ns, "width", width);
        compile::set(&mut cfg, ns, "eps", String::from_str(eps));
        let kernel = Specialization {
            module: String::from_str("layernorm_f16_f32"),
            symbol: String::from_str("h3_layernorm_f16_f32"),
            config: cfg,
        };
        assert(kernel@.config =~= layernorm16_kernel(width as int, eps@).config);
        LayerNorm16 { kernel, width }
    }

    pub open spec fn args(
        &self,
        rows: int,
        x16: BufferRef,
        w: BufferRef,
        b: BufferRef,
        out32: BufferRef,
    ) -> Seq<Arg> {
        seq![
            arg(x16, rows * self.width * 2),
            arg(w, self.width * 4),
            arg(b, self.width * 4),
            arg(out32, rows * self.width * 4),
        ]
    }

    pub open spec fn launch(&self, rows: usize, args: Seq<Arg>) -> LaunchView {
        LaunchView {
            kernel: self.kernel@,
            stage: "vision layernorm"@,
            grid: line(rows as u32),
            block: line(32),
            scalars: seq![rows as u32],
            bindings: views_of(args),
        }
    }

    pub fn run<'a>(
        &'a self,
        rows: usize,
        x16: BufferRef,
        w: BufferRef,
        b: BufferRef,
        out32: BufferRef,
    ) -> (result: Result<Launch<'a>>)
        requires
            countable(self.args(rows as int, x16, w, b, out32)),
        ensures
            ({
                let args = self.args(rows as int, x16, w, b, out32);
                launches(result, self.launch(rows, args), args)
            }),
    {
        let ghost want = self.args(rows as int, x16, w, b, out32);
        proof {
            lemma_product(rows as int, self.width as int);
            assert(want[0].need == rows * self.width * 2 && want[1].need == self.width * 4);
            assert(want[3].need == rows * self.width * 4);
        }
        let mut args = Args::new(x16, rows * self.width * 2);
        args.push(w, self.width * 4);
        args.push(b, self.width * 4);
        args.push(out32, rows * self.width * 4);
        assert(args.all() =~= want);
        checked(
            &self.kernel,
            "vision layernorm",
            Extent { x: rows as u32, y: 1, z: 1 },
            Extent { x: 32, y: 1, z: 1 },
            rows as u32,
            args,
        )
    }
}

// Launches in sequence.

/// What stands in the way of the first step that does not come out.
pub open spec fn failed(steps: Seq<Step>) -> Option<Seq<char>>
    decreases steps.len(),
{
    if steps.len() == 0 {
        None
    } else if failed(steps.drop_last()) is Some {
        failed(steps.drop_last())
    } else {
        steps.last().trouble
    }
}

/// The launches made until a step does not come out.
pub open spec fn made(steps: Seq<Step>) -> Seq<LaunchView>
    decreases steps.len(),
{
    if steps.len() == 0 {
        Seq::empty()
    } else if failed(steps) is Some {
        made(steps.drop_last())
    } else {
        made(steps.drop_last()).push(steps.last().launch)
    }
}

/// The launches a list holds.
pub open spec fn seen(launches: Seq<Launch>) -> Seq<LaunchView> {
    Seq::new(launches.len(), |i: int| launches[i]@)
}

/// Launches and how they ended, as steps come out.
pub open spec fn ran(launches: Seq<Launch>, outcome: Result<()>, steps: Seq<Step>) -> bool {
    &&& seen(launches) == made(steps)
    &&& match failed(steps) {
        Some(words) => outcome matches Err(e) && compile::says(e, words),
        None => outcome is Ok,
    }
}

/// Where every step comes out, every launch is made, in order.
pub proof fn lemma_all_made(steps: Seq<Step>)
    requires
        forall|i: int| 0 <= i < steps.len() ==> (#[trigger] steps[i]).trouble is None,
    ensures
        failed(steps) is None,
        made(steps) == Seq::new(steps.len(), |i: int| steps[i].launch),
    decreases steps.len(),
{
    if steps.len() > 0 {
        let short = steps.drop_last();
        assert forall|i: int| 0 <= i < short.len() implies (#[trigger] short[i]).trouble is None by {
            assert(short[i] == steps[i]);
        }
        lemma_all_made(short);
    }
    assert(made(steps) =~= Seq::new(steps.len(), |i: int| steps[i].launch));
}

/// Launches made one after the other, up to the first that is refused.
pub struct Run<'a> {
    launches: Vec<Launch<'a>>,
    refused: Option<Error>,
    steps: Ghost<Seq<Step>>,
}

impl<'a> Run<'a> {
    /// The steps taken so far.
    pub closed spec fn taken(&self) -> Seq<Step> {
        self.steps@
    }

    pub closed spec fn wf(&self) -> bool {
        &&& seen(self.launches@) == made(self.steps@)
        &&& match failed(self.steps@) {
            Some(words) => self.refused matches Some(e) && compile::says(e, words),
            None => self.refused is None,
        }
    }

    pub(crate) fn new() -> (run: Self)
        ensures
            run.wf(),
            run.taken() == Seq::<Step>::empty(),
    {
        let run = Run { launches: Vec::new(), refused: None, steps: Ghost(Seq::empty()) };
        assert(seen(run.launches@) =~= made(run.steps@));
        run
    }

    pub(crate) fn take(&mut self, result: Result<Launch<'a>>, step: Ghost<Step>)
        requires
            old(self).wf(),
            comes_out(result, step@),
        ensures
            final(self).wf(),
            final(self).taken() == old(self).taken().push(step@),
    {
        let ghost before = self.steps@;
        self.steps = Ghost(self.steps@.push(step@));
        assert(self.steps@.drop_last() =~= before);
        if self.refused.is_none() {
            match result {
                Ok(launch) => {
                    let ghost was = self.launches@;
                    self.launches.push(launch);
                    assert(seen(self.launches@) =~= seen(was).push(launch@));
                },
                Err(e) => {
                    self.refused = Some(e);
                },
            }
        }
    }

    pub(crate) fn finish(self) -> (out: (Vec<Launch<'a>>, Result<()>))
        requires
            self.wf(),
        ensures
            ran(out.0@, out.1, self.taken()),
    {
        match self.refused {
            Some(e) => (self.launches, Err(e)),
            None => (self.launches, Ok(())),
        }
    }
}

} // verus!
