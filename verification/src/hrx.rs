//! What a launch or a transfer asks of the GPU runtime, and when it is refused.
//!
//! A device allocation has no host-visible address, so a buffer is its handle and its size, and a
//! kernel's argument is a view of one. Nothing here talks to the device: a transfer that fits becomes
//! the range to copy, a launch that matches its kernel becomes the constants to hand over.
use vstd::prelude::*;
use vstd::string::StringExecFns;

use crate::bytes;
use crate::text;

verus! {

/// What the runtime, or a check in front of it, has to say.
#[derive(Debug)]
pub struct Error(pub String);

pub type Result<T> = std::result::Result<T, Error>;

/// A part of a device allocation, as a kernel argument names it.
#[derive(Clone, Copy, Debug, PartialEq, Eq, Structural)]
pub struct BufferRef {
    pub buffer: u64,
    pub offset: usize,
    pub length: usize,
}

/// A device allocation.
#[derive(Debug)]
pub struct Buffer {
    raw: u64,
    bytes: usize,
}

/// The size an allocation of this many bytes gets: every argument has an address.
pub open spec fn allocated(bytes: int) -> int {
    if bytes < 1 {
        1
    } else {
        bytes
    }
}

impl Buffer {
    pub closed spec fn handle(&self) -> u64 {
        self.raw
    }

    pub closed spec fn size(&self) -> usize {
        self.bytes
    }

    /// The allocation the runtime gave a handle to when this many bytes were asked for.
    pub fn new(raw: u64, bytes: usize) -> (buffer: Self)
        ensures
            buffer.handle() == raw,
            buffer.size() == allocated(bytes as int),
    {
        Buffer {
            raw,
            bytes: if bytes < 1 {
                1
            } else {
                bytes
            },
        }
    }

    pub fn bytes(&self) -> (bytes: usize)
        ensures
            bytes == self.size(),
    {
        self.bytes
    }

    /// The whole allocation as a kernel argument.
    pub open spec fn whole(&self) -> BufferRef {
        BufferRef { buffer: self.handle(), offset: 0, length: self.size() }
    }

    /// Part of the allocation as a kernel argument.
    pub open spec fn part(&self, offset: usize, length: usize) -> BufferRef {
        BufferRef { buffer: self.handle(), offset, length }
    }

    pub fn binding(&self) -> (view: BufferRef)
        ensures
            view == self.whole(),
    {
        BufferRef { buffer: self.raw, offset: 0, length: self.bytes }
    }

    /// A binding into part of the allocation: a kernel is handed a view at a row offset.
    pub fn slice(&self, offset: usize, length: usize) -> (view: BufferRef)
        requires
            offset + length <= self.size(),
        ensures
            view == self.part(offset, length),
    {
        BufferRef { buffer: self.raw, offset, length }
    }
}

/// What an executable says of one of its exports.
#[derive(Clone, Copy, Debug)]
pub struct ExportInfo {
    pub flags: u32,
    pub constant_byte_length: u32,
    pub binding_count: u32,
    pub parameter_count: u32,
}

/// A loaded kernel.
#[derive(Debug)]
pub struct Kernel {
    executable: u64,
    ordinal: u32,
    info: ExportInfo,
    symbol: String,
}

impl Kernel {
    pub closed spec fn export(&self) -> ExportInfo {
        self.info
    }

    pub closed spec fn named(&self) -> Seq<char> {
        self.symbol@
    }

    pub closed spec fn place(&self) -> (u64, u32) {
        (self.executable, self.ordinal)
    }

    /// The export `symbol` of an executable, at the ordinal it was found under.
    pub fn new(executable: u64, ordinal: u32, info: ExportInfo, symbol: String) -> (kernel: Self)
        ensures
            kernel.export() == info,
            kernel.named() == symbol@,
            kernel.place() == (executable, ordinal),
    {
        Kernel { executable, ordinal, info, symbol }
    }

    pub fn info(&self) -> (info: &ExportInfo)
        ensures
            *info == self.export(),
    {
        &self.info
    }

    pub fn symbol(&self) -> (symbol: &str)
        ensures
            symbol@ == self.named(),
    {
        self.symbol.as_str()
    }
}

/// The three extents of a grid or of a workgroup.
#[derive(Clone, Copy, Debug, PartialEq, Eq, Structural)]
pub struct Extent {
    pub x: u32,
    pub y: u32,
    pub z: u32,
}

#[derive(Clone, Copy, Debug, PartialEq, Eq, Structural)]
pub struct DispatchConfig {
    pub workgroup_count: Extent,
    pub workgroup_size: Extent,
    pub subgroup_size: u32,
}

/// A launch the runtime can be asked for as it stands.
#[derive(Debug)]
pub struct Dispatch {
    pub executable: u64,
    pub ordinal: u32,
    pub config: DispatchConfig,
    pub constants: Vec<u8>,
    pub bindings: Vec<BufferRef>,
}

/// The most constant bytes a launch carries.
pub const MAX_CONSTANTS: usize = 256;

/// Why a launch does not match its kernel.
pub enum Mismatch {
    /// it takes another number of buffers
    Bindings,
    /// it wants more constant bytes than a launch carries
    Constants,
    /// its constant bytes are no multiple of the scalars
    Uneven,
    /// its constant bytes put each scalar in a slot of a width there is no scalar of
    Slot,
    /// it wants constants and there are none
    Missing,
}

/// The first thing in which a launch does not match its kernel.
pub open spec fn mismatch(info: ExportInfo, scalars: int, bindings: int) -> Option<Mismatch> {
    let size = info.constant_byte_length as int;
    if bindings != info.binding_count {
        Some(Mismatch::Bindings)
    } else if size > MAX_CONSTANTS {
        Some(Mismatch::Constants)
    } else if scalars > 0 && size % scalars != 0 {
        Some(Mismatch::Uneven)
    } else if scalars > 0 && size != 4 * scalars && size != 8 * scalars {
        Some(Mismatch::Slot)
    } else if scalars == 0 && size != 0 {
        Some(Mismatch::Missing)
    } else {
        None
    }
}

/// What is said of a launch that does not match its kernel.
pub open spec fn mismatch_text(
    why: Mismatch,
    symbol: Seq<char>,
    info: ExportInfo,
    scalars: int,
    bindings: int,
) -> Seq<char> {
    let size = info.constant_byte_length as nat;
    symbol + match why {
        Mismatch::Bindings => text::phrase2_of(
            " takes "@,
            info.binding_count as nat,
            " buffer arguments, "@,
            bindings as nat,
            " given"@,
        ),
        Mismatch::Constants => text::phrase_of(" wants "@, size, " constant bytes"@),
        Mismatch::Uneven => text::phrase2_of(
            " wants "@,
            size,
            " constant bytes, not divisible by "@,
            scalars as nat,
            " scalars"@,
        ),
        Mismatch::Slot => text::phrase_of(
            " implies a "@,
            (size as int / scalars) as nat,
            "-byte scalar slot"@,
        ),
        Mismatch::Missing => text::phrase_of(" wants "@, size, " constant bytes, none given"@),
    }
}

/// Scalars packed little-endian into slots of `width` bytes, the rest of each slot zero.
pub open spec fn packed_constants(scalars: Seq<u32>, width: int) -> Seq<u8> {
    Seq::new(
        (scalars.len() * width) as nat,
        |b: int|
            if b % width < 4 {
                bytes::le32(scalars[b / width])[b % width]
            } else {
                0u8
            },
    )
}

proof fn lemma_packed_grows(scalars: Seq<u32>, i: int, width: int)
    requires
        0 <= i < scalars.len(),
        width == 4 || width == 8,
    ensures
        packed_constants(scalars.take(i + 1), width) == packed_constants(scalars.take(i), width)
            + bytes::le32(scalars[i]) + Seq::new((width - 4) as nat, |k: int| 0u8),
{
    let short = scalars.take(i);
    let long = scalars.take(i + 1);
    if width == 4 {
        assert(short.len() * width == 4 * i && long.len() * width == 4 * i + 4) by (nonlinear_arith)
            requires
                width == 4,
                short.len() == i,
                long.len() == i + 1,
        ;
        assert(packed_constants(long, 4) =~= packed_constants(short, 4) + bytes::le32(scalars[i])
            + Seq::new(0, |k: int| 0u8));
    } else {
        assert(short.len() * width == 8 * i && long.len() * width == 8 * i + 8) by (nonlinear_arith)
            requires
                width == 8,
                short.len() == i,
                long.len() == i + 1,
        ;
        assert(packed_constants(long, 8) =~= packed_constants(short, 8) + bytes::le32(scalars[i])
            + Seq::new(4, |k: int| 0u8));
    }
}

/// The range of a device allocation a transfer covers.
#[derive(Clone, Copy, Debug, PartialEq, Eq, Structural)]
pub struct Transfer {
    pub buffer: u64,
    pub offset: usize,
    pub length: usize,
}

/// The process's GPU device and its stream.
#[derive(Debug)]
pub struct Gpu {
    device: u64,
    stream: u64,
}

impl Gpu {
    pub closed spec fn handles(&self) -> (u64, u64) {
        (self.device, self.stream)
    }

    /// The first device of as many as the runtime counts, and a stream on it.
    pub fn open(count: i32, device: u64, stream: u64) -> (result: Result<Self>)
        ensures
            if count < 1 {
                result matches Err(e) && e.0@
                    == "no GPU device (is the HSA runtime on LD_LIBRARY_PATH? see docs/setup.md)"@
            } else {
                result matches Ok(gpu) && gpu.handles() == (device, stream)
            },
    {
        if count < 1 {
            return Err(
                Error(
                    String::from_str(
                        "no GPU device (is the HSA runtime on LD_LIBRARY_PATH? see docs/setup.md)",
                    ),
                ),
            );
        }
        Ok(Gpu { device, stream })
    }

    /// The range an upload at an offset writes; an upload of nothing writes none.
    pub fn h2d_at(&self, dst: &Buffer, offset: usize, src: &[u8]) -> (result: Result<
        Option<Transfer>,
    >)
        requires
            offset + src@.len() <= usize::MAX,
        ensures
            if src@.len() == 0 {
                result matches Ok(None)
            } else if offset + src@.len() > dst.size() {
                result matches Err(e) && e.0@ == text::phrase2_of(
                    "upload of "@,
                    src@.len(),
                    " bytes at "@,
                    offset as nat,
                    text::phrase_of(" overruns a "@, dst.size() as nat, "-byte allocation"@),
                )
            } else {
                result matches Ok(Some(t)) && t.buffer == dst.handle() && t.offset == offset
                    && t.length == src@.len()
            },
    {
        if src.len() == 0 {
            return Ok(None);
        }
        if offset + src.len() > dst.bytes {
            let tail = text::phrase(" overruns a ", dst.bytes, "-byte allocation");
            return Err(
                Error(
                    text::phrase2("upload of ", src.len(), " bytes at ", offset, tail.as_str()),
                ),
            );
        }
        Ok(Some(Transfer { buffer: dst.raw, offset, length: src.len() }))
    }

    /// The range an upload at the head of an allocation writes.
    pub fn h2d(&self, dst: &Buffer, src: &[u8]) -> (result: Result<Option<Transfer>>)
        ensures
            if src@.len() == 0 {
                result matches Ok(None)
            } else if src@.len() > dst.size() {
                result matches Err(e) && e.0@ == text::phrase2_of(
                    "upload of "@,
                    src@.len(),
                    " bytes at "@,
                    0,
                    text::phrase_of(" overruns a "@, dst.size() as nat, "-byte allocation"@),
                )
            } else {
                result matches Ok(Some(t)) && t.buffer == dst.handle() && t.offset == 0 && t.length
                    == src@.len()
            },
    {
        assert(src@.len() == src.len());
        self.h2d_at(dst, 0, src)
    }

    /// The range a read of `length` bytes from the head of an allocation covers.
    pub fn d2h(&self, src: &Buffer, length: usize) -> (result: Result<Option<Transfer>>)
        ensures
            if length == 0 {
                result matches Ok(None)
            } else if length > src.size() {
                result matches Err(e) && e.0@ == text::phrase2_of(
                    "read of "@,
                    length as nat,
                    " bytes from a "@,
                    src.size() as nat,
                    "-byte allocation"@,
                )
            } else {
                result matches Ok(Some(t)) && t.buffer == src.handle() && t.offset == 0 && t.length
                    == length
            },
    {
        if length == 0 {
            return Ok(None);
        }
        if length > src.bytes {
            return Err(
                Error(
                    text::phrase2(
                        "read of ",
                        length,
                        " bytes from a ",
                        src.bytes,
                        "-byte allocation",
                    ),
                ),
            );
        }
        Ok(Some(Transfer { buffer: src.raw, offset: 0, length }))
    }

    /// The range a read of `length` bytes from a view covers.
    pub fn d2h_ref(&self, src: BufferRef, length: usize) -> (result: Result<Option<Transfer>>)
        ensures
            if length == 0 {
                result matches Ok(None)
            } else if length > src.length {
                result matches Err(e) && e.0@ == text::phrase2_of(
                    "read of "@,
                    length as nat,
                    " bytes from a "@,
                    src.length as nat,
                    "-byte view"@,
                )
            } else {
                result matches Ok(Some(t)) && t.buffer == src.buffer && t.offset == src.offset
                    && t.length == length
            },
    {
        if length == 0 {
            return Ok(None);
        }
        if length > src.length {
            return Err(
                Error(
                    text::phrase2(
                        "read of ",
                        length,
                        " bytes from a ",
                        src.length,
                        "-byte view",
                    ),
                ),
            );
        }
        Ok(Some(Transfer { buffer: src.buffer, offset: src.offset, length }))
    }

    /// A launch, with the export's own metadata deciding how the constants are packed.
    ///
    /// `scalars` are the kernel's by-value arguments in declaration order and `bindings` its buffer
    /// arguments in declaration order. The export reports how many bytes of constants it wants and how
    /// many bindings it has; a mismatch is a caller error and is reported as one rather than launched.
    pub fn dispatch(
        &self,
        kernel: &Kernel,
        grid: Extent,
        block: Extent,
        scalars: &[u32],
        bindings: &[BufferRef],
    ) -> (result: Result<Dispatch>)
        ensures
            ({
                let info = kernel.export();
                match mismatch(info, scalars@.len() as int, bindings@.len() as int) {
                    Some(why) => result matches Err(e) && e.0@ == mismatch_text(
                        why,
                        kernel.named(),
                        info,
                        scalars@.len() as int,
                        bindings@.len() as int,
                    ),
                    None => {
                        &&& result matches Ok(d)
                        &&& (d.executable, d.ordinal) == kernel.place()
                        &&& d.config.workgroup_count == grid
                        &&& d.config.workgroup_size == block
                        &&& d.config.subgroup_size == 32
                        &&& d.bindings@ == bindings@
                        &&& d.constants@ == if scalars@.len() == 0 {
                            Seq::empty()
                        } else {
                            packed_constants(
                                scalars@,
                                info.constant_byte_length as int / scalars@.len() as int,
                            )
                        }
                    },
                }
            }),
    {
        let info = &kernel.info;
        let symbol = kernel.symbol.as_str();
        let size: usize = info.constant_byte_length as usize;
        let n: usize = scalars.len();
        if bindings.len() != info.binding_count as usize {
            let tail = text::phrase2(
                " takes ",
                info.binding_count as usize,
                " buffer arguments, ",
                bindings.len(),
                " given",
            );
            return Err(Error(text::cat2(symbol, tail.as_str())));
        }
        if size > MAX_CONSTANTS {
            let tail = text::phrase(" wants ", size, " constant bytes");
            return Err(Error(text::cat2(symbol, tail.as_str())));
        }
        let mut constants: Vec<u8> = Vec::new();
        if n > 0 {
            if size % n != 0 {
                let tail = text::phrase2(
                    " wants ",
                    size,
                    " constant bytes, not divisible by ",
                    n,
                    " scalars",
                );
                return Err(Error(text::cat2(symbol, tail.as_str())));
            }
            let width: usize = size / n;
            proof {
                assert(size == width * n) by (nonlinear_arith)
                    requires
                        size as int % n as int == 0,
                        width == size as int / n as int,
                        n > 0,
                ;
            }
            if width != 4 && width != 8 {
                proof {
                    if size == 4 * n {
                        assert(width == 4) by (nonlinear_arith)
                            requires
                                size == width * n,
                                size == 4 * n,
                                n > 0,
                        ;
                    }
                    if size == 8 * n {
                        assert(width == 8) by (nonlinear_arith)
                            requires
                                size == width * n,
                                size == 8 * n,
                                n > 0,
                        ;
                    }
                }
                let tail = text::phrase(" implies a ", width, "-byte scalar slot");
                return Err(Error(text::cat2(symbol, tail.as_str())));
            }
            let mut i: usize = 0;
            assert(scalars@.take(0).len() * width == 0) by (nonlinear_arith)
                requires
                    scalars@.take(0).len() == 0,
            ;
            assert(constants@ =~= packed_constants(scalars@.take(0), width as int));
            while i < n
                invariant
                    n == scalars@.len(),
                    i <= n,
                    width == 4 || width == 8,
                    constants@ == packed_constants(scalars@.take(i as int), width as int),
                decreases n - i,
            {
                proof {
                    lemma_packed_grows(scalars@, i as int, width as int);
                }
                bytes::push_le32(&mut constants, scalars[i]);
                if width == 8 {
                    bytes::push_le32(&mut constants, 0);
                }
                assert(constants@ =~= packed_constants(scalars@.take(i + 1), width as int));
                i += 1;
            }
            assert(scalars@.take(i as int) =~= scalars@);
        } else if size != 0 {
            let tail = text::phrase(" wants ", size, " constant bytes, none given");
            return Err(Error(text::cat2(symbol, tail.as_str())));
        }
        let mut held: Vec<BufferRef> = Vec::new();
        let mut i: usize = 0;
        while i < bindings.len()
            invariant
                i <= bindings@.len(),
                held@ == bindings@.take(i as int),
            decreases bindings@.len() - i,
        {
            held.push(bindings[i]);
            i += 1;
            assert(held@ =~= bindings@.take(i as int));
        }
        assert(held@ =~= bindings@);
        Ok(
            Dispatch {
                executable: kernel.executable,
                ordinal: kernel.ordinal,
                config: DispatchConfig {
                    workgroup_count: grid,
                    workgroup_size: block,
                    subgroup_size: 32,
                },
                constants,
                bindings: held,
            },
        )
    }
}

/// A launch that matches its kernel hands over exactly the constant bytes the export asked for, each
/// scalar readable where its slot begins.
pub proof fn law_constants_fill_what_the_export_asked_for(
    info: ExportInfo,
    scalars: Seq<u32>,
    bindings: int,
    i: int,
)
    requires
        mismatch(info, scalars.len() as int, bindings) is None,
        0 <= i < scalars.len(),
    ensures
        ({
            let width = info.constant_byte_length as int / scalars.len() as int;
            let out = packed_constants(scalars, width);
            &&& out.len() == info.constant_byte_length
            &&& out.subrange(i * width, i * width + 4) == bytes::le32(scalars[i])
        }),
{
    let n = scalars.len() as int;
    let size = info.constant_byte_length as int;
    let width = size / n;
    assert(size == n * width && (width == 4 || width == 8)) by (nonlinear_arith)
        requires
            size == 4 * n || size == 8 * n,
            n > 0,
            width == size / n,
    ;
    assert(packed_constants(scalars, width).subrange(i * width, i * width + 4) =~= bytes::le32(
        scalars[i],
    ));
}

/// What a call of the runtime that failed says: what was asked, and the runtime's own words where it has any.
pub fn failure(what: &str, words: Option<&str>) -> (error: Error)
    ensures
        error.0@ == what@ + ": "@ + match words {
            Some(words) => words@,
            None => "unknown error"@,
        },
{
    let words: &str = match words {
        Some(words) => words,
        None => "unknown error",
    };
    Error(text::cat3(what, ": ", words))
}

} // verus!
