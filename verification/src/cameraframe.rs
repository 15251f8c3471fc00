//! In-memory camera frames: an owned 2D sample buffer with an explicit
//! linearization order, a declared bit depth and a capture timestamp, plus
//! the width-erased variant enum over the supported sample widths.

use vstd::prelude::*;

verus! {

use vstd::slice::slice_to_vec;

/// Failures of the checked frame accessors and constructors.
#[derive(Clone, Debug)]
pub enum CameraFrameError {
    /// A checked access lay outside the sample buffer; carries the linear
    /// offset that was asked for.
    IndexOutOfBounds(usize),
    /// A constructor was handed a sample slice whose length does not equal
    /// `rows * cols`; carries the actual length that was handed in.
    LengthMismatch(usize),
}

pub type FrameResult<T> = Result<T, CameraFrameError>;

/// The pixel layout a frame buffer claims for its samples. Buffers built in
/// this crate are always monochrome; the richer encodings exist so that
/// container metadata can be mirrored at the frame level.
#[derive(Clone, Copy, Debug)]
pub enum PixelFormat {
    MONO,
    BayerRGGB,
    BayerGRBG,
    BayerBGRG,
    BayerCYYM,
    BayerYCMY,
    BayerMYYC,
    RGB,
}

impl PixelFormat {
    /// The display name of the format.
    pub open spec fn spec_name(self) -> Seq<char> {
        match self {
            PixelFormat::MONO => "MONO"@,
            PixelFormat::BayerRGGB => "BayerRGGB"@,
            PixelFormat::BayerGRBG => "BayerGRBG"@,
            PixelFormat::BayerBGRG => "BayerBGRG"@,
            PixelFormat::BayerCYYM => "BayerCYYM"@,
            PixelFormat::BayerYCMY => "BayerYCMY"@,
            PixelFormat::BayerMYYC => "BayerMYYC"@,
            PixelFormat::RGB => "RGB"@,
        }
    }

    /// The display name of the format.
    pub fn name(&self) -> (r: &'static str)
        ensures
            r@ == self.spec_name(),
    {
        match self {
            PixelFormat::MONO => "MONO",
            PixelFormat::BayerRGGB => "BayerRGGB",
            PixelFormat::BayerGRBG => "BayerGRBG",
            PixelFormat::BayerBGRG => "BayerBGRG",
            PixelFormat::BayerCYYM => "BayerCYYM",
            PixelFormat::BayerYCMY => "BayerYCMY",
            PixelFormat::BayerMYYC => "BayerMYYC",
            PixelFormat::RGB => "RGB",
        }
    }
}

/// The rule mapping a (row, column) pair to a linear storage offset.
#[derive(Clone, Copy, Debug, PartialEq, Eq, Structural)]
pub enum PixelOrder {
    RowMajor,
    ColMajor,
}

impl PixelOrder {
    /// The display name of the order.
    pub open spec fn spec_name(self) -> Seq<char> {
        match self {
            PixelOrder::RowMajor => "RowMajor"@,
            PixelOrder::ColMajor => "ColMajor"@,
        }
    }

    /// The display name of the order.
    pub fn name(&self) -> (r: &'static str)
        ensures
            r@ == self.spec_name(),
    {
        match self {
            PixelOrder::RowMajor => "RowMajor",
            PixelOrder::ColMajor => "ColMajor",
        }
    }
}

/// A UTC instant, stored as the offset from 0001-01-01T00:00:00 UTC:
/// `usecs` whole microseconds plus `nanos` further nanoseconds.
#[derive(Clone, Copy, Debug, PartialEq, Eq, Structural)]
pub struct FrameTime {
    pub usecs: u64,
    pub nanos: u64,
}

/// Relies on `std::time::SystemTime::now` and
/// `SystemTime::duration_since(UNIX_EPOCH)`: `Some((secs, nanos))` is the
/// current clock as a duration after the Unix epoch (std documents the
/// nanosecond part of a `Duration` as always below one billion), and
/// `None` means the clock stands before the epoch (`duration_since`
/// returns `Err` then — matched here, so no input can make this abort).
/// Nothing more can be promised of a clock readout.
#[verifier::external_body]
fn unix_clock_parts() -> (r: Option<(u64, u32)>)
    ensures
        r matches Some(p) ==> p.1 < 1_000_000_000,
{
    match std::time::SystemTime::now().duration_since(std::time::UNIX_EPOCH) {
        Ok(d) => Some((d.as_secs(), d.subsec_nanos())),
        Err(_) => None,
    }
}

/// Seconds from 0001-01-01T00:00:00 UTC to the Unix epoch (719162 days).
pub const EPOCH_SHIFT_SECS: u64 = 62_135_596_800;

impl FrameTime {
    /// Normalizes a clock readout — whole seconds after the Unix epoch
    /// plus the nanoseconds within that second — into a `FrameTime`:
    /// the epoch shift to 0001-01-01 is applied and the sub-second part
    /// is split into whole microseconds and a nanosecond remainder. A
    /// readout absurdly far in the future (beyond roughly the year 8300)
    /// collapses to the epoch itself rather than overflowing.
    pub fn from_unix_parts(secs: u64, nanos: u32) -> (t: FrameTime)
        requires
            nanos < 1_000_000_000,
        ensures
            secs <= 200_000_000_000 ==> t.usecs == (secs + EPOCH_SHIFT_SECS) * 1_000_000 + nanos
                / 1000 && t.nanos == nanos % 1000,
            secs > 200_000_000_000 ==> t == (FrameTime { usecs: 0, nanos: 0 }),
            t.nanos < 1000,
            t.usecs == 0 || t.usecs >= 62_135_596_800_000_000,
    {
        if secs <= 200_000_000_000 {
            FrameTime {
                usecs: (secs + EPOCH_SHIFT_SECS) * 1_000_000 + (nanos / 1000) as u64,
                nanos: (nanos % 1000) as u64,
            }
        } else {
            FrameTime { usecs: 0, nanos: 0 }
        }
    }

    /// The current time. Whatever the clock returns, the result is
    /// normalized: the nanosecond part is below 1000, and the microsecond
    /// part either carries the full epoch shift (so it denotes an instant
    /// at or after 1970) or is the zero sentinel, which stands for a
    /// clock outside the representable range (before the Unix epoch, or
    /// absurdly far in the future).
    pub fn now() -> (t: FrameTime)
        ensures
            t.nanos < 1000,
            t.usecs == 0 || t.usecs >= 62_135_596_800_000_000,
    {
        match unix_clock_parts() {
            Some((secs, sub)) => FrameTime::from_unix_parts(secs, sub),
            None => FrameTime { usecs: 0, nanos: 0 },
        }
    }
}

/// The capability every supported sample width offers: a sample is an
/// unsigned value below 2^16 that converts losslessly to the machine
/// integers, with a zero element. The supported widths form a closed set
/// (8-bit and 16-bit).
pub trait SampleValue: Copy + Sized {
    /// The numeric value of the sample.
    spec fn as_int(self) -> int;

    /// Every sample is a non-negative value below 2^16.
    proof fn as_int_bounds(self)
        ensures
            0 <= self.as_int() < 0x10000,
    ;

    /// The zero sample.
    fn zero() -> (r: Self)
        ensures
            r.as_int() == 0,
    ;

    /// The sample value as a machine integer.
    fn to_u32(self) -> (r: u32)
        ensures
            r == self.as_int(),
    ;
}

impl SampleValue for u8 {
    open spec fn as_int(self) -> int {
        self as int
    }

    proof fn as_int_bounds(self) {
    }

    fn zero() -> (r: Self) {
        0
    }

    fn to_u32(self) -> (r: u32) {
        self as u32
    }
}

impl SampleValue for u16 {
    open spec fn as_int(self) -> int {
        self as int
    }

    proof fn as_int_bounds(self) {
    }

    fn zero() -> (r: Self) {
        0
    }

    fn to_u32(self) -> (r: u32) {
        self as u32
    }
}

/// The linear storage offset that a (row, column) pair resolves to under a
/// pixel order, for a buffer of the given dimensions.
pub open spec fn lin_index(order: PixelOrder, rows: int, cols: int, row: int, col: int) -> int {
    match order {
        PixelOrder::ColMajor => col * rows + row,
        PixelOrder::RowMajor => row * cols + col,
    }
}

/// For an in-range (row, column) pair the resolved offset lies inside the
/// buffer.
pub proof fn lemma_lin_index_in_bounds(order: PixelOrder, rows: int, cols: int, row: int, col: int)
    requires
        0 <= row < rows,
        0 <= col < cols,
    ensures
        0 <= lin_index(order, rows, cols, row, col) < rows * cols,
{
    match order {
        PixelOrder::ColMajor => {
            assert(col * rows + row < rows * cols) by (nonlinear_arith)
                requires
                    0 <= row < rows,
                    0 <= col < cols,
            ;
            assert(0 <= col * rows) by (nonlinear_arith)
                requires
                    0 <= col,
                    0 <= rows,
            ;
        },
        PixelOrder::RowMajor => {
            assert(row * cols + col < rows * cols) by (nonlinear_arith)
                requires
                    0 <= row < rows,
                    0 <= col < cols,
            ;
            assert(0 <= row * cols) by (nonlinear_arith)
                requires
                    0 <= row,
                    0 <= cols,
            ;
        },
    }
}

/// The descriptor interface shared by every frame representation.
pub trait CameraFrameTraits {
    fn rows(&self) -> usize;

    fn cols(&self) -> usize;

    fn bit_depth(&self) -> usize;

    fn pixel_format(&self) -> PixelFormat;

    fn pixel_order(&self) -> &PixelOrder;

    fn time(&self) -> &FrameTime;
}

/// Read access to the raw sample storage.
pub trait CameraFrameData<T> {
    fn as_slice(&self) -> &[T];
}

/// Bounds-checked access by a flat or a 2D index.
pub trait Get<Idx, T> {
    fn at(&self, index: Idx) -> FrameResult<&T>;
}

/// One camera exposure: an owned, fixed-size 2D sample buffer. The sample
/// vector always holds exactly `rows * cols` entries.
#[derive(Debug)]
pub struct CameraFrameMono<T> {
    rows: usize,
    cols: usize,
    bit_depth: usize,
    rawdata: Vec<T>,
    pixel_order: PixelOrder,
    time: FrameTime,
}

pub type CameraFrameMono8 = CameraFrameMono<u8>;

pub type CameraFrameMono16 = CameraFrameMono<u16>;

impl<T> CameraFrameMono<T> {
    pub closed spec fn spec_rows(self) -> usize {
        self.rows
    }

    pub closed spec fn spec_cols(self) -> usize {
        self.cols
    }

    pub closed spec fn spec_bit_depth(self) -> usize {
        self.bit_depth
    }

    pub closed spec fn spec_pixel_order(self) -> PixelOrder {
        self.pixel_order
    }

    pub closed spec fn spec_time(self) -> FrameTime {
        self.time
    }

    /// The sample storage in linear order.
    pub closed spec fn samples(self) -> Seq<T> {
        self.rawdata@
    }

    /// The data-model invariant: the sample vector covers the 2D extent
    /// exactly. Every constructor establishes it and every method keeps it;
    /// `use_type_invariant` recovers it for any buffer in hand.
    #[verifier::type_invariant]
    pub open spec fn wf(self) -> bool {
        self.samples().len() == self.spec_rows() * self.spec_cols()
    }

    /// Unchecked flat read for hot paths: the caller must guarantee that
    /// the offset is in range; no run-time validation is performed (the
    /// bound is a verified precondition, not a check).
    pub fn get_flat_unchecked(&self, index: usize) -> (v: &T)
        requires
            index < self.samples().len(),
        ensures
            *v == self.samples()[index as int],
    {
        &self.rawdata[index]
    }

    /// Unchecked flat write for hot paths, under the same caller contract
    /// as `get_flat_unchecked`. Only the addressed sample changes.
    pub fn set_flat_unchecked(&mut self, index: usize, value: T)
        requires
            index < old(self).samples().len(),
        ensures
            final(self).samples() == old(self).samples().update(index as int, value),
            final(self).spec_rows() == old(self).spec_rows(),
            final(self).spec_cols() == old(self).spec_cols(),
            final(self).spec_bit_depth() == old(self).spec_bit_depth(),
            final(self).spec_pixel_order() == old(self).spec_pixel_order(),
            final(self).spec_time() == old(self).spec_time(),
    {
        proof {
            use_type_invariant(&*self);
        }
        self.rawdata[index] = value;
    }

    /// Unchecked 2D read for hot paths: the caller must guarantee that the
    /// coordinates are in range; no run-time validation is performed (the
    /// bound is a verified precondition, not a check).
    pub fn get_unchecked(&self, row: usize, col: usize) -> (v: &T)
        requires
            row < self.spec_rows(),
            col < self.spec_cols(),
        ensures
            *v == self.samples()[lin_index(
                self.spec_pixel_order(),
                self.spec_rows() as int,
                self.spec_cols() as int,
                row as int,
                col as int,
            )],
    {
        let _total: usize = self.rawdata.len();
        proof {
            use_type_invariant(self);
            lemma_lin_index_in_bounds(
                self.pixel_order,
                self.rows as int,
                self.cols as int,
                row as int,
                col as int,
            );
            assert(_total == self.spec_rows() * self.spec_cols());
        }
        let index: usize = match self.pixel_order {
            PixelOrder::ColMajor => col * self.rows + row,
            PixelOrder::RowMajor => row * self.cols + col,
        };
        &self.rawdata[index]
    }

    /// Unchecked 2D write for hot paths, under the same caller contract as
    /// `get_unchecked`. Only the addressed sample changes.
    pub fn set_unchecked(&mut self, row: usize, col: usize, value: T)
        requires
            row < old(self).spec_rows(),
            col < old(self).spec_cols(),
        ensures
            final(self).samples() == old(self).samples().update(
                lin_index(
                    old(self).spec_pixel_order(),
                    old(self).spec_rows() as int,
                    old(self).spec_cols() as int,
                    row as int,
                    col as int,
                ),
                value,
            ),
            final(self).spec_rows() == old(self).spec_rows(),
            final(self).spec_cols() == old(self).spec_cols(),
            final(self).spec_bit_depth() == old(self).spec_bit_depth(),
            final(self).spec_pixel_order() == old(self).spec_pixel_order(),
            final(self).spec_time() == old(self).spec_time(),
    {
        let _total: usize = self.rawdata.len();
        proof {
            use_type_invariant(&*self);
            lemma_lin_index_in_bounds(
                self.pixel_order,
                self.rows as int,
                self.cols as int,
                row as int,
                col as int,
            );
            assert(_total == self.spec_rows() * self.spec_cols());
        }
        let index: usize = match self.pixel_order {
            PixelOrder::ColMajor => col * self.rows + row,
            PixelOrder::RowMajor => row * self.cols + col,
        };
        self.rawdata[index] = value;
    }
}

impl<T: SampleValue> CameraFrameMono<T> {
    /// An all-zero buffer in column-major order, stamped with the current
    /// time (normalized as `FrameTime::now` promises).
    pub fn zeros(rows: usize, cols: usize, bit_depth: usize) -> (f: CameraFrameMono<T>)
        requires
            rows * cols <= usize::MAX,
        ensures
            f.spec_rows() == rows,
            f.spec_cols() == cols,
            f.spec_bit_depth() == bit_depth,
            f.spec_pixel_order() is ColMajor,
            f.samples().len() == rows * cols,
            forall|i: int| 0 <= i < rows * cols ==> #[trigger] f.samples()[i].as_int() == 0,
            f.spec_time().nanos < 1000,
            f.spec_time().usecs == 0 || f.spec_time().usecs >= 62_135_596_800_000_000,
    {
        let total: usize = rows * cols;
        let mut data: Vec<T> = Vec::new();
        let mut i: usize = 0;
        while i < total
            invariant
                i <= total,
                data@.len() == i,
                forall|j: int| 0 <= j < i ==> #[trigger] data@[j].as_int() == 0,
            decreases total - i,
        {
            data.push(T::zero());
            i = i + 1;
        }
        CameraFrameMono {
            rows,
            cols,
            bit_depth,
            rawdata: data,
            pixel_order: PixelOrder::ColMajor,
            time: FrameTime::now(),
        }
    }

    /// A buffer built from the given samples, copied verbatim. The sample
    /// count is validated against the 2D extent and a mismatch is rejected
    /// with `LengthMismatch` rather than left to corrupt later accesses.
    pub fn new(
        rows: usize,
        cols: usize,
        bit_depth: usize,
        pixel_order: PixelOrder,
        time: &FrameTime,
        data: &[T],
    ) -> (r: FrameResult<CameraFrameMono<T>>)
        ensures
            match r {
                Ok(f) => {
                    &&& data@.len() == rows * cols
                    &&& f.spec_rows() == rows
                    &&& f.spec_cols() == cols
                    &&& f.spec_bit_depth() == bit_depth
                    &&& f.spec_pixel_order() == pixel_order
                    &&& f.spec_time() == *time
                    &&& f.samples() == data@
                },
                Err(e) => {
                    &&& data@.len() != rows * cols
                    &&& e matches CameraFrameError::LengthMismatch(got) && got == data@.len()
                },
            },
    {
        proof {
            if rows != 0 {
                let len = data@.len() as int;
                let q = len / (rows as int);
                let m = len % (rows as int);
                vstd::arithmetic::div_mod::lemma_fundamental_div_mod(len, rows as int);
                assert(((q == cols && m == 0) <==> len == rows * cols)) by (nonlinear_arith)
                    requires
                        rows != 0,
                        len == (rows * q) + m,
                        0 <= m < rows,
                        q == len / (rows as int),
                ;
            }
        }
        if rows == 0 {
            if data.len() != 0 {
                return Err(CameraFrameError::LengthMismatch(data.len()));
            }
        } else if data.len() / rows != cols || data.len() % rows != 0 {
            return Err(CameraFrameError::LengthMismatch(data.len()));
        }
        Ok(
            CameraFrameMono {
                rows,
                cols,
                bit_depth,
                rawdata: slice_to_vec(data),
                pixel_order,
                time: *time,
            },
        )
    }
}

impl<T: Copy> Clone for CameraFrameMono<T> {
    /// A deep copy: the same descriptor fields and the same samples.
    fn clone(&self) -> (r: Self)
        ensures
            r.spec_rows() == self.spec_rows(),
            r.spec_cols() == self.spec_cols(),
            r.spec_bit_depth() == self.spec_bit_depth(),
            r.spec_pixel_order() == self.spec_pixel_order(),
            r.spec_time() == self.spec_time(),
            r.samples() == self.samples(),
    {
        proof {
            use_type_invariant(self);
        }
        CameraFrameMono {
            rows: self.rows,
            cols: self.cols,
            bit_depth: self.bit_depth,
            rawdata: slice_to_vec(self.rawdata.as_slice()),
            pixel_order: self.pixel_order,
            time: self.time,
        }
    }
}

impl<T> CameraFrameTraits for CameraFrameMono<T> {
    fn rows(&self) -> (r: usize)
        ensures
            r == self.spec_rows(),
    {
        self.rows
    }

    fn cols(&self) -> (r: usize)
        ensures
            r == self.spec_cols(),
    {
        self.cols
    }

    fn bit_depth(&self) -> (r: usize)
        ensures
            r == self.spec_bit_depth(),
    {
        self.bit_depth
    }

    fn pixel_format(&self) -> (r: PixelFormat)
        ensures
            r is MONO,
    {
        PixelFormat::MONO
    }

    fn pixel_order(&self) -> (r: &PixelOrder)
        ensures
            *r == self.spec_pixel_order(),
    {
        &self.pixel_order
    }

    fn time(&self) -> (r: &FrameTime)
        ensures
            *r == self.spec_time(),
    {
        &self.time
    }
}

impl<T> CameraFrameData<T> for CameraFrameMono<T> {
    fn as_slice(&self) -> (r: &[T])
        ensures
            r@ == self.samples(),
    {
        self.rawdata.as_slice()
    }
}

impl<T> Get<usize, T> for CameraFrameMono<T> {
    /// Bounds-checked flat read: succeeds exactly on offsets below
    /// `rows * cols` (a strict comparison; the offset equal to the sample
    /// count is rejected).
    fn at(&self, index: usize) -> (r: FrameResult<&T>)
        ensures
            index < self.spec_rows() * self.spec_cols() ==> (r matches Ok(v) && *v
                == self.samples()[index as int]),
            index >= self.spec_rows() * self.spec_cols() ==> (r matches Err(e) && e
                matches CameraFrameError::IndexOutOfBounds(i) && i == index),
    {
        let _total: usize = self.rawdata.len();
        proof {
            use_type_invariant(self);
            assert(_total == self.spec_rows() * self.spec_cols());
        }
        if index < self.rows * self.cols {
            Ok(&self.rawdata[index])
        } else {
            Err(CameraFrameError::IndexOutOfBounds(index))
        }
    }
}

impl<T> Get<(usize, usize), T> for CameraFrameMono<T> {
    /// Bounds-checked 2D read: resolves the pair through the buffer's pixel
    /// order and succeeds exactly when both coordinates are in range. The
    /// error carries the offset the pair resolved to, computed with
    /// wrapping arithmetic for coordinates too large to resolve exactly.
    fn at(&self, index: (usize, usize)) -> (r: FrameResult<&T>)
        ensures
            ({
                let (row, col) = index;
                &&& (row < self.spec_rows() && col < self.spec_cols()) ==> (r matches Ok(
                    v,
                ) && *v == self.samples()[lin_index(
                    self.spec_pixel_order(),
                    self.spec_rows() as int,
                    self.spec_cols() as int,
                    row as int,
                    col as int,
                )])
                &&& !(row < self.spec_rows() && col < self.spec_cols()) ==> (r matches Err(
                    e,
                ) && e matches CameraFrameError::IndexOutOfBounds(_))
            }),
    {
        let (row, col) = index;
        if row >= self.rows || col >= self.cols {
            let lin: usize = match self.pixel_order {
                PixelOrder::ColMajor => col.wrapping_mul(self.rows).wrapping_add(row),
                PixelOrder::RowMajor => row.wrapping_mul(self.cols).wrapping_add(col),
            };
            return Err(CameraFrameError::IndexOutOfBounds(lin));
        }
        let _total: usize = self.rawdata.len();
        proof {
            use_type_invariant(self);
            assert(_total == self.spec_rows() * self.spec_cols());
            lemma_lin_index_in_bounds(
                self.pixel_order,
                self.rows as int,
                self.cols as int,
                row as int,
                col as int,
            );
        }
        let lin: usize = match self.pixel_order {
            PixelOrder::ColMajor => col * self.rows + row,
            PixelOrder::RowMajor => row * self.cols + col,
        };
        Ok(&self.rawdata[lin])
    }
}

/// The checked 2D accessor and the unchecked 2D accessor resolve any
/// in-range (row, column) pair to the same linear offset, for any
/// dimensions and both pixel orders: both are pinned to `lin_index`, so
/// their results are the same sample.
pub proof fn lemma_checked_unchecked_agree<T>(f: CameraFrameMono<T>, row: int, col: int)
    requires
        0 <= row < f.spec_rows(),
        0 <= col < f.spec_cols(),
        f.samples().len() == f.spec_rows() * f.spec_cols(),
    ensures
        0 <= lin_index(f.spec_pixel_order(), f.spec_rows() as int, f.spec_cols() as int, row, col)
            < f.samples().len(),
{
    lemma_lin_index_in_bounds(
        f.spec_pixel_order(),
        f.spec_rows() as int,
        f.spec_cols() as int,
        row,
        col,
    );
}

/// A width-erased frame: exactly one sample width is active, and every
/// descriptor query delegates to the active buffer.
#[derive(Clone, Debug)]
pub enum CameraFrame {
    Mono8(CameraFrameMono8),
    Mono16(CameraFrameMono16),
}

impl CameraFrame {
    pub open spec fn spec_rows(self) -> usize {
        match self {
            CameraFrame::Mono8(x) => x.spec_rows(),
            CameraFrame::Mono16(x) => x.spec_rows(),
        }
    }

    pub open spec fn spec_cols(self) -> usize {
        match self {
            CameraFrame::Mono8(x) => x.spec_cols(),
            CameraFrame::Mono16(x) => x.spec_cols(),
        }
    }

    pub open spec fn spec_bit_depth(self) -> usize {
        match self {
            CameraFrame::Mono8(x) => x.spec_bit_depth(),
            CameraFrame::Mono16(x) => x.spec_bit_depth(),
        }
    }

    pub open spec fn spec_pixel_order(self) -> PixelOrder {
        match self {
            CameraFrame::Mono8(x) => x.spec_pixel_order(),
            CameraFrame::Mono16(x) => x.spec_pixel_order(),
        }
    }

    pub open spec fn spec_time(self) -> FrameTime {
        match self {
            CameraFrame::Mono8(x) => x.spec_time(),
            CameraFrame::Mono16(x) => x.spec_time(),
        }
    }
}

impl CameraFrameTraits for CameraFrame {
    fn rows(&self) -> (r: usize)
        ensures
            r == self.spec_rows(),
    {
        match self {
            CameraFrame::Mono8(x) => x.rows(),
            CameraFrame::Mono16(x) => x.rows(),
        }
    }

    fn cols(&self) -> (r: usize)
        ensures
            r == self.spec_cols(),
    {
        match self {
            CameraFrame::Mono8(x) => x.cols(),
            CameraFrame::Mono16(x) => x.cols(),
        }
    }

    fn bit_depth(&self) -> (r: usize)
        ensures
            r == self.spec_bit_depth(),
    {
        match self {
            CameraFrame::Mono8(x) => x.bit_depth(),
            CameraFrame::Mono16(x) => x.bit_depth(),
        }
    }

    fn pixel_format(&self) -> (r: PixelFormat)
        ensures
            r is MONO,
    {
        match self {
            CameraFrame::Mono8(x) => x.pixel_format(),
            CameraFrame::Mono16(x) => x.pixel_format(),
        }
    }

    fn pixel_order(&self) -> (r: &PixelOrder)
        ensures
            *r == self.spec_pixel_order(),
    {
        match self {
            CameraFrame::Mono8(x) => x.pixel_order(),
            CameraFrame::Mono16(x) => x.pixel_order(),
        }
    }

    fn time(&self) -> (r: &FrameTime)
        ensures
            *r == self.spec_time(),
    {
        match self {
            CameraFrame::Mono8(x) => x.time(),
            CameraFrame::Mono16(x) => x.time(),
        }
    }
}

} // verus!
