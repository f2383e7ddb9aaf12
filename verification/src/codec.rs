//! Length-delimited framing: each message travels as a four-byte big-endian
//! length prefix followed by that many payload bytes. The payload encoding
//! itself (a codec choice) is outside the library; this module frames and
//! checks raw bytes.

use vstd::prelude::*;
use vstd::slice::SliceAdditionalExecFns;

verus! {

/// Framing failures.
#[derive(Debug, Clone, Copy, PartialEq, Eq, Structural)]
pub enum CodecError {
    /// A frame longer than the configured maximum.
    FrameTooLarge { len: usize, max: usize },
    /// The output buffer cannot hold the frame.
    BufferTooSmall,
}

/// The integer carried by a four-byte big-endian prefix.
pub open spec fn spec_be32(b0: u8, b1: u8, b2: u8, b3: u8) -> int {
    b0 * 0x100_0000 + b1 * 0x1_0000 + b2 * 0x100 + b3
}

/// Framer with a configurable maximum frame length.
pub struct LengthDelimitedCodec {
    max_frame_len: usize,
}

impl LengthDelimitedCodec {
    /// The largest payload this framer accepts.
    pub closed spec fn spec_max_frame_len(&self) -> int {
        self.max_frame_len as int
    }

    /// The limit fits the four-byte prefix.
    pub closed spec fn wf(&self) -> bool {
        self.max_frame_len <= u32::MAX
    }

    /// Framer with the default one-mebibyte limit.
    pub fn new() -> (r: LengthDelimitedCodec)
        ensures
            r.wf(),
            r.spec_max_frame_len() == 1024 * 1024,
    {
        LengthDelimitedCodec { max_frame_len: 1024 * 1024 }
    }

    /// Framer with a custom limit; the four-byte prefix caps it at what
    /// thirty-two bits can carry.
    pub fn with_max_frame_len(max_frame_len: usize) -> (r: LengthDelimitedCodec)
        requires
            max_frame_len <= u32::MAX,
        ensures
            r.wf(),
            r.spec_max_frame_len() == max_frame_len,
    {
        LengthDelimitedCodec { max_frame_len }
    }

    /// Extracts one frame's payload from the front of `buf`: `None` until a
    /// whole frame has arrived, an error when the prefix announces more than
    /// the limit, and otherwise the payload bytes after the prefix.
    pub fn decode<'a>(&self, buf: &'a [u8]) -> (r: Result<Option<&'a [u8]>, CodecError>)
        requires
            self.wf(),
        ensures
            ({
                let have = buf@.len();
                if have < 4 {
                    r == Result::<Option<&[u8]>, CodecError>::Ok(None)
                } else {
                    let len = spec_be32(buf@[0], buf@[1], buf@[2], buf@[3]);
                    if len > self.spec_max_frame_len() {
                        r matches Err(e) && e == (CodecError::FrameTooLarge {
                            len: len as usize,
                            max: self.spec_max_frame_len() as usize,
                        })
                    } else if have < 4 + len {
                        r == Result::<Option<&[u8]>, CodecError>::Ok(None)
                    } else {
                        r matches Ok(Some(p)) && p@ == buf@.subrange(4, 4 + len)
                    }
                }
            }),
    {
        if buf.len() < 4 {
            return Ok(None);
        }
        let b0 = *vstd::slice::slice_index_get(buf, 0);
        let b1 = *vstd::slice::slice_index_get(buf, 1);
        let b2 = *vstd::slice::slice_index_get(buf, 2);
        let b3 = *vstd::slice::slice_index_get(buf, 3);
        let len64 = (b0 as u64) * 0x100_0000 + (b1 as u64) * 0x1_0000 + (b2 as u64) * 0x100 + (
        b3 as u64);
        if len64 > (self.max_frame_len as u64) {
            proof {
                assert(len64 <= usize::MAX);
            }
            return Err(
                CodecError::FrameTooLarge { len: len64 as usize, max: self.max_frame_len },
            );
        }
        let len = len64 as usize;
        if buf.len() < 4 || buf.len() - 4 < len {
            return Ok(None);
        }
        let payload = vstd::slice::slice_subrange(buf, 4, 4 + len);
        Ok(Some(payload))
    }

    /// Writes the prefix and the payload into the front of `buf` and returns
    /// the frame's total length; oversized payloads and short buffers are
    /// refused with the buffer unchanged.
    pub fn encode(&self, payload: &[u8], buf: &mut [u8]) -> (r: Result<usize, CodecError>)
        requires
            self.wf(),
        ensures
            final(buf)@.len() == old(buf)@.len(),
            ({
                let n = payload@.len();
                if n > self.spec_max_frame_len() {
                    r matches Err(e) && e == (CodecError::FrameTooLarge {
                        len: n as usize,
                        max: self.spec_max_frame_len() as usize,
                    }) && final(buf)@ == old(buf)@
                } else if old(buf)@.len() < 4 + n {
                    r == Result::<usize, CodecError>::Err(CodecError::BufferTooSmall)
                        && final(buf)@ == old(buf)@
                } else {
                    &&& r == Result::<usize, CodecError>::Ok((4 + n) as usize)
                    &&& spec_be32(final(buf)@[0], final(buf)@[1], final(buf)@[2], final(buf)@[3])
                        == n
                    &&& final(buf)@.subrange(4, 4 + n as int) == payload@
                    &&& final(buf)@.subrange(4 + n as int, final(buf)@.len() as int)
                        == old(buf)@.subrange(4 + n as int, old(buf)@.len() as int)
                }
            }),
    {
        let n = payload.len();
        if n > self.max_frame_len {
            return Err(CodecError::FrameTooLarge { len: n, max: self.max_frame_len });
        }
        if buf.len() < 4 || buf.len() - 4 < n {
            return Err(CodecError::BufferTooSmall);
        }
        let v = n as u32;
        buf.set(0, #[verifier::truncate] ((v >> 24) as u8));
        buf.set(1, #[verifier::truncate] (((v >> 16) & 0xff) as u8));
        buf.set(2, #[verifier::truncate] (((v >> 8) & 0xff) as u8));
        buf.set(3, #[verifier::truncate] ((v & 0xff) as u8));
        let mut i: usize = 0;
        while i < n
            invariant
                n == payload@.len(),
                n <= u32::MAX,
                i <= n,
                buf@.len() == old(buf)@.len(),
                buf@.len() >= 4 + n,
                buf@.len() <= usize::MAX,
                buf@[0] == ((n as u32) >> 24) as u8,
                buf@[1] == (((n as u32) >> 16) & 0xff) as u8,
                buf@[2] == (((n as u32) >> 8) & 0xff) as u8,
                buf@[3] == ((n as u32) & 0xff) as u8,
                forall|j: int| 0 <= j < i ==> buf@[4 + j] == payload@[j],
                forall|j: int| 4 + n <= j < buf@.len() ==> buf@[j] == old(buf)@[j],
            decreases n - i,
        {
            let byte = *vstd::slice::slice_index_get(payload, i);
            buf.set(4 + i, byte);
            i = i + 1;
        }
        proof {
            lemma_be32_of_u32(n as u32);
            assert(buf@.subrange(4, 4 + n as int) =~= payload@);
            assert(buf@.subrange(4 + n as int, buf@.len() as int) =~= old(buf)@.subrange(
                4 + n as int,
                old(buf)@.len() as int,
            ));
        }
        Ok(4 + n)
    }
}

/// The four big-endian bytes of a 32-bit value reassemble to that value.
proof fn lemma_be32_of_u32(v: u32)
    ensures
        spec_be32(
            (v >> 24) as u8,
            ((v >> 16) & 0xff) as u8,
            ((v >> 8) & 0xff) as u8,
            (v & 0xff) as u8,
        ) == v,
{
    assert((((v >> 24) as u8) as u64) * 0x100_0000 + ((((v >> 16) & 0xff) as u8) as u64) * 0x1_0000
        + ((((v >> 8) & 0xff) as u8) as u64) * 0x100 + (((v & 0xff) as u8) as u64) == v as u64)
        by (bit_vector);
}

} // verus!
