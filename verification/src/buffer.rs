//! Zero-copy byte buffers: a shared buffer whose slices alias one reference
//! counted allocation, and an aligned buffer whose payload starts on a
//! caller-chosen power-of-two boundary.

use std::sync::Arc;
use vstd::prelude::*;

verus! {

/// A reference-counted byte allocation. Verus sees it only through
/// [`shared_bytes_view`], the bytes it holds, and the wrappers below;
/// cloning the handle shares the allocation without copying.
#[verifier::external_body]
struct SharedBytes {
    inner: Arc<Vec<u8>>,
}

/// The bytes a shared allocation holds.
pub uninterp spec fn shared_bytes_view(b: SharedBytes) -> Seq<u8>;

impl SharedBytes {
    /// Relies on `Arc::new`: wraps the vector in a shared allocation.
    #[verifier::external_body]
    fn from_vec(data: Vec<u8>) -> (r: SharedBytes)
        ensures
            shared_bytes_view(r) == data@,
    {
        SharedBytes { inner: Arc::new(data) }
    }

    /// Relies on `Arc`'s `Clone`: the clone shares the allocation, so it
    /// holds the same bytes.
    #[verifier::external_body]
    fn clone_ref(&self) -> (r: SharedBytes)
        ensures
            shared_bytes_view(r) == shared_bytes_view(*self),
    {
        SharedBytes { inner: Arc::clone(&self.inner) }
    }

    /// Relies on `Arc`'s `Deref`: a view of the shared bytes.
    #[verifier::external_body]
    fn as_slice(&self) -> (r: &[u8])
        ensures
            r@ == shared_bytes_view(*self),
    {
        self.inner.as_slice()
    }
}

/// An immutable window into a shared, reference-counted byte allocation;
/// slicing clones the handle, never the bytes.
pub struct SharedBuffer {
    inner: SharedBytes,
    offset: usize,
    len: usize,
}

impl SharedBuffer {
    /// The bytes this buffer exposes.
    pub closed spec fn view(&self) -> Seq<u8> {
        shared_bytes_view(self.inner).subrange(self.offset as int, self.offset + self.len)
    }

    /// The window lies inside the allocation, whose size fits the machine.
    pub closed spec fn wf(&self) -> bool {
        &&& self.offset + self.len <= shared_bytes_view(self.inner).len()
        &&& shared_bytes_view(self.inner).len() <= usize::MAX
    }

    /// Takes ownership of `data` as a shared buffer over all of it.
    pub fn from_vec(data: Vec<u8>) -> (r: SharedBuffer)
        ensures
            r.wf(),
            r.view() == data@,
    {
        let len = data.len();
        let ghost d = data@;
        let r = SharedBuffer { inner: SharedBytes::from_vec(data), offset: 0, len };
        proof {
            assert(r.view() =~= d);
        }
        r
    }

    /// A zeroed shared buffer of `capacity` bytes.
    pub fn with_capacity(capacity: usize) -> (r: SharedBuffer)
        ensures
            r.wf(),
            r.view().len() == capacity,
            forall|i: int| 0 <= i < capacity ==> r.view()[i] == 0u8,
    {
        let data = vec![0u8; capacity];
        let r = SharedBuffer::from_vec(data);
        r
    }

    /// A sub-window `[start, end)` of this buffer, sharing the allocation.
    pub fn slice(&self, start: usize, end: usize) -> (r: SharedBuffer)
        requires
            self.wf(),
            start <= end,
            end <= self.view().len(),
        ensures
            r.wf(),
            r.view() == self.view().subrange(start as int, end as int),
    {
        let r = SharedBuffer {
            inner: self.inner.clone_ref(),
            offset: self.offset + start,
            len: end - start,
        };
        proof {
            assert(r.view() =~= self.view().subrange(start as int, end as int));
        }
        r
    }

    /// The exposed bytes.
    pub fn as_slice(&self) -> (r: &[u8])
        requires
            self.wf(),
        ensures
            r@ == self.view(),
    {
        let whole = self.inner.as_slice();
        let total = whole.len();
        proof {
            assert(self.offset + self.len <= total);
        }
        vstd::slice::slice_subrange(whole, self.offset, self.offset + self.len)
    }

    /// Number of exposed bytes.
    pub fn len(&self) -> (n: usize)
        requires
            self.wf(),
        ensures
            n == self.view().len(),
    {
        proof {
            assert(self.view().len() == self.len);
        }
        self.len
    }
}

/// Relies on `Vec::as_ptr`: the base address of the allocation. The address
/// is the allocator's choice, so only its arithmetic validity is assumed:
/// an allocated object occupies addresses that do not wrap.
#[verifier::external_body]
fn vec_base_addr(data: &Vec<u8>) -> (r: usize)
    ensures
        r + data@.len() <= usize::MAX,
{
    data.as_ptr() as usize
}

/// A byte buffer whose exposed window starts at an address aligned to a
/// power-of-two boundary, for direct-memory-access engines.
pub struct AlignedBuffer {
    data: Vec<u8>,
    alignment: usize,
    base: usize,
    offset: usize,
    len: usize,
}

/// `n` is a power of two.
pub open spec fn is_pow2(n: usize) -> bool {
    n > 0 && (n & ((n - 1) as usize)) == 0usize
}

impl AlignedBuffer {
    /// The alignment boundary chosen at construction.
    pub closed spec fn spec_alignment(&self) -> int {
        self.alignment as int
    }

    /// The window lies inside the allocation and starts aligned.
    pub closed spec fn wf(&self) -> bool {
        &&& self.offset + self.len <= self.data@.len()
        &&& self.alignment > 0
        &&& self.base + self.data@.len() <= usize::MAX
        &&& (self.base + self.offset) % (self.alignment as int) == 0
    }

    /// Allocates `size` usable bytes aligned to `alignment`.
    pub fn new(size: usize, alignment: usize) -> (r: AlignedBuffer)
        requires
            is_pow2(alignment),
            size + alignment <= usize::MAX,
        ensures
            r.wf(),
            r.spec_alignment() == alignment,
            r.spec_len() == size,
    {
        let total_size = size + alignment - 1;
        let data = vec![0u8; total_size];
        let base = vec_base_addr(&data);
        let m = base % alignment;
        let offset = (alignment - m) % alignment;
        proof {
            assert((base + offset) % (alignment as int) == 0 && offset < alignment)
                by (nonlinear_arith)
                requires
                    alignment > 0 && m == (base as int) % (alignment as int) && offset == (
                    alignment - m) % (alignment as int) && base >= 0 && m >= 0,
            ;
        }
        AlignedBuffer { data, alignment, base, offset, len: size }
    }

    /// Number of usable bytes.
    pub closed spec fn spec_len(&self) -> int {
        self.len as int
    }

    /// Address of the first usable byte: always a multiple of the alignment.
    pub fn virt_addr(&self) -> (r: usize)
        requires
            self.wf(),
        ensures
            r % (self.spec_alignment() as usize) == 0,
    {
        self.base + self.offset
    }

    /// The usable bytes.
    pub fn as_slice(&self) -> (r: &[u8])
        requires
            self.wf(),
        ensures
            r@.len() == self.spec_len(),
    {
        vstd::slice::slice_subrange(self.data.as_slice(), self.offset, self.offset + self.len)
    }

    /// Number of usable bytes.
    pub fn len(&self) -> (n: usize)
        ensures
            n == self.spec_len(),
    {
        self.len
    }
}

} // verus!
