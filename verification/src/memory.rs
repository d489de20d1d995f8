//! Owned byte buffers and the addresses at which they live.

use vstd::prelude::*;

verus! {

/// The address of the first byte of `buffer`, as `Vec::as_ptr` reports it.
///
/// Trusted: the standard library promises that the pointer of a `Vec` is never
/// null and that an allocation never wraps around the address space, so the
/// address is nonzero and the buffer ends at or below `usize::MAX`. Nothing
/// else is claimed: where the allocator places a buffer is its own business.
#[verifier::external_body]
pub(crate) fn buffer_address(buffer: &Vec<u8>) -> (addr: usize)
    ensures
        addr != 0,
        addr + buffer@.len() <= usize::MAX,
{
    buffer.as_ptr() as usize
}

/// A fresh buffer of `len` bytes.
pub(crate) fn new_buffer(len: usize) -> (buffer: Vec<u8>)
    requires
        len <= isize::MAX,
    ensures
        buffer@.len() == len,
{
    vec![0u8; len]
}

/// Copies `len` bytes from `src`, starting at `src_at`, over the bytes of
/// `dst` that start at `dst_at`. No other byte of `dst` changes.
pub(crate) fn copy_bytes(
    dst: &mut Vec<u8>,
    dst_at: usize,
    src: &Vec<u8>,
    src_at: usize,
    len: usize,
)
    requires
        dst_at + len <= old(dst).len(),
        src_at + len <= src.len(),
    ensures
        final(dst)@.len() == old(dst)@.len(),
        forall|k: int| 0 <= k < len ==> #[trigger] final(dst)@[dst_at + k] == src@[src_at + k],
        forall|k: int|
            0 <= k < dst_at || dst_at + len <= k < old(dst)@.len() ==> #[trigger] final(dst)@[k]
                == old(dst)@[k],
{
    let mut k: usize = 0;
    while k < len
        invariant
            k <= len,
            dst_at + len <= dst.len(),
            src_at + len <= src.len(),
            dst@.len() == old(dst)@.len(),
            forall|j: int| 0 <= j < k ==> #[trigger] dst@[dst_at + j] == src@[src_at + j],
            forall|j: int|
                0 <= j < dst_at || dst_at + len <= j < dst@.len() ==> #[trigger] dst@[j] == old(
                    dst,
                )@[j],
        decreases len - k,
    {
        let byte = src[src_at + k];
        dst[dst_at + k] = byte;
        k += 1;
    }
}

} // verus!
