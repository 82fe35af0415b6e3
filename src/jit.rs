//! Machine code emission: shared byte helpers and one backend per ISA.
use vstd::prelude::*;

pub mod riscv64_linux;
pub mod x86_64_linux;

verus! {

/// The four bytes of a 32-bit word, least significant first.
pub open spec fn le32(w: u32) -> Seq<u8> {
    seq![(w & 0xff) as u8, ((w >> 8u32) & 0xff) as u8, ((w >> 16u32) & 0xff) as u8, (w >> 24u32) as u8]
}

/// Relies on bytemuck::bytes_of: the bytes of a `u32` as it lies in memory.
/// `to_le` first stores the value least significant byte first.
#[verifier::external_body]
fn le_bytes(w: u32) -> (r: Vec<u8>)
    ensures
        r@ == le32(w),
{
    bytemuck::bytes_of(&w.to_le()).to_vec()
}

/// Appends `bytes` to `code`.
pub fn push_all(code: &mut Vec<u8>, bytes: &[u8])
    ensures
        final(code)@ == old(code)@ + bytes@,
{
    let ghost start = code@;
    let mut i: usize = 0;
    while i < bytes.len()
        invariant
            i <= bytes@.len(),
            code@ == start + bytes@.take(i as int),
        decreases bytes.len() - i,
    {
        code.push(bytes[i]);
        assert(bytes@.take(i + 1) =~= bytes@.take(i as int).push(bytes@[i as int]));
        i += 1;
    }
    assert(bytes@.take(i as int) =~= bytes@);
}

/// Appends the little-endian bytes of `w` to `code`.
pub fn push_word(code: &mut Vec<u8>, w: u32)
    ensures
        final(code)@ == old(code)@ + le32(w),
{
    let bytes = le_bytes(w);
    push_all(code, bytes.as_slice());
}

} // verus!
