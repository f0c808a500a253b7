//! Trusted view of the growable receive buffer the incremental decoder
//! consumes from.
use vstd::prelude::*;

verus! {

#[verifier::external_type_specification]
#[verifier::external_body]
pub struct ExBytesMut(bytes::BytesMut);

/// The bytes the buffer currently holds, front to back.
pub uninterp spec fn bm_view(b: bytes::BytesMut) -> Seq<u8>;

/// Relies on `<BytesMut as AsRef<[u8]>>::as_ref`: the readable bytes as a
/// slice, front to back.
#[verifier::external_body]
pub(crate) fn bm_slice(buf: &bytes::BytesMut) -> (r: &[u8])
    ensures
        r@ == bm_view(*buf),
{
    buf.as_ref()
}

/// Relies on `<BytesMut as bytes::Buf>::advance`: discards exactly the
/// first `n` readable bytes. It panics when `n` exceeds what remains, which
/// the precondition rules out.
#[verifier::external_body]
pub(crate) fn bm_advance(buf: &mut bytes::BytesMut, n: usize)
    requires
        n <= bm_view(*old(buf)).len(),
    ensures
        bm_view(*final(buf)) == bm_view(*old(buf)).skip(n as int),
{
    bytes::Buf::advance(buf, n)
}

} // verus!
