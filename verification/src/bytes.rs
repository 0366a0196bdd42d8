//! Byte-sequence helpers shared by the format encoders and decoders.

use vstd::bytes::*;
use vstd::prelude::*;

verus! {

/// Appends all of `src` to `dst`.
pub fn push_all(dst: &mut Vec<u8>, src: &[u8])
    ensures
        final(dst)@ == old(dst)@ + src@,
{
    dst.extend_from_slice(src);
    assert(final(dst)@ =~= old(dst)@ + src@);
}

/// The deep view of a byte vector is its view.
pub broadcast proof fn lemma_bytes_deep_view(v: Vec<u8>)
    ensures
        #[trigger] v.deep_view() == v@,
{
    assert(v.deep_view() =~= v@);
}

/// The deep view of an optional byte vector is the optional view.
pub broadcast proof fn lemma_opt_bytes_deep_view(v: Option<Vec<u8>>)
    ensures
        #[trigger] v.deep_view() == (match v {
            Some(x) => Some(x@),
            None => None::<Seq<u8>>,
        }),
{
    if let Some(x) = v {
        lemma_bytes_deep_view(x);
    }
}

pub broadcast group group_byte_views {
    lemma_bytes_deep_view,
    lemma_opt_bytes_deep_view,
}


} // verus!
