//! Decoding GBK bytes.

use encoding_rs::GBK;
use vstd::prelude::*;

use crate::loader::cells::ascii_text;

verus! {

/// The text that `encoding_rs::GBK.decode` makes of bytes.
pub uninterp spec fn gbk_text(bytes: Seq<u8>) -> Seq<char>;

/// Whether all bytes are below 128.
pub open spec fn all_ascii(bytes: Seq<u8>) -> bool {
    forall|i: int| 0 <= i < bytes.len() ==> #[trigger] bytes[i] < 0x80
}

/// Decodes GBK bytes, by `encoding_rs::GBK.decode`.
///
/// The text depends on the bytes alone. Bytes below 128 stand for themselves
/// where there are no others. What else stands for which character, what a
/// malformed sequence becomes and which byte order marks are heeded is the
/// decoder's, and left unsaid. The decoder sets aside three bytes of text for
/// each byte, and the bound leaves out the lengths at which that number has
/// no place in a `usize`.
#[verifier::external_body]
pub fn decode_gbk(bytes: &[u8]) -> (r: String)
    requires
        bytes@.len() < usize::MAX / 8,
    ensures
        r@ == gbk_text(bytes@),
        all_ascii(bytes@) ==> r@ == ascii_text(bytes@),
{
    let (cow, _, _) = GBK.decode(bytes);
    cow.into_owned()
}

} // verus!
