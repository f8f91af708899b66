//! The two points where the engine relies on outside code: the wall
//! clock, and lossy UTF-8 decoding of key bytes read back from segment
//! file headers.

use vstd::prelude::*;

verus! {

/// What `String::from_utf8_lossy` returns for a byte sequence: a
/// function of the bytes alone.
pub uninterp spec fn lossy_utf8(bytes: Seq<u8>) -> Seq<char>;

/// Relies on std's `String::from_utf8_lossy`: the result depends on
/// the bytes alone, and, as documented, valid UTF-8 is returned
/// unchanged.
#[verifier::external_body]
pub(crate) fn bytes_to_string_lossy(bytes: &Vec<u8>) -> (r: String)
    ensures
        r@ == lossy_utf8(bytes@),
        vstd::utf8::valid_utf8(bytes@) ==> r@ == vstd::utf8::decode_utf8(bytes@),
{
    String::from_utf8_lossy(bytes.as_slice()).into_owned()
}

/// Relies on std's `SystemTime::now`: the wall clock as whole seconds
/// since the Unix epoch, zero when the clock stands before the epoch.
/// Nothing is assumed of the clock's value, and no outcome of
/// `duration_since` panics.
#[verifier::external_body]
pub(crate) fn unix_now_seconds() -> u64 {
    match std::time::SystemTime::now().duration_since(std::time::UNIX_EPOCH) {
        Ok(d) => d.as_secs(),
        Err(_) => 0,
    }
}

} // verus!
