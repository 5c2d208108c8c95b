//! zstd compression for full-state snapshots. Used only at the configured
//! snapshot cadence, never on the per-tick hot path.
use vstd::prelude::*;

use crate::error::Error;

verus! {

/// The zstd frame that `zstd::encode_all` produces for `bytes` at
/// compression `level`.
pub uninterp spec fn zstd_frame_of(bytes: Seq<u8>, level: i32) -> Seq<u8>;

/// What `zstd::decode_all` makes of `data`: the decompressed bytes, or
/// `None` when it reports an error.
pub uninterp spec fn zstd_decoded(data: Seq<u8>) -> Option<Seq<u8>>;

/// Compresses `bytes` with `zstd::encode_all` at `level` (0 selects zstd's
/// default level).
///
/// Trusted: the call succeeds (it reads a slice and writes into a `Vec`,
/// neither of which can fail, and zstd clamps any level into its range),
/// and its result is the zstd frame for the input and level, which depends
/// on them alone.
#[verifier::external_body]
fn zstd_encode_all(bytes: &[u8], level: i32) -> (r: Result<Vec<u8>, std::io::Error>)
    ensures
        r is Ok,
        r matches Ok(c) ==> c@ == zstd_frame_of(bytes@, level),
{
    zstd::encode_all(bytes, level)
}

/// Decompresses `data` with `zstd::decode_all`.
///
/// Trusted: the outcome is the one named by `zstd_decoded`, and, zstd being
/// lossless, decoding the frame `zstd::encode_all` made for some bytes at
/// some level gives those bytes back.
#[verifier::external_body]
fn zstd_decode_all(data: &[u8]) -> (r: Result<Vec<u8>, std::io::Error>)
    ensures
        match r {
            Ok(v) => {
                &&& zstd_decoded(data@) == Some(v@)
                &&& forall|x: Seq<u8>, level: i32|
                    data@ == #[trigger] zstd_frame_of(x, level) ==> v@ == x
            },
            Err(_) => {
                &&& zstd_decoded(data@) is None
                &&& forall|x: Seq<u8>, level: i32| data@ != #[trigger] zstd_frame_of(x, level)
            },
        },
{
    zstd::decode_all(data)
}

/// Compresses a snapshot: always succeeds, with the zstd frame for the
/// bytes at `level`.
pub fn compress(bytes: &[u8], level: i32) -> (r: Result<Vec<u8>, Error>)
    ensures
        r matches Ok(c) && c@ == zstd_frame_of(bytes@, level),
{
    match zstd_encode_all(bytes, level) {
        Ok(c) => Ok(c),
        Err(e) => Err(Error::Io(e)),
    }
}

/// Decompresses a snapshot. Data the decompressor rejects (corrupt or cut
/// off) is [`Error::CorruptSnapshot`], never a panic; what [`compress`]
/// produced decompresses to the original bytes.
pub fn decompress(compressed: &[u8]) -> (r: Result<Vec<u8>, Error>)
    ensures
        match r {
            Ok(v) => zstd_decoded(compressed@) == Some(v@),
            Err(e) => e is CorruptSnapshot && zstd_decoded(compressed@) is None,
        },
        forall|x: Seq<u8>, level: i32|
            compressed@ == #[trigger] zstd_frame_of(x, level) ==> (r matches Ok(v) && v@ == x),
{
    match zstd_decode_all(compressed) {
        Ok(v) => Ok(v),
        Err(_) => Err(Error::CorruptSnapshot),
    }
}

} // verus!
