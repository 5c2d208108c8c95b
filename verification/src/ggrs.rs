//! Bridges the session into GGRS's own checksum mechanism: the game's
//! checksum for `GameStateCell::save` is the session's own hash, widened to
//! GGRS's 128 bits, and a GGRS desync event is fed back into the session
//! for bisection and recording.
use vstd::prelude::*;

use crate::error::Error;
use crate::hash::{hash_bytes, xxh3_64_of};
use crate::session::{Session, after_peer_hash};

verus! {

/// A game state's checksum for GGRS: the 64-bit state hash in the low 64
/// bits of a 128-bit checksum, high bits zero.
pub fn checksum(state_bytes: &[u8]) -> (c: u128)
    ensures
        c == xxh3_64_of(state_bytes@) as u128,
        c < 0x1_0000_0000_0000_0000u128,
{
    hash_bytes(state_bytes) as u128
}

/// The low 64 bits of a GGRS checksum: for one made by [`checksum`], the
/// original state hash.
pub fn narrow(ggrs_checksum: u128) -> (h: u64)
    ensures
        h == ggrs_checksum % 0x1_0000_0000_0000_0000u128,
{
    assert((ggrs_checksum as u64) == ggrs_checksum % 0x1_0000_0000_0000_0000u128) by (bit_vector);
    #[verifier::truncate]
    (ggrs_checksum as u64)
}

/// Narrowing a checksum recovers the exact state hash it was made from.
pub proof fn lemma_narrow_checksum(state: Seq<u8>)
    ensures
        (xxh3_64_of(state) as u128) % 0x1_0000_0000_0000_0000u128 == xxh3_64_of(state),
{
    let h = xxh3_64_of(state);
    assert((h as u128) % 0x1_0000_0000_0000_0000u128 == h) by (bit_vector);
}

/// Feeds a GGRS `DesyncDetected` event into a session: both peers'
/// checksums, narrowed back to hashes, are recorded for `tick` as reported
/// by the local and the remote peer.
pub fn record_desync(
    session: &mut Session,
    tick: u64,
    local_peer_id: u16,
    remote_peer_id: u16,
    local_checksum: u128,
    remote_checksum: u128,
) -> (r: Result<(), Error>)
    requires
        old(session).wf(),
    ensures
        final(session).wf(),
        r is Ok,
        final(session)@ == after_peer_hash(
            after_peer_hash(
                old(session)@,
                tick,
                local_peer_id,
                (local_checksum % 0x1_0000_0000_0000_0000u128) as u64,
            ),
            tick,
            remote_peer_id,
            (remote_checksum % 0x1_0000_0000_0000_0000u128) as u64,
        ),
{
    let _ = session.record_peer_hash(tick, local_peer_id, narrow(local_checksum));
    let _ = session.record_peer_hash(tick, remote_peer_id, narrow(remote_checksum));
    Ok(())
}

} // verus!
