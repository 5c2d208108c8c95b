use foldback::ggrs::{checksum, narrow, record_desync};
use foldback::hash::hash_bytes;
use foldback::session::Session;

#[test]
fn checksum_narrows_back_to_the_original_hash() {
    let bytes = b"some game state";
    let original = hash_bytes(bytes);
    let widened = checksum(bytes);
    assert_eq!(narrow(widened), original);
}

#[test]
fn matching_checksums_produce_no_divergence() {
    let mut session = Session::builder().peer_count(2).build().unwrap();
    let cs = checksum(b"agreed state");
    record_desync(&mut session, 10, 0, 1, cs, cs).unwrap();
    assert_eq!(session.check_divergence(), None);
}

#[test]
fn mismatched_checksums_produce_a_divergence_at_the_reported_frame() {
    let mut session = Session::builder().peer_count(2).build().unwrap();
    let local = checksum(b"peer 0's state");
    let remote = checksum(b"peer 1's drifted state");
    record_desync(&mut session, 42, 0, 1, local, remote).unwrap();
    let divergence = session.check_divergence();
    assert_eq!(divergence.map(|d| d.0), Some(42));
}

#[test]
fn checksum_high_bits_are_zero_and_narrow_keeps_the_low_bits() {
    assert_eq!(checksum(b"x") >> 64, 0);
    assert_eq!(narrow(0xffff_0000_0000_0000_0000_0000_1234_5678u128), 0x1234_5678);
}
