use foldback::bisect::{find_first_divergence, DivergenceTick, TickHashRecord};

fn rec(tick: u64, peer_id: u16, hash: u64) -> TickHashRecord {
    TickHashRecord {
        tick,
        peer_id,
        hash,
    }
}

#[test]
fn no_divergence_when_all_agree() {
    let records = vec![
        rec(0, 0, 100),
        rec(0, 1, 100),
        rec(1, 0, 200),
        rec(1, 1, 200),
        rec(2, 0, 300),
        rec(2, 1, 300),
    ];
    assert_eq!(find_first_divergence(&records), None);
}

#[test]
fn finds_exact_injected_divergence_tick() {
    let records = vec![
        rec(0, 0, 100),
        rec(0, 1, 100),
        rec(1, 0, 200),
        rec(1, 1, 200),
        rec(2, 0, 300),
        rec(2, 1, 999), // injected divergence at tick 2
        rec(3, 0, 400),
        rec(3, 1, 999), // would also diverge, but 2 is first
    ];
    assert_eq!(find_first_divergence(&records), Some(DivergenceTick(2)));
}

#[test]
fn ignores_ticks_with_only_one_reporting_peer() {
    let records = vec![
        rec(0, 0, 100), // only one peer has reported this tick so far
        rec(1, 0, 200),
        rec(1, 1, 200),
    ];
    assert_eq!(find_first_divergence(&records), None);
}

#[test]
fn three_or_more_peers_any_odd_one_out_is_caught() {
    let records = vec![
        rec(5, 0, 42),
        rec(5, 1, 42),
        rec(5, 2, 7), // peer 2 is the odd one out
    ];
    assert_eq!(find_first_divergence(&records), Some(DivergenceTick(5)));
}

#[test]
fn earliest_tick_wins_whatever_the_report_order() {
    let records = vec![
        rec(9, 0, 1),
        rec(9, 1, 2),
        rec(4, 0, 5),
        rec(4, 1, 6),
        rec(7, 0, 1),
    ];
    assert_eq!(find_first_divergence(&records), Some(DivergenceTick(4)));
}

#[test]
fn empty_input_has_no_divergence() {
    assert_eq!(find_first_divergence(&[]), None);
}

#[test]
fn single_injected_divergence_is_found_at_every_position() {
    for clean_ticks in 1u64..12 {
        for divergence_at in 0u64..12 {
            let mut records = Vec::new();
            for t in 0..clean_ticks {
                records.push(rec(t, 0, t * 7 + 1));
                records.push(rec(t, 1, t * 7 + 1));
            }
            if divergence_at < clean_ticks {
                for r in records.iter_mut() {
                    if r.tick == divergence_at && r.peer_id == 1 {
                        r.hash = r.hash.wrapping_add(1);
                    }
                }
                assert_eq!(
                    find_first_divergence(&records),
                    Some(DivergenceTick(divergence_at))
                );
            } else {
                assert_eq!(find_first_divergence(&records), None);
            }
        }
    }
}

#[test]
fn one_peer_reporting_two_hashes_for_a_tick_is_not_a_divergence() {
    let records = vec![
        TickHashRecord { tick: 4, peer_id: 0, hash: 1 },
        TickHashRecord { tick: 4, peer_id: 0, hash: 2 },
    ];
    assert_eq!(find_first_divergence(&records), None);
    let with_other_peer = vec![
        TickHashRecord { tick: 4, peer_id: 0, hash: 1 },
        TickHashRecord { tick: 4, peer_id: 0, hash: 2 },
        TickHashRecord { tick: 4, peer_id: 1, hash: 1 },
    ];
    assert_eq!(find_first_divergence(&with_other_peer), Some(DivergenceTick(4)));
}
