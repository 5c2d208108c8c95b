//! Loads a `.foldback` recording into the flat shape a session viewer
//! renders: hashes as hex text, the tick range, snapshot ticks and the first
//! divergence. Read-only and offline.
use vstd::prelude::*;

use crate::bisect::{
    TickHashRecord,
    find_first_divergence,
    has_new_divergence,
    is_first_new_divergence,
};
use crate::error::Error;
use crate::format::{Frame, FrameModel, header_decodes_to, TYPE_END_OF_STREAM, TYPE_METADATA};
use crate::hex_text::{hex_bytes_text, hex_fixed, hex_of_bytes, hex_u64_text};
use crate::report::{count_type, read_failure, read_session, recording_frames, tick_records_of};

verus! {

/// A failure to load a recording.
#[derive(Debug)]
pub enum LoadError {
    /// The file could not be opened or read.
    Open { path: String, source: std::io::Error },
    /// The file's contents are not a readable recording.
    Format { path: String, source: Error },
}

/// One tick hash, with the hash as 16 hex digits.
#[derive(Debug, Clone)]
pub struct TickHashEntry {
    pub tick: u64,
    pub peer_id: u16,
    pub hash: String,
}

/// One entity hash, with the hash as 16 hex digits.
#[derive(Debug, Clone)]
pub struct EntityHashEntry {
    pub tick: u64,
    pub peer_id: u16,
    pub entity_id: u64,
    pub hash: String,
}

/// One field hash, with the hash as 16 hex digits and the raw field value
/// bytes as hex: what the viewer shows when bisecting a divergence down to
/// the differing field.
#[derive(Debug, Clone)]
pub struct FieldHashEntry {
    pub tick: u64,
    pub peer_id: u16,
    pub entity_id: u64,
    pub field_name: String,
    pub hash: String,
    pub value_hex: String,
}

/// Everything the viewer shows of one recording.
#[derive(Debug)]
pub struct SessionData {
    pub file_name: String,
    pub tick_rate_hz: u32,
    pub peer_count: u32,
    pub build_id: String,
    pub min_tick: u64,
    pub max_tick: u64,
    pub ended_cleanly: bool,
    pub tick_hashes: Vec<TickHashEntry>,
    pub entity_hashes: Vec<EntityHashEntry>,
    pub field_hashes: Vec<FieldHashEntry>,
    pub snapshot_ticks: Vec<u64>,
    /// Metadata frames carry no tick, so this is a count for the summary,
    /// not a set of timeline markers.
    pub metadata_count: usize,
    pub divergence_tick: Option<u64>,
}

/// A hash as the viewer shows it: 16 lower-case hex digits.
pub fn hex(bytes: u64) -> (r: String)
    ensures
        r@ == hex_fixed(bytes as nat, 16),
{
    hex_u64_text(bytes)
}

/// The tick-hash entries of the frames: tick, peer, hash text.
pub open spec fn tick_entries_of(fs: Seq<FrameModel>) -> Seq<(u64, u16, Seq<char>)>
    decreases fs.len(),
{
    if fs.len() == 0 {
        seq![]
    } else {
        let prev = tick_entries_of(fs.drop_last());
        match fs.last() {
            FrameModel::TickHash { tick, peer_id, hash } => prev.push(
                (tick, peer_id, hex_fixed(hash as nat, 16)),
            ),
            _ => prev,
        }
    }
}

/// The entity-hash entries of the frames: tick, peer, entity, hash text.
pub open spec fn entity_entries_of(fs: Seq<FrameModel>) -> Seq<(u64, u16, u64, Seq<char>)>
    decreases fs.len(),
{
    if fs.len() == 0 {
        seq![]
    } else {
        let prev = entity_entries_of(fs.drop_last());
        match fs.last() {
            FrameModel::EntityHash { tick, peer_id, entity_id, hash } => prev.push(
                (tick, peer_id, entity_id, hex_fixed(hash as nat, 16)),
            ),
            _ => prev,
        }
    }
}

/// The field-hash entries of the frames: tick, peer, entity, field name,
/// hash text, value text.
pub open spec fn field_entries_of(fs: Seq<FrameModel>) -> Seq<
    (u64, u16, u64, Seq<char>, Seq<char>, Seq<char>),
>
    decreases fs.len(),
{
    if fs.len() == 0 {
        seq![]
    } else {
        let prev = field_entries_of(fs.drop_last());
        match fs.last() {
            FrameModel::FieldHash { tick, peer_id, entity_id, field_name, hash, value } => prev.push(
                (tick, peer_id, entity_id, field_name, hex_fixed(hash as nat, 16), hex_of_bytes(value)),
            ),
            _ => prev,
        }
    }
}

/// The ticks of the snapshot frames, in order.
pub open spec fn snapshot_ticks_of(fs: Seq<FrameModel>) -> Seq<u64>
    decreases fs.len(),
{
    if fs.len() == 0 {
        seq![]
    } else {
        let prev = snapshot_ticks_of(fs.drop_last());
        match fs.last() {
            FrameModel::Snapshot { tick, .. } => prev.push(tick),
            _ => prev,
        }
    }
}

/// The smallest tick among the records, or `u64::MAX` when there is none.
pub open spec fn min_tick_of(rs: Seq<TickHashRecord>) -> u64
    decreases rs.len(),
{
    if rs.len() == 0 {
        u64::MAX
    } else {
        let m = min_tick_of(rs.drop_last());
        if rs.last().tick < m {
            rs.last().tick
        } else {
            m
        }
    }
}

/// The largest tick among the records, or 0 when there is none.
pub open spec fn max_tick_of(rs: Seq<TickHashRecord>) -> u64
    decreases rs.len(),
{
    if rs.len() == 0 {
        0
    } else {
        let m = max_tick_of(rs.drop_last());
        if rs.last().tick > m {
            rs.last().tick
        } else {
            m
        }
    }
}

/// Strictly increasing.
pub open spec fn strictly_increasing(s: Seq<u64>) -> bool {
    forall|i: int, j: int| #![trigger s[i], s[j]] 0 <= i < j < s.len() ==> s[i] < s[j]
}

/// The values of `v`, each once, in increasing order.
fn sorted_unique(v: &Vec<u64>) -> (r: Vec<u64>)
    ensures
        strictly_increasing(r@),
        forall|x: u64| r@.contains(x) <==> v@.contains(x),
{
    let mut out: Vec<u64> = Vec::new();
    let mut i: usize = 0;
    while i < v.len()
        invariant
            i <= v@.len(),
            strictly_increasing(out@),
            forall|x: u64| out@.contains(x) <==> v@.take(i as int).contains(x),
        decreases v@.len() - i,
    {
        let x = v[i];
        let mut j: usize = 0;
        while j < out.len() && out[j] < x
            invariant
                j <= out@.len(),
                i < v@.len(),
                x == v@[i as int],
                strictly_increasing(out@),
                forall|y: u64| out@.contains(y) <==> v@.take(i as int).contains(y),
                forall|k: int| 0 <= k < j ==> #[trigger] out@[k] < x,
            decreases out@.len() - j,
        {
            j = j + 1;
        }
        let ghost before = out@;
        proof {
            assert(v@.take(i + 1) =~= v@.take(i as int).push(x));
            assert forall|y: u64| v@.take(i + 1).contains(y) <==> (v@.take(i as int).contains(y) || y == x) by {
                vstd::seq_lib::lemma_seq_contains_after_push(v@.take(i as int), x, y);
            }
        }
        if j < out.len() && out[j] == x {
            assert(before.contains(x));
        } else {
            out.insert(j, x);
            proof {
                assert(out@ =~= before.insert(j as int, x));
                assert forall|a: int, b: int| #![trigger out@[a], out@[b]] 0 <= a < b < out@.len() implies out@[a]
                    < out@[b] by {
                    if b < j {
                        assert(before[a] < before[b]);
                    } else if b == j {
                        assert(out@[a] == before[a]);
                    } else if a < j {
                        assert(out@[a] == before[a] && out@[b] == before[b - 1]);
                        assert(before[j as int] > x);
                        if b - 1 > j {
                            assert(before[j as int] < before[b - 1]);
                        }
                    } else if a == j {
                        assert(before[j as int] > x);
                        if b - 1 > j {
                            assert(before[j as int] < before[b - 1]);
                        }
                    } else {
                        assert(before[a - 1] < before[b - 1]);
                    }
                }
                assert forall|y: u64| out@.contains(y) <==> v@.take(i + 1).contains(y) by {
                    if out@.contains(y) {
                        let k = choose|k: int| 0 <= k < out@.len() && out@[k] == y;
                        if k < j {
                            assert(before[k] == y);
                        } else if k > j {
                            assert(before[k - 1] == y);
                        }
                    }
                    if before.contains(y) {
                        let k = choose|k: int| 0 <= k < before.len() && before[k] == y;
                        if k < j {
                            assert(out@[k] == y);
                        } else {
                            assert(out@[k + 1] == y);
                        }
                    }
                    if y == x {
                        assert(out@[j as int] == y);
                    }
                }
            }
        }
        i = i + 1;
    }
    assert(v@.take(v@.len() as int) =~= v@);
    out
}

/// `d` is what the viewer shows of a recording named `file_name`, with
/// header `h` and frames `fs`.
pub open spec fn session_data_matches(
    d: SessionData,
    file_name: Seq<char>,
    tick_rate_hz: u32,
    peer_count: u32,
    build_id: Seq<u8>,
    fs: Seq<FrameModel>,
) -> bool {
    let recs = tick_records_of(fs);
    &&& d.file_name@ == file_name
    &&& d.tick_rate_hz == tick_rate_hz
    &&& d.peer_count == peer_count
    &&& d.build_id@ == hex_of_bytes(build_id)
    &&& d.min_tick == if min_tick_of(recs) == u64::MAX {
        0
    } else {
        min_tick_of(recs)
    }
    &&& d.max_tick == max_tick_of(recs)
    &&& d.ended_cleanly == (count_type(fs, TYPE_END_OF_STREAM) > 0)
    &&& d.tick_hashes@.map_values(|e: TickHashEntry| (e.tick, e.peer_id, e.hash@))
        == tick_entries_of(fs)
    &&& d.entity_hashes@.map_values(
        |e: EntityHashEntry| (e.tick, e.peer_id, e.entity_id, e.hash@),
    ) == entity_entries_of(fs)
    &&& d.field_hashes@.map_values(
        |e: FieldHashEntry| (e.tick, e.peer_id, e.entity_id, e.field_name@, e.hash@, e.value_hex@),
    ) == field_entries_of(fs)
    &&& d.metadata_count == count_type(fs, TYPE_METADATA)
    &&& match d.divergence_tick {
        Some(t) => {
            &&& is_first_new_divergence(recs, Set::empty(), t)
            &&& strictly_increasing(d.snapshot_ticks@)
            &&& forall|x: u64| #[trigger]
                d.snapshot_ticks@.contains(x) <==> snapshot_ticks_of(fs).contains(x)
        },
        None => {
            &&& !has_new_divergence(recs, Set::empty())
            &&& d.snapshot_ticks@ == snapshot_ticks_of(fs)
        },
    }
}

/// Loads the recording at `path`, named `file_name`, whose bytes are
/// `contents`. When peers diverge, the snapshot ticks come sorted and
/// without repeats; otherwise in recording order.
pub fn load(file_name: &str, path: &str, contents: &[u8]) -> (r: Result<SessionData, LoadError>)
    ensures
        match r {
            Ok(d) => {
                &&& read_failure(contents@) is None
                &&& exists|h: crate::format::Header|
                    header_decodes_to(contents@, h) && session_data_matches(
                        d,
                        file_name@,
                        h.tick_rate_hz,
                        h.peer_count,
                        h.build_id@,
                        recording_frames(contents@),
                    )
            },
            Err(LoadError::Format { path: p, source }) => {
                &&& p@ == path@
                &&& read_failure(contents@) == Some(source)
            },
            Err(LoadError::Open { .. }) => false,
        },
{
    let (header, frames) = match read_session(contents) {
        Ok(v) => v,
        Err(source) => {
            return Err(LoadError::Format { path: String::from_str(path), source });
        },
    };
    let ghost fs = frames@.map_values(|f: Frame| f@);
    let mut tick_records: Vec<TickHashRecord> = Vec::new();
    let mut tick_hashes: Vec<TickHashEntry> = Vec::new();
    let mut entity_hashes: Vec<EntityHashEntry> = Vec::new();
    let mut field_hashes: Vec<FieldHashEntry> = Vec::new();
    let mut snapshot_ticks: Vec<u64> = Vec::new();
    let mut metadata_count: usize = 0;
    let mut ended_cleanly = false;
    let mut min_tick: u64 = u64::MAX;
    let mut max_tick: u64 = 0;
    let mut i: usize = 0;
    while i < frames.len()
        invariant
            i <= frames@.len(),
            fs == frames@.map_values(|f: Frame| f@),
            tick_records@ == tick_records_of(fs.take(i as int)),
            min_tick == min_tick_of(tick_records@),
            max_tick == max_tick_of(tick_records@),
            tick_hashes@.map_values(|e: TickHashEntry| (e.tick, e.peer_id, e.hash@))
                == tick_entries_of(fs.take(i as int)),
            entity_hashes@.map_values(
                |e: EntityHashEntry| (e.tick, e.peer_id, e.entity_id, e.hash@),
            ) == entity_entries_of(fs.take(i as int)),
            field_hashes@.map_values(
                |e: FieldHashEntry|
                    (e.tick, e.peer_id, e.entity_id, e.field_name@, e.hash@, e.value_hex@),
            ) == field_entries_of(fs.take(i as int)),
            snapshot_ticks@ == snapshot_ticks_of(fs.take(i as int)),
            metadata_count == count_type(fs.take(i as int), TYPE_METADATA),
            ended_cleanly == (count_type(fs.take(i as int), TYPE_END_OF_STREAM) > 0),
            metadata_count <= i,
        decreases frames@.len() - i,
    {
        proof {
            let t = fs.take(i + 1);
            assert(t.drop_last() =~= fs.take(i as int));
            assert(t.last() == frames@[i as int]@);
        }
        match &frames[i] {
            Frame::TickHash { tick, peer_id, hash } => {
                let ghost recs = tick_records@;
                let ghost th = tick_hashes@;
                if *tick < min_tick {
                    min_tick = *tick;
                }
                if *tick > max_tick {
                    max_tick = *tick;
                }
                tick_records.push(TickHashRecord { tick: *tick, peer_id: *peer_id, hash: *hash });
                assert(tick_records@.drop_last() =~= recs);
                let e = TickHashEntry { tick: *tick, peer_id: *peer_id, hash: hex(*hash) };
                tick_hashes.push(e);
                assert(tick_hashes@.map_values(|e: TickHashEntry| (e.tick, e.peer_id, e.hash@))
                    =~= th.map_values(|e: TickHashEntry| (e.tick, e.peer_id, e.hash@)).push(
                    (e.tick, e.peer_id, e.hash@),
                ));
            },
            Frame::EntityHash { tick, peer_id, entity_id, hash } => {
                let ghost eh = entity_hashes@;
                let e = EntityHashEntry {
                    tick: *tick,
                    peer_id: *peer_id,
                    entity_id: *entity_id,
                    hash: hex(*hash),
                };
                entity_hashes.push(e);
                assert(entity_hashes@.map_values(
                    |e: EntityHashEntry| (e.tick, e.peer_id, e.entity_id, e.hash@),
                ) =~= eh.map_values(
                    |e: EntityHashEntry| (e.tick, e.peer_id, e.entity_id, e.hash@),
                ).push((e.tick, e.peer_id, e.entity_id, e.hash@)));
            },
            Frame::FieldHash { tick, peer_id, entity_id, field_name, hash, value } => {
                let ghost fh = field_hashes@;
                let e = FieldHashEntry {
                    tick: *tick,
                    peer_id: *peer_id,
                    entity_id: *entity_id,
                    field_name: field_name.clone(),
                    hash: hex(*hash),
                    value_hex: hex_bytes_text(value.as_slice()),
                };
                field_hashes.push(e);
                assert(field_hashes@.map_values(
                    |e: FieldHashEntry|
                        (e.tick, e.peer_id, e.entity_id, e.field_name@, e.hash@, e.value_hex@),
                ) =~= fh.map_values(
                    |e: FieldHashEntry|
                        (e.tick, e.peer_id, e.entity_id, e.field_name@, e.hash@, e.value_hex@),
                ).push((e.tick, e.peer_id, e.entity_id, e.field_name@, e.hash@, e.value_hex@)));
            },
            Frame::Snapshot { tick, .. } => {
                snapshot_ticks.push(*tick);
            },
            Frame::Metadata { .. } => {
                metadata_count = metadata_count + 1;
            },
            Frame::EndOfStream => {
                ended_cleanly = true;
            },
        }
        i = i + 1;
    }
    assert(fs.take(frames@.len() as int) =~= fs);
    let build_id = hex_bytes_text(header.build_id.as_slice());
    let divergence = find_first_divergence(tick_records.as_slice());
    let divergence_tick = match divergence {
        Some(d) => Some(d.0),
        None => None,
    };
    let snapshot_ticks = match divergence_tick {
        Some(_) => sorted_unique(&snapshot_ticks),
        None => snapshot_ticks,
    };
    let d = SessionData {
        file_name: String::from_str(file_name),
        tick_rate_hz: header.tick_rate_hz,
        peer_count: header.peer_count,
        build_id,
        min_tick: if min_tick == u64::MAX {
            0
        } else {
            min_tick
        },
        max_tick,
        ended_cleanly,
        tick_hashes,
        entity_hashes,
        field_hashes,
        snapshot_ticks,
        metadata_count,
        divergence_tick,
    };
    assert(header_decodes_to(contents@, header) && session_data_matches(
        d,
        file_name@,
        header.tick_rate_hz,
        header.peer_count,
        header.build_id@,
        recording_frames(contents@),
    ));
    Ok(d)
}

/// The smallest tick among a non-empty set of records is one of their
/// ticks, and no record has a smaller one.
pub proof fn lemma_min_tick_is_least(rs: Seq<TickHashRecord>)
    requires
        rs.len() > 0,
    ensures
        exists|i: int| 0 <= i < rs.len() && #[trigger] rs[i].tick == min_tick_of(rs),
        forall|i: int| 0 <= i < rs.len() ==> min_tick_of(rs) <= #[trigger] rs[i].tick,
    decreases rs.len(),
{
    let p = rs.drop_last();
    if p.len() > 0 {
        lemma_min_tick_is_least(p);
        let j = choose|j: int| 0 <= j < p.len() && #[trigger] p[j].tick == min_tick_of(p);
        assert(rs[j] == p[j]);
        if rs.last().tick < min_tick_of(p) {
            assert(rs[rs.len() - 1].tick == min_tick_of(rs));
        } else {
            assert(rs[j].tick == min_tick_of(rs));
        }
        assert forall|i: int| 0 <= i < rs.len() implies min_tick_of(rs) <= #[trigger] rs[i].tick by {
            if i < rs.len() - 1 {
                assert(rs[i] == p[i]);
            }
        }
    } else {
        assert(min_tick_of(p) == u64::MAX);
        assert(rs[0] == rs.last());
        assert(rs[0].tick == min_tick_of(rs));
    }
    assert(rs[rs.len() - 1] == rs.last());
}

/// The largest tick among a non-empty set of records is one of their
/// ticks, and no record has a larger one.
pub proof fn lemma_max_tick_is_greatest(rs: Seq<TickHashRecord>)
    requires
        rs.len() > 0,
    ensures
        exists|i: int| 0 <= i < rs.len() && #[trigger] rs[i].tick == max_tick_of(rs),
        forall|i: int| 0 <= i < rs.len() ==> #[trigger] rs[i].tick <= max_tick_of(rs),
    decreases rs.len(),
{
    let p = rs.drop_last();
    if p.len() > 0 {
        lemma_max_tick_is_greatest(p);
        let j = choose|j: int| 0 <= j < p.len() && #[trigger] p[j].tick == max_tick_of(p);
        assert(rs[j] == p[j]);
        if rs.last().tick > max_tick_of(p) {
            assert(rs[rs.len() - 1].tick == max_tick_of(rs));
        } else {
            assert(rs[j].tick == max_tick_of(rs));
        }
        assert forall|i: int| 0 <= i < rs.len() implies #[trigger] rs[i].tick <= max_tick_of(rs) by {
            if i < rs.len() - 1 {
                assert(rs[i] == p[i]);
            }
        }
    } else {
        assert(max_tick_of(p) == 0);
        assert(rs[0] == rs.last());
        assert(rs[0].tick == max_tick_of(rs));
    }
    assert(rs[rs.len() - 1] == rs.last());
}

/// The tick range the viewer shows spans exactly the recorded tick hashes:
/// its maximum is the largest recorded tick and, unless every recorded
/// tick is `u64::MAX`, its minimum is the smallest; with no tick hash
/// recorded both are 0.
pub proof fn lemma_viewer_tick_range(
    d: SessionData,
    file_name: Seq<char>,
    tick_rate_hz: u32,
    peer_count: u32,
    build_id: Seq<u8>,
    fs: Seq<FrameModel>,
)
    requires
        session_data_matches(d, file_name, tick_rate_hz, peer_count, build_id, fs),
    ensures
        ({
            let rs = tick_records_of(fs);
            &&& rs.len() == 0 ==> d.min_tick == 0 && d.max_tick == 0
            &&& rs.len() > 0 ==> {
                &&& exists|i: int| 0 <= i < rs.len() && #[trigger] rs[i].tick == d.max_tick
                &&& forall|i: int| 0 <= i < rs.len() ==> #[trigger] rs[i].tick <= d.max_tick
            }
            &&& (exists|i: int| 0 <= i < rs.len() && #[trigger] rs[i].tick < u64::MAX) ==> {
                &&& exists|i: int| 0 <= i < rs.len() && #[trigger] rs[i].tick == d.min_tick
                &&& forall|i: int| 0 <= i < rs.len() ==> d.min_tick <= #[trigger] rs[i].tick
            }
        }),
{
    let rs = tick_records_of(fs);
    if rs.len() > 0 {
        lemma_min_tick_is_least(rs);
        lemma_max_tick_is_greatest(rs);
    }
}

} // verus!
