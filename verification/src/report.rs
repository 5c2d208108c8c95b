//! Reading a whole `.foldback` recording and summarising it: the shared
//! loading step of the `analyze` and `ci-check` commands, so their reports
//! never drift apart, and of the session viewer.
use vstd::prelude::*;
use vstd::slice::*;

use crate::bisect::{
    DivergenceTick,
    TickHashRecord,
    find_first_divergence,
    has_new_divergence,
    is_first_new_divergence,
};
use crate::error::Error;
use crate::format::{
    Frame,
    FrameModel,
    FrameReader,
    Header,
    StreamStep,
    frame_type_code,
    header_decodes_to,
    lemma_frame_step_bounded,
    magic_bytes,
    reader_step,
    stream_steps,
    TYPE_END_OF_STREAM,
    TYPE_ENTITY_HASH,
    TYPE_FIELD_HASH,
    TYPE_METADATA,
    TYPE_SNAPSHOT,
};
use crate::hex_text::{hex_bytes_text, hex_of_bytes};

verus! {

/// No malformed frame among the steps.
pub open spec fn no_bad(steps: Seq<StreamStep>) -> bool {
    forall|i: int| 0 <= i < steps.len() ==> !(#[trigger] steps[i] is Bad)
}

/// The frame a step read (steps that read none do not occur where this is
/// used).
pub open spec fn step_frame(s: StreamStep) -> FrameModel {
    match s {
        StreamStep::Item(f) => f,
        _ => FrameModel::EndOfStream,
    }
}

/// The frames the steps read.
pub open spec fn steps_frames(steps: Seq<StreamStep>) -> Seq<FrameModel> {
    steps.map_values(|s: StreamStep| step_frame(s))
}

/// The steps of reading the frame stream that follows the 32-byte header.
pub open spec fn body_steps(contents: Seq<u8>) -> Seq<StreamStep> {
    stream_steps(contents.skip(32))
}

/// Why a recording cannot be read, if it cannot: a header cut short, a
/// wrong magic, or a malformed frame before the end of the stream.
pub open spec fn read_failure(contents: Seq<u8>) -> Option<Error> {
    if contents.len() < 32 {
        Some(Error::TruncatedHeader)
    } else if contents.subrange(0, 4) != magic_bytes() {
        Some(Error::BadMagic)
    } else if !no_bad(body_steps(contents)) {
        Some(Error::MalformedFrame)
    } else {
        None
    }
}

/// The frames of a readable recording.
pub open spec fn recording_frames(contents: Seq<u8>) -> Seq<FrameModel> {
    steps_frames(body_steps(contents))
}

/// Reads a whole recording: its header, then every frame up to the end of
/// the stream (the end of the data, a frame cut off by it, or an
/// `EndOfStream` frame). The first malformed frame fails the read.
pub fn read_session(contents: &[u8]) -> (r: Result<(Header, Vec<Frame>), Error>)
    ensures
        match r {
            Ok((h, fs)) => {
                &&& read_failure(contents@) is None
                &&& header_decodes_to(contents@, h)
                &&& fs@.map_values(|f: Frame| f@) == recording_frames(contents@)
            },
            Err(e) => read_failure(contents@) == Some(e),
        },
{
    let header = match Header::read_from(contents) {
        Ok(h) => h,
        Err(e) => {
            return Err(e);
        },
    };
    let rest = slice_to_vec(slice_subrange(contents, 32, contents.len()));
    assert(rest@ =~= contents@.skip(32));
    let mut reader = FrameReader::new(rest);
    let mut frames: Vec<Frame> = Vec::new();
    let ghost all = body_steps(contents@);
    let ghost mut done: Seq<StreamStep> = Seq::empty();
    loop
        invariant_except_break
            all == done + stream_steps(reader.remaining()),
        invariant
            all == body_steps(contents@),
            header_decodes_to(contents@, header),
            no_bad(done),
            frames@.map_values(|f: Frame| f@) == steps_frames(done),
        ensures
            all == done,
            no_bad(done),
            frames@.map_values(|f: Frame| f@) == steps_frames(done),
        decreases reader.remaining().len(),
    {
        let ghost rem = reader.remaining();
        proof {
            lemma_frame_step_bounded(rem);
        }
        match reader.next_frame() {
            Ok(None) => {
                assert(stream_steps(rem) =~= Seq::<StreamStep>::empty());
                assert(all =~= done);
                break;
            },
            Ok(Some(f)) => {
                proof {
                    assert(stream_steps(rem) == seq![StreamStep::Item(f@)] + stream_steps(
                        reader.remaining(),
                    ));
                    let d2 = done.push(StreamStep::Item(f@));
                    assert(all =~= d2 + stream_steps(reader.remaining()));
                    assert(steps_frames(d2) =~= steps_frames(done).push(f@));
                    done = d2;
                }
                let ghost before = frames@;
                frames.push(f);
                assert(frames@.map_values(|f: Frame| f@) =~= before.map_values(|f: Frame| f@).push(
                    f@,
                ));
            },
            Err(e) => {
                proof {
                    assert(stream_steps(rem)[0] is Bad);
                    assert(all[done.len() as int] is Bad);
                }
                return Err(e);
            },
        }
    }
    Ok((header, frames))
}

/// The tick-hash records among the frames, in order.
pub open spec fn tick_records_of(fs: Seq<FrameModel>) -> Seq<TickHashRecord>
    decreases fs.len(),
{
    if fs.len() == 0 {
        seq![]
    } else {
        let prev = tick_records_of(fs.drop_last());
        match fs.last() {
            FrameModel::TickHash { tick, peer_id, hash } => prev.push(
                TickHashRecord { tick, peer_id, hash },
            ),
            _ => prev,
        }
    }
}

/// How many of the frames have type byte `ty`.
pub open spec fn count_type(fs: Seq<FrameModel>, ty: u8) -> nat
    decreases fs.len(),
{
    if fs.len() == 0 {
        0
    } else {
        count_type(fs.drop_last(), ty) + if frame_type_code(fs.last()) == ty {
            1nat
        } else {
            0nat
        }
    }
}

/// A failure to produce a report.
#[derive(Debug)]
pub enum CliError {
    /// The file could not be opened or read.
    Open { path: String, source: std::io::Error },
    /// The file's contents are not a readable recording.
    Format { path: String, source: Error },
}

/// The summary of one recording.
#[derive(Debug)]
pub struct Report {
    pub header: Header,
    pub tick_hash_count: usize,
    pub entity_hash_count: usize,
    pub field_hash_count: usize,
    pub snapshot_count: usize,
    pub metadata_count: usize,
    /// The recording holds its closing `EndOfStream` frame.
    pub ended_cleanly: bool,
    /// The first tick at which two peers' tick hashes disagree.
    pub divergence: Option<DivergenceTick>,
}

/// `r` summarises a recording with header `h` and frames `fs`.
pub open spec fn report_matches(r: Report, h: Header, fs: Seq<FrameModel>) -> bool {
    &&& r.header == h
    &&& r.tick_hash_count == tick_records_of(fs).len()
    &&& r.entity_hash_count == count_type(fs, TYPE_ENTITY_HASH)
    &&& r.field_hash_count == count_type(fs, TYPE_FIELD_HASH)
    &&& r.snapshot_count == count_type(fs, TYPE_SNAPSHOT)
    &&& r.metadata_count == count_type(fs, TYPE_METADATA)
    &&& r.ended_cleanly == (count_type(fs, TYPE_END_OF_STREAM) > 0)
    &&& match r.divergence {
        Some(d) => is_first_new_divergence(tick_records_of(fs), Set::empty(), d.0),
        None => !has_new_divergence(tick_records_of(fs), Set::empty()),
    }
}

/// Loads the recording at `path`, whose bytes are `contents`, and
/// summarises it: the header, how many frames of each kind it holds,
/// whether it ended cleanly, and the first tick at which peers' tick
/// hashes disagree.
pub fn analyze(path: &str, contents: &[u8]) -> (r: Result<Report, CliError>)
    ensures
        match r {
            Ok(rep) => {
                &&& read_failure(contents@) is None
                &&& header_decodes_to(contents@, rep.header)
                &&& report_matches(rep, rep.header, recording_frames(contents@))
            },
            Err(CliError::Format { path: p, source }) => {
                &&& p@ == path@
                &&& read_failure(contents@) == Some(source)
            },
            Err(CliError::Open { .. }) => false,
        },
{
    let (header, frames) = match read_session(contents) {
        Ok(v) => v,
        Err(source) => {
            return Err(CliError::Format { path: String::from_str(path), source });
        },
    };
    let ghost fs = frames@.map_values(|f: Frame| f@);
    let mut tick_records: Vec<TickHashRecord> = Vec::new();
    let mut entity_hash_count: usize = 0;
    let mut field_hash_count: usize = 0;
    let mut snapshot_count: usize = 0;
    let mut metadata_count: usize = 0;
    let mut ended_cleanly = false;
    let mut i: usize = 0;
    while i < frames.len()
        invariant
            i <= frames@.len(),
            fs == frames@.map_values(|f: Frame| f@),
            tick_records@ == tick_records_of(fs.take(i as int)),
            entity_hash_count == count_type(fs.take(i as int), TYPE_ENTITY_HASH),
            field_hash_count == count_type(fs.take(i as int), TYPE_FIELD_HASH),
            snapshot_count == count_type(fs.take(i as int), TYPE_SNAPSHOT),
            metadata_count == count_type(fs.take(i as int), TYPE_METADATA),
            ended_cleanly == (count_type(fs.take(i as int), TYPE_END_OF_STREAM) > 0),
            tick_records@.len() <= i,
            entity_hash_count <= i,
            field_hash_count <= i,
            snapshot_count <= i,
            metadata_count <= i,
        decreases frames@.len() - i,
    {
        proof {
            let t = fs.take(i + 1);
            assert(t.drop_last() =~= fs.take(i as int));
            assert(t.last() == frames@[i as int]@);
        }
        match &frames[i] {
            Frame::TickHash { tick, peer_id, hash } => {
                tick_records.push(TickHashRecord { tick: *tick, peer_id: *peer_id, hash: *hash });
            },
            Frame::EntityHash { .. } => {
                entity_hash_count = entity_hash_count + 1;
            },
            Frame::FieldHash { .. } => {
                field_hash_count = field_hash_count + 1;
            },
            Frame::Snapshot { .. } => {
                snapshot_count = snapshot_count + 1;
            },
            Frame::Metadata { .. } => {
                metadata_count = metadata_count + 1;
            },
            Frame::EndOfStream => {
                ended_cleanly = true;
            },
        }
        i = i + 1;
    }
    assert(fs.take(frames@.len() as int) =~= fs);
    let divergence = find_first_divergence(tick_records.as_slice());
    Ok(
        Report {
            tick_hash_count: tick_records.len(),
            header,
            entity_hash_count,
            field_hash_count,
            snapshot_count,
            metadata_count,
            ended_cleanly,
            divergence,
        },
    )
}

/// The bytes in lower-case hex, two digits each: how a build id is shown.
pub fn hex(bytes: &[u8]) -> (r: String)
    ensures
        r@ == hex_of_bytes(bytes@),
{
    hex_bytes_text(bytes)
}

} // verus!
