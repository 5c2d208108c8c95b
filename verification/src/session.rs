//! The `Session` API, the library's integration surface: hash each tick's
//! state, exchange the hashes with peers, and ask for the first tick at
//! which they disagree. A recording session also encodes every frame of the
//! `.foldback` format; the caller takes the encoded bytes and writes them
//! wherever the recording goes.
use vstd::prelude::*;
use vstd::bytes::*;
use std::collections::vec_deque::Iter;

use crate::bisect::{
    DivergenceTable,
    DivergenceTick,
    TickHashRecord,
    has_new_divergence,
    is_first_new_divergence,
};
use crate::error::Error;
use crate::format::{
    Frame,
    FrameModel,
    Header,
    all_fit,
    end_only_last,
    field_hash_payload_fits,
    lemma_field_hash_fits,
    frame_bytes,
    frame_fits,
    frames_bytes,
    header_bytes,
    header_decodes_to,
    items,
    lemma_fixed_frames_fit,
    lemma_frames_bytes_push,
    lemma_header_round_trip,
    lemma_stream_round_trip,
    stream_steps,
};
use crate::hash::{hash_bytes, xxh3_64_of};
use crate::hashable::FoldbackHash;
use crate::ring_buffer::{TickWindow, keep_last_ticks, lemma_tick_window_bounded, tick_window};
use crate::schema::{fingerprint, fingerprint_of, schema_key_prefix, schema_metadata_key, str_eq};

verus! {

/// A tick hash produced locally, ready to exchange with peers over the
/// game's own netcode channel.
#[derive(Debug, Clone, Copy, PartialEq, Eq, Structural)]
pub struct PendingHash {
    pub tick: u64,
    pub hash: u64,
}

/// What a [`SessionBuilder`] has been told so far.
#[verifier::ext_equal]
pub struct BuilderSettings {
    pub tick_rate_hz: u32,
    pub peer_count: u32,
    pub local_peer_id: u16,
    pub retention: usize,
    pub build_id: [u8; 16],
    pub record_to: Option<Seq<char>>,
}

/// The settings of a fresh builder: 60 Hz, one peer, local peer 0, a
/// retention window of 600 ticks (ten seconds at 60 Hz), an all-zero build
/// id, and no recording.
pub open spec fn is_default_settings(b: BuilderSettings) -> bool {
    &&& b.tick_rate_hz == 60
    &&& b.peer_count == 1
    &&& b.local_peer_id == 0
    &&& b.retention == 600
    &&& b.build_id@ == Seq::new(16, |i: int| 0u8)
    &&& b.record_to is None
}

/// Configures a [`Session`].
pub struct SessionBuilder {
    tick_rate_hz: u32,
    peer_count: u32,
    local_peer_id: u16,
    retention: usize,
    build_id: [u8; 16],
    record_to: Option<String>,
}

impl View for SessionBuilder {
    type V = BuilderSettings;

    closed spec fn view(&self) -> BuilderSettings {
        BuilderSettings {
            tick_rate_hz: self.tick_rate_hz,
            peer_count: self.peer_count,
            local_peer_id: self.local_peer_id,
            retention: self.retention,
            build_id: self.build_id,
            record_to: match self.record_to {
                Some(p) => Some(p@),
                None => None,
            },
        }
    }
}

impl Default for SessionBuilder {
    fn default() -> (r: Self)
        ensures
            is_default_settings(r@),
    {
        let r = SessionBuilder {
            tick_rate_hz: 60,
            peer_count: 1,
            local_peer_id: 0,
            retention: 600,
            build_id: [0u8; 16],
            record_to: None,
        };
        assert(r.build_id@ =~= Seq::new(16, |i: int| 0u8));
        r
    }
}

impl SessionBuilder {
    pub fn tick_rate_hz(self, v: u32) -> (r: Self)
        ensures
            r@ == (BuilderSettings { tick_rate_hz: v, ..self@ }),
    {
        SessionBuilder { tick_rate_hz: v, ..self }
    }

    pub fn peer_count(self, v: u32) -> (r: Self)
        ensures
            r@ == (BuilderSettings { peer_count: v, ..self@ }),
    {
        SessionBuilder { peer_count: v, ..self }
    }

    /// Which peer this local session is, for attributing its own
    /// `hash_tick` calls in the cross-peer comparison. Defaults to 0.
    pub fn local_peer_id(self, v: u16) -> (r: Self)
        ensures
            r@ == (BuilderSettings { local_peer_id: v, ..self@ }),
    {
        SessionBuilder { local_peer_id: v, ..self }
    }

    /// Retention window of the in-memory tick-hash reports, in ticks: the
    /// reports of the most recent `v` ticks are kept, however many peers
    /// report each.
    /// Defaults to 600.
    pub fn retention(self, v: usize) -> (r: Self)
        ensures
            r@ == (BuilderSettings { retention: v, ..self@ }),
    {
        SessionBuilder { retention: v, ..self }
    }

    pub fn build_id(self, v: [u8; 16]) -> (r: Self)
        ensures
            r@ == (BuilderSettings { build_id: v, ..self@ }),
    {
        SessionBuilder { build_id: v, ..self }
    }

    /// Record every frame of the session, as it happens, for the `.foldback`
    /// file at `path`. The session encodes the file's header on `build()`
    /// and each frame as it is produced; [`Session::take_recorded_bytes`]
    /// hands the encoded bytes to whoever writes the file.
    pub fn record_to(self, path: &str) -> (r: Self)
        ensures
            r@ == (BuilderSettings { record_to: Some(path@), ..self@ }),
    {
        SessionBuilder { record_to: Some(String::from_str(path)), ..self }
    }

    /// The path given to [`SessionBuilder::record_to`], if any.
    pub fn record_path(&self) -> (r: Option<&String>)
        ensures
            match r {
                Some(p) => self@.record_to == Some(p@),
                None => self@.record_to is None,
            },
    {
        match &self.record_to {
            Some(p) => Some(p),
            None => None,
        }
    }

    /// Builds the session. When recording, the file header (this builder's
    /// tick rate, peer count and build id) is the first thing encoded.
    pub fn build(self) -> (r: Result<Session, Error>)
        ensures
            match r {
                Ok(s) => s.wf() && s@ == initial_model(self@),
                Err(_) => false,
            },
    {
        let recording = self.record_to.is_some();
        let header = Header::new(self.tick_rate_hz, self.peer_count, self.build_id);
        let mut output: Vec<u8> = Vec::new();
        if recording {
            header.write_to(&mut output);
        }
        let s = Session {
            tick_rate_hz: self.tick_rate_hz,
            peer_count: self.peer_count,
            local_peer_id: self.local_peer_id,
            window: TickWindow::new(self.retention),
            pending: Vec::new(),
            table: DivergenceTable::new(),
            cumulative: 0,
            recording,
            header,
            output,
            schema_types: Vec::new(),
            local: Ghost(Seq::empty()),
            handed_out: Ghost(Seq::empty()),
            frames: Ghost(Seq::empty()),
            taken: Ghost(0),
        };
        proof {
            assert(report_pairs(Seq::<TickHashRecord>::empty()) =~= Seq::<(u64, u64)>::empty());
            assert(frames_bytes(Seq::<FrameModel>::empty()) =~= Seq::<u8>::empty());
            assert(s.output@ =~= recorded_bytes(s@).skip(0));
            assert(s.pending@ + Seq::<PendingHash>::empty() =~= pending_of(Seq::empty()));
            assert(s.schema_types@.map_values(|t: String| t@) =~= Seq::<Seq<char>>::empty());
        }
        Ok(s)
    }
}

/// The state of a [`Session`].
#[verifier::ext_equal]
pub struct SessionModel {
    pub tick_rate_hz: u32,
    pub peer_count: u32,
    pub local_peer_id: u16,
    /// How many ticks the retention window keeps.
    pub retention: nat,
    /// The `(tick, hash)` reports of the most recent `retention` ticks,
    /// oldest first.
    pub retained: Seq<(u64, u64)>,
    /// Every `(tick, hash)` this session hashed itself, in order.
    pub local: Seq<(u64, u64)>,
    /// Local hashes handed out by the `take_pending_hashes*` calls so far.
    pub handed_out: Seq<PendingHash>,
    /// Local hashes not handed out yet, oldest first.
    pub pending: Seq<PendingHash>,
    /// Every tick hash reported by any peer (this session included).
    pub reports: Seq<TickHashRecord>,
    /// Ticks that `check_divergence` has already reported.
    pub reported: Set<u64>,
    /// Whether the session records its frames.
    pub recording: bool,
    /// The header of the recording.
    pub header: Header,
    /// The frames recorded so far, in order.
    pub frames: Seq<FrameModel>,
    /// How many bytes of the recording have been taken by the caller.
    pub taken: nat,
    /// The types whose schema has been recorded.
    pub schema_types: Seq<Seq<char>>,
}

/// The state right after `build()`.
pub open spec fn initial_model(b: BuilderSettings) -> SessionModel {
    SessionModel {
        tick_rate_hz: b.tick_rate_hz,
        peer_count: b.peer_count,
        local_peer_id: b.local_peer_id,
        retention: b.retention as nat,
        retained: seq![],
        local: seq![],
        handed_out: seq![],
        pending: seq![],
        reports: seq![],
        reported: Set::empty(),
        recording: b.record_to is Some,
        header: Header {
            format_version: 1,
            tick_rate_hz: b.tick_rate_hz,
            peer_count: b.peer_count,
            build_id: b.build_id,
        },
        frames: seq![],
        taken: 0,
        schema_types: seq![],
    }
}

/// The complete recording so far: the header, then every frame. Empty when
/// not recording.
pub open spec fn recorded_bytes(m: SessionModel) -> Seq<u8> {
    if m.recording {
        header_bytes(m.header) + frames_bytes(m.frames)
    } else {
        seq![]
    }
}

/// The `(tick, hash)` pairs of a sequence of reports.
pub open spec fn report_pairs(reports: Seq<TickHashRecord>) -> Seq<(u64, u64)> {
    reports.map_values(|r: TickHashRecord| (r.tick, r.hash))
}

/// The local hashes as pending-hash records.
pub open spec fn pending_of(local: Seq<(u64, u64)>) -> Seq<PendingHash> {
    local.map_values(|p: (u64, u64)| PendingHash { tick: p.0, hash: p.1 })
}

/// Appends `f` to the recording when recording.
pub open spec fn with_frame(m: SessionModel, f: FrameModel) -> SessionModel {
    if m.recording {
        SessionModel { frames: m.frames.push(f), ..m }
    } else {
        m
    }
}

/// The frame `hash_field` records for one field: its name and value bytes,
/// reported by `peer_id` for `entity_id` at `tick`.
pub open spec fn field_hash_frame(tick: u64, peer_id: u16, entity_id: u64, field: (Seq<char>, Seq<u8>)) -> FrameModel {
    FrameModel::FieldHash {
        tick,
        peer_id,
        entity_id,
        field_name: field.0,
        hash: xxh3_64_of(field.1),
        value: field.1,
    }
}

/// The state after `hash_field` is called once for each `(name, bytes)` of
/// `fields`, in order, for `entity_id` at `tick`.
pub open spec fn after_field_hashes(
    m: SessionModel,
    tick: u64,
    entity_id: u64,
    fields: Seq<(Seq<char>, Seq<u8>)>,
) -> SessionModel
    decreases fields.len(),
{
    if fields.len() == 0 {
        m
    } else {
        let prev = after_field_hashes(m, tick, entity_id, fields.drop_last());
        with_frame(prev, field_hash_frame(tick, prev.local_peer_id, entity_id, fields.last()))
    }
}

/// One more `hash_field` call extends a run of them: the state that
/// `hash_field(tick, entity_id, name, bytes)` promises after a run over
/// `fields` is the run over `fields` followed by `(name, bytes)`.
pub proof fn lemma_hash_field_extends_run(
    m: SessionModel,
    tick: u64,
    entity_id: u64,
    fields: Seq<(Seq<char>, Seq<u8>)>,
    name: Seq<char>,
    bytes: Seq<u8>,
)
    ensures
        ({
            let s = after_field_hashes(m, tick, entity_id, fields);
            with_frame(
                s,
                FrameModel::FieldHash {
                    tick,
                    peer_id: s.local_peer_id,
                    entity_id,
                    field_name: name,
                    hash: xxh3_64_of(bytes),
                    value: bytes,
                },
            ) == after_field_hashes(m, tick, entity_id, fields.push((name, bytes)))
        }),
{
    assert(fields.push((name, bytes)).drop_last() =~= fields);
}

/// `m` with, when recording, one field hash frame per `(name, bytes)` of
/// `fields` appended, in order, from this session's own peer id.
pub open spec fn with_field_hash_frames(
    m: SessionModel,
    tick: u64,
    entity_id: u64,
    fields: Seq<(Seq<char>, Seq<u8>)>,
) -> SessionModel {
    SessionModel {
        frames: if m.recording {
            m.frames + fields.map_values(
                |f: (Seq<char>, Seq<u8>)| field_hash_frame(tick, m.local_peer_id, entity_id, f),
            )
        } else {
            m.frames
        },
        ..m
    }
}

/// Hashing a sequence of fields one `hash_field` call at a time changes
/// nothing but the recording, and appends to it, when recording, one field
/// hash frame per field, in order, from this session's own peer id.
pub proof fn lemma_field_hashes_only_append_frames(
    m: SessionModel,
    tick: u64,
    entity_id: u64,
    fields: Seq<(Seq<char>, Seq<u8>)>,
)
    ensures
        after_field_hashes(m, tick, entity_id, fields) == with_field_hash_frames(m, tick, entity_id, fields),
    decreases fields.len(),
{
    if fields.len() > 0 {
        let init = fields.drop_last();
        lemma_field_hashes_only_append_frames(m, tick, entity_id, init);
        let g = |f: (Seq<char>, Seq<u8>)| field_hash_frame(tick, m.local_peer_id, entity_id, f);
        assert(fields.map_values(g) =~= init.map_values(g).push(g(fields.last())));
        assert(m.frames + init.map_values(g).push(g(fields.last())) =~= (m.frames + init.map_values(g)).push(
            g(fields.last()),
        ));
    } else {
        assert(m.frames + fields.map_values(
            |f: (Seq<char>, Seq<u8>)| field_hash_frame(tick, m.local_peer_id, entity_id, f),
        ) =~= m.frames);
    }
}

/// The state after a tick hash is reported by `peer_id`.
pub open spec fn after_peer_hash(m: SessionModel, tick: u64, peer_id: u16, hash: u64) -> SessionModel {
    with_frame(
        SessionModel {
            retained: keep_last_ticks(report_pairs(m.reports).push((tick, hash)), m.retention),
            reports: m.reports.push(TickHashRecord { tick, peer_id, hash }),
            ..m
        },
        FrameModel::TickHash { tick, peer_id, hash },
    )
}

/// The state after this session hashes a tick itself.
pub open spec fn after_local_hash(m: SessionModel, tick: u64, hash: u64) -> SessionModel {
    let r = after_peer_hash(m, tick, m.local_peer_id, hash);
    SessionModel {
        local: m.local.push((tick, hash)),
        pending: m.pending.push(PendingHash { tick, hash }),
        ..r
    }
}

/// Folds one tick into the running session hash: the xxHash3 digest of the
/// little-endian bytes of the previous value, the tick and its hash.
pub open spec fn combine_spec(acc: u64, tick: u64, hash: u64) -> u64 {
    xxh3_64_of(spec_u64_to_le_bytes(acc) + spec_u64_to_le_bytes(tick) + spec_u64_to_le_bytes(hash))
}

/// The combined hash over a sequence of locally hashed ticks, starting
/// from 0.
pub open spec fn cumulative_hash(local: Seq<(u64, u64)>) -> u64
    decreases local.len(),
{
    if local.len() == 0 {
        0
    } else {
        combine_spec(cumulative_hash(local.drop_last()), local.last().0, local.last().1)
    }
}

fn combine(acc: u64, tick: u64, hash: u64) -> (r: u64)
    ensures
        r == combine_spec(acc, tick, hash),
{
    let mut buf = u64_to_le_bytes(acc);
    let mut t = u64_to_le_bytes(tick);
    let mut h = u64_to_le_bytes(hash);
    buf.append(&mut t);
    buf.append(&mut h);
    assert(buf@ =~= spec_u64_to_le_bytes(acc) + spec_u64_to_le_bytes(tick) + spec_u64_to_le_bytes(
        hash,
    ));
    hash_bytes(buf.as_slice())
}

/// A divergence-detection session.
pub struct Session {
    tick_rate_hz: u32,
    peer_count: u32,
    local_peer_id: u16,
    window: TickWindow,
    pending: Vec<PendingHash>,
    table: DivergenceTable,
    cumulative: u64,
    recording: bool,
    header: Header,
    output: Vec<u8>,
    schema_types: Vec<String>,
    local: Ghost<Seq<(u64, u64)>>,
    handed_out: Ghost<Seq<PendingHash>>,
    frames: Ghost<Seq<FrameModel>>,
    taken: Ghost<nat>,
}

impl View for Session {
    type V = SessionModel;

    closed spec fn view(&self) -> SessionModel {
        SessionModel {
            tick_rate_hz: self.tick_rate_hz,
            peer_count: self.peer_count,
            local_peer_id: self.local_peer_id,
            retention: self.window.spec_capacity(),
            retained: self.window.contents().1,
            local: self.local@,
            handed_out: self.handed_out@,
            pending: self.pending@,
            reports: self.table.records(),
            reported: self.table.reported(),
            recording: self.recording,
            header: self.header,
            frames: self.frames@,
            taken: self.taken@,
            schema_types: self.schema_types@.map_values(|t: String| t@),
        }
    }
}

impl Session {
    /// The session's internal bookkeeping agrees with its state.
    pub closed spec fn wf(&self) -> bool {
        &&& self.table.wf()
        &&& self.window.contents() == tick_window(report_pairs(self.table.records()), self.window.spec_capacity())
        &&& self.cumulative == cumulative_hash(self.local@)
        &&& self.handed_out@ + self.pending@ == pending_of(self.local@)
        &&& all_fit(self.frames@)
        &&& self.taken@ <= recorded_bytes(self@).len()
        &&& self.output@ == recorded_bytes(self@).skip(self.taken@ as int)
        &&& (!self.recording ==> self.frames@.len() == 0 && self.taken@ == 0)
    }

    pub fn builder() -> (r: SessionBuilder)
        ensures
            is_default_settings(r@),
    {
        SessionBuilder::default()
    }

    /// Appends `frame` to the recording when recording.
    fn record_frame(&mut self, frame: Frame)
        requires
            old(self).wf(),
            old(self)@.recording ==> frame_fits(frame@),
        ensures
            final(self).wf(),
            final(self)@ == with_frame(old(self)@, frame@),
    {
        if self.recording {
            let ghost before = self.frames@;
            frame.write_to(&mut self.output);
            self.frames = Ghost(before.push(frame@));
            proof {
                lemma_frames_bytes_push(before, frame@);
                let old_all = recorded_bytes(old(self)@);
                let new_all = recorded_bytes(self@);
                assert(new_all =~= old_all + frame_bytes(frame@));
                assert(self.output@ =~= new_all.skip(self.taken@ as int));
                assert forall|i: int| 0 <= i < self.frames@.len() implies frame_fits(
                    #[trigger] self.frames@[i],
                ) by {
                    if i < before.len() {
                        assert(self.frames@[i] == before[i]);
                    }
                }
            }
        }
    }

    /// Records a tick hash reported by any peer (this session's own
    /// included, via `hash_tick`) into the cross-peer comparison, the
    /// retention window and the recording.
    pub fn record_peer_hash(&mut self, tick: u64, peer_id: u16, hash: u64) -> (r: Result<(), Error>)
        requires
            old(self).wf(),
        ensures
            final(self).wf(),
            r is Ok,
            final(self)@ == after_peer_hash(old(self)@, tick, peer_id, hash),
    {
        let ghost old_reports = self.table.records();
        self.window.push((tick, hash));
        self.table.record(tick, peer_id, hash);
        proof {
            assert(report_pairs(self.table.records()) =~= report_pairs(old_reports).push((tick, hash)));
            assert(report_pairs(old_reports).push((tick, hash)).drop_last() =~= report_pairs(old_reports));
            assert(self.output@ =~= recorded_bytes(self@).skip(self.taken@ as int));
            lemma_fixed_frames_fit(tick, peer_id, 0, hash);
        }
        self.record_frame(Frame::TickHash { tick, peer_id, hash });
        Ok(())
    }

    /// Hashes this tick's state and records it as this session's own
    /// (`local_peer_id`'s) report for the tick; the hash also becomes
    /// pending, for the game to send to its peers, and is folded into the
    /// session hash that `finish` returns.
    pub fn hash_tick(&mut self, tick: u64, state_bytes: &[u8]) -> (r: Result<(), Error>)
        requires
            old(self).wf(),
        ensures
            final(self).wf(),
            r is Ok,
            final(self)@ == after_local_hash(old(self)@, tick, xxh3_64_of(state_bytes@)),
    {
        let hash = hash_bytes(state_bytes);
        let _ = self.record_peer_hash(tick, self.local_peer_id, hash);
        let ghost mid_pending = self.pending@;
        assert(self.handed_out@ + mid_pending == pending_of(self.local@));
        self.pending.push(PendingHash { tick, hash });
        self.cumulative = combine(self.cumulative, tick, hash);
        let ghost old_local = self.local@;
        self.local = Ghost(old_local.push((tick, hash)));
        proof {
            assert(self.local@.drop_last() =~= old_local);
            assert(pending_of(self.local@) =~= pending_of(old_local).push(PendingHash { tick, hash }));
            assert(self.handed_out@ + self.pending@ =~= (self.handed_out@ + mid_pending).push(
                PendingHash { tick, hash },
            ));
            assert(self.output@ =~= recorded_bytes(self@).skip(self.taken@ as int));
        }
        Ok(())
    }

    /// Level 2: hashes one entity's state and records it as this session's
    /// own report. Recording only: without a recording this computes the
    /// hash and changes nothing.
    pub fn hash_entity(&mut self, tick: u64, entity_id: u64, state_bytes: &[u8]) -> (r: Result<
        (),
        Error,
    >)
        requires
            old(self).wf(),
        ensures
            final(self).wf(),
            r is Ok,
            final(self)@ == with_frame(
                old(self)@,
                FrameModel::EntityHash {
                    tick,
                    peer_id: old(self)@.local_peer_id,
                    entity_id,
                    hash: xxh3_64_of(state_bytes@),
                },
            ),
    {
        let hash = hash_bytes(state_bytes);
        self.record_peer_entity_hash(tick, self.local_peer_id, entity_id, hash)
    }

    /// Records an entity hash reported by any peer: the Level 2
    /// counterpart of `record_peer_hash`, recording only.
    pub fn record_peer_entity_hash(&mut self, tick: u64, peer_id: u16, entity_id: u64, hash: u64) -> (r:
        Result<(), Error>)
        requires
            old(self).wf(),
        ensures
            final(self).wf(),
            r is Ok,
            final(self)@ == with_frame(
                old(self)@,
                FrameModel::EntityHash { tick, peer_id, entity_id, hash },
            ),
    {
        proof {
            lemma_fixed_frames_fit(tick, peer_id, entity_id, hash);
        }
        self.record_frame(Frame::EntityHash { tick, peer_id, entity_id, hash });
        Ok(())
    }

    /// Level 3: hashes one field's value and records it as this session's
    /// own report, keeping the raw value bytes too. Recording only.
    pub fn hash_field(&mut self, tick: u64, entity_id: u64, field_name: &str, value_bytes: &[u8]) -> (r:
        Result<(), Error>)
        requires
            old(self).wf(),
            old(self)@.recording ==> field_hash_payload_fits(field_name@, value_bytes@),
        ensures
            final(self).wf(),
            r is Ok,
            final(self)@ == with_frame(
                old(self)@,
                FrameModel::FieldHash {
                    tick,
                    peer_id: old(self)@.local_peer_id,
                    entity_id,
                    field_name: field_name@,
                    hash: xxh3_64_of(value_bytes@),
                    value: value_bytes@,
                },
            ),
    {
        let hash = hash_bytes(value_bytes);
        self.record_peer_field_hash(tick, self.local_peer_id, entity_id, field_name, hash, value_bytes)
    }

    /// Records a field hash reported by any peer: the Level 3 counterpart
    /// of `record_peer_hash`, recording only.
    pub fn record_peer_field_hash(
        &mut self,
        tick: u64,
        peer_id: u16,
        entity_id: u64,
        field_name: &str,
        hash: u64,
        value_bytes: &[u8],
    ) -> (r: Result<(), Error>)
        requires
            old(self).wf(),
            old(self)@.recording ==> field_hash_payload_fits(field_name@, value_bytes@),
        ensures
            final(self).wf(),
            r is Ok,
            final(self)@ == with_frame(
                old(self)@,
                FrameModel::FieldHash {
                    tick,
                    peer_id,
                    entity_id,
                    field_name: field_name@,
                    hash,
                    value: value_bytes@,
                },
            ),
    {
        proof {
            lemma_field_hash_fits(tick, peer_id, entity_id, field_name@, hash, value_bytes@);
        }
        if self.recording {
            let frame = Frame::FieldHash {
                tick,
                peer_id,
                entity_id,
                field_name: String::from_str(field_name),
                hash,
                value: vstd::slice::slice_to_vec(value_bytes),
            };
            self.record_frame(frame);
        }
        Ok(())
    }

    /// Records `name`'s tagged field set as a schema `Metadata` frame: the
    /// key is [`schema_metadata_key`] of the name, the value the
    /// [`fingerprint`] of the fields. Only the first call for a given type
    /// in a session does anything; later ones are no-ops.
    pub fn record_schema(&mut self, name: &str, tracked_fields: &[&str]) -> (r: Result<(), Error>)
        requires
            old(self).wf(),
            old(self)@.recording ==> frame_fits(
                FrameModel::Metadata {
                    key: schema_key_prefix() + name@,
                    value: fingerprint_of(tracked_fields@.map_values(|s: &str| s@)),
                },
            ),
        ensures
            final(self).wf(),
            r is Ok,
            old(self)@.schema_types.contains(name@) ==> final(self)@ == old(self)@,
            !old(self)@.schema_types.contains(name@) ==> final(self)@ == with_frame(
                SessionModel { schema_types: old(self)@.schema_types.push(name@), ..old(self)@ },
                FrameModel::Metadata {
                    key: schema_key_prefix() + name@,
                    value: fingerprint_of(tracked_fields@.map_values(|s: &str| s@)),
                },
            ),
    {
        let ghost types = self.schema_types@.map_values(|t: String| t@);
        let mut i: usize = 0;
        while i < self.schema_types.len()
            invariant
                i <= self.schema_types@.len(),
                self.wf(),
                types == self.schema_types@.map_values(|t: String| t@),
                forall|k: int| 0 <= k < i ==> #[trigger] types[k] != name@,
            decreases self.schema_types@.len() - i,
        {
            if str_eq(self.schema_types[i].as_str(), name) {
                assert(types[i as int] == name@);
                return Ok(());
            }
            i = i + 1;
        }
        assert(!types.contains(name@));
        self.schema_types.push(String::from_str(name));
        proof {
            assert(self.schema_types@.map_values(|t: String| t@) =~= types.push(name@));
            assert(self.output@ =~= recorded_bytes(self@).skip(self.taken@ as int));
        }
        if self.recording {
            let key = schema_metadata_key(name);
            let value = fingerprint(tracked_fields);
            self.record_frame(Frame::Metadata { key, value });
        }
        Ok(())
    }

    /// Level 3, ergonomic form: records every tracked field of `value` (a
    /// type implementing [`FoldbackHash`]), the same as calling
    /// `hash_field` once per tracked field.
    pub fn hash_fields<T: FoldbackHash>(&mut self, tick: u64, entity_id: u64, value: &T) -> (r: Result<
        (),
        Error,
    >)
        requires
            old(self).wf(),
        ensures
            final(self).wf(),
            exists|fields: Seq<(Seq<char>, Seq<u8>)>|
                #[trigger] after_field_hashes(old(self)@, tick, entity_id, fields) == final(self)@,
            exists|fields: Seq<(Seq<char>, Seq<u8>)>|
                final(self)@ == #[trigger] with_field_hash_frames(old(self)@, tick, entity_id, fields),
    {
        let r = value.write_hashed_fields(self, tick, entity_id);
        proof {
            let fields = choose|fields: Seq<(Seq<char>, Seq<u8>)>|
                #[trigger] after_field_hashes(old(self)@, tick, entity_id, fields) == self@;
            lemma_field_hashes_only_append_frames(old(self)@, tick, entity_id, fields);
            assert(with_field_hash_frames(old(self)@, tick, entity_id, fields) == self@);
        }
        r
    }

    /// The number of local hashes waiting to be handed out.
    pub fn pending_hash_count(&self) -> (n: usize)
        ensures
            n == self@.pending.len(),
    {
        self.pending.len()
    }

    /// Drains and returns the hashes produced locally since the last call,
    /// oldest first: what the game sends to its peers.
    pub fn take_pending_hashes(&mut self) -> (r: Vec<PendingHash>)
        requires
            old(self).wf(),
        ensures
            final(self).wf(),
            r@ == old(self)@.pending,
            final(self)@ == (SessionModel {
                pending: seq![],
                handed_out: old(self)@.handed_out + old(self)@.pending,
                ..old(self)@
            }),
    {
        let mut out: Vec<PendingHash> = Vec::new();
        std::mem::swap(&mut out, &mut self.pending);
        self.handed_out = Ghost(self.handed_out@ + out@);
        proof {
            assert(self.handed_out@ + self.pending@ =~= pending_of(self.local@));
            assert(self.output@ =~= recorded_bytes(self@).skip(self.taken@ as int));
        }
        out
    }

    /// Drains at most `max` pending hashes, oldest first, leaving the rest
    /// for the next call.
    pub fn take_pending_hashes_up_to(&mut self, max: usize) -> (r: Vec<PendingHash>)
        requires
            old(self).wf(),
        ensures
            final(self).wf(),
            r@ == old(self)@.pending.take(
                if max < old(self)@.pending.len() {
                    max as int
                } else {
                    old(self)@.pending.len() as int
                },
            ),
            final(self)@ == (SessionModel {
                pending: old(self)@.pending.skip(r@.len() as int),
                handed_out: old(self)@.handed_out + r@,
                ..old(self)@
            }),
    {
        let n = if max < self.pending.len() {
            max
        } else {
            self.pending.len()
        };
        let mut all: Vec<PendingHash> = Vec::new();
        std::mem::swap(&mut all, &mut self.pending);
        let rest = all.split_off(n);
        self.pending = rest;
        self.handed_out = Ghost(self.handed_out@ + all@);
        proof {
            assert(self.handed_out@ + self.pending@ =~= pending_of(self.local@));
            assert(self.output@ =~= recorded_bytes(self@).skip(self.taken@ as int));
        }
        all
    }

    /// Returns the earliest tick, not reported by an earlier call, at which
    /// two reports disagree, and marks it as reported. `None` when there is
    /// no new divergence: a tick with fewer than two reports cannot
    /// diverge yet.
    pub fn check_divergence(&mut self) -> (r: Option<DivergenceTick>)
        requires
            old(self).wf(),
        ensures
            final(self).wf(),
            match r {
                Some(d) => {
                    &&& is_first_new_divergence(old(self)@.reports, old(self)@.reported, d.0)
                    &&& final(self)@ == (SessionModel {
                        reported: old(self)@.reported.insert(d.0),
                        ..old(self)@
                    })
                },
                None => {
                    &&& !has_new_divergence(old(self)@.reports, old(self)@.reported)
                    &&& final(self)@ == old(self)@
                },
            },
    {
        let r = self.table.take_first();
        proof {
            assert(self.output@ =~= recorded_bytes(self@).skip(self.taken@ as int));
        }
        match r {
            Some(t) => Some(DivergenceTick(t)),
            None => None,
        }
    }

    /// A single combined hash over every tick this session has hashed
    /// itself, in order: two runs that hash the same ticks with the same
    /// state, in the same order, give the same value.
    pub fn finish(&self) -> (h: u64)
        requires
            self.wf(),
        ensures
            h == cumulative_hash(self@.local),
    {
        self.cumulative
    }

    /// Records the closing `EndOfStream` frame when recording. Its absence
    /// is how a reader tells a cut-off recording from a complete one.
    pub fn finish_recording(&mut self) -> (r: Result<(), Error>)
        requires
            old(self).wf(),
        ensures
            final(self).wf(),
            r is Ok,
            final(self)@ == with_frame(old(self)@, FrameModel::EndOfStream),
    {
        proof {
            lemma_fixed_frames_fit(0, 0, 0, 0);
        }
        self.record_frame(Frame::EndOfStream);
        Ok(())
    }

    /// Hands out the recording bytes encoded since the last call, for the
    /// caller to append to the recording's file.
    pub fn take_recorded_bytes(&mut self) -> (r: Vec<u8>)
        requires
            old(self).wf(),
        ensures
            final(self).wf(),
            r@ == recorded_bytes(old(self)@).skip(old(self)@.taken as int),
            final(self)@ == (SessionModel { taken: recorded_bytes(old(self)@).len(), ..old(self)@ }),
    {
        let mut out: Vec<u8> = Vec::new();
        std::mem::swap(&mut out, &mut self.output);
        self.taken = Ghost(recorded_bytes(self@).len());
        proof {
            assert(recorded_bytes(self@) == recorded_bytes(old(self)@));
            assert(self.output@ =~= recorded_bytes(self@).skip(self.taken@ as int));
        }
        out
    }

    /// Whether this session records its frames.
    pub fn is_recording(&self) -> (b: bool)
        ensures
            b == self@.recording,
    {
        self.recording
    }

    pub fn tick_rate_hz(&self) -> (v: u32)
        ensures
            v == self@.tick_rate_hz,
    {
        self.tick_rate_hz
    }

    pub fn peer_count(&self) -> (v: u32)
        ensures
            v == self@.peer_count,
    {
        self.peer_count
    }

    pub fn local_peer_id(&self) -> (v: u16)
        ensures
            v == self@.local_peer_id,
    {
        self.local_peer_id
    }

    /// The retained `(tick, hash)` reports, oldest first.
    pub fn retained_ticks(&self) -> (it: Iter<'_, (u64, u64)>)
        ensures
            vstd::std_specs::iter::IteratorSpec::remaining(&it) == self@.retained.as_ref(),
    {
        self.window.iter()
    }
}

/// Recording round trip: while the session has written no frame after an
/// `EndOfStream`, its recording (the header, then every frame) reads back
/// as the session's header and then exactly the frames it recorded, in
/// order, and then the end of the stream.
pub proof fn lemma_recording_reads_back(s: Session)
    requires
        s.wf(),
        s@.recording,
        end_only_last(s@.frames),
    ensures
        header_decodes_to(recorded_bytes(s@), s@.header),
        stream_steps(recorded_bytes(s@).skip(32)) == items(s@.frames),
{
    let rest = frames_bytes(s@.frames);
    lemma_header_round_trip(s@.header, rest);
    lemma_stream_round_trip(s@.frames);
    assert(header_bytes(s@.header).len() == 32) by {
        vstd::bytes::lemma_auto_spec_u16_to_from_le_bytes();
        vstd::bytes::lemma_auto_spec_u32_to_from_le_bytes();
    }
    assert(recorded_bytes(s@).skip(32) =~= rest);
}

/// Every hash the session produced itself is handed out exactly once, in
/// the order it was produced: what was handed out so far, followed by what
/// is still pending, is the sequence of local hashes.
pub proof fn lemma_pending_accounts_for_every_local_hash(s: Session)
    requires
        s.wf(),
    ensures
        s@.handed_out + s@.pending == pending_of(s@.local),
{
}

/// The retention window is measured in ticks, not reports: it holds the
/// reports of the most recent `retention` ticks to enter it, oldest first,
/// so at most `retention` distinct ticks however many peers report each.
pub proof fn lemma_retained_are_latest_reports(s: Session)
    requires
        s.wf(),
    ensures
        s@.retained == keep_last_ticks(report_pairs(s@.reports), s@.retention),
        tick_window(report_pairs(s@.reports), s@.retention).0.len() <= s@.retention,
        tick_window(report_pairs(s@.reports), s@.retention).0.no_duplicates(),
        forall|k: int|
            0 <= k < s@.retained.len() ==> tick_window(report_pairs(s@.reports), s@.retention).0.contains(
                #[trigger] s@.retained[k].0,
            ),
{
    lemma_tick_window_bounded(report_pairs(s@.reports), s@.retention);
}

/// Successive divergence reports, with no new tick reports in between,
/// come out in strictly increasing tick order: a reported tick is never
/// reported again, and no earlier unreported divergence is skipped.
pub proof fn lemma_divergence_reports_ascend(
    reports: Seq<TickHashRecord>,
    reported: Set<u64>,
    t: u64,
    u: u64,
)
    requires
        is_first_new_divergence(reports, reported, t),
        is_first_new_divergence(reports, reported.insert(t), u),
    ensures
        t < u,
{
    assert(crate::bisect::tick_diverges(reports, u) && !reported.contains(u));
}

/// The combined session hash depends only on the ticks the session hashed
/// itself and their order: peer reports, recording and handing out pending
/// hashes do not enter it, so two runs that hash the same ticks with the
/// same state, in the same order, finish with the same value.
pub proof fn lemma_finish_depends_only_on_local_history(a: Session, b: Session)
    requires
        a.wf(),
        b.wf(),
        a@.local == b@.local,
    ensures
        cumulative_hash(a@.local) == cumulative_hash(b@.local),
{
}

} // verus!
