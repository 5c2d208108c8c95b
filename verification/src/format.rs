//! The `.foldback` session file format: a fixed 32-byte header, then a
//! stream of length-prefixed frames. Append-only and tolerant of truncation:
//! a recording cut off mid-frame still yields every frame before the cut.
//!
//! Frame layout: one type byte, a little-endian `u32` payload length, then
//! the payload. A reader skips frame types it does not know by their length,
//! so new frame types can be added without breaking old readers.
use vstd::prelude::*;
use vstd::bytes::*;
use vstd::utf8::*;
use vstd::string::*;
use vstd::slice::*;

use crate::error::Error;

verus! {

broadcast use vstd::seq_lib::group_seq_properties;

/// File magic: the bytes `FBK1`.
pub const MAGIC: [u8; 4] = [0x46u8, 0x42u8, 0x4Bu8, 0x31u8];

/// The frame layout version this library writes.
pub const FORMAT_VERSION: u16 = 1;

/// Length of the fixed file header in bytes.
pub const HEADER_LEN: usize = 32;

pub const TYPE_TICK_HASH: u8 = 0x01;
pub const TYPE_ENTITY_HASH: u8 = 0x02;
pub const TYPE_FIELD_HASH: u8 = 0x03;
pub const TYPE_SNAPSHOT: u8 = 0x10;
pub const TYPE_METADATA: u8 = 0x20;
pub const TYPE_END_OF_STREAM: u8 = 0xFF;

/// The magic bytes as a sequence.
pub open spec fn magic_bytes() -> Seq<u8> {
    seq![0x46u8, 0x42u8, 0x4Bu8, 0x31u8]
}

/// Fixed 32-byte session file header.
#[derive(Debug, Clone, PartialEq, Eq)]
pub struct Header {
    pub format_version: u16,
    pub tick_rate_hz: u32,
    pub peer_count: u32,
    /// Opaque, game-supplied build identifier.
    pub build_id: [u8; 16],
}

/// The 32 bytes that encode a header: magic, version, two reserved zero
/// bytes, tick rate, peer count (all little-endian), then the build id.
pub open spec fn header_bytes(h: Header) -> Seq<u8> {
    magic_bytes() + spec_u16_to_le_bytes(h.format_version) + seq![0u8, 0u8]
        + spec_u32_to_le_bytes(h.tick_rate_hz) + spec_u32_to_le_bytes(h.peer_count)
        + h.build_id@
}

/// `h` is what the first 32 bytes of `bytes` describe. The reserved bytes
/// 6..8 are ignored on reading.
pub open spec fn header_decodes_to(bytes: Seq<u8>, h: Header) -> bool {
    &&& bytes.len() >= 32
    &&& bytes.subrange(0, 4) == magic_bytes()
    &&& h.format_version == spec_u16_from_le_bytes(bytes.subrange(4, 6))
    &&& h.tick_rate_hz == spec_u32_from_le_bytes(bytes.subrange(8, 12))
    &&& h.peer_count == spec_u32_from_le_bytes(bytes.subrange(12, 16))
    &&& h.build_id@ == bytes.subrange(16, 32)
}

impl Header {
    pub fn new(tick_rate_hz: u32, peer_count: u32, build_id: [u8; 16]) -> (h: Self)
        ensures
            h.format_version == FORMAT_VERSION,
            h.tick_rate_hz == tick_rate_hz,
            h.peer_count == peer_count,
            h.build_id == build_id,
    {
        Header { format_version: FORMAT_VERSION, tick_rate_hz, peer_count, build_id }
    }

    /// Appends the 32 header bytes to `w`.
    pub fn write_to(&self, w: &mut Vec<u8>)
        ensures
            final(w)@ == old(w)@ + header_bytes(*self),
    {
        proof {
            lemma_auto_spec_u16_to_from_le_bytes();
            lemma_auto_spec_u32_to_from_le_bytes();
        }
        let mut buf: Vec<u8> = Vec::new();
        buf.push(MAGIC[0]);
        buf.push(MAGIC[1]);
        buf.push(MAGIC[2]);
        buf.push(MAGIC[3]);
        let mut v = u16_to_le_bytes(self.format_version);
        buf.append(&mut v);
        buf.push(0u8);
        buf.push(0u8);
        let mut t = u32_to_le_bytes(self.tick_rate_hz);
        buf.append(&mut t);
        let mut p = u32_to_le_bytes(self.peer_count);
        buf.append(&mut p);
        let mut id = slice_to_vec(self.build_id.as_slice());
        buf.append(&mut id);
        assert(buf@ =~= header_bytes(*self));
        w.append(&mut buf);
    }

    /// Reads a header from the first `HEADER_LEN` bytes of `bytes`; the
    /// frame stream starts right after them.
    pub fn read_from(bytes: &[u8]) -> (r: Result<Self, Error>)
        ensures
            match r {
                Ok(h) => header_decodes_to(bytes@, h),
                Err(Error::TruncatedHeader) => bytes@.len() < 32,
                Err(Error::BadMagic) => bytes@.len() >= 32 && bytes@.subrange(0, 4)
                    != magic_bytes(),
                Err(_) => false,
            },
    {
        if bytes.len() < HEADER_LEN {
            return Err(Error::TruncatedHeader);
        }
        if bytes[0] != MAGIC[0] || bytes[1] != MAGIC[1] || bytes[2] != MAGIC[2] || bytes[3]
            != MAGIC[3] {
            assert(bytes@.subrange(0, 4)[0] == bytes@[0]);
            assert(bytes@.subrange(0, 4)[1] == bytes@[1]);
            assert(bytes@.subrange(0, 4)[2] == bytes@[2]);
            assert(bytes@.subrange(0, 4)[3] == bytes@[3]);
            return Err(Error::BadMagic);
        }
        assert(bytes@.subrange(0, 4) =~= magic_bytes());
        let format_version = u16_from_le_bytes(slice_subrange(bytes, 4, 6));
        let tick_rate_hz = u32_from_le_bytes(slice_subrange(bytes, 8, 12));
        let peer_count = u32_from_le_bytes(slice_subrange(bytes, 12, 16));
        let mut build_id = [0u8; 16];
        let mut i: usize = 0;
        while i < 16
            invariant
                0 <= i <= 16,
                bytes@.len() >= 32,
                forall|j: int| 0 <= j < i ==> build_id@[j] == bytes@[16 + j],
            decreases 16 - i,
        {
            build_id[i] = bytes[16 + i];
            i = i + 1;
        }
        assert(build_id@ =~= bytes@.subrange(16, 32));
        Ok(Header { format_version, tick_rate_hz, peer_count, build_id })
    }
}

/// Header round trip: reading back the bytes that `write_to` produced, with
/// anything after them, gives the same header.
pub proof fn lemma_header_round_trip(h: Header, rest: Seq<u8>)
    ensures
        header_decodes_to(header_bytes(h) + rest, h),
{
    lemma_auto_spec_u16_to_from_le_bytes();
    lemma_auto_spec_u32_to_from_le_bytes();
    let b = header_bytes(h) + rest;
    assert(b.subrange(0, 4) =~= magic_bytes());
    assert(b.subrange(4, 6) =~= spec_u16_to_le_bytes(h.format_version));
    assert(b.subrange(8, 12) =~= spec_u32_to_le_bytes(h.tick_rate_hz));
    assert(b.subrange(12, 16) =~= spec_u32_to_le_bytes(h.peer_count));
    assert(b.subrange(16, 32) =~= h.build_id@);
}


/// A single frame in the stream.
#[derive(Debug, Clone, PartialEq)]
pub enum Frame {
    TickHash { tick: u64, peer_id: u16, hash: u64 },
    EntityHash { tick: u64, peer_id: u16, entity_id: u64, hash: u64 },
    FieldHash {
        tick: u64,
        peer_id: u16,
        entity_id: u64,
        field_name: String,
        hash: u64,
        value: Vec<u8>,
    },
    Snapshot { tick: u64, peer_id: u16, compressed: Vec<u8> },
    Metadata { key: String, value: String },
    EndOfStream,
}

/// The mathematical content of a [`Frame`]: text as characters, byte
/// buffers as sequences.
pub enum FrameModel {
    TickHash { tick: u64, peer_id: u16, hash: u64 },
    EntityHash { tick: u64, peer_id: u16, entity_id: u64, hash: u64 },
    FieldHash {
        tick: u64,
        peer_id: u16,
        entity_id: u64,
        field_name: Seq<char>,
        hash: u64,
        value: Seq<u8>,
    },
    Snapshot { tick: u64, peer_id: u16, compressed: Seq<u8> },
    Metadata { key: Seq<char>, value: Seq<char> },
    EndOfStream,
}

impl View for Frame {
    type V = FrameModel;

    open spec fn view(&self) -> FrameModel {
        match self {
            Frame::TickHash { tick, peer_id, hash } => FrameModel::TickHash {
                tick: *tick,
                peer_id: *peer_id,
                hash: *hash,
            },
            Frame::EntityHash { tick, peer_id, entity_id, hash } => FrameModel::EntityHash {
                tick: *tick,
                peer_id: *peer_id,
                entity_id: *entity_id,
                hash: *hash,
            },
            Frame::FieldHash { tick, peer_id, entity_id, field_name, hash, value } =>
                FrameModel::FieldHash {
                tick: *tick,
                peer_id: *peer_id,
                entity_id: *entity_id,
                field_name: field_name@,
                hash: *hash,
                value: value@,
            },
            Frame::Snapshot { tick, peer_id, compressed } => FrameModel::Snapshot {
                tick: *tick,
                peer_id: *peer_id,
                compressed: compressed@,
            },
            Frame::Metadata { key, value } => FrameModel::Metadata { key: key@, value: value@ },
            Frame::EndOfStream => FrameModel::EndOfStream,
        }
    }
}

/// One field of a frame payload, as it is laid out on the wire.
pub enum Piece {
    /// A little-endian `u64`.
    Int64(u64),
    /// A little-endian `u16`.
    Int16(u16),
    /// A `u32` length, then that many raw bytes.
    Blob(Seq<u8>),
    /// A `u32` length, then that many bytes of UTF-8 text.
    Text(Seq<char>),
}

/// The kind of a payload field, without its value.
pub enum PieceKind {
    Int64,
    Int16,
    Blob,
    Text,
}

/// The bytes of one payload field.
pub open spec fn piece_bytes(p: Piece) -> Seq<u8> {
    match p {
        Piece::Int64(x) => spec_u64_to_le_bytes(x),
        Piece::Int16(x) => spec_u16_to_le_bytes(x),
        Piece::Blob(b) => spec_u32_to_le_bytes(b.len() as u32) + b,
        Piece::Text(t) => spec_u32_to_le_bytes(encode_utf8(t).len() as u32) + encode_utf8(t),
    }
}

/// The bytes of a sequence of payload fields, one after the other.
pub open spec fn pieces_bytes(ps: Seq<Piece>) -> Seq<u8>
    decreases ps.len(),
{
    if ps.len() == 0 {
        seq![]
    } else {
        piece_bytes(ps[0]) + pieces_bytes(ps.drop_first())
    }
}

/// The payload fields of a frame, in wire order.
pub open spec fn frame_pieces(f: FrameModel) -> Seq<Piece> {
    match f {
        FrameModel::TickHash { tick, peer_id, hash } => seq![
            Piece::Int64(tick),
            Piece::Int16(peer_id),
            Piece::Int64(hash),
        ],
        FrameModel::EntityHash { tick, peer_id, entity_id, hash } => seq![
            Piece::Int64(tick),
            Piece::Int16(peer_id),
            Piece::Int64(entity_id),
            Piece::Int64(hash),
        ],
        FrameModel::FieldHash { tick, peer_id, entity_id, field_name, hash, value } => seq![
            Piece::Int64(tick),
            Piece::Int16(peer_id),
            Piece::Int64(entity_id),
            Piece::Text(field_name),
            Piece::Int64(hash),
            Piece::Blob(value),
        ],
        FrameModel::Snapshot { tick, peer_id, compressed } => seq![
            Piece::Int64(tick),
            Piece::Int16(peer_id),
            Piece::Blob(compressed),
        ],
        FrameModel::Metadata { key, value } => seq![Piece::Text(key), Piece::Text(value)],
        FrameModel::EndOfStream => seq![],
    }
}

/// The type byte of a frame.
pub open spec fn frame_type_code(f: FrameModel) -> u8 {
    match f {
        FrameModel::TickHash { .. } => TYPE_TICK_HASH,
        FrameModel::EntityHash { .. } => TYPE_ENTITY_HASH,
        FrameModel::FieldHash { .. } => TYPE_FIELD_HASH,
        FrameModel::Snapshot { .. } => TYPE_SNAPSHOT,
        FrameModel::Metadata { .. } => TYPE_METADATA,
        FrameModel::EndOfStream => TYPE_END_OF_STREAM,
    }
}

/// The payload bytes of a frame.
pub open spec fn payload_bytes(f: FrameModel) -> Seq<u8> {
    pieces_bytes(frame_pieces(f))
}

/// A frame can be written: its payload, and so each length inside it,
/// fits the format's `u32` length fields.
pub open spec fn frame_fits(f: FrameModel) -> bool {
    payload_bytes(f).len() <= u32::MAX
}

/// The complete wire encoding of a frame: type byte, payload length, payload.
pub open spec fn frame_bytes(f: FrameModel) -> Seq<u8> {
    seq![frame_type_code(f)] + spec_u32_to_le_bytes(payload_bytes(f).len() as u32)
        + payload_bytes(f)
}


/// Appending one field to a sequence of fields appends its bytes.
pub proof fn lemma_pieces_bytes_push(ps: Seq<Piece>, p: Piece)
    ensures
        pieces_bytes(ps.push(p)) == pieces_bytes(ps) + piece_bytes(p),
    decreases ps.len(),
{
    if ps.len() == 0 {
        let q = ps.push(p);
        assert(q.drop_first() =~= Seq::<Piece>::empty());
        assert(pieces_bytes(q.drop_first()) =~= Seq::<u8>::empty());
        assert(q[0] == p);
        assert(pieces_bytes(q) =~= piece_bytes(p));
        assert(pieces_bytes(ps) =~= Seq::<u8>::empty());
    } else {
        lemma_pieces_bytes_push(ps.drop_first(), p);
        assert(ps.push(p).drop_first() =~= ps.drop_first().push(p));
        assert(pieces_bytes(ps.push(p)) =~= pieces_bytes(ps) + piece_bytes(p));
    }
}

fn push_u64(out: &mut Vec<u8>, x: u64)
    ensures
        final(out)@ == old(out)@ + piece_bytes(Piece::Int64(x)),
{
    let mut b = u64_to_le_bytes(x);
    out.append(&mut b);
}

fn push_u16(out: &mut Vec<u8>, x: u16)
    ensures
        final(out)@ == old(out)@ + piece_bytes(Piece::Int16(x)),
{
    let mut b = u16_to_le_bytes(x);
    out.append(&mut b);
}

fn push_blob(out: &mut Vec<u8>, bytes: &[u8])
    requires
        bytes@.len() <= u32::MAX,
    ensures
        final(out)@ == old(out)@ + piece_bytes(Piece::Blob(bytes@)),
{
    let mut len = u32_to_le_bytes(bytes.len() as u32);
    out.append(&mut len);
    let mut b = slice_to_vec(bytes);
    out.append(&mut b);
    assert(final(out)@ =~= old(out)@ + piece_bytes(Piece::Blob(bytes@)));
}

fn push_text(out: &mut Vec<u8>, text: &str)
    requires
        encode_utf8(text@).len() <= u32::MAX,
    ensures
        final(out)@ == old(out)@ + piece_bytes(Piece::Text(text@)),
{
    let bytes = text.as_bytes();
    let mut len = u32_to_le_bytes(bytes.len() as u32);
    out.append(&mut len);
    let mut b = slice_to_vec(bytes);
    out.append(&mut b);
    assert(final(out)@ =~= old(out)@ + piece_bytes(Piece::Text(text@)));
}

impl Frame {
    fn frame_type(&self) -> (t: u8)
        ensures
            t == frame_type_code(self@),
    {
        match self {
            Frame::TickHash { .. } => TYPE_TICK_HASH,
            Frame::EntityHash { .. } => TYPE_ENTITY_HASH,
            Frame::FieldHash { .. } => TYPE_FIELD_HASH,
            Frame::Snapshot { .. } => TYPE_SNAPSHOT,
            Frame::Metadata { .. } => TYPE_METADATA,
            Frame::EndOfStream => TYPE_END_OF_STREAM,
        }
    }

    fn encode_payload(&self) -> (p: Vec<u8>)
        requires
            frame_fits(self@),
        ensures
            p@ == payload_bytes(self@),
    {
        let mut p: Vec<u8> = Vec::new();
        let ghost e = Seq::<Piece>::empty();
        match self {
            Frame::TickHash { tick, peer_id, hash } => {
                push_u64(&mut p, *tick);
                push_u16(&mut p, *peer_id);
                push_u64(&mut p, *hash);
                proof {
                    let a = e.push(Piece::Int64(*tick));
                    let b = a.push(Piece::Int16(*peer_id));
                    let c = b.push(Piece::Int64(*hash));
                    lemma_pieces_bytes_push(e, Piece::Int64(*tick));
                    lemma_pieces_bytes_push(a, Piece::Int16(*peer_id));
                    lemma_pieces_bytes_push(b, Piece::Int64(*hash));
                    assert(c =~= frame_pieces(self@));
                    assert(p@ =~= pieces_bytes(c));
                }
            },
            Frame::EntityHash { tick, peer_id, entity_id, hash } => {
                push_u64(&mut p, *tick);
                push_u16(&mut p, *peer_id);
                push_u64(&mut p, *entity_id);
                push_u64(&mut p, *hash);
                proof {
                    let a = e.push(Piece::Int64(*tick));
                    let b = a.push(Piece::Int16(*peer_id));
                    let c = b.push(Piece::Int64(*entity_id));
                    let d = c.push(Piece::Int64(*hash));
                    lemma_pieces_bytes_push(e, Piece::Int64(*tick));
                    lemma_pieces_bytes_push(a, Piece::Int16(*peer_id));
                    lemma_pieces_bytes_push(b, Piece::Int64(*entity_id));
                    lemma_pieces_bytes_push(c, Piece::Int64(*hash));
                    assert(d =~= frame_pieces(self@));
                    assert(p@ =~= pieces_bytes(d));
                }
            },
            Frame::FieldHash { tick, peer_id, entity_id, field_name, hash, value } => {
                let ghost a = e.push(Piece::Int64(*tick));
                let ghost b = a.push(Piece::Int16(*peer_id));
                let ghost c = b.push(Piece::Int64(*entity_id));
                let ghost d = c.push(Piece::Text(field_name@));
                let ghost f = d.push(Piece::Int64(*hash));
                let ghost g = f.push(Piece::Blob(value@));
                proof {
                    lemma_pieces_bytes_push(e, Piece::Int64(*tick));
                    lemma_pieces_bytes_push(a, Piece::Int16(*peer_id));
                    lemma_pieces_bytes_push(b, Piece::Int64(*entity_id));
                    lemma_pieces_bytes_push(c, Piece::Text(field_name@));
                    lemma_pieces_bytes_push(d, Piece::Int64(*hash));
                    lemma_pieces_bytes_push(f, Piece::Blob(value@));
                    assert(g =~= frame_pieces(self@));
                }
                push_u64(&mut p, *tick);
                push_u16(&mut p, *peer_id);
                push_u64(&mut p, *entity_id);
                push_text(&mut p, field_name.as_str());
                push_u64(&mut p, *hash);
                push_blob(&mut p, value.as_slice());
                assert(p@ =~= pieces_bytes(g));
            },
            Frame::Snapshot { tick, peer_id, compressed } => {
                let ghost a = e.push(Piece::Int64(*tick));
                let ghost b = a.push(Piece::Int16(*peer_id));
                let ghost c = b.push(Piece::Blob(compressed@));
                proof {
                    lemma_pieces_bytes_push(e, Piece::Int64(*tick));
                    lemma_pieces_bytes_push(a, Piece::Int16(*peer_id));
                    lemma_pieces_bytes_push(b, Piece::Blob(compressed@));
                    assert(c =~= frame_pieces(self@));
                }
                push_u64(&mut p, *tick);
                push_u16(&mut p, *peer_id);
                push_blob(&mut p, compressed.as_slice());
                assert(p@ =~= pieces_bytes(c));
            },
            Frame::Metadata { key, value } => {
                let ghost a = e.push(Piece::Text(key@));
                let ghost b = a.push(Piece::Text(value@));
                proof {
                    lemma_pieces_bytes_push(e, Piece::Text(key@));
                    lemma_pieces_bytes_push(a, Piece::Text(value@));
                    assert(b =~= frame_pieces(self@));
                }
                push_text(&mut p, key.as_str());
                push_text(&mut p, value.as_str());
                assert(p@ =~= pieces_bytes(b));
            },
            Frame::EndOfStream => {
                assert(p@ =~= payload_bytes(self@));
            },
        }
        p
    }

    /// Appends this frame's complete wire encoding to `w`.
    pub fn write_to(&self, w: &mut Vec<u8>)
        requires
            frame_fits(self@),
        ensures
            final(w)@ == old(w)@ + frame_bytes(self@),
    {
        let mut payload = self.encode_payload();
        w.push(self.frame_type());
        let mut len = u32_to_le_bytes(payload.len() as u32);
        w.append(&mut len);
        w.append(&mut payload);
        assert(final(w)@ =~= old(w)@ + frame_bytes(self@));
    }
}


/// Reads a `u32` length and then that many bytes from the front of `b`:
/// the bytes read and how many bytes were consumed, or `None` if `b` is
/// too short for either.
pub open spec fn read_blob(b: Seq<u8>) -> Option<(Seq<u8>, nat)> {
    if b.len() < 4 {
        None
    } else {
        let n = spec_u32_from_le_bytes(b.subrange(0, 4)) as nat;
        if b.len() < 4 + n {
            None
        } else {
            Some((b.subrange(4, 4 + n as int), (4 + n) as nat))
        }
    }
}

/// Reads one payload field of kind `k` from the front of `b`: the field and
/// how many bytes it took, or `None` if `b` is too short or, for text, the
/// bytes are not UTF-8.
pub open spec fn read_piece(b: Seq<u8>, k: PieceKind) -> Option<(Piece, nat)> {
    match k {
        PieceKind::Int64 => if b.len() < 8 {
            None
        } else {
            Some((Piece::Int64(spec_u64_from_le_bytes(b.subrange(0, 8))), 8nat))
        },
        PieceKind::Int16 => if b.len() < 2 {
            None
        } else {
            Some((Piece::Int16(spec_u16_from_le_bytes(b.subrange(0, 2))), 2nat))
        },
        PieceKind::Blob => match read_blob(b) {
            Some((x, n)) => Some((Piece::Blob(x), n)),
            None => None,
        },
        PieceKind::Text => match read_blob(b) {
            Some((x, n)) => if valid_utf8(x) {
                Some((Piece::Text(decode_utf8(x)), n))
            } else {
                None
            },
            None => None,
        },
    }
}

/// Reads fields of the kinds `ks`, in order, from the front of `b`. Bytes
/// after the last field are ignored.
pub open spec fn read_pieces(b: Seq<u8>, ks: Seq<PieceKind>) -> Option<Seq<Piece>>
    decreases ks.len(),
{
    if ks.len() == 0 {
        Some(Seq::empty())
    } else {
        match read_piece(b, ks[0]) {
            None => None,
            Some((p, n)) => match read_pieces(b.subrange(n as int, b.len() as int), ks.drop_first()) {
                Some(rest) => Some(seq![p] + rest),
                None => None,
            },
        }
    }
}

/// The frame types this reader knows.
pub open spec fn is_known_type(ty: u8) -> bool {
    ty == TYPE_TICK_HASH || ty == TYPE_ENTITY_HASH || ty == TYPE_FIELD_HASH || ty
        == TYPE_SNAPSHOT || ty == TYPE_METADATA || ty == TYPE_END_OF_STREAM
}

/// The field kinds that make up the payload of a frame of type `ty`.
pub open spec fn frame_shape(ty: u8) -> Seq<PieceKind> {
    if ty == TYPE_TICK_HASH {
        seq![PieceKind::Int64, PieceKind::Int16, PieceKind::Int64]
    } else if ty == TYPE_ENTITY_HASH {
        seq![PieceKind::Int64, PieceKind::Int16, PieceKind::Int64, PieceKind::Int64]
    } else if ty == TYPE_FIELD_HASH {
        seq![
            PieceKind::Int64,
            PieceKind::Int16,
            PieceKind::Int64,
            PieceKind::Text,
            PieceKind::Int64,
            PieceKind::Blob,
        ]
    } else if ty == TYPE_SNAPSHOT {
        seq![PieceKind::Int64, PieceKind::Int16, PieceKind::Blob]
    } else if ty == TYPE_METADATA {
        seq![PieceKind::Text, PieceKind::Text]
    } else {
        seq![]
    }
}

pub open spec fn piece_u64(p: Piece) -> u64 {
    match p {
        Piece::Int64(x) => x,
        _ => 0,
    }
}

pub open spec fn piece_u16(p: Piece) -> u16 {
    match p {
        Piece::Int16(x) => x,
        _ => 0,
    }
}

pub open spec fn piece_blob(p: Piece) -> Seq<u8> {
    match p {
        Piece::Blob(x) => x,
        _ => Seq::empty(),
    }
}

pub open spec fn piece_text(p: Piece) -> Seq<char> {
    match p {
        Piece::Text(x) => x,
        _ => Seq::empty(),
    }
}

/// The frame of type `ty` whose payload fields are `ps`.
pub open spec fn frame_from_pieces(ty: u8, ps: Seq<Piece>) -> FrameModel {
    if ty == TYPE_TICK_HASH {
        FrameModel::TickHash {
            tick: piece_u64(ps[0]),
            peer_id: piece_u16(ps[1]),
            hash: piece_u64(ps[2]),
        }
    } else if ty == TYPE_ENTITY_HASH {
        FrameModel::EntityHash {
            tick: piece_u64(ps[0]),
            peer_id: piece_u16(ps[1]),
            entity_id: piece_u64(ps[2]),
            hash: piece_u64(ps[3]),
        }
    } else if ty == TYPE_FIELD_HASH {
        FrameModel::FieldHash {
            tick: piece_u64(ps[0]),
            peer_id: piece_u16(ps[1]),
            entity_id: piece_u64(ps[2]),
            field_name: piece_text(ps[3]),
            hash: piece_u64(ps[4]),
            value: piece_blob(ps[5]),
        }
    } else if ty == TYPE_SNAPSHOT {
        FrameModel::Snapshot {
            tick: piece_u64(ps[0]),
            peer_id: piece_u16(ps[1]),
            compressed: piece_blob(ps[2]),
        }
    } else if ty == TYPE_METADATA {
        FrameModel::Metadata { key: piece_text(ps[0]), value: piece_text(ps[1]) }
    } else {
        FrameModel::EndOfStream
    }
}

/// What a payload of a given frame type decodes to.
pub enum Decoded {
    Frame(FrameModel),
    /// A known type whose payload is too short or holds invalid UTF-8.
    Malformed,
    /// A type this reader does not know.
    Unknown,
}

/// Decoding the payload of a frame of type `ty`: its fields are read in the
/// layout of that type; bytes after the last field are ignored.
pub open spec fn decode_payload_spec(ty: u8, payload: Seq<u8>) -> Decoded {
    if !is_known_type(ty) {
        Decoded::Unknown
    } else {
        match read_pieces(payload, frame_shape(ty)) {
            Some(ps) => Decoded::Frame(frame_from_pieces(ty, ps)),
            None => Decoded::Malformed,
        }
    }
}

pub open spec fn prepend_opt(acc: Seq<Piece>, r: Option<Seq<Piece>>) -> Option<Seq<Piece>> {
    match r {
        Some(x) => Some(acc + x),
        None => None,
    }
}

proof fn lemma_read_step_ok(
    buf: Seq<u8>,
    shape: Seq<PieceKind>,
    read: Seq<Piece>,
    rest: Seq<u8>,
    kinds: Seq<PieceKind>,
    p: Piece,
    n: nat,
)
    requires
        read_pieces(buf, shape) == prepend_opt(read, read_pieces(rest, kinds)),
        kinds.len() > 0,
        read_piece(rest, kinds[0]) == Some((p, n)),
    ensures
        read_pieces(buf, shape) == prepend_opt(
            read.push(p),
            read_pieces(rest.subrange(n as int, rest.len() as int), kinds.drop_first()),
        ),
{
    let tail = read_pieces(rest.subrange(n as int, rest.len() as int), kinds.drop_first());
    match tail {
        Some(x) => {
            assert(read + (seq![p] + x) =~= read.push(p) + x);
        },
        None => {},
    }
}

proof fn lemma_read_step_fails(
    buf: Seq<u8>,
    shape: Seq<PieceKind>,
    read: Seq<Piece>,
    rest: Seq<u8>,
    kinds: Seq<PieceKind>,
)
    requires
        read_pieces(buf, shape) == prepend_opt(read, read_pieces(rest, kinds)),
        kinds.len() > 0,
        read_piece(rest, kinds[0]) is None,
    ensures
        read_pieces(buf, shape) is None,
{
}

/// Reads the fields of one already length-delimited payload; never reads
/// past the end of it. The ghost fields track which fields of the payload's
/// layout have been read so far.
struct Cursor<'a> {
    buf: &'a [u8],
    pos: usize,
    shape: Ghost<Seq<PieceKind>>,
    kinds: Ghost<Seq<PieceKind>>,
    read: Ghost<Seq<Piece>>,
}

impl<'a> Cursor<'a> {
    spec fn rest(&self) -> Seq<u8> {
        self.buf@.subrange(self.pos as int, self.buf@.len() as int)
    }

    /// The fields read so far, followed by whatever the remaining bytes
    /// give for the remaining kinds, is what the whole payload gives.
    spec fn inv(&self) -> bool {
        &&& self.pos <= self.buf@.len()
        &&& read_pieces(self.buf@, self.shape@) == prepend_opt(
            self.read@,
            read_pieces(self.rest(), self.kinds@),
        )
    }

    fn take(&mut self, n: usize) -> (r: Result<&'a [u8], Error>)
        requires
            old(self).pos <= old(self).buf@.len(),
        ensures
            final(self).buf == old(self).buf,
            final(self).shape == old(self).shape,
            final(self).kinds == old(self).kinds,
            final(self).read == old(self).read,
            n <= old(self).rest().len() ==> {
                &&& r matches Ok(s) && s@ == old(self).rest().subrange(0, n as int)
                &&& final(self).pos == old(self).pos + n
            },
            n > old(self).rest().len() ==> {
                &&& r matches Err(Error::MalformedFrame)
                &&& final(self).pos == old(self).pos
            },
    {
        if n > self.buf.len() - self.pos {
            return Err(Error::MalformedFrame);
        }
        let s = slice_subrange(self.buf, self.pos, self.pos + n);
        assert(s@ =~= old(self).rest().subrange(0, n as int));
        self.pos = self.pos + n;
        Ok(s)
    }

    fn take_u16(&mut self) -> (r: Result<u16, Error>)
        requires
            old(self).inv(),
            old(self).kinds@.len() > 0,
            old(self).kinds@[0] == PieceKind::Int16,
        ensures
            final(self).buf == old(self).buf,
            final(self).shape == old(self).shape,
            match r {
                Ok(x) => {
                    &&& final(self).inv()
                    &&& final(self).kinds@ == old(self).kinds@.drop_first()
                    &&& final(self).read@ == old(self).read@.push(Piece::Int16(x))
                },
                Err(e) => e matches Error::MalformedFrame && read_pieces(
                    old(self).buf@,
                    old(self).shape@,
                ) is None,
            },
    {
        let ghost rest0 = self.rest();
        match self.take(2) {
            Err(e) => {
                proof {
                    lemma_read_step_fails(
                        self.buf@,
                        self.shape@,
                        self.read@,
                        rest0,
                        self.kinds@,
                    );
                }
                Err(e)
            },
            Ok(s) => {
                let x = u16_from_le_bytes(s);
                proof {
                    lemma_read_step_ok(
                        self.buf@,
                        self.shape@,
                        self.read@,
                        rest0,
                        self.kinds@,
                        Piece::Int16(x),
                        2,
                    );
                    assert(self.rest() =~= rest0.subrange(2, rest0.len() as int));
                }
                self.kinds = Ghost(self.kinds@.drop_first());
                self.read = Ghost(self.read@.push(Piece::Int16(x)));
                Ok(x)
            },
        }
    }

    fn take_u32(&mut self) -> (r: Result<u32, Error>)
        requires
            old(self).pos <= old(self).buf@.len(),
        ensures
            final(self).buf == old(self).buf,
            final(self).shape == old(self).shape,
            final(self).kinds == old(self).kinds,
            final(self).read == old(self).read,
            old(self).rest().len() >= 4 ==> {
                &&& r matches Ok(x) && x == spec_u32_from_le_bytes(
                    old(self).rest().subrange(0, 4),
                )
                &&& final(self).pos == old(self).pos + 4
            },
            old(self).rest().len() < 4 ==> r matches Err(Error::MalformedFrame),
            final(self).pos <= final(self).buf@.len(),
    {
        let s = self.take(4)?;
        Ok(u32_from_le_bytes(s))
    }

    fn take_u64(&mut self) -> (r: Result<u64, Error>)
        requires
            old(self).inv(),
            old(self).kinds@.len() > 0,
            old(self).kinds@[0] == PieceKind::Int64,
        ensures
            final(self).buf == old(self).buf,
            final(self).shape == old(self).shape,
            match r {
                Ok(x) => {
                    &&& final(self).inv()
                    &&& final(self).kinds@ == old(self).kinds@.drop_first()
                    &&& final(self).read@ == old(self).read@.push(Piece::Int64(x))
                },
                Err(e) => e matches Error::MalformedFrame && read_pieces(
                    old(self).buf@,
                    old(self).shape@,
                ) is None,
            },
    {
        let ghost rest0 = self.rest();
        match self.take(8) {
            Err(e) => {
                proof {
                    lemma_read_step_fails(
                        self.buf@,
                        self.shape@,
                        self.read@,
                        rest0,
                        self.kinds@,
                    );
                }
                Err(e)
            },
            Ok(s) => {
                let x = u64_from_le_bytes(s);
                proof {
                    lemma_read_step_ok(
                        self.buf@,
                        self.shape@,
                        self.read@,
                        rest0,
                        self.kinds@,
                        Piece::Int64(x),
                        8,
                    );
                    assert(self.rest() =~= rest0.subrange(8, rest0.len() as int));
                }
                self.kinds = Ghost(self.kinds@.drop_first());
                self.read = Ghost(self.read@.push(Piece::Int64(x)));
                Ok(x)
            },
        }
    }

    /// Reads a length-prefixed byte buffer; the result is the raw bytes and
    /// the cursor's position moves past them. Ghost bookkeeping is left to
    /// the callers.
    fn take_raw_bytes(&mut self) -> (r: Result<Vec<u8>, Error>)
        requires
            old(self).pos <= old(self).buf@.len(),
        ensures
            final(self).buf == old(self).buf,
            final(self).shape == old(self).shape,
            final(self).kinds == old(self).kinds,
            final(self).read == old(self).read,
            final(self).pos <= final(self).buf@.len(),
            match read_blob(old(self).rest()) {
                Some((x, n)) => r matches Ok(v) && v@ == x && final(self).pos == old(self).pos
                    + n,
                None => r matches Err(Error::MalformedFrame),
            },
    {
        let ghost rest0 = self.rest();
        let len = self.take_u32()?;
        let ghost rest1 = self.rest();
        assert(rest1 =~= rest0.subrange(4, rest0.len() as int));
        let s = self.take(len as usize)?;
        assert(s@ =~= rest0.subrange(4, 4 + len as int));
        Ok(slice_to_vec(s))
    }

    fn take_bytes(&mut self) -> (r: Result<Vec<u8>, Error>)
        requires
            old(self).inv(),
            old(self).kinds@.len() > 0,
            old(self).kinds@[0] == PieceKind::Blob,
        ensures
            final(self).buf == old(self).buf,
            final(self).shape == old(self).shape,
            match r {
                Ok(x) => {
                    &&& final(self).inv()
                    &&& final(self).kinds@ == old(self).kinds@.drop_first()
                    &&& final(self).read@ == old(self).read@.push(Piece::Blob(x@))
                },
                Err(e) => e matches Error::MalformedFrame && read_pieces(
                    old(self).buf@,
                    old(self).shape@,
                ) is None,
            },
    {
        let ghost rest0 = self.rest();
        let ghost pos0 = self.pos;
        match self.take_raw_bytes() {
            Err(e) => {
                proof {
                    lemma_read_step_fails(
                        self.buf@,
                        self.shape@,
                        self.read@,
                        rest0,
                        self.kinds@,
                    );
                }
                Err(e)
            },
            Ok(v) => {
                proof {
                    let n = (self.pos - pos0) as nat;
                    lemma_read_step_ok(
                        self.buf@,
                        self.shape@,
                        self.read@,
                        rest0,
                        self.kinds@,
                        Piece::Blob(v@),
                        n,
                    );
                    assert(self.rest() =~= rest0.subrange(n as int, rest0.len() as int));
                }
                self.kinds = Ghost(self.kinds@.drop_first());
                self.read = Ghost(self.read@.push(Piece::Blob(v@)));
                Ok(v)
            },
        }
    }

    fn take_string(&mut self) -> (r: Result<String, Error>)
        requires
            old(self).inv(),
            old(self).kinds@.len() > 0,
            old(self).kinds@[0] == PieceKind::Text,
        ensures
            final(self).buf == old(self).buf,
            final(self).shape == old(self).shape,
            match r {
                Ok(x) => {
                    &&& final(self).inv()
                    &&& final(self).kinds@ == old(self).kinds@.drop_first()
                    &&& final(self).read@ == old(self).read@.push(Piece::Text(x@))
                },
                Err(e) => e matches Error::MalformedFrame && read_pieces(
                    old(self).buf@,
                    old(self).shape@,
                ) is None,
            },
    {
        let ghost rest0 = self.rest();
        let ghost pos0 = self.pos;
        let bytes = match self.take_raw_bytes() {
            Err(e) => {
                proof {
                    lemma_read_step_fails(
                        self.buf@,
                        self.shape@,
                        self.read@,
                        rest0,
                        self.kinds@,
                    );
                }
                return Err(e);
            },
            Ok(v) => v,
        };
        let ghost raw = bytes@;
        match utf8_to_string(bytes) {
            None => {
                proof {
                    lemma_read_step_fails(
                        self.buf@,
                        self.shape@,
                        self.read@,
                        rest0,
                        self.kinds@,
                    );
                }
                Err(Error::MalformedFrame)
            },
            Some(text) => {
                proof {
                    let n = (self.pos - pos0) as nat;
                    lemma_read_step_ok(
                        self.buf@,
                        self.shape@,
                        self.read@,
                        rest0,
                        self.kinds@,
                        Piece::Text(text@),
                        n,
                    );
                    assert(self.rest() =~= rest0.subrange(n as int, rest0.len() as int));
                }
                self.kinds = Ghost(self.kinds@.drop_first());
                self.read = Ghost(self.read@.push(Piece::Text(text@)));
                Ok(text)
            },
        }
    }
}

/// Turns bytes into text with `String::from_utf8`.
///
/// Trusted: `String::from_utf8` accepts exactly the valid UTF-8 byte strings
/// and the resulting `String` holds the characters those bytes encode.
#[verifier::external_body]
fn utf8_to_string(bytes: Vec<u8>) -> (r: Option<String>)
    ensures
        r is Some <==> valid_utf8(bytes@),
        r matches Some(s) ==> s@ == decode_utf8(bytes@),
{
    String::from_utf8(bytes).ok()
}


impl Frame {
    /// Decodes the payload of a frame of type `frame_type`.
    fn decode_payload(frame_type: u8, payload: &[u8]) -> (r: Result<Frame, Error>)
        ensures
            match decode_payload_spec(frame_type, payload@) {
                Decoded::Frame(m) => r matches Ok(f) && f@ == m,
                Decoded::Malformed => r matches Err(Error::MalformedFrame),
                Decoded::Unknown => r matches Err(Error::UnknownFrameType(t)) && t == frame_type,
            },
    {
        let ghost shape = frame_shape(frame_type);
        let mut c = Cursor {
            buf: payload,
            pos: 0,
            shape: Ghost(shape),
            kinds: Ghost(shape),
            read: Ghost(Seq::empty()),
        };
        proof {
            assert(c.rest() =~= payload@);
            match read_pieces(payload@, shape) {
                Some(x) => {
                    assert(Seq::<Piece>::empty() + x =~= x);
                },
                None => {},
            }
        }
        if frame_type == TYPE_TICK_HASH {
            let tick = c.take_u64()?;
            let peer_id = c.take_u16()?;
            let hash = c.take_u64()?;
            proof {
                assert(c.kinds@ =~= Seq::<PieceKind>::empty());
                assert(c.read@ + Seq::<Piece>::empty() =~= c.read@);
            }
            Ok(Frame::TickHash { tick, peer_id, hash })
        } else if frame_type == TYPE_ENTITY_HASH {
            let tick = c.take_u64()?;
            let peer_id = c.take_u16()?;
            let entity_id = c.take_u64()?;
            let hash = c.take_u64()?;
            proof {
                assert(c.kinds@ =~= Seq::<PieceKind>::empty());
                assert(c.read@ + Seq::<Piece>::empty() =~= c.read@);
            }
            Ok(Frame::EntityHash { tick, peer_id, entity_id, hash })
        } else if frame_type == TYPE_FIELD_HASH {
            let tick = c.take_u64()?;
            let peer_id = c.take_u16()?;
            let entity_id = c.take_u64()?;
            let field_name = c.take_string()?;
            let hash = c.take_u64()?;
            let value = c.take_bytes()?;
            proof {
                assert(c.kinds@ =~= Seq::<PieceKind>::empty());
                assert(c.read@ + Seq::<Piece>::empty() =~= c.read@);
            }
            Ok(Frame::FieldHash { tick, peer_id, entity_id, field_name, hash, value })
        } else if frame_type == TYPE_SNAPSHOT {
            let tick = c.take_u64()?;
            let peer_id = c.take_u16()?;
            let compressed = c.take_bytes()?;
            proof {
                assert(c.kinds@ =~= Seq::<PieceKind>::empty());
                assert(c.read@ + Seq::<Piece>::empty() =~= c.read@);
            }
            Ok(Frame::Snapshot { tick, peer_id, compressed })
        } else if frame_type == TYPE_METADATA {
            let key = c.take_string()?;
            let value = c.take_string()?;
            proof {
                assert(c.kinds@ =~= Seq::<PieceKind>::empty());
                assert(c.read@ + Seq::<Piece>::empty() =~= c.read@);
            }
            Ok(Frame::Metadata { key, value })
        } else if frame_type == TYPE_END_OF_STREAM {
            Ok(Frame::EndOfStream)
        } else {
            Err(Error::UnknownFrameType(frame_type))
        }
    }
}


/// What reading the next frame from a byte stream yields.
pub enum StreamStep {
    /// The stream ended: no bytes left, or the last frame was cut off.
    End,
    /// A known frame type whose payload is malformed.
    Bad,
    /// A decoded frame.
    Item(FrameModel),
}

/// The next step of reading frames from the front of `data`, and how many
/// bytes it consumes. A frame whose header or payload is cut off ends the
/// stream and consumes the rest; a frame of unknown type is skipped by its
/// length and reading goes on after it.
pub open spec fn frame_step(data: Seq<u8>) -> (StreamStep, nat)
    decreases data.len(),
{
    if data.len() < 5 {
        (StreamStep::End, data.len())
    } else {
        let ty = data[0];
        let n = (5 + spec_u32_from_le_bytes(data.subrange(1, 5)) as nat) as nat;
        if n > data.len() {
            (StreamStep::End, data.len())
        } else {
            match decode_payload_spec(ty, data.subrange(5, n as int)) {
                Decoded::Frame(f) => (StreamStep::Item(f), n),
                Decoded::Malformed => (StreamStep::Bad, n),
                Decoded::Unknown => {
                    let (s, m) = frame_step(data.subrange(n as int, data.len() as int));
                    (s, (n + m) as nat)
                },
            }
        }
    }
}

/// The step a [`FrameReader`] takes: as [`frame_step`], except that an
/// `EndOfStream` frame closes the stream, so nothing after it is read.
pub open spec fn reader_step(data: Seq<u8>) -> (StreamStep, nat) {
    let (s, n) = frame_step(data);
    if s matches StreamStep::Item(FrameModel::EndOfStream) {
        (s, data.len())
    } else {
        (s, n)
    }
}

/// Every step that reading `data` from the start yields before the end.
pub open spec fn stream_steps(data: Seq<u8>) -> Seq<StreamStep>
    decreases data.len(),
{
    let (s, n) = reader_step(data);
    if s is End || n == 0 || n > data.len() {
        seq![]
    } else {
        seq![s] + stream_steps(data.subrange(n as int, data.len() as int))
    }
}

/// Streaming frame reader over the bytes that follow a file header. A
/// frame cut off by the end of the data ends the stream without an error;
/// an unknown frame type is skipped, never an error.
pub struct FrameReader {
    inner: Vec<u8>,
    pos: usize,
}

impl FrameReader {
    #[verifier::type_invariant]
    spec fn inv(&self) -> bool {
        self.pos <= self.inner@.len()
    }

    /// The bytes not yet read.
    pub closed spec fn remaining(&self) -> Seq<u8> {
        self.inner@.subrange(self.pos as int, self.inner@.len() as int)
    }

    pub fn new(inner: Vec<u8>) -> (r: Self)
        ensures
            r.remaining() == inner@,
    {
        let r = FrameReader { inner, pos: 0 };
        assert(r.remaining() =~= r.inner@);
        r
    }

    /// `Ok(Some(frame))` for the next frame, `Ok(None)` at the end of the
    /// stream (no bytes left, a frame cut off by the end of the data, or an
    /// `EndOfStream` frame already read), `Err(MalformedFrame)` for a known
    /// frame type whose payload does not hold its fields; reading can go on
    /// after such a frame.
    pub fn next_frame(&mut self) -> (r: Result<Option<Frame>, Error>)
        ensures
            ({
                let (s, n) = reader_step(old(self).remaining());
                &&& n <= old(self).remaining().len()
                &&& final(self).remaining() == old(self).remaining().subrange(
                    n as int,
                    old(self).remaining().len() as int,
                )
                &&& match s {
                    StreamStep::End => r matches Ok(None),
                    StreamStep::Bad => r matches Err(Error::MalformedFrame),
                    StreamStep::Item(m) => r matches Ok(Some(f)) && f@ == m,
                }
            }),
    {
        proof {
            use_type_invariant(&*self);
            lemma_frame_step_bounded(self.remaining());
        }
        let ghost start = self.remaining();
        let ghost pos0 = self.pos;
        loop
            invariant
                self.pos <= self.inner@.len(),
                self.inner@ == old(self).inner@,
                pos0 == old(self).pos,
                pos0 <= self.pos,
                start == old(self).remaining(),
                self.remaining() == start.subrange(self.pos - pos0, start.len() as int),
                frame_step(start).0 == frame_step(self.remaining()).0,
                frame_step(start).1 == (self.pos - pos0) + frame_step(self.remaining()).1,
                frame_step(self.remaining()).1 <= self.remaining().len(),
            decreases self.inner@.len() - self.pos,
        {
            let ghost rem = self.remaining();
            proof {
                lemma_frame_step_bounded(rem);
            }
            let avail = self.inner.len() - self.pos;
            if avail < 5 {
                self.pos = self.inner.len();
                assert(self.remaining() =~= start.subrange(start.len() as int, start.len() as int));
                return Ok(None);
            }
            let ty = self.inner[self.pos];
            let len_bytes = slice_subrange(self.inner.as_slice(), self.pos + 1, self.pos + 5);
            assert(len_bytes@ =~= rem.subrange(1, 5));
            let len = u32_from_le_bytes(len_bytes) as usize;
            if len > avail - 5 {
                self.pos = self.inner.len();
                assert(self.remaining() =~= start.subrange(start.len() as int, start.len() as int));
                return Ok(None);
            }
            let end = self.pos + 5 + len;
            let payload = slice_subrange(self.inner.as_slice(), self.pos + 5, end);
            assert(payload@ =~= rem.subrange(5, 5 + len as int));
            let decoded = Frame::decode_payload(ty, payload);
            self.pos = end;
            assert(self.remaining() =~= rem.subrange(5 + len as int, rem.len() as int));
            assert(self.remaining() =~= start.subrange(self.pos - pos0, start.len() as int));
            match decoded {
                Ok(f) => {
                    if let Frame::EndOfStream = f {
                        self.pos = self.inner.len();
                        assert(self.remaining() =~= start.subrange(
                            start.len() as int,
                            start.len() as int,
                        ));
                    }
                    return Ok(Some(f));
                },
                Err(Error::UnknownFrameType(t)) => {
                    proof {
                        lemma_frame_step_bounded(self.remaining());
                    }
                },
                Err(e) => {
                    return Err(e);
                },
            }
        }
    }

    /// Iterator-style access: `Some(Ok(frame))`, `Some(Err(e))` for a
    /// malformed frame, `None` at the end of the stream.
    pub fn next(&mut self) -> (r: Option<Result<Frame, Error>>)
        ensures
            ({
                let (s, n) = reader_step(old(self).remaining());
                &&& final(self).remaining() == old(self).remaining().subrange(
                    n as int,
                    old(self).remaining().len() as int,
                )
                &&& match s {
                    StreamStep::End => r is None,
                    StreamStep::Bad => r matches Some(Err(Error::MalformedFrame)),
                    StreamStep::Item(m) => r matches Some(Ok(f)) && f@ == m,
                }
            }),
    {
        match self.next_frame() {
            Ok(Some(f)) => Some(Ok(f)),
            Ok(None) => None,
            Err(e) => Some(Err(e)),
        }
    }
}

/// A step never consumes more than is there.
pub proof fn lemma_frame_step_bounded(data: Seq<u8>)
    ensures
        frame_step(data).1 <= data.len(),
        !(frame_step(data).0 is End) ==> frame_step(data).1 >= 5,
    decreases data.len(),
{
    if data.len() >= 5 {
        let n = (5 + spec_u32_from_le_bytes(data.subrange(1, 5)) as nat) as nat;
        if n <= data.len() {
            lemma_frame_step_bounded(data.subrange(n as int, data.len() as int));
        }
    }
}


pub open spec fn piece_kind(p: Piece) -> PieceKind {
    match p {
        Piece::Int64(_) => PieceKind::Int64,
        Piece::Int16(_) => PieceKind::Int16,
        Piece::Blob(_) => PieceKind::Blob,
        Piece::Text(_) => PieceKind::Text,
    }
}

/// A field's length prefix, if it has one, can hold its length.
pub open spec fn piece_fits(p: Piece) -> bool {
    match p {
        Piece::Blob(b) => b.len() <= u32::MAX,
        Piece::Text(t) => encode_utf8(t).len() <= u32::MAX,
        _ => true,
    }
}

proof fn lemma_read_piece_of_bytes(p: Piece, tail: Seq<u8>)
    requires
        piece_fits(p),
    ensures
        read_piece(piece_bytes(p) + tail, piece_kind(p)) == Some((p, piece_bytes(p).len())),
{
    lemma_auto_spec_u16_to_from_le_bytes();
    lemma_auto_spec_u32_to_from_le_bytes();
    lemma_auto_spec_u64_to_from_le_bytes();
    let b = piece_bytes(p) + tail;
    match p {
        Piece::Int64(x) => {
            assert(b.subrange(0, 8) =~= spec_u64_to_le_bytes(x));
        },
        Piece::Int16(x) => {
            assert(b.subrange(0, 2) =~= spec_u16_to_le_bytes(x));
        },
        Piece::Blob(x) => {
            assert(b.subrange(0, 4) =~= spec_u32_to_le_bytes(x.len() as u32));
            assert(b.subrange(4, 4 + x.len() as int) =~= x);
        },
        Piece::Text(t) => {
            let x = encode_utf8(t);
            assert(b.subrange(0, 4) =~= spec_u32_to_le_bytes(x.len() as u32));
            assert(b.subrange(4, 4 + x.len() as int) =~= x);
            encode_utf8_valid_utf8(t);
            encode_utf8_decode_utf8(t);
        },
    }
}

proof fn lemma_read_pieces_of_bytes(ps: Seq<Piece>, tail: Seq<u8>)
    requires
        forall|i: int| 0 <= i < ps.len() ==> piece_fits(#[trigger] ps[i]),
    ensures
        read_pieces(pieces_bytes(ps) + tail, ps.map_values(|p: Piece| piece_kind(p))) == Some(ps),
    decreases ps.len(),
{
    let kinds = ps.map_values(|p: Piece| piece_kind(p));
    if ps.len() == 0 {
        assert(kinds =~= Seq::<PieceKind>::empty());
        assert(ps =~= Seq::<Piece>::empty());
    } else {
        let rest = ps.drop_first();
        let b = pieces_bytes(ps) + tail;
        let later = pieces_bytes(rest) + tail;
        assert(b =~= piece_bytes(ps[0]) + later);
        assert(piece_fits(ps[0]));
        lemma_read_piece_of_bytes(ps[0], later);
        let n = piece_bytes(ps[0]).len();
        assert(b.subrange(n as int, b.len() as int) =~= later);
        assert(kinds.drop_first() =~= rest.map_values(|p: Piece| piece_kind(p)));
        assert forall|i: int| 0 <= i < rest.len() implies piece_fits(#[trigger] rest[i]) by {
            assert(rest[i] == ps[i + 1]);
        }
        lemma_read_pieces_of_bytes(rest, tail);
        assert(seq![ps[0]] + rest =~= ps);
    }
}

proof fn lemma_piece_within(ps: Seq<Piece>, i: int)
    requires
        0 <= i < ps.len(),
    ensures
        piece_bytes(ps[i]).len() <= pieces_bytes(ps).len(),
    decreases ps.len(),
{
    if i > 0 {
        lemma_piece_within(ps.drop_first(), i - 1);
    }
}

/// Decoding the payload that `write_to` produced for a frame, with any bytes
/// after it, gives back that frame.
pub proof fn lemma_payload_round_trip(f: FrameModel, tail: Seq<u8>)
    requires
        frame_fits(f),
    ensures
        decode_payload_spec(frame_type_code(f), payload_bytes(f) + tail) == Decoded::Frame(f),
{
    let ps = frame_pieces(f);
    assert forall|i: int| 0 <= i < ps.len() implies piece_fits(#[trigger] ps[i]) by {
        lemma_piece_within(ps, i);
    }
    lemma_read_pieces_of_bytes(ps, tail);
    assert(frame_shape(frame_type_code(f)) =~= ps.map_values(|p: Piece| piece_kind(p)));
}

/// A written frame reads back as itself, whatever follows it.
pub proof fn lemma_frame_round_trip(f: FrameModel, rest: Seq<u8>)
    requires
        frame_fits(f),
    ensures
        frame_step(frame_bytes(f) + rest) == (StreamStep::Item(f), frame_bytes(f).len()),
{
    lemma_auto_spec_u32_to_from_le_bytes();
    let payload = payload_bytes(f);
    let data = frame_bytes(f) + rest;
    assert(data.subrange(1, 5) =~= spec_u32_to_le_bytes(payload.len() as u32));
    assert(data.subrange(5, 5 + payload.len() as int) =~= payload + Seq::<u8>::empty());
    lemma_payload_round_trip(f, Seq::<u8>::empty());
}

/// The bytes of a sequence of frames written one after another.
pub open spec fn frames_bytes(fs: Seq<FrameModel>) -> Seq<u8>
    decreases fs.len(),
{
    if fs.len() == 0 {
        seq![]
    } else {
        frame_bytes(fs[0]) + frames_bytes(fs.drop_first())
    }
}

pub open spec fn all_fit(fs: Seq<FrameModel>) -> bool {
    forall|i: int| 0 <= i < fs.len() ==> frame_fits(#[trigger] fs[i])
}

/// `EndOfStream`, if present, is the last frame.
pub open spec fn end_only_last(fs: Seq<FrameModel>) -> bool {
    forall|i: int| 0 <= i < fs.len() - 1 ==> !(#[trigger] fs[i] is EndOfStream)
}

pub open spec fn items(fs: Seq<FrameModel>) -> Seq<StreamStep> {
    fs.map_values(|f: FrameModel| StreamStep::Item(f))
}

/// How many whole frames of `fs` fit in its first `cut` bytes.
pub open spec fn frames_within(fs: Seq<FrameModel>, cut: int) -> nat
    decreases fs.len(),
{
    if fs.len() == 0 {
        0
    } else if frame_bytes(fs[0]).len() <= cut {
        1 + frames_within(fs.drop_first(), cut - frame_bytes(fs[0]).len())
    } else {
        0
    }
}

proof fn lemma_frame_bytes_len(f: FrameModel)
    ensures
        frame_bytes(f).len() == 5 + payload_bytes(f).len(),
{
    lemma_auto_spec_u32_to_from_le_bytes();
}

proof fn lemma_field_hash_payload_len(
    tick: u64,
    peer_id: u16,
    entity_id: u64,
    name: Seq<char>,
    hash: u64,
    value: Seq<u8>,
)
    ensures
        payload_bytes(
            FrameModel::FieldHash { tick, peer_id, entity_id, field_name: name, hash, value },
        ).len() == 34 + encode_utf8(name).len() + value.len(),
{
    lemma_auto_spec_u16_to_from_le_bytes();
    lemma_auto_spec_u32_to_from_le_bytes();
    lemma_auto_spec_u64_to_from_le_bytes();
    let f = FrameModel::FieldHash { tick, peer_id, entity_id, field_name: name, hash, value };
    let e = Seq::<Piece>::empty();
    let a = e.push(Piece::Int64(tick));
    let b = a.push(Piece::Int16(peer_id));
    let c = b.push(Piece::Int64(entity_id));
    let d = c.push(Piece::Text(name));
    let g = d.push(Piece::Int64(hash));
    let h = g.push(Piece::Blob(value));
    lemma_pieces_bytes_push(e, Piece::Int64(tick));
    lemma_pieces_bytes_push(a, Piece::Int16(peer_id));
    lemma_pieces_bytes_push(b, Piece::Int64(entity_id));
    lemma_pieces_bytes_push(c, Piece::Text(name));
    lemma_pieces_bytes_push(d, Piece::Int64(hash));
    lemma_pieces_bytes_push(g, Piece::Blob(value));
    assert(h =~= frame_pieces(f));
    assert(pieces_bytes(e) =~= Seq::<u8>::empty());
}

proof fn lemma_metadata_payload_len(key: Seq<char>, value: Seq<char>)
    ensures
        payload_bytes(FrameModel::Metadata { key, value }).len() == 8 + encode_utf8(key).len()
            + encode_utf8(value).len(),
{
    lemma_auto_spec_u32_to_from_le_bytes();
    let f = FrameModel::Metadata { key, value };
    let e = Seq::<Piece>::empty();
    let a = e.push(Piece::Text(key));
    let b = a.push(Piece::Text(value));
    lemma_pieces_bytes_push(e, Piece::Text(key));
    lemma_pieces_bytes_push(a, Piece::Text(value));
    assert(b =~= frame_pieces(f));
    assert(pieces_bytes(e) =~= Seq::<u8>::empty());
}

proof fn lemma_snapshot_payload_len(tick: u64, peer_id: u16, compressed: Seq<u8>)
    ensures
        payload_bytes(FrameModel::Snapshot { tick, peer_id, compressed }).len() == 14
            + compressed.len(),
{
    lemma_auto_spec_u16_to_from_le_bytes();
    lemma_auto_spec_u32_to_from_le_bytes();
    lemma_auto_spec_u64_to_from_le_bytes();
    let f = FrameModel::Snapshot { tick, peer_id, compressed };
    let e = Seq::<Piece>::empty();
    let a = e.push(Piece::Int64(tick));
    let b = a.push(Piece::Int16(peer_id));
    let c = b.push(Piece::Blob(compressed));
    lemma_pieces_bytes_push(e, Piece::Int64(tick));
    lemma_pieces_bytes_push(a, Piece::Int16(peer_id));
    lemma_pieces_bytes_push(b, Piece::Blob(compressed));
    assert(c =~= frame_pieces(f));
    assert(pieces_bytes(e) =~= Seq::<u8>::empty());
}

/// The frames whose fields all have a fixed size always fit.
pub proof fn lemma_fixed_frames_fit(tick: u64, peer_id: u16, entity_id: u64, hash: u64)
    ensures
        frame_fits(FrameModel::TickHash { tick, peer_id, hash }),
        frame_fits(FrameModel::EntityHash { tick, peer_id, entity_id, hash }),
        frame_fits(FrameModel::EndOfStream),
{
    lemma_auto_spec_u16_to_from_le_bytes();
    lemma_auto_spec_u64_to_from_le_bytes();
    let e = Seq::<Piece>::empty();
    let a = e.push(Piece::Int64(tick));
    let b = a.push(Piece::Int16(peer_id));
    let c = b.push(Piece::Int64(hash));
    let c2 = b.push(Piece::Int64(entity_id));
    let d = c2.push(Piece::Int64(hash));
    lemma_pieces_bytes_push(e, Piece::Int64(tick));
    lemma_pieces_bytes_push(a, Piece::Int16(peer_id));
    lemma_pieces_bytes_push(b, Piece::Int64(hash));
    lemma_pieces_bytes_push(b, Piece::Int64(entity_id));
    lemma_pieces_bytes_push(c2, Piece::Int64(hash));
    assert(c =~= frame_pieces(FrameModel::TickHash { tick, peer_id, hash }));
    assert(d =~= frame_pieces(FrameModel::EntityHash { tick, peer_id, entity_id, hash }));
    assert(pieces_bytes(e) =~= Seq::<u8>::empty());
    assert(frame_pieces(FrameModel::EndOfStream) =~= e);
}

/// A field hash frame with this field name and value fits the format's
/// `u32` length fields; its other fields have a fixed size.
pub open spec fn field_hash_payload_fits(name: Seq<char>, value: Seq<u8>) -> bool {
    34 + encode_utf8(name).len() + value.len() <= u32::MAX
}

/// Whether a field hash frame can be written depends on its name and value
/// alone.
pub proof fn lemma_field_hash_fits(
    tick: u64,
    peer_id: u16,
    entity_id: u64,
    name: Seq<char>,
    hash: u64,
    value: Seq<u8>,
)
    ensures
        frame_fits(FrameModel::FieldHash { tick, peer_id, entity_id, field_name: name, hash, value })
            == field_hash_payload_fits(name, value),
{
    lemma_field_hash_payload_len(tick, peer_id, entity_id, name, hash, value);
}

/// Whether a field hash frame with this name and value can be written.
pub fn field_hash_fits(field_name: &str, value: &[u8]) -> (b: bool)
    ensures
        b == field_hash_payload_fits(field_name@, value@),
{
    let limit: usize = 4294967261;
    let n = field_name.as_bytes().len();
    let m = value.len();
    if n > limit {
        false
    } else {
        m <= limit - n
    }
}

impl Frame {
    /// Whether this frame can be written: its payload fits the format's
    /// `u32` length fields.
    pub fn fits(&self) -> (b: bool)
        ensures
            b == frame_fits(self@),
    {
        match self {
            Frame::TickHash { tick, peer_id, hash } => {
                proof {
                    lemma_fixed_frames_fit(*tick, *peer_id, 0, *hash);
                }
                true
            },
            Frame::EntityHash { tick, peer_id, entity_id, hash } => {
                proof {
                    lemma_fixed_frames_fit(*tick, *peer_id, *entity_id, *hash);
                }
                true
            },
            Frame::FieldHash { tick, peer_id, entity_id, field_name, hash, value } => {
                proof {
                    lemma_field_hash_fits(*tick, *peer_id, *entity_id, field_name@, *hash, value@);
                }
                field_hash_fits(field_name.as_str(), value.as_slice())
            },
            Frame::Snapshot { tick, peer_id, compressed } => {
                proof {
                    lemma_snapshot_payload_len(*tick, *peer_id, compressed@);
                }
                compressed.len() <= 4294967281
            },
            Frame::Metadata { key, value } => metadata_fits(key.as_str(), value.as_str()),
            Frame::EndOfStream => {
                proof {
                    lemma_fixed_frames_fit(0, 0, 0, 0);
                }
                true
            },
        }
    }
}

/// Whether a metadata frame with this key and value can be written.
pub fn metadata_fits(key: &str, value: &str) -> (b: bool)
    ensures
        b == frame_fits(FrameModel::Metadata { key: key@, value: value@ }),
{
    proof {
        lemma_metadata_payload_len(key@, value@);
    }
    let limit: usize = 4294967287;
    let n = key.as_bytes().len();
    let m = value.as_bytes().len();
    if n > limit {
        false
    } else {
        m <= limit - n
    }
}

/// Writing one more frame appends its bytes.
pub proof fn lemma_frames_bytes_push(fs: Seq<FrameModel>, f: FrameModel)
    ensures
        frames_bytes(fs.push(f)) == frames_bytes(fs) + frame_bytes(f),
    decreases fs.len(),
{
    if fs.len() == 0 {
        assert(fs.push(f).drop_first() =~= Seq::<FrameModel>::empty());
        assert(fs.push(f)[0] == f);
        assert(frames_bytes(Seq::<FrameModel>::empty()) =~= Seq::<u8>::empty());
        assert(frames_bytes(fs) =~= Seq::<u8>::empty());
        assert(frames_bytes(fs.push(f)) =~= frame_bytes(f));
    } else {
        lemma_frames_bytes_push(fs.drop_first(), f);
        assert(fs.push(f).drop_first() =~= fs.drop_first().push(f));
        assert(frames_bytes(fs.push(f)) =~= frames_bytes(fs) + frame_bytes(f));
    }
}

/// Stream round trip: a sequence of frames written one after another reads
/// back as exactly those frames, in order, and then the end of the stream.
pub proof fn lemma_stream_round_trip(fs: Seq<FrameModel>)
    requires
        all_fit(fs),
        end_only_last(fs),
    ensures
        stream_steps(frames_bytes(fs)) == items(fs),
    decreases fs.len(),
{
    reveal_with_fuel(stream_steps, 2);
    if fs.len() == 0 {
        assert(items(fs) =~= Seq::<StreamStep>::empty());
        assert(frames_bytes(fs) =~= Seq::<u8>::empty());
    } else {
        let f0 = fs[0];
        let rest = fs.drop_first();
        let data = frames_bytes(fs);
        assert(frame_fits(f0));
        lemma_frame_round_trip(f0, frames_bytes(rest));
        lemma_frame_bytes_len(f0);
        let n = frame_bytes(f0).len();
        assert(data.subrange(n as int, data.len() as int) =~= frames_bytes(rest));
        if f0 is EndOfStream {
            assert(fs.len() == 1);
            assert(rest =~= Seq::<FrameModel>::empty());
            assert(frames_bytes(rest) =~= Seq::<u8>::empty());
        }
        assert forall|i: int| 0 <= i < rest.len() implies frame_fits(#[trigger] rest[i]) by {
            assert(rest[i] == fs[i + 1]);
        }
        assert forall|i: int| 0 <= i < rest.len() - 1 implies !(#[trigger] rest[i] is EndOfStream) by {
            assert(rest[i] == fs[i + 1]);
        }
        lemma_stream_round_trip(rest);
        assert(items(fs) =~= seq![StreamStep::Item(f0)] + items(rest));
    }
}

/// Truncation tolerance: a recording cut off after any number of bytes
/// still reads back as every frame that was completely written before the
/// cut, in order, and then the end of the stream; the cut-off frame is
/// dropped, never an error.
pub proof fn lemma_truncated_stream(fs: Seq<FrameModel>, cut: int)
    requires
        all_fit(fs),
        end_only_last(fs),
        0 <= cut <= frames_bytes(fs).len(),
    ensures
        stream_steps(frames_bytes(fs).subrange(0, cut)) == items(
            fs.subrange(0, frames_within(fs, cut) as int),
        ),
    decreases fs.len(),
{
    reveal_with_fuel(stream_steps, 2);
    lemma_auto_spec_u32_to_from_le_bytes();
    let data = frames_bytes(fs).subrange(0, cut);
    if fs.len() == 0 {
        assert(data =~= Seq::<u8>::empty());
        assert(items(fs.subrange(0, 0)) =~= Seq::<StreamStep>::empty());
    } else {
        let f0 = fs[0];
        let rest = fs.drop_first();
        lemma_frame_bytes_len(f0);
        let n = frame_bytes(f0).len();
        if cut < n {
            assert(items(fs.subrange(0, 0)) =~= Seq::<StreamStep>::empty());
            if cut >= 5 {
                assert(data.subrange(1, 5) =~= spec_u32_to_le_bytes(
                    payload_bytes(f0).len() as u32,
                ));
            }
            assert(frame_step(data).0 is End);
        } else {
            let later = frames_bytes(rest).subrange(0, cut - n);
            assert(data =~= frame_bytes(f0) + later);
            assert(frame_fits(f0));
            lemma_frame_round_trip(f0, later);
            assert(data.subrange(n as int, data.len() as int) =~= later);
            if f0 is EndOfStream {
                assert(fs.len() == 1);
                assert(rest =~= Seq::<FrameModel>::empty());
                assert(frames_bytes(rest) =~= Seq::<u8>::empty());
                assert(later =~= Seq::<u8>::empty());
            }
            assert forall|i: int| 0 <= i < rest.len() implies frame_fits(#[trigger] rest[i]) by {
                assert(rest[i] == fs[i + 1]);
            }
            assert forall|i: int| 0 <= i < rest.len() - 1 implies !(#[trigger] rest[i] is EndOfStream) by {
                assert(rest[i] == fs[i + 1]);
            }
            assert(frames_bytes(fs) =~= frame_bytes(f0) + frames_bytes(rest));
            lemma_truncated_stream(rest, cut - n);
            lemma_frames_within_bound(rest, cut - n);
            let k = frames_within(rest, cut - n);
            assert(fs.subrange(0, k + 1 as int) =~= seq![f0] + rest.subrange(0, k as int));
            assert(items(fs.subrange(0, k + 1 as int)) =~= seq![StreamStep::Item(f0)] + items(
                rest.subrange(0, k as int),
            ));
        }
    }
}

/// Forward compatibility: a frame of a type this reader does not know is
/// skipped by its length; what follows reads exactly as if it were not
/// there.
pub proof fn lemma_unknown_frame_skipped(ty: u8, payload: Seq<u8>, rest: Seq<u8>)
    requires
        !is_known_type(ty),
        payload.len() <= u32::MAX,
    ensures
        stream_steps(seq![ty] + spec_u32_to_le_bytes(payload.len() as u32) + payload + rest)
            == stream_steps(rest),
{
    lemma_auto_spec_u32_to_from_le_bytes();
    let data = seq![ty] + spec_u32_to_le_bytes(payload.len() as u32) + payload + rest;
    let n = 5 + payload.len();
    assert(data.subrange(1, 5) =~= spec_u32_to_le_bytes(payload.len() as u32));
    assert(data.subrange(n as int, data.len() as int) =~= rest);
    lemma_frame_step_bounded(rest);
    let (s, m) = frame_step(rest);
    assert(frame_step(data) == (s, (n + m) as nat));
    if s is End {
        assert(stream_steps(data) =~= Seq::<StreamStep>::empty());
        assert(stream_steps(rest) =~= Seq::<StreamStep>::empty());
    } else if s matches StreamStep::Item(FrameModel::EndOfStream) {
        assert(reader_step(data) == (s, data.len()));
        assert(reader_step(rest) == (s, rest.len()));
        assert(data.subrange(data.len() as int, data.len() as int) =~= rest.subrange(
            rest.len() as int,
            rest.len() as int,
        ));
        assert(stream_steps(data) == seq![s] + stream_steps(
            data.subrange(data.len() as int, data.len() as int),
        ));
        assert(stream_steps(rest) == seq![s] + stream_steps(
            rest.subrange(rest.len() as int, rest.len() as int),
        ));
    } else {
        assert(reader_step(data) == (s, (n + m) as nat));
        assert(reader_step(rest) == (s, m));
        assert(data.subrange((n + m) as int, data.len() as int) =~= rest.subrange(
            m as int,
            rest.len() as int,
        ));
        assert(stream_steps(data) == seq![s] + stream_steps(
            data.subrange((n + m) as int, data.len() as int),
        ));
        assert(stream_steps(rest) == seq![s] + stream_steps(
            rest.subrange(m as int, rest.len() as int),
        ));
    }
}

proof fn lemma_frames_within_bound(fs: Seq<FrameModel>, cut: int)
    ensures
        frames_within(fs, cut) <= fs.len(),
    decreases fs.len(),
{
    if fs.len() > 0 && frame_bytes(fs[0]).len() <= cut {
        lemma_frames_within_bound(fs.drop_first(), cut - frame_bytes(fs[0]).len());
    }
}

} // verus!
