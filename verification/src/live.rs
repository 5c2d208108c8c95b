//! What live mode sends to a connected viewer: a hello message describing
//! the session, then each frame in exactly the byte layout of a `.foldback`
//! file, so one parser reads both live and recorded data. The socket and
//! the background thread live outside the library.
use vstd::prelude::*;

use crate::error::Error;
use crate::format::{Frame, FrameReader, StreamStep, frame_bytes, frame_fits, reader_step, FORMAT_VERSION};
use crate::hex_text::{hex_bytes_text, hex_of_bytes};

verus! {

/// The hello message a viewer receives first on connecting.
pub struct LiveHello {
    /// Always `hello`.
    pub kind: String,
    pub protocol_version: u16,
    pub tick_rate_hz: u32,
    pub peer_count: u32,
    /// The build id in lower-case hex.
    pub build_id: String,
}

/// The hello message for a session.
pub fn hello(tick_rate_hz: u32, peer_count: u32, build_id: [u8; 16]) -> (h: LiveHello)
    ensures
        h.kind@ == seq!['h', 'e', 'l', 'l', 'o'],
        h.protocol_version == FORMAT_VERSION,
        h.tick_rate_hz == tick_rate_hz,
        h.peer_count == peer_count,
        h.build_id@ == hex_of_bytes(build_id@),
{
    proof {
        reveal_strlit("hello");
    }
    LiveHello {
        kind: String::from_str("hello"),
        protocol_version: FORMAT_VERSION,
        tick_rate_hz,
        peer_count,
        build_id: hex_bytes_text(build_id.as_slice()),
    }
}

/// The binary message that carries one frame: its `.foldback` encoding.
pub fn frame_message(frame: &Frame) -> (m: Vec<u8>)
    requires
        frame_fits(frame@),
    ensures
        m@ == frame_bytes(frame@),
{
    let mut buf: Vec<u8> = Vec::new();
    frame.write_to(&mut buf);
    assert(buf@ =~= frame_bytes(frame@));
    buf
}

/// What a viewer does with one message from a live connection.
pub enum LiveStep {
    /// Nothing to show: a control message, or a binary one without a whole
    /// frame in it.
    Ignore,
    /// Show the frame the message carried.
    Show(Frame),
    /// The message held a malformed frame: the connection is given up.
    Stop(Error),
}

/// Reads one live message: a binary message carries exactly one frame in
/// the `.foldback` layout, read as a recording's frames are read.
pub fn live_message_step(is_binary: bool, data: Vec<u8>) -> (r: LiveStep)
    ensures
        !is_binary ==> r is Ignore,
        is_binary ==> match reader_step(data@).0 {
            StreamStep::End => r is Ignore,
            StreamStep::Bad => r matches LiveStep::Stop(Error::MalformedFrame),
            StreamStep::Item(m) => r matches LiveStep::Show(f) && f@ == m,
        },
{
    if !is_binary {
        return LiveStep::Ignore;
    }
    let mut reader = FrameReader::new(data);
    match reader.next_frame() {
        Ok(Some(frame)) => LiveStep::Show(frame),
        Ok(None) => LiveStep::Ignore,
        Err(e) => LiveStep::Stop(e),
    }
}

} // verus!
