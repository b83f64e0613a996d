//! Messages exchanged with peers and with the frontend, and the binary
//! layouts of the audio datagram and the media frame header.

use vstd::prelude::*;

use crate::bytes::{
    be16, be32, be64, copy_range, from_be16, from_be32, from_be64, push_be32, read_be32, lemma_be16_bytes_roundtrip, lemma_be16_roundtrip,
    lemma_be64_bytes_roundtrip, lemma_be64_roundtrip, push_all, push_be16, push_be64, read_be16,
    read_be64,
};

verus! {

#[derive(Debug, Clone, PartialEq, Eq)]
pub struct Contact {
    pub node_id: String,
    pub display_name: String,
    pub added_at: u64,
    pub last_seen: u64,
    pub source: ContactSource,
}

#[derive(Debug, Clone, Copy, PartialEq, Eq)]
pub enum ContactSource {
    Call,
    Manual,
}

/// A direct message between two peers.
#[derive(Debug, Clone, PartialEq, Eq)]
pub enum DmMessage {
    /// A chat text; `id` is a client-generated message id used for delivery
    /// acknowledgements and deduplication (absent from older peers).
    Text { content: String, timestamp: u64, id: Option<String> },
    FileStart { name: String, size: u64, id: String },
    FileChunk { id: String, offset: u64, data: Vec<u8> },
    FileEnd { id: String },
    CallInvite { ticket: String },
    CallDecline,
    /// The caller gives up on a pending invite before the callee answered.
    CallCancel,
    /// Delivery acknowledgement for a `Text` message carrying an `id`.
    Ack { id: String },
    Heartbeat,
}

/// Stream type identifiers of the binary frame protocol. 0x01 was a legacy
/// uni-stream audio channel and is not reused.
pub const STREAM_VIDEO: u8 = 0x02;

pub const STREAM_CHAT: u8 = 0x03;

pub const STREAM_CONTROL: u8 = 0x04;

pub const STREAM_DM: u8 = 0x05;

#[derive(Debug, Clone, PartialEq, Eq)]
pub struct AudioPacket {
    pub peer_id: String,
    /// Stable id of the QUIC connection the packet arrived on.
    pub connection_id: usize,
    pub timestamp_ms: u64,
    pub sequence: u16,
    pub payload: Vec<u8>,
}

#[derive(Debug, Clone, PartialEq, Eq)]
pub struct VideoPacket {
    pub peer_id: String,
    pub timestamp_ms: u64,
    pub payload: Vec<u8>,
}

#[derive(Debug, Clone, Copy, PartialEq, Eq)]
pub enum MediaBridgeMode {
    ChannelBinary,
    EventBase64,
}

#[derive(Debug, Clone, Copy, PartialEq, Eq)]
pub enum MediaReceiveVideoMode {
    DecodedJpeg,
    RawH264Nalu,
}

#[derive(Debug, Clone, PartialEq, Eq)]
pub struct MediaBridgeRegistration {
    pub session_id: String,
    pub preferred_bridge_modes: Vec<MediaBridgeMode>,
    pub webcodecs_active: bool,
}

#[derive(Debug, Clone, PartialEq, Eq)]
pub struct MediaSessionProfile {
    pub session_id: String,
    pub receive_bridge_mode: MediaBridgeMode,
    pub receive_video_mode: MediaReceiveVideoMode,
}

/// Control actions sent between peers.
#[derive(Debug, Clone, PartialEq, Eq)]
pub enum ControlAction {
    Heartbeat,
    Mute { muted: bool },
    VideoOff { off: bool },
    PeerAnnounce { peer_id: String, ticket: String },
    VideoQualityRequest { layer: VideoLayerRequest },
    KeyframeRequest { layer: VideoLayerRequest },
    SetDisplayName { name: String },
    PerPeerQualityBps { bitrate_bps: u32 },
}

#[derive(Debug, Clone, Copy, PartialEq, Eq)]
pub enum VideoLayerRequest {
    High,
    Low,
    /// The peer wants no video at all.
    NoLayer,
}

/// The number a video layer request is stored as.
pub open spec fn layer_code(layer: VideoLayerRequest) -> u8 {
    match layer {
        VideoLayerRequest::High => 0,
        VideoLayerRequest::Low => 1,
        VideoLayerRequest::NoLayer => 2,
    }
}

impl VideoLayerRequest {
    pub fn to_u8(self) -> (code: u8)
        ensures
            code == layer_code(self),
    {
        match self {
            VideoLayerRequest::High => 0,
            VideoLayerRequest::Low => 1,
            VideoLayerRequest::NoLayer => 2,
        }
    }
}

#[derive(Debug, Clone, Copy, PartialEq, Eq)]
pub enum RelayStatusKind {
    Starting,
    Connecting,
    Online,
    Degraded,
    Offline,
}

#[derive(Debug, Clone, Copy, PartialEq, Eq)]
pub enum PeerConnectionKind {
    Idle,
    Connecting,
    Connected,
    Suspect,
    Reconnecting,
    Disconnected,
    Failed,
}

/// Events from the backend to the frontend.
#[derive(Debug, Clone, PartialEq, Eq)]
pub enum Event {
    PeerConnected { peer_id: String },
    PeerDisconnected { peer_id: String },
    ChatReceived { peer_id: String, message: String },
    ControlReceived { peer_id: String, action: ControlAction },
    PeerConnectionStatusChanged {
        peer_id: String,
        status: PeerConnectionKind,
        reason: Option<String>,
    },
    QualityProfileChanged {
        peer_count: usize,
        bitrate_bps: u32,
        fps: u32,
        max_width: u32,
        max_height: u32,
    },
    RelayStatusChanged {
        status: RelayStatusKind,
        relay_url: String,
        node_id: String,
        ticket_available: bool,
        message: Option<String>,
    },
    TicketRefreshed { ticket: String },
    DmReceived { peer_id: String, message: DmMessage },
    DmConnected { peer_id: String },
    DmDisconnected { peer_id: String },
    CallInviteReceived { peer_id: String, ticket: String },
    CallDeclineReceived { peer_id: String },
    CallCancelReceived { peer_id: String },
    DmAckReceived { peer_id: String, id: String },
    DmFileSaved { peer_id: String, file_id: String, local_path: String },
    DmFileTransferFailed {
        peer_id: String,
        file_id: String,
        /// Human-readable cause, for logs and the frontend.
        reason: Option<String>,
    },
    DmFileProgress { peer_id: String, file_id: String, received: u64 },
    PresenceChanged { peer_id: String, online: bool },
}

/// The name the frontend knows an event by.
pub fn event_name(event: &Event) -> (name: &'static str)
    ensures
        name@ == (match *event {
            Event::PeerConnected { .. } => "peer-connected"@,
            Event::PeerDisconnected { .. } => "peer-disconnected"@,
            Event::ChatReceived { .. } => "chat-received"@,
            Event::ControlReceived { .. } => "control-received"@,
            Event::PeerConnectionStatusChanged { .. } => "peer-connection-status-changed"@,
            Event::QualityProfileChanged { .. } => "quality-profile-changed"@,
            Event::RelayStatusChanged { .. } => "relay-status-changed"@,
            Event::TicketRefreshed { .. } => "ticket-refreshed"@,
            Event::DmReceived { .. } => "dm-received"@,
            Event::DmConnected { .. } => "dm-connected"@,
            Event::DmDisconnected { .. } => "dm-disconnected"@,
            Event::CallInviteReceived { .. } => "call-invite-received"@,
            Event::CallDeclineReceived { .. } => "call-decline-received"@,
            Event::CallCancelReceived { .. } => "call-cancel-received"@,
            Event::DmAckReceived { .. } => "dm-ack-received"@,
            Event::DmFileSaved { .. } => "dm-file-saved"@,
            Event::DmFileTransferFailed { .. } => "dm-file-transfer-failed"@,
            Event::DmFileProgress { .. } => "dm-file-progress"@,
            Event::PresenceChanged { .. } => "presence-changed"@,
        }),
{
    match event {
        Event::PeerConnected { .. } => "peer-connected",
        Event::PeerDisconnected { .. } => "peer-disconnected",
        Event::ChatReceived { .. } => "chat-received",
        Event::ControlReceived { .. } => "control-received",
        Event::PeerConnectionStatusChanged { .. } => "peer-connection-status-changed",
        Event::QualityProfileChanged { .. } => "quality-profile-changed",
        Event::RelayStatusChanged { .. } => "relay-status-changed",
        Event::TicketRefreshed { .. } => "ticket-refreshed",
        Event::DmReceived { .. } => "dm-received",
        Event::DmConnected { .. } => "dm-connected",
        Event::DmDisconnected { .. } => "dm-disconnected",
        Event::CallInviteReceived { .. } => "call-invite-received",
        Event::CallDeclineReceived { .. } => "call-decline-received",
        Event::CallCancelReceived { .. } => "call-cancel-received",
        Event::DmAckReceived { .. } => "dm-ack-received",
        Event::DmFileSaved { .. } => "dm-file-saved",
        Event::DmFileTransferFailed { .. } => "dm-file-transfer-failed",
        Event::DmFileProgress { .. } => "dm-file-progress",
        Event::PresenceChanged { .. } => "presence-changed",
    }
}

/// Frame size cap for chat streams: chat messages are raw UTF-8 and the
/// sender rejects anything over 64 KiB.
pub const MAX_CHAT_FRAME_BYTES: usize = 65536;

/// Frame size cap for control streams (small control actions).
pub const MAX_CONTROL_FRAME_BYTES: usize = 65536;

/// Frame size cap for DM streams: a 64 KiB text whose escaping expands six
/// times, or a 64 KiB file chunk as base64, fits with headroom.
pub const MAX_DM_FRAME_BYTES: usize = 524288;

/// The bytes of an audio datagram: the big-endian sequence number, the
/// big-endian timestamp, then the payload.
pub open spec fn audio_datagram_bytes(sequence: u16, timestamp_ms: u64, payload: Seq<u8>) -> Seq<
    u8,
> {
    be16(sequence) + be64(timestamp_ms) + payload
}

/// What an audio datagram decodes to: nothing when it is shorter than the
/// header, otherwise the sequence number, the timestamp and the payload.
pub open spec fn audio_datagram_parse(data: Seq<u8>) -> Option<(u16, u64, Seq<u8>)> {
    if data.len() < 10 {
        None
    } else {
        Some(
            (
                from_be16(data.subrange(0, 2)),
                from_be64(data.subrange(2, 10)),
                data.subrange(10, data.len() as int),
            ),
        )
    }
}

#[derive(Debug, Clone, PartialEq, Eq)]
pub struct AudioDatagram {
    pub sequence: u16,
    pub timestamp_ms: u64,
    pub payload: Vec<u8>,
}

impl AudioDatagram {
    pub const HEADER_SIZE: usize = 10;

    pub fn encode(sequence: u16, timestamp_ms: u64, payload: &[u8]) -> (out: Vec<u8>)
        ensures
            out@ == audio_datagram_bytes(sequence, timestamp_ms, payload@),
    {
        let mut buf: Vec<u8> = Vec::new();
        push_be16(&mut buf, sequence);
        push_be64(&mut buf, timestamp_ms);
        push_all(&mut buf, payload);
        buf
    }

    pub fn decode(data: &[u8]) -> (out: Option<Self>)
        ensures
            match audio_datagram_parse(data@) {
                None => out is None,
                Some((s, t, p)) => out matches Some(d) && d.sequence == s && d.timestamp_ms == t
                    && d.payload@ == p,
            },
    {
        if data.len() < 10 {
            return None;
        }
        let sequence = read_be16(data, 0);
        let timestamp_ms = read_be64(data, 2);
        let payload = copy_range(data, 10, data.len() - 10);
        Some(AudioDatagram { sequence, timestamp_ms, payload })
    }
}

/// Decoding an encoded audio datagram gives back what was encoded.
pub proof fn lemma_audio_datagram_roundtrip(sequence: u16, timestamp_ms: u64, payload: Seq<u8>)
    ensures
        audio_datagram_parse(audio_datagram_bytes(sequence, timestamp_ms, payload)) == Some(
            (sequence, timestamp_ms, payload),
        ),
{
    let d = audio_datagram_bytes(sequence, timestamp_ms, payload);
    assert(d.subrange(0, 2) =~= be16(sequence));
    assert(d.subrange(2, 10) =~= be64(timestamp_ms));
    assert(d.subrange(10, d.len() as int) =~= payload);
    lemma_be16_roundtrip(sequence);
    lemma_be64_roundtrip(timestamp_ms);
}

/// Every datagram that decodes is exactly the encoding of what it decodes
/// to: no two byte strings decode to the same datagram.
pub proof fn lemma_audio_datagram_canonical(data: Seq<u8>)
    ensures
        audio_datagram_parse(data) matches Some((s, t, p)) ==> audio_datagram_bytes(s, t, p)
            == data,
{
    if data.len() >= 10 {
        lemma_be16_bytes_roundtrip(data.subrange(0, 2));
        lemma_be64_bytes_roundtrip(data.subrange(2, 10));
        assert(data =~= data.subrange(0, 2) + data.subrange(2, 10) + data.subrange(
            10,
            data.len() as int,
        ));
    }
}

/// The bytes of a media frame: the stream type, the 32-byte peer key, the
/// big-endian timestamp, then the payload.
pub open spec fn media_frame_bytes(
    stream_type: u8,
    peer_id: Seq<u8>,
    timestamp_ms: u64,
    payload: Seq<u8>,
) -> Seq<u8> {
    seq![stream_type] + peer_id + be64(timestamp_ms) + payload
}

/// Binary media frame header (for WebSocket binary messages):
/// `[stream_type: u8][peer_id: 32 bytes][timestamp_ms: u64][payload]`, where
/// the peer id is the raw 32-byte public key.
#[derive(Debug, Clone, PartialEq, Eq)]
pub struct MediaFrame {
    pub stream_type: u8,
    pub peer_id: [u8; 32],
    pub timestamp_ms: u64,
    pub payload: Vec<u8>,
}

impl MediaFrame {
    pub const HEADER_SIZE: usize = 41;

    pub fn encode(&self) -> (out: Vec<u8>)
        ensures
            out@ == media_frame_bytes(
                self.stream_type,
                self.peer_id@,
                self.timestamp_ms,
                self.payload@,
            ),
    {
        let mut buf: Vec<u8> = Vec::new();
        buf.push(self.stream_type);
        push_all(&mut buf, self.peer_id.as_slice());
        push_be64(&mut buf, self.timestamp_ms);
        push_all(&mut buf, self.payload.as_slice());
        buf
    }

    /// `None` when `data` is shorter than the header; otherwise the frame
    /// whose encoding `data` is.
    pub fn decode(data: &[u8]) -> (out: Option<Self>)
        ensures
            data@.len() < 41 ==> out is None,
            data@.len() >= 41 ==> (out matches Some(f) && media_frame_bytes(
                f.stream_type,
                f.peer_id@,
                f.timestamp_ms,
                f.payload@,
            ) == data@),
    {
        if data.len() < 41 {
            return None;
        }
        let stream_type = data[0];
        let mut peer_id = [0u8; 32];
        let mut i: usize = 0;
        while i < 32
            invariant
                i <= 32,
                data@.len() >= 41,
                forall|j: int| 0 <= j < i ==> peer_id@[j] == data@[1 + j],
            decreases 32 - i,
        {
            peer_id[i] = data[1 + i];
            i = i + 1;
        }
        let timestamp_ms = read_be64(data, 33);
        let payload = copy_range(data, 41, data.len() - 41);
        proof {
            assert(peer_id@ =~= data@.subrange(1, 33));
            lemma_be64_bytes_roundtrip(data@.subrange(33, 41));
            assert(data@ =~= seq![stream_type] + data@.subrange(1, 33) + data@.subrange(33, 41)
                + data@.subrange(41, data@.len() as int));
        }
        Some(MediaFrame { stream_type, peer_id, timestamp_ms, payload })
    }
}

/// Decoding an encoded media frame gives back the frame.
pub proof fn lemma_media_frame_roundtrip(
    stream_type: u8,
    peer_id: Seq<u8>,
    timestamp_ms: u64,
    payload: Seq<u8>,
)
    requires
        peer_id.len() == 32,
    ensures
        ({
            let d = media_frame_bytes(stream_type, peer_id, timestamp_ms, payload);
            &&& d.len() >= 41
            &&& d[0] == stream_type
            &&& d.subrange(1, 33) == peer_id
            &&& from_be64(d.subrange(33, 41)) == timestamp_ms
            &&& d.subrange(41, d.len() as int) == payload
        }),
{
    let d = media_frame_bytes(stream_type, peer_id, timestamp_ms, payload);
    assert(d.subrange(1, 33) =~= peer_id);
    assert(d.subrange(33, 41) =~= be64(timestamp_ms));
    assert(d.subrange(41, d.len() as int) =~= payload);
    lemma_be64_roundtrip(timestamp_ms);
}

/// Frames on chat, control and DM streams are `[len: u32 BE][payload]`.
/// The bytes of one frame (a length beyond `u32` wraps, as the writer
/// casts it).
pub open spec fn framed_bytes(data: Seq<u8>) -> Seq<u8> {
    be32(data.len() as u32) + data
}

/// The bytes written for one frame.
pub fn frame(data: &[u8]) -> (out: Vec<u8>)
    ensures
        out@ == framed_bytes(data@),
{
    let mut out: Vec<u8> = Vec::new();
    push_be32(&mut out, data.len() as u32);
    push_all(&mut out, data);
    out
}

/// The payload length a frame header announces, when it is within
/// `max_len`; a larger one ends the stream.
pub fn frame_len(header: &[u8; 4], max_len: usize) -> (r: Option<usize>)
    ensures
        r == (if from_be32(header@) <= max_len {
            Some(from_be32(header@) as usize)
        } else {
            None::<usize>
        }),
{
    let len = read_be32(header.as_slice(), 0);
    assert(header@.subrange(0, 4) =~= header@);
    if len as u64 <= max_len as u64 {
        Some(len as usize)
    } else {
        None
    }
}

/// Payloads are read in slices of at most this many bytes, so a large
/// announced length doesn't allocate up front.
pub const FRAME_READ_SLICE: usize = 16384;

/// How much to read next for a frame of `len` bytes of which `have` are in.
pub fn next_read_slice(len: usize, have: usize) -> (n: usize)
    requires
        have < len,
    ensures
        n == (if len - have < FRAME_READ_SLICE {
            (len - have) as usize
        } else {
            FRAME_READ_SLICE
        }),
        0 < n,
{
    if len - have < FRAME_READ_SLICE {
        len - have
    } else {
        FRAME_READ_SLICE
    }
}

/// A frame's header gives back its payload length.
pub proof fn lemma_frame_header_roundtrip(data: Seq<u8>)
    requires
        data.len() <= u32::MAX,
    ensures
        from_be32(framed_bytes(data).subrange(0, 4)) == data.len(),
        framed_bytes(data).subrange(4, framed_bytes(data).len() as int) == data,
{
    let f = framed_bytes(data);
    assert(f.subrange(0, 4) =~= be32(data.len() as u32));
    assert(f.subrange(4, f.len() as int) =~= data);
    crate::bytes::lemma_be32_roundtrip(data.len() as u32);
}

} // verus!
