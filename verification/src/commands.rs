//! Checks and choices behind the frontend's commands: argument validation,
//! the media bridge a session gets, which control actions the frontend may
//! send, the binary request bodies it posts, and the saved contact list.

use vstd::prelude::*;
use vstd::string::StringSliceAdditionalSpecFns;

use crate::bytes::{
    copy_range, from_le32, from_le64, push_all, push_le16, push_le32, push_le64, read_le32,
    read_le64,
};
use crate::connection::{quality_profile_for_peers, quality_profile_spec};
use crate::messages::{
    Contact, ControlAction, DmMessage, MediaBridgeMode, MediaBridgeRegistration,
    MediaReceiveVideoMode, MediaSessionProfile, RelayStatusKind,
};
use crate::media::audio_channel_bytes;
use crate::text::{decimal, push_decimal, push_str, string_of};
use crate::video_transport::MAX_VIDEO_FRAME_BYTES;

verus! {

broadcast use vstd::string::group_string_axioms;

pub const MAX_PEER_ID_LEN: usize = 256;

pub const MAX_TICKET_LEN: usize = 4096;

pub const MAX_CHAT_LEN: usize = 65536;

pub const MAX_RESOLUTION: u32 = 4096;

pub const MAX_DISPLAY_NAME_LEN: usize = 64;

/// Largest file that may be sent.
pub const MAX_FILE_SIZE: u64 = 104857600;

/// Largest string value a frontend setting may hold.
pub const MAX_SETTINGS_VALUE_LEN: usize = 1024;

/// The peer id a media bridge probe packet carries.
pub const PROBE_PEER_ID: &'static str = "__bridge_probe__";

/// The probe packet sent down a binary audio channel: an audio packet of
/// the probe peer with timestamp 0 and no samples.
pub fn pack_audio_probe_packet() -> (p: Vec<u8>)
    ensures
        p@ == audio_channel_bytes(PROBE_PEER_ID.spec_bytes(), 0, Seq::empty()),
{
    let peer = PROBE_PEER_ID.as_bytes();
    proof {
        reveal_strlit("__bridge_probe__");
        assert(vstd::string::is_ascii(PROBE_PEER_ID));
        assert(PROBE_PEER_ID.spec_bytes().len() == 16);
    }
    let mut packet: Vec<u8> = Vec::new();
    push_le16(&mut packet, peer.len() as u16);
    push_all(&mut packet, peer);
    push_le64(&mut packet, 0);
    push_le32(&mut packet, 0);
    assert(packet@ =~= audio_channel_bytes(PROBE_PEER_ID.spec_bytes(), 0, Seq::empty()));
    packet
}

/// The number of bytes of the UTF-8 encoding of `s`.
pub open spec fn utf8_len(s: Seq<char>) -> nat {
    vstd::utf8::encode_utf8(s).len()
}

/// A failure carrying a fixed message.
fn fail<T>(message: &str) -> (r: Result<T, String>)
    ensures
        r matches Err(e) && e@ == message@,
{
    Err(message.to_owned())
}

/// A peer id must be 1 to [`MAX_PEER_ID_LEN`] bytes long.
pub fn validate_peer_id(peer_id: &str) -> (r: Result<(), String>)
    ensures
        r is Err <==> peer_id.spec_bytes().len() == 0 || peer_id.spec_bytes().len() > MAX_PEER_ID_LEN,
        r matches Err(e) ==> e@ == "Invalid peer_id"@,
{
    if peer_id.as_bytes().len() == 0 || peer_id.as_bytes().len() > MAX_PEER_ID_LEN {
        return fail("Invalid peer_id");
    }
    Ok(())
}

/// Both sides of a video frame must be 1 to [`MAX_RESOLUTION`] pixels.
pub fn validate_resolution(width: u32, height: u32) -> (r: Result<(), String>)
    ensures
        r is Err <==> width == 0 || width > MAX_RESOLUTION || height == 0 || height
            > MAX_RESOLUTION,
        r matches Err(e) ==> e@ == "Invalid resolution"@,
{
    if width == 0 || width > MAX_RESOLUTION || height == 0 || height > MAX_RESOLUTION {
        return fail("Invalid resolution");
    }
    Ok(())
}

/// An encoder bitrate must lie within 50 kbps..4 Mbps. (The frame rate,
/// a float, is checked by the caller.)
pub fn validate_bitrate(bitrate_bps: u32) -> (r: Result<u32, String>)
    ensures
        r is Ok <==> 50000 <= bitrate_bps <= 4000000,
        r matches Ok(b) ==> b == bitrate_bps,
        r matches Err(e) ==> e@ == "Invalid bitrate "@ + decimal(bitrate_bps as nat),
{
    if bitrate_bps < 50000 || bitrate_bps > 4000000 {
        let mut msg: Vec<char> = Vec::new();
        push_str(&mut msg, "Invalid bitrate ");
        push_decimal(&mut msg, bitrate_bps as u64);
        return Err(string_of(&msg));
    }
    Ok(bitrate_bps)
}

/// A chat message may be at most [`MAX_CHAT_LEN`] bytes.
pub fn check_chat_message(message: &str) -> (r: Result<(), String>)
    ensures
        r is Err <==> message.spec_bytes().len() > MAX_CHAT_LEN,
        r matches Err(e) ==> e@ == "Message too long"@,
{
    if message.as_bytes().len() > MAX_CHAT_LEN {
        return fail("Message too long");
    }
    Ok(())
}

/// A ticket may be at most [`MAX_TICKET_LEN`] bytes.
pub fn check_ticket(ticket: &str) -> (r: Result<(), String>)
    ensures
        r is Err <==> ticket.spec_bytes().len() > MAX_TICKET_LEN,
        r matches Err(e) ==> e@ == "Ticket too large"@,
{
    if ticket.as_bytes().len() > MAX_TICKET_LEN {
        return fail("Ticket too large");
    }
    Ok(())
}

/// A display name may be at most [`MAX_DISPLAY_NAME_LEN`] bytes.
pub fn check_display_name(name: &str) -> (r: Result<(), String>)
    ensures
        r is Err <==> name.spec_bytes().len() > MAX_DISPLAY_NAME_LEN,
        r matches Err(e) ==> e@ == "Display name too long"@,
{
    if name.as_bytes().len() > MAX_DISPLAY_NAME_LEN {
        return fail("Display name too long");
    }
    Ok(())
}

/// A DM text may be at most [`MAX_CHAT_LEN`] bytes; other messages pass.
pub fn check_dm_message(msg: &DmMessage) -> (r: Result<(), String>)
    ensures
        r is Err <==> (match *msg {
            DmMessage::Text { content, .. } => utf8_len(content@) > MAX_CHAT_LEN,
            _ => false,
        }),
        r matches Err(e) ==> e@ == "DM text too long"@,
{
    match msg {
        DmMessage::Text { content, .. } => {
            if content.as_str().as_bytes().len() > MAX_CHAT_LEN {
                return fail("DM text too long");
            }
            Ok(())
        },
        _ => Ok(()),
    }
}

pub open spec fn frontend_control_ok(action: ControlAction) -> bool {
    match action {
        ControlAction::Mute { .. } => true,
        ControlAction::VideoOff { .. } => true,
        ControlAction::VideoQualityRequest { .. } => true,
        ControlAction::KeyframeRequest { .. } => true,
        ControlAction::SetDisplayName { name } => utf8_len(name@) <= MAX_DISPLAY_NAME_LEN,
        _ => false,
    }
}

/// The frontend may only send user-facing call controls. Peer announces,
/// per-peer bitrate caps and heartbeats are the backend's own signalling; a
/// compromised frontend sending them could spoof tickets into the mesh.
pub fn check_frontend_control(action: &ControlAction) -> (r: Result<(), String>)
    ensures
        r is Ok <==> frontend_control_ok(*action),
        r matches Err(e) ==> e@ == (match *action {
            ControlAction::SetDisplayName { .. } => "Display name too long"@,
            _ => "Control action not allowed from frontend"@,
        }),
{
    match action {
        ControlAction::Mute { .. } => Ok(()),
        ControlAction::VideoOff { .. } => Ok(()),
        ControlAction::VideoQualityRequest { .. } => Ok(()),
        ControlAction::KeyframeRequest { .. } => Ok(()),
        ControlAction::SetDisplayName { name } => check_display_name(name.as_str()),
        _ => fail("Control action not allowed from frontend"),
    }
}

/// Whether `modes` offers the binary channel.
fn offers_channel_binary(modes: &Vec<MediaBridgeMode>) -> (b: bool)
    ensures
        b == modes@.contains(MediaBridgeMode::ChannelBinary),
{
    let mut i: usize = 0;
    while i < modes.len()
        invariant
            i <= modes@.len(),
            forall|j: int| 0 <= j < i ==> modes@[j] != MediaBridgeMode::ChannelBinary,
        decreases modes@.len() - i,
    {
        if let MediaBridgeMode::ChannelBinary = modes[i] {
            assert(modes@[i as int] == MediaBridgeMode::ChannelBinary);
            return true;
        }
        i = i + 1;
    }
    false
}

/// The media session a frontend registration gets: the binary channel if it
/// offers one (else base64 events), and raw H.264 when it decodes video
/// itself (else JPEG frames). A registration without a session id is
/// refused. The binary channels are kept only in binary channel mode.
pub fn select_media_profile(registration: &MediaBridgeRegistration) -> (r: Result<
    MediaSessionProfile,
    String,
>)
    ensures
        r is Err <==> utf8_len(registration.session_id@) == 0,
        r matches Err(e) ==> e@ == "Missing session_id"@,
        r matches Ok(p) ==> {
            &&& p.session_id@ == registration.session_id@
            &&& p.receive_bridge_mode == (if registration.preferred_bridge_modes@.contains(
                MediaBridgeMode::ChannelBinary,
            ) {
                MediaBridgeMode::ChannelBinary
            } else {
                MediaBridgeMode::EventBase64
            })
            &&& p.receive_video_mode == (if registration.webcodecs_active {
                MediaReceiveVideoMode::RawH264Nalu
            } else {
                MediaReceiveVideoMode::DecodedJpeg
            })
        },
{
    if registration.session_id.as_str().as_bytes().len() == 0 {
        return fail("Missing session_id");
    }
    let mode = if offers_channel_binary(&registration.preferred_bridge_modes) {
        MediaBridgeMode::ChannelBinary
    } else {
        MediaBridgeMode::EventBase64
    };
    let video = if registration.webcodecs_active {
        MediaReceiveVideoMode::RawH264Nalu
    } else {
        MediaReceiveVideoMode::DecodedJpeg
    };
    Ok(MediaSessionProfile {
        session_id: registration.session_id.clone(),
        receive_bridge_mode: mode,
        receive_video_mode: video,
    })
}

/// Whether a bridge registration for `current_session` is the one a
/// clear request for `session_id` refers to.
pub fn clear_applies(current_session: Option<&str>, session_id: &str) -> (b: bool)
    ensures
        b == match current_session {
            Some(c) => c@ == session_id@,
            None => false,
        },
{
    match current_session {
        Some(c) => {
            let a = c.to_owned();
            let b = session_id.to_owned();
            a == b
        },
        None => false,
    }
}

/// How a bridge probe for `session_id` is answered, given the registered
/// profile (if any) and whether its binary audio channel is there: the mode
/// to probe with, or why it can't be probed.
pub fn probe_plan(current: Option<&MediaSessionProfile>, has_audio_channel: bool, session_id: &str) -> (r:
    Result<MediaBridgeMode, String>)
    ensures
        match current {
            None => (r matches Err(e) && e@ == "No registered media bridge"@),
            Some(p) => if p.session_id@ != session_id@ {
                (r matches Err(e) && e@ == "Media bridge session mismatch"@)
            } else if p.receive_bridge_mode == MediaBridgeMode::ChannelBinary && !has_audio_channel {
                (r matches Err(e) && e@ == "Missing audio probe channel"@)
            } else {
                r == Ok::<MediaBridgeMode, String>(p.receive_bridge_mode)
            },
        },
{
    match current {
        None => fail("No registered media bridge"),
        Some(p) => {
            let wanted = session_id.to_owned();
            if !(p.session_id == wanted) {
                return fail("Media bridge session mismatch");
            }
            match p.receive_bridge_mode {
                MediaBridgeMode::ChannelBinary => {
                    if !has_audio_channel {
                        return fail("Missing audio probe channel");
                    }
                    Ok(MediaBridgeMode::ChannelBinary)
                },
                MediaBridgeMode::EventBase64 => Ok(MediaBridgeMode::EventBase64),
            }
        },
    }
}

/// Parses a raw audio request body `[timestamp: u64 LE][pcm...]`.
pub fn parse_audio_body(data: &[u8]) -> (r: Result<(u64, Vec<u8>), String>)
    ensures
        r is Err <==> data@.len() < 8,
        r matches Err(e) ==> e@ == "Payload too short"@,
        r matches Ok((t, pcm)) ==> t == from_le64(data@.subrange(0, 8)) && pcm@ == data@.subrange(
            8,
            data@.len() as int,
        ),
{
    if data.len() < 8 {
        return fail("Payload too short");
    }
    let timestamp = read_le64(data, 0);
    let pcm = copy_range(data, 8, data.len() - 8);
    Ok((timestamp, pcm))
}

/// A raw RGBA frame posted by the frontend.
#[derive(Debug, Clone, PartialEq, Eq)]
pub struct RawVideoFrame {
    pub width: u32,
    pub height: u32,
    pub keyframe: bool,
    pub timestamp_ms: u64,
    pub rgba: Vec<u8>,
}

/// Parses a raw video request body
/// `[width: u32 LE][height: u32 LE][keyframe: u8][timestamp: u64 LE][rgba...]`
/// and checks the resolution.
pub fn parse_video_body(data: &[u8]) -> (r: Result<RawVideoFrame, String>)
    ensures
        data@.len() < 17 ==> (r matches Err(e) && e@ == "Payload too short"@),
        data@.len() >= 17 ==> {
            let w = from_le32(data@.subrange(0, 4));
            let h = from_le32(data@.subrange(4, 8));
            if w == 0 || w > MAX_RESOLUTION || h == 0 || h > MAX_RESOLUTION {
                (r matches Err(e) && e@ == "Invalid resolution"@)
            } else {
                (r matches Ok(f) && f.width == w && f.height == h && f.keyframe == (data@[8] != 0)
                    && f.timestamp_ms == from_le64(data@.subrange(9, 17)) && f.rgba@
                    == data@.subrange(17, data@.len() as int))
            }
        },
{
    if data.len() < 17 {
        return fail("Payload too short");
    }
    let width = read_le32(data, 0);
    let height = read_le32(data, 4);
    let keyframe = data[8] != 0;
    let timestamp_ms = read_le64(data, 9);
    match validate_resolution(width, height) {
        Err(e) => Err(e),
        Ok(()) => {
            let rgba = copy_range(data, 17, data.len() - 17);
            Ok(RawVideoFrame { width, height, keyframe, timestamp_ms, rgba })
        },
    }
}

/// Parses a raw encoded-video request body `[timestamp: u64 LE][annex-b...]`;
/// the frame must not be empty.
pub fn parse_encoded_video_body(data: &[u8]) -> (r: Result<(u64, Vec<u8>), String>)
    ensures
        r is Err <==> data@.len() <= 8,
        r matches Err(e) ==> e@ == "Payload too short"@,
        r matches Ok((t, p)) ==> t == from_le64(data@.subrange(0, 8)) && p@ == data@.subrange(
            8,
            data@.len() as int,
        ),
{
    if data.len() <= 8 {
        return fail("Payload too short");
    }
    let timestamp = read_le64(data, 0);
    let payload = copy_range(data, 8, data.len() - 8);
    Ok((timestamp, payload))
}

/// An already encoded frame may be at most the transport's frame cap.
pub fn check_encoded_frame(len: usize) -> (r: Result<(), String>)
    ensures
        r is Err <==> len > MAX_VIDEO_FRAME_BYTES,
        r matches Err(e) ==> e@ == "Encoded frame too large"@,
{
    if len > MAX_VIDEO_FRAME_BYTES {
        return fail("Encoded frame too large");
    }
    Ok(())
}

/// A file to send may be at most [`MAX_FILE_SIZE`] bytes.
pub fn check_outgoing_file_size(size: u64) -> (r: Result<(), String>)
    ensures
        r is Err <==> size > MAX_FILE_SIZE,
        r matches Err(e) ==> e@ == "File too large ("@ + decimal(size as nat) + " bytes, max "@
            + decimal(MAX_FILE_SIZE as nat) + " bytes)"@,
{
    if size > MAX_FILE_SIZE {
        let mut msg: Vec<char> = Vec::new();
        push_str(&mut msg, "File too large (");
        push_decimal(&mut msg, size);
        push_str(&mut msg, " bytes, max ");
        push_decimal(&mut msg, MAX_FILE_SIZE);
        push_str(&mut msg, " bytes)");
        return Err(string_of(&msg));
    }
    Ok(())
}

/// The result of a file send.
#[derive(Debug, Clone, PartialEq, Eq)]
pub struct FileTransferResult {
    pub id: String,
    pub size: u64,
}

/// What the frontend learns about this node.
#[derive(Debug, Clone, PartialEq, Eq)]
pub struct NodeInfo {
    pub id: String,
    pub ticket: Option<String>,
    pub relay_status: RelayStatusKind,
}

/// The current call-size profile, same shape as the profile change event.
#[derive(Debug, Clone, Copy, PartialEq, Eq)]
pub struct QualityProfile {
    pub peer_count: usize,
    pub bitrate_bps: u32,
    pub fps: u32,
    pub max_width: u32,
    pub max_height: u32,
}

pub fn quality_profile(peer_count: usize) -> (q: QualityProfile)
    ensures
        q.peer_count == peer_count,
        (q.bitrate_bps, q.fps, q.max_width, q.max_height) == quality_profile_spec(peer_count as int),
{
    let (bitrate_bps, fps, max_width, max_height) = quality_profile_for_peers(peer_count);
    QualityProfile { peer_count, bitrate_bps, fps, max_width, max_height }
}

/// The kind of a JSON value a frontend setting holds.
#[derive(Debug, Clone, Copy, PartialEq, Eq)]
pub enum SettingValueKind {
    Null,
    Bool,
    Number,
    Text,
    Array,
    Object,
}

/// What happens to one key of a frontend settings update.
#[derive(Debug, Clone, PartialEq, Eq)]
pub enum SettingVerdict {
    /// Not a key the frontend may write: skipped.
    Ignore,
    /// Stored.
    Accept,
    /// The whole update is refused with this message.
    Reject(String),
}

/// The keys the frontend may persist; everything else is backend-owned or
/// unknown.
pub open spec fn allowed_settings_key(key: Seq<char>) -> bool {
    key == "preferredMic"@ || key == "preferredCamera"@ || key == "preferredSpeaker"@ || key
        == "videoQuality"@ || key == "dataSaver"@
}

fn same_text(a: &str, b: &str) -> (r: bool)
    ensures
        r == (a@ == b@),
{
    let x = a.to_owned();
    let y = b.to_owned();
    x == y
}

pub fn is_allowed_settings_key(key: &str) -> (b: bool)
    ensures
        b == allowed_settings_key(key@),
{
    same_text(key, "preferredMic") || same_text(key, "preferredCamera") || same_text(
        key,
        "preferredSpeaker",
    ) || same_text(key, "videoQuality") || same_text(key, "dataSaver")
}

/// Judges one key of a settings update: unknown keys are skipped; a known
/// key must hold a scalar (null, bool, number or a string of at most
/// [`MAX_SETTINGS_VALUE_LEN`] bytes), else the update is refused.
pub fn check_setting(key: &str, kind: SettingValueKind, text_len: usize) -> (v: SettingVerdict)
    ensures
        !allowed_settings_key(key@) ==> v == SettingVerdict::Ignore,
        allowed_settings_key(key@) ==> if kind == SettingValueKind::Array || kind
            == SettingValueKind::Object || (kind == SettingValueKind::Text && text_len
            > MAX_SETTINGS_VALUE_LEN) {
            (v matches SettingVerdict::Reject(e) && e@ == "Invalid value for settings key "@ + key@)
        } else {
            v == SettingVerdict::Accept
        },
{
    if !is_allowed_settings_key(key) {
        return SettingVerdict::Ignore;
    }
    let scalar = match kind {
        SettingValueKind::Array => false,
        SettingValueKind::Object => false,
        _ => true,
    };
    let too_long = match kind {
        SettingValueKind::Text => text_len > MAX_SETTINGS_VALUE_LEN,
        _ => false,
    };
    if !scalar || too_long {
        let mut msg: Vec<char> = Vec::new();
        push_str(&mut msg, "Invalid value for settings key ");
        push_str(&mut msg, key);
        return SettingVerdict::Reject(string_of(&msg));
    }
    SettingVerdict::Accept
}

/// The pinned display name to show: the stored name only while pinning is
/// on (absent means off).
pub fn pinned_name(name_pinned: Option<bool>, display_name: Option<String>) -> (r: Option<String>)
    ensures
        r == (if name_pinned == Some(true) {
            display_name
        } else {
            None
        }),
{
    match name_pinned {
        Some(true) => display_name,
        _ => None,
    }
}

fn copy_contact(c: &Contact) -> (r: Contact)
    ensures
        r == *c,
{
    Contact {
        node_id: c.node_id.clone(),
        display_name: c.display_name.clone(),
        added_at: c.added_at,
        last_seen: c.last_seen,
        source: c.source,
    }
}

/// Whether a contact list holds `node_id`.
pub open spec fn has_contact(s: Seq<Contact>, node_id: Seq<char>) -> bool {
    exists|i: int| 0 <= i < s.len() && (#[trigger] s[i]).node_id@ == node_id
}

/// Saves `contact` into the list by node id: an existing entry (the first
/// with that id) takes the new display name and last-seen time and keeps
/// the rest; an unknown contact is appended. Returns whether it was new.
pub fn upsert_contact(contacts: &mut Vec<Contact>, contact: Contact) -> (is_new: bool)
    ensures
        is_new == !has_contact(old(contacts)@, contact.node_id@),
        is_new ==> final(contacts)@ == old(contacts)@.push(contact),
        !is_new ==> exists|i: int|
            0 <= i < old(contacts)@.len() && (#[trigger] old(contacts)@[i]).node_id@
                == contact.node_id@ && (forall|j: int|
                0 <= j < i ==> (#[trigger] old(contacts)@[j]).node_id@ != contact.node_id@)
                && final(contacts)@ == old(contacts)@.update(
                i,
                Contact {
                    display_name: contact.display_name,
                    last_seen: contact.last_seen,
                    ..old(contacts)@[i]
                },
            ),
{
    let mut i: usize = 0;
    while i < contacts.len()
        invariant
            i <= contacts@.len(),
            contacts@ == old(contacts)@,
            forall|j: int| 0 <= j < i ==> (#[trigger] contacts@[j]).node_id@ != contact.node_id@,
        decreases contacts@.len() - i,
    {
        if contacts[i].node_id == contact.node_id {
            let existing = &contacts[i];
            let updated = Contact {
                node_id: existing.node_id.clone(),
                display_name: contact.display_name,
                added_at: existing.added_at,
                last_seen: contact.last_seen,
                source: existing.source,
            };
            contacts.set(i, updated);
            return false;
        }
        i = i + 1;
    }
    contacts.push(contact);
    true
}

/// The contact list without the entries for `node_id`, in order.
pub fn without_contact(contacts: &[Contact], node_id: &str) -> (r: Vec<Contact>)
    ensures
        r@ == contacts@.filter(|c: Contact| c.node_id@ != node_id@),
{
    let id = node_id.to_owned();
    let ghost p = |c: Contact| c.node_id@ != node_id@;
    let mut out: Vec<Contact> = Vec::new();
    let mut i: usize = 0;
    while i < contacts.len()
        invariant
            i <= contacts@.len(),
            id@ == node_id@,
            p == (|c: Contact| c.node_id@ != node_id@),
            out@ == contacts@.take(i as int).filter(p),
        decreases contacts@.len() - i,
    {
        proof {
            assert(contacts@.take(i + 1) =~= contacts@.take(i as int).push(contacts@[i as int]));
            crate::keyed::lemma_filter_push(contacts@.take(i as int), contacts@[i as int], p);
        }
        if !(contacts[i].node_id == id) {
            out.push(copy_contact(&contacts[i]));
        }
        i = i + 1;
    }
    assert(contacts@.take(i as int) =~= contacts@);
    out
}

} // verus!
