//! Verified core of a peer-to-peer call and messaging client: wire formats,
//! media framing, video reordering, send-quality control and the decisions
//! the connection layer takes.

pub mod bytes;
pub mod messages;
pub mod video_transport;
pub mod quality;
pub mod quality_laws;
pub mod codec;
pub mod text;
pub mod dm_files;
pub mod connection;
pub mod keyed;
pub mod dm;
pub mod media;
pub mod commands;
pub mod relay;
pub mod presence;
pub mod encoding;
pub mod identity;
