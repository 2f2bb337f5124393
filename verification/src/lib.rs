//! Secure Real-time Transport Protocol (SRTP) and its control protocol (SRTCP):
//!
//!   * AES-128-CM encryption and decryption
//!   * HMAC-SHA1 authentication tags
//!   * the AES-CM pseudo-random function for session-key derivation
//!   * packet index estimation and rollover-counter tracking
//!   * replay-window protection for incoming packets
//!   * packet reader and writer wrappers
//!
//! [`context`] holds the keying material and runs the two packet pipelines; [`protocol`] says what
//! they leave to [`srtp`] and [`srtcp`]; [`stream`] is the state of one source; [`packet_io`] wraps
//! readers and writers. What holds over one packet after another is stated in [`pipeline`], of the
//! replay window in [`replay`], of the budget of unknown sources in [`admission`], and of the very
//! bytes on the wire in [`wire`].
pub mod admission;
pub mod bitset;
pub mod bytes;
pub mod context;
pub mod crypto;
pub mod error;
pub mod packet_io;
pub mod pipeline;
pub mod protocol;
pub mod replay;
pub mod rtp;
pub mod srtcp;
pub mod srtp;
pub mod stream;
pub mod wire;

pub use context::{AuthenticationAlgorithm, Context, EncryptionAlgorithm};
pub use error::ErrorKind;
pub use packet_io::{
    ReadPacket, RtcpPacket, RtpPacket, SrtcpPacketReader, SrtcpPacketWriter, SrtpPacketReader,
    SrtpPacketWriter, WritePacket,
};
pub use protocol::{Protocol, Ssrc, U48};
pub use srtcp::Srtcp;
pub use srtp::Srtp;
pub use stream::SsrcContext;
