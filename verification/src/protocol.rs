//! What SRTP and SRTCP do differently.
use crate::context::Context;
use crate::error::{bytes_result, ErrorKind};
use crate::stream::{SsrcContext, StreamModel};
use vstd::prelude::*;

verus! {

/// A synchronisation source identifier.
pub type Ssrc = u32;

/// An unsigned integer of which 48 bits are used.
pub type U48 = u64;

/// Abstracts over the SRTP (RTP) and SRTCP (RTCP) protocol differences.
///
/// Both protocols share the same AES-CM / HMAC-SHA1 machinery but differ in:
///   * which header bytes carry the SSRC and packet index
///   * how the authenticated byte span is constructed
///   * how the packet index is maintained / predicted
///   * which key-derivation labels are used
pub trait Protocol: Sized + Default {
    /// Packet index type: [`U48`] for SRTP, `u32` (31-bit) for SRTCP.
    type PacketIndex: Sized + Ord + Into<u64> + Copy;

    /// Key-derivation label for the session encryption key.
    const ENC_KEY_LABEL: u8;

    /// Key-derivation label for the session authentication key.
    const AUTH_KEY_LABEL: u8;

    /// Key-derivation label for the session salt.
    const SALT_KEY_LABEL: u8;

    /// The key-derivation labels of the session encryption key, authentication key and salt.
    spec fn key_labels() -> (u8, u8, u8);

    /// A packet index as a number.
    spec fn index_value(index: Self::PacketIndex) -> u64;

    /// The state of a source of which no packet has been seen.
    spec fn initial() -> Self;

    /// The source that a packet names.
    spec fn ssrc_of(packet: Seq<u8>) -> Result<Ssrc, ErrorKind>;

    /// Whether a received packet has room for what carries its index.
    spec fn index_readable(tag_len: int, packet: Seq<u8>) -> bool;

    /// The index of a received packet.
    spec fn incoming_index(tag_len: int, state: Self, packet: Seq<u8>) -> Result<
        Self::PacketIndex,
        ErrorKind,
    >;

    /// The index of a packet to be sent.
    spec fn outgoing_index(state: Self, packet: Seq<u8>) -> Result<Self::PacketIndex, ErrorKind>;

    /// What the authentication tag of a packet is computed over.
    spec fn authenticated_bytes(index: Self::PacketIndex, portion: Seq<u8>) -> Result<
        Seq<u8>,
        ErrorKind,
    >;

    /// Whether a received packet has room for its header and trailer.
    spec fn openable(tag_len: int, packet: Seq<u8>) -> bool;

    /// The plaintext packet of a received one.
    spec fn opened(
        tag_len: int,
        stream: StreamModel<Self>,
        packet: Seq<u8>,
        index: Self::PacketIndex,
    ) -> Result<Seq<u8>, ErrorKind>;

    /// The ciphertext packet, without its authentication tag, of one to be sent.
    spec fn sealed(
        stream: StreamModel<Self>,
        packet: Seq<u8>,
        index: Self::PacketIndex,
    ) -> Result<Seq<u8>, ErrorKind>;

    /// The state after a packet was accepted.
    spec fn after_received(state: Self, index: Self::PacketIndex) -> Self;

    /// The state after a packet was emitted.
    spec fn after_sent(state: Self, index: Self::PacketIndex) -> Self;

    /// The constants are the labels.
    proof fn lemma_key_labels()
        ensures
            Self::key_labels() == (
                Self::ENC_KEY_LABEL,
                Self::AUTH_KEY_LABEL,
                Self::SALT_KEY_LABEL,
            ),
    ;

    /// The default value is the state of a source of which no packet has been seen.
    proof fn lemma_initial(state: Self)
        requires
            call_ensures(Self::default, (), state),
        ensures
            state == Self::initial(),
    ;

    /// A packet index as a number.
    fn packet_index_u64(index: Self::PacketIndex) -> (r: u64)
        ensures
            r == Self::index_value(index),
    ;

    /// Whether a received packet has room for what carries its index.
    fn has_readable_index(tag_len: usize, packet: &[u8]) -> (r: bool)
        ensures
            r == Self::index_readable(tag_len as int, packet@),
    ;

    /// Whether a received packet has room for its header and trailer.
    fn has_room(tag_len: usize, packet: &[u8]) -> (r: bool)
        ensures
            r == Self::openable(tag_len as int, packet@),
    ;

    /// Extract the SSRC from a raw packet buffer.
    fn read_ssrc(packet: &[u8]) -> (r: Result<Ssrc, ErrorKind>)
        ensures
            r == Self::ssrc_of(packet@),
    ;

    /// Estimate the full packet index for an *incoming* packet.
    fn determine_incoming_packet_index(
        context: &Context<Self>,
        ssrc_context: &SsrcContext<Self>,
        packet: &[u8],
    ) -> (r: Result<Self::PacketIndex, ErrorKind>)
        requires
            Self::index_readable(context@.auth_tag_len as int, packet@),
        ensures
            r == Self::incoming_index(
                context@.auth_tag_len as int,
                ssrc_context@.state,
                packet@,
            ),
    ;

    /// Determine the packet index for an *outgoing* packet.
    fn determine_outgoing_packet_index(context: &SsrcContext<Self>, packet: &[u8]) -> (r: Result<
        Self::PacketIndex,
        ErrorKind,
    >)
        ensures
            r == Self::outgoing_index(context@.state, packet@),
    ;

    /// Return the bytes that HMAC-SHA1 is computed over.
    /// For SRTP this appends the rollover counter; for SRTCP the full index is already in
    /// the packet, so the bytes are returned unchanged.
    fn get_authenticated_bytes(
        context: &Context<Self>,
        index: Self::PacketIndex,
        auth_portion: &[u8],
    ) -> (r: Result<Vec<u8>, ErrorKind>)
        ensures
            bytes_result(r) == Self::authenticated_bytes(index, auth_portion@),
    ;

    /// Decrypt the ciphertext payload, returning a plaintext packet.
    fn decrypt(
        context: &Context<Self>,
        ssrc_context: &SsrcContext<Self>,
        packet: &[u8],
        index: Self::PacketIndex,
    ) -> (r: Result<Vec<u8>, ErrorKind>)
        requires
            ssrc_context@.encr_key.len() == 16,
            Self::openable(context@.auth_tag_len as int, packet@),
        ensures
            bytes_result(r) == Self::opened(
                context@.auth_tag_len as int,
                ssrc_context@,
                packet@,
                index,
            ),
    ;

    /// Encrypt the plaintext payload, returning a ciphertext packet
    /// (without the auth tag - that is appended by `process_outgoing`).
    fn encrypt(
        context: &Context<Self>,
        ssrc_context: &SsrcContext<Self>,
        packet: &[u8],
        index: Self::PacketIndex,
    ) -> (r: Result<Vec<u8>, ErrorKind>)
        requires
            ssrc_context@.encr_key.len() == 16,
        ensures
            bytes_result(r) == Self::sealed(ssrc_context@, packet@, index),
    ;

    /// Update the highest received index / rollover counter after a packet is accepted.
    fn update_highest_recv_index(context: &mut SsrcContext<Self>, index: Self::PacketIndex)
        ensures
            final(context)@ == (StreamModel {
                state: Self::after_received(old(context)@.state, index),
                ..old(context)@
            }),
    ;

    /// Update the highest sent index after a packet is emitted.
    fn update_highest_sent_index(context: &mut SsrcContext<Self>, index: Self::PacketIndex)
        ensures
            final(context)@ == (StreamModel {
                state: Self::after_sent(old(context)@.state, index),
                ..old(context)@
            }),
    ;
}

} // verus!
