//! The SRTP/SRTCP context and its packet pipelines.
use crate::bitset::bits;
use crate::crypto::{auth_tag, derivation_input, hmac_hash_sha1, key_derivation_x, prf, prf_n};
use crate::error::{bytes_result, ErrorKind};
use crate::protocol::{Protocol, Ssrc};
use crate::stream::{SsrcContext, StreamModel};
use fixedbitset::FixedBitSet;
use std::collections::BTreeMap;
use vstd::arithmetic::power2::pow2;
use vstd::prelude::*;

verus! {

/// Encryption algorithm to use for this SRTP/SRTCP context.
/// Only AES-CM is implemented; AES-F8 and Null are present for future use.
#[derive(Debug, Clone, Copy, PartialEq, Eq, Structural)]
pub enum EncryptionAlgorithm {
    AesCm,
    AesF8,
    Null,
}

impl Default for EncryptionAlgorithm {
    fn default() -> (r: Self)
        ensures
            r == EncryptionAlgorithm::AesCm,
    {
        EncryptionAlgorithm::AesCm
    }
}

/// Authentication algorithm. Only HMAC-SHA1 is implemented.
#[derive(Debug, Clone, Copy, PartialEq, Eq, Structural)]
pub enum AuthenticationAlgorithm {
    HmacSha1,
}

impl Default for AuthenticationAlgorithm {
    fn default() -> (r: Self)
        ensures
            r == AuthenticationAlgorithm::HmacSha1,
    {
        AuthenticationAlgorithm::HmacSha1
    }
}

/// Top-level SRTP/SRTCP context.  Holds the master keying material and a
/// per-SSRC sub-context for each stream.
///
/// A single `Context` should be used for *either* sending *or* receiving, not
/// both; the replay window and index tracking are not thread-safe.
#[derive(Debug, Clone, PartialEq, Eq)]
pub struct Context<P> {
    pub master_key: Vec<u8>,
    pub master_salt: Vec<u8>,
    /// Stores `log2(kdr) + 1`, or 0 meaning kdr = 0 (derive once, no re-key).
    /// The actual derivation rate is `2^(key_derivation_rate - 1)`.
    pub key_derivation_rate: u8,
    pub encryption: EncryptionAlgorithm,
    pub authentication: AuthenticationAlgorithm,
    /// Length of the HMAC-SHA1 auth tag appended to each packet (bytes).
    /// Default = 10 (80-bit tag).
    pub auth_tag_len: usize,
    /// Number of as-yet-unknown SSRCs to accept before rejecting new ones.
    pub unknown_ssrcs: usize,
    pub ssrc_context: BTreeMap<u32, SsrcContext<P>>,
}

/// What a [`Context`] holds.
#[verifier::ext_equal]
pub struct ContextModel<P> {
    pub master_key: Seq<u8>,
    pub master_salt: Seq<u8>,
    pub key_derivation_rate: u8,
    pub encryption: EncryptionAlgorithm,
    pub authentication: AuthenticationAlgorithm,
    pub auth_tag_len: usize,
    pub unknown_ssrcs: usize,
    pub streams: Map<Ssrc, StreamModel<P>>,
}

impl<P> View for Context<P> {
    type V = ContextModel<P>;

    open spec fn view(&self) -> ContextModel<P> {
        ContextModel {
            master_key: self.master_key@,
            master_salt: self.master_salt@,
            key_derivation_rate: self.key_derivation_rate,
            encryption: self.encryption,
            authentication: self.authentication,
            auth_tag_len: self.auth_tag_len,
            unknown_ssrcs: self.unknown_ssrcs,
            streams: self.ssrc_context@.map_values(|s: SsrcContext<P>| s@),
        }
    }
}

/// What a context and a stream are known by: every field by its contents.
pub proof fn law_nothing_is_left_out<P>(context: Context<P>, stream: SsrcContext<P>, ssrc: Ssrc)
    ensures
        context@.master_key == context.master_key@,
        context@.master_salt == context.master_salt@,
        context@.key_derivation_rate == context.key_derivation_rate,
        context@.encryption == context.encryption,
        context@.authentication == context.authentication,
        context@.auth_tag_len == context.auth_tag_len,
        context@.unknown_ssrcs == context.unknown_ssrcs,
        context@.streams.dom() == context.ssrc_context@.dom(),
        context.ssrc_context@.contains_key(ssrc) ==> context@.streams[ssrc]
            == context.ssrc_context@[ssrc]@,
        stream@.head == stream.replay_window_head,
        stream@.window == bits(stream.replay_window),
        stream@.encr_key == stream.session_encr_key@,
        stream@.salt_key == stream.session_salt_key@,
        stream@.auth_key == stream.session_auth_key@,
        stream@.state == stream.protocol_specific,
{
    assert(context@.streams.dom() =~= context.ssrc_context@.dom());
}

/// Which period of the key-derivation rate an index falls into.
pub open spec fn derivation_period(rate: u8, index: u64) -> nat {
    if rate == 0 {
        0
    } else {
        index as nat / pow2((rate - 1) as nat)
    }
}

/// The stream of a source of which no packet has been seen: zeroed keys of the default sizes, a
/// clear window of 128 slots.
pub open spec fn fresh_stream<P: Protocol>() -> StreamModel<P> {
    StreamModel {
        head: 0,
        window: Seq::new(128, |i: int| false),
        encr_key: Seq::new(16, |i: int| 0u8),
        salt_key: Seq::new(14, |i: int| 0u8),
        auth_key: Seq::new(20, |i: int| 0u8),
        state: P::initial(),
    }
}

impl<P> ContextModel<P> {
    /// The master key is an AES-128 key and the derivation rate a shift of a 64-bit index.
    pub open spec fn derives_keys(self) -> bool {
        &&& self.master_key.len() == 16
        &&& self.key_derivation_rate <= 64
    }

    /// Keys can be derived, and every stream is well formed.
    pub open spec fn wf(self) -> bool {
        &&& self.derives_keys()
        &&& forall|ssrc: Ssrc| #[trigger]
            self.streams.contains_key(ssrc) ==> self.streams[ssrc].wf()
    }

    /// The session key of `len` bytes for one label and the packet `index`.
    pub open spec fn session_key(self, label: u8, index: u64, len: nat) -> Seq<u8> {
        prf(
            self.master_key,
            derivation_input(
                label,
                derivation_period(self.key_derivation_rate, index),
                self.master_salt,
            ),
            len,
        )
    }

    /// Whether packets of a source are processed at all.
    pub open spec fn admits(self, ssrc: Ssrc) -> bool {
        self.streams.contains_key(ssrc) || self.unknown_ssrcs > 0
    }
}

impl<P: Protocol> ContextModel<P> {
    /// The context once a source is registered, out of the budget if it was unknown.
    pub open spec fn admitted(self, ssrc: Ssrc) -> Self {
        if self.streams.contains_key(ssrc) {
            self
        } else {
            ContextModel {
                unknown_ssrcs: (self.unknown_ssrcs - 1) as usize,
                streams: self.streams.insert(ssrc, fresh_stream()),
                ..self
            }
        }
    }

    /// What making sure that a source is registered gives, and the context after it.
    pub open spec fn ensured(self, ssrc: Ssrc) -> (Result<(), ErrorKind>, Self) {
        if self.admits(ssrc) {
            (Ok(()), self.admitted(ssrc))
        } else {
            (Err(ErrorKind::Invalid), self)
        }
    }

    /// A stream with the session keys of the packet `index`, each of the length it had.
    pub open spec fn rekeyed_stream(self, stream: StreamModel<P>, index: u64) -> StreamModel<P> {
        let (enc_label, auth_label, salt_label) = P::key_labels();
        StreamModel {
            encr_key: self.session_key(enc_label, index, stream.encr_key.len()),
            auth_key: self.session_key(auth_label, index, stream.auth_key.len()),
            salt_key: self.session_key(salt_label, index, stream.salt_key.len()),
            ..stream
        }
    }

    /// The context with one stream replaced.
    pub open spec fn with_stream(self, ssrc: Ssrc, stream: StreamModel<P>) -> Self {
        ContextModel { streams: self.streams.insert(ssrc, stream), ..self }
    }

    /// The context with the session keys of the packet `index` in the stream of `ssrc`.
    pub open spec fn rekeyed(self, ssrc: Ssrc, index: u64) -> Self {
        self.with_stream(ssrc, self.rekeyed_stream(self.streams[ssrc], index))
    }

    /// The stream of a source, as it is or as it would be registered.
    pub open spec fn stream_of(self, ssrc: Ssrc) -> StreamModel<P> {
        self.admitted(ssrc).streams[ssrc]
    }

    /// The authentication tag of a packet without its tag.
    pub open spec fn tag_of(
        self,
        auth_key: Seq<u8>,
        body: Seq<u8>,
        index: P::PacketIndex,
    ) -> Result<Seq<u8>, ErrorKind> {
        match P::authenticated_bytes(index, body) {
            Ok(bytes) => Ok(auth_tag(auth_key, bytes, self.auth_tag_len as nat)),
            Err(e) => Err(e),
        }
    }

    /// What comes of holding the last bytes of a packet against the authentication tag of the rest.
    pub open spec fn verdict(
        self,
        auth_key: Seq<u8>,
        packet: Seq<u8>,
        index: P::PacketIndex,
    ) -> Result<(), ErrorKind> {
        let body_len = packet.len() - self.auth_tag_len;
        match self.tag_of(auth_key, packet.take(body_len), index) {
            Ok(tag) => if packet.skip(body_len) == tag {
                Ok(())
            } else {
                Err(ErrorKind::Invalid)
            },
            Err(e) => Err(e),
        }
    }

    /// Whether the last bytes of a packet are the authentication tag of the rest.
    pub open spec fn authentic(
        self,
        auth_key: Seq<u8>,
        packet: Seq<u8>,
        index: P::PacketIndex,
    ) -> bool {
        self.verdict(auth_key, packet, index) is Ok
    }

    /// Whether the keys that receiving or sending `packet` would use are of their sizes: the master
    /// key and those of the packet's own stream.
    pub open spec fn has_keys_for(self, packet: Seq<u8>) -> bool {
        P::ssrc_of(packet) matches Ok(ssrc) ==> self.admits(ssrc) ==> {
            &&& self.derives_keys()
            &&& self.stream_of(ssrc).encr_key.len() == 16
        }
    }

    /// What receiving `packet` gives, and the context after it.
    pub open spec fn incoming(self, packet: Seq<u8>) -> (Result<Seq<u8>, ErrorKind>, Self) {
        match P::ssrc_of(packet) {
            Err(e) => (Err(e), self),
            Ok(ssrc) => if !self.admits(ssrc) {
                (Err(ErrorKind::Invalid), self)
            } else {
                let known = self.admitted(ssrc);
                match P::incoming_index(
                    self.auth_tag_len as int,
                    known.streams[ssrc].state,
                    packet,
                ) {
                    Err(e) => (Err(e), known),
                    Ok(index) => known.rekeyed(ssrc, P::index_value(index)).received(
                        ssrc,
                        packet,
                        index,
                    ),
                }
            },
        }
    }

    /// What receiving `packet` gives once its source and index are known and the session keys are
    /// in place.
    pub open spec fn received(self, ssrc: Ssrc, packet: Seq<u8>, index: P::PacketIndex) -> (
        Result<Seq<u8>, ErrorKind>,
        Self,
    ) {
        let stream = self.streams[ssrc];
        let value = P::index_value(index);
        if stream.seen(value as int) {
            (Err(ErrorKind::Invalid), self)
        } else {
            match self.verdict(stream.auth_key, packet, index) {
                Err(e) => (Err(e), self),
                Ok(()) => match P::opened(self.auth_tag_len as int, stream, packet, index) {
                    Err(e) => (Err(e), self),
                    Ok(plain) => (
                        Ok(plain),
                        self.with_stream(
                            ssrc,
                            StreamModel {
                                state: P::after_received(stream.state, index),
                                ..stream.recorded(value)
                            },
                        ),
                    ),
                },
            }
        }
    }

    /// Whether `packet` is long enough wherever receiving it looks: at the word that carries its
    /// index, at its tag, and, if it is authentic, at its header and trailer. An authentic packet
    /// also needs a replay window with a slot for its index.
    pub open spec fn incoming_fits(self, packet: Seq<u8>) -> bool {
        match P::ssrc_of(packet) {
            Err(_) => true,
            Ok(ssrc) => self.admits(ssrc) ==> {
                let known = self.admitted(ssrc);
                &&& P::index_readable(self.auth_tag_len as int, packet)
                &&& P::incoming_index(
                    self.auth_tag_len as int,
                    known.streams[ssrc].state,
                    packet,
                ) matches Ok(index) ==> known.rekeyed(
                    ssrc,
                    P::index_value(index),
                ).received_fits(ssrc, packet, index)
            },
        }
    }

    /// The part of `incoming_fits` that matters once the index is known.
    pub open spec fn received_fits(
        self,
        ssrc: Ssrc,
        packet: Seq<u8>,
        index: P::PacketIndex,
    ) -> bool {
        let stream = self.streams[ssrc];
        ||| stream.seen(P::index_value(index) as int)
        ||| packet.len() >= self.auth_tag_len && (self.authentic(
            stream.auth_key,
            packet,
            index,
        ) ==> P::openable(self.auth_tag_len as int, packet) && stream.window.len() > 0)
    }

    /// What sending `packet` gives, and the context after it.
    pub open spec fn outgoing(self, packet: Seq<u8>) -> (Result<Seq<u8>, ErrorKind>, Self) {
        match P::ssrc_of(packet) {
            Err(e) => (Err(e), self),
            Ok(ssrc) => if !self.admits(ssrc) {
                (Err(ErrorKind::Invalid), self)
            } else {
                let known = self.admitted(ssrc);
                match P::outgoing_index(known.streams[ssrc].state, packet) {
                    Err(e) => (Err(e), known),
                    Ok(index) => known.rekeyed(ssrc, P::index_value(index)).sent(
                        ssrc,
                        packet,
                        index,
                    ),
                }
            },
        }
    }

    /// What sending `packet` gives once its source and index are known and the session keys are in
    /// place.
    pub open spec fn sent(self, ssrc: Ssrc, packet: Seq<u8>, index: P::PacketIndex) -> (
        Result<Seq<u8>, ErrorKind>,
        Self,
    ) {
        let stream = self.streams[ssrc];
        match P::sealed(stream, packet, index) {
            Err(e) => (Err(e), self),
            Ok(body) => match self.tag_of(stream.auth_key, body, index) {
                Err(e) => (Err(e), self),
                Ok(tag) => (
                    Ok(body + tag),
                    self.with_stream(
                        ssrc,
                        StreamModel { state: P::after_sent(stream.state, index), ..stream },
                    ),
                ),
            },
        }
    }
}

/// Whether two byte strings are the same.
fn same_bytes(a: &[u8], b: &[u8]) -> (r: bool)
    ensures
        r == (a@ == b@),
{
    if a.len() != b.len() {
        return false;
    }
    let mut i: usize = 0;
    while i < a.len()
        invariant
            i <= a@.len(),
            a@.len() == b@.len(),
            forall|j: int| 0 <= j < i ==> a@[j] == b@[j],
        decreases a.len() - i,
    {
        if a[i] != b[i] {
            return false;
        }
        i = i + 1;
    }
    assert(a@ =~= b@);
    true
}

impl<P: Protocol> SsrcContext<P> {
    /// Construct a zeroed-out SSRC context with default key/salt/auth sizes.
    pub fn new_empty() -> (r: Self)
        ensures
            r@ == fresh_stream::<P>(),
    {
        let protocol_specific = P::default();
        proof {
            P::lemma_initial(protocol_specific);
        }
        let r = SsrcContext {
            replay_window_head: 0,
            replay_window: FixedBitSet::with_capacity(128),
            session_encr_key: vec![0u8; 16],
            session_salt_key: vec![0u8; 14],
            session_auth_key: vec![0u8; 20],
            protocol_specific,
        };
        assert(r@ =~= fresh_stream::<P>());
        r
    }
}

impl<P: Protocol> Context<P> {
    /// Create a new context with the given master key and salt.
    /// All other fields take their recommended defaults:
    /// AES-CM encryption, HMAC-SHA1 authentication, 80-bit auth tag.
    pub fn new(master_key: &[u8], master_salt: &[u8]) -> (r: Self)
        ensures
            r@ == (ContextModel::<P> {
                master_key: master_key@,
                master_salt: master_salt@,
                key_derivation_rate: 0,
                encryption: EncryptionAlgorithm::AesCm,
                authentication: AuthenticationAlgorithm::HmacSha1,
                auth_tag_len: 10,
                unknown_ssrcs: 0,
                streams: Map::empty(),
            }),
            master_key@.len() == 16 ==> r@.wf(),
    {
        let r = Context {
            master_key: vstd::slice::slice_to_vec(master_key),
            master_salt: vstd::slice::slice_to_vec(master_salt),
            key_derivation_rate: 0,
            encryption: EncryptionAlgorithm::default(),
            authentication: AuthenticationAlgorithm::default(),
            auth_tag_len: 80 / 8,
            unknown_ssrcs: 0,
            ssrc_context: BTreeMap::new(),
        };
        assert(r@.streams =~= Map::empty());
        r
    }

    /// Register a known SSRC, initialising its per-SSRC context.
    pub fn add_ssrc(&mut self, ssrc: Ssrc)
        requires
            !old(self)@.streams.contains_key(ssrc),
        ensures
            final(self)@ == (ContextModel {
                streams: old(self)@.streams.insert(ssrc, fresh_stream()),
                ..old(self)@
            }),
            old(self)@.wf() ==> final(self)@.wf(),
    {
        self.put_stream(ssrc, SsrcContext::new_empty());
    }

    /// Allow `count` additional unknown SSRCs to be auto-registered on first
    /// receipt.  Useful when the far-end SSRC is not known in advance.
    pub fn add_unknown_ssrcs(&mut self, count: usize)
        requires
            old(self)@.unknown_ssrcs + count <= usize::MAX,
        ensures
            final(self)@ == (ContextModel {
                unknown_ssrcs: (old(self)@.unknown_ssrcs + count) as usize,
                ..old(self)@
            }),
    {
        self.unknown_ssrcs += count;
    }

    /// Ensure an SSRC context exists, auto-creating it from the `unknown_ssrcs`
    /// budget if necessary.
    pub fn ensure_ssrc(&mut self, ssrc: Ssrc) -> (r: Result<(), ErrorKind>)
        ensures
            (r, final(self)@) == old(self)@.ensured(ssrc),
            old(self)@.wf() ==> final(self)@.wf(),
    {
        if !self.ssrc_context.contains_key(&ssrc) {
            if self.unknown_ssrcs == 0 {
                return Err(ErrorKind::Invalid);
            }
            self.unknown_ssrcs -= 1;
            self.put_stream(ssrc, SsrcContext::new_empty());
        }
        Ok(())
    }

    /// The stream of a registered source.
    fn stream(&self, ssrc: Ssrc) -> (r: &SsrcContext<P>)
        requires
            self@.streams.contains_key(ssrc),
        ensures
            r@ == self@.streams[ssrc],
    {
        assert(self.ssrc_context@.contains_key(ssrc));
        self.ssrc_context.get(&ssrc).unwrap()
    }

    /// Takes the stream of a registered source out.
    fn take_stream(&mut self, ssrc: Ssrc) -> (r: SsrcContext<P>)
        requires
            old(self)@.streams.contains_key(ssrc),
        ensures
            r@ == old(self)@.streams[ssrc],
            final(self)@ == (ContextModel {
                streams: old(self)@.streams.remove(ssrc),
                ..old(self)@
            }),
    {
        assert(self.ssrc_context@.contains_key(ssrc));
        let r = self.ssrc_context.remove(&ssrc).unwrap();
        assert(self@.streams =~= old(self)@.streams.remove(ssrc));
        r
    }

    /// Puts a stream in as the one of `ssrc`.
    fn put_stream(&mut self, ssrc: Ssrc, stream: SsrcContext<P>)
        ensures
            final(self)@ == old(self)@.with_stream(ssrc, stream@),
    {
        self.ssrc_context.insert(ssrc, stream);
        assert(self@.streams =~= old(self)@.streams.insert(ssrc, stream@));
    }

    /// The session key of `len` bytes for one label and the packet `index`.
    fn derive_key(&self, label: u8, index: u64, len: usize) -> (r: Vec<u8>)
        requires
            self@.derives_keys(),
        ensures
            r@ == self@.session_key(label, index, len as nat),
    {
        let r: u64 = if self.key_derivation_rate == 0 {
            0
        } else {
            let shift: u64 = (self.key_derivation_rate - 1) as u64;
            proof {
                vstd::bits::lemma_u64_shr_is_div(index, shift);
            }
            index >> shift
        };
        let x = key_derivation_x(label, r, self.master_salt.as_slice());
        prf_n(self.master_key.as_slice(), &x, len)
    }

    /// Re-derive the session keys for `ssrc` at packet `index`.
    ///
    /// The derivation key `r` is computed from `index` and
    /// `key_derivation_rate`, then the PRF is applied with different labels
    /// to produce three independent session keys.
    pub fn update_session_keys(&mut self, ssrc: Ssrc, index: P::PacketIndex)
        requires
            old(self)@.derives_keys(),
            old(self)@.streams.contains_key(ssrc),
        ensures
            final(self)@ == old(self)@.rekeyed(ssrc, P::index_value(index)),
            old(self)@.wf() ==> final(self)@.wf(),
    {
        proof {
            P::lemma_key_labels();
        }
        let value = P::packet_index_u64(index);
        let mut stream = self.take_stream(ssrc);
        let encr_key = self.derive_key(P::ENC_KEY_LABEL, value, stream.session_encr_key.len());
        let auth_key = self.derive_key(P::AUTH_KEY_LABEL, value, stream.session_auth_key.len());
        let salt_key = self.derive_key(P::SALT_KEY_LABEL, value, stream.session_salt_key.len());
        stream.session_encr_key = encr_key;
        stream.session_auth_key = auth_key;
        stream.session_salt_key = salt_key;
        self.put_stream(ssrc, stream);
        assert(self@ =~= old(self)@.rekeyed(ssrc, P::index_value(index)));
    }

    /// The auth tag of a packet (without tag) under an authentication key.
    fn compute_tag(&self, auth_key: &[u8], packet: &[u8], index: P::PacketIndex) -> (r: Result<
        Vec<u8>,
        ErrorKind,
    >)
        ensures
            bytes_result(r) == self@.tag_of(auth_key@, packet@, index),
    {
        let auth_bytes = match P::get_authenticated_bytes(self, index, packet) {
            Ok(auth_bytes) => auth_bytes,
            Err(e) => return Err(e),
        };
        let mut tag = hmac_hash_sha1(auth_key, auth_bytes.as_slice());
        tag.truncate(self.auth_tag_len);
        assert(tag@ =~= self@.tag_of(auth_key@, packet@, index)->Ok_0);
        Ok(tag)
    }

    /// Whether a packet ends in the auth tag of its body under an authentication key.
    fn check_tag(&self, auth_key: &[u8], packet: &[u8], index: P::PacketIndex) -> (r: Result<
        (),
        ErrorKind,
    >)
        requires
            packet@.len() >= self@.auth_tag_len,
        ensures
            r == self@.verdict(auth_key@, packet@, index),
    {
        let body_len: usize = packet.len() - self.auth_tag_len;
        let (body, tag) = packet.split_at(body_len);
        proof {
            assert(body@ =~= packet@.take(body_len as int));
            assert(tag@ =~= packet@.skip(body_len as int));
        }
        let expected = match self.compute_tag(auth_key, body, index) {
            Ok(expected) => expected,
            Err(e) => return Err(e),
        };
        if same_bytes(tag, expected.as_slice()) {
            Ok(())
        } else {
            Err(ErrorKind::Invalid)
        }
    }

    /// Verify the auth tag on an incoming packet.
    /// `packet` must include the trailing auth tag.
    pub fn authenticate(
        &self,
        ssrc_context: &SsrcContext<P>,
        packet: &[u8],
        index: P::PacketIndex,
    ) -> (r: Result<(), ErrorKind>)
        requires
            packet@.len() >= self@.auth_tag_len,
        ensures
            r == self@.verdict(ssrc_context@.auth_key, packet@, index),
    {
        self.check_tag(ssrc_context.session_auth_key.as_slice(), packet, index)
    }

    /// Compute and return the auth tag for an outgoing packet (without tag).
    pub fn generate_auth_tag(
        &self,
        ssrc_context: &SsrcContext<P>,
        packet: &[u8],
        index: P::PacketIndex,
    ) -> (r: Result<Vec<u8>, ErrorKind>)
        ensures
            bytes_result(r) == self@.tag_of(ssrc_context@.auth_key, packet@, index),
    {
        self.compute_tag(ssrc_context.session_auth_key.as_slice(), packet, index)
    }

    /// Decrypt a received packet, tag included; `Protocol::decrypt` for this context.
    pub fn decrypt(
        &self,
        ssrc_context: &SsrcContext<P>,
        packet: &[u8],
        index: P::PacketIndex,
    ) -> (r: Result<Vec<u8>, ErrorKind>)
        requires
            ssrc_context@.encr_key.len() == 16,
            P::openable(self@.auth_tag_len as int, packet@),
        ensures
            bytes_result(r) == P::opened(
                self@.auth_tag_len as int,
                ssrc_context@,
                packet@,
                index,
            ),
    {
        P::decrypt(self, ssrc_context, packet, index)
    }

    /// Encrypt a packet to be sent; `Protocol::encrypt` for this context.
    pub fn encrypt(
        &self,
        ssrc_context: &SsrcContext<P>,
        packet: &[u8],
        index: P::PacketIndex,
    ) -> (r: Result<Vec<u8>, ErrorKind>)
        requires
            ssrc_context@.encr_key.len() == 16,
        ensures
            bytes_result(r) == P::sealed(ssrc_context@, packet@, index),
    {
        P::encrypt(self, ssrc_context, packet, index)
    }

    /// Appends the plaintext of `encrypted` to `decrypted`.
    pub fn decrypt_portion(
        &self,
        ssrc_context: &SsrcContext<P>,
        encrypted: &[u8],
        decrypted: &mut Vec<u8>,
        ssrc: Ssrc,
        index: P::PacketIndex,
    )
        requires
            ssrc_context@.encr_key.len() == 16,
        ensures
            final(decrypted)@ == old(decrypted)@ + ssrc_context@.keystreamed(
                encrypted@,
                ssrc,
                P::index_value(index),
            ),
    {
        ssrc_context.apply_keystream(encrypted, decrypted, ssrc, P::packet_index_u64(index));
    }

    /// Appends the ciphertext of `plaintext` to `encrypted`.
    pub fn encrypt_portion(
        &self,
        ssrc_context: &SsrcContext<P>,
        plaintext: &[u8],
        encrypted: &mut Vec<u8>,
        ssrc: Ssrc,
        index: P::PacketIndex,
    )
        requires
            ssrc_context@.encr_key.len() == 16,
        ensures
            final(encrypted)@ == old(encrypted)@ + ssrc_context@.keystreamed(
                plaintext@,
                ssrc,
                P::index_value(index),
            ),
    {
        ssrc_context.apply_keystream(plaintext, encrypted, ssrc, P::packet_index_u64(index));
    }

    /// Receive pipeline:
    ///
    ///   1. Identify SSRC context (auto-register if `unknown_ssrcs > 0`).
    ///   2. Estimate / read the full packet index.
    ///   3. Derive session keys for this index.
    ///   4. Enforce replay-window - reject duplicates and very old packets.
    ///   5. Verify the HMAC-SHA1 auth tag.
    ///   6. Decrypt the payload.
    ///   7. Update the replay window, rollover counter, and highest sequence number.
    pub fn process_incoming(&mut self, packet: &[u8]) -> (r: Result<Vec<u8>, ErrorKind>)
        requires
            old(self)@.has_keys_for(packet@),
            old(self)@.incoming_fits(packet@),
        ensures
            (bytes_result(r), final(self)@) == old(self)@.incoming(packet@),
            old(self)@.wf() ==> final(self)@.wf(),
    {
        let ssrc = match P::read_ssrc(packet) {
            Ok(ssrc) => ssrc,
            Err(e) => return Err(e),
        };
        match self.ensure_ssrc(ssrc) {
            Ok(()) => {},
            Err(e) => return Err(e),
        }
        let ghost known = self@;
        let index = match P::determine_incoming_packet_index(
            self,
            self.stream(ssrc),
            packet,
        ) {
            Ok(index) => index,
            Err(e) => return Err(e),
        };
        self.update_session_keys(ssrc, index);
        let ghost keyed = self@;
        let value = P::packet_index_u64(index);
        let plain = {
            let stream = self.stream(ssrc);
            if stream.is_replayed(value) {
                return Err(ErrorKind::Invalid);
            }
            match self.authenticate(stream, packet, index) {
                Ok(()) => {},
                Err(e) => return Err(e),
            }
            match self.decrypt(stream, packet, index) {
                Ok(plain) => plain,
                Err(e) => return Err(e),
            }
        };
        let mut stream = self.take_stream(ssrc);
        stream.record_index(value);
        P::update_highest_recv_index(&mut stream, index);
        self.put_stream(ssrc, stream);
        assert(self@ =~= keyed.received(ssrc, packet@, index).1);
        Ok(plain)
    }

    /// Whether `process_incoming` can take `packet`: the keys have their sizes, the packet is long
    /// enough for everything that receiving it would read, and if it is authentic there is a slot
    /// for its index.
    pub fn fits_incoming(&self, packet: &[u8]) -> (r: bool)
        ensures
            r == (self@.has_keys_for(packet@) && self@.incoming_fits(packet@)),
    {
        let ssrc = match P::read_ssrc(packet) {
            Ok(ssrc) => ssrc,
            Err(_) => return true,
        };
        if self.ssrc_context.contains_key(&ssrc) {
            self.fits_stream(self.stream(ssrc), ssrc, packet)
        } else if self.unknown_ssrcs > 0 {
            self.fits_stream(&SsrcContext::new_empty(), ssrc, packet)
        } else {
            true
        }
    }

    /// The part of `fits_incoming` that matters once the stream of the packet is known.
    fn fits_stream(&self, stream: &SsrcContext<P>, ssrc: Ssrc, packet: &[u8]) -> (r: bool)
        requires
            P::ssrc_of(packet@) == Ok::<Ssrc, ErrorKind>(ssrc),
            self@.admits(ssrc),
            stream@ == self@.stream_of(ssrc),
        ensures
            r == (self@.has_keys_for(packet@) && self@.incoming_fits(packet@)),
    {
        if !self.can_derive_keys() || stream.session_encr_key.len() != 16 {
            return false;
        }
        if !P::has_readable_index(self.auth_tag_len, packet) {
            return false;
        }
        let index = match P::determine_incoming_packet_index(self, stream, packet) {
            Ok(index) => index,
            Err(_) => return true,
        };
        let value = P::packet_index_u64(index);
        let ghost known = self@.admitted(ssrc);
        let ghost keyed = known.rekeyed(ssrc, value);
        proof {
            P::lemma_key_labels();
        }
        assert(keyed.streams[ssrc] == known.rekeyed_stream(stream@, value));
        if stream.is_replayed(value) {
            return true;
        }
        if packet.len() < self.auth_tag_len {
            return false;
        }
        if P::has_room(self.auth_tag_len, packet) && stream.replay_window.len() > 0 {
            return true;
        }
        let auth_key = self.derive_key(P::AUTH_KEY_LABEL, value, stream.session_auth_key.len());
        self.check_tag(auth_key.as_slice(), packet, index).is_err()
    }

    /// Whether session keys can be derived from the master key at the derivation rate.
    fn can_derive_keys(&self) -> (r: bool)
        ensures
            r == self@.derives_keys(),
    {
        self.master_key.len() == 16 && self.key_derivation_rate <= 64
    }

    /// `process_incoming` for any packet and context. `None` where `process_incoming` cannot take
    /// the packet; the context is then left alone.
    pub fn try_process_incoming(&mut self, packet: &[u8]) -> (r: Option<
        Result<Vec<u8>, ErrorKind>,
    >)
        ensures
            r is Some <==> old(self)@.has_keys_for(packet@) && old(self)@.incoming_fits(packet@),
            r matches Some(outcome) ==> (bytes_result(outcome), final(self)@) == old(
                self,
            )@.incoming(packet@),
            r is None ==> *final(self) == *old(self),
            old(self)@.wf() ==> final(self)@.wf(),
    {
        if self.fits_incoming(packet) {
            Some(self.process_incoming(packet))
        } else {
            None
        }
    }

    /// Send pipeline:
    ///
    ///   1. Identify SSRC context.
    ///   2. Assign the outgoing packet index.
    ///   3. Derive session keys for this index.
    ///   4. Encrypt the payload.
    ///   5. Compute and append the HMAC-SHA1 auth tag.
    ///   6. Update the index state.
    pub fn process_outgoing(&mut self, packet: &[u8]) -> (r: Result<Vec<u8>, ErrorKind>)
        requires
            old(self)@.has_keys_for(packet@),
        ensures
            (bytes_result(r), final(self)@) == old(self)@.outgoing(packet@),
            old(self)@.wf() ==> final(self)@.wf(),
    {
        let ssrc = match P::read_ssrc(packet) {
            Ok(ssrc) => ssrc,
            Err(e) => return Err(e),
        };
        match self.ensure_ssrc(ssrc) {
            Ok(()) => {},
            Err(e) => return Err(e),
        }
        let index = match P::determine_outgoing_packet_index(
            self.stream(ssrc),
            packet,
        ) {
            Ok(index) => index,
            Err(e) => return Err(e),
        };
        self.update_session_keys(ssrc, index);
        let ghost keyed = self@;
        let stream = self.stream(ssrc);
        let mut result = match self.encrypt(stream, packet, index) {
            Ok(body) => body,
            Err(e) => return Err(e),
        };
        let mut tag = match self.generate_auth_tag(stream, result.as_slice(), index) {
            Ok(tag) => tag,
            Err(e) => return Err(e),
        };
        result.append(&mut tag);
        let mut stream = self.take_stream(ssrc);
        P::update_highest_sent_index(&mut stream, index);
        self.put_stream(ssrc, stream);
        assert(self@ =~= keyed.sent(ssrc, packet@, index).1);
        Ok(result)
    }

    /// Whether `process_outgoing` can take `packet`: the keys have their sizes.
    pub fn fits_outgoing(&self, packet: &[u8]) -> (r: bool)
        ensures
            r == self@.has_keys_for(packet@),
    {
        match P::read_ssrc(packet) {
            Ok(ssrc) => if self.ssrc_context.contains_key(&ssrc) {
                self.can_derive_keys() && self.stream(ssrc).session_encr_key.len() == 16
            } else {
                self.unknown_ssrcs == 0 || self.can_derive_keys()
            },
            Err(_) => true,
        }
    }
}

} // verus!
