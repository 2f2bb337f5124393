//! Packet readers and writers that protect what passes through them.
use crate::context::{Context, ContextModel};
use crate::error::ErrorKind;
use crate::protocol::{Protocol, Ssrc};
use crate::rtp::parsed;
use crate::srtcp::{law_srtcp_receiver_keeps_in_step, rtcp_ssrc, srtcp_in_step, Srtcp};
use crate::srtp::{law_srtp_receiver_keeps_in_step, srtp_in_step, Srtp};
use vstd::prelude::*;

verus! {

/// A packet of the RTP family.
pub trait RtpPacket {

}

/// A packet of the RTCP family.
pub trait RtcpPacket {

}

/// Reads packets of one type out of bytes.
pub trait ReadPacket: Sized {
    type Packet;

    /// Whether the reader takes these bytes at all, if only to refuse them. It does unless it says
    /// otherwise.
    open spec fn readable(self, bytes: Seq<u8>) -> bool {
        true
    }

    /// Whether reading these bytes may give `result` and leave the reader as `after`. Anything may
    /// come of it unless the reader says more.
    open spec fn reads(
        self,
        bytes: Seq<u8>,
        result: Result<Self::Packet, ErrorKind>,
        after: Self,
    ) -> bool {
        true
    }

    /// Whether asking the reader if it knows packets of type `ty` may be answered `answer`.
    open spec fn answers(self, ty: u8, answer: bool) -> bool {
        true
    }

    /// Reads one packet; `bytes` holds all of it and nothing else.
    fn read_packet(&mut self, bytes: &[u8]) -> (r: Result<Self::Packet, ErrorKind>)
        requires
            old(self).readable(bytes@),
        ensures
            old(self).reads(bytes@, r, *final(self)),
    ;

    /// Whether the reader knows packets of type `ty`.
    fn supports_type(&self, ty: u8) -> (r: bool)
        ensures
            self.answers(ty, r),
    ;
}

/// Writes packets of one type as bytes.
pub trait WritePacket: Sized {
    type Packet;

    /// Whether the writer takes `packet` at all, if only to refuse it. It does unless it says
    /// otherwise.
    open spec fn writable(self, packet: Self::Packet) -> bool {
        true
    }

    /// Whether writing `packet` may give `result`, append `bytes` and leave the writer as `after`.
    /// Anything may come of it unless the writer says more.
    open spec fn writes(
        self,
        packet: Self::Packet,
        result: Result<(), ErrorKind>,
        bytes: Seq<u8>,
        after: Self,
    ) -> bool {
        true
    }

    /// Appends one packet to `out`.
    fn write_packet(&mut self, out: &mut Vec<u8>, packet: &Self::Packet) -> (r: Result<
        (),
        ErrorKind,
    >)
        requires
            old(self).writable(*packet),
        ensures
            final(out)@.len() >= old(out)@.len(),
            final(out)@.take(old(out)@.len() as int) == old(out)@,
            old(self).writes(
                *packet,
                r,
                final(out)@.skip(old(out)@.len() as int),
                *final(self),
            ),
    ;
}

/// Whether bytes can be received in `context` and what comes out be given to `inner`.
pub open spec fn readable_through<P: Protocol, T: ReadPacket>(
    context: ContextModel<P>,
    inner: T,
    bytes: Seq<u8>,
) -> bool {
    &&& context.has_keys_for(bytes)
    &&& context.incoming_fits(bytes)
    &&& context.incoming(bytes).0 matches Ok(plain) ==> inner.readable(plain)
}

/// Whether reading bytes through `context` may give `result`: they are received in the context,
/// and `inner` reads what comes out.
pub open spec fn reads_through<P: Protocol, T: ReadPacket>(
    context: ContextModel<P>,
    inner: T,
    bytes: Seq<u8>,
    result: Result<T::Packet, ErrorKind>,
    context_after: ContextModel<P>,
    inner_after: T,
) -> bool {
    &&& context_after == context.incoming(bytes).1
    &&& match context.incoming(bytes).0 {
        Ok(plain) => inner.reads(plain, result, inner_after),
        Err(e) => result == Err::<T::Packet, ErrorKind>(e) && inner_after == inner,
    }
}

/// Whether whatever `inner` makes of `packet` can be sent in `context`.
pub open spec fn writable_through<P: Protocol, T: WritePacket>(
    context: ContextModel<P>,
    inner: T,
    packet: T::Packet,
) -> bool {
    &&& inner.writable(packet)
    &&& forall|plain: Seq<u8>, inner_after: T| #[trigger]
        inner.writes(packet, Ok(()), plain, inner_after) ==> context.has_keys_for(plain)
}

/// Whether writing `packet` through `context` may give `result` and append `bytes`: `inner` makes
/// `plain` of the packet, which is sent in the context; what comes out is appended.
pub open spec fn writes_through<P: Protocol, T: WritePacket>(
    context: ContextModel<P>,
    inner: T,
    packet: T::Packet,
    result: Result<(), ErrorKind>,
    bytes: Seq<u8>,
    context_after: ContextModel<P>,
    inner_after: T,
) -> bool {
    exists|plain: Seq<u8>, made: Result<(), ErrorKind>|
        {
            &&& #[trigger] inner.writes(packet, made, plain, inner_after)
            &&& match made {
                Ok(()) => {
                    &&& context_after == context.outgoing(plain).1
                    &&& match context.outgoing(plain).0 {
                        Ok(cipher) => result is Ok && bytes == cipher,
                        Err(e) => result == Err::<(), ErrorKind>(e) && bytes.len() == 0,
                    }
                },
                Err(_) => {
                    &&& context_after == context
                    &&& result == made
                    &&& bytes.len() == 0
                },
            }
        }
}

/// Whether `inner` may make something of `packet` that cannot be sent in `context`.
pub open spec fn unkeyed_through<P: Protocol, T: WritePacket>(
    context: ContextModel<P>,
    inner: T,
    packet: T::Packet,
    inner_after: T,
) -> bool {
    exists|plain: Seq<u8>| #[trigger]
        inner.writes(packet, Ok(()), plain, inner_after) && !context.has_keys_for(plain)
}

/// Receives bytes in `context` and has `inner` read what comes out.
fn read_through<P: Protocol, T: ReadPacket>(
    context: &mut Context<P>,
    inner: &mut T,
    bytes: &[u8],
) -> (r: Result<T::Packet, ErrorKind>)
    requires
        readable_through(old(context)@, *old(inner), bytes@),
    ensures
        reads_through(old(context)@, *old(inner), bytes@, r, final(context)@, *final(inner)),
{
    match context.process_incoming(bytes) {
        Ok(plain) => inner.read_packet(plain.as_slice()),
        Err(e) => Err(e),
    }
}

/// Has `inner` make bytes of `packet`, sends them in `context` and appends what comes out. `None`
/// where the context cannot send what `inner` made; nothing is appended then.
fn try_write_through<P: Protocol, T: WritePacket>(
    context: &mut Context<P>,
    inner: &mut T,
    out: &mut Vec<u8>,
    packet: &T::Packet,
) -> (r: Option<Result<(), ErrorKind>>)
    requires
        old(inner).writable(*packet),
    ensures
        final(out)@.len() >= old(out)@.len(),
        final(out)@.take(old(out)@.len() as int) == old(out)@,
        r matches Some(outcome) ==> writes_through(
            old(context)@,
            *old(inner),
            *packet,
            outcome,
            final(out)@.skip(old(out)@.len() as int),
            final(context)@,
            *final(inner),
        ),
        r is None ==> final(out)@ == old(out)@ && *final(context) == *old(context),
        r is None ==> unkeyed_through(old(context)@, *old(inner), *packet, *final(inner)),
{
    let ghost before = out@;
    let mut plain: Vec<u8> = Vec::new();
    let made = inner.write_packet(&mut plain, packet);
    proof {
        assert(plain@.skip(0) =~= plain@);
        assert(before.skip(before.len() as int) =~= Seq::empty());
    }
    match made {
        Ok(()) => {},
        Err(e) => return Some(Err(e)),
    }
    assert(made->Ok_0 == ());
    if !context.fits_outgoing(plain.as_slice()) {
        return None;
    }
    match context.process_outgoing(plain.as_slice()) {
        Ok(mut cipher) => {
            let ghost bytes = cipher@;
            out.append(&mut cipher);
            proof {
                assert(out@.skip(before.len() as int) =~= bytes);
                assert(out@.take(before.len() as int) =~= before);
            }
            Some(Ok(()))
        },
        Err(e) => Some(Err(e)),
    }
}

/// Wraps an inner RTP packet reader, transparently decrypting SRTP packets.
#[derive(Debug, Clone, PartialEq, Eq)]
pub struct SrtpPacketReader<T> {
    context: Context<Srtp>,
    inner: T,
}

impl<T> SrtpPacketReader<T> {
    /// The context that packets are received in.
    pub closed spec fn context(self) -> ContextModel<Srtp> {
        self.context@
    }

    /// The reader that is given the decrypted packets.
    pub closed spec fn inner(self) -> T {
        self.inner
    }
}

impl<T> SrtpPacketReader<T> where T: ReadPacket, T::Packet: RtpPacket {
    pub fn new(context: Context<Srtp>, inner: T) -> (r: Self)
        ensures
            r.context() == context@,
            r.inner() == inner,
    {
        SrtpPacketReader { context, inner }
    }

    /// `read_packet` for any bytes, for an inner reader that takes all bytes. `None` where the
    /// context cannot receive them; nothing changes then.
    pub fn try_read_packet(&mut self, bytes: &[u8]) -> (r: Option<Result<T::Packet, ErrorKind>>)
        requires
            forall|plain: Seq<u8>| #[trigger] old(self).inner().readable(plain),
        ensures
            r is Some <==> old(self).context().has_keys_for(bytes@) && old(
                self,
            ).context().incoming_fits(bytes@),
            r matches Some(outcome) ==> old(self).reads(bytes@, outcome, *final(self)),
            r is None ==> *final(self) == *old(self),
    {
        if self.context.fits_incoming(bytes) {
            Some(self.read_packet(bytes))
        } else {
            None
        }
    }
}

impl<T> ReadPacket for SrtpPacketReader<T> where T: ReadPacket, T::Packet: RtpPacket {
    type Packet = T::Packet;

    open spec fn readable(self, bytes: Seq<u8>) -> bool {
        readable_through(self.context(), self.inner(), bytes)
    }

    open spec fn reads(
        self,
        bytes: Seq<u8>,
        result: Result<T::Packet, ErrorKind>,
        after: Self,
    ) -> bool {
        reads_through(self.context(), self.inner(), bytes, result, after.context(), after.inner())
    }

    open spec fn answers(self, ty: u8, answer: bool) -> bool {
        self.inner().answers(ty, answer)
    }

    fn read_packet(&mut self, bytes: &[u8]) -> Result<T::Packet, ErrorKind> {
        read_through(&mut self.context, &mut self.inner, bytes)
    }

    fn supports_type(&self, ty: u8) -> bool {
        self.inner.supports_type(ty)
    }
}

/// Wraps an inner RTP packet writer, transparently encrypting to SRTP.
#[derive(Debug, Clone, PartialEq, Eq)]
pub struct SrtpPacketWriter<T> {
    context: Context<Srtp>,
    inner: T,
}

impl<T> SrtpPacketWriter<T> {
    /// The context that packets are sent in.
    pub closed spec fn context(self) -> ContextModel<Srtp> {
        self.context@
    }

    /// The writer that makes the packets to be encrypted.
    pub closed spec fn inner(self) -> T {
        self.inner
    }
}

impl<T> SrtpPacketWriter<T> where T: WritePacket, T::Packet: RtpPacket {
    pub fn new(context: Context<Srtp>, inner: T) -> (r: Self)
        ensures
            r.context() == context@,
            r.inner() == inner,
    {
        SrtpPacketWriter { context, inner }
    }

    /// `write_packet` for any context. `None` where it cannot send what the inner writer made of
    /// the packet; nothing is appended then.
    pub fn try_write_packet(&mut self, out: &mut Vec<u8>, packet: &T::Packet) -> (r: Option<
        Result<(), ErrorKind>,
    >)
        requires
            old(self).inner().writable(*packet),
        ensures
            final(out)@.len() >= old(out)@.len(),
            final(out)@.take(old(out)@.len() as int) == old(out)@,
            r matches Some(outcome) ==> old(self).writes(
                *packet,
                outcome,
                final(out)@.skip(old(out)@.len() as int),
                *final(self),
            ),
            r is None ==> final(out)@ == old(out)@ && final(self).context() == old(self).context(),
            r is None ==> unkeyed_through(
                old(self).context(),
                old(self).inner(),
                *packet,
                final(self).inner(),
            ),
    {
        try_write_through(&mut self.context, &mut self.inner, out, packet)
    }
}

impl<T> WritePacket for SrtpPacketWriter<T> where T: WritePacket, T::Packet: RtpPacket {
    type Packet = T::Packet;

    open spec fn writable(self, packet: T::Packet) -> bool {
        writable_through(self.context(), self.inner(), packet)
    }

    open spec fn writes(
        self,
        packet: T::Packet,
        result: Result<(), ErrorKind>,
        bytes: Seq<u8>,
        after: Self,
    ) -> bool {
        writes_through(
            self.context(),
            self.inner(),
            packet,
            result,
            bytes,
            after.context(),
            after.inner(),
        )
    }

    fn write_packet(&mut self, out: &mut Vec<u8>, packet: &T::Packet) -> Result<(), ErrorKind> {
        self.try_write_packet(out, packet).unwrap()
    }
}

/// Wraps an inner RTCP packet reader, transparently decrypting SRTCP packets.
#[derive(Debug, Clone, PartialEq, Eq)]
pub struct SrtcpPacketReader<T> {
    context: Context<Srtcp>,
    inner: T,
}

impl<T> SrtcpPacketReader<T> {
    /// The context that packets are received in.
    pub closed spec fn context(self) -> ContextModel<Srtcp> {
        self.context@
    }

    /// The reader that is given the decrypted packets.
    pub closed spec fn inner(self) -> T {
        self.inner
    }
}

impl<T> SrtcpPacketReader<T> where T: ReadPacket, T::Packet: RtcpPacket {
    pub fn new(context: Context<Srtcp>, inner: T) -> (r: Self)
        ensures
            r.context() == context@,
            r.inner() == inner,
    {
        SrtcpPacketReader { context, inner }
    }

    /// `read_packet` for any bytes, for an inner reader that takes all bytes. `None` where the
    /// context cannot receive them; nothing changes then.
    pub fn try_read_packet(&mut self, bytes: &[u8]) -> (r: Option<Result<T::Packet, ErrorKind>>)
        requires
            forall|plain: Seq<u8>| #[trigger] old(self).inner().readable(plain),
        ensures
            r is Some <==> old(self).context().has_keys_for(bytes@) && old(
                self,
            ).context().incoming_fits(bytes@),
            r matches Some(outcome) ==> old(self).reads(bytes@, outcome, *final(self)),
            r is None ==> *final(self) == *old(self),
    {
        if self.context.fits_incoming(bytes) {
            Some(self.read_packet(bytes))
        } else {
            None
        }
    }
}

impl<T> ReadPacket for SrtcpPacketReader<T> where T: ReadPacket, T::Packet: RtcpPacket {
    type Packet = T::Packet;

    open spec fn readable(self, bytes: Seq<u8>) -> bool {
        readable_through(self.context(), self.inner(), bytes)
    }

    open spec fn reads(
        self,
        bytes: Seq<u8>,
        result: Result<T::Packet, ErrorKind>,
        after: Self,
    ) -> bool {
        reads_through(self.context(), self.inner(), bytes, result, after.context(), after.inner())
    }

    open spec fn answers(self, ty: u8, answer: bool) -> bool {
        self.inner().answers(ty, answer)
    }

    fn read_packet(&mut self, bytes: &[u8]) -> Result<T::Packet, ErrorKind> {
        read_through(&mut self.context, &mut self.inner, bytes)
    }

    fn supports_type(&self, ty: u8) -> bool {
        self.inner.supports_type(ty)
    }
}

/// Wraps an inner RTCP packet writer, transparently encrypting to SRTCP.
#[derive(Debug, Clone, PartialEq, Eq)]
pub struct SrtcpPacketWriter<T> {
    context: Context<Srtcp>,
    inner: T,
}

impl<T> SrtcpPacketWriter<T> {
    /// The context that packets are sent in.
    pub closed spec fn context(self) -> ContextModel<Srtcp> {
        self.context@
    }

    /// The writer that makes the packets to be encrypted.
    pub closed spec fn inner(self) -> T {
        self.inner
    }
}

impl<T> SrtcpPacketWriter<T> where T: WritePacket, T::Packet: RtcpPacket {
    pub fn new(context: Context<Srtcp>, inner: T) -> (r: Self)
        ensures
            r.context() == context@,
            r.inner() == inner,
    {
        SrtcpPacketWriter { context, inner }
    }

    /// `write_packet` for any context. `None` where it cannot send what the inner writer made of
    /// the packet; nothing is appended then.
    pub fn try_write_packet(&mut self, out: &mut Vec<u8>, packet: &T::Packet) -> (r: Option<
        Result<(), ErrorKind>,
    >)
        requires
            old(self).inner().writable(*packet),
        ensures
            final(out)@.len() >= old(out)@.len(),
            final(out)@.take(old(out)@.len() as int) == old(out)@,
            r matches Some(outcome) ==> old(self).writes(
                *packet,
                outcome,
                final(out)@.skip(old(out)@.len() as int),
                *final(self),
            ),
            r is None ==> final(out)@ == old(out)@ && final(self).context() == old(self).context(),
            r is None ==> unkeyed_through(
                old(self).context(),
                old(self).inner(),
                *packet,
                final(self).inner(),
            ),
    {
        try_write_through(&mut self.context, &mut self.inner, out, packet)
    }
}

impl<T> WritePacket for SrtcpPacketWriter<T> where T: WritePacket, T::Packet: RtcpPacket {
    type Packet = T::Packet;

    open spec fn writable(self, packet: T::Packet) -> bool {
        writable_through(self.context(), self.inner(), packet)
    }

    open spec fn writes(
        self,
        packet: T::Packet,
        result: Result<(), ErrorKind>,
        bytes: Seq<u8>,
        after: Self,
    ) -> bool {
        writes_through(
            self.context(),
            self.inner(),
            packet,
            result,
            bytes,
            after.context(),
            after.inner(),
        )
    }

    fn write_packet(&mut self, out: &mut Vec<u8>, packet: &T::Packet) -> Result<(), ErrorKind> {
        self.try_write_packet(out, packet).unwrap()
    }
}

/// Protection is transparent: what a writer wraps, a reader that follows it unwraps. The inner
/// reader is given the very bytes that the inner writer made.
pub proof fn law_srtp_reader_undoes_writer<W, R>(
    writer: SrtpPacketWriter<W>,
    packet: W::Packet,
    bytes: Seq<u8>,
    written: SrtpPacketWriter<W>,
    reader: SrtpPacketReader<R>,
    result: Result<R::Packet, ErrorKind>,
    read: SrtpPacketReader<R>,
) where W: WritePacket, W::Packet: RtpPacket, R: ReadPacket, R::Packet: RtpPacket
    requires
        writer.context().auth_tag_len <= 20,
        forall|plain: Seq<u8>|
            #![trigger parsed(plain)]
            parsed(plain) is Ok && writer.inner().writes(
                packet,
                Ok(()),
                plain,
                written.inner(),
            ) ==> {
                let (h, _) = parsed(plain)->Ok_0;
                let state = writer.context().stream_of(h.ssrc).state;
                &&& srtp_in_step(writer.context(), reader.context(), h.ssrc)
                &&& state.estimated_index(h.seq_num) > state.highest_index()
            },
        writer.writes(packet, Ok(()), bytes, written),
        reader.reads(bytes, result, read),
    ensures
        exists|plain: Seq<u8>| #[trigger]
            writer.inner().writes(packet, Ok(()), plain, written.inner()) && reader.inner().reads(
                plain,
                result,
                read.inner(),
            ),
{
    let (plain, made) = choose|plain: Seq<u8>, made: Result<(), ErrorKind>|
        {
            &&& #[trigger] writer.inner().writes(packet, made, plain, written.inner())
            &&& made is Ok
            &&& writer.context().outgoing(plain).0 == Ok::<Seq<u8>, ErrorKind>(bytes)
        };
    assert(made->Ok_0 == ());
    assert(parsed(plain) is Ok);
    law_srtp_receiver_keeps_in_step(writer.context(), reader.context(), plain);
}

/// Protection is transparent: what a writer wraps, a reader that follows it unwraps. The inner
/// reader is given the very bytes that the inner writer made.
pub proof fn law_srtcp_reader_undoes_writer<W, R>(
    writer: SrtcpPacketWriter<W>,
    packet: W::Packet,
    bytes: Seq<u8>,
    written: SrtcpPacketWriter<W>,
    reader: SrtcpPacketReader<R>,
    result: Result<R::Packet, ErrorKind>,
    read: SrtcpPacketReader<R>,
) where W: WritePacket, W::Packet: RtcpPacket, R: ReadPacket, R::Packet: RtcpPacket
    requires
        writer.context().auth_tag_len <= 20,
        forall|plain: Seq<u8>|
            #![trigger rtcp_ssrc(plain)]
            plain.len() >= 8 && writer.inner().writes(packet, Ok(()), plain, written.inner()) ==> {
                let ssrc = rtcp_ssrc(plain);
                &&& srtcp_in_step(writer.context(), reader.context(), ssrc)
                &&& writer.context().stream_of(ssrc).state.highest_sent_index + 1 < 0x8000_0000
            },
        writer.writes(packet, Ok(()), bytes, written),
        reader.reads(bytes, result, read),
    ensures
        exists|plain: Seq<u8>| #[trigger]
            writer.inner().writes(packet, Ok(()), plain, written.inner()) && reader.inner().reads(
                plain,
                result,
                read.inner(),
            ),
{
    let (plain, made) = choose|plain: Seq<u8>, made: Result<(), ErrorKind>|
        {
            &&& #[trigger] writer.inner().writes(packet, made, plain, written.inner())
            &&& made is Ok
            &&& writer.context().outgoing(plain).0 == Ok::<Seq<u8>, ErrorKind>(bytes)
        };
    assert(made->Ok_0 == ());
    assert(Srtcp::ssrc_of(plain) == Ok::<Ssrc, ErrorKind>(rtcp_ssrc(plain)));
    law_srtcp_receiver_keeps_in_step(writer.context(), reader.context(), plain);
}

/// What reading gives: bytes that the context refuses are refused for the same reason and the
/// inner reader does not see them; of bytes that it accepts, the inner reader is given exactly
/// what came out, and its answer is the answer. The context is left as receiving leaves it. What
/// types are known, the inner reader says.
pub proof fn law_srtp_reader_passes_on<T>(
    reader: SrtpPacketReader<T>,
    bytes: Seq<u8>,
    result: Result<T::Packet, ErrorKind>,
    after: SrtpPacketReader<T>,
    ty: u8,
    answer: bool,
) where T: ReadPacket, T::Packet: RtpPacket
    requires
        reader.reads(bytes, result, after),
        reader.answers(ty, answer),
    ensures
        after.context() == reader.context().incoming(bytes).1,
        reader.context().incoming(bytes).0 matches Err(e) ==> result == Err::<T::Packet, ErrorKind>(
            e,
        ) && after.inner() == reader.inner(),
        reader.context().incoming(bytes).0 matches Ok(plain) ==> reader.inner().reads(
            plain,
            result,
            after.inner(),
        ),
        reader.inner().answers(ty, answer),
{
}

/// What writing gives: nothing is appended unless it succeeds, and then exactly what came out of
/// sending the bytes that the inner writer made. An error is the inner writer's, and then the
/// context is as it was, or the context's for the bytes that the inner writer made.
pub proof fn law_srtp_writer_passes_on<T>(
    writer: SrtpPacketWriter<T>,
    packet: T::Packet,
    result: Result<(), ErrorKind>,
    bytes: Seq<u8>,
    after: SrtpPacketWriter<T>,
) -> (made: (Seq<u8>, Result<(), ErrorKind>)) where T: WritePacket, T::Packet: RtpPacket
    requires
        writer.writes(packet, result, bytes, after),
    ensures
        writer.inner().writes(packet, made.1, made.0, after.inner()),
        result is Err ==> bytes.len() == 0,
        result is Ok ==> made.1 is Ok,
        made.1 is Err ==> result == made.1 && after.context() == writer.context(),
        made.1 is Ok ==> after.context() == writer.context().outgoing(made.0).1,
        made.1 is Ok ==> match writer.context().outgoing(made.0).0 {
            Ok(cipher) => result is Ok && bytes == cipher,
            Err(e) => result == Err::<(), ErrorKind>(e),
        },
{
    let (plain, outcome) = choose|plain: Seq<u8>, outcome: Result<(), ErrorKind>|
        {
            &&& #[trigger] writer.inner().writes(packet, outcome, plain, after.inner())
            &&& outcome is Ok ==> after.context() == writer.context().outgoing(plain).1
            &&& outcome is Ok ==> match writer.context().outgoing(plain).0 {
                Ok(cipher) => result is Ok && bytes == cipher,
                Err(e) => result == Err::<(), ErrorKind>(e) && bytes.len() == 0,
            }
            &&& outcome is Err ==> result == outcome && after.context() == writer.context()
                && bytes.len() == 0
        };
    (plain, outcome)
}

/// What reading gives: bytes that the context refuses are refused for the same reason and the
/// inner reader does not see them; of bytes that it accepts, the inner reader is given exactly
/// what came out, and its answer is the answer. The context is left as receiving leaves it. What
/// types are known, the inner reader says.
pub proof fn law_srtcp_reader_passes_on<T>(
    reader: SrtcpPacketReader<T>,
    bytes: Seq<u8>,
    result: Result<T::Packet, ErrorKind>,
    after: SrtcpPacketReader<T>,
    ty: u8,
    answer: bool,
) where T: ReadPacket, T::Packet: RtcpPacket
    requires
        reader.reads(bytes, result, after),
        reader.answers(ty, answer),
    ensures
        after.context() == reader.context().incoming(bytes).1,
        reader.context().incoming(bytes).0 matches Err(e) ==> result == Err::<T::Packet, ErrorKind>(
            e,
        ) && after.inner() == reader.inner(),
        reader.context().incoming(bytes).0 matches Ok(plain) ==> reader.inner().reads(
            plain,
            result,
            after.inner(),
        ),
        reader.inner().answers(ty, answer),
{
}

/// What writing gives: nothing is appended unless it succeeds, and then exactly what came out of
/// sending the bytes that the inner writer made. An error is the inner writer's, and then the
/// context is as it was, or the context's for the bytes that the inner writer made.
pub proof fn law_srtcp_writer_passes_on<T>(
    writer: SrtcpPacketWriter<T>,
    packet: T::Packet,
    result: Result<(), ErrorKind>,
    bytes: Seq<u8>,
    after: SrtcpPacketWriter<T>,
) -> (made: (Seq<u8>, Result<(), ErrorKind>)) where T: WritePacket, T::Packet: RtcpPacket
    requires
        writer.writes(packet, result, bytes, after),
    ensures
        writer.inner().writes(packet, made.1, made.0, after.inner()),
        result is Err ==> bytes.len() == 0,
        result is Ok ==> made.1 is Ok,
        made.1 is Err ==> result == made.1 && after.context() == writer.context(),
        made.1 is Ok ==> after.context() == writer.context().outgoing(made.0).1,
        made.1 is Ok ==> match writer.context().outgoing(made.0).0 {
            Ok(cipher) => result is Ok && bytes == cipher,
            Err(e) => result == Err::<(), ErrorKind>(e),
        },
{
    let (plain, outcome) = choose|plain: Seq<u8>, outcome: Result<(), ErrorKind>|
        {
            &&& #[trigger] writer.inner().writes(packet, outcome, plain, after.inner())
            &&& outcome is Ok ==> after.context() == writer.context().outgoing(plain).1
            &&& outcome is Ok ==> match writer.context().outgoing(plain).0 {
                Ok(cipher) => result is Ok && bytes == cipher,
                Err(e) => result == Err::<(), ErrorKind>(e) && bytes.len() == 0,
            }
            &&& outcome is Err ==> result == outcome && after.context() == writer.context()
                && bytes.len() == 0
        };
    (plain, outcome)
}

/// A reader takes all bytes that its context can receive, if the inner reader takes what comes
/// out; a writer takes every packet that the inner writer takes, if its context has the keys for
/// whatever that makes of it. It gives up only where the context has not.
pub proof fn law_srtp_io_takes_all_it_can<R, W>(
    reader: SrtpPacketReader<R>,
    bytes: Seq<u8>,
    writer: SrtpPacketWriter<W>,
    packet: W::Packet,
    inner_after: W,
) where R: ReadPacket, R::Packet: RtpPacket, W: WritePacket, W::Packet: RtpPacket
    ensures
        reader.context().has_keys_for(bytes) && reader.context().incoming_fits(bytes) && (
        reader.context().incoming(bytes).0 matches Ok(plain) ==> reader.inner().readable(plain))
            ==> reader.readable(bytes),
        writer.inner().writable(packet) && (forall|plain: Seq<u8>, after: W| #[trigger]
            writer.inner().writes(packet, Ok(()), plain, after) ==> writer.context().has_keys_for(
                plain,
            )) ==> writer.writable(packet) && !unkeyed_through(
            writer.context(),
            writer.inner(),
            packet,
            inner_after,
        ),
{
}

/// A reader takes all bytes that its context can receive, if the inner reader takes what comes
/// out; a writer takes every packet that the inner writer takes, if its context has the keys for
/// whatever that makes of it. It gives up only where the context has not.
pub proof fn law_srtcp_io_takes_all_it_can<R, W>(
    reader: SrtcpPacketReader<R>,
    bytes: Seq<u8>,
    writer: SrtcpPacketWriter<W>,
    packet: W::Packet,
    inner_after: W,
) where R: ReadPacket, R::Packet: RtcpPacket, W: WritePacket, W::Packet: RtcpPacket
    ensures
        reader.context().has_keys_for(bytes) && reader.context().incoming_fits(bytes) && (
        reader.context().incoming(bytes).0 matches Ok(plain) ==> reader.inner().readable(plain))
            ==> reader.readable(bytes),
        writer.inner().writable(packet) && (forall|plain: Seq<u8>, after: W| #[trigger]
            writer.inner().writes(packet, Ok(()), plain, after) ==> writer.context().has_keys_for(
                plain,
            )) ==> writer.writable(packet) && !unkeyed_through(
            writer.context(),
            writer.inner(),
            packet,
            inner_after,
        ),
{
}

} // verus!
