//! The RTP header that precedes the payload: fixed part, contributing sources and extension.
use crate::bytes::{
    be_bytes, be_value, law_short_numbers, lemma_be_bytes_len, lemma_be_bytes_of_value,
    lemma_be_roundtrip, lemma_be_value_bound, lemma_pow256, read_u16, read_u32, u16_bytes,
    u32_bytes,
};
use crate::error::ErrorKind;
use vstd::prelude::*;

verus! {

/// The protocol version in the first two bits of an RTP packet.
pub const RTP_VERSION: u8 = 2;

/// A profile-specific header extension.
#[derive(Debug, Clone, PartialEq, Eq)]
pub struct RtpHeaderExtension {
    pub profile_specific: u16,
    /// The extension's data; its length is a multiple of four bytes.
    pub data: Vec<u8>,
}

/// Everything of an RTP packet that precedes its payload.
#[derive(Debug, Clone, PartialEq, Eq)]
pub struct RtpFixedHeader {
    pub padding: bool,
    pub marker: bool,
    /// Seven bits.
    pub payload_type: u8,
    pub seq_num: u16,
    pub timestamp: u32,
    pub ssrc: u32,
    /// At most fifteen contributing sources.
    pub csrc_list: Vec<u32>,
    pub extension: Option<RtpHeaderExtension>,
}

/// What an [`RtpFixedHeader`] says.
pub struct RtpHeader {
    pub padding: bool,
    pub marker: bool,
    pub payload_type: u8,
    pub seq_num: u16,
    pub timestamp: u32,
    pub ssrc: u32,
    pub csrc_list: Seq<u32>,
    pub extension: Option<(u16, Seq<u8>)>,
}

impl View for RtpFixedHeader {
    type V = RtpHeader;

    open spec fn view(&self) -> RtpHeader {
        RtpHeader {
            padding: self.padding,
            marker: self.marker,
            payload_type: self.payload_type,
            seq_num: self.seq_num,
            timestamp: self.timestamp,
            ssrc: self.ssrc,
            csrc_list: self.csrc_list@,
            extension: match self.extension {
                Some(e) => Some((e.profile_specific, e.data@)),
                None => None,
            },
        }
    }
}

/// A flag as the number it is on the wire.
pub open spec fn bit(b: bool) -> int {
    if b {
        1
    } else {
        0
    }
}

/// A list of 32-bit words, one after the other.
pub open spec fn words_bytes(words: Seq<u32>) -> Seq<u8>
    decreases words.len(),
{
    if words.len() == 0 {
        Seq::empty()
    } else {
        words_bytes(words.drop_last()) + be_bytes(words.last() as nat, 4)
    }
}

/// The first `n` 32-bit words of `s`.
pub open spec fn words_of(s: Seq<u8>, n: nat) -> Seq<u32> {
    Seq::new(n, |i: int| be_value(s.subrange(4 * i, 4 * i + 4)) as u32)
}

impl RtpHeader {
    /// Every field fits the place the wire format has for it.
    pub open spec fn valid(self) -> bool {
        &&& self.payload_type < 128
        &&& self.csrc_list.len() <= 15
        &&& self.extension matches Some(e) ==> e.1.len() % 4 == 0 && e.1.len() / 4 <= 0xffff
    }

    /// The first byte: version, padding flag, extension flag, number of contributing sources.
    pub open spec fn first_byte(self) -> int {
        RTP_VERSION * 64 + bit(self.padding) * 32 + bit(self.extension is Some) * 16
            + self.csrc_list.len()
    }

    /// The first twelve bytes.
    pub open spec fn fixed_bytes(self) -> Seq<u8> {
        seq![
            self.first_byte() as u8,
            (bit(self.marker) * 128 + self.payload_type) as u8,
        ] + be_bytes(self.seq_num as nat, 2) + be_bytes(self.timestamp as nat, 4) + be_bytes(
            self.ssrc as nat,
            4,
        )
    }

    /// The extension, its length counted in words.
    pub open spec fn extension_bytes(self) -> Seq<u8> {
        match self.extension {
            Some(e) => be_bytes(e.0 as nat, 2) + be_bytes((e.1.len() / 4) as nat, 2) + e.1,
            None => Seq::empty(),
        }
    }

    /// The header on the wire.
    pub open spec fn encoded(self) -> Seq<u8> {
        self.fixed_bytes() + words_bytes(self.csrc_list) + self.extension_bytes()
    }
}

/// Length of the contributing-source list that the first byte announces.
pub open spec fn csrc_len(s: Seq<u8>) -> int {
    4 * (s[0] % 16)
}

/// Whether the first byte announces an extension.
pub open spec fn has_extension(s: Seq<u8>) -> bool {
    s[0] / 16 % 2 == 1
}

/// Length of the header that the bytes of `s` announce.
pub open spec fn header_len(s: Seq<u8>) -> int {
    12 + csrc_len(s) + if has_extension(s) {
        4 + 4 * be_value(s.subrange(14 + csrc_len(s), 16 + csrc_len(s)))
    } else {
        0
    }
}

/// Whether `s` holds the whole header that it announces.
pub open spec fn header_complete(s: Seq<u8>) -> bool {
    &&& s.len() >= 12 + csrc_len(s)
    &&& has_extension(s) ==> s.len() >= 16 + csrc_len(s)
    &&& s.len() >= header_len(s)
}

/// The header at the start of `s`.
pub open spec fn header_at(s: Seq<u8>) -> RtpHeader {
    RtpHeader {
        padding: s[0] / 32 % 2 == 1,
        marker: s[1] / 128 == 1,
        payload_type: s[1] % 128,
        seq_num: be_value(s.subrange(2, 4)) as u16,
        timestamp: be_value(s.subrange(4, 8)) as u32,
        ssrc: be_value(s.subrange(8, 12)) as u32,
        csrc_list: words_of(s.skip(12), (s[0] % 16) as nat),
        extension: if has_extension(s) {
            Some(
                (
                    be_value(s.subrange(12 + csrc_len(s), 14 + csrc_len(s))) as u16,
                    s.subrange(16 + csrc_len(s), header_len(s)),
                ),
            )
        } else {
            None
        },
    }
}

/// What reading a header from `s` gives: the header and its length.
pub open spec fn parsed(s: Seq<u8>) -> Result<(RtpHeader, int), ErrorKind> {
    if s.len() == 0 {
        Err(ErrorKind::Other)
    } else if s[0] / 64 != RTP_VERSION {
        Err(ErrorKind::Unsupported)
    } else if !header_complete(s) {
        Err(ErrorKind::Other)
    } else {
        Ok((header_at(s), header_len(s)))
    }
}

impl RtpFixedHeader {
    /// Reads the header at the start of `packet`; the second component is its length.
    pub fn read_from(packet: &[u8]) -> (r: Result<(RtpFixedHeader, usize), ErrorKind>)
        ensures
            match r {
                Ok((header, len)) => parsed(packet@) == Ok::<(RtpHeader, int), ErrorKind>(
                    (header@, len as int),
                ) && header@.valid() && 12 <= len <= packet@.len(),
                Err(e) => parsed(packet@) == Err::<(RtpHeader, int), ErrorKind>(e),
            },
    {
        if packet.len() == 0 {
            return Err(ErrorKind::Other);
        }
        let first: u8 = packet[0];
        if first / 64 != RTP_VERSION {
            return Err(ErrorKind::Unsupported);
        }
        let csrc_count: usize = (first % 16) as usize;
        if packet.len() < 12 + 4 * csrc_count {
            return Err(ErrorKind::Other);
        }
        let second: u8 = packet[1];
        let seq_num = match read_u16(packet, 2) {
            Ok(v) => v,
            Err(e) => return Err(e),
        };
        let timestamp = match read_u32(packet, 4) {
            Ok(v) => v,
            Err(e) => return Err(e),
        };
        let ssrc = match read_u32(packet, 8) {
            Ok(v) => v,
            Err(e) => return Err(e),
        };
        let mut csrc_list: Vec<u32> = Vec::new();
        let mut i: usize = 0;
        while i < csrc_count
            invariant
                i <= csrc_count,
                csrc_count <= 15,
                12 + 4 * csrc_count <= packet@.len(),
                csrc_list@ == words_of(packet@.skip(12), i as nat),
            decreases csrc_count - i,
        {
            let word = match read_u32(packet, 12 + 4 * i) {
                Ok(v) => v,
                Err(e) => {
                    assert(false);
                    return Err(e);
                },
            };
            proof {
                assert(packet@.subrange(12 + 4 * i, 12 + 4 * i + 4) =~= packet@.skip(12).subrange(
                    4 * i,
                    4 * i + 4,
                ));
            }
            csrc_list.push(word);
            i = i + 1;
            assert(csrc_list@ =~= words_of(packet@.skip(12), i as nat));
        }
        let mut len: usize = 12 + 4 * csrc_count;
        let extension = if first / 16 % 2 == 1 {
            if packet.len() - len < 4 {
                return Err(ErrorKind::Other);
            }
            let profile_specific = match read_u16(packet, len) {
                Ok(v) => v,
                Err(e) => return Err(e),
            };
            let words = match read_u16(packet, len + 2) {
                Ok(v) => v,
                Err(e) => return Err(e),
            };
            let start: usize = len + 4;
            let data_len: usize = 4 * (words as usize);
            if packet.len() - start < data_len {
                return Err(ErrorKind::Other);
            }
            len = start + data_len;
            Some(
                RtpHeaderExtension {
                    profile_specific,
                    data: vstd::slice::slice_to_vec(&packet[start..len]),
                },
            )
        } else {
            None
        };
        Ok(
            (
                RtpFixedHeader {
                    padding: first / 32 % 2 == 1,
                    marker: second / 128 == 1,
                    payload_type: second % 128,
                    seq_num,
                    timestamp,
                    ssrc,
                    csrc_list,
                    extension,
                },
                len,
            ),
        )
    }

    /// Appends the header to `out`; refuses one whose fields do not fit and then writes nothing.
    pub fn write_to(&self, out: &mut Vec<u8>) -> (r: Result<(), ErrorKind>)
        ensures
            r is Ok <==> self@.valid(),
            r matches Err(e) ==> e == ErrorKind::Invalid && final(out)@ == old(out)@,
            r is Ok ==> final(out)@ == old(out)@ + self@.encoded(),
    {
        if self.payload_type >= 128 || self.csrc_list.len() > 15 {
            return Err(ErrorKind::Invalid);
        }
        if let Some(e) = &self.extension {
            if e.data.len() % 4 != 0 || e.data.len() / 4 > 0xffff {
                return Err(ErrorKind::Invalid);
            }
        }
        let csrc_count: u8 = self.csrc_list.len() as u8;
        let first: u8 = RTP_VERSION * 64 + (if self.padding {
            32
        } else {
            0
        }) + (if self.extension.is_some() {
            16
        } else {
            0
        }) + csrc_count;
        let second: u8 = (if self.marker {
            128u8
        } else {
            0u8
        }) + self.payload_type;
        let ghost start = out@;
        out.push(first);
        out.push(second);
        out.extend_from_slice(&u16_bytes(self.seq_num));
        out.extend_from_slice(&u32_bytes(self.timestamp));
        out.extend_from_slice(&u32_bytes(self.ssrc));
        let ghost fixed = out@;
        let mut i: usize = 0;
        proof {
            assert(self.csrc_list@.take(0) =~= Seq::empty());
            assert(out@ =~= fixed + words_bytes(self.csrc_list@.take(0)));
        }
        while i < self.csrc_list.len()
            invariant
                i <= self.csrc_list@.len(),
                out@ == fixed + words_bytes(self.csrc_list@.take(i as int)),
            decreases self.csrc_list.len() - i,
        {
            let word = u32_bytes(self.csrc_list[i]);
            out.extend_from_slice(&word);
            proof {
                let longer = self.csrc_list@.take(i + 1);
                assert(longer.drop_last() =~= self.csrc_list@.take(i as int));
                assert(out@ =~= fixed + words_bytes(longer));
            }
            i = i + 1;
        }
        assert(self.csrc_list@.take(i as int) =~= self.csrc_list@);
        if let Some(e) = &self.extension {
            out.extend_from_slice(&u16_bytes(e.profile_specific));
            out.extend_from_slice(&u16_bytes((e.data.len() / 4) as u16));
            out.extend_from_slice(e.data.as_slice());
        }
        assert(fixed =~= start + self@.fixed_bytes());
        assert(out@ =~= start + self@.encoded());
        Ok(())
    }
}

/// Two bytes and four bytes spell numbers of their widths, and give the bytes back.
proof fn lemma_field(s: Seq<u8>)
    requires
        s.len() == 2 || s.len() == 4,
    ensures
        s.len() == 2 ==> be_value(s) <= u16::MAX,
        s.len() == 4 ==> be_value(s) <= u32::MAX,
        be_bytes(be_value(s), s.len()) == s,
{
    lemma_be_value_bound(s);
    lemma_pow256();
    lemma_be_bytes_of_value(s);
}

proof fn lemma_words_bytes_len(words: Seq<u32>)
    ensures
        words_bytes(words).len() == 4 * words.len(),
    decreases words.len(),
{
    if words.len() > 0 {
        lemma_words_bytes_len(words.drop_last());
        lemma_be_bytes_len(words.last() as nat, 4);
    }
}

proof fn lemma_words_of_bytes(s: Seq<u8>, n: nat)
    requires
        4 * n <= s.len(),
    ensures
        words_bytes(words_of(s, n)) == s.take(4 * n as int),
    decreases n,
{
    let words = words_of(s, n);
    if n > 0 {
        let m = (n - 1) as nat;
        let field = s.subrange(4 * m as int, 4 * m as int + 4);
        lemma_words_of_bytes(s, m);
        lemma_field(field);
        assert(words.drop_last() =~= words_of(s, m));
        assert(s.take(4 * m as int) + field =~= s.take(4 * n as int));
    } else {
        assert(words_bytes(words) =~= s.take(0));
    }
}

proof fn lemma_bytes_of_words(words: Seq<u32>, rest: Seq<u8>)
    ensures
        words_of(words_bytes(words) + rest, words.len()) == words,
    decreases words.len(),
{
    lemma_words_bytes_len(words);
    if words.len() > 0 {
        let m = (words.len() - 1) as nat;
        let last = be_bytes(words.last() as nat, 4);
        let s = words_bytes(words) + rest;
        lemma_be_bytes_len(words.last() as nat, 4);
        lemma_bytes_of_words(words.drop_last(), last + rest);
        lemma_words_bytes_len(words.drop_last());
        assert(s =~= words_bytes(words.drop_last()) + (last + rest));
        lemma_pow256();
        lemma_be_roundtrip(words.last() as nat, 4);
        assert(s.subrange(4 * m as int, 4 * m as int + 4) =~= last);
        assert forall|i: int| 0 <= i < words.len() implies words_of(s, words.len())[i]
            == words[i] by {
            if i < m {
                assert(words_of(s, m)[i] == words.drop_last()[i]);
            }
        }
        assert(words_of(s, words.len()) =~= words);
    } else {
        assert(words_of(words_bytes(words) + rest, 0) =~= words);
    }
}

/// Writing back a header that was read gives the very bytes it was read from.
pub proof fn law_header_read_then_written(s: Seq<u8>)
    requires
        parsed(s) is Ok,
    ensures
        parsed(s)->Ok_0.0.valid(),
        parsed(s)->Ok_0.0.encoded() == s.take(parsed(s)->Ok_0.1),
{
    let h = header_at(s);
    let n = header_len(s);
    let c = csrc_len(s);
    lemma_field(s.subrange(2, 4));
    lemma_field(s.subrange(4, 8));
    lemma_field(s.subrange(8, 12));
    lemma_words_of_bytes(s.skip(12), (s[0] % 16) as nat);
    assert(words_bytes(h.csrc_list) =~= s.subrange(12, 12 + c));
    assert(h.first_byte() == s[0]);
    assert(h.fixed_bytes() =~= s.take(12));
    if has_extension(s) {
        lemma_field(s.subrange(12 + c, 14 + c));
        lemma_field(s.subrange(14 + c, 16 + c));
        let words = be_value(s.subrange(14 + c, 16 + c));
        assert(h.extension->Some_0.1.len() == 4 * words);
        assert(h.extension_bytes() =~= s.subrange(12 + c, n));
    }
    assert(h.encoded() =~= s.take(n));
}

proof fn lemma_fixed_bytes(h: RtpHeader, rest: Seq<u8>)
    requires
        h.valid(),
    ensures
        h.fixed_bytes().len() == 12,
        ({
            let s = h.fixed_bytes() + rest;
            &&& s[0] / 64 == RTP_VERSION
            &&& (s[0] / 32 % 2 == 1) == h.padding
            &&& has_extension(s) == h.extension is Some
            &&& csrc_len(s) == 4 * h.csrc_list.len()
            &&& s[0] % 16 == h.csrc_list.len()
            &&& (s[1] / 128 == 1) == h.marker
            &&& s[1] % 128 == h.payload_type
            &&& be_value(s.subrange(2, 4)) == h.seq_num
            &&& be_value(s.subrange(4, 8)) == h.timestamp
            &&& be_value(s.subrange(8, 12)) == h.ssrc
        }),
{
    let s = h.fixed_bytes() + rest;
    assert(s[0] == h.first_byte());
    assert(s[1] == bit(h.marker) * 128 + h.payload_type);
    lemma_pow256();
    lemma_be_bytes_len(h.seq_num as nat, 2);
    lemma_be_bytes_len(h.timestamp as nat, 4);
    lemma_be_bytes_len(h.ssrc as nat, 4);
    lemma_be_roundtrip(h.seq_num as nat, 2);
    lemma_be_roundtrip(h.timestamp as nat, 4);
    lemma_be_roundtrip(h.ssrc as nat, 4);
    assert(s.subrange(2, 4) =~= be_bytes(h.seq_num as nat, 2));
    assert(s.subrange(4, 8) =~= be_bytes(h.timestamp as nat, 4));
    assert(s.subrange(8, 12) =~= be_bytes(h.ssrc as nat, 4));
}

proof fn lemma_extension_bytes(h: RtpHeader, rest: Seq<u8>)
    requires
        h.valid(),
        h.extension is Some,
    ensures
        ({
            let e = h.extension->Some_0;
            let s = h.extension_bytes() + rest;
            &&& h.extension_bytes().len() == 4 + e.1.len()
            &&& be_value(s.subrange(0, 2)) == e.0
            &&& 4 * be_value(s.subrange(2, 4)) == e.1.len()
            &&& s.subrange(4, 4 + e.1.len() as int) == e.1
        }),
{
    let e = h.extension->Some_0;
    let s = h.extension_bytes() + rest;
    let words = (e.1.len() / 4) as nat;
    lemma_pow256();
    lemma_be_bytes_len(e.0 as nat, 2);
    lemma_be_bytes_len(words, 2);
    lemma_be_roundtrip(e.0 as nat, 2);
    lemma_be_roundtrip(words, 2);
    assert(s.subrange(0, 2) =~= be_bytes(e.0 as nat, 2));
    assert(s.subrange(2, 4) =~= be_bytes(words, 2));
    assert(s.subrange(4, 4 + e.1.len() as int) =~= e.1);
}

/// Reading a header that was written gives that header, whatever follows it.
pub proof fn law_header_written_then_read(h: RtpHeader, rest: Seq<u8>)
    requires
        h.valid(),
    ensures
        parsed(h.encoded() + rest) == Ok::<(RtpHeader, int), ErrorKind>(
            (h, h.encoded().len() as int),
        ),
{
    let s = h.encoded() + rest;
    let c = 4 * h.csrc_list.len() as int;
    let after = h.extension_bytes() + rest;
    lemma_words_bytes_len(h.csrc_list);
    lemma_fixed_bytes(h, words_bytes(h.csrc_list) + after);
    assert(s =~= h.fixed_bytes() + (words_bytes(h.csrc_list) + after));
    assert(s.skip(12) =~= words_bytes(h.csrc_list) + after);
    lemma_bytes_of_words(h.csrc_list, after);
    assert(s.skip(12 + c) =~= after);
    assert(after.take(h.extension_bytes().len() as int) =~= h.extension_bytes());
    lemma_tail_read(h, s, after);
    assert(header_at(s) == h);
}

/// What follows the contributing sources, read where they end.
proof fn lemma_tail_read(h: RtpHeader, s: Seq<u8>, after: Seq<u8>)
    requires
        h.valid(),
        has_extension(s) == h.extension is Some,
        csrc_len(s) == 4 * h.csrc_list.len(),
        s.len() == 12 + csrc_len(s) + after.len(),
        s.skip(12 + csrc_len(s)) == after,
        after.len() >= h.extension_bytes().len(),
        after.take(h.extension_bytes().len() as int) == h.extension_bytes(),
    ensures
        header_complete(s),
        header_len(s) == 12 + csrc_len(s) + h.extension_bytes().len(),
        header_at(s).extension == h.extension,
{
    let c = csrc_len(s);
    if h.extension is Some {
        let e = h.extension->Some_0;
        let rest = after.skip(h.extension_bytes().len() as int);
        lemma_extension_bytes(h, rest);
        assert(h.extension_bytes() + rest =~= after);
        assert(s.subrange(12 + c, 14 + c) =~= after.subrange(0, 2));
        assert(s.subrange(14 + c, 16 + c) =~= after.subrange(2, 4));
        assert(s.subrange(16 + c, header_len(s)) =~= after.subrange(4, 4 + e.1.len() as int));
    }
}

/// Where the header's fields lie: each is read from its own bytes and bits.
pub proof fn law_header_fields(s: Seq<u8>)
    requires
        parsed(s) is Ok,
    ensures
        ({
            let (h, _) = parsed(s)->Ok_0;
            &&& h.padding == (s[0] / 32 % 2 == 1)
            &&& h.marker == (s[1] >= 128)
            &&& h.payload_type == s[1] % 128
            &&& h.seq_num == s[2] * 0x100 + s[3]
            &&& h.timestamp == s[4] * 0x100_0000 + s[5] * 0x1_0000 + s[6] * 0x100 + s[7]
            &&& h.ssrc == s[8] * 0x100_0000 + s[9] * 0x1_0000 + s[10] * 0x100 + s[11]
            &&& h.csrc_list.len() == s[0] % 16
            &&& (h.extension is Some) == (s[0] / 16 % 2 == 1)
        }),
{
    law_short_numbers(s.subrange(2, 4));
    law_short_numbers(s.subrange(4, 8));
    law_short_numbers(s.subrange(8, 12));
}

/// Each contributing source is its own word after the first twelve bytes.
pub proof fn law_contributing_sources(s: Seq<u8>, k: int)
    requires
        parsed(s) is Ok,
        0 <= k < s[0] % 16,
    ensures
        parsed(s)->Ok_0.0.csrc_list[k] == s[12 + 4 * k] * 0x100_0000 + s[13 + 4 * k] * 0x1_0000
            + s[14 + 4 * k] * 0x100 + s[15 + 4 * k],
{
    assert(s.skip(12).subrange(4 * k, 4 * k + 4) =~= s.subrange(12 + 4 * k, 16 + 4 * k));
    law_short_numbers(s.subrange(12 + 4 * k, 16 + 4 * k));
}

/// Which bytes hold a header, how long it is, what extension it has, and why others do not: no
/// bytes at all or fewer than the first byte and the extension's word count announce are too few,
/// and another version is not supported.
pub proof fn law_header_extent(s: Seq<u8>)
    ensures
        s.len() == 0 ==> parsed(s) == Err::<(RtpHeader, int), ErrorKind>(ErrorKind::Other),
        s.len() > 0 && s[0] / 64 != 2 ==> parsed(s) == Err::<(RtpHeader, int), ErrorKind>(
            ErrorKind::Unsupported,
        ),
        s.len() > 0 && s[0] / 64 == 2 ==> ({
            let end = 12 + 4 * (s[0] % 16);
            let extended = s[0] / 16 % 2 == 1;
            let total = if extended {
                end + 4 + 4 * (s[end + 2] * 0x100 + s[end + 3])
            } else {
                end as int
            };
            &&& s.len() < end || (extended && s.len() < end + 4) || s.len() < total ==> parsed(s)
                == Err::<(RtpHeader, int), ErrorKind>(ErrorKind::Other)
            &&& s.len() >= end && (extended ==> s.len() >= end + 4) && s.len() >= total ==> {
                &&& parsed(s) is Ok
                &&& parsed(s)->Ok_0.1 == total
                &&& extended ==> parsed(s)->Ok_0.0.extension == Some(
                    (
                        (s[end as int] * 0x100 + s[end + 1]) as u16,
                        s.subrange(end + 4, total),
                    ),
                )
            }
        }),
{
    if s.len() > 0 && s[0] / 64 == 2 {
        let c = csrc_len(s);
        if has_extension(s) && s.len() >= 16 + c {
            law_short_numbers(s.subrange(12 + c, 14 + c));
            law_short_numbers(s.subrange(14 + c, 16 + c));
        }
    }
}

/// What a header is known by: every field by its contents.
pub proof fn law_no_field_is_left_out(header: RtpFixedHeader)
    ensures
        header@.padding == header.padding,
        header@.marker == header.marker,
        header@.payload_type == header.payload_type,
        header@.seq_num == header.seq_num,
        header@.timestamp == header.timestamp,
        header@.ssrc == header.ssrc,
        header@.csrc_list == header.csrc_list@,
        header.extension is None ==> header@.extension is None,
        header.extension matches Some(e) ==> header@.extension == Some(
            (e.profile_specific, e.data@),
        ),
{
}

} // verus!
