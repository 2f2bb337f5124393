//! What protected packets look like on the wire, byte by byte: session keys, keystream, tag, and
//! the packets that the two protocols make and take.
use crate::bytes::{
    be_bytes, be_value, law_bytes_are_digits, law_short_numbers, lemma_be_bytes_len,
    lemma_be_bytes_of_value, lemma_be_roundtrip, lemma_be_value_of_bytes, lemma_pow256,
    lemma_xor_involution,
};
use crate::context::{derivation_period, ContextModel};
use crate::crypto::{
    aes128_block, counter_block, ctr_xor, derivation_input, hmac_sha1, key_id,
    law_derivation_blocks_are_distinct, law_keystream_blocks_are_distinct, packet_id, packet_iv,
    padded_salt, prf, prf_block,
};
use crate::error::ErrorKind;
use crate::protocol::{Protocol, Ssrc};
use crate::rtp::parsed;
use crate::srtcp::{index_word_at, rtcp_ssrc, Srtcp};
use crate::srtp::{law_highest_index_moves_up_only, roc_of, Srtp};
use crate::stream::StreamModel;
use vstd::arithmetic::power::pow;
use vstd::arithmetic::power2::pow2;
use vstd::prelude::*;

verus! {

/// Every byte of a payload is XORed with one keystream byte: byte `i % 16` of the AES encryption,
/// under the session encryption key, of the 128-bit number `iv + i / 16`. `iv` holds the salt in
/// its first fourteen bytes, XORed with the source in bytes 4 to 7 and with all 48 bits of the
/// index in bytes 8 to 13.
pub proof fn law_payload_bytes<P>(
    stream: StreamModel<P>,
    data: Seq<u8>,
    ssrc: u32,
    index: u64,
    iv: Seq<u8>,
    block: Seq<u8>,
    i: int,
)
    requires
        0 <= i < data.len(),
        iv.len() == 16,
        forall|j: int|
            0 <= j < 16 ==> #[trigger] iv[j] == (if j < 14 && j < stream.salt_key.len() {
                stream.salt_key[j]
            } else {
                0u8
            }) ^ (if 4 <= j < 8 {
                (ssrc as int / pow(256, (7 - j) as nat) % 256) as u8
            } else if 8 <= j < 14 {
                (index as int / pow(256, (13 - j) as nat) % 256) as u8
            } else {
                0u8
            }),
        block.len() == 16,
        be_value(block) == (be_value(iv) + i / 16) % pow(256, 16),
    ensures
        stream.keystreamed(data, ssrc, index).len() == data.len(),
        stream.keystreamed(data, ssrc, index)[i] == data[i] ^ aes128_block(
            stream.encr_key,
            block,
        )[i % 16],
{
    law_packet_iv_bytes(stream.salt_key, ssrc, index as nat);
    assert(iv =~= packet_iv(stream.salt_key, ssrc, index as nat));
    lemma_counter_block(iv, (i / 16) as nat, block);
}

/// The bytes of a packet's initialisation vector: the salt in the first fourteen, XORed with the
/// source in bytes 4 to 7 and with all 48 bits of the index in bytes 8 to 13.
pub proof fn law_packet_iv_bytes(salt: Seq<u8>, ssrc: u32, index: nat)
    ensures
        packet_iv(salt, ssrc, index).len() == 16,
        forall|j: int|
            0 <= j < 16 ==> #[trigger] packet_iv(salt, ssrc, index)[j] == (if j < 14 && j
                < salt.len() {
                salt[j]
            } else {
                0u8
            }) ^ (if 4 <= j < 8 {
                (ssrc as int / pow(256, (7 - j) as nat) % 256) as u8
            } else if 8 <= j < 14 {
                (index as int / pow(256, (13 - j) as nat) % 256) as u8
            } else {
                0u8
            }),
{
    lemma_be_bytes_len(ssrc as nat, 4);
    lemma_be_bytes_len(index, 6);
    assert forall|j: int| 0 <= j < 16 implies #[trigger] packet_iv(salt, ssrc, index)[j] == (if j
        < 14 && j < salt.len() {
        salt[j]
    } else {
        0u8
    }) ^ (if 4 <= j < 8 {
        (ssrc as int / pow(256, (7 - j) as nat) % 256) as u8
    } else if 8 <= j < 14 {
        (index as int / pow(256, (13 - j) as nat) % 256) as u8
    } else {
        0u8
    }) by {
        if 4 <= j < 8 {
            law_bytes_are_digits(ssrc as nat, 4, j - 4);
            assert(packet_id(ssrc, index)[j] == be_bytes(ssrc as nat, 4)[j - 4]);
        } else if 8 <= j < 14 {
            law_bytes_are_digits(index, 6, j - 8);
            assert(packet_id(ssrc, index)[j] == be_bytes(index, 6)[j - 8]);
        }
        assert(padded_salt(salt)[j] == if j < 14 && j < salt.len() {
            salt[j]
        } else {
            0u8
        });
    }
}

/// The counter block of a number of steps is the only one of its value.
proof fn lemma_counter_block(iv: Seq<u8>, steps: nat, block: Seq<u8>)
    requires
        iv.len() == 16,
        block.len() == 16,
        be_value(block) == (be_value(iv) + steps) as int % pow(256, 16),
    ensures
        counter_block(iv, steps) == block,
{
    let v = be_value(iv) + steps;
    lemma_be_value_of_bytes(v, 16);
    lemma_be_bytes_of_value(block);
    lemma_be_bytes_len(v, 16);
    lemma_be_bytes_of_value(be_bytes(v, 16));
}

/// Counter mode XORs byte `i` with byte `i % 16` of the AES encryption of `iv + i / 16`, a sum of
/// 128-bit numbers that wraps, and keeps the length.
pub proof fn law_counter_mode_bytes(
    key: Seq<u8>,
    iv: Seq<u8>,
    data: Seq<u8>,
    block: Seq<u8>,
    i: int,
)
    requires
        iv.len() == 16,
        block.len() == 16,
        0 <= i < data.len() ==> be_value(block) == (be_value(iv) + i / 16) % pow(256, 16),
    ensures
        ctr_xor(key, iv, data).len() == data.len(),
        0 <= i < data.len() ==> ctr_xor(key, iv, data)[i] == data[i] ^ aes128_block(key, block)[i
            % 16],
{
    if 0 <= i < data.len() {
        lemma_counter_block(iv, (i / 16) as nat, block);
    }
}

/// A payload keeps its length under the keystream.
pub proof fn law_payload_length<P>(
    stream: StreamModel<P>,
    data: Seq<u8>,
    ssrc: u32,
    index: u64,
)
    ensures
        stream.keystreamed(data, ssrc, index).len() == data.len(),
{
}

/// No two payload bytes of different packets or of different blocks of one packet are XORed with
/// bytes of one AES block, if they are sent under one key and salt: the blocks differ wherever the
/// source, the 48-bit index or the block's position does. Positions are counted up to `2^16`
/// blocks.
pub proof fn law_payloads_share_no_keystream<P>(
    stream: StreamModel<P>,
    data1: Seq<u8>,
    ssrc1: u32,
    index1: u64,
    i1: int,
    data2: Seq<u8>,
    ssrc2: u32,
    index2: u64,
    i2: int,
) -> (blocks: (Seq<u8>, Seq<u8>))
    requires
        0 <= i1 < data1.len(),
        0 <= i2 < data2.len(),
        i1 / 16 < 0x1_0000,
        i2 / 16 < 0x1_0000,
        index1 < 0x1_0000_0000_0000,
        index2 < 0x1_0000_0000_0000,
        ssrc1 != ssrc2 || index1 != index2 || i1 / 16 != i2 / 16,
    ensures
        blocks.0 != blocks.1,
        stream.keystreamed(data1, ssrc1, index1)[i1] == data1[i1] ^ aes128_block(
            stream.encr_key,
            blocks.0,
        )[i1 % 16],
        stream.keystreamed(data2, ssrc2, index2)[i2] == data2[i2] ^ aes128_block(
            stream.encr_key,
            blocks.1,
        )[i2 % 16],
{
    let block1 = counter_block(
        packet_iv(stream.salt_key, ssrc1, index1 as nat),
        (i1 / 16) as nat,
    );
    let block2 = counter_block(
        packet_iv(stream.salt_key, ssrc2, index2 as nat),
        (i2 / 16) as nat,
    );
    if block1 == block2 {
        law_keystream_blocks_are_distinct(
            stream.salt_key,
            ssrc1,
            index1 as nat,
            (i1 / 16) as nat,
            ssrc2,
            index2 as nat,
            (i2 / 16) as nat,
        );
    }
    (block1, block2)
}

/// The bytes of the input of the key-derivation PRF: the master salt in the first fourteen, XORed
/// with the label in byte 7 and with the last 48 bits of the period in bytes 8 to 13.
pub proof fn law_derivation_input_bytes(label: u8, r: nat, master_salt: Seq<u8>)
    ensures
        derivation_input(label, r, master_salt).len() == 16,
        forall|j: int|
            0 <= j < 16 ==> #[trigger] derivation_input(label, r, master_salt)[j] == (if j < 14 && j
                < master_salt.len() {
                master_salt[j]
            } else {
                0u8
            }) ^ (if j == 7 {
                label
            } else if 8 <= j < 14 {
                (r as int / pow(256, (13 - j) as nat) % 256) as u8
            } else {
                0u8
            }),
{
    lemma_be_bytes_len(r, 6);
    assert forall|j: int| 0 <= j < 16 implies #[trigger] derivation_input(
        label,
        r,
        master_salt,
    )[j] == (if j < 14 && j < master_salt.len() {
        master_salt[j]
    } else {
        0u8
    }) ^ (if j == 7 {
        label
    } else if 8 <= j < 14 {
        (r as int / pow(256, (13 - j) as nat) % 256) as u8
    } else {
        0u8
    }) by {
        assert(padded_salt(master_salt)[j] == if j < 14 && j < master_salt.len() {
            master_salt[j]
        } else {
            0u8
        });
        if 8 <= j < 14 {
            law_bytes_are_digits(r, 6, j - 8);
            assert(key_id(label, r)[j] == be_bytes(r, 6)[j - 8]);
        }
    }
}

/// Byte `i` of the key-derivation PRF is byte `i % 16` of the AES encryption of the input XORed
/// with the block number `i / 16` in its last two bytes; there are as many bytes as were asked for.
pub proof fn law_prf_bytes(master_key: Seq<u8>, x: Seq<u8>, n: nat, block: Seq<u8>, i: int)
    requires
        x.len() == 16,
        block.len() == 16,
        forall|j: int|
            0 <= j < 16 ==> #[trigger] block[j] == x[j] ^ (if 14 <= j {
                (i / 16 / pow(256, (15 - j) as nat) % 256) as u8
            } else {
                0u8
            }),
    ensures
        prf(master_key, x, n).len() == n,
        0 <= i < n ==> prf(master_key, x, n)[i] == aes128_block(master_key, block)[i % 16],
{
    if 0 <= i < n {
        let k = (i / 16) as nat;
        lemma_be_bytes_len(k, 2);
        assert forall|j: int| 0 <= j < 16 implies block[j] == #[trigger] prf_block(x, k)[j] by {
            if 14 <= j {
                law_bytes_are_digits(k, 2, j - 14);
            }
        }
        assert(block =~= prf_block(x, k));
    }
}

/// A session key is as long as was asked for.
pub proof fn law_session_key_length<P: Protocol>(
    ctx: ContextModel<P>,
    label: u8,
    index: u64,
    len: nat,
)
    ensures
        ctx.session_key(label, index, len).len() == len,
{
}

/// Every byte of a session key comes from one AES block under the master key: byte `i % 16` of the
/// encryption of the master salt, XORed with the label in byte 7, with the period in bytes 8 to 13
/// and with the block number `i / 16` in the last two. The period is the index divided by the
/// derivation rate, rounded down, or 0 where there is no rate.
pub proof fn law_session_key_bytes<P: Protocol>(
    ctx: ContextModel<P>,
    label: u8,
    index: u64,
    len: nat,
    period: nat,
    block: Seq<u8>,
    i: int,
)
    requires
        0 <= i < len,
        ctx.key_derivation_rate == 0 ==> period == 0,
        ctx.key_derivation_rate > 0 ==> period == index as nat / pow2(
            (ctx.key_derivation_rate - 1) as nat,
        ),
        block.len() == 16,
        forall|j: int|
            0 <= j < 16 ==> #[trigger] block[j] == (if j < 14 && j < ctx.master_salt.len() {
                ctx.master_salt[j]
            } else {
                0u8
            }) ^ (if j == 7 {
                label
            } else if 8 <= j < 14 {
                (period as int / pow(256, (13 - j) as nat) % 256) as u8
            } else if 14 <= j {
                (i / 16 / pow(256, (15 - j) as nat) % 256) as u8
            } else {
                0u8
            }),
    ensures
        ctx.session_key(label, index, len).len() == len,
        ctx.session_key(label, index, len)[i] == aes128_block(ctx.master_key, block)[i % 16],
{
    let k = (i / 16) as nat;
    let x = derivation_input(label, period, ctx.master_salt);
    assert(derivation_period(ctx.key_derivation_rate, index) == period);
    lemma_be_bytes_len(period, 6);
    lemma_be_bytes_len(k, 2);
    assert forall|j: int| 0 <= j < 16 implies block[j] == #[trigger] prf_block(x, k)[j] by {
        let salt = padded_salt(ctx.master_salt)[j];
        assert(x[j] == salt ^ key_id(label, period)[j]);
        lemma_xor_involution(x[j], 0);
        lemma_xor_involution(salt, 0);
        if 8 <= j < 14 {
            law_bytes_are_digits(period, 6, j - 8);
            assert(key_id(label, period)[j] == be_bytes(period, 6)[j - 8]);
        } else if 14 <= j {
            law_bytes_are_digits(k, 2, j - 14);
            assert(key_id(label, period)[j] == 0);
        }
    }
    assert(block =~= prf_block(x, k));
}

/// The labels of SRTP are 0 for the encryption key, 1 for the authentication key and 2 for the
/// salt. New session keys keep their lengths, and nothing else of the stream changes.
pub proof fn law_srtp_session_keys(
    ctx: ContextModel<Srtp>,
    stream: StreamModel<Srtp>,
    index: u64,
)
    ensures
        ({
            let keyed = ctx.rekeyed_stream(stream, index);
            &&& keyed.encr_key == ctx.session_key(0, index, stream.encr_key.len())
            &&& keyed.auth_key == ctx.session_key(1, index, stream.auth_key.len())
            &&& keyed.salt_key == ctx.session_key(2, index, stream.salt_key.len())
            &&& keyed.head == stream.head
            &&& keyed.window == stream.window
            &&& keyed.state == stream.state
        }),
{
}

/// The labels of SRTCP are 3 for the encryption key, 4 for the authentication key and 5 for the
/// salt. New session keys keep their lengths, and nothing else of the stream changes.
pub proof fn law_srtcp_session_keys(
    ctx: ContextModel<Srtcp>,
    stream: StreamModel<Srtcp>,
    index: u64,
)
    ensures
        ({
            let keyed = ctx.rekeyed_stream(stream, index);
            &&& keyed.encr_key == ctx.session_key(3, index, stream.encr_key.len())
            &&& keyed.auth_key == ctx.session_key(4, index, stream.auth_key.len())
            &&& keyed.salt_key == ctx.session_key(5, index, stream.salt_key.len())
            &&& keyed.head == stream.head
            &&& keyed.window == stream.window
            &&& keyed.state == stream.state
        }),
{
}

/// Packets of different periods have keys from different inputs: no byte of a session key for one
/// index comes from the AES block of a byte of a session key for the other. Positions are counted
/// up to `2^16` blocks.
pub proof fn law_periods_share_no_key_block<P: Protocol>(
    ctx: ContextModel<P>,
    label1: u8,
    index1: u64,
    len1: nat,
    i1: int,
    label2: u8,
    index2: u64,
    len2: nat,
    i2: int,
) -> (blocks: (Seq<u8>, Seq<u8>))
    requires
        ctx.key_derivation_rate > 0,
        index1 < 0x1_0000_0000_0000,
        index2 < 0x1_0000_0000_0000,
        index1 as nat / pow2((ctx.key_derivation_rate - 1) as nat) != index2 as nat / pow2(
            (ctx.key_derivation_rate - 1) as nat,
        ),
        0 <= i1 < len1,
        0 <= i2 < len2,
        i1 / 16 < 0x1_0000,
        i2 / 16 < 0x1_0000,
    ensures
        blocks.0 != blocks.1,
        ctx.session_key(label1, index1, len1)[i1] == aes128_block(ctx.master_key, blocks.0)[i1
            % 16],
        ctx.session_key(label2, index2, len2)[i2] == aes128_block(ctx.master_key, blocks.1)[i2
            % 16],
{
    let rate = (ctx.key_derivation_rate - 1) as nat;
    let r1 = index1 as nat / pow2(rate);
    let r2 = index2 as nat / pow2(rate);
    vstd::arithmetic::power2::lemma_pow2_pos(rate);
    vstd::arithmetic::div_mod::lemma_div_is_ordered_by_denominator(
        index1 as int,
        1,
        pow2(rate) as int,
    );
    vstd::arithmetic::div_mod::lemma_div_is_ordered_by_denominator(
        index2 as int,
        1,
        pow2(rate) as int,
    );
    let block1 = prf_block(derivation_input(label1, r1, ctx.master_salt), (i1 / 16) as nat);
    let block2 = prf_block(derivation_input(label2, r2, ctx.master_salt), (i2 / 16) as nat);
    if block1 == block2 {
        law_derivation_blocks_are_distinct(
            ctx.master_salt,
            label1,
            r1,
            (i1 / 16) as nat,
            label2,
            r2,
            (i2 / 16) as nat,
        );
    }
    (block1, block2)
}

/// The tag of an SRTP packet is the beginning of the HMAC-SHA1 digest of all of the packet
/// followed by the rollover counter, most significant byte first; it is cut to the tag's length.
pub proof fn law_srtp_tag(
    ctx: ContextModel<Srtp>,
    auth_key: Seq<u8>,
    body: Seq<u8>,
    index: u64,
    message: Seq<u8>,
)
    requires
        message.len() == body.len() + 4,
        forall|k: int| 0 <= k < body.len() ==> #[trigger] message[k] == body[k],
        forall|k: int|
            0 <= k < 4 ==> #[trigger] message[body.len() + k] == index as int / pow(
                256,
                (5 - k) as nat,
            ) % 256,
    ensures
        Srtp::authenticated_bytes(index, body) == Ok::<Seq<u8>, ErrorKind>(message),
        ctx.tag_of(auth_key, body, index) is Ok,
        ctx.tag_of(auth_key, body, index)->Ok_0.len() == if ctx.auth_tag_len < 20 {
            ctx.auth_tag_len as int
        } else {
            20
        },
        forall|i: int|
            0 <= i < ctx.tag_of(auth_key, body, index)->Ok_0.len() ==> #[trigger] ctx.tag_of(
                auth_key,
                body,
                index,
            )->Ok_0[i] == hmac_sha1(auth_key, message)[i],
{
    let roc = roc_of(index) as nat;
    lemma_be_bytes_len(roc, 4);
    assert forall|k: int| 0 <= k < 4 implies #[trigger] message[body.len() + k] == be_bytes(
        roc,
        4,
    )[k] by {
        law_bytes_are_digits(roc, 4, k);
        lemma_roc_digit(index, k);
    }
    let end = body.len();
    assert forall|j: int| 0 <= j < message.len() implies message[j] == (body + be_bytes(
        roc,
        4,
    ))[j] by {
        if j >= end {
            assert(message[end + (j - end)] == be_bytes(roc, 4)[j - end]);
        }
    }
    assert(message =~= body + be_bytes(roc, 4));
}

/// A digit of the rollover counter is a digit of the index, two places up.
proof fn lemma_roc_digit(index: u64, k: int)
    requires
        0 <= k < 4,
    ensures
        roc_of(index) / pow(256, (3 - k) as nat) % 256 == index as int / pow(256, (5 - k) as nat)
            % 256,
{
    reveal_with_fuel(pow, 7);
    assert(index / 0x1_0000 % 0x1_0000_0000 / 0x100_0000 % 256 == index / 0x100_0000_0000 % 256
        && index / 0x1_0000 % 0x1_0000_0000 / 0x1_0000 % 256 == index / 0x1_0000_0000 % 256 && index
        / 0x1_0000 % 0x1_0000_0000 / 0x100 % 256 == index / 0x100_0000 % 256 && index / 0x1_0000
        % 0x1_0000_0000 % 256 == index / 0x1_0000 % 256) by (bit_vector);
    if k == 0 {
        assert(pow(256, 3) == 0x100_0000 && pow(256, 5) == 0x100_0000_0000);
    } else if k == 1 {
        assert(pow(256, 2) == 0x1_0000 && pow(256, 4) == 0x1_0000_0000);
    } else if k == 2 {
        assert(pow(256, 1) == 0x100 && pow(256, 3) == 0x100_0000);
    } else {
        assert(pow(256, 0) == 1 && pow(256, 2) == 0x1_0000);
    }
}

/// The tag of an SRTCP packet is the beginning of the HMAC-SHA1 digest of all that precedes it,
/// index word included; it is cut to the tag's length.
pub proof fn law_srtcp_tag(
    ctx: ContextModel<Srtcp>,
    auth_key: Seq<u8>,
    body: Seq<u8>,
    index: u32,
)
    ensures
        Srtcp::authenticated_bytes(index, body) == Ok::<Seq<u8>, ErrorKind>(body),
        ctx.tag_of(auth_key, body, index) is Ok,
        ctx.tag_of(auth_key, body, index)->Ok_0.len() == if ctx.auth_tag_len < 20 {
            ctx.auth_tag_len as int
        } else {
            20
        },
        forall|i: int|
            0 <= i < ctx.tag_of(auth_key, body, index)->Ok_0.len() ==> #[trigger] ctx.tag_of(
                auth_key,
                body,
                index,
            )->Ok_0[i] == hmac_sha1(auth_key, body)[i],
{
}

/// What an SRTP tag is computed over tells the packet and the rollover counter: two that are
/// alike belong to the same bytes and to indices with the same counter.
pub proof fn law_srtp_tag_covers_packet_and_counter(
    index1: u64,
    body1: Seq<u8>,
    index2: u64,
    body2: Seq<u8>,
)
    requires
        index1 < 0x1_0000_0000_0000,
        index2 < 0x1_0000_0000_0000,
        Srtp::authenticated_bytes(index1, body1) == Srtp::authenticated_bytes(index2, body2),
    ensures
        body1 == body2,
        index1 / 0x1_0000 == index2 / 0x1_0000,
{
    let m1 = Srtp::authenticated_bytes(index1, body1)->Ok_0;
    let m2 = Srtp::authenticated_bytes(index2, body2)->Ok_0;
    let roc1 = roc_of(index1) as nat;
    let roc2 = roc_of(index2) as nat;
    lemma_be_bytes_len(roc1, 4);
    lemma_be_bytes_len(roc2, 4);
    assert(m1.len() == body1.len() + 4 && m2.len() == body2.len() + 4);
    assert(body1 =~= m1.take(body1.len() as int));
    assert(body2 =~= m2.take(body1.len() as int));
    assert(be_bytes(roc1, 4) =~= m1.skip(body1.len() as int));
    assert(be_bytes(roc2, 4) =~= m2.skip(body1.len() as int));
    lemma_pow256();
    lemma_be_roundtrip(roc1, 4);
    lemma_be_roundtrip(roc2, 4);
}

/// A packet is authentic exactly if what follows its body is the body's tag, all of it; any other
/// ending of that length is refused as invalid.
pub proof fn law_tag_is_compared_whole<P: Protocol>(
    ctx: ContextModel<P>,
    auth_key: Seq<u8>,
    body: Seq<u8>,
    tag: Seq<u8>,
    index: P::PacketIndex,
)
    requires
        tag.len() == ctx.auth_tag_len,
    ensures
        ctx.tag_of(auth_key, body, index) == Ok::<Seq<u8>, ErrorKind>(tag) ==> ctx.verdict(
            auth_key,
            body + tag,
            index,
        ) == Ok::<(), ErrorKind>(()),
        ctx.tag_of(auth_key, body, index) is Ok && ctx.tag_of(auth_key, body, index)->Ok_0 != tag
            ==> ctx.verdict(auth_key, body + tag, index) == Err::<(), ErrorKind>(
            ErrorKind::Invalid,
        ),
        ctx.tag_of(auth_key, body, index) matches Err(e) ==> ctx.verdict(
            auth_key,
            body + tag,
            index,
        ) == Err::<(), ErrorKind>(e),
{
    let packet = body + tag;
    assert(packet.take(body.len() as int) =~= body);
    assert(packet.skip(body.len() as int) =~= tag);
}

/// The stream of a new source is blank: zeroed keys of 16, 14 and 20 bytes, a clear window of 128
/// slots, no index. A registered source keeps the stream that it has.
pub proof fn law_new_source_is_blank<P: Protocol>(ctx: ContextModel<P>, ssrc: Ssrc)
    ensures
        ctx.streams.contains_key(ssrc) ==> ctx.stream_of(ssrc) == ctx.streams[ssrc],
        !ctx.streams.contains_key(ssrc) ==> ({
            let stream = ctx.stream_of(ssrc);
            &&& stream.head == 0
            &&& stream.window == Seq::new(128, |i: int| false)
            &&& stream.encr_key == Seq::new(16, |i: int| 0u8)
            &&& stream.salt_key == Seq::new(14, |i: int| 0u8)
            &&& stream.auth_key == Seq::new(20, |i: int| 0u8)
            &&& stream.state == P::initial()
        }),
        Srtp::initial() == (Srtp { rollover_counter: 0, highest_seq_num: 0 }),
        Srtcp::initial() == (Srtcp { highest_sent_index: 0 }),
{
}

/// Encrypting an RTP packet keeps every byte of its header and puts all of the payload under the
/// keystream of its source and the index.
pub proof fn law_srtp_sealed(
    stream: StreamModel<Srtp>,
    header: Seq<u8>,
    payload: Seq<u8>,
    index: u64,
)
    requires
        parsed(header + payload) is Ok,
        parsed(header + payload)->Ok_0.1 == header.len(),
    ensures
        Srtp::sealed(stream, header + payload, index) == Ok::<Seq<u8>, ErrorKind>(
            header + stream.keystreamed(
                payload,
                parsed(header + payload)->Ok_0.0.ssrc,
                index,
            ),
        ),
{
    let packet = header + payload;
    assert(packet.take(header.len() as int) =~= header);
    assert(packet.skip(header.len() as int) =~= payload);
}

/// Decrypting an SRTP packet keeps every byte of its header, puts all that lies between header
/// and tag under the keystream of its source and the index, and drops the tag.
pub proof fn law_srtp_opened(
    stream: StreamModel<Srtp>,
    header: Seq<u8>,
    hidden: Seq<u8>,
    tag: Seq<u8>,
    index: u64,
)
    requires
        parsed(header + hidden + tag) is Ok,
        parsed(header + hidden + tag)->Ok_0.1 == header.len(),
    ensures
        Srtp::openable(tag.len() as int, header + hidden + tag),
        Srtp::opened(tag.len() as int, stream, header + hidden + tag, index) == Ok::<
            Seq<u8>,
            ErrorKind,
        >(
            header + stream.keystreamed(
                hidden,
                parsed(header + hidden + tag)->Ok_0.0.ssrc,
                index,
            ),
        ),
{
    let packet = header + hidden + tag;
    let n = header.len() as int;
    assert(packet.take(n) =~= header);
    assert(packet.subrange(n, packet.len() - tag.len()) =~= hidden);
}

/// Encrypting an RTCP packet keeps its first eight bytes, puts all of the rest under the keystream
/// of its source and the index, and appends the index word: the E-bit and the 31-bit index.
pub proof fn law_srtcp_sealed(
    stream: StreamModel<Srtcp>,
    header: Seq<u8>,
    payload: Seq<u8>,
    word: Seq<u8>,
    index: u32,
)
    requires
        header.len() == 8,
        word.len() == 4,
        be_value(word) == 0x8000_0000 + index as int % 0x8000_0000,
    ensures
        Srtcp::sealed(stream, header + payload, index) == Ok::<Seq<u8>, ErrorKind>(
            header + stream.keystreamed(
                payload,
                (header[4] * 0x100_0000 + header[5] * 0x1_0000 + header[6] * 0x100
                    + header[7]) as u32,
                index as u64,
            ) + word,
        ),
{
    let packet = header + payload;
    assert(packet.take(8) =~= header);
    assert(packet.skip(8) =~= payload);
    assert(packet.subrange(4, 8) =~= header.subrange(4, 8));
    law_short_numbers(header.subrange(4, 8));
    lemma_be_bytes_of_value(word);
}

/// Decrypting an SRTCP packet whose index word has the E-bit set keeps its first eight bytes, puts
/// all that lies between them and the index word under the keystream of its source and the index,
/// and drops index word and tag.
pub proof fn law_srtcp_opened(
    stream: StreamModel<Srtcp>,
    header: Seq<u8>,
    hidden: Seq<u8>,
    word: Seq<u8>,
    tag: Seq<u8>,
    index: u32,
)
    requires
        header.len() == 8,
        word.len() == 4,
        word[0] >= 128,
    ensures
        Srtcp::openable(tag.len() as int, header + hidden + word + tag),
        Srtcp::opened(tag.len() as int, stream, header + hidden + word + tag, index) == Ok::<
            Seq<u8>,
            ErrorKind,
        >(
            header + stream.keystreamed(
                hidden,
                (header[4] * 0x100_0000 + header[5] * 0x1_0000 + header[6] * 0x100
                    + header[7]) as u32,
                index as u64,
            ),
        ),
{
    let packet = header + hidden + word + tag;
    let at = index_word_at(tag.len() as int, packet);
    assert(packet.take(8) =~= header);
    assert(packet.subrange(8, at) =~= hidden);
    assert(packet.subrange(at, at + 4) =~= word);
    assert(packet.subrange(4, 8) =~= header.subrange(4, 8));
    law_short_numbers(word);
    law_short_numbers(header.subrange(4, 8));
}

/// An SRTCP packet whose index word has the E-bit clear is given back as it is, all of it up to
/// the index word.
pub proof fn law_srtcp_clear_packet_opened(
    stream: StreamModel<Srtcp>,
    body: Seq<u8>,
    word: Seq<u8>,
    tag: Seq<u8>,
    index: u32,
)
    requires
        word.len() == 4,
        word[0] < 128,
    ensures
        Srtcp::openable(tag.len() as int, body + word + tag),
        Srtcp::opened(tag.len() as int, stream, body + word + tag, index) == Ok::<
            Seq<u8>,
            ErrorKind,
        >(body),
{
    let packet = body + word + tag;
    let at = index_word_at(tag.len() as int, packet);
    assert(packet.take(at) =~= body);
    assert(packet.subrange(at, at + 4) =~= word);
    law_short_numbers(word);
}

/// Where an RTCP packet names its source, and where an SRTCP packet carries its index: in the
/// second word, and in the last 31 bits before the tag.
pub proof fn law_srtcp_source_and_index(
    packet: Seq<u8>,
    body: Seq<u8>,
    word: Seq<u8>,
    tag: Seq<u8>,
    state: Srtcp,
)
    requires
        word.len() == 4,
    ensures
        packet.len() < 8 ==> Srtcp::ssrc_of(packet) == Err::<Ssrc, ErrorKind>(ErrorKind::Other),
        packet.len() >= 8 ==> Srtcp::ssrc_of(packet) == Ok::<Ssrc, ErrorKind>(
            (packet[4] * 0x100_0000 + packet[5] * 0x1_0000 + packet[6] * 0x100 + packet[7]) as u32,
        ),
        Srtcp::index_readable(tag.len() as int, body + word + tag),
        Srtcp::incoming_index(tag.len() as int, state, body + word + tag) is Ok,
        Srtcp::index_value(
            Srtcp::incoming_index(tag.len() as int, state, body + word + tag)->Ok_0,
        ) == (word[0] % 128) * 0x100_0000 + word[1] * 0x1_0000 + word[2] * 0x100 + word[3],
{
    if packet.len() >= 8 {
        law_short_numbers(packet.subrange(4, 8));
    }
    let whole = body + word + tag;
    let at = index_word_at(tag.len() as int, whole);
    assert(whole.subrange(at, at + 4) =~= word);
    law_short_numbers(word);
    assert((word[0] * 0x100_0000 + word[1] * 0x1_0000 + word[2] * 0x100 + word[3]) % 0x8000_0000
        == (word[0] % 128) * 0x100_0000 + word[1] * 0x1_0000 + word[2] * 0x100 + word[3]);
}

/// Sending an RTP packet of a source that is let in: it gets the index that the source's state
/// gives its sequence number and the session keys of that index. Its header goes out as it is, its
/// payload under the keystream, and the tag of the two behind them. The stream is left with those
/// keys and the higher one of its highest index and this one; its replay window stays.
pub proof fn law_srtp_sent_packet(ctx: ContextModel<Srtp>, header: Seq<u8>, payload: Seq<u8>)
    requires
        parsed(header + payload) is Ok,
        parsed(header + payload)->Ok_0.1 == header.len(),
        ctx.admits(parsed(header + payload)->Ok_0.0.ssrc),
    ensures
        ({
            let (h, _) = parsed(header + payload)->Ok_0;
            let stream = ctx.stream_of(h.ssrc);
            let index = stream.state.estimated_index(h.seq_num);
            let keyed = ctx.rekeyed_stream(stream, index);
            let body = header + keyed.keystreamed(payload, h.ssrc, index);
            let (result, end) = ctx.outgoing(header + payload);
            let after = end.streams[h.ssrc];
            &&& result == Ok::<Seq<u8>, ErrorKind>(
                body + ctx.tag_of(keyed.auth_key, body, index)->Ok_0,
            )
            &&& end.streams.contains_key(h.ssrc)
            &&& after == (StreamModel { state: after.state, ..keyed })
            &&& after.state.highest_index() == if index > stream.state.highest_index() {
                index as int
            } else {
                stream.state.highest_index()
            }
        }),
{
    let (h, _) = parsed(header + payload)->Ok_0;
    let state = ctx.stream_of(h.ssrc).state;
    let index = state.estimated_index(h.seq_num);
    let keyed = ctx.rekeyed_stream(ctx.stream_of(h.ssrc), index);
    assert(ctx.admitted(h.ssrc).rekeyed(h.ssrc, index).streams[h.ssrc] == keyed);
    law_srtp_sealed(keyed, header, payload, index);
    assert(index < 0x1_0000_0000_0000);
    law_highest_index_moves_up_only(state, index);
}

/// Receiving an SRTP packet of a source that is let in: it gets the index that the source's state
/// gives its sequence number, and the stream the session keys of that index. It is accepted exactly
/// if the replay window does not turn the index away and the packet ends in its tag; what comes out
/// is its header as it is and all the rest, up to the tag, under the keystream. Only then does the
/// index go into the replay window and into the highest index.
pub proof fn law_srtp_received_packet(
    ctx: ContextModel<Srtp>,
    header: Seq<u8>,
    hidden: Seq<u8>,
    tag: Seq<u8>,
)
    requires
        parsed(header + hidden + tag) is Ok,
        parsed(header + hidden + tag)->Ok_0.1 == header.len(),
        tag.len() == ctx.auth_tag_len,
        ctx.admits(parsed(header + hidden + tag)->Ok_0.0.ssrc),
    ensures
        ({
            let (h, _) = parsed(header + hidden + tag)->Ok_0;
            let stream = ctx.stream_of(h.ssrc);
            let index = stream.state.estimated_index(h.seq_num);
            let keyed = ctx.rekeyed_stream(stream, index);
            let (result, end) = ctx.incoming(header + hidden + tag);
            let after = end.streams[h.ssrc];
            let accepted = !stream.seen(index as int) && ctx.tag_of(
                keyed.auth_key,
                header + hidden,
                index,
            ) == Ok::<Seq<u8>, ErrorKind>(tag);
            &&& end.streams.contains_key(h.ssrc)
            &&& !accepted ==> result == Err::<Seq<u8>, ErrorKind>(ErrorKind::Invalid) && after
                == keyed
            &&& accepted ==> {
                &&& result == Ok::<Seq<u8>, ErrorKind>(
                    header + keyed.keystreamed(hidden, h.ssrc, index),
                )
                &&& after == (StreamModel { state: after.state, ..keyed.recorded(index) })
                &&& after.state.highest_index() == if index > stream.state.highest_index() {
                    index as int
                } else {
                    stream.state.highest_index()
                }
            }
        }),
{
    let packet = header + hidden + tag;
    let (h, _) = parsed(packet)->Ok_0;
    let stream = ctx.stream_of(h.ssrc);
    let index = stream.state.estimated_index(h.seq_num);
    let keyed = ctx.rekeyed_stream(stream, index);
    let known = ctx.admitted(h.ssrc).rekeyed(h.ssrc, index);
    assert(known.streams[h.ssrc] == keyed);
    assert(keyed.seen(index as int) == stream.seen(index as int));
    law_tag_is_compared_whole(known, keyed.auth_key, header + hidden, tag, index);
    law_srtp_opened(keyed, header, hidden, tag, index);
    assert(index < 0x1_0000_0000_0000);
    law_highest_index_moves_up_only(stream.state, index);
    assert(known.tag_of(keyed.auth_key, header + hidden, index) == ctx.tag_of(
        keyed.auth_key,
        header + hidden,
        index,
    ));
}

/// Sending an RTCP packet of a source that is let in: it gets the index after the last one sent,
/// counted modulo `2^31`, and the session keys of that index. Its first eight bytes go out as they
/// are, the rest under the keystream, then the index word with the E-bit set, and the tag of all of
/// that. The stream is left with those keys and the index as the last one sent; its replay window
/// stays.
pub proof fn law_srtcp_sent_packet(
    ctx: ContextModel<Srtcp>,
    header: Seq<u8>,
    payload: Seq<u8>,
    word: Seq<u8>,
    ssrc: Ssrc,
)
    requires
        header.len() == 8,
        ssrc == header[4] * 0x100_0000 + header[5] * 0x1_0000 + header[6] * 0x100 + header[7],
        ctx.admits(ssrc),
        word.len() == 4,
        be_value(word) == 0x8000_0000 + (ctx.stream_of(ssrc).state.highest_sent_index + 1)
            % 0x8000_0000,
    ensures
        ({
            let stream = ctx.stream_of(ssrc);
            let index = ((stream.state.highest_sent_index + 1) % 0x8000_0000) as u32;
            let keyed = ctx.rekeyed_stream(stream, index as u64);
            let body = header + keyed.keystreamed(payload, ssrc, index as u64) + word;
            let (result, end) = ctx.outgoing(header + payload);
            &&& result == Ok::<Seq<u8>, ErrorKind>(
                body + ctx.tag_of(keyed.auth_key, body, index)->Ok_0,
            )
            &&& end.streams.contains_key(ssrc)
            &&& end.streams[ssrc] == (StreamModel {
                state: Srtcp { highest_sent_index: index },
                ..keyed
            })
        }),
{
    let packet = header + payload;
    let stream = ctx.stream_of(ssrc);
    let index = ((stream.state.highest_sent_index + 1) % 0x8000_0000) as u32;
    let keyed = ctx.rekeyed_stream(stream, index as u64);
    law_srtcp_source_and_index(packet, header, word, Seq::empty(), stream.state);
    assert(Srtcp::ssrc_of(packet) == Ok::<Ssrc, ErrorKind>(ssrc));
    assert(ctx.admitted(ssrc).rekeyed(ssrc, index as u64).streams[ssrc] == keyed);
    law_srtcp_sealed(keyed, header, payload, word, index);
}

/// Receiving an SRTCP packet of a source that is let in: its index is in the word before the tag,
/// and the stream gets the session keys of that index. It is accepted exactly if the replay window
/// does not turn the index away and the packet ends in its tag. With the E-bit set, what comes out
/// is its first eight bytes as they are and all the rest, up to the index word, under the
/// keystream; with the E-bit clear, all up to the index word as it is. Only then does the index go
/// into the replay window.
pub proof fn law_srtcp_received_packet(
    ctx: ContextModel<Srtcp>,
    body: Seq<u8>,
    word: Seq<u8>,
    tag: Seq<u8>,
    ssrc: Ssrc,
    index: u32,
)
    requires
        word.len() == 4,
        tag.len() == ctx.auth_tag_len,
        (body + word + tag).len() >= 8,
        word[0] >= 128 ==> body.len() >= 8,
        ({
            let packet = body + word + tag;
            ssrc == packet[4] * 0x100_0000 + packet[5] * 0x1_0000 + packet[6] * 0x100 + packet[7]
        }),
        index == (word[0] % 128) * 0x100_0000 + word[1] * 0x1_0000 + word[2] * 0x100 + word[3],
        ctx.admits(ssrc),
    ensures
        ({
            let stream = ctx.stream_of(ssrc);
            let keyed = ctx.rekeyed_stream(stream, index as u64);
            let (result, end) = ctx.incoming(body + word + tag);
            let accepted = !stream.seen(index as int) && ctx.tag_of(
                keyed.auth_key,
                body + word,
                index,
            ) == Ok::<Seq<u8>, ErrorKind>(tag);
            &&& end.streams.contains_key(ssrc)
            &&& !accepted ==> result == Err::<Seq<u8>, ErrorKind>(ErrorKind::Invalid)
                && end.streams[ssrc] == keyed
            &&& accepted ==> end.streams[ssrc] == keyed.recorded(index as u64)
            &&& accepted && word[0] >= 128 ==> result == Ok::<Seq<u8>, ErrorKind>(
                body.take(8) + keyed.keystreamed(body.skip(8), ssrc, index as u64),
            )
            &&& accepted && word[0] < 128 ==> result == Ok::<Seq<u8>, ErrorKind>(body)
        }),
{
    let packet = body + word + tag;
    let stream = ctx.stream_of(ssrc);
    let keyed = ctx.rekeyed_stream(stream, index as u64);
    let known = ctx.admitted(ssrc).rekeyed(ssrc, index as u64);
    law_srtcp_source_and_index(packet, body, word, tag, stream.state);
    assert(Srtcp::ssrc_of(packet) == Ok::<Ssrc, ErrorKind>(ssrc));
    assert(Srtcp::incoming_index(tag.len() as int, stream.state, packet) == Ok::<u32, ErrorKind>(
        index,
    ));
    assert(known.streams[ssrc] == keyed);
    assert(keyed.seen(index as int) == stream.seen(index as int));
    law_tag_is_compared_whole(known, keyed.auth_key, body + word, tag, index);
    assert(known.tag_of(keyed.auth_key, body + word, index) == ctx.tag_of(
        keyed.auth_key,
        body + word,
        index,
    ));
    if word[0] >= 128 {
        let header = body.take(8);
        let hidden = body.skip(8);
        assert(header + hidden =~= body);
        law_srtcp_opened(keyed, header, hidden, word, tag, index);
        assert(header[4] == packet[4] && header[5] == packet[5] && header[6] == packet[6]
            && header[7] == packet[7]);
    } else {
        law_srtcp_clear_packet_opened(keyed, body, word, tag, index);
    }
}

/// A packet whose source cannot be read is refused for that reason, and nothing changes.
pub proof fn law_unreadable_packet_changes_nothing(
    srtp: ContextModel<Srtp>,
    srtcp: ContextModel<Srtcp>,
    packet: Seq<u8>,
)
    ensures
        parsed(packet) matches Err(e) ==> {
            &&& srtp.has_keys_for(packet)
            &&& srtp.incoming_fits(packet)
            &&& srtp.incoming(packet) == (Err::<Seq<u8>, ErrorKind>(e), srtp)
            &&& srtp.outgoing(packet) == (Err::<Seq<u8>, ErrorKind>(e), srtp)
        },
        packet.len() < 8 ==> {
            &&& srtcp.has_keys_for(packet)
            &&& srtcp.incoming_fits(packet)
            &&& srtcp.incoming(packet) == (Err::<Seq<u8>, ErrorKind>(ErrorKind::Other), srtcp)
            &&& srtcp.outgoing(packet) == (Err::<Seq<u8>, ErrorKind>(ErrorKind::Other), srtcp)
        },
{
}

/// Making sure of a new source that the budget covers gives it a blank stream and leaves all other
/// streams and all settings alone.
pub proof fn law_ensuring_adds_one_blank_stream<P: Protocol>(ctx: ContextModel<P>, ssrc: Ssrc)
    requires
        !ctx.streams.contains_key(ssrc),
        ctx.unknown_ssrcs > 0,
    ensures
        ctx.ensured(ssrc) == (
            Ok::<(), ErrorKind>(()),
            ContextModel {
                unknown_ssrcs: (ctx.unknown_ssrcs - 1) as usize,
                streams: ctx.streams.insert(ssrc, ctx.stream_of(ssrc)),
                ..ctx
            },
        ),
{
}

/// Keys of their sizes are all that a packet needs of them: a master key of 16 bytes, a derivation
/// rate that is a shift of 64 bits, and an encryption key of 16 bytes for the packet's own source.
/// With those and a window with a slot, a packet that has its header, its index word and its tag
/// can be received.
pub proof fn law_whole_packets_can_be_received(
    srtp: ContextModel<Srtp>,
    header: Seq<u8>,
    hidden: Seq<u8>,
    tag: Seq<u8>,
    srtcp: ContextModel<Srtcp>,
    body: Seq<u8>,
    word: Seq<u8>,
)
    requires
        word.len() == 4,
        word[0] >= 128 ==> body.len() >= 8,
    ensures
        ({
            let packet = header + hidden + tag;
            let ssrc = parsed(packet)->Ok_0.0.ssrc;
            parsed(packet) is Ok && parsed(packet)->Ok_0.1 == header.len() && tag.len()
                == srtp.auth_tag_len && srtp.master_key.len() == 16 && srtp.key_derivation_rate
                <= 64 && srtp.stream_of(ssrc).encr_key.len() == 16 && srtp.stream_of(
                ssrc,
            ).window.len() > 0 ==> srtp.has_keys_for(packet) && srtp.incoming_fits(packet)
        }),
        ({
            let packet = body + word + tag;
            let ssrc = rtcp_ssrc(packet);
            tag.len() == srtcp.auth_tag_len && srtcp.master_key.len() == 16
                && srtcp.key_derivation_rate <= 64 && srtcp.stream_of(ssrc).encr_key.len() == 16
                && srtcp.stream_of(ssrc).window.len() > 0 ==> srtcp.has_keys_for(packet)
                && srtcp.incoming_fits(packet)
        }),
{
    let packet = header + hidden + tag;
    if parsed(packet) is Ok && parsed(packet)->Ok_0.1 == header.len() && tag.len()
        == srtp.auth_tag_len {
        let ssrc = parsed(packet)->Ok_0.0.ssrc;
        let index = srtp.stream_of(ssrc).state.estimated_index(parsed(packet)->Ok_0.0.seq_num);
        law_srtp_opened(srtp.stream_of(ssrc), header, hidden, tag, index);
        assert(srtp.admitted(ssrc).rekeyed(ssrc, index).streams[ssrc].window == srtp.stream_of(
            ssrc,
        ).window);
    }
    let packet = body + word + tag;
    if tag.len() == srtcp.auth_tag_len {
        let ssrc = rtcp_ssrc(packet);
        let stream = srtcp.stream_of(ssrc);
        law_srtcp_source_and_index(packet, body, word, tag, stream.state);
        let index = Srtcp::incoming_index(tag.len() as int, stream.state, packet)->Ok_0;
        if word[0] >= 128 {
            assert(body.take(8) + body.skip(8) =~= body);
            law_srtcp_opened(stream, body.take(8), body.skip(8), word, tag, index);
        } else {
            law_srtcp_clear_packet_opened(stream, body, word, tag, index);
        }
        assert(srtcp.admitted(ssrc).rekeyed(ssrc, index as u64).streams[ssrc].window
            == stream.window);
    }
}

/// A packet without a readable header is neither encrypted nor decrypted, whatever the index.
pub proof fn law_unreadable_packet_is_not_transformed(
    srtp: StreamModel<Srtp>,
    index: u64,
    srtcp: StreamModel<Srtcp>,
    srtcp_index: u32,
    packet: Seq<u8>,
    tag_len: int,
)
    ensures
        parsed(packet) matches Err(e) ==> {
            &&& Srtp::openable(tag_len, packet)
            &&& Srtp::sealed(srtp, packet, index) == Err::<Seq<u8>, ErrorKind>(e)
            &&& Srtp::opened(tag_len, srtp, packet, index) == Err::<Seq<u8>, ErrorKind>(e)
        },
        packet.len() < 8 ==> Srtcp::sealed(srtcp, packet, srtcp_index) == Err::<
            Seq<u8>,
            ErrorKind,
        >(ErrorKind::Other),
        packet.len() < 8 && 0 <= tag_len && packet.len() - tag_len - 4 >= 0 && packet[packet.len()
            - tag_len - 4] >= 128 ==> Srtcp::opened(tag_len, srtcp, packet, srtcp_index) == Err::<
            Seq<u8>,
            ErrorKind,
        >(ErrorKind::Other),
{
    if packet.len() < 8 && 0 <= tag_len && packet.len() - tag_len - 4 >= 0 {
        let at = index_word_at(tag_len, packet);
        law_short_numbers(packet.subrange(at, at + 4));
    }
}

/// An SRTP packet names its source in its header and gets its index from its sequence number, sent
/// or received; an SRTCP packet to be sent gets the one after the last, whatever it holds. Indices
/// are the numbers that they are.
pub proof fn law_indices_are_assigned(
    state: Srtp,
    packet: Seq<u8>,
    tag_len: int,
    srtcp_state: Srtcp,
    srtp_index: u64,
    srtcp_index: u32,
)
    ensures
        parsed(packet) matches Ok((h, _)) ==> {
            &&& Srtp::ssrc_of(packet) == Ok::<Ssrc, ErrorKind>(h.ssrc)
            &&& Srtp::index_readable(tag_len, packet)
            &&& Srtp::incoming_index(tag_len, state, packet) == Ok::<u64, ErrorKind>(
                state.estimated_index(h.seq_num),
            )
            &&& Srtp::outgoing_index(state, packet) == Ok::<u64, ErrorKind>(
                state.estimated_index(h.seq_num),
            )
        },
        parsed(packet) matches Err(e) ==> {
            &&& Srtp::ssrc_of(packet) == Err::<Ssrc, ErrorKind>(e)
            &&& Srtp::incoming_index(tag_len, state, packet) == Err::<u64, ErrorKind>(e)
            &&& Srtp::outgoing_index(state, packet) == Err::<u64, ErrorKind>(e)
        },
        Srtcp::outgoing_index(srtcp_state, packet) is Ok,
        Srtcp::outgoing_index(srtcp_state, packet)->Ok_0 == (srtcp_state.highest_sent_index + 1)
            % 0x8000_0000,
        Srtcp::after_sent(srtcp_state, srtcp_index) == (Srtcp { highest_sent_index: srtcp_index }),
        Srtcp::after_received(srtcp_state, srtcp_index) == srtcp_state,
        Srtp::index_value(srtp_index) == srtp_index,
        Srtcp::index_value(srtcp_index) == srtcp_index,
{
}

/// New session keys go into the one stream that they are for; everything else of the context stays.
pub proof fn law_rekeying_touches_one_stream<P: Protocol>(
    ctx: ContextModel<P>,
    ssrc: Ssrc,
    index: u64,
)
    ensures
        ctx.rekeyed(ssrc, index) == (ContextModel {
            streams: ctx.streams.insert(ssrc, ctx.rekeyed_stream(ctx.streams[ssrc], index)),
            ..ctx
        }),
{
}

/// A packet of a source that is let in and whose index the replay window turns away, or whose tag
/// is not the right one, can be received however short its payload is. It is refused: as invalid
/// if its index is turned away, and else for the reason that the tag was not found right. The
/// stream is left with the session keys of the packet's index.
pub proof fn law_refused_packet_needs_no_payload<P: Protocol>(
    ctx: ContextModel<P>,
    packet: Seq<u8>,
    ssrc: Ssrc,
    index: P::PacketIndex,
)
    requires
        P::ssrc_of(packet) == Ok::<Ssrc, ErrorKind>(ssrc),
        ctx.admits(ssrc),
        P::index_readable(ctx.auth_tag_len as int, packet),
        P::incoming_index(ctx.auth_tag_len as int, ctx.stream_of(ssrc).state, packet) == Ok::<
            P::PacketIndex,
            ErrorKind,
        >(index),
        packet.len() >= ctx.auth_tag_len,
    ensures
        ({
            let value = P::index_value(index);
            let stream = ctx.stream_of(ssrc);
            let keyed = ctx.rekeyed_stream(stream, value);
            let (result, end) = ctx.incoming(packet);
            let verdict = ctx.verdict(keyed.auth_key, packet, index);
            stream.seen(value as int) || verdict is Err ==> {
                &&& ctx.incoming_fits(packet)
                &&& end.streams[ssrc] == keyed
                &&& result == if stream.seen(value as int) {
                    Err::<Seq<u8>, ErrorKind>(ErrorKind::Invalid)
                } else {
                    Err::<Seq<u8>, ErrorKind>(verdict->Err_0)
                }
            }
        }),
{
    let value = P::index_value(index);
    let stream = ctx.stream_of(ssrc);
    let keyed = ctx.rekeyed_stream(stream, value);
    let known = ctx.admitted(ssrc).rekeyed(ssrc, value);
    assert(known.streams[ssrc] == keyed);
    assert(keyed.seen(value as int) == stream.seen(value as int));
    assert(known.verdict(keyed.auth_key, packet, index) == ctx.verdict(
        keyed.auth_key,
        packet,
        index,
    ));
}

/// A packet of a source that is not let in needs no keys and no length: it is refused at once.
pub proof fn law_unknown_source_needs_nothing<P: Protocol>(
    ctx: ContextModel<P>,
    packet: Seq<u8>,
    ssrc: Ssrc,
)
    requires
        P::ssrc_of(packet) == Ok::<Ssrc, ErrorKind>(ssrc),
        !ctx.streams.contains_key(ssrc),
        ctx.unknown_ssrcs == 0,
    ensures
        ctx.has_keys_for(packet),
        ctx.incoming_fits(packet),
{
}

} // verus!
