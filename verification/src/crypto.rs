//! The cryptographic primitives of the transforms: AES-CM, HMAC-SHA1 and the key-derivation PRF.
//!
//! AES, counter mode and HMAC come from the `aes`, `ctr`, `hmac` and `sha1` crates. Everything
//! built on them here is verified.
use crate::bytes::{
    be_bytes, be_value, lemma_be_bytes_len, lemma_be_bytes_of_value, lemma_be_roundtrip,
    lemma_be_value_bound, lemma_pow256, lemma_xor_bytes_injective, lemma_xor_involution, u16_bytes,
    u32_bytes, u48_bytes, xor_bytes, zeros,
};
use aes::cipher::{BlockEncrypt, KeyInit, KeyIvInit, StreamCipher};
use hmac::Mac;
use vstd::arithmetic::power::pow;
use vstd::prelude::*;

verus! {

/// The AES-128 encryption of `block` under `key`, as the `aes` crate computes it.
pub uninterp spec fn aes128_block(key: Seq<u8>, block: Seq<u8>) -> Seq<u8>;

/// The HMAC-SHA1 digest of `message` under `key`, as the `hmac` and `sha1` crates compute it.
pub uninterp spec fn hmac_sha1(key: Seq<u8>, message: Seq<u8>) -> Seq<u8>;

/// Block number `k` of the counter sequence that starts at `iv`: `iv + k` as a 128-bit number.
pub open spec fn counter_block(iv: Seq<u8>, k: nat) -> Seq<u8> {
    be_bytes(be_value(iv) + k, 16)
}

/// Byte `i` of the AES-CM keystream for `key` and `iv`.
pub open spec fn keystream_byte(key: Seq<u8>, iv: Seq<u8>, i: int) -> u8 {
    aes128_block(key, counter_block(iv, (i / 16) as nat))[i % 16]
}

/// `data` under the AES-CM keystream for `key` and `iv`.
pub open spec fn ctr_xor(key: Seq<u8>, iv: Seq<u8>, data: Seq<u8>) -> Seq<u8> {
    Seq::new(data.len(), |i: int| data[i] ^ keystream_byte(key, iv, i))
}

/// The first `len` bytes of the digest of `message`, or all of it where it is shorter.
pub open spec fn auth_tag(key: Seq<u8>, message: Seq<u8>, len: nat) -> Seq<u8> {
    Seq::new(
        if len < 20 {
            len
        } else {
            20
        },
        |i: int| hmac_sha1(key, message)[i],
    )
}

/// A salt in the place it takes in a 16-byte block: left-aligned, cut to 14 bytes, zero-padded.
pub open spec fn padded_salt(salt: Seq<u8>) -> Seq<u8> {
    Seq::new(
        16,
        |i: int|
            if i < 14 && i < salt.len() {
                salt[i]
            } else {
                0u8
            },
    )
}

/// The key identifier `label || r` (56 bits) in its place in a 16-byte block.
pub open spec fn key_id(label: u8, r: nat) -> Seq<u8> {
    zeros(7) + seq![label] + be_bytes(r, 6) + zeros(2)
}

/// The input of the key-derivation PRF: `(key_id XOR master_salt) * 2^16`.
pub open spec fn derivation_input(label: u8, r: nat, master_salt: Seq<u8>) -> Seq<u8> {
    xor_bytes(padded_salt(master_salt), key_id(label, r))
}

/// The packet identifier `SSRC * 2^64 XOR index * 2^16` as a 16-byte block.
pub open spec fn packet_id(ssrc: u32, index: nat) -> Seq<u8> {
    zeros(4) + be_bytes(ssrc as nat, 4) + be_bytes(index, 6) + zeros(2)
}

/// The AES-CM initialisation vector of a packet:
/// `(salt * 2^16) XOR (SSRC * 2^64) XOR (index * 2^16)`.
pub open spec fn packet_iv(salt: Seq<u8>, ssrc: u32, index: nat) -> Seq<u8> {
    xor_bytes(padded_salt(salt), packet_id(ssrc, index))
}

/// Input block number `k` of the key-derivation PRF: `x XOR k`, where `k` counts modulo `2^16`.
pub open spec fn prf_block(x: Seq<u8>, k: nat) -> Seq<u8> {
    xor_bytes(x, zeros(14) + be_bytes(k, 2))
}

/// The first `n` bytes of the key-derivation PRF on `x`.
pub open spec fn prf(master_key: Seq<u8>, x: Seq<u8>, n: nat) -> Seq<u8> {
    Seq::new(n, |i: int| aes128_block(master_key, prf_block(x, (i / 16) as nat))[i % 16])
}

/// `aes::Aes128::new_from_slice` followed by `encrypt_block`.
///
/// Trusted: the outcome depends on the 16-byte key and the block alone, and is called
/// `aes128_block`. `new_from_slice` accepts a key of exactly 16 bytes.
#[verifier::external_body]
fn aes128_encrypt_block(key: &[u8], block: &[u8; 16]) -> (r: [u8; 16])
    requires
        key@.len() == 16,
    ensures
        r@ == aes128_block(key@, block@),
{
    let mut out = *block;
    aes::Aes128::new_from_slice(key).unwrap().encrypt_block((&mut out).into());
    out
}

/// `ctr::Ctr128BE::<aes::Aes128>::new_from_slices` followed by one `apply_keystream`.
///
/// Trusted: a fresh cipher XORs byte `i` of the data with byte `i % 16` of the AES encryption of
/// the block `iv + i / 16`, where `iv` counts as a 128-bit big-endian number and the sum wraps.
/// `new_from_slices` accepts a key and an initialisation vector of exactly 16 bytes each.
#[verifier::external_body]
fn aes128_ctr(key: &[u8], iv: &[u8; 16], data: &mut Vec<u8>)
    requires
        key@.len() == 16,
    ensures
        final(data)@ == ctr_xor(key@, iv@, old(data)@),
{
    ctr::Ctr128BE::<aes::Aes128>::new_from_slices(key, iv).unwrap().apply_keystream(data);
}

/// `hmac::Hmac::<sha1::Sha1>` keyed with `key`, fed with `data` and finalized.
///
/// Trusted: the 20-byte digest depends on the key and the data alone, and is called `hmac_sha1`.
/// HMAC accepts a key of any length.
#[verifier::external_body]
pub(crate) fn hmac_hash_sha1(key: &[u8], data: &[u8]) -> (r: Vec<u8>)
    ensures
        r@ == hmac_sha1(key@, data@),
        r@.len() == 20,
{
    let mut mac = <hmac::Hmac<sha1::Sha1> as KeyInit>::new_from_slice(key).unwrap();
    mac.update(data);
    mac.finalize().into_bytes().to_vec()
}

/// AES-CM pseudo-random function: `n` bytes from the AES encryptions of `x XOR 0`, `x XOR 1`, ...
pub fn prf_n(master_key: &[u8], x: &[u8; 16], n: usize) -> (r: Vec<u8>)
    requires
        master_key@.len() == 16,
    ensures
        r@ == prf(master_key@, x@, n as nat),
{
    let mut out: Vec<u8> = Vec::with_capacity(n);
    let mut counter: u16 = 0;
    let ghost mut k: nat = 0;
    while out.len() < n
        invariant
            master_key@.len() == 16,
            out@.len() <= n,
            out@.len() < n ==> out@.len() == 16 * k,
            counter == k % 0x1_0000,
            forall|i: int|
                0 <= i < out@.len() ==> out@[i] == #[trigger] prf(master_key@, x@, n as nat)[i],
        decreases n - out.len(),
    {
        let ctr = u16_bytes(counter);
        let mut block: [u8; 16] = *x;
        block[14] = x[14] ^ ctr[0];
        block[15] = x[15] ^ ctr[1];
        proof {
            lemma_be_bytes_mod16(k);
            lemma_be_bytes_len(k, 2);
            assert forall|i: int| 0 <= i < 14 implies x@[i] == prf_block(x@, k)[i] by {
                lemma_xor_involution(x@[i], 0);
            }
            assert(block@ =~= prf_block(x@, k));
        }
        let encrypted = aes128_encrypt_block(master_key, &block);
        let remaining: usize = n - out.len();
        let take: usize = if remaining < 16 {
            remaining
        } else {
            16
        };
        let ghost before = out@;
        out.extend_from_slice(&encrypted[0..take]);
        proof {
            assert forall|i: int| 0 <= i < out@.len() implies out@[i] == #[trigger] prf(
                master_key@,
                x@,
                n as nat,
            )[i] by {
                if i >= before.len() {
                    assert(i / 16 == k && i % 16 == i - 16 * k);
                }
            }
            k = k + 1;
        }
        counter = counter.wrapping_add(1);
    }
    assert(out@ =~= prf(master_key@, x@, n as nat));
    out
}

proof fn lemma_be_bytes_mod16(k: nat)
    ensures
        be_bytes(k % 0x1_0000, 2) == be_bytes(k, 2),
{
    reveal_with_fuel(be_bytes, 3);
    assert(be_bytes(k % 0x1_0000, 2) =~= be_bytes(k, 2));
}

/// The 16-byte input of the PRF for one label: master salt XOR `label || r`.
pub fn key_derivation_x(label: u8, r: u64, master_salt: &[u8]) -> (x: [u8; 16])
    ensures
        x@ == derivation_input(label, r as nat, master_salt@),
{
    let mut x = salt_block(master_salt);
    let ghost salt = x@;
    let r_bytes = u48_bytes(r);
    x[7] = x[7] ^ label;
    x[8] = x[8] ^ r_bytes[0];
    x[9] = x[9] ^ r_bytes[1];
    x[10] = x[10] ^ r_bytes[2];
    x[11] = x[11] ^ r_bytes[3];
    x[12] = x[12] ^ r_bytes[4];
    x[13] = x[13] ^ r_bytes[5];
    proof {
        let id = key_id(label, r as nat);
        assert forall|i: int| 0 <= i < 16 implies x@[i] == salt[i] ^ id[i] by {
            lemma_xor_involution(salt[i], 0);
        }
        assert(x@ =~= derivation_input(label, r as nat, master_salt@));
    }
    x
}

/// The AES-CM initialisation vector of the packet `index` of the source `ssrc`.
pub fn build_iv(salt_key: &[u8], ssrc: u32, index: u64) -> (iv: [u8; 16])
    ensures
        iv@ == packet_iv(salt_key@, ssrc, index as nat),
{
    let mut iv = salt_block(salt_key);
    let ghost salt = iv@;
    let s = u32_bytes(ssrc);
    iv[4] = iv[4] ^ s[0];
    iv[5] = iv[5] ^ s[1];
    iv[6] = iv[6] ^ s[2];
    iv[7] = iv[7] ^ s[3];
    let n = u48_bytes(index);
    iv[8] = iv[8] ^ n[0];
    iv[9] = iv[9] ^ n[1];
    iv[10] = iv[10] ^ n[2];
    iv[11] = iv[11] ^ n[3];
    iv[12] = iv[12] ^ n[4];
    iv[13] = iv[13] ^ n[5];
    proof {
        let id = packet_id(ssrc, index as nat);
        assert forall|i: int| 0 <= i < 16 implies iv@[i] == salt[i] ^ id[i] by {
            lemma_xor_involution(salt[i], 0);
        }
        assert(iv@ =~= packet_iv(salt_key@, ssrc, index as nat));
    }
    iv
}

/// A salt laid into a 16-byte block.
fn salt_block(salt: &[u8]) -> (block: [u8; 16])
    ensures
        block@ == padded_salt(salt@),
{
    let mut block: [u8; 16] = [0u8; 16];
    let len: usize = if salt.len() < 14 {
        salt.len()
    } else {
        14
    };
    let mut i: usize = 0;
    while i < len
        invariant
            i <= len,
            len <= 14,
            len <= salt@.len(),
            len == 14 || len == salt@.len(),
            forall|j: int| 0 <= j < i ==> block@[j] == salt@[j],
            forall|j: int| i <= j < 16 ==> block@[j] == 0,
        decreases len - i,
    {
        block[i] = salt[i];
        i = i + 1;
    }
    assert(block@ =~= padded_salt(salt@));
    block
}

/// Appends `input` under the AES-CM keystream for `key` and `iv` to `output`.
pub fn append_under_keystream(key: &[u8], iv: &[u8; 16], input: &[u8], output: &mut Vec<u8>)
    requires
        key@.len() == 16,
    ensures
        final(output)@ == old(output)@ + ctr_xor(key@, iv@, input@),
{
    let mut data = vstd::slice::slice_to_vec(input);
    aes128_ctr(key, iv, &mut data);
    output.append(&mut data);
}

/// The keystream applied twice changes nothing: decryption and encryption are the same operation.
pub proof fn law_keystream_is_self_inverse(key: Seq<u8>, iv: Seq<u8>, data: Seq<u8>)
    ensures
        ctr_xor(key, iv, ctr_xor(key, iv, data)) == data,
{
    let once = ctr_xor(key, iv, data);
    assert forall|i: int| 0 <= i < data.len() implies ctr_xor(key, iv, once)[i] == data[i] by {
        lemma_xor_involution(data[i], keystream_byte(key, iv, i));
    }
    assert(ctr_xor(key, iv, once) =~= data);
}

/// Bytes that end in two zeros, as a number.
proof fn lemma_low_zeros(s: Seq<u8>)
    requires
        s.len() == 16,
        s[14] == 0,
        s[15] == 0,
    ensures
        be_value(s) == be_value(s.take(14)) * 0x1_0000,
        be_value(s) + 0xffff < pow(256, 16),
{
    reveal_with_fuel(be_value, 3);
    assert(s.drop_last().drop_last() =~= s.take(14));
    lemma_be_value_bound(s.take(14));
    vstd::arithmetic::power::lemma_pow_adds(256, 14, 2);
    lemma_pow256();
    assert(be_value(s.take(14)) * 0x1_0000 + 0xffff < pow(256, 14) * 0x1_0000)
        by (nonlinear_arith)
        requires
            be_value(s.take(14)) + 1 <= pow(256, 14),
    ;
}

proof fn lemma_packet_iv_parts(salt: Seq<u8>, ssrc: u32, index: nat)
    ensures
        packet_id(ssrc, index).len() == 16,
        packet_id(ssrc, index).subrange(4, 8) == be_bytes(ssrc as nat, 4),
        packet_id(ssrc, index).subrange(8, 14) == be_bytes(index, 6),
        packet_iv(salt, ssrc, index).len() == 16,
        packet_iv(salt, ssrc, index)[14] == 0,
        packet_iv(salt, ssrc, index)[15] == 0,
{
    lemma_be_bytes_len(ssrc as nat, 4);
    lemma_be_bytes_len(index, 6);
    assert(packet_id(ssrc, index).subrange(4, 8) =~= be_bytes(ssrc as nat, 4));
    assert(packet_id(ssrc, index).subrange(8, 14) =~= be_bytes(index, 6));
    lemma_xor_involution(0, 0);
}

/// Under one salt, no two packets share an initialisation vector: it tells the source and the
/// 48-bit index.
pub proof fn law_packet_ivs_are_distinct(
    salt: Seq<u8>,
    ssrc1: u32,
    index1: nat,
    ssrc2: u32,
    index2: nat,
)
    requires
        index1 < 0x1_0000_0000_0000,
        index2 < 0x1_0000_0000_0000,
        packet_iv(salt, ssrc1, index1) == packet_iv(salt, ssrc2, index2),
    ensures
        ssrc1 == ssrc2,
        index1 == index2,
{
    lemma_packet_iv_parts(salt, ssrc1, index1);
    lemma_packet_iv_parts(salt, ssrc2, index2);
    lemma_xor_bytes_injective(
        padded_salt(salt),
        packet_id(ssrc1, index1),
        packet_id(ssrc2, index2),
    );
    lemma_pow256();
    lemma_be_roundtrip(ssrc1 as nat, 4);
    lemma_be_roundtrip(ssrc2 as nat, 4);
    lemma_be_roundtrip(index1, 6);
    lemma_be_roundtrip(index2, 6);
}

/// Under one salt, no keystream block of a packet is one of another packet: among the first
/// `2^16` blocks of each, equal counter blocks belong to one source, one index and one position.
pub proof fn law_keystream_blocks_are_distinct(
    salt: Seq<u8>,
    ssrc1: u32,
    index1: nat,
    block1: nat,
    ssrc2: u32,
    index2: nat,
    block2: nat,
)
    requires
        index1 < 0x1_0000_0000_0000,
        index2 < 0x1_0000_0000_0000,
        block1 < 0x1_0000,
        block2 < 0x1_0000,
        counter_block(packet_iv(salt, ssrc1, index1), block1) == counter_block(
            packet_iv(salt, ssrc2, index2),
            block2,
        ),
    ensures
        ssrc1 == ssrc2,
        index1 == index2,
        block1 == block2,
{
    let iv1 = packet_iv(salt, ssrc1, index1);
    let iv2 = packet_iv(salt, ssrc2, index2);
    lemma_packet_iv_parts(salt, ssrc1, index1);
    lemma_packet_iv_parts(salt, ssrc2, index2);
    lemma_low_zeros(iv1);
    lemma_low_zeros(iv2);
    lemma_be_roundtrip(be_value(iv1) + block1, 16);
    lemma_be_roundtrip(be_value(iv2) + block2, 16);
    assert(block1 == block2 && be_value(iv1) == be_value(iv2));
    lemma_be_bytes_of_value(iv1);
    lemma_be_bytes_of_value(iv2);
    law_packet_ivs_are_distinct(salt, ssrc1, index1, ssrc2, index2);
}

/// Session keys come from separate inputs: among the first `2^16` blocks of the key-derivation
/// PRF under one master salt, equal input blocks belong to one label, one 48-bit period and one
/// position.
pub proof fn law_derivation_blocks_are_distinct(
    master_salt: Seq<u8>,
    label1: u8,
    r1: nat,
    block1: nat,
    label2: u8,
    r2: nat,
    block2: nat,
)
    requires
        r1 < 0x1_0000_0000_0000,
        r2 < 0x1_0000_0000_0000,
        block1 < 0x1_0000,
        block2 < 0x1_0000,
        prf_block(derivation_input(label1, r1, master_salt), block1) == prf_block(
            derivation_input(label2, r2, master_salt),
            block2,
        ),
    ensures
        label1 == label2,
        r1 == r2,
        block1 == block2,
{
    lemma_prf_block_parts(label1, r1, master_salt, block1);
    lemma_prf_block_parts(label2, r2, master_salt, block2);
    let id1 = block_id(label1, r1, block1);
    let id2 = block_id(label2, r2, block2);
    lemma_xor_bytes_injective(padded_salt(master_salt), id1, id2);
    assert(id1[7] == label1 && id2[7] == label2);
    lemma_pow256();
    lemma_be_roundtrip(r1, 6);
    lemma_be_roundtrip(r2, 6);
    lemma_be_roundtrip(block1, 2);
    lemma_be_roundtrip(block2, 2);
}

/// What a PRF input block adds to the master salt.
spec fn block_id(label: u8, r: nat, block: nat) -> Seq<u8> {
    zeros(7) + seq![label] + be_bytes(r, 6) + be_bytes(block, 2)
}

proof fn lemma_prf_block_parts(label: u8, r: nat, master_salt: Seq<u8>, block: nat)
    ensures
        prf_block(derivation_input(label, r, master_salt), block) == xor_bytes(
            padded_salt(master_salt),
            block_id(label, r, block),
        ),
        block_id(label, r, block).len() == 16,
        block_id(label, r, block)[7] == label,
        block_id(label, r, block).subrange(8, 14) == be_bytes(r, 6),
        block_id(label, r, block).subrange(14, 16) == be_bytes(block, 2),
{
    lemma_be_bytes_len(r, 6);
    lemma_be_bytes_len(block, 2);
    let id = block_id(label, r, block);
    let salt = padded_salt(master_salt);
    let x = derivation_input(label, r, master_salt);
    assert forall|i: int| 0 <= i < 16 implies #[trigger] prf_block(x, block)[i] == salt[i]
        ^ id[i] by {
        lemma_xor_involution(salt[i], 0);
        lemma_xor_involution(x[i], 0);
    }
    assert(prf_block(x, block) =~= xor_bytes(salt, id));
    assert(id.subrange(8, 14) =~= be_bytes(r, 6));
    assert(id.subrange(14, 16) =~= be_bytes(block, 2));
}

} // verus!
