//! Big-endian integers and byte-wise exclusive or.
use crate::error::ErrorKind;
use vstd::arithmetic::power::{lemma_pow0, lemma_pow_positive, pow};
use vstd::prelude::*;

verus! {

/// The number that `s` spells, most significant byte first.
pub open spec fn be_value(s: Seq<u8>) -> nat
    decreases s.len(),
{
    if s.len() == 0 {
        0
    } else {
        be_value(s.drop_last()) * 256 + s.last() as nat
    }
}

/// The last `n` base-256 digits of `v`, most significant first.
pub open spec fn be_bytes(v: nat, n: nat) -> Seq<u8>
    decreases n,
{
    if n == 0 {
        Seq::empty()
    } else {
        be_bytes(v / 256, (n - 1) as nat).push((v % 256) as u8)
    }
}

/// `n` zero bytes.
pub open spec fn zeros(n: nat) -> Seq<u8> {
    Seq::new(n, |i: int| 0u8)
}

/// Byte-wise exclusive or of two sequences of one length.
pub open spec fn xor_bytes(a: Seq<u8>, b: Seq<u8>) -> Seq<u8> {
    Seq::new(a.len(), |i: int| a[i] ^ b[i])
}

/// Every byte string has as many digits as it was asked for.
pub proof fn lemma_be_bytes_len(v: nat, n: nat)
    ensures
        be_bytes(v, n).len() == n,
    decreases n,
{
    if n > 0 {
        lemma_be_bytes_len(v / 256, (n - 1) as nat);
    }
}

/// Writing a number and reading it back keeps its last `n` digits.
pub proof fn lemma_be_value_of_bytes(v: nat, n: nat)
    ensures
        be_value(be_bytes(v, n)) == v % (pow(256, n) as nat),
        pow(256, n) > 0,
    decreases n,
{
    lemma_pow_positive(256, n);
    if n == 0 {
        lemma_pow0(256);
    } else {
        let m = (n - 1) as nat;
        let s = be_bytes(v, n);
        lemma_be_value_of_bytes(v / 256, m);
        lemma_pow_positive(256, m);
        assert(s.drop_last() =~= be_bytes(v / 256, m));
        vstd::arithmetic::power::lemma_pow_adds(256, 1, m);
        vstd::arithmetic::power::lemma_pow1(256);
        let p = pow(256, m);
        assert(pow(256, n) == 256 * p);
        vstd::arithmetic::div_mod::lemma_mod_breakdown(v as int, 256, p);
    }
}

/// A number below `256^n` survives being written in `n` bytes.
pub proof fn lemma_be_roundtrip(v: nat, n: nat)
    requires
        v < pow(256, n),
    ensures
        be_value(be_bytes(v, n)) == v,
{
    lemma_be_value_of_bytes(v, n);
    vstd::arithmetic::div_mod::lemma_small_mod(v, pow(256, n) as nat);
}

/// Reading bytes and writing them back gives the same bytes.
pub proof fn lemma_be_bytes_of_value(s: Seq<u8>)
    ensures
        be_bytes(be_value(s), s.len()) == s,
    decreases s.len(),
{
    if s.len() > 0 {
        let t = s.drop_last();
        lemma_be_bytes_of_value(t);
        let v = be_value(s);
        assert(v / 256 == be_value(t) && v % 256 == s.last());
        assert(t.push(s.last()) =~= s);
    } else {
        assert(be_bytes(0, 0) =~= s);
    }
}

/// `n` bytes spell a number below `256^n`.
pub proof fn lemma_be_value_bound(s: Seq<u8>)
    ensures
        be_value(s) < pow(256, s.len()),
    decreases s.len(),
{
    if s.len() == 0 {
        lemma_pow0(256);
    } else {
        let t = s.drop_last();
        lemma_be_value_bound(t);
        vstd::arithmetic::power::lemma_pow_adds(256, 1, t.len());
        vstd::arithmetic::power::lemma_pow1(256);
    }
}

/// The powers of 256 that the wire formats use.
pub proof fn lemma_pow256()
    ensures
        pow(256, 1) == 0x100,
        pow(256, 2) == 0x1_0000,
        pow(256, 4) == 0x1_0000_0000,
        pow(256, 6) == 0x1_0000_0000_0000,
        pow(256, 8) == 0x1_0000_0000_0000_0000,
{
    reveal_with_fuel(pow, 9);
}

/// Exclusive or with one byte twice changes nothing, so the other byte is determined.
pub proof fn lemma_xor_involution(a: u8, b: u8)
    ensures
        (a ^ b) ^ b == a,
        (a ^ b) ^ a == b,
        a ^ 0u8 == a,
        0u8 ^ a == a,
{
    assert((a ^ b) ^ b == a && (a ^ b) ^ a == b && a ^ 0u8 == a && 0u8 ^ a == a) by (bit_vector);
}

/// `xor_bytes` with one mask is injective.
pub proof fn lemma_xor_bytes_injective(mask: Seq<u8>, a: Seq<u8>, b: Seq<u8>)
    requires
        a.len() == mask.len(),
        b.len() == mask.len(),
        xor_bytes(mask, a) == xor_bytes(mask, b),
    ensures
        a == b,
{
    assert forall|i: int| 0 <= i < a.len() implies a[i] == b[i] by {
        assert(xor_bytes(mask, a)[i] == mask[i] ^ a[i] && xor_bytes(mask, b)[i] == mask[i] ^ b[i]);
        lemma_xor_involution(mask[i], a[i]);
        lemma_xor_involution(mask[i], b[i]);
    }
    assert(a =~= b);
}

/// Byte `i` of the `n` bytes of a number is its digit of weight `256^(n - 1 - i)`.
pub proof fn law_bytes_are_digits(v: nat, n: nat, i: int)
    requires
        0 <= i < n,
    ensures
        be_bytes(v, n).len() == n,
        be_bytes(v, n)[i] == v as int / pow(256, (n - 1 - i) as nat) % 256,
    decreases n,
{
    lemma_be_bytes_len(v, n);
    let m = (n - 1) as nat;
    if i == m {
        lemma_pow0(256);
    } else {
        law_bytes_are_digits(v / 256, m, i);
        let p = pow(256, (m - 1 - i) as nat);
        lemma_pow_positive(256, (m - 1 - i) as nat);
        vstd::arithmetic::power::lemma_pow_adds(256, 1, (m - 1 - i) as nat);
        vstd::arithmetic::power::lemma_pow1(256);
        vstd::arithmetic::div_mod::lemma_div_denominator(v as int, 256, p);
    }
}

/// The digits of the number that bytes spell are those bytes, and it has no more digits.
pub proof fn law_number_has_its_bytes_as_digits(s: Seq<u8>, i: int)
    requires
        0 <= i < s.len(),
    ensures
        be_value(s) as int / pow(256, (s.len() - 1 - i) as nat) % 256 == s[i],
        be_value(s) < pow(256, s.len()),
{
    lemma_be_bytes_of_value(s);
    lemma_be_value_bound(s);
    law_bytes_are_digits(be_value(s), s.len(), i);
}

/// Two and four bytes, written out.
pub proof fn law_short_numbers(s: Seq<u8>)
    ensures
        s.len() == 2 ==> be_value(s) == s[0] * 0x100 + s[1],
        s.len() == 4 ==> be_value(s) == s[0] * 0x100_0000 + s[1] * 0x1_0000 + s[2] * 0x100 + s[3],
{
    reveal_with_fuel(be_value, 5);
    if s.len() == 2 {
        assert(s.drop_last().drop_last() =~= Seq::empty());
    }
    if s.len() == 4 {
        assert(s.drop_last().drop_last().drop_last().drop_last() =~= Seq::empty());
    }
}

/// Two bytes at `at` as a number.
pub fn read_u16(bytes: &[u8], at: usize) -> (r: Result<u16, ErrorKind>)
    requires
        at <= bytes@.len(),
    ensures
        r is Ok <==> bytes@.len() - at >= 2,
        r matches Ok(v) ==> v == be_value(bytes@.subrange(at as int, at + 2)),
        r matches Err(e) ==> e == ErrorKind::Other,
{
    if bytes.len() - at < 2 {
        return Err(ErrorKind::Other);
    }
    let v: u16 = bytes[at] as u16 * 256 + bytes[at + 1] as u16;
    proof {
        let s = bytes@.subrange(at as int, at + 2);
        reveal_with_fuel(be_value, 3);
        assert(s.drop_last().drop_last() =~= Seq::empty());
    }
    Ok(v)
}

/// Four bytes at `at` as a number.
pub fn read_u32(bytes: &[u8], at: usize) -> (r: Result<u32, ErrorKind>)
    requires
        at <= bytes@.len(),
    ensures
        r is Ok <==> bytes@.len() - at >= 4,
        r matches Ok(v) ==> v == be_value(bytes@.subrange(at as int, at + 4)),
        r matches Err(e) ==> e == ErrorKind::Other,
{
    if bytes.len() - at < 4 {
        return Err(ErrorKind::Other);
    }
    let v: u32 = bytes[at] as u32 * 0x100_0000 + bytes[at + 1] as u32 * 0x1_0000 + bytes[at
        + 2] as u32 * 0x100 + bytes[at + 3] as u32;
    proof {
        let s = bytes@.subrange(at as int, at + 4);
        reveal_with_fuel(be_value, 5);
        assert(s.drop_last().drop_last().drop_last().drop_last() =~= Seq::empty());
    }
    Ok(v)
}

/// The two bytes of a number.
pub fn u16_bytes(v: u16) -> (r: [u8; 2])
    ensures
        r@ == be_bytes(v as nat, 2),
{
    let r: [u8; 2] = [(v / 256) as u8, (v % 256) as u8];
    proof {
        reveal_with_fuel(be_bytes, 3);
        assert(r@ =~= be_bytes(v as nat, 2));
    }
    r
}

/// The four bytes of a number.
pub fn u32_bytes(v: u32) -> (r: [u8; 4])
    ensures
        r@ == be_bytes(v as nat, 4),
{
    let r: [u8; 4] = [
        (v / 0x100_0000) as u8,
        (v / 0x1_0000 % 256) as u8,
        (v / 0x100 % 256) as u8,
        (v % 256) as u8,
    ];
    proof {
        reveal_with_fuel(be_bytes, 5);
        assert(r@ =~= be_bytes(v as nat, 4));
    }
    r
}

/// The last six bytes of a number.
pub fn u48_bytes(v: u64) -> (r: [u8; 6])
    ensures
        r@ == be_bytes(v as nat, 6),
{
    let r: [u8; 6] = [
        (v / 0x100_0000_0000 % 256) as u8,
        (v / 0x1_0000_0000 % 256) as u8,
        (v / 0x100_0000 % 256) as u8,
        (v / 0x1_0000 % 256) as u8,
        (v / 0x100 % 256) as u8,
        (v % 256) as u8,
    ];
    proof {
        reveal_with_fuel(be_bytes, 7);
        assert(r@ =~= be_bytes(v as nat, 6));
    }
    r
}

} // verus!
