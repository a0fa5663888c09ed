//! Packing a string of `'0'`/`'1'` characters into bytes and back.
//!
//! Bits are stored most significant first: the first bit of the string is bit
//! 7 of the first byte. A final byte that is only partly used has zeros in its
//! unused low bits, and a separate count says how many of its bits are
//! meaningful.
use vstd::prelude::*;
use crate::text::push_char;

verus! {

/// 1 if position `p` of `bits` exists and holds `'1'`, otherwise 0. Any other
/// character, and any position past the end, counts as a zero bit.
pub open spec fn is_one(bits: Seq<char>, p: int) -> int {
    if 0 <= p < bits.len() && bits[p] == '1' {
        1
    } else {
        0
    }
}

/// The value of byte `i` of the packed form of `bits`.
pub open spec fn packed_byte(bits: Seq<char>, i: int) -> int {
    128 * is_one(bits, 8 * i) + 64 * is_one(bits, 8 * i + 1) + 32 * is_one(bits, 8 * i + 2) + 16
        * is_one(bits, 8 * i + 3) + 8 * is_one(bits, 8 * i + 4) + 4 * is_one(bits, 8 * i + 5) + 2
        * is_one(bits, 8 * i + 6) + is_one(bits, 8 * i + 7)
}

/// Number of bytes needed to hold `n` bits.
pub open spec fn packed_len(n: nat) -> nat {
    ((n + 7) / 8) as nat
}

/// The packed form of a bit string.
pub open spec fn pack(bits: Seq<char>) -> Seq<u8> {
    Seq::new(packed_len(bits.len()), |i: int| packed_byte(bits, i) as u8)
}

/// How many bits of the last packed byte are meaningful for a bit string of
/// length `n`: 8 when `n` is a multiple of 8 (the empty string included).
pub open spec fn tail_count(n: nat) -> u8 {
    if n % 8 == 0 {
        8
    } else {
        (n % 8) as u8
    }
}

/// The weight of bit `m` (counted from the most significant) within a byte.
pub open spec fn bit_weight(m: int) -> int {
    if m == 0 {
        128
    } else if m == 1 {
        64
    } else if m == 2 {
        32
    } else if m == 3 {
        16
    } else if m == 4 {
        8
    } else if m == 5 {
        4
    } else if m == 6 {
        2
    } else {
        1
    }
}

proof fn lemma_shift_is_weight(m: u8)
    requires
        m < 8,
    ensures
        (1u8 << ((7 - m) as u8)) == bit_weight(m as int),
{
    assert(1u8 << 7u8 == 128u8) by (bit_vector);
    assert(1u8 << 6u8 == 64u8) by (bit_vector);
    assert(1u8 << 5u8 == 32u8) by (bit_vector);
    assert(1u8 << 4u8 == 16u8) by (bit_vector);
    assert(1u8 << 3u8 == 8u8) by (bit_vector);
    assert(1u8 << 2u8 == 4u8) by (bit_vector);
    assert(1u8 << 1u8 == 2u8) by (bit_vector);
    assert(1u8 << 0u8 == 1u8) by (bit_vector);
}

/// Packs a bit string into bytes, eight bits per byte, most significant bit
/// first, and reports how many bits of the last byte are in use.
pub fn compress(encoded: &str) -> (r: (Vec<u8>, u8))
    ensures
        r.0@ == pack(encoded@),
        r.1 == tail_count(encoded@.len()),
{
    let mut bytes: Vec<u8> = Vec::new();
    let mut current_byte: u8 = 0;
    let mut bits_filled: u8 = 0;
    let ghost bits = encoded@;

    for bit in it: encoded.chars()
        invariant
            it.seq() == bits,
            bits_filled < 8,
            bits_filled as int == it.index() % 8,
            bytes@.len() == it.index() / 8,
            forall|i: int| 0 <= i < bytes@.len() ==> bytes@[i] == packed_byte(bits, i),
            current_byte as int == packed_byte(bits.take(it.index() as int), it.index() / 8),
    {
        let ghost k = it.index() as int;
        let ghost seen = bits.take(k);
        let ghost next = bits.take(k + 1);
        proof {
            lemma_shift_is_weight(bits_filled);
            assert(forall|p: int| p != k ==> is_one(next, p) == is_one(seen, p));
            assert(is_one(seen, k) == 0);
            assert(next[k] == bit);
        }
        if bit == '1' {
            current_byte = current_byte + (1u8 << (7 - bits_filled));
        }
        bits_filled += 1;

        if bits_filled == 8 {
            proof {
                assert(forall|p: int| 0 <= p <= k ==> is_one(next, p) == is_one(bits, p));
            }
            bytes.push(current_byte);
            current_byte = 0;
            bits_filled = 0;
        }
    }

    proof {
        assert(bits.take(bits.len() as int) == bits);
    }
    if bits_filled > 0 {
        bytes.push(current_byte);
    } else {
        bits_filled = 8;
    }
    assert(bytes@ =~= pack(bits));
    (bytes, bits_filled)
}

/// The character for bit `m` (counted from the most significant) of `b`.
pub open spec fn bit_char(b: u8, m: int) -> char {
    if (b as int / bit_weight(m)) % 2 == 1 {
        '1'
    } else {
        '0'
    }
}

/// Number of bits held by `n` packed bytes whose last byte has `valid_bits`
/// meaningful bits.
pub open spec fn unpacked_len(n: nat, valid_bits: u8) -> nat {
    if n == 0 {
        0
    } else {
        (8 * (n - 1) + valid_bits) as nat
    }
}

/// The bit string held by packed bytes: every byte but the last gives eight
/// bits, the last gives its top `valid_bits` bits.
pub open spec fn unpack(bytes: Seq<u8>, valid_bits: u8) -> Seq<char> {
    Seq::new(unpacked_len(bytes.len(), valid_bits), |p: int| bit_char(bytes[p / 8], p % 8))
}

/// Whether every character of `bits` is `'0'` or `'1'`.
pub open spec fn is_bit_string(bits: Seq<char>) -> bool {
    forall|p: int| 0 <= p < bits.len() ==> bits[p] == '0' || bits[p] == '1'
}

proof fn lemma_bit_test(b: u8, m: u8)
    requires
        m < 8,
    ensures
        ((b >> ((7 - m) as u8)) & 1u8) as int == (b as int / bit_weight(m as int)) % 2,
{
    assert((b >> 7u8) & 1u8 == (b / 128u8) % 2u8) by (bit_vector);
    assert((b >> 6u8) & 1u8 == (b / 64u8) % 2u8) by (bit_vector);
    assert((b >> 5u8) & 1u8 == (b / 32u8) % 2u8) by (bit_vector);
    assert((b >> 4u8) & 1u8 == (b / 16u8) % 2u8) by (bit_vector);
    assert((b >> 3u8) & 1u8 == (b / 8u8) % 2u8) by (bit_vector);
    assert((b >> 2u8) & 1u8 == (b / 4u8) % 2u8) by (bit_vector);
    assert((b >> 1u8) & 1u8 == (b / 2u8) % 2u8) by (bit_vector);
    assert((b >> 0u8) & 1u8 == (b / 1u8) % 2u8) by (bit_vector);
}

/// Expands packed bytes into a bit string. All eight bits of every byte but
/// the last are emitted, most significant first; of the last byte only the
/// top `valid_bits` bits.
pub fn bitstring_from_bytes(bytes: &[u8], valid_bits: u8) -> (bit_string: String)
    requires
        valid_bits <= 8,
    ensures
        bit_string@ == unpack(bytes@, valid_bits),
{
    let mut bit_string = String::new();
    let mut i: usize = 0;
    while i < bytes.len()
        invariant
            valid_bits <= 8,
            i <= bytes.len(),
            bit_string@.len() == if i == bytes.len() {
                unpacked_len(bytes@.len(), valid_bits)
            } else {
                8 * i as nat
            },
            forall|p: int|
                0 <= p < bit_string@.len() ==> bit_string@[p] == bit_char(bytes@[p / 8], p % 8),
        decreases bytes.len() - i,
    {
        let byte = bytes[i];
        let bits_to_read: u8 = if i == bytes.len() - 1 {
            valid_bits
        } else {
            8
        };
        let mut m: u8 = 0;
        while m < bits_to_read
            invariant
                i < bytes.len(),
                byte == bytes@[i as int],
                m <= bits_to_read <= 8,
                bit_string@.len() == 8 * i + m,
                forall|p: int|
                    0 <= p < bit_string@.len() ==> bit_string@[p] == bit_char(
                        bytes@[p / 8],
                        p % 8,
                    ),
            decreases bits_to_read - m,
        {
            proof {
                lemma_bit_test(byte, m);
            }
            let bit = (byte >> (7 - m)) & 1;
            push_char(
                &mut bit_string,
                if bit == 1 {
                    '1'
                } else {
                    '0'
                },
            );
            m += 1;
        }
        i += 1;
    }
    assert(bit_string@ =~= unpack(bytes@, valid_bits));
    bit_string
}

/// Unpacking what `pack` produced, with the tail count that goes with it,
/// gives back the bit string.
pub proof fn lemma_unpack_pack(bits: Seq<char>)
    requires
        is_bit_string(bits),
    ensures
        unpack(pack(bits), tail_count(bits.len())) == bits,
{
    let packed = pack(bits);
    let out = unpack(packed, tail_count(bits.len()));
    assert(out.len() == bits.len());
    assert forall|p: int| 0 <= p < bits.len() implies out[p] == bits[p] by {
        let i = p / 8;
        let m = p % 8;
        assert(packed[i] == packed_byte(bits, i));
        assert(8 * i + m == p);
        assert(is_one(bits, p) == if bits[p] == '1' { 1int } else { 0int });
    }
    assert(out =~= bits);
}

} // verus!
