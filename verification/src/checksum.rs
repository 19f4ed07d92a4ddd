//! The 32-bit cyclic redundancy check that guards every frame.
//!
//! This is the reflected CRC-32 of IEEE 802.3 (polynomial `0xEDB88320`,
//! initial register all ones, final complement). It is specified one bit
//! at a time and computed four bits at a time, from a table of sixteen
//! entries.

use vstd::prelude::*;

verus! {

/// The generator polynomial, bit-reflected.
pub const POLYNOMIAL: u32 = 0xEDB8_8320;

/// The register before the first byte.
pub const INITIAL: u32 = 0xFFFF_FFFF;

/// One step of the shift register with a zero input bit.
#[verifier::inline]
pub open spec fn shift(state: u32) -> u32 {
    if state & 1 == 1 {
        (state >> 1) ^ POLYNOMIAL
    } else {
        state >> 1
    }
}

/// `n` steps of the shift register.
pub open spec fn shift_n(state: u32, n: nat) -> u32
    decreases n,
{
    if n == 0 {
        state
    } else {
        shift_n(shift(state), (n - 1) as nat)
    }
}

/// The register after one more byte.
pub open spec fn absorb_byte(state: u32, byte: u8) -> u32 {
    shift_n(state ^ (byte as u32), 8)
}

/// The register after a run of bytes.
pub open spec fn absorb(state: u32, bytes: Seq<u8>) -> u32
    decreases bytes.len(),
{
    if bytes.len() == 0 {
        state
    } else {
        absorb_byte(absorb(state, bytes.drop_last()), bytes.last())
    }
}

/// The CRC-32 of a byte sequence.
pub open spec fn crc32(bytes: Seq<u8>) -> u32 {
    absorb(INITIAL, bytes) ^ 0xFFFF_FFFF
}

proof fn lemma_shift_injective(a: u32, b: u32)
    requires
        shift(a) == shift(b),
    ensures
        a == b,
{
    assert(shift(a) == shift(b) ==> a == b) by (bit_vector);
}

proof fn lemma_shift_n_injective(a: u32, b: u32, n: nat)
    requires
        shift_n(a, n) == shift_n(b, n),
    ensures
        a == b,
    decreases n,
{
    if n > 0 {
        lemma_shift_n_injective(shift(a), shift(b), (n - 1) as nat);
        lemma_shift_injective(a, b);
    }
}

/// Absorbing a byte is one-to-one in the register: two different registers
/// stay different whatever byte follows.
pub proof fn lemma_absorb_byte_injective_state(a: u32, b: u32, byte: u8)
    requires
        absorb_byte(a, byte) == absorb_byte(b, byte),
    ensures
        a == b,
{
    let x = byte as u32;
    lemma_shift_n_injective(a ^ x, b ^ x, 8);
    assert(a ^ x == b ^ x ==> a == b) by (bit_vector);
}

/// Absorbing a byte is one-to-one in the byte: from one register, two
/// different bytes lead to different registers.
pub proof fn lemma_absorb_byte_injective_byte(state: u32, x: u8, y: u8)
    requires
        absorb_byte(state, x) == absorb_byte(state, y),
    ensures
        x == y,
{
    let a = x as u32;
    let b = y as u32;
    lemma_shift_n_injective(state ^ a, state ^ b, 8);
    assert(state ^ a == state ^ b ==> a == b) by (bit_vector);
}

/// Absorbing a concatenation is absorbing the parts in turn.
pub proof fn lemma_absorb_concat(state: u32, a: Seq<u8>, b: Seq<u8>)
    ensures
        absorb(state, a + b) == absorb(absorb(state, a), b),
    decreases b.len(),
{
    if b.len() == 0 {
        assert(a + b =~= a);
    } else {
        assert((a + b).drop_last() =~= a + b.drop_last());
        assert((a + b).last() == b.last());
        lemma_absorb_concat(state, a, b.drop_last());
    }
}

/// Two runs of the same length that agree before position `i` and differ at
/// `i` leave different registers after `n > i` bytes, provided they agree
/// from `i + 1` on.
proof fn lemma_absorb_differs(state: u32, a: Seq<u8>, b: Seq<u8>, i: int)
    requires
        a.len() == b.len(),
        0 <= i < a.len(),
        a[i] != b[i],
        forall|j: int| 0 <= j < a.len() && j != i ==> a[j] == b[j],
    ensures
        absorb(state, a) != absorb(state, b),
    decreases a.len(),
{
    let n = a.len() as int;
    if i == n - 1 {
        assert(a.drop_last() =~= b.drop_last());
        if absorb(state, a) == absorb(state, b) {
            lemma_absorb_byte_injective_byte(absorb(state, a.drop_last()), a.last(), b.last());
        }
    } else {
        lemma_absorb_differs(state, a.drop_last(), b.drop_last(), i);
        assert(a.last() == b.last());
        if absorb(state, a) == absorb(state, b) {
            lemma_absorb_byte_injective_state(
                absorb(state, a.drop_last()),
                absorb(state, b.drop_last()),
                a.last(),
            );
        }
    }
}

/// Changing exactly one byte of a sequence changes its CRC-32.
pub proof fn lemma_one_byte_changes_crc32(a: Seq<u8>, b: Seq<u8>, i: int)
    requires
        a.len() == b.len(),
        0 <= i < a.len(),
        a[i] != b[i],
        forall|j: int| 0 <= j < a.len() && j != i ==> a[j] == b[j],
    ensures
        crc32(a) != crc32(b),
{
    lemma_absorb_differs(INITIAL, a, b, i);
    let x = absorb(INITIAL, a);
    let y = absorb(INITIAL, b);
    assert(x != y ==> x ^ 0xFFFF_FFFFu32 != y ^ 0xFFFF_FFFFu32) by (bit_vector);
}

/// The byte `byte` with bit `bit` inverted.
pub open spec fn flip_bit(byte: u8, bit: u8) -> u8 {
    byte ^ (1u8 << bit)
}

/// Inverting any single bit of a byte sequence changes its CRC-32.
pub proof fn lemma_bit_flip_changes_crc32(data: Seq<u8>, index: int, bit: u8)
    requires
        0 <= index < data.len(),
        bit < 8,
    ensures
        crc32(data.update(index, flip_bit(data[index], bit))) != crc32(data),
{
    let byte = data[index];
    assert(bit < 8 ==> byte ^ (1u8 << bit) != byte) by (bit_vector);
    lemma_one_byte_changes_crc32(data.update(index, flip_bit(byte, bit)), data, index);
}

/// A running CRC-32 over the bytes handed to it so far.
#[derive(Clone, Copy, Debug)]
pub struct Checksum {
    state: u32,
}

impl Checksum {
    /// The shift register, as it stands.
    pub closed spec fn register(&self) -> u32 {
        self.state
    }

    /// A checksum over no bytes yet.
    pub fn new() -> (r: Self)
        ensures
            r.register() == INITIAL,
    {
        Checksum { state: 0xFFFF_FFFF }
    }

    /// Absorbs `bytes`.
    pub fn update(&mut self, bytes: &[u8])
        ensures
            final(self).register() == absorb(old(self).register(), bytes@),
    {
        let mut state: u32 = self.state;
        let mut i: usize = 0;
        while i < bytes.len()
            invariant
                i <= bytes@.len(),
                state == absorb(old(self).register(), bytes@.take(i as int)),
            decreases bytes@.len() - i,
        {
            proof {
                assert(bytes@.take(i + 1).drop_last() =~= bytes@.take(i as int));
            }
            state = step_byte(state, bytes[i]);
            i += 1;
        }
        proof {
            assert(bytes@.take(i as int) =~= bytes@);
        }
        self.state = state;
    }

    /// The CRC-32 of all bytes absorbed since `new`, provided the register
    /// started from [`INITIAL`].
    pub fn value(&self) -> (r: u32)
        ensures
            r == self.register() ^ 0xFFFF_FFFF,
    {
        self.state ^ 0xFFFF_FFFF
    }
}

/// Four steps of the shift register for each value of the low four bits
/// of a register whose other bits are zero.
pub const NIBBLES: [u32; 16] = [
    0x0000_0000,
    0x1DB7_1064,
    0x3B6E_20C8,
    0x26D9_30AC,
    0x76DC_4190,
    0x6B6B_51F4,
    0x4DB2_6158,
    0x5005_713C,
    0xEDB8_8320,
    0xF00F_9344,
    0xD6D6_A3E8,
    0xCB61_B38C,
    0x9B64_C2B0,
    0x86D3_D2D4,
    0xA00A_E278,
    0xBDBD_F21C,
];

/// Four steps of the shift register.
#[verifier::inline]
pub open spec fn shift4(state: u32) -> u32 {
    shift(shift(shift(shift(state))))
}

/// The table holds four steps of the shift register for each of its
/// sixteen indexes.
proof fn lemma_nibbles(i: u32)
    requires
        i < 16,
    ensures
        NIBBLES[i as int] == shift4(i),
{
    if i == 0 {
        assert(shift4(0) == 0x0000_0000u32) by (bit_vector);
    } else if i == 1 {
        assert(shift4(1) == 0x1DB7_1064u32) by (bit_vector);
    } else if i == 2 {
        assert(shift4(2) == 0x3B6E_20C8u32) by (bit_vector);
    } else if i == 3 {
        assert(shift4(3) == 0x26D9_30ACu32) by (bit_vector);
    } else if i == 4 {
        assert(shift4(4) == 0x76DC_4190u32) by (bit_vector);
    } else if i == 5 {
        assert(shift4(5) == 0x6B6B_51F4u32) by (bit_vector);
    } else if i == 6 {
        assert(shift4(6) == 0x4DB2_6158u32) by (bit_vector);
    } else if i == 7 {
        assert(shift4(7) == 0x5005_713Cu32) by (bit_vector);
    } else if i == 8 {
        assert(shift4(8) == 0xEDB8_8320u32) by (bit_vector);
    } else if i == 9 {
        assert(shift4(9) == 0xF00F_9344u32) by (bit_vector);
    } else if i == 10 {
        assert(shift4(10) == 0xD6D6_A3E8u32) by (bit_vector);
    } else if i == 11 {
        assert(shift4(11) == 0xCB61_B38Cu32) by (bit_vector);
    } else if i == 12 {
        assert(shift4(12) == 0x9B64_C2B0u32) by (bit_vector);
    } else if i == 13 {
        assert(shift4(13) == 0x86D3_D2D4u32) by (bit_vector);
    } else if i == 14 {
        assert(shift4(14) == 0xA00A_E278u32) by (bit_vector);
    } else {
        assert(shift4(15) == 0xBDBD_F21Cu32) by (bit_vector);
    }
}

/// Four steps of the shift register, from the table.
fn step_nibble(state: u32) -> (r: u32)
    ensures
        r == shift_n(state, 4),
{
    let low: u32 = state & 0xf;
    proof {
        assert(state & 0xf < 16) by (bit_vector);
        lemma_nibbles(low);
        assert(shift4(state) == shift4(state & 0xf) ^ (state >> 4)) by (bit_vector);
        reveal_with_fuel(shift_n, 5);
    }
    NIBBLES[low as usize] ^ (state >> 4)
}

fn step_byte(state: u32, byte: u8) -> (r: u32)
    ensures
        r == absorb_byte(state, byte),
{
    let first: u32 = step_nibble(state ^ (byte as u32));
    proof {
        lemma_shift_n_twice(state ^ (byte as u32), 4, 4);
    }
    step_nibble(first)
}

/// Steps of the shift register add up.
proof fn lemma_shift_n_twice(state: u32, m: nat, n: nat)
    ensures
        shift_n(shift_n(state, m), n) == shift_n(state, m + n),
    decreases m,
{
    if m > 0 {
        lemma_shift_n_twice(shift(state), (m - 1) as nat, n);
    }
}

/// The CRC-32 of `data`.
pub fn checksum(data: &[u8]) -> (r: u32)
    ensures
        r == crc32(data@),
{
    let mut c = Checksum::new();
    c.update(data);
    c.value()
}

} // verus!
