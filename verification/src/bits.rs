//! A bit-level reader over a byte buffer.  Bits are numbered most
//! significant first within each byte, and a cursor tracks the position as
//! a byte index plus a bit offset so that arithmetic never overflows.

use vstd::prelude::*;

verus! {

use vstd::arithmetic::power2::{pow2, lemma_pow2_strictly_increases, lemma2_to64};
use vstd::arithmetic::div_mod::lemma_fundamental_div_mod;
use vstd::bits::lemma_u64_shl_is_mul;

/// A position inside a byte buffer: a byte index and a bit offset (most
/// significant bit first) within that byte.
#[derive(Clone, Copy, Debug, PartialEq, Eq, Structural)]
pub struct BitCursor {
    pub byte: usize,
    pub bit: usize,
}

impl BitCursor {
    /// The bit offset stays inside one byte.
    pub open spec fn wf(self) -> bool {
        self.bit < 8
    }

    /// The absolute bit position that the cursor denotes.
    pub open spec fn pos(self) -> int {
        self.byte * 8 + self.bit
    }

    /// A cursor standing at the start of the given byte.
    pub fn at_byte(byte: usize) -> (c: BitCursor)
        ensures
            c.wf(),
            c.byte == byte,
            c.bit == 0,
            c.pos() == byte * 8,
    {
        BitCursor { byte, bit: 0 }
    }
}

proof fn lemma_cursor_pos(c: BitCursor)
    requires
        c.wf(),
    ensures
        c.pos() / 8 == c.byte,
        c.pos() % 8 == c.bit,
{
    assert((c.byte * 8 + c.bit) / 8 == c.byte && (c.byte * 8 + c.bit) % 8 == c.bit)
        by (nonlinear_arith)
        requires
            c.bit < 8,
    ;
}

/// The bit of `byte` at offset `k`, most significant bit first.
pub open spec fn bit_of(byte: u8, k: int) -> u8 {
    (byte >> ((7 - k) as u8)) & 1
}

/// The bit of a byte buffer at absolute bit position `i`.
pub open spec fn stream_bit(bytes: Seq<u8>, i: int) -> u8 {
    bit_of(bytes[i / 8], i % 8)
}

/// The unsigned value of `count` consecutive bits starting at bit
/// position `pos`, most significant bit first.
pub open spec fn bits_value(bytes: Seq<u8>, pos: int, count: nat) -> nat
    decreases count,
{
    if count == 0 {
        0
    } else {
        bits_value(bytes, pos, (count - 1) as nat) * 2 + stream_bit(
            bytes,
            pos + count - 1,
        ) as nat
    }
}

pub proof fn lemma_bits_value_bound(bytes: Seq<u8>, pos: int, count: nat)
    ensures
        bits_value(bytes, pos, count) < pow2(count),
    decreases count,
{
    lemma2_to64();
    if count > 0 {
        lemma_bits_value_bound(bytes, pos, (count - 1) as nat);
        assert(pow2(count) == 2 * pow2((count - 1) as nat)) by {
            vstd::arithmetic::power2::lemma_pow2_unfold(count);
        }
        assert(stream_bit(bytes, pos + count - 1) < 2) by {
            let b: u8 = bytes[(pos + count - 1) / 8];
            let sh: u8 = (7 - (pos + count - 1) % 8) as u8;
            assert((b >> sh) & 1 < 2) by (bit_vector);
        }
    }
}

/// Reads the single bit under the cursor.
fn read_bit(bytes: &[u8], cur: BitCursor) -> (r: u8)
    requires
        cur.wf(),
        cur.byte < bytes@.len(),
    ensures
        r == stream_bit(bytes@, cur.pos()),
        r < 2,
{
    let sh: u8 = (7 - cur.bit) as u8;
    let b: u8 = bytes[cur.byte];
    let r: u8 = (b >> sh) & 1;
    proof {
        lemma_cursor_pos(cur);
        assert((b >> sh) & 1 < 2) by (bit_vector);
    }
    r
}

/// Moves the cursor one bit forward.
fn advance(cur: BitCursor) -> (c: BitCursor)
    requires
        cur.wf(),
        cur.byte < usize::MAX,
    ensures
        c.wf(),
        c.pos() == cur.pos() + 1,
        c.byte <= cur.byte + 1,
{
    if cur.bit == 7 {
        BitCursor { byte: cur.byte + 1, bit: 0 }
    } else {
        BitCursor { byte: cur.byte, bit: cur.bit + 1 }
    }
}

/// Reads `count` bits as an unsigned value, most significant bit first.
/// Returns `None` when the buffer ends before `count` bits are available.
pub fn read_bits(bytes: &[u8], cur: BitCursor, count: usize) -> (r: Option<(u64, BitCursor)>)
    requires
        cur.wf(),
        cur.byte <= bytes@.len(),
        count <= 64,
    ensures
        match r {
            Some((v, c2)) => {
                &&& c2.wf()
                &&& c2.byte <= bytes@.len()
                &&& c2.pos() == cur.pos() + count
                &&& cur.pos() + count <= bytes@.len() * 8
                &&& v == bits_value(bytes@, cur.pos(), count as nat)
            },
            None => cur.pos() + count > bytes@.len() * 8,
        },
{
    let avail: usize = bytes.len() - cur.byte;
    let needed: usize = (cur.bit + count + 7) / 8;
    proof {
        lemma_fundamental_div_mod((cur.bit + count + 7) as int, 8);
        assert(avail < needed ==> cur.pos() + count > bytes@.len() * 8) by (nonlinear_arith)
            requires
                avail == bytes@.len() - cur.byte,
                needed == (cur.bit + count + 7) / 8,
                8 * needed <= cur.bit + count + 7,
                cur.pos() == cur.byte * 8 + cur.bit,
        ;
        assert(avail >= needed ==> cur.pos() + count <= bytes@.len() * 8) by (nonlinear_arith)
            requires
                avail == bytes@.len() - cur.byte,
                needed == (cur.bit + count + 7) / 8,
                8 * needed >= cur.bit + count,
                cur.pos() == cur.byte * 8 + cur.bit,
        ;
    }
    if avail < needed {
        return None;
    }
    let ghost pos0: int = cur.pos();
    let mut v: u64 = 0;
    let mut c: BitCursor = cur;
    let mut k: usize = 0;
    proof {
        lemma2_to64();
    }
    while k < count
        invariant
            k <= count <= 64,
            c.wf(),
            c.pos() == pos0 + k,
            pos0 + count <= bytes@.len() * 8,
            pos0 == cur.pos(),
            bytes@.len() <= usize::MAX,
            c.byte <= bytes@.len(),
            v == bits_value(bytes@, pos0, k as nat),
            v < pow2(k as nat),
        decreases count - k,
    {
        proof {
            assert(c.byte < bytes@.len()) by (nonlinear_arith)
                requires
                    c.byte * 8 + c.bit < bytes@.len() * 8,
                    c.bit < 8,
            ;
            lemma2_to64();
            vstd::arithmetic::power2::lemma_pow2_unfold((k + 1) as nat);
            if k + 1 < 64 {
                lemma_pow2_strictly_increases((k + 1) as nat, 64);
            }
        }
        let b: u8 = read_bit(bytes, c);
        v = v * 2 + (b as u64);
        c = advance(c);
        k += 1;
    }
    Some((v, c))
}

/// The value of `count` bits read as a two's-complement signed number.
pub open spec fn signed_bits_value(bytes: Seq<u8>, pos: int, count: nat) -> int {
    let v = bits_value(bytes, pos, count);
    if v < pow2((count - 1) as nat) {
        v as int
    } else {
        v - pow2(count)
    }
}

/// Reads `count` bits as a two's-complement signed value, most significant
/// bit first.  Returns `None` when the buffer ends too early.
pub fn read_signed_bits(bytes: &[u8], cur: BitCursor, count: usize) -> (r: Option<
    (i64, BitCursor),
>)
    requires
        cur.wf(),
        cur.byte <= bytes@.len(),
        1 <= count <= 34,
    ensures
        match r {
            Some((v, c2)) => {
                &&& c2.wf()
                &&& c2.byte <= bytes@.len()
                &&& c2.pos() == cur.pos() + count
                &&& cur.pos() + count <= bytes@.len() * 8
                &&& v == signed_bits_value(bytes@, cur.pos(), count as nat)
            },
            None => cur.pos() + count > bytes@.len() * 8,
        },
{
    match read_bits(bytes, cur, count) {
        None => None,
        Some((v, c2)) => {
            proof {
                lemma_bits_value_bound(bytes@, cur.pos(), count as nat);
                lemma2_to64();
                vstd::arithmetic::power2::lemma2_to64_rest();
                if ((count - 1) as nat) < 34 {
                    lemma_pow2_strictly_increases((count - 1) as nat, 34);
                }
                if (count as nat) < 34 {
                    lemma_pow2_strictly_increases(count as nat, 34);
                }
                lemma_u64_shl_is_mul(1u64, (count - 1) as u64);
                lemma_u64_shl_is_mul(1u64, count as u64);
            }
            let threshold: u64 = 1u64 << ((count - 1) as u64);
            if v < threshold {
                Some((v as i64, c2))
            } else {
                let modulus: u64 = 1u64 << (count as u64);
                Some(((v as i64) - (modulus as i64), c2))
            }
        },
    }
}

/// Counts the zero bits under the cursor up to and including the
/// terminating one bit (a unary code).  Returns the count of zeros and the
/// cursor placed after the one bit, or `None` when the buffer ends inside
/// the run of zeros.
pub fn leading_zeros(bytes: &[u8], cur: BitCursor) -> (r: Option<(usize, BitCursor)>)
    requires
        cur.wf(),
        cur.byte <= bytes@.len(),
        8 * bytes@.len() <= usize::MAX,
    ensures
        match r {
            Some((n, c2)) => {
                &&& c2.wf()
                &&& c2.byte <= bytes@.len()
                &&& c2.pos() == cur.pos() + n + 1
                &&& cur.pos() + n < bytes@.len() * 8
                &&& forall|i: int|
                    cur.pos() <= i < cur.pos() + n ==> stream_bit(bytes@, i) == 0
                &&& stream_bit(bytes@, cur.pos() + n) == 1
            },
            None => forall|i: int|
                cur.pos() <= i < bytes@.len() * 8 ==> stream_bit(bytes@, i) == 0,
        },
{
    let ghost pos0: int = cur.pos();
    let mut c: BitCursor = cur;
    let mut n: usize = 0;
    while c.byte < bytes.len()
        invariant
            c.wf(),
            c.byte <= bytes@.len(),
            8 * bytes@.len() <= usize::MAX,
            c.pos() == pos0 + n,
            pos0 == cur.pos(),
            forall|i: int| pos0 <= i < pos0 + n ==> stream_bit(bytes@, i) == 0,
        decreases bytes@.len() * 8 - c.pos(),
    {
        proof {
            assert(c.byte * 8 <= (bytes@.len() - 1) * 8) by (nonlinear_arith)
                requires
                    c.byte < bytes@.len(),
            ;
        }
        let b: u8 = read_bit(bytes, c);
        if b == 1 {
            let c2: BitCursor = advance(c);
            return Some((n, c2));
        }
        n = n + 1;
        c = advance(c);
    }
    proof {
        assert(c.byte * 8 == bytes@.len() * 8);
    }
    None
}

} // verus!
