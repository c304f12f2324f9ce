//! The bit stream: a writer that appends unsigned integers of arbitrary bit
//! width to a byte buffer, and a reader that consumes them again.
//!
//! Bits are numbered from the least significant one. The first bit written is
//! bit 0 of the first byte of the output.

use vstd::prelude::*;
use vstd::arithmetic::power2::pow2;
use vstd::string::StringExecFns;
use crate::text::{digits_of, push_digits};

verus! {

/// Bit `i` of `value`, bit 0 being the least significant one.
pub open spec fn bit_at(value: u64, i: int) -> bool {
    0 <= i < 64 && (value >> (i as u64)) & 1 == 1
}

/// The low `count` bits of `value`, least significant first.
pub open spec fn bits_of(value: u64, count: nat) -> Seq<bool> {
    Seq::new(count, |i: int| bit_at(value, i))
}

/// The bits of a byte sequence in stream order: bit `i` of the stream is bit
/// `i % 8` of byte `i / 8`.
pub open spec fn bits_of_bytes(bytes: Seq<u8>) -> Seq<bool> {
    Seq::new(bytes.len() * 8, |i: int| bit_at(bytes[i / 8] as u64, i % 8))
}

/// The unsigned integer whose binary digits, least significant first, are `bits`.
pub open spec fn bits_value(bits: Seq<bool>) -> nat
    decreases bits.len(),
{
    if bits.len() == 0 {
        0
    } else {
        (if bits[0] { 1nat } else { 0nat }) + 2 * bits_value(bits.drop_first())
    }
}

/// `count` zero bits.
pub open spec fn zero_bits(count: nat) -> Seq<bool> {
    Seq::new(count, |i: int| false)
}

/// Whether `value` can be written in `count` bits.
pub open spec fn fits_in(value: u64, count: u8) -> bool {
    count <= 64 && (count < 64 ==> value < pow2(count as nat))
}

/// The number of zero bits that pad a stream of `len` bits to a whole byte.
pub open spec fn padding(len: nat) -> nat {
    ((8 - len % 8) % 8) as nat
}

/// The bytes that hold `bits` in stream order, the last one padded with zero
/// bits to a whole byte.
pub open spec fn pack_bits(bits: Seq<bool>) -> Seq<u8> {
    Seq::new(
        (bits.len() + 7) / 8,
        |j: int| bits_value((bits + zero_bits(padding(bits.len()))).subrange(8 * j, 8 * j + 8)) as u8,
    )
}

/// The number of binary digits of `n`: the least `w` with `n < 2^w`.
pub open spec fn bit_length(n: nat) -> nat
    decreases n,
{
    if n == 0 {
        0
    } else {
        1 + bit_length(n / 2)
    }
}

/// A number is below two to the power of its bit length.
pub proof fn lemma_bit_length_covers(n: nat)
    ensures
        n < pow2(bit_length(n)),
    decreases n,
{
    if n == 0 {
        vstd::arithmetic::power2::lemma2_to64();
    } else {
        lemma_bit_length_covers(n / 2);
        vstd::arithmetic::power2::lemma_pow2_unfold(bit_length(n));
    }
}

/// A number below `2^w` has at most `w` binary digits.
pub proof fn lemma_bit_length_below(n: nat, w: nat)
    requires
        n < pow2(w),
    ensures
        bit_length(n) <= w,
    decreases n,
{
    if n > 0 {
        if w == 0 {
            vstd::arithmetic::power2::lemma2_to64();
        } else {
            vstd::arithmetic::power2::lemma_pow2_unfold(w);
            lemma_bit_length_below(n / 2, (w - 1) as nat);
        }
    }
}

/// The number of binary digits of `value`.
pub fn bit_length_of(value: u64) -> (width: u8)
    ensures
        width == bit_length(value as nat),
        width <= 64,
{
    let mut rest: u64 = value;
    let mut width: u8 = 0;
    proof {
        vstd::arithmetic::power2::lemma2_to64();
    }
    while rest > 0
        invariant
            width <= 64,
            bit_length(value as nat) == width + bit_length(rest as nat),
            rest as nat * pow2(width as nat) <= value,
        decreases rest,
    {
        proof {
            if width == 64 {
                vstd::arithmetic::power2::lemma2_to64_rest();
                assert(rest as nat * pow2(64) >= pow2(64)) by (nonlinear_arith)
                    requires
                        rest >= 1,
                ;
            }
            vstd::arithmetic::power2::lemma_pow2_unfold((width + 1) as nat);
            assert((rest / 2) as nat * (2 * pow2(width as nat)) <= rest as nat * pow2(
                width as nat,
            )) by (nonlinear_arith)
                requires
                    (rest / 2) * 2 <= rest,
            ;
        }
        rest = rest / 2;
        width = width + 1;
    }
    width
}

/// Why a write was refused.
#[derive(Debug)]
pub enum WriteError {
    /// The value does not fit in the requested number of bits, or more than
    /// 64 bits were requested.
    ValueTooLarge(String),
}

/// Why a read was refused.
#[derive(Debug)]
pub enum ReadError {
    /// Fewer bits remain in the input than were requested.
    NotEnoughBits(String),
    /// More than 64 bits were requested at once.
    InvalidBitCount(String),
}

/// Bits below the place where a value is merged in stay as they were.
proof fn lemma_or_keeps_low(b: u64, v: u64, f: u64, i: u64)
    by (bit_vector)
    requires
        f < 64,
        i < f,
    ensures
        ((b | (v << f)) >> i) & 1 == (b >> i) & 1,
{
}

/// A value merged into a word above its used bits appears there bit by bit.
proof fn lemma_or_places_high(b: u64, v: u64, f: u64, i: u64)
    by (bit_vector)
    requires
        f <= i < 64,
        b >> f == 0,
    ensures
        ((b | (v << f)) >> i) & 1 == (v >> ((i - f) as u64)) & 1,
{
}

/// A word with a value merged in uses no bit above those of both.
proof fn lemma_or_stays_below(b: u64, v: u64, f: u64, c: u64)
    by (bit_vector)
    requires
        f + c < 64,
        b >> f == 0,
        v >> c == 0,
    ensures
        (b | (v << f)) >> ((f + c) as u64) == 0,
{
}

/// Bit `i` of a word shifted down by `a` is bit `a + i` of the word.
proof fn lemma_shr_bit(v: u64, a: u64, i: u64)
    by (bit_vector)
    requires
        a < 64,
        i < 64,
    ensures
        ((v >> a) >> i) & 1 == 1 <==> (a + i < 64 && (v >> ((a + i) as u64)) & 1 == 1),
{
}

/// What is left of a value of `c` bits after the low `a` bits are taken fits
/// in `c - a` bits.
proof fn lemma_shr_stays_below(v: u64, a: u64, c: u64)
    by (bit_vector)
    requires
        a <= c <= 64,
        c < 64 ==> v >> c == 0,
        0 < a,
    ensures
        (v >> a) >> ((c - a) as u64) == 0,
{
}

/// Bit `k` of byte `j` of a word is bit `8 * j + k` of the word.
proof fn lemma_byte_bit(b: u64, j: u64, k: u64)
    by (bit_vector)
    requires
        j < 8,
        k < 8,
    ensures
        ((((b >> ((8 * j) as u64)) as u8) as u64) >> k) & 1 == (b >> ((8 * j + k) as u64)) & 1,
{
}

/// A value has no bit at or above `c` exactly when it is below `2^c`.
proof fn lemma_below_pow2(v: u64, c: u64)
    requires
        c < 64,
    ensures
        v >> c == 0 <==> v < pow2(c as nat),
        (1u64 << c) == pow2(c as nat),
{
    vstd::bits::lemma_u64_pow2_no_overflow(c as nat);
    vstd::bits::lemma_u64_shl_is_mul(1, c);
    let p: u64 = 1u64 << c;
    assert(v >> c == 0 <==> v < p) by (bit_vector)
        requires
            c < 64,
            p == 1u64 << c,
    ;
}

/// A value that fits in `a` bits fits in any greater count of bits.
proof fn lemma_stays_below_wider(v: u64, a: u64, b: u64)
    by (bit_vector)
    requires
        a <= b < 64,
        v >> a == 0,
    ensures
        v >> b == 0,
{
}

/// A value that fits in `f` bits has no bit set at or above `f`.
proof fn lemma_high_bits_zero(b: u64, f: u64, i: u64)
    by (bit_vector)
    requires
        f <= i < 64,
        b >> f == 0,
    ensures
        (b >> i) & 1 == 0,
{
}

/// The bits of two byte sequences laid end to end are the bits of the first
/// followed by the bits of the second.
pub proof fn lemma_bits_of_bytes_concat(a: Seq<u8>, b: Seq<u8>)
    ensures
        bits_of_bytes(a + b) == bits_of_bytes(a) + bits_of_bytes(b),
{
    assert(bits_of_bytes(a + b) =~= bits_of_bytes(a) + bits_of_bytes(b));
}

/// The `n` low bytes of `buffer`, least significant first.
pub open spec fn low_bytes(buffer: u64, n: nat) -> Seq<u8> {
    Seq::new(n, |j: int| (buffer >> ((8 * j) as u64)) as u8)
}

/// The bits of the low bytes of a word are the low bits of the word.
proof fn lemma_bits_of_low_bytes(buffer: u64, n: nat)
    requires
        n <= 8,
    ensures
        bits_of_bytes(low_bytes(buffer, n)) == bits_of(buffer, 8 * n),
{
    assert forall|i: int| 0 <= i < 8 * n implies bits_of_bytes(low_bytes(buffer, n))[i] == bits_of(
        buffer,
        8 * n,
    )[i] by {
        let j = i / 8;
        let k = i % 8;
        lemma_byte_bit(buffer, j as u64, k as u64);
    }
    assert(bits_of_bytes(low_bytes(buffer, n)) =~= bits_of(buffer, 8 * n));
}

/// A byte has no bit at or above place 8.
proof fn lemma_byte_is_narrow(byte: u8)
    by (bit_vector)
    ensures
        (byte as u64) >> 8 == 0,
{
}

/// Packing is the inverse of laying bytes out as bits: a byte sequence whose
/// bits are `bits` followed by the zero padding is the packing of `bits`.
pub proof fn lemma_pack_bits_unique(bytes: Seq<u8>, bits: Seq<bool>)
    requires
        bits_of_bytes(bytes) == bits + zero_bits(padding(bits.len())),
    ensures
        bytes == pack_bits(bits),
{
    let padded = bits + zero_bits(padding(bits.len()));
    assert(padded.len() == 8 * bytes.len());
    assert forall|j: int| 0 <= j < bytes.len() implies bytes[j] == pack_bits(bits)[j] by {
        lemma_byte_is_narrow(bytes[j]);
        lemma_bits_value_of_shifted(bytes[j] as u64, 8);
        assert(padded.subrange(8 * j, 8 * j + 8) =~= bits_of(bytes[j] as u64, 8)) by {
            assert forall|k: int| 0 <= k < 8 implies padded.subrange(8 * j, 8 * j + 8)[k]
                == #[trigger] bits_of(bytes[j] as u64, 8)[k] by {
                assert(padded[8 * j + k] == bits_of_bytes(bytes)[8 * j + k]);
                assert((8 * j + k) / 8 == j);
                assert((8 * j + k) % 8 == k);
            }
        }
    }
    assert(bytes =~= pack_bits(bits));
}

/// The bits of the packing of `bits` are `bits` followed by the zero padding.
pub proof fn lemma_bits_of_pack_bits(bits: Seq<bool>)
    ensures
        bits_of_bytes(pack_bits(bits)) == bits + zero_bits(padding(bits.len())),
{
    let padded = bits + zero_bits(padding(bits.len()));
    let packed = pack_bits(bits);
    assert forall|i: int| 0 <= i < padded.len() implies bits_of_bytes(packed)[i] == padded[i] by {
        let j = i / 8;
        let k = i % 8;
        let chunk = padded.subrange(8 * j, 8 * j + 8);
        lemma_bits_value_bound(chunk);
        vstd::arithmetic::power2::lemma2_to64();
        let byte = bits_value(chunk) as u8;
        lemma_bits_of_value(chunk);
        assert(bits_of(byte as u64, 8)[k] == chunk[k]);
    }
    assert(bits_of_bytes(packed) =~= padded);
}

/// Appends the `n` low bytes of `buffer` to `bytes`, least significant first.
fn push_low_bytes(bytes: &mut Vec<u8>, buffer: u64, n: u8)
    requires
        n <= 8,
    ensures
        final(bytes)@ == old(bytes)@ + low_bytes(buffer, n as nat),
{
    let mut j: u8 = 0;
    while j < n
        invariant
            j <= n <= 8,
            bytes@ == old(bytes)@ + low_bytes(buffer, j as nat),
        decreases n - j,
    {
        let byte: u8 = (buffer >> (8 * j) as u64) as u8;
        bytes.push(byte);
        j = j + 1;
        assert(bytes@ =~= old(bytes)@ + low_bytes(buffer, j as nat));
    }
}

/// Appends unsigned integers of arbitrary bit width to a byte buffer.
///
/// Whole groups of 64 bits are stored in the output as eight little-endian
/// bytes; the bits written since the last such group wait in a staging word.
#[derive(Debug)]
pub struct BitWriter {
    bytes: Vec<u8>,
    buffer: u64,
    buffer_filled: u8,
}

impl View for BitWriter {
    type V = Seq<bool>;

    /// The bits written so far, in the order they were written.
    closed spec fn view(&self) -> Seq<bool> {
        bits_of_bytes(self.bytes@) + bits_of(self.buffer, self.buffer_filled as nat)
    }
}

impl BitWriter {
    #[verifier::type_invariant]
    spec fn staged(&self) -> bool {
        &&& self.buffer_filled <= 64
        &&& self.buffer_filled < 64 ==> self.buffer >> (self.buffer_filled as u64) == 0
    }

    /// An empty writer whose output buffer has room for `capacity` bytes.
    pub fn with_capacity(capacity: usize) -> (writer: Self)
        ensures
            writer@ == Seq::<bool>::empty(),
    {
        assert(0u64 >> 0u64 == 0) by (bit_vector);
        let writer = BitWriter { bytes: Vec::with_capacity(capacity), buffer: 0, buffer_filled: 0 };
        assert(writer@ =~= Seq::<bool>::empty());
        writer
    }

    /// Appends the low `count` bits of `value`, least significant first.
    ///
    /// The write is refused, and nothing is appended, when `count` exceeds 64
    /// or `value` has a bit set at or above position `count`.
    pub fn write(&mut self, value: u64, count: u8) -> (r: Result<(), WriteError>)
        ensures
            r is Ok <==> fits_in(value, count),
            r is Ok ==> final(self)@ == old(self)@ + bits_of(value, count as nat),
            r is Err ==> final(self)@ == old(self)@,
            r matches Err(WriteError::ValueTooLarge(message)) ==> message@
                == value_too_large_message(value, count),
    {
        proof {
            use_type_invariant(&*self);
            if count < 64 {
                lemma_below_pow2(value, count as u64);
            }
        }
        if count > 64 || (count < 64 && value >= (1u64 << count)) {
            return Err(WriteError::ValueTooLarge(value_too_large_text(value, count)));
        }
        let filled: u8 = self.buffer_filled;
        let ghost old_bits = self@;
        let ghost old_buffer = self.buffer;
        if count == 0 {
            assert(old_bits + bits_of(value, 0) =~= old_bits);
            return Ok(());
        }
        if filled + count > 64 {
            let available: u8 = 64 - filled;
            let merged: u64 = if available > 0 {
                self.buffer | (value << filled)
            } else {
                self.buffer
            };
            let mut bytes: Vec<u8> = Vec::new();
            std::mem::swap(&mut bytes, &mut self.bytes);
            push_low_bytes(&mut bytes, merged, 8);
            self.bytes = bytes;
            let rest: u64 = value >> available;
            proof {
                if available > 0 {
                    lemma_shr_stays_below(value, available as u64, count as u64);
                    lemma_stays_below_wider(rest, (count - available) as u64, filled as u64);
                } else {
                    assert(value >> 0u64 == value) by (bit_vector);
                }
            }
            self.buffer = rest;
            self.buffer_filled = count - available;
            proof {
                lemma_bits_of_bytes_concat(old(self).bytes@, low_bytes(merged, 8));
                lemma_bits_of_low_bytes(merged, 8);
                assert forall|i: int| 0 <= i < 64 implies bits_of(merged, 64)[i] == (bits_of(
                    old_buffer,
                    filled as nat,
                ) + bits_of(value, available as nat))[i] by {
                    if available > 0 {
                        if i < filled {
                            lemma_or_keeps_low(old_buffer, value, filled as u64, i as u64);
                        } else {
                            lemma_or_places_high(old_buffer, value, filled as u64, i as u64);
                        }
                    }
                }
                assert(bits_of(merged, 64) =~= bits_of(old_buffer, filled as nat) + bits_of(
                    value,
                    available as nat,
                ));
                assert forall|i: int| 0 <= i < count - available implies #[trigger] bits_of(
                    rest,
                    (count - available) as nat,
                )[i] == bits_of(value, count as nat)[available + i] by {
                    lemma_shr_bit(value, available as u64, i as u64);
                }
                assert(bits_of(value, count as nat) =~= bits_of(value, available as nat) + bits_of(
                    rest,
                    (count - available) as nat,
                ));
                assert(self@ =~= old_bits + bits_of(value, count as nat));
            }
        } else {
            let merged: u64 = self.buffer | (value << filled);
            proof {
                if filled + count < 64 {
                    lemma_or_stays_below(old_buffer, value, filled as u64, count as u64);
                    lemma_stays_below_wider(old_buffer, filled as u64, (filled + count) as u64);
                }
            }
            self.buffer_filled = filled + count;
            self.buffer = merged;
            proof {
                assert forall|i: int| 0 <= i < filled + count implies bits_of(
                    merged,
                    (filled + count) as nat,
                )[i] == (bits_of(old_buffer, filled as nat) + bits_of(value, count as nat))[i] by {
                    if i < filled {
                        lemma_or_keeps_low(old_buffer, value, filled as u64, i as u64);
                    } else {
                        lemma_or_places_high(old_buffer, value, filled as u64, i as u64);
                    }
                }
                assert(bits_of(merged, (filled + count) as nat) =~= bits_of(
                    old_buffer,
                    filled as nat,
                ) + bits_of(value, count as nat));
                assert(self@ =~= old_bits + bits_of(value, count as nat));
            }
        }
        Ok(())
    }

    /// The bytes that hold the bits written, the last byte padded with zero
    /// bits in its high positions.
    pub fn into_bytes(self) -> (bytes: Vec<u8>)
        ensures
            bytes@ == pack_bits(self@),
    {
        proof {
            use_type_invariant(&self);
        }
        let additional: u8 = (self.buffer_filled + 7) / 8;
        let mut bytes = self.bytes;
        push_low_bytes(&mut bytes, self.buffer, additional);
        proof {
            let filled = self.buffer_filled as nat;
            lemma_bits_of_bytes_concat(self.bytes@, low_bytes(self.buffer, additional as nat));
            lemma_bits_of_low_bytes(self.buffer, additional as nat);
            assert(padding(self@.len()) == 8 * additional - filled);
            assert forall|i: int| 0 <= i < 8 * additional implies bits_of(
                self.buffer,
                8 * additional as nat,
            )[i] == (bits_of(self.buffer, filled) + zero_bits(padding(self@.len())))[i] by {
                if i >= filled {
                    lemma_high_bits_zero(self.buffer, filled as u64, i as u64);
                }
            }
            assert(bits_of(self.buffer, 8 * additional as nat) =~= bits_of(self.buffer, filled)
                + zero_bits(padding(self@.len())));
            assert(bits_of_bytes(bytes@) =~= self@ + zero_bits(padding(self@.len())));
            lemma_pack_bits_unique(bytes@, self@);
        }
        bytes
    }
}


/// A word is its lowest bit and twice the rest, and the rest fits in one bit
/// less.
proof fn lemma_shr_one_stays_below(v: u64, c: u64)
    by (bit_vector)
    requires
        0 < c <= 64,
        c < 64 ==> v >> c == 0,
    ensures
        (v >> 1) >> ((c - 1) as u64) == 0,
        v == (v & 1) + 2 * (v >> 1),
        v & 1 == 0 || v & 1 == 1,
        (v >> 0) & 1 == v & 1,
{
}

/// A value that fits in no bits is zero.
proof fn lemma_zero_bits_wide(v: u64)
    by (bit_vector)
    requires
        v >> 0 == 0,
    ensures
        v == 0,
{
}

/// Reading back the bits of a value that has no bit above them gives the
/// value.
proof fn lemma_bits_value_of_shifted(value: u64, count: nat)
    requires
        count <= 64,
        count < 64 ==> value >> (count as u64) == 0,
    ensures
        bits_value(bits_of(value, count)) == value,
    decreases count,
{
    if count == 0 {
        lemma_zero_bits_wide(value);
    } else {
        let rest: u64 = value >> 1;
        lemma_shr_one_stays_below(value, count as u64);
        lemma_bits_value_of_shifted(rest, (count - 1) as nat);
        assert forall|i: int| 0 <= i < count - 1 implies bits_of(value, count).drop_first()[i]
            == bits_of(rest, (count - 1) as nat)[i] by {
            lemma_shr_bit(value, 1, i as u64);
        }
        assert(bits_of(value, count).drop_first() =~= bits_of(rest, (count - 1) as nat));
    }
}

/// Reading back the bits of a value that fits in them gives the value.
pub proof fn lemma_bits_value_of(value: u64, count: nat)
    requires
        count <= 64,
        count < 64 ==> value < pow2(count),
    ensures
        bits_value(bits_of(value, count)) == value,
{
    if count < 64 {
        lemma_below_pow2(value, count as u64);
    }
    lemma_bits_value_of_shifted(value, count);
}

/// Twice a value with a bit added has that bit lowest and the value above it.
proof fn lemma_even_odd_bits(v: u64, b: u64)
    by (bit_vector)
    requires
        b <= 1,
        v <= 0x7FFF_FFFF_FFFF_FFFF,
    ensures
        ((b + 2 * v) as u64) & 1 == b,
        ((b + 2 * v) as u64) >> 1 == v,
        (((b + 2 * v) as u64) >> 0) & 1 == b,
{
}

/// The low bits of the value of at most 64 bits are those bits.
pub proof fn lemma_bits_of_value(bits: Seq<bool>)
    requires
        bits.len() <= 64,
    ensures
        bits_value(bits) <= u64::MAX,
        bits_of(bits_value(bits) as u64, bits.len()) == bits,
    decreases bits.len(),
{
    lemma_bits_value_bound(bits);
    vstd::arithmetic::power2::lemma2_to64();
    vstd::arithmetic::power2::lemma2_to64_rest();
    assert(pow2(bits.len()) <= pow2(64)) by {
        if bits.len() < 64 {
            vstd::arithmetic::power2::lemma_pow2_strictly_increases(bits.len(), 64);
        }
    }
    if bits.len() > 0 {
        let rest = bits.drop_first();
        lemma_bits_of_value(rest);
        lemma_bits_value_bound(rest);
        assert(pow2(rest.len()) <= pow2(63)) by {
            if rest.len() < 63 {
                vstd::arithmetic::power2::lemma_pow2_strictly_increases(rest.len(), 63);
            }
        }
        let low: u64 = if bits[0] { 1 } else { 0 };
        let high: u64 = bits_value(rest) as u64;
        let value: u64 = bits_value(bits) as u64;
        lemma_even_odd_bits(high, low);
        assert forall|i: int| 0 <= i < bits.len() implies #[trigger] bits_of(value, bits.len())[i]
            == bits[i] by {
            if i > 0 {
                lemma_shr_bit(value, 1, (i - 1) as u64);
                assert(bits_of(high, rest.len())[i - 1] == rest[i - 1]);
            }
        }
        assert(bits_of(value, bits.len()) =~= bits);
    } else {
        assert(bits_of(0, 0) =~= bits);
    }
}

/// The value of `n` bits is below `2^n`.
pub proof fn lemma_bits_value_bound(bits: Seq<bool>)
    ensures
        bits_value(bits) < pow2(bits.len()),
    decreases bits.len(),
{
    if bits.len() == 0 {
        vstd::arithmetic::power2::lemma2_to64();
    } else {
        lemma_bits_value_bound(bits.drop_first());
        vstd::arithmetic::power2::lemma_pow2_unfold(bits.len());
    }
}

/// Bit `i` of the 128-bit word `value`.
spec fn wide_bit_at(value: u128, i: int) -> bool {
    0 <= i < 128 && (value >> (i as u128)) & 1 == 1
}

/// The low `count` bits of the 128-bit word `value`, least significant first.
spec fn wide_bits_of(value: u128, count: nat) -> Seq<bool> {
    Seq::new(count, |i: int| wide_bit_at(value, i))
}

/// Bits below the place where a byte is merged into the staging word stay as
/// they were.
proof fn lemma_wide_or_keeps_low(b: u128, x: u128, f: u128, i: u128)
    by (bit_vector)
    requires
        i < f < 128,
    ensures
        ((b | (x << f)) >> i) & 1 == (b >> i) & 1,
{
}

/// A byte merged into the staging word above its used bits appears there bit
/// by bit.
proof fn lemma_wide_or_places_byte(b: u128, byte: u8, f: u128, i: u128)
    by (bit_vector)
    requires
        f <= i < f + 8,
        f + 8 <= 128,
        b >> f == 0,
    ensures
        ((b | ((byte as u128) << f)) >> i) & 1 == 1 <==> ((byte as u64) >> ((i - f) as u64)) & 1
            == 1,
{
}

/// The staging word with a byte merged in uses eight bits more.
proof fn lemma_wide_or_stays_below(b: u128, byte: u8, f: u128)
    by (bit_vector)
    requires
        f + 8 < 128,
        b >> f == 0,
    ensures
        (b | ((byte as u128) << f)) >> ((f + 8) as u128) == 0,
{
}

/// The low `c` bits of the staging word, taken out as a 64-bit value, are its
/// bits.
proof fn lemma_wide_low_part(b: u128, c: u128, i: u128)
    by (bit_vector)
    requires
        i < c <= 64,
    ensures
        (((b & (((1u128 << c) - 1) as u128)) as u64) >> (i as u64)) & 1 == 1 <==> (b >> i) & 1 == 1,
{
}

/// The low `c` bits of the staging word fit in `c` bits.
proof fn lemma_wide_low_part_below(b: u128, c: u128)
    by (bit_vector)
    requires
        c < 64,
    ensures
        ((b & (((1u128 << c) - 1) as u128)) as u64) >> (c as u64) == 0,
        (1u128 << c) >= 1,
{
}

/// Bit `i` of the staging word shifted down by `c` is bit `c + i` of the word.
proof fn lemma_wide_shr_bit(b: u128, c: u128, i: u128)
    by (bit_vector)
    requires
        c <= 64,
        c + i < 128,
    ensures
        ((b >> c) >> i) & 1 == (b >> ((c + i) as u128)) & 1,
{
}

/// The staging word shifted down by `c` uses `c` bits less.
proof fn lemma_wide_shr_stays_below(b: u128, c: u128, f: u128)
    by (bit_vector)
    requires
        c <= f < 128,
        c <= 64,
        b >> f == 0,
    ensures
        (b >> c) >> ((f - c) as u128) == 0,
{
}

/// Consumes unsigned integers of arbitrary bit width from a byte sequence, in
/// the order in which a [`BitWriter`] appended them.
///
/// Unconsumed bits wait in a 128-bit staging word that is refilled from the
/// input, up to eight bytes at a time, whenever it holds too few of them.
#[derive(Debug)]
pub struct BitReader<'a> {
    bytes: &'a [u8],
    buffer: u128,
    filled: u8,
    byte_idx: usize,
}

impl<'a> BitReader<'a> {
    #[verifier::type_invariant]
    spec fn staged(&self) -> bool {
        &&& self.byte_idx <= self.bytes@.len()
        &&& self.filled < 128
        &&& self.filled <= 8 * self.byte_idx
        &&& self.buffer >> (self.filled as u128) == 0
        &&& wide_bits_of(self.buffer, self.filled as nat) == bits_of_bytes(self.bytes@).subrange(
            8 * self.byte_idx - self.filled,
            8 * self.byte_idx as int,
        )
    }

    /// The bytes that are being read.
    pub closed spec fn input(&self) -> Seq<u8> {
        self.bytes@
    }

    /// The number of bits consumed so far.
    pub closed spec fn position(&self) -> nat {
        (8 * self.byte_idx - self.filled) as nat
    }

    /// The number of bits not yet consumed.
    pub open spec fn remaining(&self) -> int {
        8 * self.input().len() - self.position()
    }

    /// A reader at the first bit of `bytes`.
    pub fn new(bytes: &'a [u8]) -> (reader: Self)
        ensures
            reader.input() == bytes@,
            reader.position() == 0,
    {
        assert(0u128 >> 0u128 == 0) by (bit_vector);
        assert(wide_bits_of(0, 0) =~= bits_of_bytes(bytes@).subrange(0, 0));
        BitReader { bytes, buffer: 0, filled: 0, byte_idx: 0 }
    }

    /// The bytes that are being read.
    pub fn bytes(&self) -> (bytes: &'a [u8])
        ensures
            bytes@ == self.input(),
    {
        self.bytes
    }

    /// Moves up to eight bytes of the input into the staging word.
    fn refill(&mut self)
        requires
            old(self).filled < 64,
        ensures
            final(self).input() == old(self).input(),
            final(self).position() == old(self).position(),
            final(self).filled as int == old(self).filled + 8 * (final(self).byte_idx - old(
                self,
            ).byte_idx),
            final(self).byte_idx - old(self).byte_idx == if old(self).bytes@.len() - old(
                self,
            ).byte_idx >= 8 {
                8
            } else {
                old(self).bytes@.len() - old(self).byte_idx
            },
    {
        proof {
            use_type_invariant(&*self);
        }
        let bytes: &'a [u8] = self.bytes;
        let mut buffer: u128 = self.buffer;
        let mut filled: u8 = self.filled;
        let mut byte_idx: usize = self.byte_idx;
        let mut loaded: u8 = 0;
        let ghost all = bits_of_bytes(bytes@);
        while loaded < 8 && byte_idx < bytes.len()
            invariant
                loaded <= 8,
                byte_idx <= bytes@.len(),
                byte_idx == old(self).byte_idx + loaded,
                filled == old(self).filled + 8 * loaded,
                old(self).filled < 64,
                filled <= 8 * byte_idx,
                buffer >> (filled as u128) == 0,
                all == bits_of_bytes(bytes@),
                wide_bits_of(buffer, filled as nat) == all.subrange(
                    8 * byte_idx - filled,
                    8 * byte_idx as int,
                ),
            decreases 8 - loaded,
        {
            let byte: u8 = bytes[byte_idx];
            let merged: u128 = buffer | ((byte as u128) << filled);
            proof {
                lemma_wide_or_stays_below(buffer, byte, filled as u128);
                assert forall|i: int| 0 <= i < filled + 8 implies #[trigger] wide_bits_of(
                    merged,
                    (filled + 8) as nat,
                )[i] == all.subrange(8 * byte_idx - filled, 8 * byte_idx + 8)[i] by {
                    if i < filled {
                        lemma_wide_or_keeps_low(buffer, byte as u128, filled as u128, i as u128);
                        assert(wide_bits_of(buffer, filled as nat)[i] == all.subrange(
                            8 * byte_idx - filled,
                            8 * byte_idx as int,
                        )[i]);
                    } else {
                        lemma_wide_or_places_byte(buffer, byte, filled as u128, i as u128);
                        assert((8 * byte_idx + (i - filled)) / 8 == byte_idx as int);
                        assert((8 * byte_idx + (i - filled)) % 8 == i - filled);
                    }
                }
                assert(wide_bits_of(merged, (filled + 8) as nat) =~= all.subrange(
                    8 * byte_idx - filled,
                    8 * byte_idx + 8,
                ));
            }
            buffer = merged;
            filled = filled + 8;
            byte_idx = byte_idx + 1;
            loaded = loaded + 1;
        }
        *self = BitReader { bytes, buffer, filled, byte_idx };
    }

    /// Consumes the next `count` bits and returns them as the low bits of the
    /// result, the first bit consumed being the least significant one.
    ///
    /// Nothing is consumed when the read is refused: because `count` exceeds
    /// 64, or because fewer than `count` bits remain. The error says how many
    /// bits were asked for and, in the second case, how many remain.
    pub fn read(&mut self, count: u8) -> (r: Result<u64, ReadError>)
        ensures
            final(self).input() == old(self).input(),
            match r {
                Ok(value) => {
                    &&& count <= 64
                    &&& count <= old(self).remaining()
                    &&& final(self).position() == old(self).position() + count
                    &&& value == bits_value(
                        bits_of_bytes(old(self).input()).subrange(
                            old(self).position() as int,
                            old(self).position() + count,
                        ),
                    )
                },
                Err(ReadError::InvalidBitCount(message)) => {
                    &&& count > 64
                    &&& final(self).position() == old(self).position()
                    &&& message@ == invalid_bit_count_message(count)
                },
                Err(ReadError::NotEnoughBits(message)) => {
                    &&& count <= 64
                    &&& count > old(self).remaining()
                    &&& final(self).position() == old(self).position()
                    &&& message@ == not_enough_bits_message(count, old(self).remaining() as nat)
                },
            },
    {
        proof {
            use_type_invariant(&*self);
        }
        if count > 64 {
            return Err(ReadError::InvalidBitCount(invalid_bit_count_text(count)));
        }
        if self.filled < count {
            let missing: u8 = count - self.filled;
            let unread: usize = self.bytes.len() - self.byte_idx;
            if unread < 8 && (unread as u8) * 8 < missing {
                let available: u64 = self.filled as u64 + unread as u64 * 8;
                return Err(ReadError::NotEnoughBits(not_enough_bits_text(count, available)));
            }
            self.refill();
        }
        proof {
            use_type_invariant(&*self);
        }
        let ghost all = bits_of_bytes(self.bytes@);
        let ghost start = self.position() as int;
        let buffer: u128 = self.buffer;
        let filled: u8 = self.filled;
        proof {
            if count < 64 {
                lemma_wide_low_part_below(buffer, count as u128);
            }
            assert((1u128 << 64u128) - 1 == 0xFFFF_FFFF_FFFF_FFFFu128) by (bit_vector);
            assert(1u128 << 64u128 >= 1) by (bit_vector);
        }
        let mask: u128 = if count == 64 {
            0xFFFF_FFFF_FFFF_FFFF
        } else {
            (1u128 << count) - 1
        };
        let value: u64 = #[verifier::truncate]
        ((buffer & mask) as u64);
        let rest: u128 = buffer >> count;
        proof {
            lemma_wide_shr_stays_below(buffer, count as u128, filled as u128);
            assert forall|i: int| 0 <= i < filled - count implies #[trigger] wide_bits_of(
                rest,
                (filled - count) as nat,
            )[i] == all.subrange(start + count, start + filled)[i] by {
                lemma_wide_shr_bit(buffer, count as u128, i as u128);
                assert(wide_bits_of(buffer, filled as nat)[count + i] == all.subrange(
                    start,
                    start + filled,
                )[count + i]);
            }
            assert(wide_bits_of(rest, (filled - count) as nat) =~= all.subrange(
                start + count,
                start + filled,
            ));
            assert forall|i: int| 0 <= i < count implies #[trigger] bits_of(value, count as nat)[i]
                == all.subrange(start, start + count)[i] by {
                lemma_wide_low_part(buffer, count as u128, i as u128);
                assert(wide_bits_of(buffer, filled as nat)[i] == all.subrange(
                    start,
                    start + filled,
                )[i]);
            }
            assert(bits_of(value, count as nat) =~= all.subrange(start, start + count));
            lemma_bits_value_of_shifted(value, count as nat);
        }
        *self = BitReader { bytes: self.bytes, buffer: rest, filled: filled - count, byte_idx: self.byte_idx };
        Ok(value)
    }
}

/// The text carried by [`WriteError::ValueTooLarge`].
fn value_too_large_text(value: u64, count: u8) -> (text: String)
    ensures
        text@ == value_too_large_message(value, count),
{
    let mut text = String::from_str("Value ");
    push_digits(&mut text, value);
    text.append(" exceeds the maximum for ");
    push_digits(&mut text, count as u64);
    text.append(" bits");
    text
}

/// The text carried by [`ReadError::InvalidBitCount`].
fn invalid_bit_count_text(count: u8) -> (text: String)
    ensures
        text@ == invalid_bit_count_message(count),
{
    let mut text = String::from_str("Requested ");
    push_digits(&mut text, count as u64);
    text.append(" bits, but maximum is 64");
    text
}

/// The text carried by [`ReadError::NotEnoughBits`].
fn not_enough_bits_text(count: u8, available: u64) -> (text: String)
    ensures
        text@ == not_enough_bits_message(count, available as nat),
{
    let mut text = String::from_str("Requested ");
    push_digits(&mut text, count as u64);
    text.append(" bits, but only ");
    push_digits(&mut text, available);
    text.append(" bits available");
    text
}

/// What a refused write says: the value and the count of bits, in decimal.
pub open spec fn value_too_large_message(value: u64, count: u8) -> Seq<char> {
    "Value "@ + digits_of(value as nat) + " exceeds the maximum for "@ + digits_of(count as nat)
        + " bits"@
}

/// What a read of more than 64 bits says: the count of bits asked for, in
/// decimal.
pub open spec fn invalid_bit_count_message(count: u8) -> Seq<char> {
    "Requested "@ + digits_of(count as nat) + " bits, but maximum is 64"@
}

/// What a read beyond the end of the input says: the count of bits asked
/// for and the count of bits that remain, in decimal.
pub open spec fn not_enough_bits_message(count: u8, available: nat) -> Seq<char> {
    "Requested "@ + digits_of(count as nat) + " bits, but only "@ + digits_of(available)
        + " bits available"@
}

impl WriteError {
    /// The error as a sentence.
    pub fn describe(&self) -> (text: String)
        ensures
            text@ == match self {
                WriteError::ValueTooLarge(message) => "Value too large: "@ + message@,
            },
    {
        match self {
            WriteError::ValueTooLarge(message) => String::from_str("Value too large: ").concat(
                message.as_str(),
            ),
        }
    }
}

impl ReadError {
    /// The error as a sentence.
    pub fn describe(&self) -> (text: String)
        ensures
            text@ == match self {
                ReadError::NotEnoughBits(message) => "Not enough bits: "@ + message@,
                ReadError::InvalidBitCount(message) => "Invalid bit count: "@ + message@,
            },
    {
        match self {
            ReadError::NotEnoughBits(message) => String::from_str("Not enough bits: ").concat(
                message.as_str(),
            ),
            ReadError::InvalidBitCount(message) => String::from_str("Invalid bit count: ").concat(
                message.as_str(),
            ),
        }
    }
}

} // verus!
