//! The bit codec: windows of up to 32 bits read from a base-64 string or
//! from a decoded bit buffer.
//!
//! The stream is treated as big-endian 6-bit groups concatenated left to
//! right; a window's value is returned right-aligned in a `u32`.

use vstd::prelude::*;
use vstd::arithmetic::div_mod::lemma_fundamental_div_mod_converse;
use vstd::arithmetic::power2::{
    lemma2_to64, lemma_pow2_strictly_increases, lemma_pow2_unfold, pow2,
};
use vstd::bits::lemma_u32_shr_is_div;
use vstd::string::StrSliceExecFns;
use crate::base64::{b64_index, b64_value, is_b64_char};
use crate::bitbuf::{bv_bits, bv_get, bv_len, bv_new, bv_set};

verus! {

/// The closed set of failures raised while opening or querying a packed trie.
#[derive(Clone, Copy, Debug, PartialEq, Eq, Structural)]
pub enum TrieError {
    /// The header declares a version this implementation cannot parse.
    UnsupportedVersion,
    /// The header is malformed: impossible widths, an alphabet entry that
    /// collides with the terminal sentinel, or a non-base-64 character.
    UnsupportedFormat,
    /// The stream is shorter than a read demands.
    Truncated,
    /// A query ran into an out-of-range pointer, a character index outside
    /// the alphabet, or a cycle in the packed body.
    CorruptData,
}

/// Bit `k` (0 is the most significant of the six) of the value of base-64
/// character `c`; false when `c` is not a base-64 character.
pub open spec fn char_bit(c: char, k: int) -> bool {
    is_b64_char(c) && (b64_index(c) / pow2((5 - k) as nat) as int) % 2 == 1
}

/// The bit stream denoted by a base-64 string: six bits per character,
/// most significant bit first.
pub open spec fn stream_bits(s: Seq<char>) -> Seq<bool> {
    Seq::new((6 * s.len()) as nat, |i: int| char_bit(s[i / 6], i % 6))
}

/// Whether every character of the string is base-64.
pub open spec fn all_b64(s: Seq<char>) -> bool {
    forall|j: int| 0 <= j < s.len() ==> is_b64_char(s[j])
}

/// The index of the character holding bit `start + k` of the stream.
pub open spec fn bit_char_index(start: int, k: int) -> int {
    (start + k) / 6
}

/// Whether some character touched by the window of `len` bits at `start` is
/// not base-64.
pub open spec fn touched_invalid(s: Seq<char>, start: int, len: int) -> bool {
    exists|k: int| 0 <= k < len && !is_b64_char(s[#[trigger] bit_char_index(start, k)])
}

/// The value of the window of `len` bits starting at bit `start`,
/// big-endian: the bit at `start` is the most significant.
pub open spec fn field_val(bits: Seq<bool>, start: int, len: nat) -> nat
    decreases len,
{
    if len == 0 {
        0
    } else {
        2 * field_val(bits, start, (len - 1) as nat) + (if bits[start + len - 1] {
            1nat
        } else {
            0nat
        })
    }
}

/// What a window read from a base-64 string returns: the window's value, or
/// `Truncated` when the window passes the end of the stream, or
/// `UnsupportedFormat` when a character the window touches is not base-64.
pub open spec fn b64_read(s: Seq<char>, start: int, len: int) -> Result<u32, TrieError> {
    if start < 0 || len < 0 || start + len > 6 * s.len() {
        Err(TrieError::Truncated)
    } else if touched_invalid(s, start, len) {
        Err(TrieError::UnsupportedFormat)
    } else {
        Ok(field_val(stream_bits(s), start, len as nat) as u32)
    }
}

/// What a window read from a bit buffer returns: the window's value, or
/// `Truncated` when the window passes the end of the buffer.
pub open spec fn bits_read(bits: Seq<bool>, start: int, len: int) -> Result<u32, TrieError> {
    if start < 0 || len < 0 || start + len > bits.len() {
        Err(TrieError::Truncated)
    } else {
        Ok(field_val(bits, start, len as nat) as u32)
    }
}

/// A window's value is below 2^len.
pub proof fn lemma_field_val_bound(bits: Seq<bool>, start: int, len: nat)
    ensures
        field_val(bits, start, len) < pow2(len),
    decreases len,
{
    if len == 0 {
        lemma2_to64();
    } else {
        lemma_field_val_bound(bits, start, (len - 1) as nat);
        lemma_pow2_unfold(len);
    }
}

proof fn lemma_acc_step(bits: Seq<bool>, start: int, k: nat)
    requires
        k < 32,
    ensures
        field_val(bits, start, k) < pow2(k),
        pow2(k) <= 0x8000_0000,
        field_val(bits, start, (k + 1) as nat) == 2 * field_val(bits, start, k) + (if bits[start
            + k] {
            1nat
        } else {
            0nat
        }),
        field_val(bits, start, (k + 1) as nat) < pow2((k + 1) as nat),
{
    lemma_field_val_bound(bits, start, k);
    lemma_field_val_bound(bits, start, (k + 1) as nat);
    lemma2_to64();
    if k < 31 {
        lemma_pow2_strictly_increases(k, 31);
    }
}

proof fn lemma_bit_of_char(c: char, v: u32, k: int)
    requires
        0 <= k < 6,
        is_b64_char(c),
        v == b64_index(c),
    ensures
        (((v >> ((5 - k) as u32)) & 1) == 1) == char_bit(c, k),
        ((v >> ((5 - k) as u32)) & 1) <= 1,
{
    let sh = (5 - k) as u32;
    lemma_u32_shr_is_div(v, sh);
    let w = v >> sh;
    assert(w & 1 == w % 2) by (bit_vector);
}

/// Reading `len` bits starting at bit `start` yields the sum of
/// `bit(start + i) * 2^(len - 1 - i)` over the window: the first bit of the
/// window carries the highest weight.
pub proof fn lemma_field_val_msb(bits: Seq<bool>, start: int, len: nat)
    requires
        len >= 1,
    ensures
        field_val(bits, start, len) == (if bits[start] {
            pow2((len - 1) as nat)
        } else {
            0nat
        }) + field_val(bits, start + 1, (len - 1) as nat),
    decreases len,
{
    if len == 1 {
        lemma2_to64();
        reveal_with_fuel(field_val, 2);
    } else {
        lemma_field_val_msb(bits, start, (len - 1) as nat);
        lemma_pow2_unfold((len - 1) as nat);
        assert(field_val(bits, start, len) == 2 * field_val(bits, start, (len - 1) as nat) + (
        if bits[start + len - 1] {
            1nat
        } else {
            0nat
        }));
        assert(field_val(bits, start + 1, (len - 1) as nat) == 2 * field_val(
            bits,
            start + 1,
            (len - 2) as nat,
        ) + (if bits[(start + 1) + (len - 1) - 1] {
            1nat
        } else {
            0nat
        }));
        assert(2 * (if bits[start] {
            pow2((len - 2) as nat)
        } else {
            0nat
        }) == (if bits[start] {
            pow2((len - 1) as nat)
        } else {
            0nat
        }));
        assert(field_val(bits, start, len) == (if bits[start] {
            pow2((len - 1) as nat)
        } else {
            0nat
        }) + field_val(bits, start + 1, (len - 1) as nat));
    }
}

/// A window read from the base-64 text equals the same window read from the
/// decoded bit stream.
pub proof fn lemma_base64_read_eq_bits_read(s: Seq<char>, start: int, len: int)
    requires
        all_b64(s),
    ensures
        b64_read(s, start, len) == bits_read(stream_bits(s), start, len),
{
    if 0 <= start && 0 <= len && start + len <= 6 * s.len() {
        assert forall|k: int| 0 <= k < len implies is_b64_char(s[#[trigger] bit_char_index(start, k)]) by {
            assert(0 <= (start + k) / 6 < s.len()) by (nonlinear_arith)
                requires
                    0 <= start + k,
                    start + k < 6 * s.len(),
            ;
        }
    }
}

/// A zero-length read yields zero.
pub proof fn lemma_read_zero(s: Seq<char>, start: int)
    requires
        0 <= start <= 6 * s.len(),
    ensures
        b64_read(s, start, 0) == Ok::<u32, TrieError>(0),
{
}

/// The characters of a string, in order, for indexed access.
pub fn chars_of(s: &str) -> (r: Vec<char>)
    ensures
        r@ == s@,
{
    let n = s.unicode_len();
    let mut v: Vec<char> = Vec::new();
    let mut i: usize = 0;
    while i < n
        invariant
            i <= n,
            n == s@.len(),
            v@.len() == i,
            forall|j: int| 0 <= j < i ==> v@[j] == s@[j],
        decreases n - i,
    {
        let c = s.get_char(i);
        v.push(c);
        i += 1;
    }
    proof {
        assert(v@ =~= s@);
    }
    v
}

/// Extract a window of bits from base-64 encoded characters.
pub(crate) fn read_field_chars(s: &Vec<char>, start: usize, length: usize) -> (r: Result<
    u32,
    TrieError,
>)
    requires
        length <= 32,
    ensures
        r == b64_read(s@, start as int, length as int),
{
    if (start as u128) + (length as u128) > 6 * (s.len() as u128) {
        return Err(TrieError::Truncated);
    }
    let mut ci: usize = start / 6;
    let mut off: usize = start % 6;
    let mut val: u32 = 0;
    let mut k: usize = 0;
    proof {
        lemma2_to64();
    }
    while k < length
        invariant
            length <= 32,
            start + length <= 6 * s@.len(),
            k <= length,
            6 * ci + off == start + k,
            off < 6,
            forall|j: int| 0 <= j < k ==> is_b64_char(s@[#[trigger] bit_char_index(start as int, j)]),
            val == field_val(stream_bits(s@), start as int, k as nat),
            val < pow2(k as nat),
        decreases length - k,
    {
        proof {
            assert(ci < s@.len()) by (nonlinear_arith)
                requires
                    6 * ci + off == start + k,
                    start + k < start + length,
                    start + length <= 6 * s@.len(),
                    off < 6,
            ;
        }
        let c = s[ci];
        match b64_value(c) {
            None => {
                proof {
                    lemma_fundamental_div_mod_converse(start as int + k as int, 6, ci as int, off as int);
                    assert(!is_b64_char(s@[bit_char_index(start as int, k as int)]));
                }
                return Err(TrieError::UnsupportedFormat);
            },
            Some(v) => {
                let sh: u32 = (5 - off) as u32;
                let bit: u32 = (v >> sh) & 1;
                proof {
                    lemma_fundamental_div_mod_converse(start as int + k as int, 6, ci as int, off as int);
                    lemma_bit_of_char(c, v, off as int);
                    lemma_acc_step(stream_bits(s@), start as int, k as nat);
                    assert(stream_bits(s@)[start + k] == char_bit(c, off as int));
                }
                val = val * 2 + bit;
                k += 1;
                off += 1;
                if off == 6 {
                    off = 0;
                    ci += 1;
                }
            },
        }
    }
    proof {
        lemma_field_val_bound(stream_bits(s@), start as int, length as nat);
        lemma2_to64();
    }
    Ok(val)
}

/// Extract a window of bits from a base-64 encoded string.
///
/// Fails with `Truncated` when `start + length` passes the end of the
/// stream, and with `UnsupportedFormat` when a character the window touches
/// is not base-64.
pub fn read_field_base64(s: &str, start: usize, length: usize) -> (r: Result<u32, TrieError>)
    requires
        length <= 32,
    ensures
        r == b64_read(s@, start as int, length as int),
{
    let v = chars_of(s);
    read_field_chars(&v, start, length)
}

/// Convert base-64 characters to a bit buffer of six bits per character,
/// most significant bit first.
pub(crate) fn decode_chars(s: &Vec<char>) -> (r: Result<bit_vec::BitVec, TrieError>)
    requires
        6 * s@.len() <= usize::MAX,
    ensures
        r matches Ok(bv) ==> all_b64(s@) && bv_bits(bv) == stream_bits(s@),
        r is Err ==> !all_b64(s@) && r == Err::<bit_vec::BitVec, TrieError>(
            TrieError::UnsupportedFormat,
        ),
{
    let n = s.len();
    let total = 6 * n;
    let mut bv = bv_new(total);
    proof {
        assert(bv_bits(bv).len() == total);
    }
    let mut ci: usize = 0;
    while ci < n
        invariant
            ci <= n,
            n == s@.len(),
            total == 6 * n,
            6 * n <= usize::MAX,
            bv_bits(bv).len() == total,
            forall|j: int| 0 <= j < ci ==> is_b64_char(s@[j]),
            forall|idx: int| 0 <= idx < 6 * ci ==> bv_bits(bv)[idx] == stream_bits(s@)[idx],
        decreases n - ci,
    {
        match b64_value(s[ci]) {
            None => {
                return Err(TrieError::UnsupportedFormat);
            },
            Some(v) => {
                let mut j: usize = 0;
                while j < 6
                    invariant
                        j <= 6,
                        ci < n,
                        n == s@.len(),
                        total == 6 * n,
                        6 * n <= usize::MAX,
                        v == b64_index(s@[ci as int]),
                        is_b64_char(s@[ci as int]),
                        bv_bits(bv).len() == total,
                        forall|idx: int|
                            0 <= idx < 6 * ci + j ==> bv_bits(bv)[idx] == stream_bits(s@)[idx],
                    decreases 6 - j,
                {
                    let sh: u32 = (5 - j) as u32;
                    let bit: bool = ((v >> sh) & 1) == 1;
                    proof {
                        assert(6 * ci + j + 1 <= 6 * n) by (nonlinear_arith)
                            requires
                                ci < n,
                                j < 6,
                        ;
                        lemma_fundamental_div_mod_converse(
                            6 * (ci as int) + j as int,
                            6,
                            ci as int,
                            j as int,
                        );
                        lemma_bit_of_char(s@[ci as int], v, j as int);
                        assert(stream_bits(s@)[6 * (ci as int) + j] == char_bit(
                            s@[ci as int],
                            j as int,
                        ));
                    }
                    bv_set(&mut bv, 6 * ci + j, bit);
                    j += 1;
                }
            },
        }
        ci += 1;
    }
    proof {
        assert(bv_bits(bv) =~= stream_bits(s@));
    }
    Ok(bv)
}

/// Convert a base-64 body segment to a bit buffer of length six times the
/// number of characters.
///
/// Fails with `UnsupportedFormat` when some character is not base-64.
pub fn decode_body_to_bits(s: &str) -> (r: Result<bit_vec::BitVec, TrieError>)
    requires
        6 * s@.len() <= usize::MAX,
    ensures
        r matches Ok(bv) ==> all_b64(s@) && bv_bits(bv) == stream_bits(s@),
        r is Err ==> !all_b64(s@) && r == Err::<bit_vec::BitVec, TrieError>(
            TrieError::UnsupportedFormat,
        ),
{
    let v = chars_of(s);
    decode_chars(&v)
}

/// Read a window of bits from a bit buffer known to contain it.
pub(crate) fn read_bits_in(v: &bit_vec::BitVec, start: usize, length: usize) -> (r: u32)
    requires
        length <= 32,
        start + length <= bv_bits(*v).len(),
        bv_bits(*v).len() <= usize::MAX,
    ensures
        r == field_val(bv_bits(*v), start as int, length as nat),
        r < pow2(length as nat),
{
    let mut val: u32 = 0;
    let mut k: usize = 0;
    proof {
        lemma2_to64();
    }
    while k < length
        invariant
            length <= 32,
            k <= length,
            start + length <= bv_bits(*v).len(),
            bv_bits(*v).len() <= usize::MAX,
            val == field_val(bv_bits(*v), start as int, k as nat),
            val < pow2(k as nat),
        decreases length - k,
    {
        let b = bv_get(v, start + k).unwrap();
        proof {
            lemma_acc_step(bv_bits(*v), start as int, k as nat);
        }
        val = val * 2 + (if b {
            1
        } else {
            0
        });
        k += 1;
    }
    proof {
        lemma_field_val_bound(bv_bits(*v), start as int, length as nat);
    }
    val
}

/// Read a window of bits from a bit buffer as a contiguous integer.
///
/// Fails with `Truncated` when `start + length` passes the end of the
/// buffer.
pub fn read_field_bits(v: &bit_vec::BitVec, start: usize, length: usize) -> (r: Result<
    u32,
    TrieError,
>)
    requires
        length <= 32,
    ensures
        r == bits_read(bv_bits(*v), start as int, length as int),
{
    let n = bv_len(v);
    if (start as u128) + (length as u128) > (n as u128) {
        return Err(TrieError::Truncated);
    }
    Ok(read_bits_in(v, start, length))
}

} // verus!
