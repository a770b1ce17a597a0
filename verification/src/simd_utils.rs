//! Byte scanning on 64-bit words (SWAR): newline counting, byte search,
//! whitespace skipping, prefix tests and byte classification.
//!
//! Eight bytes are loaded into one `u64` in little-endian order, so byte
//! `j` of a chunk is lane `j` of the word (bits `8j .. 8j + 8`).

use vstd::prelude::*;

verus! {

// ---------------------------------------------------------------------------
// Specifications
// ---------------------------------------------------------------------------

/// Class of a byte as the lexer sees it: 0 = other, 1 = identifier letter,
/// 2 = decimal digit, 3 = whitespace.
pub open spec fn byte_class(b: u8) -> u8 {
    if (0x61 <= b && b <= 0x7a) || (0x41 <= b && b <= 0x5a) || b == 0x5f {
        1
    } else if 0x30 <= b && b <= 0x39 {
        2
    } else if b == 0x20 || b == 0x09 || b == 0x0d || b == 0x0a {
        3
    } else {
        0
    }
}

/// Blank bytes skipped by `skip_whitespace_simd`: space, tab, carriage return.
pub open spec fn is_blank(b: u8) -> bool {
    b == 0x20 || b == 0x09 || b == 0x0d
}

/// Number of occurrences of `b` among the first `n` bytes of `s`.
pub open spec fn count_in_prefix(s: Seq<u8>, b: u8, n: int) -> nat
    decreases n,
{
    if n <= 0 {
        0
    } else {
        count_in_prefix(s, b, n - 1) + if s[n - 1] == b {
            1nat
        } else {
            0nat
        }
    }
}

/// Number of occurrences of `b` in `s`.
pub open spec fn count_byte(s: Seq<u8>, b: u8) -> nat {
    count_in_prefix(s, b, s.len() as int)
}

/// `k` is the first position at or after `from` where `s` holds `b`.
pub open spec fn first_from(s: Seq<u8>, b: u8, from: int, k: int) -> bool {
    &&& from <= k < s.len()
    &&& s[k] == b
    &&& forall|j: int| from <= j < k ==> s[j] != b
}

/// `s` begins with `p`.
pub open spec fn has_prefix(s: Seq<u8>, p: Seq<u8>) -> bool {
    p.len() <= s.len() && s.subrange(0, p.len() as int) == p
}

/// Lane `j` (0..8) of a word: its `j`-th byte in little-endian order.
pub open spec fn lane(w: u64, j: int) -> u64 {
    (w >> ((8 * j) as u64)) & 0xff
}

/// The top bit of lane `j` of `m` is set.
pub open spec fn flag(m: u64, j: int) -> bool {
    (m >> ((8 * j + 7) as u64)) & 1 == 1
}

/// Number of lanes of `m` whose top bit is set.
pub open spec fn flag_count(m: u64) -> nat {
    (if flag(m, 0) { 1nat } else { 0nat }) + (if flag(m, 1) { 1nat } else { 0nat }) + (if flag(
        m,
        2,
    ) { 1nat } else { 0nat }) + (if flag(m, 3) { 1nat } else { 0nat }) + (if flag(m, 4) {
        1nat
    } else {
        0nat
    }) + (if flag(m, 5) { 1nat } else { 0nat }) + (if flag(m, 6) { 1nat } else { 0nat }) + (
    if flag(m, 7) {
        1nat
    } else {
        0nat
    })
}

/// The little-endian word made of eight bytes.
pub open spec fn le_word(b0: u8, b1: u8, b2: u8, b3: u8, b4: u8, b5: u8, b6: u8, b7: u8) -> u64 {
    (b0 as u64) | ((b1 as u64) << 8u64) | ((b2 as u64) << 16u64) | ((b3 as u64) << 24u64) | ((
    b4 as u64) << 32u64) | ((b5 as u64) << 40u64) | ((b6 as u64) << 48u64) | ((b7 as u64)
        << 56u64)
}

/// The little-endian word made of four bytes.
pub open spec fn le_word32(b0: u8, b1: u8, b2: u8, b3: u8) -> u32 {
    (b0 as u32) | ((b1 as u32) << 8u32) | ((b2 as u32) << 16u32) | ((b3 as u32) << 24u32)
}

/// Loads `data[i..i + 4]` as a little-endian 32-bit word.
fn load_word32(data: &[u8], i: usize) -> (w: u32)
    requires
        i + 4 <= data@.len(),
    ensures
        w == le_word32(data@[i as int], data@[i + 1], data@[i + 2], data@[i + 3]),
{
    (data[i] as u32) | ((data[i + 1] as u32) << 8u32) | ((data[i + 2] as u32) << 16u32) | ((data[i
        + 3] as u32) << 24u32)
}

/// The word whose eight lanes each hold `t`.
pub open spec fn splat(t: u8) -> u64 {
    le_word(t, t, t, t, t, t, t, t)
}

/// The mask whose lane `j` is `0x80` when lane `j` of `x` is zero, and 0 otherwise.
pub open spec fn zero_mask(x: u64) -> u64 {
    !((((x & 0x7f7f7f7f7f7f7f7fu64) + 0x7f7f7f7f7f7f7f7fu64) as u64) | x)
        & 0x8080808080808080u64
}

// ---------------------------------------------------------------------------
// Lemmas
// ---------------------------------------------------------------------------

proof fn lemma_zero_mask_lanes(x: u64)
    ensures
        forall|j: int| 0 <= j < 8 ==> #[trigger] flag(zero_mask(x), j) == (lane(x, j) == 0),
        zero_mask(x) & !0x8080808080808080u64 == 0,
{
    let m = zero_mask(x);
    assert({
        &&& ((m >> 7u64) & 1 == 1) == ((x >> 0u64) & 0xff == 0)
        &&& ((m >> 15u64) & 1 == 1) == ((x >> 8u64) & 0xff == 0)
        &&& ((m >> 23u64) & 1 == 1) == ((x >> 16u64) & 0xff == 0)
        &&& ((m >> 31u64) & 1 == 1) == ((x >> 24u64) & 0xff == 0)
        &&& ((m >> 39u64) & 1 == 1) == ((x >> 32u64) & 0xff == 0)
        &&& ((m >> 47u64) & 1 == 1) == ((x >> 40u64) & 0xff == 0)
        &&& ((m >> 55u64) & 1 == 1) == ((x >> 48u64) & 0xff == 0)
        &&& ((m >> 63u64) & 1 == 1) == ((x >> 56u64) & 0xff == 0)
        &&& m & !0x8080808080808080u64 == 0
    }) by (bit_vector)
        requires
            m == zero_mask(x),
    ;
    assert forall|j: int| 0 <= j < 8 implies #[trigger] flag(m, j) == (lane(x, j) == 0) by {
        if j == 0 {
        } else if j == 1 {
        } else if j == 2 {
        } else if j == 3 {
        } else if j == 4 {
        } else if j == 5 {
        } else if j == 6 {
        } else {
        }
    }
}

proof fn lemma_word_lanes(b0: u8, b1: u8, b2: u8, b3: u8, b4: u8, b5: u8, b6: u8, b7: u8)
    ensures
        lane(le_word(b0, b1, b2, b3, b4, b5, b6, b7), 0) == b0 as u64,
        lane(le_word(b0, b1, b2, b3, b4, b5, b6, b7), 1) == b1 as u64,
        lane(le_word(b0, b1, b2, b3, b4, b5, b6, b7), 2) == b2 as u64,
        lane(le_word(b0, b1, b2, b3, b4, b5, b6, b7), 3) == b3 as u64,
        lane(le_word(b0, b1, b2, b3, b4, b5, b6, b7), 4) == b4 as u64,
        lane(le_word(b0, b1, b2, b3, b4, b5, b6, b7), 5) == b5 as u64,
        lane(le_word(b0, b1, b2, b3, b4, b5, b6, b7), 6) == b6 as u64,
        lane(le_word(b0, b1, b2, b3, b4, b5, b6, b7), 7) == b7 as u64,
{
    let w = le_word(b0, b1, b2, b3, b4, b5, b6, b7);
    assert({
        &&& (w >> 0u64) & 0xff == b0 as u64
        &&& (w >> 8u64) & 0xff == b1 as u64
        &&& (w >> 16u64) & 0xff == b2 as u64
        &&& (w >> 24u64) & 0xff == b3 as u64
        &&& (w >> 32u64) & 0xff == b4 as u64
        &&& (w >> 40u64) & 0xff == b5 as u64
        &&& (w >> 48u64) & 0xff == b6 as u64
        &&& (w >> 56u64) & 0xff == b7 as u64
    }) by (bit_vector)
        requires
            w == le_word(b0, b1, b2, b3, b4, b5, b6, b7),
    ;
}

proof fn lemma_lane_xor(a: u64, b: u64, j: int)
    requires
        0 <= j < 8,
    ensures
        (lane(a ^ b, j) == 0) == (lane(a, j) == lane(b, j)),
{
    let s = (8 * j) as u64;
    assert((((a ^ b) >> s) & 0xff == 0) == ((a >> s) & 0xff == (b >> s) & 0xff)) by (bit_vector);
}

proof fn lemma_flag_bit(m: u64, j: int)
    requires
        0 <= j < 8,
    ensures
        (m >> ((8 * j + 7) as u64)) & 1 == (if flag(m, j) { 1u64 } else { 0u64 }),
{
    let s = (8 * j + 7) as u64;
    assert((m >> s) & 1 == 0 || (m >> s) & 1 == 1) by (bit_vector);
}

/// The mask of the lanes of the word at `data[i..i + 8]` that equal `t`.
proof fn lemma_match_mask(data: Seq<u8>, i: int, t: u8, w: u64, m: u64)
    requires
        0 <= i,
        i + 8 <= data.len(),
        w == le_word(
            data[i],
            data[i + 1],
            data[i + 2],
            data[i + 3],
            data[i + 4],
            data[i + 5],
            data[i + 6],
            data[i + 7],
        ),
        m == zero_mask(w ^ splat(t)),
    ensures
        forall|j: int| 0 <= j < 8 ==> #[trigger] flag(m, j) == (data[i + j] == t),
        m & !0x8080808080808080u64 == 0,
{
    lemma_zero_mask_lanes(w ^ splat(t));
    lemma_word_lanes(
        data[i],
        data[i + 1],
        data[i + 2],
        data[i + 3],
        data[i + 4],
        data[i + 5],
        data[i + 6],
        data[i + 7],
    );
    lemma_word_lanes(t, t, t, t, t, t, t, t);
    assert forall|j: int| 0 <= j < 8 implies #[trigger] flag(m, j) == (data[i + j] == t) by {
        lemma_lane_xor(w, splat(t), j);
        if j == 0 {
        } else if j == 1 {
        } else if j == 2 {
        } else if j == 3 {
        } else if j == 4 {
        } else if j == 5 {
        } else if j == 6 {
        } else {
        }
    }
}

proof fn lemma_count_step8(s: Seq<u8>, b: u8, i: int)
    requires
        0 <= i,
        i + 8 <= s.len(),
    ensures
        count_in_prefix(s, b, i + 8) == count_in_prefix(s, b, i) + (if s[i] == b {
            1nat
        } else {
            0nat
        }) + (if s[i + 1] == b { 1nat } else { 0nat }) + (if s[i + 2] == b {
            1nat
        } else {
            0nat
        }) + (if s[i + 3] == b { 1nat } else { 0nat }) + (if s[i + 4] == b {
            1nat
        } else {
            0nat
        }) + (if s[i + 5] == b { 1nat } else { 0nat }) + (if s[i + 6] == b {
            1nat
        } else {
            0nat
        }) + (if s[i + 7] == b { 1nat } else { 0nat }),
{
    reveal_with_fuel(count_in_prefix, 9);
}

proof fn lemma_count_monotonic(s: Seq<u8>, b: u8, k: int, n: int)
    requires
        k <= n,
    ensures
        count_in_prefix(s, b, k) <= count_in_prefix(s, b, n),
    decreases n - k,
{
    if k < n {
        lemma_count_monotonic(s, b, k, n - 1);
    }
}

/// The flagged lanes of a chunk's match mask count the chunk's occurrences.
proof fn lemma_chunk_count(s: Seq<u8>, b: u8, i: int, m: u64)
    requires
        0 <= i,
        i + 8 <= s.len(),
        forall|j: int| 0 <= j < 8 ==> #[trigger] flag(m, j) == (s[i + j] == b),
    ensures
        count_in_prefix(s, b, i + 8) == count_in_prefix(s, b, i) + flag_count(m),
{
    lemma_count_step8(s, b, i);
    assert(flag(m, 0) == (s[i + 0] == b));
    assert(flag(m, 1) == (s[i + 1] == b));
    assert(flag(m, 2) == (s[i + 2] == b));
    assert(flag(m, 3) == (s[i + 3] == b));
    assert(flag(m, 4) == (s[i + 4] == b));
    assert(flag(m, 5) == (s[i + 5] == b));
    assert(flag(m, 6) == (s[i + 6] == b));
    assert(flag(m, 7) == (s[i + 7] == b));
}

/// The lowest flagged lane of a mask is found by its trailing zeros.
proof fn lemma_first_flag(m: u64, tz: u32)
    requires
        m != 0,
        m & !0x8080808080808080u64 == 0,
        tz == vstd::std_specs::bits::u64_trailing_zeros(m),
    ensures
        tz < 64,
        0 <= tz / 8 < 8,
        flag(m, (tz / 8) as int),
        forall|j: int| 0 <= j < tz / 8 ==> !#[trigger] flag(m, j),
{
    vstd::std_specs::bits::axiom_u64_trailing_zeros(m);
    let t = tz as u64;
    assert(t & 7 == 7) by (bit_vector)
        requires
            m & !0x8080808080808080u64 == 0,
            t < 64,
            (m >> t) & 1 == 1,
    ;
    assert(t % 8 == 7) by (bit_vector)
        requires
            t & 7 == 7,
    ;
    assert forall|j: int| 0 <= j < tz / 8 implies !#[trigger] flag(m, j) by {
        let s = (8 * j + 7) as u64;
        assert(s < t);
        assert((m >> s) & 1u64 == 0u64);
    }
}

/// A mask with no set bit flags no lane.
proof fn lemma_no_flag(m: u64)
    requires
        m == 0,
    ensures
        forall|j: int| 0 <= j < 8 ==> !#[trigger] flag(m, j),
{
    assert forall|j: int| 0 <= j < 8 implies !#[trigger] flag(m, j) by {
        let s = (8 * j + 7) as u64;
        assert((m >> s) & 1 == 0) by (bit_vector)
            requires
                m == 0,
        ;
    }
}

/// Flags of a union of masks are the unions of the flags.
proof fn lemma_flag_or(a: u64, b: u64, c: u64, j: int)
    requires
        0 <= j < 8,
    ensures
        flag(a | b | c, j) == (flag(a, j) || flag(b, j) || flag(c, j)),
{
    let s = (8 * j + 7) as u64;
    assert((((a | b | c) >> s) & 1 == 1) == (((a >> s) & 1 == 1) || ((b >> s) & 1 == 1) || ((c
        >> s) & 1 == 1))) by (bit_vector);
}

/// A mask with no bit outside the lane tops is the full mask exactly when
/// every lane is flagged.
proof fn lemma_full_mask(m: u64)
    requires
        m & !0x8080808080808080u64 == 0,
    ensures
        (m == 0x8080808080808080u64) == (forall|j: int| 0 <= j < 8 ==> #[trigger] flag(m, j)),
{
    assert((m == 0x8080808080808080u64) == (((m >> 7u64) & 1 == 1) && ((m >> 15u64) & 1 == 1) && ((
    m >> 23u64) & 1 == 1) && ((m >> 31u64) & 1 == 1) && ((m >> 39u64) & 1 == 1) && ((m >> 47u64)
        & 1 == 1) && ((m >> 55u64) & 1 == 1) && ((m >> 63u64) & 1 == 1))) by (bit_vector)
        requires
            m & !0x8080808080808080u64 == 0,
    ;
    if forall|j: int| 0 <= j < 8 ==> #[trigger] flag(m, j) {
        assert(flag(m, 0) && flag(m, 1) && flag(m, 2) && flag(m, 3));
        assert(flag(m, 4) && flag(m, 5) && flag(m, 6) && flag(m, 7));
    }
    if m == 0x8080808080808080u64 {
        assert forall|j: int| 0 <= j < 8 implies #[trigger] flag(m, j) by {
            if j == 0 {
            } else if j == 1 {
            } else if j == 2 {
            } else if j == 3 {
            } else if j == 4 {
            } else if j == 5 {
            } else if j == 6 {
            } else {
            }
        }
    }
}

/// Two little-endian 32-bit words are equal exactly when their bytes are.
proof fn lemma_word32_eq(a0: u8, a1: u8, a2: u8, a3: u8, b0: u8, b1: u8, b2: u8, b3: u8)
    ensures
        (le_word32(a0, a1, a2, a3) == le_word32(b0, b1, b2, b3)) == (a0 == b0 && a1 == b1 && a2
            == b2 && a3 == b3),
{
    let x = le_word32(a0, a1, a2, a3);
    let y = le_word32(b0, b1, b2, b3);
    assert((x == y) == (a0 == b0 && a1 == b1 && a2 == b2 && a3 == b3)) by (bit_vector)
        requires
            x == le_word32(a0, a1, a2, a3),
            y == le_word32(b0, b1, b2, b3),
    ;
}

/// A byte occurs at most as often as `s` is long.
pub proof fn lemma_count_byte_bounded(s: Seq<u8>, b: u8)
    ensures
        count_byte(s, b) <= s.len(),
{
    lemma_count_prefix_bounded(s, b, s.len() as int);
}

proof fn lemma_count_prefix_bounded(s: Seq<u8>, b: u8, n: int)
    requires
        0 <= n,
    ensures
        count_in_prefix(s, b, n) <= n,
    decreases n,
{
    if n > 0 {
        lemma_count_prefix_bounded(s, b, n - 1);
    }
}

// ---------------------------------------------------------------------------
// Word helpers
// ---------------------------------------------------------------------------

/// Loads `data[i..i + 8]` as a little-endian word.
fn load_word(data: &[u8], i: usize) -> (w: u64)
    requires
        i + 8 <= data@.len(),
    ensures
        w == le_word(
            data@[i as int],
            data@[i + 1],
            data@[i + 2],
            data@[i + 3],
            data@[i + 4],
            data@[i + 5],
            data@[i + 6],
            data@[i + 7],
        ),
{
    (data[i] as u64) | ((data[i + 1] as u64) << 8u64) | ((data[i + 2] as u64) << 16u64) | ((data[i
        + 3] as u64) << 24u64) | ((data[i + 4] as u64) << 32u64) | ((data[i + 5] as u64) << 40u64)
        | ((data[i + 6] as u64) << 48u64) | ((data[i + 7] as u64) << 56u64)
}

/// The word whose eight lanes each hold `t`.
fn splat_word(t: u8) -> (w: u64)
    ensures
        w == splat(t),
{
    let b = t as u64;
    b | (b << 8u64) | (b << 16u64) | (b << 24u64) | (b << 32u64) | (b << 40u64) | (b << 48u64) | (b
        << 56u64)
}

/// Flags the zero lanes of `x`: lane `j` of the result is `0x80` exactly when
/// lane `j` of `x` is zero, and every other bit is clear.
fn has_zero_byte(x: u64) -> (m: u64)
    ensures
        m == zero_mask(x),
        forall|j: int| 0 <= j < 8 ==> #[trigger] flag(m, j) == (lane(x, j) == 0),
        m & !0x8080808080808080u64 == 0,
{
    proof {
        lemma_zero_mask_lanes(x);
    }
    let low_bits = x & 0x7F7F7F7F7F7F7F7Fu64;
    assert(low_bits <= 0x7F7F7F7F7F7F7F7Fu64) by (bit_vector)
        requires
            low_bits == x & 0x7F7F7F7F7F7F7F7Fu64,
    ;
    let added = low_bits + 0x7F7F7F7F7F7F7F7Fu64;
    !(added | x) & 0x8080808080808080u64
}

/// Number of flagged lanes of `m`.
fn count_flags(m: u64) -> (n: u32)
    ensures
        n == flag_count(m),
{
    proof {
        lemma_flag_bit(m, 0);
        lemma_flag_bit(m, 1);
        lemma_flag_bit(m, 2);
        lemma_flag_bit(m, 3);
        lemma_flag_bit(m, 4);
        lemma_flag_bit(m, 5);
        lemma_flag_bit(m, 6);
        lemma_flag_bit(m, 7);
    }
    let n = ((m >> 7u64) & 1) + ((m >> 15u64) & 1) + ((m >> 23u64) & 1) + ((m >> 31u64) & 1) + ((m
        >> 39u64) & 1) + ((m >> 47u64) & 1) + ((m >> 55u64) & 1) + ((m >> 63u64) & 1);
    n as u32
}

// ---------------------------------------------------------------------------
// Public scanning functions
// ---------------------------------------------------------------------------

/// Number of newline bytes (`0x0A`) in `data`, counted eight bytes at a time.
pub fn count_newlines_simd(data: &[u8]) -> (count: u32)
    requires
        count_byte(data@, 0x0a) <= u32::MAX,
    ensures
        count == count_byte(data@, 0x0a),
{
    let mut count = 0u32;
    let len = data.len();
    let mut i: usize = 0;
    let pattern = splat_word(0x0a);

    while len - i >= 8
        invariant
            len == data@.len(),
            i <= len,
            pattern == splat(0x0a),
            count == count_in_prefix(data@, 0x0a, i as int),
            count_byte(data@, 0x0a) <= u32::MAX,
        decreases len - i,
    {
        let chunk = load_word(data, i);
        let is_zero = has_zero_byte(chunk ^ pattern);
        proof {
            lemma_match_mask(data@, i as int, 0x0a, chunk, is_zero);
            lemma_chunk_count(data@, 0x0a, i as int, is_zero);
            lemma_count_monotonic(data@, 0x0a, i + 8, len as int);
        }
        count = count + count_flags(is_zero);
        i = i + 8;
    }

    while i < len
        invariant
            len == data@.len(),
            i <= len,
            count == count_in_prefix(data@, 0x0a, i as int),
            count_byte(data@, 0x0a) <= u32::MAX,
        decreases len - i,
    {
        proof {
            lemma_count_monotonic(data@, 0x0a, i + 1, len as int);
        }
        if data[i] == 0x0a {
            count = count + 1;
        }
        i = i + 1;
    }

    count
}

/// Position of the first occurrence of `target` in `data`, or `None` when it
/// does not occur.
pub fn find_byte_simd(data: &[u8], target: u8) -> (pos: Option<usize>)
    ensures
        match pos {
            Some(k) => first_from(data@, target, 0, k as int),
            None => forall|j: int| 0 <= j < data@.len() ==> data@[j] != target,
        },
{
    let len = data.len();
    let mut i: usize = 0;
    let pattern = splat_word(target);

    while len - i >= 8
        invariant
            len == data@.len(),
            i <= len,
            pattern == splat(target),
            forall|j: int| 0 <= j < i ==> data@[j] != target,
        decreases len - i,
    {
        let chunk = load_word(data, i);
        let is_zero = has_zero_byte(chunk ^ pattern);
        proof {
            lemma_match_mask(data@, i as int, target, chunk, is_zero);
        }
        if is_zero != 0 {
            let tz = is_zero.trailing_zeros();
            proof {
                lemma_first_flag(is_zero, tz);
                assert forall|j: int| 0 <= j < i + tz / 8 implies data@[j] != target by {
                    if j >= i {
                        assert(!flag(is_zero, j - i));
                    }
                }
            }
            return Some(i + (tz / 8) as usize);
        }
        proof {
            lemma_no_flag(is_zero);
            assert forall|j: int| 0 <= j < i + 8 implies data@[j] != target by {
                if j >= i {
                    assert(!flag(is_zero, j - i));
                }
            }
        }
        i = i + 8;
    }

    while i < len
        invariant
            len == data@.len(),
            i <= len,
            forall|j: int| 0 <= j < i ==> data@[j] != target,
        decreases len - i,
    {
        if data[i] == target {
            return Some(i);
        }
        i = i + 1;
    }

    None
}

/// Skips blank bytes (space, tab, carriage return) from `start` on and returns
/// the position of the first other byte, or the length of `data` when only
/// blanks follow. A `start` past the end is returned unchanged.
pub fn skip_whitespace_simd(data: &[u8], start: usize) -> (end: usize)
    ensures
        start > data@.len() ==> end == start,
        start <= data@.len() ==> {
            &&& start <= end <= data@.len()
            &&& forall|k: int| start <= k < end ==> is_blank(#[trigger] data@[k])
            &&& end < data@.len() ==> !is_blank(data@[end as int])
        },
{
    let len = data.len();
    let mut i = start;
    let space = splat_word(0x20);
    let tab = splat_word(0x09);
    let cr = splat_word(0x0d);

    while i < len && len - i >= 8
        invariant
            len == data@.len(),
            start <= i,
            start <= len ==> i <= len,
            start > len ==> i == start,
            space == splat(0x20),
            tab == splat(0x09),
            cr == splat(0x0d),
            forall|k: int| start <= k < i ==> is_blank(#[trigger] data@[k]),
        decreases len - i,
    {
        let chunk = load_word(data, i);
        let zero_space = has_zero_byte(chunk ^ space);
        let zero_tab = has_zero_byte(chunk ^ tab);
        let zero_cr = has_zero_byte(chunk ^ cr);
        let is_whitespace = zero_space | zero_tab | zero_cr;
        proof {
            lemma_match_mask(data@, i as int, 0x20, chunk, zero_space);
            lemma_match_mask(data@, i as int, 0x09, chunk, zero_tab);
            lemma_match_mask(data@, i as int, 0x0d, chunk, zero_cr);
            assert(is_whitespace & !0x8080808080808080u64 == 0) by (bit_vector)
                requires
                    is_whitespace == zero_space | zero_tab | zero_cr,
                    zero_space & !0x8080808080808080u64 == 0,
                    zero_tab & !0x8080808080808080u64 == 0,
                    zero_cr & !0x8080808080808080u64 == 0,
            ;
            lemma_full_mask(is_whitespace);
        }
        if is_whitespace != 0x8080808080808080u64 {
            break;
        }
        proof {
            assert forall|k: int| start <= k < i + 8 implies is_blank(#[trigger] data@[k]) by {
                if k >= i {
                    assert(flag(is_whitespace, k - i));
                    lemma_flag_or(zero_space, zero_tab, zero_cr, k - i);
                }
            }
        }
        i = i + 8;
    }

    while i < len
        invariant
            len == data@.len(),
            start <= i,
            start <= len ==> i <= len,
            start > len ==> i == start,
            forall|k: int| start <= k < i ==> is_blank(#[trigger] data@[k]),
        ensures
            start <= len ==> i <= len,
            start > len ==> i == start,
            forall|k: int| start <= k < i ==> is_blank(#[trigger] data@[k]),
            i < len ==> !is_blank(data@[i as int]),
        decreases len - i,
    {
        if !(data[i] == 0x20 || data[i] == 0x09 || data[i] == 0x0d) {
            break;
        }
        i = i + 1;
    }

    i
}

/// Whether `data` begins with `prefix`, compared four bytes at a time.
pub fn starts_with_simd(data: &[u8], prefix: &[u8]) -> (r: bool)
    ensures
        r == has_prefix(data@, prefix@),
{
    if data.len() < prefix.len() {
        return false;
    }

    let prefix_len = prefix.len();
    let mut i: usize = 0;

    while prefix_len - i >= 4
        invariant
            prefix_len == prefix@.len(),
            prefix_len <= data@.len(),
            i <= prefix_len,
            forall|j: int| 0 <= j < i ==> data@[j] == prefix@[j],
        decreases prefix_len - i,
    {
        let data_chunk = load_word32(data, i);
        let prefix_chunk = load_word32(prefix, i);
        proof {
            lemma_word32_eq(
                data@[i as int],
                data@[i + 1],
                data@[i + 2],
                data@[i + 3],
                prefix@[i as int],
                prefix@[i + 1],
                prefix@[i + 2],
                prefix@[i + 3],
            );
        }
        if data_chunk != prefix_chunk {
            proof {
                assert(data@.subrange(0, prefix_len as int) != prefix@) by {
                    if data@[i as int] != prefix@[i as int] {
                        assert(data@.subrange(0, prefix_len as int)[i as int] == data@[i as int]);
                    } else if data@[i + 1] != prefix@[i + 1] {
                        assert(data@.subrange(0, prefix_len as int)[i + 1] == data@[i + 1]);
                    } else if data@[i + 2] != prefix@[i + 2] {
                        assert(data@.subrange(0, prefix_len as int)[i + 2] == data@[i + 2]);
                    } else {
                        assert(data@.subrange(0, prefix_len as int)[i + 3] == data@[i + 3]);
                    }
                }
            }
            return false;
        }
        i = i + 4;
    }

    while i < prefix_len
        invariant
            prefix_len == prefix@.len(),
            prefix_len <= data@.len(),
            i <= prefix_len,
            forall|j: int| 0 <= j < i ==> data@[j] == prefix@[j],
        decreases prefix_len - i,
    {
        if data[i] != prefix[i] {
            proof {
                assert(data@.subrange(0, prefix_len as int)[i as int] == data@[i as int]);
            }
            return false;
        }
        i = i + 1;
    }

    proof {
        assert(data@.subrange(0, prefix_len as int) =~= prefix@);
    }
    true
}

/// Length of the line that starts at `start`: the distance to the next
/// newline, or to the end of `data` when no newline follows.
pub fn line_length_simd(data: &[u8], start: usize) -> (n: usize)
    requires
        start <= data@.len(),
    ensures
        start + n <= data@.len(),
        first_from(data@, 0x0a, start as int, start + n) || (start + n == data@.len() && forall|
            j: int,
        |
            start <= j < data@.len() ==> data@[j] != 0x0a),
{
    let rest = &data[start..data.len()];
    match find_byte_simd(rest, 0x0a) {
        Some(pos) => {
            proof {
                assert forall|j: int| start <= j < start + pos implies data@[j] != 0x0a by {
                    assert(rest@[j - start] == data@[j]);
                }
            }
            pos
        },
        None => {
            proof {
                assert forall|j: int| start <= j < data@.len() implies data@[j] != 0x0a by {
                    assert(rest@[j - start] == data@[j]);
                }
            }
            data.len() - start
        },
    }
}

/// Writes the class (see `byte_class`) of `data[start + k]` to `out[k]` for
/// every `k` below both the number of bytes from `start` on and the length of
/// `out`; the rest of `out` is left as it was.
pub fn classify_chars_simd(data: &[u8], start: usize, out: &mut [u8])
    ensures
        final(out)@.len() == old(out)@.len(),
        forall|k: int|
            0 <= k < classified_len(data@.len(), start, old(out)@.len()) ==> #[trigger] final(out)@[k] == byte_class(
                data@[start + k],
            ),
        forall|k: int|
            classified_len(data@.len(), start, old(out)@.len()) <= k < old(out)@.len()
                ==> #[trigger] final(out)@[k] == old(out)@[k],
{
    let dlen = data.len();
    let rest = if dlen >= start {
        dlen - start
    } else {
        0
    };
    let len = if rest < out.len() {
        rest
    } else {
        out.len()
    };
    let mut i: usize = 0;

    while len - i >= 8
        invariant
            len == classified_len(data@.len(), start, old(out)@.len()),
            len <= out@.len(),
            len == 0 || start + len <= data@.len(),
            dlen == data@.len(),
            i <= len,
            out@.len() == old(out)@.len(),
            forall|k: int| 0 <= k < i ==> #[trigger] out@[k] == byte_class(data@[start + k]),
            forall|k: int| i <= k < out@.len() ==> #[trigger] out@[k] == old(out)@[k],
        decreases len - i,
    {
        let chunk = load_word(data, start + i);
        proof {
            lemma_word_lanes(
                data@[start + i],
                data@[start + i + 1],
                data@[start + i + 2],
                data@[start + i + 3],
                data@[start + i + 4],
                data@[start + i + 5],
                data@[start + i + 6],
                data@[start + i + 7],
            );
        }
        let mut j: usize = 0;
        while j < 8
            invariant
                len == classified_len(data@.len(), start, old(out)@.len()),
                len <= out@.len(),
                len == 0 || start + len <= data@.len(),
            dlen == data@.len(),
                i + 8 <= len,
                j <= 8,
                out@.len() == old(out)@.len(),
                chunk == le_word(
                    data@[start + i],
                    data@[start + i + 1],
                    data@[start + i + 2],
                    data@[start + i + 3],
                    data@[start + i + 4],
                    data@[start + i + 5],
                    data@[start + i + 6],
                    data@[start + i + 7],
                ),
                forall|k: int| 0 <= k < 8 ==> #[trigger] lane(chunk, k) == data@[start + i + k],
                forall|k: int| 0 <= k < i + j ==> #[trigger] out@[k] == byte_class(data@[start + k]),
                forall|k: int| i + j <= k < out@.len() ==> #[trigger] out@[k] == old(out)@[k],
            decreases 8 - j,
        {
            let shift: u64 = (j as u64) * 8;
            let lane_bits = (chunk >> shift) & 0xFF;
            proof {
                assert(lane_bits == lane(chunk, j as int));
                assert(lane_bits < 256);
            }
            let byte = lane_bits as u8;
            out[i + j] = classify_byte(byte);
            j = j + 1;
        }
        i = i + 8;
    }

    while i < len
        invariant
            len == classified_len(data@.len(), start, old(out)@.len()),
            len <= out@.len(),
            len == 0 || start + len <= data@.len(),
            dlen == data@.len(),
            i <= len,
            out@.len() == old(out)@.len(),
            forall|k: int| 0 <= k < i ==> #[trigger] out@[k] == byte_class(data@[start + k]),
            forall|k: int| i <= k < out@.len() ==> #[trigger] out@[k] == old(out)@[k],
        decreases len - i,
    {
        out[i] = classify_byte(data[start + i]);
        i = i + 1;
    }
}

/// Number of bytes `classify_chars_simd` classifies.
pub open spec fn classified_len(data_len: nat, start: usize, out_len: nat) -> int {
    let rest = if data_len >= start {
        data_len - start
    } else {
        0
    };
    if rest < out_len {
        rest
    } else {
        out_len as int
    }
}

pub fn classify_byte(byte: u8) -> (class: u8)
    ensures
        class == byte_class(byte),
{
    match byte {
        0x61..=0x7a | 0x41..=0x5a | 0x5f => 1,
        0x30..=0x39 => 2,
        0x20 | 0x09 | 0x0d | 0x0a => 3,
        _ => 0,
    }
}

/// The classes by byte ranges: ASCII letters `a..=z`, `A..=Z` and `_` are
/// identifier letters, `0..=9` are digits, space, tab, carriage return and
/// line feed are whitespace, and every other byte is "other".
pub proof fn lemma_byte_class_ranges(b: u8)
    ensures
        (('a' as u8) <= b <= ('z' as u8) || ('A' as u8) <= b <= ('Z' as u8) || b == ('_' as u8))
            <==> byte_class(b) == 1,
        (('0' as u8) <= b <= ('9' as u8)) <==> byte_class(b) == 2,
        (b == (' ' as u8) || b == ('\t' as u8) || b == ('\r' as u8) || b == ('\n' as u8))
            <==> byte_class(b) == 3,
        !(('a' as u8) <= b <= ('z' as u8) || ('A' as u8) <= b <= ('Z' as u8) || b == ('_' as u8)
            || ('0' as u8) <= b <= ('9' as u8) || b == (' ' as u8) || b == ('\t' as u8) || b == (
        '\r' as u8) || b == ('\n' as u8)) <==> byte_class(b) == 0,
{
}

/// The blanks that `skip_whitespace_simd` skips are exactly space, tab and
/// carriage return; a line feed is not one.
pub proof fn lemma_blank_bytes(b: u8)
    ensures
        is_blank(b) <==> (b == (' ' as u8) || b == ('\t' as u8) || b == ('\r' as u8)),
        !is_blank('\n' as u8),
{
}

} // verus!
