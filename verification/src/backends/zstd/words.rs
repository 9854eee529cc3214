//! Reading, hashing and comparing the bytes of a chunk.

use vstd::arithmetic::div_mod::{lemma_fundamental_div_mod, lemma_fundamental_div_mod_converse};
use vstd::arithmetic::power2::{lemma2_to64, lemma_pow2_adds, lemma_pow2_pos, pow2};
use vstd::bits::{lemma_u32_shr_is_div, lemma_u64_shr_is_div};
use vstd::prelude::*;

verus! {

/// Match lengths saturate in the cost tables; past 16 KiB the marginal cost
/// is about one bit per doubling, so longer ones are not followed.
pub const MAX_RECORDED_LEN: usize = 16384;

pub const PRIME4: u32 = 2654435761;

pub const PRIME5: u64 = 889523592379;

pub const PRIME6: u64 = 227718039650203;

pub const PRIME7: u64 = 58295818150454627;

pub const PRIME8: u64 = 0xCF1B_BCDC_B7A5_6463;

/// Little-endian value of the four bytes at `p`.
pub open spec fn le32(s: Seq<u8>, p: int) -> nat {
    (s[p] + 0x100 * s[p + 1] + 0x1_0000 * s[p + 2] + 0x100_0000 * s[p + 3]) as nat
}

/// Little-endian value of the eight bytes at `p`.
pub open spec fn le64(s: Seq<u8>, p: int) -> nat {
    le32(s, p) + 0x1_0000_0000 * le32(s, p + 4)
}

/// Whether the bytes at `a + i` and at `b + i` agree.
pub open spec fn agree(s: Seq<u8>, a: int, b: int, i: int) -> bool {
    s[a + i] == s[b + i]
}

/// Whether the `k` bytes at `a` and the `k` bytes at `b` agree.
pub open spec fn agree_run(s: Seq<u8>, a: int, b: int, k: int) -> bool {
    forall|i: int| 0 <= i < k ==> #[trigger] agree(s, a, b, i)
}

/// How many bytes at `a` and at `b` agree before the first that do not,
/// looking at no more than `max`.
pub open spec fn common_prefix(s: Seq<u8>, a: int, b: int, max: nat) -> nat
    decreases max,
{
    if max == 0 || s[a] != s[b] {
        0
    } else {
        1 + common_prefix(s, a + 1, b + 1, (max - 1) as nat)
    }
}

/// How many bytes before `a` and before `b` agree before the first that do
/// not, looking at no more than `max`.
pub open spec fn common_suffix(s: Seq<u8>, a: int, b: int, max: nat) -> nat
    decreases max,
{
    if max == 0 || s[a - 1] != s[b - 1] {
        0
    } else {
        1 + common_suffix(s, a - 1, b - 1, (max - 1) as nat)
    }
}

/// How far a match may be followed from `b`: to one byte before the end, and
/// no further than the longest recorded length.
pub open spec fn match_room(s: Seq<u8>, b: int) -> nat {
    let left = s.len() - b;
    if left <= 1 {
        0
    } else if left - 1 < MAX_RECORDED_LEN {
        (left - 1) as nat
    } else {
        MAX_RECORDED_LEN as nat
    }
}

/// The length of the match at `b` with the bytes at `a`.
pub open spec fn match_len(s: Seq<u8>, a: int, b: int) -> nat {
    common_prefix(s, a, b, match_room(s, b))
}

/// Number of bits of `n`: one more than the position of its highest set bit,
/// and 0 for 0.
pub open spec fn bit_len(n: nat) -> nat
    decreases n,
{
    if n == 0 {
        0
    } else {
        1 + bit_len(n / 2)
    }
}

/// Position of the highest set bit of `x`, 0 for `x <= 1`.
pub open spec fn high_bit(x: nat) -> nat {
    if x <= 1 {
        0
    } else {
        (bit_len(x) - 1) as nat
    }
}

/// Multiplicative hash of a 64-bit value: the value is spread to the top of
/// the word, multiplied, and the `hlog` top bits are kept.
pub open spec fn hash64(v: nat, spread: nat, prime: nat, hlog: nat) -> nat {
    ((((v * spread) % 0x1_0000_0000_0000_0000) * prime) % 0x1_0000_0000_0000_0000) / pow2(
        (64 - hlog) as nat,
    )
}

/// zstd's `ZSTD_hashPtr`: hash of the `mls` leading bytes at `pos`.
#[verifier::opaque]
pub open spec fn hash_at(s: Seq<u8>, pos: int, mls: nat, hlog: nat) -> nat {
    if mls == 5 {
        hash64(le64(s, pos), 0x100_0000, PRIME5 as nat, hlog)
    } else if mls == 6 {
        hash64(le64(s, pos), 0x1_0000, PRIME6 as nat, hlog)
    } else if mls == 7 {
        hash64(le64(s, pos), 0x100, PRIME7 as nat, hlog)
    } else if mls == 8 {
        hash64(le64(s, pos), 1, PRIME8 as nat, hlog)
    } else {
        ((le32(s, pos) * PRIME4) % 0x1_0000_0000) as nat / pow2((32 - hlog) as nat)
    }
}

proof fn lemma_shift_bound(x: nat, bits: nat, hlog: nat)
    requires
        hlog <= bits,
        x < pow2(bits),
    ensures
        x / pow2((bits - hlog) as nat) < pow2(hlog),
{
    let d = pow2((bits - hlog) as nat) as int;
    lemma_pow2_adds((bits - hlog) as nat, hlog);
    lemma_pow2_pos((bits - hlog) as nat);
    lemma_fundamental_div_mod(x as int, d);
    let q = x as int / d;
    assert(q < pow2(hlog)) by (nonlinear_arith)
        requires
            x as int == d * q + x as int % d,
            0 <= x as int % d,
            x < d * pow2(hlog),
            d > 0,
    ;
}

/// A hash of `hlog` bits indexes a table of `2^hlog` entries.
pub proof fn lemma_hash_bound(s: Seq<u8>, pos: int, mls: nat, hlog: nat)
    requires
        hlog <= 32,
    ensures
        hash_at(s, pos, mls, hlog) < pow2(hlog),
{
    reveal(hash_at);
    lemma2_to64();
    if mls == 5 {
        lemma_shift_bound(
            (((le64(s, pos) * 0x100_0000) % 0x1_0000_0000_0000_0000) * PRIME5 as nat)
                % 0x1_0000_0000_0000_0000,
            64,
            hlog,
        );
    } else if mls == 6 {
        lemma_shift_bound(
            (((le64(s, pos) * 0x1_0000) % 0x1_0000_0000_0000_0000) * PRIME6 as nat)
                % 0x1_0000_0000_0000_0000,
            64,
            hlog,
        );
    } else if mls == 7 {
        lemma_shift_bound(
            (((le64(s, pos) * 0x100) % 0x1_0000_0000_0000_0000) * PRIME7 as nat)
                % 0x1_0000_0000_0000_0000,
            64,
            hlog,
        );
    } else if mls == 8 {
        lemma_shift_bound(
            (((le64(s, pos) * 1) % 0x1_0000_0000_0000_0000) * PRIME8 as nat)
                % 0x1_0000_0000_0000_0000,
            64,
            hlog,
        );
    } else {
        lemma_shift_bound(((le32(s, pos) * PRIME4) % 0x1_0000_0000) as nat, 32, hlog);
    }
}

/// Two numbers agree in their lowest base-256 digit and in the rest.
proof fn lemma_low_digit(x: u8, xs: int, y: u8, ys: int)
    requires
        x + 0x100 * xs == y + 0x100 * ys,
    ensures
        x == y,
        xs == ys,
{
}

/// Four bytes have one little-endian value.
pub proof fn lemma_le32_agree(s: Seq<u8>, a: int, b: int)
    ensures
        le32(s, a) == le32(s, b) <==> agree_run(s, a, b, 4),
{
    if le32(s, a) == le32(s, b) {
        let a1 = s[a + 1] + 0x100 * (s[a + 2] + 0x100 * s[a + 3]);
        let b1 = s[b + 1] + 0x100 * (s[b + 2] + 0x100 * s[b + 3]);
        lemma_low_digit(s[a], a1, s[b], b1);
        let a2 = s[a + 2] + 0x100 * s[a + 3];
        let b2 = s[b + 2] + 0x100 * s[b + 3];
        lemma_low_digit(s[a + 1], a2, s[b + 1], b2);
        lemma_low_digit(s[a + 2], s[a + 3] as int, s[b + 2], s[b + 3] as int);
        assert forall|i: int| 0 <= i < 4 implies #[trigger] agree(s, a, b, i) by {
            assert(i == 0 || i == 1 || i == 2 || i == 3);
        }
    } else if agree_run(s, a, b, 4) {
        assert(agree(s, a, b, 0) && agree(s, a, b, 1) && agree(s, a, b, 2) && agree(s, a, b, 3));
    }
}

/// Eight bytes have one little-endian value.
pub proof fn lemma_le64_agree(s: Seq<u8>, a: int, b: int)
    ensures
        le64(s, a) == le64(s, b) <==> agree_run(s, a, b, 8),
{
    lemma_le32_agree(s, a, b);
    lemma_le32_agree(s, a + 4, b + 4);
    if agree_run(s, a, b, 8) {
        assert forall|i: int| 0 <= i < 4 implies #[trigger] agree(s, a + 4, b + 4, i) by {
            assert(agree(s, a, b, i + 4));
        }
        assert forall|i: int| 0 <= i < 4 implies #[trigger] agree(s, a, b, i) by {
            assert(agree(s, a, b, i));
        }
        assert(agree_run(s, a, b, 4));
    } else if le64(s, a) == le64(s, b) {
        assert(le32(s, a) == le32(s, b));
        assert forall|i: int| 0 <= i < 8 implies #[trigger] agree(s, a, b, i) by {
            if i >= 4 {
                assert(agree(s, a + 4, b + 4, i - 4));
            }
        }
    }
}

/// The common prefix agrees, and is no longer than was looked at.
pub proof fn lemma_common_prefix(s: Seq<u8>, a: int, b: int, max: nat)
    ensures
        common_prefix(s, a, b, max) <= max,
        agree_run(s, a, b, common_prefix(s, a, b, max) as int),
        common_prefix(s, a, b, max) < max ==> !agree(
            s,
            a,
            b,
            common_prefix(s, a, b, max) as int,
        ),
    decreases max,
{
    if max > 0 && s[a] == s[b] {
        lemma_common_prefix(s, a + 1, b + 1, (max - 1) as nat);
        let k = common_prefix(s, a + 1, b + 1, (max - 1) as nat);
        assert forall|i: int| 0 <= i < k + 1 implies #[trigger] agree(s, a, b, i) by {
            if i > 0 {
                assert(agree(s, a + 1, b + 1, i - 1));
            }
        }
        if k + 1 < max {
            assert(!agree(s, a + 1, b + 1, k as int));
        }
    }
}

/// The common suffix agrees, and is no longer than was looked at.
pub proof fn lemma_common_suffix(s: Seq<u8>, a: int, b: int, max: nat)
    ensures
        common_suffix(s, a, b, max) <= max,
        agree_run(
            s,
            a - common_suffix(s, a, b, max),
            b - common_suffix(s, a, b, max),
            common_suffix(s, a, b, max) as int,
        ),
    decreases max,
{
    if max > 0 && s[a - 1] == s[b - 1] {
        lemma_common_suffix(s, a - 1, b - 1, (max - 1) as nat);
        let k = common_suffix(s, a - 1, b - 1, (max - 1) as nat);
        assert forall|i: int| 0 <= i < k + 1 implies #[trigger] agree(
            s,
            a - (k + 1),
            b - (k + 1),
            i,
        ) by {
            if i < k {
                assert(agree(s, a - 1 - k, b - 1 - k, i));
            }
        }
    }
}

/// A run that agrees can be skipped when counting the common prefix.
pub proof fn lemma_common_prefix_skip(s: Seq<u8>, a: int, b: int, max: nat, k: nat)
    requires
        k <= max,
        agree_run(s, a, b, k as int),
    ensures
        common_prefix(s, a, b, max) == k + common_prefix(s, a + k, b + k, (max - k) as nat),
    decreases k,
{
    if k > 0 {
        assert(agree(s, a, b, 0));
        assert forall|i: int| 0 <= i < k - 1 implies #[trigger] agree(s, a + 1, b + 1, i) by {
            assert(agree(s, a, b, i + 1));
        }
        lemma_common_prefix_skip(s, a + 1, b + 1, (max - 1) as nat, (k - 1) as nat);
    }
}

/// Two runs that agree one behind the other make one run.
pub proof fn lemma_agree_join(s: Seq<u8>, a: int, b: int, j: int, k: int)
    requires
        0 <= j,
        0 <= k,
        agree_run(s, a, b, j),
        agree_run(s, a + j, b + j, k),
    ensures
        agree_run(s, a, b, j + k),
{
    assert forall|i: int| 0 <= i < j + k implies #[trigger] agree(s, a, b, i) by {
        if i >= j {
            assert(agree(s, a + j, b + j, i - j));
        }
    }
}

/// The bits of a number bound it from both sides.
pub proof fn lemma_bit_len(n: nat)
    ensures
        n < pow2(bit_len(n)),
        n > 0 ==> bit_len(n) > 0 && pow2((bit_len(n) - 1) as nat) <= n,
    decreases n,
{
    lemma2_to64();
    if n > 0 {
        lemma_bit_len(n / 2);
        lemma_pow2_adds(1, bit_len(n / 2));
        if n / 2 > 0 {
            lemma_pow2_adds(1, (bit_len(n / 2) - 1) as nat);
        }
    }
}

/// Little-endian value of the four bytes at `p`.
pub fn read32(chunk: &[u8], p: usize) -> (res: u32)
    requires
        p + 4 <= chunk@.len(),
    ensures
        res == le32(chunk@, p as int),
{
    chunk[p] as u32 + 0x100 * chunk[p + 1] as u32 + 0x1_0000 * chunk[p + 2] as u32 + 0x100_0000
        * chunk[p + 3] as u32
}

/// Little-endian value of the eight bytes at `p`.
pub fn read64(chunk: &[u8], p: usize) -> (res: u64)
    requires
        p + 8 <= chunk@.len(),
    ensures
        res == le64(chunk@, p as int),
{
    assert(p + 8 <= chunk.len());  // so that `p + 4` fits
    let lo: u64 = read32(chunk, p) as u64;
    let hi: u64 = read32(chunk, p + 4) as u64;
    lo + 0x1_0000_0000 * hi
}

/// Whether the four bytes at `a` and at `b` agree.
pub fn same4(chunk: &[u8], a: usize, b: usize) -> (res: bool)
    requires
        a + 4 <= chunk@.len(),
        b + 4 <= chunk@.len(),
    ensures
        res == agree_run(chunk@, a as int, b as int, 4),
{
    proof {
        lemma_le32_agree(chunk@, a as int, b as int);
    }
    read32(chunk, a) == read32(chunk, b)
}

/// Whether the eight bytes at `a` and at `b` agree.
pub fn same8(chunk: &[u8], a: usize, b: usize) -> (res: bool)
    requires
        a + 8 <= chunk@.len(),
        b + 8 <= chunk@.len(),
    ensures
        res == agree_run(chunk@, a as int, b as int, 8),
{
    proof {
        lemma_le64_agree(chunk@, a as int, b as int);
    }
    read64(chunk, a) == read64(chunk, b)
}

fn mul_shift64(v: u64, spread: u64, prime: u64, hlog: u32) -> (res: usize)
    requires
        1 <= hlog <= 32,
        pow2(hlog as nat) <= usize::MAX,
    ensures
        res == hash64(v as nat, spread as nat, prime as nat, hlog as nat),
        res < pow2(hlog as nat),
{
    let x: u64 = v.wrapping_mul(spread).wrapping_mul(prime);
    let shift: u64 = 64 - hlog as u64;
    proof {
        lemma2_to64();
        lemma_u64_shr_is_div(x, shift);
        lemma_shift_bound(x as nat, 64, hlog as nat);
    }
    (x >> shift) as usize
}

/// zstd's `ZSTD_hashPtr`: hash the `mls` leading bytes at `pos`.
pub fn zhash(chunk: &[u8], pos: usize, mls: u32, hlog: u32) -> (res: usize)
    requires
        pos + 8 <= chunk@.len(),
        1 <= hlog <= 32,
        pow2(hlog as nat) <= usize::MAX,
    ensures
        res == hash_at(chunk@, pos as int, mls as nat, hlog as nat),
        res < pow2(hlog as nat),
{
    proof {
        reveal(hash_at);
    }
    match mls {
        5 => mul_shift64(read64(chunk, pos), 0x100_0000, PRIME5, hlog),
        6 => mul_shift64(read64(chunk, pos), 0x1_0000, PRIME6, hlog),
        7 => mul_shift64(read64(chunk, pos), 0x100, PRIME7, hlog),
        8 => mul_shift64(read64(chunk, pos), 1, PRIME8, hlog),
        _ => {
            let x: u32 = read32(chunk, pos).wrapping_mul(PRIME4);
            let shift: u32 = 32 - hlog;
            proof {
                lemma2_to64();
                lemma_u32_shr_is_div(x, shift);
                lemma_shift_bound(x as nat, 32, hlog as nat);
            }
            (x >> shift) as usize
        },
    }
}

/// Length of the match at `b` with the bytes at `a`, stopping one byte before
/// the end of the chunk and at the longest recorded length.
pub fn count(chunk: &[u8], a: usize, b: usize) -> (res: usize)
    requires
        a <= b <= chunk@.len(),
    ensures
        res == match_len(chunk@, a as int, b as int),
        b + res <= chunk@.len(),
        res <= MAX_RECORDED_LEN,
        res > 0 ==> b + res < chunk@.len(),
        agree_run(chunk@, a as int, b as int, res as int),
{
    proof {
        lemma_common_prefix(chunk@, a as int, b as int, match_room(chunk@, b as int));
    }
    let len: usize = chunk.len();
    let left: usize = len - b;
    let max: usize = if left <= 1 {
        0
    } else if left - 1 < MAX_RECORDED_LEN {
        left - 1
    } else {
        MAX_RECORDED_LEN
    };
    let mut n: usize = 0;
    let mut word: bool = true;
    while word && n + 8 <= max
        invariant
            a <= b,
            len == chunk@.len(),
            b + max <= len,
            max > 0 ==> b + max < chunk@.len(),
            n <= max <= MAX_RECORDED_LEN,
            max == match_room(chunk@, b as int),
            match_len(chunk@, a as int, b as int) == n + common_prefix(
                chunk@,
                a + n,
                b + n,
                (max - n) as nat,
            ),
        decreases (max - n) + if word {
                1int
            } else {
                0int
            },
    {
        if same8(chunk, a + n, b + n) {
            proof {
                lemma_common_prefix_skip(chunk@, a + n, b + n, (max - n) as nat, 8);
            }
            n = n + 8;
        } else {
            word = false;
        }
    }
    while n < max && chunk[a + n] == chunk[b + n]
        invariant
            a <= b,
            len == chunk@.len(),
            b + max <= len,
            max > 0 ==> b + max < chunk@.len(),
            n <= max <= MAX_RECORDED_LEN,
            max == match_room(chunk@, b as int),
            match_len(chunk@, a as int, b as int) == n + common_prefix(
                chunk@,
                a + n,
                b + n,
                (max - n) as nat,
            ),
        decreases max - n,
    {
        n = n + 1;
    }
    n
}

/// Length of the agreement before `b` with the bytes before `a`, looking at
/// no more than `max` bytes.
pub fn count_back(chunk: &[u8], a: usize, b: usize, max: usize) -> (res: usize)
    requires
        a <= b <= chunk@.len(),
        max <= a,
    ensures
        res == common_suffix(chunk@, a as int, b as int, max as nat),
        res <= max,
        agree_run(chunk@, a - res, b - res, res as int),
{
    proof {
        lemma_common_suffix(chunk@, a as int, b as int, max as nat);
    }
    let mut n: usize = 0;
    while n < max && chunk[a - n - 1] == chunk[b - n - 1]
        invariant
            a <= b <= chunk@.len(),
            n <= max <= a,
            common_suffix(chunk@, a as int, b as int, max as nat) == n + common_suffix(
                chunk@,
                a - n,
                b - n,
                (max - n) as nat,
            ),
        decreases max - n,
    {
        n = n + 1;
    }
    n
}

/// Number of bits of `n`.
pub fn bit_length(n: usize) -> (res: u32)
    ensures
        res == bit_len(n as nat),
        res <= 64,
{
    let mut left: usize = n;
    let mut res: u32 = 0;
    proof {
        lemma2_to64();
        lemma_pow2_pos(bit_len(n as nat));
        lemma_bit_len_bound(n as nat, 64);
    }
    while left > 0
        invariant
            res + bit_len(left as nat) == bit_len(n as nat),
            bit_len(n as nat) <= 64,
        decreases left,
    {
        left = left / 2;
        res = res + 1;
    }
    res
}

/// A number below `2^k` has no more than `k` bits.
pub proof fn lemma_bit_len_bound(n: nat, k: nat)
    requires
        n < pow2(k),
    ensures
        bit_len(n) <= k,
    decreases k,
{
    lemma2_to64();
    if n > 0 {
        if k == 0 {
            assert(false);
        }
        lemma_pow2_adds(1, (k - 1) as nat);
        lemma_bit_len_bound(n / 2, (k - 1) as nat);
    }
}

/// `ZSTD_highbit32` (0 for x <= 1).
pub fn hb32(x: u32) -> (res: u32)
    ensures
        res == high_bit(x as nat),
        res < 32,
{
    let mut left: u32 = x / 2;
    let mut res: u32 = 0;
    proof {
        lemma2_to64();
        lemma_bit_len_bound(x as nat, 32);
    }
    while left > 0
        invariant
            x > 1 ==> res + bit_len(left as nat) + 1 == bit_len(x as nat),
            x <= 1 ==> left == 0 && res == 0,
            bit_len(x as nat) <= 32,
        decreases left,
    {
        left = left / 2;
        res = res + 1;
    }
    res
}

/// A hash is one of the leading bytes alone: where as many bytes agree as are
/// hashed, the hashes do.
pub proof fn lemma_hash_of_leading_bytes(s: Seq<u8>, a: int, b: int, mls: nat, hlog: nat)
    requires
        4 <= mls <= 8,
        agree_run(s, a, b, mls as int),
    ensures
        hash_at(s, a, mls, hlog) == hash_at(s, b, mls, hlog),
{
    reveal(hash_at);
    assert(agree(s, a, b, 0) && agree(s, a, b, 1) && agree(s, a, b, 2) && agree(s, a, b, 3));
    if mls >= 5 {
        assert(agree(s, a, b, 4));
    }
    if mls >= 6 {
        assert(agree(s, a, b, 5));
    }
    if mls >= 7 {
        assert(agree(s, a, b, 6));
    }
    if mls >= 8 {
        assert(agree(s, a, b, 7));
    }
    if mls == 5 {
        lemma_spread(s, a, 0x100_0000, 0x100_0000_0000, le32(s, a) + 0x1_0000_0000 * s[a + 4]);
        lemma_spread(s, b, 0x100_0000, 0x100_0000_0000, le32(s, a) + 0x1_0000_0000 * s[a + 4]);
    } else if mls == 6 {
        let low = le32(s, a) + 0x1_0000_0000 * s[a + 4] + 0x100_0000_0000 * s[a + 5];
        lemma_spread(s, a, 0x1_0000, 0x1_0000_0000_0000, low);
        lemma_spread(s, b, 0x1_0000, 0x1_0000_0000_0000, low);
    } else if mls == 7 {
        let low = le32(s, a) + 0x1_0000_0000 * s[a + 4] + 0x100_0000_0000 * s[a + 5]
            + 0x1_0000_0000_0000 * s[a + 6];
        lemma_spread(s, a, 0x100, 0x100_0000_0000_0000, low);
        lemma_spread(s, b, 0x100, 0x100_0000_0000_0000, low);
    }
}

/// Spreading a word to the top drops what is above its low part.
proof fn lemma_spread(s: Seq<u8>, p: int, spread: int, cut: int, low: int)
    requires
        spread > 0,
        cut * spread == 0x1_0000_0000_0000_0000,
        0 <= low < cut,
        (le64(s, p) - low) % cut == 0,
    ensures
        (le64(s, p) * spread) % 0x1_0000_0000_0000_0000 == low * spread,
{
    let v = le64(s, p) as int;
    let high = (v - low) / cut;
    lemma_fundamental_div_mod(v - low, cut);
    assert(v * spread == high * 0x1_0000_0000_0000_0000 + low * spread && 0 <= low * spread
        < 0x1_0000_0000_0000_0000) by (nonlinear_arith)
        requires
            v - low == cut * high,
            cut * spread == 0x1_0000_0000_0000_0000,
            0 <= low < cut,
            spread > 0,
    ;
    lemma_fundamental_div_mod_converse(
        v * spread,
        0x1_0000_0000_0000_0000,
        high,
        low * spread,
    );
}

/// The position of the highest set bit: the largest power of two that is no
/// more than the number.
pub proof fn lemma_high_bit(x: nat)
    requires
        x >= 1,
    ensures
        pow2(high_bit(x)) <= x < 2 * pow2(high_bit(x)),
{
    lemma2_to64();
    lemma_bit_len(x);
    if x > 1 {
        lemma_pow2_adds(1, high_bit(x));
    }
}

/// Little-endian value of the `k` bytes at `p`.
pub open spec fn leading(s: Seq<u8>, p: int, k: nat) -> nat
    decreases k,
{
    if k == 0 {
        0
    } else {
        s[p] as nat + 0x100 * leading(s, p + 1, (k - 1) as nat)
    }
}

/// What a hash is: the leading bytes as a number, four times a prime of 32
/// bits, five to eight times one of their own and shifted to the top of 64 bits
/// first; of the product, the top `hlog` bits.
pub proof fn lemma_hash_is_product(s: Seq<u8>, p: int, mls: nat, hlog: nat)
    requires
        4 <= mls <= 8,
    ensures
        ({
            let v = leading(s, p, mls) as int;
            let prime = if mls == 5 {
                889523592379
            } else if mls == 6 {
                227718039650203
            } else if mls == 7 {
                58295818150454627
            } else {
                0xCF1B_BCDC_B7A5_6463int
            };
            let shift = if mls == 5 {
                0x100_0000
            } else if mls == 6 {
                0x1_0000
            } else if mls == 7 {
                0x100
            } else {
                1int
            };
            hash_at(s, p, mls, hlog) == if mls == 4 {
                ((v * 2654435761) % 0x1_0000_0000) / (pow2((32 - hlog) as nat) as int)
            } else {
                ((v * shift * prime) % 0x1_0000_0000_0000_0000) / (pow2((64 - hlog) as nat) as int)
            }
        }),
{
    reveal(hash_at);
    reveal_with_fuel(leading, 9);
    let v = leading(s, p, mls) as int;
    if mls == 5 {
        assert(v == le32(s, p) + 0x1_0000_0000 * s[p + 4]);
        lemma_spread(s, p, 0x100_0000, 0x100_0000_0000, v);
    } else if mls == 6 {
        assert(v == le32(s, p) + 0x1_0000_0000 * s[p + 4] + 0x100_0000_0000 * s[p + 5]);
        lemma_spread(s, p, 0x1_0000, 0x1_0000_0000_0000, v);
    } else if mls == 7 {
        assert(v == le32(s, p) + 0x1_0000_0000 * s[p + 4] + 0x100_0000_0000 * s[p + 5]
            + 0x1_0000_0000_0000 * s[p + 6]);
        lemma_spread(s, p, 0x100, 0x100_0000_0000_0000, v);
    } else if mls == 8 {
        assert(v == le64(s, p));
        assert(le64(s, p) < 0x1_0000_0000_0000_0000);
    } else {
        assert(v == le32(s, p));
    }
}

} // verus!
