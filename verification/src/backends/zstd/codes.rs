//! RFC 8878 sequence codes: literal lengths, match lengths and offsets, each
//! as a code plus extra bits.

use super::words::{bit_len, lemma_bit_len, lemma_bit_len_bound};
use vstd::arithmetic::power2::{lemma2_to64, pow2};
use vstd::prelude::*;

verus! {

/// Smallest literal length of each code (RFC 8878, table 2).
pub const LL_BASE: [u32; 36] = [
    0, 1, 2, 3, 4, 5, 6, 7, 8, 9, 10, 11, 12, 13, 14, 15, 16, 18, 20, 22, 24, 28, 32, 40, 48, 64,
    128, 256, 512, 1024, 2048, 4096, 8192, 16384, 32768, 65536,
];

/// Extra bits of each literal length code.
pub const LL_EXTRA: [u32; 36] = [
    0, 0, 0, 0, 0, 0, 0, 0, 0, 0, 0, 0, 0, 0, 0, 0, 1, 1, 1, 1, 2, 2, 3, 3, 4, 6, 7, 8, 9, 10, 11,
    12, 13, 14, 15, 16,
];

/// Smallest match length of each code (RFC 8878, table 3).
pub const ML_BASE: [u32; 53] = [
    3, 4, 5, 6, 7, 8, 9, 10, 11, 12, 13, 14, 15, 16, 17, 18, 19, 20, 21, 22, 23, 24, 25, 26, 27, 28,
    29, 30, 31, 32, 33, 34, 35, 37, 39, 41, 43, 47, 51, 59, 67, 83, 99, 131, 259, 515, 1027, 2051,
    4099, 8195, 16387, 32771, 65539,
];

/// Extra bits of each match length code.
pub const ML_EXTRA: [u32; 53] = [
    0, 0, 0, 0, 0, 0, 0, 0, 0, 0, 0, 0, 0, 0, 0, 0, 0, 0, 0, 0, 0, 0, 0, 0, 0, 0, 0, 0, 0, 0, 0, 0,
    1, 1, 1, 1, 2, 2, 3, 3, 4, 4, 5, 7, 8, 9, 10, 11, 12, 13, 14, 15, 16,
];

/// The last of the first `n` codes whose smallest value is at most `v`, or the
/// first code if there is none.
pub open spec fn last_code(base: Seq<u32>, n: nat, v: nat) -> nat
    decreases n,
{
    if n <= 1 {
        0
    } else if base[n - 1] <= v {
        (n - 1) as nat
    } else {
        last_code(base, (n - 1) as nat, v)
    }
}

/// The code of a literal length.
pub open spec fn lit_len_code(len: nat) -> nat {
    last_code(LL_BASE@, 36, len)
}

/// The code of a match length.
pub open spec fn match_len_code(len: nat) -> nat {
    last_code(ML_BASE@, 53, len)
}

/// The code of an offset value: the position of its highest set bit.
pub open spec fn offset_code(value: nat) -> nat {
    (bit_len(value) - 1) as nat
}

proof fn lemma_last_code(base: Seq<u32>, n: nat, v: nat, c: nat)
    requires
        n <= base.len(),
        c < n,
        base[c as int] <= v || c == 0,
        forall|i: int| c < i < n ==> v < #[trigger] base[i],
    ensures
        last_code(base, n, v) == c,
    decreases n,
{
    if n > 1 && c < n - 1 {
        assert(v < base[n - 1]);
        lemma_last_code(base, (n - 1) as nat, v, c);
    }
}

/// Map a literal length to its code and the number of extra bits (RFC 8878,
/// table 2): the last code that starts no later.
pub fn ll_code(litlen: u32) -> (res: (usize, u32))
    ensures
        res.0 == lit_len_code(litlen as nat),
        res.0 < 36,
        res.1 == LL_EXTRA@[res.0 as int],
        res.1 <= 16,
        LL_BASE@[res.0 as int] <= litlen,
        res.0 < 35 ==> litlen < LL_BASE@[res.0 + 1],
{
    let mut code: usize = 0;
    while code < 35 && LL_BASE[code + 1] <= litlen
        invariant
            code <= 35,
            LL_BASE@[code as int] <= litlen,
        decreases 35 - code,
    {
        code = code + 1;
    }
    proof {
        lemma_last_code(LL_BASE@, 36, litlen as nat, code as nat);
    }
    (code, LL_EXTRA[code])
}

/// Map a match length to its code and the number of extra bits (RFC 8878,
/// table 3): the last code that starts no later.
pub fn ml_code(matchlen: u32) -> (res: (usize, u32))
    requires
        matchlen >= 3,
    ensures
        res.0 == match_len_code(matchlen as nat),
        res.0 < 53,
        res.1 == ML_EXTRA@[res.0 as int],
        res.1 <= 16,
        ML_BASE@[res.0 as int] <= matchlen,
        res.0 < 52 ==> matchlen < ML_BASE@[res.0 + 1],
{
    let mut code: usize = 0;
    while code < 52 && ML_BASE[code + 1] <= matchlen
        invariant
            code <= 52,
            ML_BASE@[code as int] <= matchlen,
        decreases 52 - code,
    {
        code = code + 1;
    }
    proof {
        lemma_last_code(ML_BASE@, 53, matchlen as nat, code as nat);
    }
    (code, ML_EXTRA[code])
}

/// The code of an offset value: the position of its highest set bit.
pub fn off_code(value: u32) -> (res: usize)
    requires
        value >= 1,
    ensures
        res == offset_code(value as nat),
        res < 32,
{
    proof {
        lemma2_to64();
        lemma_bit_len_bound(value as nat, 32);
    }
    let mut left: u32 = value / 2;
    let mut res: usize = 0;
    while left > 0
        invariant
            res + bit_len(left as nat) + 1 == bit_len(value as nat),
            bit_len(value as nat) <= 32,
        decreases left,
    {
        left = left / 2;
        res = res + 1;
    }
    res
}

proof fn lemma_code_found(base: Seq<u32>, n: nat, v: nat)
    requires
        0 < n <= base.len(),
        base[0] <= v,
    ensures
        last_code(base, n, v) < n,
        base[last_code(base, n, v) as int] <= v,
        last_code(base, n, v) + 1 < n ==> v < base[last_code(base, n, v) as int + 1],
    decreases n,
{
    if n > 1 && base[n - 1] > v {
        lemma_code_found(base, (n - 1) as nat, v);
    }
}

/// A literal length below `2^17` is told exactly by its code and extra bits:
/// what is left over the code's smallest length fits the extra bits.
pub proof fn lemma_ll_code_exact(len: nat)
    requires
        len < 0x2_0000,
    ensures
        lit_len_code(len) < 36,
        LL_BASE@[lit_len_code(len) as int] <= len,
        len < LL_BASE@[lit_len_code(len) as int] + pow2(LL_EXTRA@[lit_len_code(len) as int] as nat),
{
    lemma2_to64();
    lemma_code_found(LL_BASE@, 36, len);
}

/// A match length of 3 up to `65539 + 2^16 - 1` is told exactly by its code
/// and extra bits.
pub proof fn lemma_ml_code_exact(len: nat)
    requires
        3 <= len < 0x2_0003,
    ensures
        match_len_code(len) < 53,
        ML_BASE@[match_len_code(len) as int] <= len,
        len < ML_BASE@[match_len_code(len) as int] + pow2(
            ML_EXTRA@[match_len_code(len) as int] as nat,
        ),
{
    lemma2_to64();
    lemma_code_found(ML_BASE@, 53, len);
}

/// An offset value is told exactly by its code and as many extra bits as the
/// code says.
pub proof fn lemma_off_code_exact(value: nat)
    requires
        value >= 1,
    ensures
        pow2(offset_code(value)) <= value < 2 * pow2(offset_code(value)),
{
    lemma2_to64();
    lemma_bit_len(value);
    vstd::arithmetic::power2::lemma_pow2_adds(1, offset_code(value));
}

/// Every length has a code of its table.
pub proof fn lemma_code_ranges(lit_len: nat, match_len: nat)
    requires
        match_len >= 3,
    ensures
        lit_len_code(lit_len) < 36,
        match_len_code(match_len) < 53,
{
    lemma_code_found(LL_BASE@, 36, lit_len);
    lemma_code_found(ML_BASE@, 53, match_len);
}

} // verus!
