//! The Hamming single-error-correcting code over a [`BitVec`].
//!
//! A codeword of length `n = k + r` holds the `k` data bits, in order, at
//! the 1-indexed positions that are not powers of two, and one parity bit
//! at each power-of-two position `2^i`. Parity bit `i` makes the number of
//! set bits even over the positions whose index has bit `i` set. On decode
//! the failed checks add up to the syndrome: the 1-indexed position of a
//! single flipped bit, or zero when every check passes.
//!
//! The specification functions below define that code mathematically;
//! [`lemma_hamming_round_trip`] and [`lemma_hamming_corrects_single_flip`]
//! prove it recovers the data, and the executable codec is verified to
//! compute exactly these functions.

use vstd::prelude::*;

verus! {

use crate::bitvec::BitVec;
use vstd::arithmetic::div_mod::{
    lemma_basic_div,
    lemma_fundamental_div_mod,
    lemma_mod_breakdown,
    lemma_small_mod,
};
use vstd::arithmetic::power2::{
    is_pow2,
    lemma2_to64,
    lemma2_to64_rest,
    lemma_pow2_adds,
    lemma_pow2_pos,
    lemma_pow2_strictly_increases,
    lemma_pow2_unfold,
    pow2,
};
use vstd::bits::{lemma_u64_pow2_no_overflow, lemma_u64_shl_is_mul, lemma_u64_shr_is_div};

/// The one failure a codec operation can report: an index computation
/// escaped the vector it addresses. The verified implementation proves it
/// never happens, but the variant remains part of the interface.
#[derive(Debug, PartialEq, Eq, Structural)]
pub enum HammingError {
    UnexpectedOutOfBounds,
}

/// The largest data length (in bits) the executable codec accepts; it keeps
/// every position and power-of-two computation inside `usize`, on 32-bit
/// and 64-bit machines alike.
pub open spec fn max_data_bits() -> nat {
    (usize::MAX / 2 - 64) as nat
}

/// Linear search for the least `r` at or above `r0` with `2^r >= k + r + 1`,
/// with explicit fuel to bound the recursion.
spec fn find_parity_count(k: nat, r0: nat, fuel: nat) -> nat
    decreases fuel,
{
    if fuel == 0 {
        r0
    } else if pow2(r0) >= k + r0 + 1 {
        r0
    } else {
        find_parity_count(k, r0 + 1, (fuel - 1) as nat)
    }
}

/// The number of parity bits for `k` data bits: the least `r` with
/// `2^r >= k + r + 1` ([`lemma_parity_count_minimal`] states exactly that).
pub closed spec fn parity_count(k: nat) -> nat {
    find_parity_count(k, 0, k + 3)
}

/// The total length of the codeword that carries `k` data bits.
pub open spec fn codeword_len(k: nat) -> nat {
    k + parity_count(k)
}

/// Linear search for the least `r` at or above `r0` with `2^r > n`.
spec fn find_check_count(n: nat, r0: nat, fuel: nat) -> nat
    decreases fuel,
{
    if fuel == 0 {
        r0
    } else if pow2(r0) > n {
        r0
    } else {
        find_check_count(n, r0 + 1, (fuel - 1) as nat)
    }
}

/// The number of parity checks decode runs over a codeword of length `n`:
/// the least `r` with `2^r >= n + 1`.
pub closed spec fn check_count(n: nat) -> nat {
    find_check_count(n, 0, n + 1)
}

/// Every power of two is at least one more than its exponent.
proof fn lemma_pow2_above_exponent(e: nat)
    ensures
        pow2(e) >= e + 1,
    decreases e,
{
    if e == 0 {
        lemma2_to64();
    } else {
        lemma_pow2_above_exponent((e - 1) as nat);
        lemma_pow2_unfold(e);
    }
}

proof fn lemma_find_parity_count(k: nat, r0: nat, fuel: nat)
    requires
        exists|s: nat| r0 <= s <= r0 + fuel && pow2(s) >= k + s + 1,
    ensures
        ({
            let res = find_parity_count(k, r0, fuel);
            &&& r0 <= res <= r0 + fuel
            &&& pow2(res) >= k + res + 1
            &&& forall|t: nat| r0 <= t < res ==> pow2(t) < k + t + 1
        }),
    decreases fuel,
{
    if pow2(r0) >= k + r0 + 1 {
    } else {
        let s = choose|s: nat| r0 <= s <= r0 + fuel && pow2(s) >= k + s + 1;
        assert(s >= r0 + 1);
        assert(fuel >= 1);
        assert(r0 + 1 <= s <= (r0 + 1) + (fuel - 1));
        lemma_find_parity_count(k, r0 + 1, (fuel - 1) as nat);
    }
}

/// `parity_count(k)` is the minimal `r` with `2^r >= k + r + 1`.
pub proof fn lemma_parity_count_minimal(k: nat)
    ensures
        pow2(parity_count(k)) >= k + parity_count(k) + 1,
        forall|t: nat| t < parity_count(k) ==> pow2(t) < k + t + 1,
        parity_count(k) <= k + 2,
{
    assert(pow2(k + 2) >= k + (k + 2) + 1) by {
        lemma_pow2_above_exponent(k);
        lemma_pow2_adds(k, 2);
        lemma2_to64();
    }
    assert(0 <= k + 2 <= 0 + (k + 3) && pow2(k + 2) >= k + (k + 2) + 1);
    lemma_find_parity_count(k, 0, k + 3);
}

proof fn lemma_find_check_count(n: nat, r0: nat, fuel: nat)
    requires
        exists|s: nat| r0 <= s <= r0 + fuel && pow2(s) > n,
    ensures
        ({
            let res = find_check_count(n, r0, fuel);
            &&& r0 <= res <= r0 + fuel
            &&& pow2(res) > n
            &&& forall|t: nat| r0 <= t < res ==> pow2(t) <= n
        }),
    decreases fuel,
{
    if pow2(r0) > n {
    } else {
        let s = choose|s: nat| r0 <= s <= r0 + fuel && pow2(s) > n;
        assert(s >= r0 + 1);
        assert(fuel >= 1);
        assert(r0 + 1 <= s <= (r0 + 1) + (fuel - 1));
        lemma_find_check_count(n, r0 + 1, (fuel - 1) as nat);
    }
}

/// `check_count(n)` is the minimal `r` with `2^r > n`.
pub proof fn lemma_check_count_minimal(n: nat)
    ensures
        pow2(check_count(n)) > n,
        forall|t: nat| t < check_count(n) ==> pow2(t) <= n,
        check_count(n) <= n + 1,
{
    lemma_pow2_above_exponent(n);
    assert(0 <= n <= 0 + (n + 1) && pow2(n) > n);
    lemma_find_check_count(n, 0, n + 1);
}

/// Any `r` that satisfies the minimality characterisation is `check_count`.
pub proof fn lemma_check_count_is(n: nat, r: nat)
    requires
        pow2(r) > n,
        forall|t: nat| t < r ==> pow2(t) <= n,
    ensures
        check_count(n) == r,
{
    lemma_check_count_minimal(n);
    let c = check_count(n);
    if c < r {
        assert(pow2(c) <= n);
    } else if r < c {
        assert(pow2(r) <= n);
    }
}

/// Decoding a well-formed codeword runs exactly the checks that encoding
/// placed parity bits for.
pub proof fn lemma_check_count_of_codeword(k: nat)
    ensures
        check_count(codeword_len(k)) == parity_count(k),
{
    let r = parity_count(k);
    let n = k + r;
    lemma_parity_count_minimal(k);
    assert forall|t: nat| t < r implies pow2(t) <= n by {
        assert(pow2(t) < k + t + 1);
    }
    lemma_check_count_is(n, r);
}

/// Whether 1-indexed codeword position `p` holds a parity bit: exactly the
/// powers of two do.
pub open spec fn is_parity_pos(p: nat) -> bool {
    is_pow2(p as int)
}

/// How many positions in `1..=m` hold parity bits.
pub open spec fn parity_slots_upto(m: nat) -> nat
    decreases m,
{
    if m == 0 {
        0
    } else {
        parity_slots_upto((m - 1) as nat) + if is_parity_pos(m) {
            1nat
        } else {
            0nat
        }
    }
}

/// How many positions in `1..=m` hold data bits.
pub open spec fn data_slots_upto(m: nat) -> nat
    decreases m,
{
    if m == 0 {
        0
    } else {
        data_slots_upto((m - 1) as nat) + if is_parity_pos(m) {
            0nat
        } else {
            1nat
        }
    }
}

/// The exponent of the largest power of two at or below `p`.
pub open spec fn floor_log2(p: nat) -> nat
    decreases p,
{
    if p <= 1 {
        0
    } else {
        floor_log2(p / 2) + 1
    }
}

/// Powers of two are parity positions and `floor_log2` recovers their
/// exponent.
proof fn lemma_pow2_is_parity_pos(e: nat)
    ensures
        is_parity_pos(pow2(e)),
        floor_log2(pow2(e)) == e,
    decreases e,
{
    reveal(is_pow2);
    if e == 0 {
        lemma2_to64();
    } else {
        lemma_pow2_is_parity_pos((e - 1) as nat);
        lemma_pow2_unfold(e);
        lemma_pow2_pos((e - 1) as nat);
        assert(pow2(e) == 2 * pow2((e - 1) as nat));
        assert(pow2(e) as int % 2 == 0 && pow2(e) as int / 2 == pow2((e - 1) as nat));
    }
}

/// A parity position is the power of two that `floor_log2` names.
proof fn lemma_parity_pos_pow2(p: nat)
    requires
        is_parity_pos(p),
    ensures
        p == pow2(floor_log2(p)),
    decreases p,
{
    reveal(is_pow2);
    if p == 1 {
        lemma2_to64();
    } else {
        assert(p as int % 2 == 0 && is_pow2(p as int / 2));
        lemma_parity_pos_pow2(p / 2);
        lemma_pow2_unfold(floor_log2(p));
        assert(p == 2 * (p / 2));
    }
}

/// Between consecutive powers of two there is no further power of two, so
/// over `1..=m` with `2^t <= m < 2^(t+1)` exactly `t + 1` parity positions
/// occur.
proof fn lemma_parity_slots_interval(t: nat, m: nat)
    requires
        pow2(t) <= m < pow2(t + 1),
    ensures
        parity_slots_upto(m) == t + 1,
    decreases m,
{
    lemma_pow2_is_parity_pos(t);
    lemma_pow2_pos(t);
    if m == pow2(t) {
        if t == 0 {
            lemma2_to64();
            assert(m == 1);
            reveal(is_pow2);
            assert(is_parity_pos(1));
            assert(parity_slots_upto(0) == 0);
            assert(parity_slots_upto(1) == 1);
        } else {
            lemma_pow2_unfold(t);
            lemma_pow2_pos((t - 1) as nat);
            assert(pow2((t - 1) as nat) <= ((m - 1) as nat) && ((m - 1) as nat) < pow2(t)) by {
                lemma_pow2_strictly_increases((t - 1) as nat, t);
            }
            lemma_parity_slots_interval((t - 1) as nat, (m - 1) as nat);
            assert(parity_slots_upto((m - 1) as nat) == t);
            assert(is_parity_pos(m));
            assert(parity_slots_upto(m) == parity_slots_upto((m - 1) as nat) + 1);
        }
    } else {
        if is_parity_pos(m) {
            lemma_parity_pos_pow2(m);
            let e = floor_log2(m);
            if e <= t {
                if e < t {
                    lemma_pow2_strictly_increases(e, t);
                }
                assert(pow2(e) <= pow2(t));
                assert(false);
            } else {
                lemma_pow2_strictly_increases(t + 1, e + 1);
                if t + 1 < e {
                    lemma_pow2_strictly_increases(t + 1, e);
                }
                assert(pow2(t + 1) <= pow2(e));
                assert(false);
            }
        }
        assert(!is_parity_pos(m));
        lemma_parity_slots_interval(t, (m - 1) as nat);
        assert(parity_slots_upto(m) == parity_slots_upto((m - 1) as nat));
    }
}

/// Pin `floor_log2` between the neighbouring powers of two.
proof fn lemma_floor_log2(n: nat)
    requires
        n >= 1,
    ensures
        pow2(floor_log2(n)) <= n < pow2(floor_log2(n) + 1),
    decreases n,
{
    if n == 1 {
        lemma2_to64();
    } else {
        lemma_floor_log2(n / 2);
        let f = floor_log2(n / 2);
        lemma_pow2_unfold(f + 1);
        lemma_pow2_unfold(f + 2);
        assert(pow2(f + 1) == 2 * pow2(f) && pow2(f + 2) == 2 * pow2(f + 1));
        assert(n < pow2(f + 2)) by {
            assert(n <= 2 * (n / 2) + 1);
            assert(n / 2 + 1 <= pow2(f + 1));
        }
    }
}

/// Over any prefix, the parity positions number exactly the checks decode
/// would run on a codeword of that length.
pub proof fn lemma_parity_slots_count(n: nat)
    ensures
        parity_slots_upto(n) == check_count(n),
{
    if n == 0 {
        lemma2_to64();
        lemma_check_count_is(0, 0);
    } else {
        lemma_floor_log2(n);
        let t = floor_log2(n);
        lemma_parity_slots_interval(t, n);
        assert forall|s: nat| s < t + 1 implies pow2(s) <= n by {
            if s < t {
                lemma_pow2_strictly_increases(s, t);
            }
        }
        lemma_check_count_is(n, t + 1);
    }
}

/// Every position holds either a parity bit or a data bit.
pub proof fn lemma_slots_sum(m: nat)
    ensures
        parity_slots_upto(m) + data_slots_upto(m) == m,
    decreases m,
{
    if m > 0 {
        lemma_slots_sum((m - 1) as nat);
    }
}

/// Data slot counts grow by at most one per position.
pub proof fn lemma_data_slots_monotone(a: nat, b: nat)
    requires
        a <= b,
    ensures
        data_slots_upto(a) <= data_slots_upto(b),
        data_slots_upto(b) <= data_slots_upto(a) + (b - a),
    decreases b,
{
    if a < b {
        lemma_data_slots_monotone(a, (b - 1) as nat);
    }
}

/// A codeword of `k` data bits has exactly `parity_count(k)` parity slots
/// and `k` data slots.
pub proof fn lemma_codeword_slots(k: nat)
    ensures
        parity_slots_upto(codeword_len(k)) == parity_count(k),
        data_slots_upto(codeword_len(k)) == k,
{
    let n = codeword_len(k);
    lemma_parity_slots_count(n);
    lemma_check_count_of_codeword(k);
    lemma_slots_sum(n);
}

/// Whether 1-indexed position `pos` takes part in parity check `i`: bit
/// `i` of the position is set.
pub open spec fn in_check_set(pos: nat, i: nat) -> bool {
    (pos / pow2(i)) % 2 == 1
}

/// The even-parity sum (exclusive or) of the bits of `s` at the 1-indexed
/// positions `1..=upto` that take part in check `i`.
pub open spec fn check_parity(s: Seq<bool>, i: nat, upto: nat) -> bool
    decreases upto,
{
    if upto == 0 {
        false
    } else {
        check_parity(s, i, (upto - 1) as nat) != (in_check_set(upto, i) && s[upto - 1])
    }
}

/// The even-parity sum of the bits of `s` at the 1-indexed positions
/// `1..=upto` whose index shares a bit with `mask`; what the executable
/// parity computation walks for an arbitrary mask.
pub open spec fn masked_parity(s: Seq<bool>, mask: u64, upto: nat) -> bool
    decreases upto,
{
    if upto == 0 {
        false
    } else {
        masked_parity(s, mask, (upto - 1) as nat) != ((((upto as u64) & mask) != 0) && s[upto - 1])
    }
}

/// Testing a position against the mask `2^i` reads bit `i` of the
/// position.
proof fn lemma_bit_test(j: u64, i: nat)
    requires
        i < 64,
    ensures
        ((j & (pow2(i) as u64)) != 0) == in_check_set(j as nat, i),
{
    lemma_u64_pow2_no_overflow(i);
    let iv: u64 = i as u64;
    lemma_u64_shl_is_mul(1u64, iv);
    assert((1u64 << iv) == pow2(i));
    assert(((j & (1u64 << iv)) != 0) == (((j >> iv) & 1) == 1)) by (bit_vector)
        requires
            iv < 64,
    ;
    lemma_u64_shr_is_div(j, iv);
    assert(((j >> iv) & 1) == ((j >> iv) % 2)) by (bit_vector);
}

/// For a power-of-two mask, the masked parity is the arithmetic check.
proof fn lemma_masked_is_check(s: Seq<bool>, i: nat, upto: nat)
    requires
        i < 64,
        upto <= u64::MAX,
    ensures
        masked_parity(s, pow2(i) as u64, upto) == check_parity(s, i, upto),
    decreases upto,
{
    if upto > 0 {
        lemma_masked_is_check(s, i, (upto - 1) as nat);
        lemma_bit_test(upto as u64, i);
        assert((upto as u64) as nat == upto);
    }
}

/// Two sequences that agree on every position of check `i` except possibly
/// `q` have parities that differ exactly when their bits at `q` differ.
proof fn lemma_check_parity_one_diff(a: Seq<bool>, b: Seq<bool>, i: nat, upto: nat, q: nat)
    requires
        a.len() == b.len(),
        upto <= a.len(),
        forall|p: nat|
            1 <= p <= upto && #[trigger] in_check_set(p, i) && p != q ==> a[p - 1] == b[p - 1],
    ensures
        check_parity(a, i, upto) == (check_parity(b, i, upto) != (1 <= q <= upto && in_check_set(
            q,
            i,
        ) && a[q - 1] != b[q - 1])),
    decreases upto,
{
    if upto > 0 {
        lemma_check_parity_one_diff(a, b, i, (upto - 1) as nat, q);
    }
}

/// The number whose binary writing keeps bits `0..t` of `pos` and clears
/// the rest.
spec fn low_bits(pos: nat, t: nat) -> nat
    decreases t,
{
    if t == 0 {
        0
    } else {
        low_bits(pos, (t - 1) as nat) + if in_check_set(pos, (t - 1) as nat) {
            pow2((t - 1) as nat)
        } else {
            0nat
        }
    }
}

/// Reassembling the low `t` bits of `pos` gives `pos` modulo `2^t`.
proof fn lemma_low_bits(pos: nat, t: nat)
    ensures
        low_bits(pos, t) == pos % pow2(t),
    decreases t,
{
    if t == 0 {
        lemma2_to64();
        assert(pow2(0) == 1);
        assert(pos % 1nat == 0) by (nonlinear_arith);
        assert(pos % pow2(0) == 0);
    } else {
        let u = (t - 1) as nat;
        lemma_low_bits(pos, u);
        lemma_pow2_pos(u);
        lemma_mod_breakdown(pos as int, pow2(u) as int, 2);
        lemma_pow2_unfold(t);
        assert(pow2(u) as int * 2 == pow2(t));
        assert(pos as int % (pow2(u) as int * 2) == pos as int % pow2(t) as int);
        assert(pos as int % pow2(t) as int == pow2(u) as int * ((pos as int / pow2(u) as int) % 2)
            + pos as int % pow2(u) as int);
        assert(pos as int / pow2(u) as int == pos / pow2(u));
        assert(pos as int % pow2(u) as int == pos % pow2(u));
        assert(pos % pow2(t) == pos as int % pow2(t) as int);
        if in_check_set(pos, u) {
            assert((pos / pow2(u)) % 2 == 1);
            assert(low_bits(pos, t) == pos % pow2(u) + pow2(u));
            assert(pos as int % pow2(t) as int == pow2(u) as int * 1 + pos as int % pow2(
                u,
            ) as int);
        } else {
            assert((pos / pow2(u)) % 2 == 0);
            assert(low_bits(pos, t) == pos % pow2(u));
            assert(pos as int % pow2(t) as int == pow2(u) as int * 0 + pos as int % pow2(
                u,
            ) as int);
        }
    }
}

/// The codeword with the data bits in place and every parity slot still
/// zero; the parity of check `i` over this sequence is the value the
/// parity bit at position `2^i` must take.
pub open spec fn filled_codeword(data: Seq<bool>) -> Seq<bool> {
    Seq::new(
        codeword_len(data.len()),
        |idx: int|
            if is_parity_pos((idx + 1) as nat) {
                false
            } else {
                data[data_slots_upto(idx as nat) as int]
            },
    )
}

/// The Hamming codeword for `data`: data bits in order at the non-power-of-
/// two positions, and at each position `2^i` the parity that makes check
/// `i` even.
pub open spec fn hamming_codeword(data: Seq<bool>) -> Seq<bool> {
    Seq::new(
        codeword_len(data.len()),
        |idx: int|
            if is_parity_pos((idx + 1) as nat) {
                check_parity(
                    filled_codeword(data),
                    floor_log2((idx + 1) as nat),
                    codeword_len(data.len()),
                )
            } else {
                data[data_slots_upto(idx as nat) as int]
            },
    )
}

/// The failed checks `0..t` of `cw`, added up as binary digits.
pub open spec fn syndrome_upto(cw: Seq<bool>, t: nat) -> nat
    decreases t,
{
    if t == 0 {
        0
    } else {
        syndrome_upto(cw, (t - 1) as nat) + if check_parity(cw, (t - 1) as nat, cw.len()) {
            pow2((t - 1) as nat)
        } else {
            0nat
        }
    }
}

/// The syndrome of a codeword: zero when every parity check passes, else
/// the 1-indexed position of a single flipped bit.
pub open spec fn syndrome(cw: Seq<bool>) -> nat {
    syndrome_upto(cw, check_count(cw.len()))
}

/// The codeword after self-correction: when the syndrome names a position
/// inside the codeword, that bit is flipped back.
pub open spec fn corrected_codeword(cw: Seq<bool>) -> Seq<bool> {
    if 1 <= syndrome(cw) <= cw.len() {
        cw.update(syndrome(cw) - 1, !cw[syndrome(cw) - 1])
    } else {
        cw
    }
}

/// The bits of `cw` at the non-power-of-two positions `1..=m`, in order.
pub open spec fn extracted_upto(cw: Seq<bool>, m: nat) -> Seq<bool>
    decreases m,
{
    if m == 0 {
        Seq::empty()
    } else if is_parity_pos(m) {
        extracted_upto(cw, (m - 1) as nat)
    } else {
        extracted_upto(cw, (m - 1) as nat).push(cw[m - 1])
    }
}

/// What decode returns for codeword `cw`: the data slots of the corrected
/// codeword.
pub open spec fn decoded_data(cw: Seq<bool>) -> Seq<bool> {
    extracted_upto(corrected_codeword(cw), cw.len())
}

/// Every parity check of an uncorrupted codeword passes.
proof fn lemma_codeword_check_zero(data: Seq<bool>, i: nat)
    requires
        i < parity_count(data.len()),
    ensures
        check_parity(hamming_codeword(data), i, codeword_len(data.len())) == false,
{
    let k = data.len();
    let r = parity_count(k);
    let n = codeword_len(k);
    let fc = filled_codeword(data);
    let cw = hamming_codeword(data);
    let q = pow2(i);
    lemma_parity_count_minimal(k);
    lemma_pow2_pos(i);
    assert(q <= n) by {
        if i < (r - 1) as nat {
            lemma_pow2_strictly_increases(i, (r - 1) as nat);
        }
        assert(pow2((r - 1) as nat) < k + (r - 1) + 1);
    }
    lemma_pow2_is_parity_pos(i);
    assert(cw[q - 1] == check_parity(fc, i, n));
    assert(fc[q - 1] == false);
    assert forall|p: nat|
        1 <= p <= n && #[trigger] in_check_set(p, i) && p != q implies cw[p - 1] == fc[p - 1] by {
        if is_parity_pos(p) {
            lemma_parity_pos_pow2(p);
            let e = floor_log2(p);
            lemma_pow2_pos(e);
            if e == i {
                assert(p == q);
            } else if e > i {
                lemma_pow2_adds(i, (e - i) as nat);
                assert(p as int == pow2(i) as int * pow2((e - i) as nat) as int);
                vstd::arithmetic::div_mod::lemma_div_multiples_vanish(
                    pow2((e - i) as nat) as int,
                    pow2(i) as int,
                );
                assert(p as int / pow2(i) as int == pow2((e - i) as nat));
                lemma_pow2_unfold((e - i) as nat);
                assert(pow2((e - i) as nat) % 2 == 0);
                assert(!in_check_set(p, i));
            } else {
                lemma_pow2_strictly_increases(e, i);
                lemma_basic_div(p as int, pow2(i) as int);
                assert(!in_check_set(p, i));
            }
        }
    }
    lemma_check_parity_one_diff(cw, fc, i, n, q);
    assert(in_check_set(q, i)) by {
        vstd::arithmetic::div_mod::lemma_div_multiples_vanish(1, pow2(i) as int);
        assert(q as int / pow2(i) as int == 1);
    }
}

/// A codeword whose checks all pass has syndrome zero.
proof fn lemma_syndrome_upto_zero(cw: Seq<bool>, t: nat)
    requires
        forall|i: nat| i < t ==> check_parity(cw, i, cw.len()) == false,
    ensures
        syndrome_upto(cw, t) == 0,
    decreases t,
{
    if t > 0 {
        lemma_syndrome_upto_zero(cw, (t - 1) as nat);
    }
}

/// When check `i` reports bit `i` of `pos` for every `i`, the syndrome
/// reassembles the low bits of `pos`.
proof fn lemma_syndrome_matches(cw: Seq<bool>, pos: nat, t: nat)
    requires
        forall|i: nat| i < t ==> check_parity(cw, i, cw.len()) == in_check_set(pos, i),
    ensures
        syndrome_upto(cw, t) == low_bits(pos, t),
    decreases t,
{
    if t > 0 {
        lemma_syndrome_matches(cw, pos, (t - 1) as nat);
    }
}

/// The syndrome over `t` checks stays below `2^t`.
pub proof fn lemma_syndrome_upto_bound(cw: Seq<bool>, t: nat)
    ensures
        syndrome_upto(cw, t) < pow2(t),
    decreases t,
{
    if t == 0 {
        lemma2_to64();
    } else {
        lemma_syndrome_upto_bound(cw, (t - 1) as nat);
        lemma_pow2_unfold(t);
    }
}

/// Walking the non-parity positions of a codeword that carries `data`
/// reads `data` back in order.
proof fn lemma_extracted_matches(cw: Seq<bool>, data: Seq<bool>, m: nat)
    requires
        m <= cw.len(),
        data_slots_upto(m) <= data.len(),
        forall|j: nat|
            1 <= j <= m && !is_parity_pos(j) ==> #[trigger] cw[j - 1] == data[data_slots_upto(
                (j - 1) as nat,
            ) as int],
    ensures
        extracted_upto(cw, m) == data.take(data_slots_upto(m) as int),
    decreases m,
{
    if m == 0 {
        assert(extracted_upto(cw, 0) =~= data.take(0));
    } else {
        lemma_extracted_matches(cw, data, (m - 1) as nat);
        if !is_parity_pos(m) {
            assert(data.take(data_slots_upto(m) as int) =~= data.take(
                data_slots_upto((m - 1) as nat) as int,
            ).push(data[data_slots_upto((m - 1) as nat) as int]));
        }
    }
}

/// The non-parity positions of the codeword for `data` hold exactly
/// `data`.
proof fn lemma_codeword_extracts(data: Seq<bool>)
    ensures
        extracted_upto(hamming_codeword(data), codeword_len(data.len())) == data,
{
    let k = data.len();
    let n = codeword_len(k);
    let cw = hamming_codeword(data);
    lemma_codeword_slots(k);
    assert forall|j: nat|
        1 <= j <= n && !is_parity_pos(j) implies #[trigger] cw[j - 1] == data[data_slots_upto(
        (j - 1) as nat,
    ) as int] by {
        lemma_data_slots_monotone((j - 1) as nat, n);
        assert(data_slots_upto(j) == data_slots_upto((j - 1) as nat) + 1);
        lemma_data_slots_monotone(j, n);
    }
    lemma_extracted_matches(cw, data, n);
    assert(data.take(k as int) =~= data);
}

/// Encoding then decoding with no corruption: every check passes and the
/// data comes back unchanged.
pub proof fn lemma_hamming_round_trip(data: Seq<bool>)
    ensures
        hamming_codeword(data).len() == codeword_len(data.len()),
        syndrome(hamming_codeword(data)) == 0,
        decoded_data(hamming_codeword(data)) == data,
{
    let k = data.len();
    let n = codeword_len(k);
    let cw = hamming_codeword(data);
    lemma_check_count_of_codeword(k);
    assert forall|i: nat| i < check_count(n) implies check_parity(cw, i, cw.len()) == false by {
        lemma_codeword_check_zero(data, i);
    }
    lemma_syndrome_upto_zero(cw, check_count(n));
    assert(corrected_codeword(cw) == cw);
    lemma_codeword_extracts(data);
}

/// Flipping exactly one bit of a codeword: the syndrome names its
/// 1-indexed position, correction undoes the flip, and the original data
/// comes back.
pub proof fn lemma_hamming_corrects_single_flip(data: Seq<bool>, p: nat)
    requires
        1 <= p <= codeword_len(data.len()),
    ensures
        ({
            let cw = hamming_codeword(data);
            let bad = cw.update(p - 1, !cw[p - 1]);
            &&& syndrome(bad) == p
            &&& decoded_data(bad) == data
        }),
{
    let k = data.len();
    let r = parity_count(k);
    let n = codeword_len(k);
    let cw = hamming_codeword(data);
    let bad = cw.update(p - 1, !cw[p - 1]);
    lemma_check_count_of_codeword(k);
    lemma_parity_count_minimal(k);
    assert forall|i: nat| i < r implies check_parity(bad, i, bad.len()) == in_check_set(p, i) by {
        lemma_codeword_check_zero(data, i);
        assert forall|pp: nat|
            1 <= pp <= n && #[trigger] in_check_set(pp, i) && pp != p implies bad[pp - 1] == cw[pp
            - 1] by {}
        lemma_check_parity_one_diff(bad, cw, i, n, p);
    }
    lemma_syndrome_matches(bad, p, r);
    lemma_low_bits(p, r);
    assert(p < pow2(r)) by {
        lemma_check_count_minimal(n);
    }
    lemma_small_mod(p, pow2(r));
    assert(syndrome(bad) == p);
    assert(corrected_codeword(bad) =~= cw);
    assert(bad.len() == n);
    lemma_codeword_extracts(data);
    assert(decoded_data(bad) == data);
}

/// A position `2^e` takes part in check `i` exactly when `e == i`.
proof fn lemma_pow2_in_check_set(e: nat, i: nat)
    ensures
        in_check_set(pow2(e), i) == (e == i),
{
    lemma_pow2_pos(e);
    lemma_pow2_pos(i);
    if e == i {
        vstd::arithmetic::div_mod::lemma_div_multiples_vanish(1, pow2(i) as int);
        assert(pow2(e) as int / pow2(i) as int == 1);
    } else if e > i {
        lemma_pow2_adds(i, (e - i) as nat);
        vstd::arithmetic::div_mod::lemma_div_multiples_vanish(
            pow2((e - i) as nat) as int,
            pow2(i) as int,
        );
        assert(pow2(e) as int / pow2(i) as int == pow2((e - i) as nat));
        lemma_pow2_unfold((e - i) as nat);
        assert(pow2((e - i) as nat) % 2 == 0);
    } else {
        lemma_pow2_strictly_increases(e, i);
        lemma_basic_div(pow2(e) as int, pow2(i) as int);
    }
}

/// On this machine's word size, the parity count of an accepted data
/// length fits comfortably below the word width.
pub proof fn lemma_parity_count_fits(k: nat)
    requires
        k <= max_data_bits(),
    ensures
        parity_count(k) < 64,
        parity_count(k) < usize::BITS,
{
    lemma_parity_count_minimal(k);
    lemma2_to64();
    lemma2_to64_rest();
    let r = parity_count(k);
    if usize::MAX == 0xffff_ffff {
        assert(pow2(31) == 0x8000_0000);
        assert(pow2(31) >= k + 31 + 1);
        if r > 31 {
            assert(pow2(31) < k + 31 + 1);
        }
    } else {
        assert(usize::MAX == 0xffff_ffff_ffff_ffff);
        assert(pow2(63) == 0x8000_0000_0000_0000);
        assert(pow2(63) >= k + 63 + 1);
        if r > 63 {
            assert(pow2(63) < k + 63 + 1);
        }
    }
}

/// The check count of an accepted codeword length also stays below the
/// word width.
proof fn lemma_check_count_fits(n: nat)
    requires
        n <= max_data_bits(),
    ensures
        check_count(n) < 64,
        check_count(n) < usize::BITS,
{
    lemma_check_count_minimal(n);
    lemma2_to64();
    lemma2_to64_rest();
    let r = check_count(n);
    if usize::MAX == 0xffff_ffff {
        assert(pow2(31) == 0x8000_0000);
        if r > 31 {
            assert(pow2(31) <= n);
        }
    } else {
        assert(usize::MAX == 0xffff_ffff_ffff_ffff);
        assert(pow2(63) == 0x8000_0000_0000_0000);
        if r > 63 {
            assert(pow2(63) <= n);
        }
    }
}

/// Masking keeps its value when both operands are widened to 64 bits.
proof fn lemma_mask_widens(a: usize, b: usize)
    ensures
        ((a & b) != 0) == (((a as u64) & (b as u64)) != 0),
{
    assert(((a & b) != 0) == (((a as u64) & (b as u64)) != 0)) by (bit_vector);
}

/// Whether `x` is an exact power of two, and so names a parity position.
fn is_power_of_two(x: usize) -> (r: bool)
    ensures
        r == is_parity_pos(x as nat),
{
    proof {
        reveal(is_pow2);
    }
    if x == 0 {
        return false;
    }
    let mut y: usize = x;
    while y % 2 == 0
        invariant
            y >= 1,
            is_pow2(y as int) == is_pow2(x as int),
        decreases y,
    {
        proof {
            reveal(is_pow2);
            assert(y > 1);
        }
        y = y / 2;
    }
    proof {
        reveal(is_pow2);
    }
    y == 1
}

/// Shared helpers of Hamming codecs: the parity-count formula and the
/// plain parity walk.
pub struct HammingCodeBase;

impl HammingCodeBase {
    /// The number of parity bits that `data_len_bits` data bits need: the
    /// minimal `r` with `2^r >= data_len_bits + r + 1`, found by linear
    /// search from zero.
    pub fn calculate_parity_count(data_len_bits: usize) -> (r: usize)
        requires
            data_len_bits as nat <= max_data_bits(),
        ensures
            r as nat == parity_count(data_len_bits as nat),
            pow2(r as nat) >= data_len_bits + r + 1,
            forall|t: nat| t < r ==> pow2(t) < data_len_bits + t + 1,
            r < 64,
    {
        let ghost k = data_len_bits as nat;
        proof {
            lemma_parity_count_minimal(k);
            lemma_parity_count_fits(k);
            lemma2_to64();
        }
        let mut count: usize = 0;
        let mut p: usize = 1;
        while p < data_len_bits + count + 1
            invariant
                k == data_len_bits as nat,
                k <= max_data_bits(),
                p == pow2(count as nat),
                count as nat <= parity_count(k),
                parity_count(k) < usize::BITS,
                forall|t: nat| t < count ==> pow2(t) < k + t + 1,
            decreases parity_count(k) - count,
        {
            proof {
                lemma_parity_count_minimal(k);
                if count as nat == parity_count(k) {
                    assert(pow2(count as nat) >= k + count + 1);
                }
                lemma_pow2_unfold((count + 1) as nat);
            }
            count = count + 1;
            p = p * 2;
        }
        proof {
            lemma_parity_count_minimal(k);
            if (count as nat) < parity_count(k) {
                assert(pow2(count as nat) < k + count + 1);
            }
        }
        count
    }

    /// The even-parity sum of the codeword bits whose 1-indexed position
    /// shares a bit with `parity_mask`.
    pub fn basic_compute_parity(codeword: &BitVec, parity_mask: usize) -> (res: Result<
        bool,
        HammingError,
    >)
        requires
            codeword.wf(),
        ensures
            res == Ok::<bool, HammingError>(
                masked_parity(codeword@, parity_mask as u64, codeword@.len()),
            ),
    {
        let mut parity_sum: usize = 0;
        let n = codeword.len();
        let mut i: usize = 0;
        while i < n
            invariant
                codeword.wf(),
                n == codeword@.len(),
                i <= n,
                parity_sum <= i,
                (parity_sum % 2 == 1) == masked_parity(codeword@, parity_mask as u64, i as nat),
            decreases n - i,
        {
            proof {
                lemma_mask_widens((i + 1) as usize, parity_mask);
                assert(((i + 1) as u64) as nat == i + 1);
            }
            if ((i + 1) & parity_mask) != 0 {
                let b = match codeword.get(i) {
                    Some(b) => b,
                    None => {
                        return Err(HammingError::UnexpectedOutOfBounds);
                    },
                };
                if b {
                    parity_sum = parity_sum + 1;
                }
            }
            i = i + 1;
        }
        Ok(parity_sum % 2 == 1)
    }
}

/// The operations of a Hamming code: parity over a position mask, encode,
/// and decode with single-error correction.
pub trait HammingCode {
    /// The even-parity sum over the positions that `parity_mask` selects.
    fn calculate_parity(&self, codeword: &BitVec, parity_mask: usize) -> (res: Result<
        bool,
        HammingError,
    >)
        requires
            codeword.wf(),
        ensures
            res == Ok::<bool, HammingError>(
                masked_parity(codeword@, parity_mask as u64, codeword@.len()),
            ),
    ;

    /// Builds the codeword that carries `data`: the data bits in order at
    /// the non-power-of-two positions and the matching parity bits at the
    /// power-of-two positions.
    fn encode(&self, data: &BitVec) -> (res: Result<BitVec, HammingError>)
        requires
            data.wf(),
            data@.len() <= max_data_bits(),
        ensures
            res matches Ok(cw) && cw@ == hamming_codeword(data@) && cw.wf() && cw.padded()
                && cw.bytes() == crate::bitvec::packed_bytes(hamming_codeword(data@)),
    ;

    /// Recovers the data bits from a codeword, correcting at most one
    /// flipped bit, and reports the syndrome: zero when every check
    /// passed, else the 1-indexed position that was corrected.
    fn decode(&self, codeword: &BitVec) -> (res: Result<(BitVec, usize), HammingError>)
        requires
            codeword.wf(),
            codeword@.len() <= max_data_bits(),
        ensures
            res matches Ok(out) && out.1 as nat == syndrome(codeword@) && out.0@ == decoded_data(
                codeword@,
            ) && out.0.wf() && out.0.padded(),
    ;
}

/// The one concrete Hamming codec.
pub struct Hamming;

impl HammingCode for Hamming {
    fn calculate_parity(&self, codeword: &BitVec, parity_mask: usize) -> (res: Result<
        bool,
        HammingError,
    >) {
        HammingCodeBase::basic_compute_parity(codeword, parity_mask)
    }

    fn encode(&self, data: &BitVec) -> (res: Result<BitVec, HammingError>) {
        let ghost k = data@.len();
        let ghost n = codeword_len(k);
        let data_len_bits = data.len();
        let parity_bits = HammingCodeBase::calculate_parity_count(data_len_bits);
        proof {
            lemma_codeword_slots(k);
            lemma_parity_count_minimal(k);
        }
        let total_len = data_len_bits + parity_bits;
        let mut codeword = BitVec::zeros(total_len);
        let mut data_index: usize = 0;
        let mut i: usize = 0;
        while i < total_len
            invariant
                data.wf(),
                codeword.wf(),
                codeword.padded(),
                k == data@.len(),
                k <= max_data_bits(),
                n == codeword_len(k),
                total_len == n,
                parity_bits as nat == parity_count(k),
                codeword@.len() == n,
                codeword.bytes().len() == (n + 7) / 8,
                i <= n,
                data_index as nat == data_slots_upto(i as nat),
                forall|idx: int| 0 <= idx < i ==> codeword@[idx] == filled_codeword(data@)[idx],
                forall|idx: int| i <= idx < n ==> codeword@[idx] == false,
            decreases total_len - i,
        {
            let ghost prev = codeword;
            if is_power_of_two(i + 1) {
                proof {
                    assert(data_slots_upto((i + 1) as nat) == data_slots_upto(i as nat));
                    assert(filled_codeword(data@)[i as int] == false);
                }
            } else {
                proof {
                    lemma_codeword_slots(k);
                    lemma_data_slots_monotone((i + 1) as nat, n);
                    assert(data_slots_upto((i + 1) as nat) == data_slots_upto(i as nat) + 1);
                }
                let bit = match data.get(data_index) {
                    Some(b) => b,
                    None => {
                        return Err(HammingError::UnexpectedOutOfBounds);
                    },
                };
                let set_result = codeword.set(i, bit);
                match set_result {
                    Ok(u) => u,
                    Err(_) => {
                        return Err(HammingError::UnexpectedOutOfBounds);
                    },
                }
                data_index = data_index + 1;
                proof {
                    assert(filled_codeword(data@)[i as int] == data@[data_slots_upto(
                        i as nat,
                    ) as int]);
                }
            }
            i = i + 1;
        }
        proof {
            assert(codeword@ =~= filled_codeword(data@));
        }
        let ghost fc = filled_codeword(data@);
        let ghost hc = hamming_codeword(data@);
        proof {
            lemma2_to64();
        }
        let mut pi: usize = 0;
        let mut mask: usize = 1;
        while pi < parity_bits
            invariant
                codeword.wf(),
                codeword.padded(),
                k == data@.len(),
                k <= max_data_bits(),
                n == codeword_len(k),
                total_len == n,
                parity_bits as nat == parity_count(k),
                parity_bits < 64,
                codeword@.len() == n,
                codeword.bytes().len() == (n + 7) / 8,
                pi <= parity_bits,
                mask == pow2(pi as nat),
                fc == filled_codeword(data@),
                hc == hamming_codeword(data@),
                fc.len() == n && hc.len() == n,
                forall|idx: int|
                    0 <= idx < n ==> codeword@[idx] == (if is_parity_pos((idx + 1) as nat) && idx
                        + 1 < pow2(pi as nat) {
                        hc[idx]
                    } else {
                        fc[idx]
                    }),
            decreases parity_bits - pi,
        {
            proof {
                lemma_parity_count_minimal(k);
                lemma_pow2_pos(pi as nat);
                assert(pow2(pi as nat) <= n) by {
                    if (pi as nat) < (parity_bits - 1) as nat {
                        lemma_pow2_strictly_increases(pi as nat, (parity_bits - 1) as nat);
                    }
                    assert(pow2((parity_bits - 1) as nat) < k + (parity_bits - 1) + 1);
                }
            }
            let parity_pos = mask - 1;
            let parity = match self.calculate_parity(&codeword, mask) {
                Ok(b) => b,
                Err(e) => {
                    return Err(e);
                },
            };
            proof {
                lemma_masked_is_check(codeword@, pi as nat, n);
                assert forall|p: nat|
                    1 <= p <= n && #[trigger] in_check_set(p, pi as nat) && p != 0 implies
                    codeword@[p - 1] == fc[p - 1] by {
                    if is_parity_pos(p) && p < pow2(pi as nat) {
                        lemma_parity_pos_pow2(p);
                        let e = floor_log2(p);
                        if e >= pi as nat {
                            if e > pi as nat {
                                lemma_pow2_strictly_increases(pi as nat, e);
                            }
                            assert(p >= pow2(pi as nat));
                        }
                        lemma_pow2_in_check_set(e, pi as nat);
                    }
                }
                lemma_check_parity_one_diff(codeword@, fc, pi as nat, n, 0nat);
                assert(parity == check_parity(fc, pi as nat, n));
                lemma_pow2_is_parity_pos(pi as nat);
                assert(hc[mask - 1] == check_parity(fc, pi as nat, n));
            }
            let set_result = codeword.set(parity_pos, parity);
            match set_result {
                Ok(u) => u,
                Err(_) => {
                    return Err(HammingError::UnexpectedOutOfBounds);
                },
            }
            proof {
                lemma_pow2_unfold((pi + 1) as nat);
                assert forall|idx: int| 0 <= idx < n implies codeword@[idx] == (if is_parity_pos(
                    (idx + 1) as nat,
                ) && idx + 1 < pow2((pi + 1) as nat) {
                    hc[idx]
                } else {
                    fc[idx]
                }) by {
                    if idx == mask - 1 {
                    } else if is_parity_pos((idx + 1) as nat) && idx + 1 < pow2((pi + 1) as nat)
                        && idx + 1 >= pow2(pi as nat) {
                        lemma_parity_pos_pow2((idx + 1) as nat);
                        let e = floor_log2((idx + 1) as nat);
                        if e < pi as nat {
                            lemma_pow2_strictly_increases(e, pi as nat);
                        }
                        if e > pi as nat {
                            lemma_pow2_strictly_increases(pi as nat + 1, e + 1);
                            if (pi as nat) + 1 < e {
                                lemma_pow2_strictly_increases((pi + 1) as nat, e);
                            }
                            assert(idx + 1 >= pow2((pi + 1) as nat));
                        }
                        assert(e == pi as nat);
                        assert(idx == mask - 1);
                    }
                }
            }
            pi = pi + 1;
            mask = mask * 2;
        }
        proof {
            lemma_parity_count_minimal(k);
            assert(n < pow2(parity_bits as nat));
            assert forall|idx: int| 0 <= idx < n implies codeword@[idx] == hc[idx] by {
                if is_parity_pos((idx + 1) as nat) {
                    assert(idx + 1 <= n);
                } else {
                    assert(fc[idx] == hc[idx]);
                }
            }
            assert(codeword@ =~= hc);
            crate::bitvec::lemma_padded_packed(&codeword);
        }
        Ok(codeword)
    }

    fn decode(&self, codeword: &BitVec) -> (res: Result<(BitVec, usize), HammingError>) {
        let ghost cwv = codeword@;
        let n = codeword.len();
        proof {
            lemma_check_count_minimal(n as nat);
            lemma_check_count_fits(n as nat);
            lemma2_to64();
        }
        let mut r: usize = 0;
        let mut p: usize = 1;
        while p < n + 1
            invariant
                n as nat <= max_data_bits(),
                p == pow2(r as nat),
                r as nat <= check_count(n as nat),
                check_count(n as nat) < usize::BITS,
                forall|t: nat| t < r ==> pow2(t) <= n,
            decreases check_count(n as nat) - r,
        {
            proof {
                lemma_check_count_minimal(n as nat);
                if r as nat == check_count(n as nat) {
                    assert(pow2(r as nat) > n);
                }
                lemma_pow2_unfold((r + 1) as nat);
            }
            r = r + 1;
            p = p * 2;
        }
        proof {
            lemma_check_count_is(n as nat, r as nat);
            lemma_parity_slots_count(n as nat);
            lemma_slots_sum(n as nat);
            assert(r <= n);
        }
        let mut error_pos: usize = 0;
        let mut i: usize = 0;
        let mut mask: usize = 1;
        while i < r
            invariant
                codeword.wf(),
                cwv == codeword@,
                n == cwv.len(),
                n as nat <= max_data_bits(),
                i <= r,
                r as nat == check_count(n as nat),
                r < 64,
                mask == pow2(i as nat),
                error_pos as nat == syndrome_upto(cwv, i as nat),
            decreases r - i,
        {
            let parity = match self.calculate_parity(codeword, mask) {
                Ok(b) => b,
                Err(e) => {
                    return Err(e);
                },
            };
            proof {
                lemma_masked_is_check(cwv, i as nat, n as nat);
                lemma_syndrome_upto_bound(cwv, (i + 1) as nat);
                lemma_pow2_unfold((i + 1) as nat);
                lemma_check_count_minimal(n as nat);
                assert(pow2(r as nat) <= 2 * n + 2) by {
                    if r > 0 {
                        assert(pow2((r - 1) as nat) <= n);
                        lemma_pow2_unfold(r as nat);
                    }
                }
                if i + 1 < r {
                    lemma_pow2_strictly_increases((i + 1) as nat, r as nat);
                }
            }
            if parity {
                error_pos = error_pos + mask;
            }
            i = i + 1;
            mask = mask * 2;
        }
        proof {
            assert(error_pos as nat == syndrome(cwv));
        }
        let mut corrected = codeword.clone();
        if error_pos > 0 && error_pos - 1 < corrected.len() {
            let current = match corrected.get(error_pos - 1) {
                Some(b) => b,
                None => {
                    return Err(HammingError::UnexpectedOutOfBounds);
                },
            };
            let set_result = corrected.set(error_pos - 1, !current);
            match set_result {
                Ok(u) => u,
                Err(_) => {
                    return Err(HammingError::UnexpectedOutOfBounds);
                },
            }
        }
        proof {
            assert(corrected@ == corrected_codeword(cwv));
        }
        let mut data = BitVec::with_capacity(n - r);
        let mut j: usize = 0;
        while j < n
            invariant
                corrected.wf(),
                corrected@ == corrected_codeword(cwv),
                cwv.len() == n,
                corrected@.len() == n,
                j <= n,
                data.wf(),
                data.padded(),
                data@ == extracted_upto(corrected@, j as nat),
                data@.len() <= j,
            decreases n - j,
        {
            if !is_power_of_two(j + 1) {
                let b = match corrected.get(j) {
                    Some(b) => b,
                    None => {
                        return Err(HammingError::UnexpectedOutOfBounds);
                    },
                };
                data.push(b);
            }
            j = j + 1;
        }
        Ok((data, error_pos))
    }
}

} // verus!
