//! How a file of known size is cut into byte ranges that are fetched in parallel.
//!
//! Two splitting rules are used: the blocking downloader gives every segment
//! `size / chunks` bytes and hands the remainder to the last one; the async
//! downloader starts segment `i` at `i * len / chunks`, which spreads the
//! remainder over the segments.
use vstd::prelude::*;
use vstd::arithmetic::div_mod::*;
use vstd::arithmetic::mul::*;
use crate::number::{decimal, push_decimal};
use crate::text::{chars_of, string_of};

verus! {

/// First byte of segment `i` under the equal-parts rule.
pub open spec fn even_start(size: int, chunks: int, i: int) -> int {
    (size / chunks) * i
}

/// Last byte (inclusive) of segment `i` under the equal-parts rule.
pub open spec fn even_end(size: int, chunks: int, i: int) -> int {
    if i == chunks - 1 {
        size - 1
    } else {
        (size / chunks) * (i + 1) - 1
    }
}

/// Inclusive byte range of segment `i` when `size` bytes are cut into `chunks`
/// parts of `size / chunks` bytes, the last part also taking the remainder.
///
/// `chunks <= size` is the condition under which no subtraction underflows.
pub fn even_bounds(size: u64, chunks: u64, i: u64) -> (r: (u64, u64))
    requires
        1 <= chunks <= size,
        i < chunks,
    ensures
        r.0 == even_start(size as int, chunks as int, i as int),
        r.1 == even_end(size as int, chunks as int, i as int),
{
    let per = size / chunks;
    proof {
        lemma_div_is_ordered(chunks as int, size as int, chunks as int);
        lemma_div_by_self(chunks as int);
        lemma_fundamental_div_mod(size as int, chunks as int);
        lemma_mod_pos_bound(size as int, chunks as int);
        lemma_mul_inequality((i + 1) as int, chunks as int, per as int);
        lemma_mul_inequality(i as int, (i + 1) as int, per as int);
        lemma_mul_inequality(1, (i + 1) as int, per as int);
        lemma_mul_is_commutative(per as int, chunks as int);
        lemma_mul_is_commutative(per as int, i as int);
        lemma_mul_is_commutative(per as int, (i + 1) as int);
    }
    let start = per * i;
    let mut end = per * (i + 1) - 1;
    if i == chunks - 1 {
        end = size - 1;
    }
    (start, end)
}

/// Proof that the equal-parts rule cuts `[0, size)` into `chunks` adjacent,
/// non-empty ranges: every segment but the last holds `size / chunks` bytes and
/// the last one holds those plus the remainder.
pub proof fn lemma_even_partition(size: int, chunks: int)
    requires
        1 <= chunks <= size,
    ensures
        even_start(size, chunks, 0) == 0,
        even_end(size, chunks, chunks - 1) == size - 1,
        forall|i: int|
            0 <= i < chunks - 1 ==> #[trigger] even_end(size, chunks, i) + 1 == even_start(
                size,
                chunks,
                i + 1,
            ),
        forall|i: int|
            0 <= i < chunks ==> #[trigger] even_start(size, chunks, i) <= even_end(size, chunks, i),
        forall|i: int|
            0 <= i < chunks - 1 ==> #[trigger] even_end(size, chunks, i) - even_start(size, chunks, i)
                + 1 == size / chunks,
        even_end(size, chunks, chunks - 1) - even_start(size, chunks, chunks - 1) + 1 == size
            / chunks + size % chunks,
{
    let per = size / chunks;
    lemma_div_is_ordered(chunks, size, chunks);
    lemma_div_by_self(chunks);
    lemma_fundamental_div_mod(size, chunks);
    lemma_mod_pos_bound(size, chunks);
    assert(per * 0 == 0);
    assert forall|i: int| 0 <= i < chunks - 1 implies #[trigger] even_end(size, chunks, i) + 1
        == even_start(size, chunks, i + 1) by {}
    assert forall|i: int| 0 <= i < chunks - 1 implies #[trigger] even_end(size, chunks, i)
        - even_start(size, chunks, i) + 1 == size / chunks by {
        lemma_mul_is_distributive_add(per, i, 1);
    }
    assert forall|i: int| 0 <= i < chunks implies #[trigger] even_start(size, chunks, i) <= even_end(
        size,
        chunks,
        i,
    ) by {
        lemma_mul_is_distributive_add(per, i, 1);
        lemma_mul_inequality(i, chunks - 1, per);
        lemma_mul_is_commutative(per, i);
        lemma_mul_is_commutative(per, chunks - 1);
        lemma_mul_is_distributive_add(per, chunks - 1, 1);
        lemma_mul_is_commutative(per, chunks);
    }
    lemma_mul_is_distributive_add(per, chunks - 1, 1);
    lemma_mul_is_commutative(per, chunks);
}

/// First byte of segment `i` under the spreading rule.
pub open spec fn spread_start(len: int, chunks: int, i: int) -> int {
    i * len / chunks
}

/// Last byte (inclusive) of segment `i` under the spreading rule.
pub open spec fn spread_end(len: int, chunks: int, i: int) -> int {
    if i < chunks - 1 {
        (i + 1) * len / chunks - 1
    } else {
        len - 1
    }
}

/// Whether the task of segment `i` gives up (overflows or underflows in `u64`)
/// while it works out its range under the spreading rule.
pub open spec fn spread_aborts(len: int, chunks: int, i: int) -> bool {
    ||| i * len > u64::MAX
    ||| i < chunks - 1 && ((i + 1) * len > u64::MAX || (i + 1) * len / chunks == 0)
    ||| i == chunks - 1 && len == 0
}

/// Inclusive byte range of segment `i` of `chunks` under the spreading rule, or
/// `None` for a segment whose task cannot compute it in `u64` arithmetic.
pub fn spread_bounds(len: u64, chunks: u64, i: u64) -> (r: Option<(u64, u64)>)
    requires
        i < chunks,
    ensures
        r is None <==> spread_aborts(len as int, chunks as int, i as int),
        r matches Some(b) ==> b.0 == spread_start(len as int, chunks as int, i as int) && b.1
            == spread_end(len as int, chunks as int, i as int),
{
    let start_num = match i.checked_mul(len) {
        Some(v) => v,
        None => return None,
    };
    let start = start_num / chunks;
    if i < chunks - 1 {
        let end_num = match (i + 1).checked_mul(len) {
            Some(v) => v,
            None => return None,
        };
        let q = end_num / chunks;
        if q == 0 {
            return None;
        }
        Some((start, q - 1))
    } else {
        if len == 0 {
            return None;
        }
        Some((start, len - 1))
    }
}

/// Proof that `floor((a + b) / c) - floor(a / c)` is `floor(b / c)` or one more.
pub proof fn lemma_floor_gap(a: int, b: int, c: int)
    requires
        a >= 0,
        b >= 0,
        c > 0,
    ensures
        b / c <= (a + b) / c - a / c <= b / c + 1,
{
    lemma_fundamental_div_mod(a, c);
    lemma_fundamental_div_mod(b, c);
    lemma_mod_pos_bound(a, c);
    lemma_mod_pos_bound(b, c);
    let qa = a / c;
    let qb = b / c;
    let ra = a % c;
    let rb = b % c;
    lemma_mul_is_distributive_add(c, qa, qb);
    lemma_mul_is_commutative(c, qa + qb);
    lemma_mul_is_commutative(c, qa + qb + 1);
    lemma_mul_is_distributive_add(qa + qb, c, 0);
    if ra + rb < c {
        lemma_fundamental_div_mod_converse(a + b, c, qa + qb, ra + rb);
    } else {
        assert((qa + qb + 1) * c == (qa + qb) * c + c) by {
            lemma_mul_is_distributive_add_other_way(c, qa + qb, 1);
        }
        lemma_fundamental_div_mod_converse(a + b, c, qa + qb + 1, ra + rb - c);
    }
}

/// Proof that when `chunks <= len` and `(chunks - 1) * len` fits in `u64`, no
/// task of the spreading rule gives up, and the segments cut `[0, len)` into
/// adjacent ranges of `len / chunks` or `len / chunks + 1` bytes each.
pub proof fn lemma_spread_partition(len: int, chunks: int)
    requires
        1 <= chunks <= len,
        (chunks - 1) * len <= u64::MAX,
    ensures
        forall|i: int| 0 <= i < chunks ==> !#[trigger] spread_aborts(len, chunks, i),
        spread_start(len, chunks, 0) == 0,
        spread_end(len, chunks, chunks - 1) == len - 1,
        forall|i: int|
            0 <= i < chunks - 1 ==> #[trigger] spread_end(len, chunks, i) + 1 == spread_start(
                len,
                chunks,
                i + 1,
            ),
        forall|i: int|
            0 <= i < chunks ==> len / chunks <= #[trigger] spread_end(len, chunks, i) - spread_start(
                len,
                chunks,
                i,
            ) + 1 <= len / chunks + 1,
{
    lemma_div_is_ordered(chunks, len, chunks);
    lemma_div_by_self(chunks);
    assert(0 * len == 0);
    lemma_div_of0(chunks);
    assert forall|i: int| 0 <= i < chunks implies !#[trigger] spread_aborts(len, chunks, i) by {
        lemma_mul_inequality(i, chunks - 1, len);
        if i < chunks - 1 {
            lemma_mul_inequality(i + 1, chunks - 1, len);
            lemma_mul_inequality(1, i + 1, len);
            lemma_div_is_ordered(len, (i + 1) * len, chunks);
        }
    }
    assert forall|i: int| 0 <= i < chunks implies len / chunks <= #[trigger] spread_end(
        len,
        chunks,
        i,
    ) - spread_start(len, chunks, i) + 1 <= len / chunks + 1 by {
        lemma_mul_inequality(0, i, len);
        lemma_mul_is_distributive_add_other_way(len, i, 1);
        lemma_floor_gap(i * len, len, chunks);
        if i == chunks - 1 {
            lemma_div_multiples_vanish(len, chunks);
            lemma_mul_is_commutative(chunks, len);
        }
    }
}

/// The value of the `Range` header that asks for bytes `start..=end`:
/// `bytes=<start>-<end>`.
pub open spec fn range_value(start: u64, end: u64) -> Seq<char> {
    "bytes="@ + decimal(start as nat) + seq!['-'] + decimal(end as nat)
}

pub fn range_header(start: u64, end: u64) -> (r: String)
    ensures
        r@ == range_value(start, end),
{
    let mut v = chars_of("bytes=");
    push_decimal(&mut v, start);
    v.push('-');
    push_decimal(&mut v, end);
    string_of(v.as_slice())
}

} // verus!
