//! How a range of positions is subdivided.
use std::ops::Range;
use vstd::arithmetic::div_mod::lemma_fundamental_div_mod;
use vstd::prelude::*;

verus! {

/// `a` over `b`, rounded up.
pub open spec fn ceil_div(a: int, b: int) -> int {
    if a % b == 0 {
        a / b
    } else {
        a / b + 1
    }
}

/// The length of the subranges of a range of `len` positions: the shortest with which `count` of
/// them suffice, but at least `min_operations`.
pub open spec fn subrange_len(len: int, count: int, min_operations: int) -> int {
    if min_operations < ceil_div(len, count) {
        ceil_div(len, count)
    } else {
        min_operations
    }
}

/// The adjoining ranges of `len` positions from `start` on, the last of which ends at `end`.
pub open spec fn chunks(start: int, end: int, len: int) -> Seq<Range<usize>> {
    Seq::new(
        ceil_div(end - start, len) as nat,
        |i: int|
            Range {
                start: (start + i * len) as usize,
                end: (if start + (i + 1) * len < end {
                    start + (i + 1) * len
                } else {
                    end
                }) as usize,
            },
    )
}

/// The subranges of the range from `start` to `end`.
pub open spec fn subdivided(start: int, end: int, count: int, min_operations: int) -> Seq<
    Range<usize>,
> {
    if start < end {
        chunks(start, end, subrange_len(end - start, count, min_operations))
    } else {
        Seq::empty()
    }
}

/// The least number of chunks of length `b` that covers `a`.
pub proof fn lemma_ceil_div(a: int, b: int)
    requires
        0 < a,
        0 < b,
    ensures
        1 <= ceil_div(a, b) <= a,
        (ceil_div(a, b) - 1) * b < a <= ceil_div(a, b) * b,
        2 <= b && 2 <= a ==> ceil_div(a, b) < a,
{
    lemma_fundamental_div_mod(a, b);
    let q = a / b;
    let r = a % b;
    assert(a == b * q + r);
    assert(0 <= r < b);
    assert(0 <= q) by (nonlinear_arith)
        requires
            a == b * q + r,
            0 <= r < b,
            0 < a,
            0 < b,
    ;
    assert(b * q == q * b) by (nonlinear_arith);
    assert((q - 1) * b == q * b - b) by (nonlinear_arith);
    assert((q + 1) * b == q * b + b) by (nonlinear_arith);
    assert(q <= q * b) by (nonlinear_arith)
        requires
            0 <= q,
            0 < b,
    ;
    if r == 0 {
        assert(1 <= q) by (nonlinear_arith)
            requires
                a == b * q,
                0 < a,
                0 < b,
        ;
    }
    if 2 <= b {
        assert(2 * q <= q * b) by (nonlinear_arith)
            requires
                0 <= q,
                2 <= b,
        ;
    }
}

proof fn lemma_chunk(n: int, len: int, i: int)
    requires
        0 < n,
        0 < len,
        0 <= i < ceil_div(n, len),
    ensures
        (i + 1) * len == i * len + len,
        0 <= i * len < n,
        i + 1 < ceil_div(n, len) ==> (i + 1) * len < n,
{
    lemma_ceil_div(n, len);
    let q = ceil_div(n, len);
    assert((i + 1) * len == i * len + len) by (nonlinear_arith);
    assert(0 <= i * len <= (q - 1) * len) by (nonlinear_arith)
        requires
            0 <= i <= q - 1,
            1 <= len,
    ;
    if i + 1 < q {
        assert((i + 1) * len <= (q - 1) * len) by (nonlinear_arith)
            requires
                i + 1 <= q - 1,
                1 <= len,
        ;
    }
}

/// The subranges adjoin and are not empty; together they are the range. There are at most `count`
/// of them, and all but the last have the same length.
pub proof fn law_subdivided(start: int, end: int, count: int, min_operations: int)
    requires
        0 <= start < end <= usize::MAX,
        0 < count,
        0 <= min_operations,
    ensures
        ({
            let ranges = subdivided(start, end, count, min_operations);
            let len = subrange_len(end - start, count, min_operations);
            &&& 1 <= ranges.len() <= count
            &&& ranges[0].start == start
            &&& ranges.last().end == end
            &&& forall|i: int|
                #![trigger ranges[i]]
                0 <= i < ranges.len() ==> {
                    &&& start <= ranges[i].start < ranges[i].end <= end
                    &&& ranges[i].end - ranges[i].start <= len
                    &&& i + 1 < ranges.len() ==> ranges[i].end - ranges[i].start == len
                }
            &&& forall|i: int, j: int|
                #![trigger ranges[i], ranges[j]]
                0 <= i && j == i + 1 && j < ranges.len() ==> ranges[i].end == ranges[j].start
            &&& len >= min_operations
        }),
{
    let ranges = subdivided(start, end, count, min_operations);
    let n = end - start;
    let len = subrange_len(n, count, min_operations);
    lemma_ceil_div(n, count);
    assert(1 <= len);
    lemma_ceil_div(n, len);
    let q = ceil_div(n, len);
    assert(ranges.len() == q);
    let most = ceil_div(n, count);
    assert(n <= len * count) by (nonlinear_arith)
        requires
            n <= most * count,
            most <= len,
            0 < count,
    ;
    if q > count {
        assert(count * len <= (q - 1) * len) by (nonlinear_arith)
            requires
                count <= q - 1,
                1 <= len,
        ;
        assert(len * count == count * len) by (nonlinear_arith);
    }
    assert(0 * len == 0) by (nonlinear_arith);
    assert forall|i: int| #![trigger ranges[i]] 0 <= i < ranges.len() implies {
        &&& start <= ranges[i].start < ranges[i].end <= end
        &&& ranges[i].end - ranges[i].start <= len
        &&& i + 1 < ranges.len() ==> ranges[i].end - ranges[i].start == len
    } by {
        lemma_chunk(n, len, i);
    }
    assert forall|i: int, j: int| #![trigger ranges[i], ranges[j]] 0 <= i && j == i + 1 && j
        < ranges.len() implies ranges[i].end == ranges[j].start by {
        lemma_chunk(n, len, i);
    }
    assert(((q - 1) + 1) * len == q * len);
}

/// A range is subdivided no further than asked for and into pieces no longer than needed. With
/// `n` positions and the first piece `len` long: every other piece but the last is `len` long too,
/// and the last is not longer. There is one piece only if `n` is at most `min_operations` or 1, or
/// one was asked for. Otherwise `len` is at least `min_operations`, `count` pieces of that length
/// cover the range, and no shorter length would do: `len` is `min_operations`, or `count` pieces
/// one shorter would not cover the range.
pub proof fn law_subdivided_fairly(start: int, end: int, count: int, min_operations: int)
    requires
        0 <= start < end <= usize::MAX,
        0 < count,
        0 <= min_operations,
    ensures
        ({
            let ranges = subdivided(start, end, count, min_operations);
            let n = end - start;
            let len = ranges[0].end - ranges[0].start;
            let k = ranges.len() as int;
            &&& 1 <= k <= count
            &&& 1 <= len <= n
            &&& (k - 1) * len < n <= k * len
            &&& forall|i: int|
                #![trigger ranges[i]]
                0 <= i < k ==> {
                    &&& ranges[i].start == start + i * len
                    &&& ranges[i].end == if i + 1 < k {
                        start + (i + 1) * len
                    } else {
                        end
                    }
                }
            &&& k == 1 <==> n <= min_operations || n == 1 || count == 1
            &&& k > 1 ==> {
                &&& min_operations <= len
                &&& n <= len * count
                &&& len == min_operations || (len - 1) * count < n
            }
        }),
{
    let ranges = subdivided(start, end, count, min_operations);
    let n = end - start;
    let most = ceil_div(n, count);
    let len = subrange_len(n, count, min_operations);
    lemma_ceil_div(n, count);
    lemma_ceil_div(n, len);
    law_subdivided(start, end, count, min_operations);
    let k = ceil_div(n, len);
    assert(ranges.len() == k);
    assert(n <= len * count) by (nonlinear_arith)
        requires
            n <= most * count,
            most <= len,
            0 < count,
    ;
    let first = ranges[0].end - ranges[0].start;
    assert(0 * len == 0 && 1 * len == len) by (nonlinear_arith);
    assert forall|i: int| #![trigger ranges[i]] 0 <= i < k implies {
        &&& ranges[i].start == start + i * len
        &&& ranges[i].end == if i + 1 < k {
            start + (i + 1) * len
        } else {
            end
        }
    } by {
        lemma_chunk(n, len, i);
        if i + 1 == k {
            assert(ranges[i] == ranges.last());
        }
    }
    if k == 1 {
        assert(first == n);
        assert((k - 1) * first < n <= k * first) by (nonlinear_arith)
            requires
                k == 1,
                first == n,
                0 < n,
        ;
        assert(0 * first == 0) by (nonlinear_arith);
        if n > min_operations && count >= 2 && n >= 2 {
            assert(most < n);
        }
    } else {
        assert(first == len);
        assert(len <= (k - 1) * len) by (nonlinear_arith)
            requires
                2 <= k,
                1 <= len,
        ;
        assert(len < n);
        if count == 1 {
            assert(n <= len) by (nonlinear_arith)
                requires
                    n <= len * count,
                    count == 1,
            ;
        }
    }
}

} // verus!
