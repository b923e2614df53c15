//! Huffman-tree shaping: the fixed DEFLATE tree, the RLE-favoring count
//! rewrite, the buggy-decoder distance-code patch, and the bit-size
//! accounting of an LZ77 block body under given code-length tables.

use vstd::prelude::*;
use crate::symbols::spec_length_symbol;
use crate::symbols::spec_length_symbol_extra_bits;
use crate::symbols::spec_dist_symbol;
use crate::symbols::spec_dist_symbol_extra_bits;
use crate::symbols::length_symbol;
use crate::symbols::dist_symbol;
use crate::symbols::length_symbol_extra_bits;
use crate::symbols::dist_symbol_extra_bits;
use crate::lz77::Lz77Store;
use crate::lz77::spec_ll_symbol;
use crate::lz77::token_valid;
use crate::lz77::ll_count;
use crate::lz77::d_count;
use crate::util::ZOPFLI_NUM_LL;

verus! {

/// Number of non-zero entries among the first `n` of `s`.
pub open spec fn count_nonzero(s: Seq<u32>, n: int) -> int
    decreases n,
{
    if n <= 0 {
        0
    } else {
        count_nonzero(s, n - 1) + if s[n - 1] != 0 { 1int } else { 0int }
    }
}

proof fn lemma_count_nonzero_monotone(s: Seq<u32>, a: int, b: int)
    requires
        0 <= a <= b,
    ensures
        count_nonzero(s, a) <= count_nonzero(s, b),
    decreases b,
{
    if a < b {
        lemma_count_nonzero_monotone(s, a, b - 1);
    }
}

proof fn lemma_count_nonzero_all_zero(s: Seq<u32>, n: int)
    requires
        count_nonzero(s, n) == 0,
    ensures
        forall|t: int| 0 <= t < n ==> s[t] == 0,
    decreases n,
{
    if n > 0 {
        lemma_count_nonzero_monotone(s, 0, n - 1);
        lemma_count_nonzero_all_zero(s, n - 1);
    }
}

proof fn lemma_count_nonzero_update(s: Seq<u32>, i: int, v: u32, n: int)
    requires
        0 <= i < s.len(),
        i < n <= s.len(),
        s[i] == 0,
        v != 0,
    ensures
        count_nonzero(s.update(i, v), n) == count_nonzero(s, n) + 1,
    decreases n,
{
    if n - 1 > i {
        lemma_count_nonzero_update(s, i, v, n - 1);
    } else {
        lemma_count_nonzero_monotone(s, 0, i);
        assert(count_nonzero(s.update(i, v), i) == count_nonzero(s, i)) by {
            lemma_count_nonzero_same_prefix(s, s.update(i, v), i);
        }
    }
}

proof fn lemma_count_nonzero_same_prefix(s1: Seq<u32>, s2: Seq<u32>, n: int)
    requires
        forall|t: int| 0 <= t < n ==> s1[t] == s2[t],
        n <= s1.len(),
        n <= s2.len(),
    ensures
        count_nonzero(s1, n) == count_nonzero(s2, n),
    decreases n,
{
    if n > 0 {
        lemma_count_nonzero_same_prefix(s1, s2, n - 1);
    }
}

/// The fixed Huffman tree of RFC 1951: literal/length codes of 8, 9, 7 and 8
/// bits by range, and 5 bits for every distance code.
pub fn get_fixed_tree(ll_lengths: &mut Vec<u32>, d_lengths: &mut Vec<u32>)
    requires
        old(ll_lengths).len() == 288,
        old(d_lengths).len() == 32,
    ensures
        final(ll_lengths).len() == 288,
        final(d_lengths).len() == 32,
        forall|i: int| 0 <= i < 144 ==> final(ll_lengths)[i] == 8,
        forall|i: int| 144 <= i < 256 ==> final(ll_lengths)[i] == 9,
        forall|i: int| 256 <= i < 280 ==> final(ll_lengths)[i] == 7,
        forall|i: int| 280 <= i < 288 ==> final(ll_lengths)[i] == 8,
        forall|i: int| 0 <= i < 32 ==> final(d_lengths)[i] == 5,
{
    let mut i: usize = 0;
    while i < 288
        invariant
            ll_lengths.len() == 288,
            i <= 288,
            forall|t: int| 0 <= t < i && t < 144 ==> ll_lengths[t] == 8,
            forall|t: int| 144 <= t < i && t < 256 ==> ll_lengths[t] == 9,
            forall|t: int| 256 <= t < i && t < 280 ==> ll_lengths[t] == 7,
            forall|t: int| 280 <= t < i ==> ll_lengths[t] == 8,
        decreases 288 - i,
    {
        let v: u32 = if i < 144 { 8 } else if i < 256 { 9 } else if i < 280 { 7 } else { 8 };
        ll_lengths.set(i, v);
        i += 1;
    }
    let mut j: usize = 0;
    while j < 32
        invariant
            d_lengths.len() == 32,
            j <= 32,
            forall|t: int| 0 <= t < j ==> d_lengths[t] == 5,
        decreases 32 - j,
    {
        d_lengths.set(j, 5);
        j += 1;
    }
}

/// Ensures at least two of the first 30 distance code lengths are non-zero,
/// for decoders that reject streams with fewer used distance codes. With no
/// used code, codes 0 and 1 get length 1; with exactly one, whichever of
/// codes 0 and 1 is still unused gets length 1; otherwise nothing changes.
pub fn patch_distance_codes_for_buggy_decoders(d_lengths: &mut Vec<u32>)
    requires
        old(d_lengths).len() >= 30,
    ensures
        final(d_lengths).len() == old(d_lengths).len(),
        count_nonzero(old(d_lengths)@, 30) >= 2 ==> final(d_lengths)@ == old(d_lengths)@,
        count_nonzero(old(d_lengths)@, 30) == 0 ==> final(d_lengths)@ == old(d_lengths)@.update(0, 1u32).update(1, 1u32),
        count_nonzero(old(d_lengths)@, 30) == 1 && old(d_lengths)[0] == 0 ==> final(d_lengths)@ == old(d_lengths)@.update(0, 1u32),
        count_nonzero(old(d_lengths)@, 30) == 1 && old(d_lengths)[0] != 0 ==> final(d_lengths)@ == old(d_lengths)@.update(1, 1u32),
        count_nonzero(final(d_lengths)@, 30) >= 2,
{
    let mut num_dist_codes: usize = 0;
    let mut i: usize = 0;
    while i < 30
        invariant_except_break
            i <= 30,
            d_lengths.len() >= 30,
            num_dist_codes == count_nonzero(d_lengths@, i as int),
            num_dist_codes < 2,
            d_lengths@ == old(d_lengths)@,
        ensures
            d_lengths.len() >= 30,
            d_lengths@ == old(d_lengths)@,
            num_dist_codes == 2 || (i == 30 && num_dist_codes == count_nonzero(
                d_lengths@,
                30,
            ) && num_dist_codes < 2),
            num_dist_codes == 2 ==> count_nonzero(d_lengths@, 30) >= 2,
        decreases 30 - i,
    {
        if d_lengths[i] != 0 {
            num_dist_codes += 1;
        }
        if num_dist_codes >= 2 {
            proof {
                lemma_count_nonzero_monotone(d_lengths@, i + 1, 30);
            }
            break ;
        }
        i += 1;
    }
    if num_dist_codes == 2 {
        return ;
    }
    if num_dist_codes == 0 {
        proof {
            lemma_count_nonzero_all_zero(d_lengths@, 30);
            lemma_count_nonzero_update(d_lengths@, 0, 1u32, 30);
            lemma_count_nonzero_update(d_lengths@.update(0, 1u32), 1, 1u32, 30);
        }
        d_lengths.set(0, 1);
        d_lengths.set(1, 1);
    } else {
        // exactly one used code among the first 30
        if d_lengths[0] == 0 {
            proof {
                lemma_count_nonzero_update(d_lengths@, 0, 1u32, 30);
            }
            d_lengths.set(0, 1);
        } else {
            proof {
                // with the single non-zero entry sitting at index 0, index 1 is zero
                assert(count_nonzero(d_lengths@, 0) == 0);
                assert(count_nonzero(d_lengths@, 1) == 1);
                lemma_count_nonzero_monotone(d_lengths@, 2, 30);
                assert(d_lengths@[1] == 0);
                lemma_count_nonzero_update(d_lengths@, 1, 1u32, 30);
            }
            d_lengths.set(1, 1);
        }
    }
}

/// Sum of the first `n` entries of `s`.
pub open spec fn sum_prefix(s: Seq<usize>, n: int) -> int
    decreases n,
{
    if n <= 0 {
        0
    } else {
        sum_prefix(s, n - 1) + s[n - 1]
    }
}

proof fn lemma_sum_prefix_monotone(s: Seq<usize>, a: int, b: int)
    requires
        0 <= a <= b,
    ensures
        sum_prefix(s, a) <= sum_prefix(s, b),
    decreases b,
{
    if a < b {
        lemma_sum_prefix_monotone(s, a, b - 1);
    }
}

/// Length of `s` with its trailing zeros removed.
pub open spec fn trimmed_len(s: Seq<usize>) -> int
    decreases s.len(),
{
    if s.len() == 0 {
        0
    } else if s[s.len() - 1] != 0 {
        s.len() as int
    } else {
        trimmed_len(s.drop_last())
    }
}

proof fn lemma_trimmed_len_at(s: Seq<usize>, n: int)
    requires
        0 <= n <= s.len(),
        n > 0 ==> s[n - 1] != 0,
        forall|t: int| n <= t < s.len() ==> s[t] == 0,
    ensures
        trimmed_len(s) == n,
    decreases s.len(),
{
    if s.len() > n {
        lemma_trimmed_len_at(s.drop_last(), n);
    }
}

/// `good` with positions `[lo, hi)` set.
pub open spec fn mark_range(good: Seq<bool>, lo: int, hi: int) -> Seq<bool> {
    Seq::new(good.len(), |x: int| if lo <= x < hi { true } else { good[x] })
}

/// The marking pass of the RLE rewrite: scanning the counts once, every
/// maximal run of at least five equal zeros or at least seven equal
/// non-zero counts is marked as already cheap for the run-length encoder.
/// `symbol` and `stride` track the run under the cursor `i`.
pub open spec fn rle_marks(
    s: Seq<usize>,
    len: int,
    i: int,
    symbol: usize,
    stride: int,
    good: Seq<bool>,
) -> Seq<bool>
    decreases len + 1 - i,
{
    if i > len {
        good
    } else if i == len || s[i] != symbol {
        let good2 = if (symbol == 0 && stride >= 5) || (symbol != 0 && stride >= 7) {
            mark_range(good, i - stride, i)
        } else {
            good
        };
        rle_marks(s, len, i + 1, if i < len { s[i] } else { symbol }, 1, good2)
    } else {
        rle_marks(s, len, i + 1, symbol, stride + 1, good)
    }
}

/// Replacement count for a collapsed stride: the rounded average, at least
/// 1, or 0 for an all-zero stride.
pub open spec fn rle_avg(sum: int, stride: int) -> int {
    if sum == 0 {
        0
    } else if (sum + stride / 2) / stride < 1 {
        1
    } else {
        (sum + stride / 2) / stride
    }
}

/// `out` with positions `[lo, hi)` replaced by `v`.
pub open spec fn fill_range(out: Seq<usize>, lo: int, hi: int, v: usize) -> Seq<usize> {
    Seq::new(out.len(), |x: int| if lo <= x < hi { v } else { out[x] })
}

/// The collapse pass of the RLE rewrite: a stride of counts grows until the
/// scan hits the end, a marked position, or a count at least 4 away from the
/// running limit; a finished stride of at least four counts (three, when
/// all zero) is replaced by its rounded average, and the limit restarts
/// from the next few original counts.
pub open spec fn rle_collapse(
    s: Seq<usize>,
    len: int,
    good: Seq<bool>,
    i: int,
    stride: int,
    sum: int,
    limit: int,
    out: Seq<usize>,
) -> Seq<usize>
    decreases len + 1 - i,
{
    if i > len {
        out
    } else {
        let far = i == len || good[i] || (if s[i] >= limit {
            s[i] - limit
        } else {
            limit - s[i]
        }) >= 4;
        if far {
            let out2 = if stride >= 4 || (stride >= 3 && sum == 0) {
                fill_range(out, i - stride, i, rle_avg(sum, stride) as usize)
            } else {
                out
            };
            let limit2 = if len > 3 && i < len - 3 {
                (s[i] + s[i + 1] + s[i + 2] + s[i + 3] + 2) / 4
            } else if i < len {
                s[i] as int
            } else {
                0
            };
            rle_collapse(
                s,
                len,
                good,
                i + 1,
                1,
                if i < len { s[i] as int } else { 0 },
                limit2,
                out2,
            )
        } else {
            rle_collapse(s, len, good, i + 1, stride + 1, sum + s[i], limit, out)
        }
    }
}

/// What the RLE-favoring rewrite leaves in a histogram: the trailing zeros
/// stay; before them, the counts are marked and collapsed as the two passes
/// above describe.
pub open spec fn rle_rewrite(s: Seq<usize>) -> Seq<usize> {
    let len = trimmed_len(s);
    if len == 0 {
        s
    } else {
        rle_collapse(
            s,
            len,
            rle_marks(s, len, 0, s[0], 0, Seq::new(len as nat, |x: int| false)),
            0,
            0,
            0,
            s[0] as int,
            s,
        )
    }
}


/// A count that a collapsed stride can leave behind: the rounded average
/// of some stride of at least four counts, or of at least three whose sum
/// is zero.
pub open spec fn collapsed_value(v: usize) -> bool {
    exists|su: int, st: int|
        (st >= 4 || (st >= 3 && su == 0)) && v == (#[trigger] rle_avg(su, st)) as usize
}

proof fn lemma_rle_collapse_pointwise(
    s: Seq<usize>,
    len: int,
    good: Seq<bool>,
    i: int,
    stride: int,
    sum: int,
    limit: int,
    out: Seq<usize>,
)
    ensures
        rle_collapse(s, len, good, i, stride, sum, limit, out).len() == out.len(),
        forall|x: int|
            0 <= x < out.len() ==> #[trigger] rle_collapse(s, len, good, i, stride, sum, limit, out)[x]
                == out[x] || collapsed_value(
                rle_collapse(s, len, good, i, stride, sum, limit, out)[x],
            ),
    decreases len + 1 - i,
{
    if i <= len {
        let far = i == len || good[i] || (if s[i] >= limit {
            s[i] - limit
        } else {
            limit - s[i]
        }) >= 4;
        if far {
            let out2 = if stride >= 4 || (stride >= 3 && sum == 0) {
                fill_range(out, i - stride, i, rle_avg(sum, stride) as usize)
            } else {
                out
            };
            let limit2 = if len > 3 && i < len - 3 {
                (s[i] + s[i + 1] + s[i + 2] + s[i + 3] + 2) / 4
            } else if i < len {
                s[i] as int
            } else {
                0
            };
            let sum2 = if i < len {
                s[i] as int
            } else {
                0
            };
            lemma_rle_collapse_pointwise(s, len, good, i + 1, 1, sum2, limit2, out2);
            let fin = rle_collapse(s, len, good, i, stride, sum, limit, out);
            assert forall|x: int| 0 <= x < out.len() implies #[trigger] fin[x] == out[x]
                || collapsed_value(fin[x]) by {
                if fin[x] != out2[x] {
                } else if out2[x] != out[x] {
                    assert(out2[x] == rle_avg(sum, stride) as usize);
                    assert(stride >= 4 || (stride >= 3 && sum == 0));
                    assert(collapsed_value(out2[x]));
                }
            }
        } else {
            lemma_rle_collapse_pointwise(s, len, good, i + 1, stride + 1, sum + s[i], limit, out);
        }
    }
}

/// Pointwise corollary of the exact rewrite: every count the RLE rewrite
/// changes is the rounded average of a collapsed stride, as the
/// stride-replacement rule defines it; every other count is kept.
pub proof fn lemma_rle_rewrite_pointwise(s: Seq<usize>)
    ensures
        rle_rewrite(s).len() == s.len(),
        forall|x: int|
            0 <= x < s.len() ==> #[trigger] rle_rewrite(s)[x] == s[x] || collapsed_value(
                rle_rewrite(s)[x],
            ),
{
    let len = trimmed_len(s);
    if len != 0 {
        lemma_rle_collapse_pointwise(
            s,
            len,
            rle_marks(s, len, 0, s[0], 0, Seq::new(len as nat, |x: int| false)),
            0,
            0,
            0,
            s[0] as int,
            s,
        );
    }
}

/// Rewrites a histogram so that its Huffman tree compresses better under the
/// run-length encoding of the dynamic-tree header: runs already cheap to
/// encode are kept, and other near-constant strides of at least four counts
/// (three, when all zero) are collapsed to their rounded average. Counts in
/// the trailing-zero tail are never touched.
pub fn optimize_huffman_for_rle(counts: &mut Vec<usize>)
    requires
        old(counts).len() < usize::MAX,
        sum_prefix(old(counts)@, old(counts)@.len() as int) + old(counts)@.len()
            <= usize::MAX,
    ensures
        final(counts)@ == rle_rewrite(old(counts)@),
        final(counts).len() == old(counts).len(),
        forall|t: int|
            trimmed_len(old(counts)@) <= t < old(counts)@.len() ==> final(counts)[t] == old(counts)[t],
{
    let ghost orig = counts@;
    let n = counts.len();
    // 1) find the length without the trailing zeros
    let mut length = n;
    while length > 0 && counts[length - 1] == 0
        invariant_except_break
            length <= n,
            counts@ == orig,
            counts.len() == n,
            forall|t: int| length <= t < n ==> orig[t] == 0,
        ensures
            length <= n,
            counts@ == orig,
            counts.len() == n,
            forall|t: int| length <= t < n ==> orig[t] == 0,
            length == 0 || orig[length - 1] != 0,
        decreases length,
    {
        length -= 1;
    }
    proof {
        lemma_trimmed_len_at(orig, length as int);
    }
    if length == 0 {
        return ;
    }
    let ghost ll = length as int;

    // 2) mark the population counts that an rle code already encodes well
    let mut good_for_rle: Vec<bool> = Vec::new();
    let mut g: usize = 0;
    while g < length
        invariant
            good_for_rle.len() == g,
            g <= length,
            forall|t: int| 0 <= t < g ==> !good_for_rle[t],
        decreases length - g,
    {
        good_for_rle.push(false);
        g += 1;
    }
    proof {
        assert(good_for_rle@ =~= Seq::new(ll as nat, |x: int| false));
    }
    let ghost gtarget = rle_marks(orig, ll, 0, orig[0], 0, good_for_rle@);

    let mut symbol = counts[0];
    let mut stride: usize = 0;
    let mut i: usize = 0;
    while i <= length
        invariant
            counts@ == orig,
            n < usize::MAX,
            length <= n <= counts.len(),
            1 <= length,
            ll == length,
            good_for_rle.len() == length,
            i <= length + 1,
            stride <= i,
            rle_marks(orig, ll, i as int, symbol, stride as int, good_for_rle@) == gtarget,
        decreases length + 1 - i,
    {
        let ghost g0 = good_for_rle@;
        if i == length || counts[i] != symbol {
            if (symbol == 0 && stride >= 5) || (symbol != 0 && stride >= 7) {
                let mut k: usize = 0;
                while k < stride
                    invariant
                        k <= stride,
                        stride <= i,
                        i <= length,
                        good_for_rle.len() == length,
                        g0.len() == length,
                        forall|x: int| i - k <= x < i ==> good_for_rle[x],
                        forall|x: int|
                            0 <= x < length && !(i - k <= x < i) ==> good_for_rle[x] == g0[x],
                    decreases stride - k,
                {
                    good_for_rle.set(i - k - 1, true);
                    k += 1;
                }
                proof {
                    assert(good_for_rle@ =~= mark_range(g0, i - stride, i as int));
                }
            }
            stride = 1;
            if i != length {
                symbol = counts[i];
            }
        } else {
            stride += 1;
        }
        i += 1;
    }
    proof {
        assert(good_for_rle@ == gtarget);
    }

    // 3) collapse the remaining near-constant strides to their average
    let ghost ctarget = rle_collapse(orig, ll, gtarget, 0, 0, 0, orig[0] as int, counts@);
    stride = 0;
    let mut limit = counts[0];
    let mut sum: usize = 0;
    let mut i2: usize = 0;
    while i2 <= length
        invariant
            counts.len() == n,
            n < usize::MAX,
            length <= n,
            1 <= length,
            ll == length,
            trimmed_len(orig) == length,
            good_for_rle.len() == length,
            good_for_rle@ == gtarget,
            i2 <= length + 1,
            stride <= i2,
            forall|t: int| i2 <= t < n ==> counts[t] == orig[t],
            forall|t: int| length <= t < n ==> counts[t] == orig[t],
            sum <= sum_prefix(orig, i2 as int),
            sum_prefix(orig, n as int) + n <= usize::MAX,
            rle_collapse(orig, ll, gtarget, i2 as int, stride as int, sum as int, limit as int, counts@)
                == ctarget,
        decreases length + 1 - i2,
    {
        let far: bool = if i2 == length {
            true
        } else if good_for_rle[i2] {
            true
        } else {
            let c = counts[i2];
            let d = if c >= limit {
                c - limit
            } else {
                limit - c
            };
            d >= 4
        };
        let ghost c0 = counts@;
        if far {
            if stride >= 4 || (stride >= 3 && sum == 0) {
                proof {
                    lemma_sum_prefix_monotone(orig, i2 as int, n as int);
                }
                let mut count = (sum + stride / 2) / stride;
                if count < 1 {
                    count = 1;
                }
                if sum == 0 {
                    // do not upgrade an all-zeros stride to ones
                    count = 0;
                }
                proof {
                    assert(count as int == rle_avg(sum as int, stride as int));
                }
                let mut k: usize = 0;
                while k < stride
                    invariant
                        k <= stride,
                        stride <= i2,
                        i2 <= length,
                        counts.len() == n,
                        length <= n,
                        c0.len() == n,
                        forall|t: int| i2 <= t < n ==> counts[t] == orig[t],
                        forall|t: int| length <= t < n ==> counts[t] == orig[t],
                        forall|x: int| i2 - k <= x < i2 ==> counts[x] == count,
                        forall|x: int| 0 <= x < n && !(i2 - k <= x < i2) ==> counts[x] == c0[x],
                    decreases stride - k,
                {
                    counts.set(i2 - k - 1, count);
                    k += 1;
                }
                proof {
                    assert(counts@ =~= fill_range(c0, i2 - stride, i2 as int, count));
                }
            }
            stride = 0;
            sum = 0;
            if length > 3 && i2 < length - 3 {
                // interesting strides hold at least four counts
                proof {
                    lemma_sum_prefix_monotone(orig, 0, i2 as int);
                    lemma_sum_prefix_monotone(orig, i2 as int + 4, n as int);
                    assert(sum_prefix(orig, i2 as int + 1) == sum_prefix(orig, i2 as int) + orig[i2 as int]);
                    assert(sum_prefix(orig, i2 as int + 2) == sum_prefix(orig, i2 as int + 1) + orig[i2 as int + 1]);
                    assert(sum_prefix(orig, i2 as int + 3) == sum_prefix(orig, i2 as int + 2) + orig[i2 as int + 2]);
                    assert(sum_prefix(orig, i2 as int + 4) == sum_prefix(orig, i2 as int + 3) + orig[i2 as int + 3]);
                }
                limit = (counts[i2] + counts[i2 + 1] + counts[i2 + 2]
                    + counts[i2 + 3] + 2) / 4;
            } else if i2 < length {
                limit = counts[i2];
            } else {
                limit = 0;
            }
        }
        stride += 1;
        if i2 != length {
            proof {
                lemma_sum_prefix_monotone(orig, i2 as int + 1, n as int);
                assert(sum_prefix(orig, i2 as int + 1) == sum_prefix(orig, i2 as int) + orig[i2 as int]);
            }
            sum += counts[i2];
        }
        i2 += 1;
    }
    proof {
        assert(counts@ == ctarget);
        assert(final(counts)@ == rle_rewrite(orig));
    }
}

/// Bits the literal/length code of symbol `sym` contributes per use: its
/// code length plus, for length symbols, their extra bits.
pub open spec fn ll_weight(ll: Seq<u32>, sym: int) -> int {
    ll[sym] + if 257 <= sym <= 285 {
        spec_length_symbol_extra_bits(sym)
    } else {
        0
    }
}

/// Bits the distance code of symbol `sym` contributes per use.
pub open spec fn d_weight(d: Seq<u32>, sym: int) -> int {
    d[sym] + spec_dist_symbol_extra_bits(sym)
}

/// Bits one token costs under the given code-length tables.
pub open spec fn token_cost(litlen: u16, dist: u16, ll: Seq<u32>, d: Seq<u32>) -> int {
    if dist == 0 {
        ll_weight(ll, litlen as int)
    } else {
        ll_weight(ll, spec_length_symbol(litlen as int)) + d_weight(
            d,
            spec_dist_symbol(dist as int),
        )
    }
}

/// Bits the tokens `[a, b)` cost, summed token by token.
pub open spec fn range_cost(lit: Seq<u16>, dst: Seq<u16>, ll: Seq<u32>, d: Seq<u32>, a: int, b: int) -> int
    decreases b - a,
{
    if b <= a {
        0
    } else {
        range_cost(lit, dst, ll, d, a, b - 1) + token_cost(lit[b - 1], dst[b - 1], ll, d)
    }
}

/// Weighted histogram sum over the literal/length symbols below `hi`.
pub open spec fn ll_wsum(lit: Seq<u16>, dst: Seq<u16>, ll: Seq<u32>, a: int, b: int, hi: int) -> int
    decreases hi,
{
    if hi <= 0 {
        0
    } else {
        ll_wsum(lit, dst, ll, a, b, hi - 1) + ll_weight(ll, hi - 1) * ll_count(lit, dst, a, b, hi - 1)
    }
}

/// Weighted histogram sum over the distance symbols below `hi`.
pub open spec fn d_wsum(lit: Seq<u16>, dst: Seq<u16>, d: Seq<u32>, a: int, b: int, hi: int) -> int
    decreases hi,
{
    if hi <= 0 {
        0
    } else {
        d_wsum(lit, dst, d, a, b, hi - 1) + d_weight(d, hi - 1) * d_count(lit, dst, a, b, hi - 1)
    }
}

proof fn lemma_ll_wsum_mono(lit: Seq<u16>, dst: Seq<u16>, ll: Seq<u32>, a: int, b: int, h1: int, h2: int)
    requires
        0 <= h1 <= h2,
    ensures
        0 <= ll_wsum(lit, dst, ll, a, b, h1) <= ll_wsum(lit, dst, ll, a, b, h2),
    decreases h2,
{
    if h1 == h2 {
        if h1 > 0 {
            lemma_ll_wsum_mono(lit, dst, ll, a, b, h1 - 1, h2 - 1);
            crate::lz77::lemma_ll_count_bound(lit, dst, a, b, h2 - 1);
            assert(ll_weight(ll, h2 - 1) * ll_count(lit, dst, a, b, h2 - 1) >= 0) by (nonlinear_arith)
                requires
                    ll_weight(ll, h2 - 1) >= 0,
                    ll_count(lit, dst, a, b, h2 - 1) >= 0,
            ;
        }
    } else {
        lemma_ll_wsum_mono(lit, dst, ll, a, b, h1, h2 - 1);
        crate::lz77::lemma_ll_count_bound(lit, dst, a, b, h2 - 1);
        assert(ll_weight(ll, h2 - 1) * ll_count(lit, dst, a, b, h2 - 1) >= 0) by (nonlinear_arith)
            requires
                ll_weight(ll, h2 - 1) >= 0,
                ll_count(lit, dst, a, b, h2 - 1) >= 0,
        ;
    }
}

proof fn lemma_d_wsum_mono(lit: Seq<u16>, dst: Seq<u16>, d: Seq<u32>, a: int, b: int, h1: int, h2: int)
    requires
        0 <= h1 <= h2,
    ensures
        0 <= d_wsum(lit, dst, d, a, b, h1) <= d_wsum(lit, dst, d, a, b, h2),
    decreases h2,
{
    if h1 == h2 {
        if h1 > 0 {
            lemma_d_wsum_mono(lit, dst, d, a, b, h1 - 1, h2 - 1);
            crate::lz77::lemma_d_count_bound(lit, dst, a, b, h2 - 1);
            assert(d_weight(d, h2 - 1) * d_count(lit, dst, a, b, h2 - 1) >= 0) by (nonlinear_arith)
                requires
                    d_weight(d, h2 - 1) >= 0,
                    d_count(lit, dst, a, b, h2 - 1) >= 0,
            ;
        }
    } else {
        lemma_d_wsum_mono(lit, dst, d, a, b, h1, h2 - 1);
        crate::lz77::lemma_d_count_bound(lit, dst, a, b, h2 - 1);
        assert(d_weight(d, h2 - 1) * d_count(lit, dst, a, b, h2 - 1) >= 0) by (nonlinear_arith)
            requires
                d_weight(d, h2 - 1) >= 0,
                d_count(lit, dst, a, b, h2 - 1) >= 0,
        ;
    }
}

proof fn lemma_ll_wsum_empty(lit: Seq<u16>, dst: Seq<u16>, ll: Seq<u32>, a: int, hi: int)
    ensures
        ll_wsum(lit, dst, ll, a, a, hi) == 0,
    decreases hi,
{
    if hi > 0 {
        lemma_ll_wsum_empty(lit, dst, ll, a, hi - 1);
        assert(ll_count(lit, dst, a, a, hi - 1) == 0);
        assert(ll_weight(ll, hi - 1) * 0 == 0) by (nonlinear_arith);
    }
}

proof fn lemma_d_wsum_empty(lit: Seq<u16>, dst: Seq<u16>, d: Seq<u32>, a: int, hi: int)
    ensures
        d_wsum(lit, dst, d, a, a, hi) == 0,
    decreases hi,
{
    if hi > 0 {
        lemma_d_wsum_empty(lit, dst, d, a, hi - 1);
        assert(d_count(lit, dst, a, a, hi - 1) == 0);
        assert(d_weight(d, hi - 1) * 0 == 0) by (nonlinear_arith);
    }
}

/// Adding the token at `b - 1` adds its symbol's weight to the weighted sum.
proof fn lemma_ll_wsum_last(lit: Seq<u16>, dst: Seq<u16>, ll: Seq<u32>, a: int, b: int, hi: int)
    requires
        a < b,
    ensures
        ll_wsum(lit, dst, ll, a, b, hi) == ll_wsum(lit, dst, ll, a, b - 1, hi) + if spec_ll_symbol(
            lit[b - 1],
            dst[b - 1],
        ) < hi {
            ll_weight(ll, spec_ll_symbol(lit[b - 1], dst[b - 1]))
        } else {
            0
        },
    decreases hi,
{
    if hi > 0 {
        lemma_ll_wsum_last(lit, dst, ll, a, b, hi - 1);
        let w = ll_weight(ll, hi - 1);
        let c0 = ll_count(lit, dst, a, b - 1, hi - 1);
        if spec_ll_symbol(lit[b - 1], dst[b - 1]) == hi - 1 {
            assert(ll_count(lit, dst, a, b, hi - 1) == c0 + 1);
            assert(w * (c0 + 1) == w * c0 + w) by (nonlinear_arith);
        } else {
            assert(ll_count(lit, dst, a, b, hi - 1) == c0);
        }
    }
}

proof fn lemma_d_wsum_last(lit: Seq<u16>, dst: Seq<u16>, d: Seq<u32>, a: int, b: int, hi: int)
    requires
        a < b,
    ensures
        d_wsum(lit, dst, d, a, b, hi) == d_wsum(lit, dst, d, a, b - 1, hi) + if dst[b - 1] != 0
            && spec_dist_symbol(dst[b - 1] as int) < hi {
            d_weight(d, spec_dist_symbol(dst[b - 1] as int))
        } else {
            0
        },
    decreases hi,
{
    if hi > 0 {
        lemma_d_wsum_last(lit, dst, d, a, b, hi - 1);
        let w = d_weight(d, hi - 1);
        let c0 = d_count(lit, dst, a, b - 1, hi - 1);
        if dst[b - 1] != 0 && spec_dist_symbol(dst[b - 1] as int) == hi - 1 {
            assert(d_count(lit, dst, a, b, hi - 1) == c0 + 1);
            assert(w * (c0 + 1) == w * c0 + w) by (nonlinear_arith);
        } else {
            assert(d_count(lit, dst, a, b, hi - 1) == c0);
        }
    }
}

/// The weighted histogram sums equal the token-by-token cost: counting each
/// symbol's uses and multiplying by its weight spends exactly the bits the
/// tokens spend one after another.
pub proof fn lemma_cost_exchange(
    lit: Seq<u16>,
    dst: Seq<u16>,
    ll: Seq<u32>,
    d: Seq<u32>,
    a: int,
    b: int,
)
    requires
        0 <= a <= b <= lit.len(),
        lit.len() == dst.len(),
        forall|i: int| 0 <= i < lit.len() ==> token_valid(#[trigger] lit[i], dst[i]),
    ensures
        ll_wsum(lit, dst, ll, a, b, 288) + d_wsum(lit, dst, d, a, b, 32) == range_cost(
            lit,
            dst,
            ll,
            d,
            a,
            b,
        ),
    decreases b - a,
{
    if b <= a {
        lemma_ll_wsum_empty(lit, dst, ll, a, 288);
        lemma_d_wsum_empty(lit, dst, d, a, 32);
    } else {
        lemma_cost_exchange(lit, dst, ll, d, a, b - 1);
        lemma_ll_wsum_last(lit, dst, ll, a, b, 288);
        lemma_d_wsum_last(lit, dst, d, a, b, 32);
        assert(token_valid(lit[b - 1], dst[b - 1]));
        if dst[b - 1] == 0 {
            assert(spec_ll_symbol(lit[b - 1], dst[b - 1]) < 288);
        } else {
            assert(257 <= spec_ll_symbol(lit[b - 1], dst[b - 1]) <= 285);
            assert(spec_dist_symbol(dst[b - 1] as int) < 32);
        }
    }
}

/// No token uses the end-of-block symbol or the two reserved slots of each
/// alphabet, so their counts over any range are zero.
proof fn lemma_count_unused_zero(lit: Seq<u16>, dst: Seq<u16>, a: int, b: int, s: int)
    requires
        0 <= a,
        b <= lit.len(),
        lit.len() == dst.len(),
        forall|i: int| 0 <= i < lit.len() ==> token_valid(#[trigger] lit[i], dst[i]),
    ensures
        s == 256 || 286 <= s ==> ll_count(lit, dst, a, b, s) == 0,
        s >= 30 ==> d_count(lit, dst, a, b, s) == 0,
    decreases b - a,
{
    if b > a {
        lemma_count_unused_zero(lit, dst, a, b - 1, s);
        if 0 <= b - 1 {
            assert(token_valid(lit[b - 1], dst[b - 1]));
            if dst[b - 1] != 0 {
                assert(257 <= spec_ll_symbol(lit[b - 1], dst[b - 1]) <= 285);
                assert(spec_dist_symbol(dst[b - 1] as int) <= 29);
            }
        }
    }
}

/// Each token costs at most 48 bits when no code is longer than 15 bits.
proof fn lemma_range_cost_bound(
    lit: Seq<u16>,
    dst: Seq<u16>,
    ll: Seq<u32>,
    d: Seq<u32>,
    a: int,
    b: int,
)
    requires
        0 <= a <= b <= lit.len(),
        lit.len() == dst.len(),
        forall|i: int| 0 <= i < lit.len() ==> token_valid(#[trigger] lit[i], dst[i]),
        forall|x: int| 0 <= x < 288 ==> #[trigger] ll[x] <= 15,
        forall|x: int| 0 <= x < 32 ==> #[trigger] d[x] <= 15,
        ll.len() == 288,
        d.len() == 32,
    ensures
        0 <= range_cost(lit, dst, ll, d, a, b) <= 48 * (b - a),
    decreases b - a,
{
    if b > a {
        lemma_range_cost_bound(lit, dst, ll, d, a, b - 1);
        assert(token_valid(lit[b - 1], dst[b - 1]));
        if dst[b - 1] != 0 {
            assert(257 <= spec_ll_symbol(lit[b - 1], dst[b - 1]) <= 285);
            assert(spec_dist_symbol(dst[b - 1] as int) <= 29);
        }
    }
}

/// Bit size of the body of an LZ77 range, token by token: the code length of
/// each literal, the length and distance codes of each match with their
/// extra bits, and the end-of-block code.
#[verifier::rlimit(100)]
pub fn calculate_block_symbol_size_small(
    ll_lengths: &Vec<u32>,
    d_lengths: &Vec<u32>,
    lz77: &Lz77Store,
    lstart: usize,
    lend: usize,
) -> (r: usize)
    requires
        lz77.tokens_valid(),
        lstart <= lend <= lz77.size(),
        ll_lengths.len() == 288,
        d_lengths.len() == 32,
        forall|x: int| 0 <= x < 288 ==> #[trigger] ll_lengths@[x] <= 15,
        forall|x: int| 0 <= x < 32 ==> #[trigger] d_lengths@[x] <= 15,
        48 * (lend - lstart) + 15 <= usize::MAX,
    ensures
        r == range_cost(
            lz77.litlens@,
            lz77.dists@,
            ll_lengths@,
            d_lengths@,
            lstart as int,
            lend as int,
        ) + ll_lengths@[256],
{
    let ghost lit = lz77.litlens@;
    let ghost dst = lz77.dists@;
    let mut result: usize = 0;
    let mut i: usize = lstart;
    while i < lend
        invariant
            lz77.tokens_valid(),
            lit == lz77.litlens@,
            dst == lz77.dists@,
            lstart <= i <= lend <= lz77.size(),
            ll_lengths.len() == 288,
            d_lengths.len() == 32,
            forall|x: int| 0 <= x < 288 ==> #[trigger] ll_lengths@[x] <= 15,
            forall|x: int| 0 <= x < 32 ==> #[trigger] d_lengths@[x] <= 15,
            48 * (lend - lstart) + 15 <= usize::MAX,
            result == range_cost(lit, dst, ll_lengths@, d_lengths@, lstart as int, i as int),
            result <= 48 * (i - lstart),
        decreases lend - i,
    {
        let litlen_i = lz77.litlens[i];
        let dist_i = lz77.dists[i];
        proof {
            assert(token_valid(lit[i as int], dst[i as int]));
        }
        if dist_i == 0 {
            result += ll_lengths[litlen_i as usize] as usize;
        } else {
            let ll_sym = length_symbol(litlen_i);
            let d_sym = dist_symbol(dist_i);
            result += ll_lengths[ll_sym as usize] as usize;
            result += d_lengths[d_sym as usize] as usize;
            result += length_symbol_extra_bits(ll_sym) as usize;
            result += dist_symbol_extra_bits(d_sym) as usize;
        }
        i += 1;
    }
    result += ll_lengths[256] as usize;
    result
}

/// Same bit size, but computed from the symbol counts of the range; with a
/// short range the token-by-token path is taken instead. Whichever path
/// runs, the result is the same `range_cost` total.
#[verifier::rlimit(100)]
pub fn calculate_block_symbol_size_given_counts(
    ll_counts: &Vec<usize>,
    d_counts: &Vec<usize>,
    ll_lengths: &Vec<u32>,
    d_lengths: &Vec<u32>,
    lz77: &Lz77Store,
    lstart: usize,
    lend: usize,
) -> (r: usize)
    requires
        lz77.tokens_valid(),
        lstart <= lend <= lz77.size(),
        ll_lengths.len() == 288,
        d_lengths.len() == 32,
        ll_counts.len() == 288,
        d_counts.len() == 32,
        forall|x: int| 0 <= x < 288 ==> #[trigger] ll_lengths@[x] <= 15,
        forall|x: int| 0 <= x < 32 ==> #[trigger] d_lengths@[x] <= 15,
        lend - lstart >= 3 * 288 ==> (forall|x: int|
            0 <= x < 288 ==> #[trigger] ll_counts@[x] == ll_count(
                lz77.litlens@,
                lz77.dists@,
                lstart as int,
                lend as int,
                x,
            )),
        lend - lstart >= 3 * 288 ==> (forall|x: int|
            0 <= x < 32 ==> #[trigger] d_counts@[x] == d_count(
                lz77.litlens@,
                lz77.dists@,
                lstart as int,
                lend as int,
                x,
            )),
        48 * (lend - lstart) + 15 <= usize::MAX,
    ensures
        r == range_cost(
            lz77.litlens@,
            lz77.dists@,
            ll_lengths@,
            d_lengths@,
            lstart as int,
            lend as int,
        ) + ll_lengths@[256],
{
    let ghost lit = lz77.litlens@;
    let ghost dst = lz77.dists@;
    let ghost ll = ll_lengths@;
    let ghost d = d_lengths@;
    let ghost a = lstart as int;
    let ghost b = lend as int;
    if lend - lstart < 3 * ZOPFLI_NUM_LL {
        return calculate_block_symbol_size_small(ll_lengths, d_lengths, lz77, lstart, lend);
    }
    proof {
        lemma_cost_exchange(lit, dst, ll, d, a, b);
        lemma_range_cost_bound(lit, dst, ll, d, a, b);
        lemma_d_wsum_mono(lit, dst, d, a, b, 0, 32);
        lemma_ll_wsum_mono(lit, dst, ll, a, b, 0, 288);
    }
    let mut result: usize = 0;
    let mut i: usize = 0;
    while i < 256
        invariant
            lz77.tokens_valid(),
            lit == lz77.litlens@,
            dst == lz77.dists@,
            ll == ll_lengths@,
            d == d_lengths@,
            a == lstart as int,
            b == lend as int,
            lstart <= lend <= lz77.size(),
            i <= 256,
            ll_lengths.len() == 288,
            d_lengths.len() == 32,
            ll_counts.len() == 288,
            d_counts.len() == 32,
            forall|x: int| 0 <= x < 288 ==> #[trigger] ll_lengths@[x] <= 15,
            forall|x: int| 0 <= x < 32 ==> #[trigger] d_lengths@[x] <= 15,
            forall|x: int| 0 <= x < 288 ==> #[trigger] ll_counts@[x] == ll_count(lit, dst, a, b, x),
            forall|x: int| 0 <= x < 32 ==> #[trigger] d_counts@[x] == d_count(lit, dst, a, b, x),
            48 * (lend - lstart) + 15 <= usize::MAX,
            ll_wsum(lit, dst, ll, a, b, 288) + d_wsum(lit, dst, d, a, b, 32) == range_cost(lit, dst, ll, d, a, b),
            0 <= range_cost(lit, dst, ll, d, a, b) <= 48 * (b - a),
            result == ll_wsum(lit, dst, ll, a, b, i as int),
        decreases 256 - i,
    {
        proof {
            lemma_ll_wsum_mono(lit, dst, ll, a, b, 0, i as int);
            lemma_ll_wsum_mono(lit, dst, ll, a, b, i as int + 1, 288);
            lemma_d_wsum_mono(lit, dst, d, a, b, 0, 32);
            crate::lz77::lemma_ll_count_bound(lit, dst, a, b, i as int);
            let w = ll_weight(ll, i as int);
            let c = ll_count(lit, dst, a, b, i as int);
            assert(ll_wsum(lit, dst, ll, a, b, i as int + 1) == ll_wsum(lit, dst, ll, a, b, i as int)
                + w * c);
            assert(ll[i as int] * c == w * c && 0 <= w * c) by (nonlinear_arith)
                requires
                    w == ll[i as int],
                    c >= 0,
                    w >= 0,
            ;
        }
        result += ll_lengths[i] as usize * ll_counts[i];
        i += 1;
    }
    proof {
        lemma_count_unused_zero(lit, dst, a, b, 256);
        assert(ll_wsum(lit, dst, ll, a, b, 257) == ll_wsum(lit, dst, ll, a, b, 256) + ll_weight(
            ll,
            256,
        ) * ll_count(lit, dst, a, b, 256));
        assert(ll_weight(ll, 256) * 0 == 0) by (nonlinear_arith);
    }
    let mut i2: usize = 257;
    while i2 < 286
        invariant
            lz77.tokens_valid(),
            lit == lz77.litlens@,
            dst == lz77.dists@,
            ll == ll_lengths@,
            d == d_lengths@,
            a == lstart as int,
            b == lend as int,
            lstart <= lend <= lz77.size(),
            257 <= i2 <= 286,
            ll_lengths.len() == 288,
            d_lengths.len() == 32,
            ll_counts.len() == 288,
            d_counts.len() == 32,
            forall|x: int| 0 <= x < 288 ==> #[trigger] ll_lengths@[x] <= 15,
            forall|x: int| 0 <= x < 32 ==> #[trigger] d_lengths@[x] <= 15,
            forall|x: int| 0 <= x < 288 ==> #[trigger] ll_counts@[x] == ll_count(lit, dst, a, b, x),
            forall|x: int| 0 <= x < 32 ==> #[trigger] d_counts@[x] == d_count(lit, dst, a, b, x),
            48 * (lend - lstart) + 15 <= usize::MAX,
            ll_wsum(lit, dst, ll, a, b, 288) + d_wsum(lit, dst, d, a, b, 32) == range_cost(lit, dst, ll, d, a, b),
            0 <= range_cost(lit, dst, ll, d, a, b) <= 48 * (b - a),
            result == ll_wsum(lit, dst, ll, a, b, i2 as int),
        decreases 286 - i2,
    {
        proof {
            lemma_ll_wsum_mono(lit, dst, ll, a, b, 0, i2 as int);
            lemma_ll_wsum_mono(lit, dst, ll, a, b, i2 as int + 1, 288);
            lemma_d_wsum_mono(lit, dst, d, a, b, 0, 32);
            crate::lz77::lemma_ll_count_bound(lit, dst, a, b, i2 as int);
            let w = ll_weight(ll, i2 as int);
            let c = ll_count(lit, dst, a, b, i2 as int);
            assert(ll_wsum(lit, dst, ll, a, b, i2 as int + 1) == ll_wsum(lit, dst, ll, a, b, i2 as int)
                + w * c);
            assert(w * c == ll[i2 as int] * c + spec_length_symbol_extra_bits(i2 as int) * c
                && 0 <= ll[i2 as int] * c && 0 <= spec_length_symbol_extra_bits(i2 as int) * c) by (
            nonlinear_arith)
                requires
                    w == ll[i2 as int] + spec_length_symbol_extra_bits(i2 as int),
                    c >= 0,
                    ll[i2 as int] >= 0,
                    spec_length_symbol_extra_bits(i2 as int) >= 0,
            ;
        }
        result += ll_lengths[i2] as usize * ll_counts[i2];
        result += length_symbol_extra_bits(i2 as u16) as usize * ll_counts[i2];
        i2 += 1;
    }
    proof {
        lemma_count_unused_zero(lit, dst, a, b, 286);
        lemma_count_unused_zero(lit, dst, a, b, 287);
        assert(ll_weight(ll, 286) * 0 == 0 && ll_weight(ll, 287) * 0 == 0) by (nonlinear_arith);
        assert(ll_wsum(lit, dst, ll, a, b, 287) == ll_wsum(lit, dst, ll, a, b, 286) + ll_weight(
            ll,
            286,
        ) * ll_count(lit, dst, a, b, 286));
        assert(ll_wsum(lit, dst, ll, a, b, 288) == ll_wsum(lit, dst, ll, a, b, 287) + ll_weight(
            ll,
            287,
        ) * ll_count(lit, dst, a, b, 287));
        assert(ll_wsum(lit, dst, ll, a, b, 288) == ll_wsum(lit, dst, ll, a, b, 286));
    }
    let mut i3: usize = 0;
    while i3 < 30
        invariant
            lz77.tokens_valid(),
            lit == lz77.litlens@,
            dst == lz77.dists@,
            ll == ll_lengths@,
            d == d_lengths@,
            a == lstart as int,
            b == lend as int,
            lstart <= lend <= lz77.size(),
            i3 <= 30,
            ll_lengths.len() == 288,
            d_lengths.len() == 32,
            ll_counts.len() == 288,
            d_counts.len() == 32,
            forall|x: int| 0 <= x < 288 ==> #[trigger] ll_lengths@[x] <= 15,
            forall|x: int| 0 <= x < 32 ==> #[trigger] d_lengths@[x] <= 15,
            forall|x: int| 0 <= x < 288 ==> #[trigger] ll_counts@[x] == ll_count(lit, dst, a, b, x),
            forall|x: int| 0 <= x < 32 ==> #[trigger] d_counts@[x] == d_count(lit, dst, a, b, x),
            48 * (lend - lstart) + 15 <= usize::MAX,
            ll_wsum(lit, dst, ll, a, b, 288) + d_wsum(lit, dst, d, a, b, 32) == range_cost(lit, dst, ll, d, a, b),
            0 <= range_cost(lit, dst, ll, d, a, b) <= 48 * (b - a),
            result == ll_wsum(lit, dst, ll, a, b, 288) + d_wsum(lit, dst, d, a, b, i3 as int),
        decreases 30 - i3,
    {
        proof {
            lemma_d_wsum_mono(lit, dst, d, a, b, 0, i3 as int);
            lemma_d_wsum_mono(lit, dst, d, a, b, i3 as int + 1, 32);
            lemma_ll_wsum_mono(lit, dst, ll, a, b, 0, 288);
            crate::lz77::lemma_d_count_bound(lit, dst, a, b, i3 as int);
            let w = d_weight(d, i3 as int);
            let c = d_count(lit, dst, a, b, i3 as int);
            assert(d_wsum(lit, dst, d, a, b, i3 as int + 1) == d_wsum(lit, dst, d, a, b, i3 as int)
                + w * c);
            assert(w * c == d[i3 as int] * c + spec_dist_symbol_extra_bits(i3 as int) * c
                && 0 <= d[i3 as int] * c && 0 <= spec_dist_symbol_extra_bits(i3 as int) * c) by (
            nonlinear_arith)
                requires
                    w == d[i3 as int] + spec_dist_symbol_extra_bits(i3 as int),
                    c >= 0,
                    d[i3 as int] >= 0,
                    spec_dist_symbol_extra_bits(i3 as int) >= 0,
            ;
        }
        result += d_lengths[i3] as usize * d_counts[i3];
        result += dist_symbol_extra_bits(i3 as u16) as usize * d_counts[i3];
        i3 += 1;
    }
    proof {
        lemma_count_unused_zero(lit, dst, a, b, 30);
        lemma_count_unused_zero(lit, dst, a, b, 31);
        assert(d_weight(d, 30) * 0 == 0 && d_weight(d, 31) * 0 == 0) by (nonlinear_arith);
        assert(d_wsum(lit, dst, d, a, b, 31) == d_wsum(lit, dst, d, a, b, 30) + d_weight(d, 30)
            * d_count(lit, dst, a, b, 30));
        assert(d_wsum(lit, dst, d, a, b, 32) == d_wsum(lit, dst, d, a, b, 31) + d_weight(d, 31)
            * d_count(lit, dst, a, b, 31));
        assert(d_wsum(lit, dst, d, a, b, 32) == d_wsum(lit, dst, d, a, b, 30));
    }
    result += ll_lengths[256] as usize;
    result
}

/// Bit size of the body of an LZ77 range: short ranges are costed token by
/// token, long ones through the store's reconstructed histogram. Both paths
/// return the same `range_cost` total.
pub fn calculate_block_symbol_size(
    ll_lengths: &Vec<u32>,
    d_lengths: &Vec<u32>,
    lz77: &Lz77Store,
    lstart: usize,
    lend: usize,
) -> (r: usize)
    requires
        lz77.wf(),
        lstart <= lend <= lz77.size(),
        ll_lengths.len() == 288,
        d_lengths.len() == 32,
        forall|x: int| 0 <= x < 288 ==> #[trigger] ll_lengths@[x] <= 15,
        forall|x: int| 0 <= x < 32 ==> #[trigger] d_lengths@[x] <= 15,
        48 * (lend - lstart) + 15 <= usize::MAX,
    ensures
        r == range_cost(
            lz77.litlens@,
            lz77.dists@,
            ll_lengths@,
            d_lengths@,
            lstart as int,
            lend as int,
        ) + ll_lengths@[256],
{
    if lend - lstart < 3 * ZOPFLI_NUM_LL {
        calculate_block_symbol_size_small(ll_lengths, d_lengths, lz77, lstart, lend)
    } else {
        let (ll_counts, d_counts) = lz77.get_histogram(lstart, lend);
        calculate_block_symbol_size_given_counts(
            &ll_counts,
            &d_counts,
            ll_lengths,
            d_lengths,
            lz77,
            lstart,
            lend,
        )
    }
}

} // verus!
