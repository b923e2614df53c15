//! Longest-match cache: remembers, per block position, the best match found
//! and a compacted "sublen" table giving the best distance for every shorter
//! achievable match length, so that repeated squeeze passes can re-ask
//! without re-matching.
//!
//! The sublen table of one position occupies 24 bytes: 8 entries of 3 bytes
//! `(len - 3, dist % 256, dist / 256)`. Entries record the places where the
//! distance changes when the sub-length grows ("transitions"), in increasing
//! order of length; the length byte of the last slot doubles as the maximum
//! cached sub-length minus 3.

use vstd::prelude::*;
use crate::util::ZOPFLI_CACHE_LENGTH;

verus! {

/// The inputs `sublen_to_cache` accepts: a best length in [3, 258], a table
/// that covers it, and a real distance at length 3 (a zero there would be
/// indistinguishable from an empty cache slot).
pub open spec fn sub_valid(v: Seq<u16>, length: int) -> bool {
    &&& 3 <= length <= 258
    &&& v.len() > length
    &&& v[3] != 0
}

/// First index at or after `i` where an entry must be recorded: the distance
/// changes at the next length, or the best length is reached.
pub open spec fn next_trans(v: Seq<u16>, length: int, i: int) -> int
    decreases length - i,
{
    if i >= length || v[i] != v[i + 1] {
        i
    } else {
        next_trans(v, length, i + 1)
    }
}

/// Index recorded by the `j`-th entry (counting from 0); past the last real
/// transition the value exceeds `length`.
pub open spec fn nth_trans(v: Seq<u16>, length: int, j: int) -> int
    decreases j,
{
    if j <= 0 {
        next_trans(v, length, 3)
    } else {
        next_trans(v, length, nth_trans(v, length, j - 1) + 1)
    }
}

/// The 24 sublen bytes of one position after caching `v` up to `length`,
/// given the bytes `prev` that were there before: the first transitions fill
/// entries in order; with fewer than 8 of them, the length byte of slot 7 is
/// set to `length - 3` and every other byte keeps its previous value.
pub open spec fn sub_encode(prev: Seq<u8>, v: Seq<u16>, length: int) -> Seq<u8> {
    Seq::new(
        24,
        |b: int|
            {
                let t = nth_trans(v, length, b / 3);
                if t <= length {
                    if b % 3 == 0 {
                        (t - 3) as u8
                    } else if b % 3 == 1 {
                        (v[t] as int % 256) as u8
                    } else {
                        (v[t] as int / 256) as u8
                    }
                } else if b == 21 {
                    (length - 3) as u8
                } else {
                    prev[b]
                }
            },
    )
}

/// Maximum sub-length a 24-byte sublen region can answer for, 0 when the
/// region caches nothing (the dist bytes of the first entry are both zero).
pub open spec fn sub_max(region: Seq<u8>) -> int {
    if region[1] == 0 && region[2] == 0 {
        0
    } else {
        region[21] + 3
    }
}

/// `out` with positions `lo..=hi` replaced by `dist`.
pub open spec fn write_range(out: Seq<u16>, lo: int, hi: int, dist: u16) -> Seq<u16> {
    Seq::new(out.len(), |x: int| if lo <= x <= hi { dist } else { out[x] })
}

/// What reading a sublen region writes into `out`: entries are walked in
/// order, each filling the lengths from one past the previous entry up to its
/// own, until the entry holding the maximum cached sub-length.
pub open spec fn sub_walk(region: Seq<u8>, out: Seq<u16>, j: int, prev: int) -> Seq<u16>
    decreases 8 - j,
{
    if j < 0 || j >= 8 {
        out
    } else {
        let len = region[3 * j] + 3;
        let dist = (region[3 * j + 1] + 256 * region[3 * j + 2]) as u16;
        let out2 = write_range(out, prev, len as int, dist);
        if len == sub_max(region) {
            out2
        } else {
            sub_walk(region, out2, j + 1, len + 1)
        }
    }
}

proof fn lemma_next_trans_props(v: Seq<u16>, length: int, i: int)
    requires
        i <= length,
    ensures
        i <= next_trans(v, length, i) <= length,
        forall|k: int|
            i <= k <= next_trans(v, length, i) ==> #[trigger] v[k] == v[next_trans(v, length, i)],
    decreases length - i,
{
    if !(i >= length || v[i] != v[i + 1]) {
        lemma_next_trans_props(v, length, i + 1);
    }
}

proof fn lemma_next_trans_ge(v: Seq<u16>, length: int, i: int)
    ensures
        next_trans(v, length, i) >= i,
    decreases length - i,
{
    if !(i >= length || v[i] != v[i + 1]) {
        lemma_next_trans_ge(v, length, i + 1);
    }
}

proof fn lemma_nth_trans_step(v: Seq<u16>, length: int, j: int)
    requires
        j >= 0,
    ensures
        nth_trans(v, length, j + 1) > nth_trans(v, length, j),
        nth_trans(v, length, j) < length ==> nth_trans(v, length, j + 1) <= length,
{
    lemma_next_trans_ge(v, length, nth_trans(v, length, j) + 1);
    if nth_trans(v, length, j) < length {
        lemma_next_trans_props(v, length, nth_trans(v, length, j) + 1);
    }
}

proof fn lemma_nth_trans_mono(v: Seq<u16>, length: int, j1: int, j2: int)
    requires
        0 <= j1 <= j2,
    ensures
        nth_trans(v, length, j1) <= nth_trans(v, length, j2),
    decreases j2 - j1,
{
    if j1 < j2 {
        lemma_nth_trans_step(v, length, j2 - 1);
        lemma_nth_trans_mono(v, length, j1, j2 - 1);
    }
}

/// The bytes of one recorded entry, as the two integers they encode.
proof fn lemma_encode_entry(prev: Seq<u8>, v: Seq<u16>, length: int, j: int)
    requires
        sub_valid(v, length),
        prev.len() == 24,
        0 <= j < 8,
        nth_trans(v, length, j) <= length,
    ensures
        ({
            let reg = sub_encode(prev, v, length);
            let t = nth_trans(v, length, j);
            &&& reg[3 * j] + 3 == t
            &&& reg[3 * j + 1] + 256 * reg[3 * j + 2] == v[t]
        }),
{
    lemma_next_trans_props(v, length, 3);
    lemma_nth_trans_mono(v, length, 0, j);
    assert((3 * j) / 3 == j && (3 * j + 1) / 3 == j && (3 * j + 2) / 3 == j);
}

/// The maximum cached sub-length a freshly encoded region reports.
proof fn lemma_encode_max(prev: Seq<u8>, v: Seq<u16>, length: int)
    requires
        sub_valid(v, length),
        prev.len() == 24,
    ensures
        sub_max(sub_encode(prev, v, length)) == if nth_trans(v, length, 7) <= length {
            nth_trans(v, length, 7)
        } else {
            length
        },
{
    let r = sub_encode(prev, v, length);
    lemma_next_trans_props(v, length, 3);
    let t0 = nth_trans(v, length, 0);
    assert(1int / 3 == 0 && 2int / 3 == 0 && 21int / 3 == 7);
    assert(r[1] == (v[t0] as int % 256) as u8 && r[2] == (v[t0] as int / 256) as u8);
    assert(v[t0] == v[3]);
    assert(!(r[1] == 0 && r[2] == 0));
    if nth_trans(v, length, 7) <= length {
        lemma_nth_trans_mono(v, length, 0, 7);
        assert(r[21] == (nth_trans(v, length, 7) - 3) as u8);
    } else {
        assert(r[21] == (length - 3) as u8);
    }
}

/// The three bytes of entry `j2` in `s` (a sublen array, at offset `base`)
/// hold what encoding `v` up to `vl` over `prev` puts there.
spec fn entry_saved(s: Seq<u8>, base: int, prev: Seq<u8>, v: Seq<u16>, vl: int, j2: int) -> bool {
    &&& s[base + 3 * j2] == sub_encode(prev, v, vl)[3 * j2]
    &&& s[base + 3 * j2 + 1] == sub_encode(prev, v, vl)[3 * j2 + 1]
    &&& s[base + 3 * j2 + 2] == sub_encode(prev, v, vl)[3 * j2 + 2]
}

/// Values of the bytes that `sub_encode` produces, and the resulting maximum
/// cached sub-length: the length of the 8th entry when 8 or more transitions
/// exist, the best length itself otherwise.
proof fn lemma_encode_bytes(prev: Seq<u8>, v: Seq<u16>, length: int)
    requires
        sub_valid(v, length),
        prev.len() == 24,
    ensures
        sub_encode(prev, v, length).len() == 24,
        forall|j: int|
            0 <= j < 8 && #[trigger] nth_trans(v, length, j) <= length ==> {
                let t = nth_trans(v, length, j);
                &&& sub_encode(prev, v, length)[3 * j] == (t - 3) as u8
                &&& sub_encode(prev, v, length)[3 * j + 1] == (v[t] as int % 256) as u8
                &&& sub_encode(prev, v, length)[3 * j + 2] == (v[t] as int / 256) as u8
            },
        forall|j: int|
            0 <= j < 8 && nth_trans(v, length, j) > length ==> (forall|b: int|
                3 * j <= b < 3 * j + 3 && b != 21 ==> sub_encode(prev, v, length)[b] == prev[b]),
        sub_max(sub_encode(prev, v, length)) == if nth_trans(v, length, 7) <= length {
            nth_trans(v, length, 7)
        } else {
            length
        },
        v[nth_trans(v, length, 0)] == v[3],
        3 <= nth_trans(v, length, 0),
{
    let r = sub_encode(prev, v, length);
    lemma_next_trans_props(v, length, 3);
    assert(nth_trans(v, length, 0) <= length);
    assert(v[nth_trans(v, length, 0)] == v[3]);
    assert forall|j: int|
        0 <= j < 8 && #[trigger] nth_trans(v, length, j) <= length implies {
        let t = nth_trans(v, length, j);
        &&& r[3 * j] == (t - 3) as u8
        &&& r[3 * j + 1] == (v[t] as int % 256) as u8
        &&& r[3 * j + 2] == (v[t] as int / 256) as u8
    } by {
        lemma_nth_trans_mono(v, length, 0, j);
        assert((3 * j) / 3 == j && (3 * j + 1) / 3 == j && (3 * j + 2) / 3 == j);
    }
    assert forall|j: int|
        0 <= j < 8 && nth_trans(v, length, j) > length implies (forall|b: int|
        3 * j <= b < 3 * j + 3 && b != 21 ==> r[b] == prev[b]) by {
        assert forall|b: int| 3 * j <= b < 3 * j + 3 && b != 21 implies r[b] == prev[b] by {
            assert(b / 3 == j);
        }
    }
    // the first entry's dist bytes cannot both be zero, since v[3] != 0
    let t0 = nth_trans(v, length, 0);
    assert(r[1] == (v[t0] as int % 256) as u8 && r[2] == (v[t0] as int / 256) as u8);
    assert(!(r[1] == 0 && r[2] == 0));
    if nth_trans(v, length, 7) <= length {
        assert(r[21] == (nth_trans(v, length, 7) - 3) as u8);
        lemma_nth_trans_mono(v, length, 0, 7);
    } else {
        assert(r[21] == (length - 3) as u8) by {
            assert(21int / 3 == 7);
        }
    }
}

/// The maximum cached sub-length never exceeds the length that was cached,
/// and equals it whenever at most 8 transitions were needed (in particular
/// whenever fewer than 8 were).
pub proof fn lemma_max_cached_sublen_bound(prev: Seq<u8>, v: Seq<u16>, length: int)
    requires
        sub_valid(v, length),
        prev.len() == 24,
    ensures
        sub_max(sub_encode(prev, v, length)) <= length,
        nth_trans(v, length, 7) >= length ==> sub_max(sub_encode(prev, v, length)) == length,
{
    lemma_encode_bytes(prev, v, length);
}

/// After encoding `v` up to `length` over `prev`, walking the entries from
/// `j` on (with `pstart` the first length still to fill) writes the cached
/// distance of every length from `pstart` to the maximum cached sub-length
/// into `out0`, and leaves the rest of `out0` alone. Lengths below 3 get the
/// distance of length 3.
pub open spec fn sub_walk_fills(
    prev: Seq<u8>,
    v: Seq<u16>,
    length: int,
    out0: Seq<u16>,
    j: int,
    pstart: int,
) -> bool {
    &&& sub_walk(sub_encode(prev, v, length), out0, j, pstart).len() == out0.len()
    &&& forall|t: int|
        pstart <= t <= sub_max(sub_encode(prev, v, length)) ==> #[trigger] sub_walk(
            sub_encode(prev, v, length),
            out0,
            j,
            pstart,
        )[t] == v[if t < 3 { 3int } else { t }]
    &&& forall|t: int|
        !(pstart <= t <= sub_max(sub_encode(prev, v, length))) && 0 <= t < out0.len()
            ==> #[trigger] sub_walk(sub_encode(prev, v, length), out0, j, pstart)[t] == out0[t]
}

/// Reading back a freshly written sublen region recovers the cached table:
/// every sub-length from 3 up to the maximum cached one gets the distance it
/// was written with, and positions above the maximum stay untouched.
pub proof fn lemma_cache_round_trip(prev: Seq<u8>, v: Seq<u16>, length: int, out0: Seq<u16>)
    requires
        sub_valid(v, length),
        prev.len() == 24,
        out0.len() >= 259,
    ensures
        sub_walk_fills(prev, v, length, out0, 0, 0),
        ({
            let reg = sub_encode(prev, v, length);
            let out = sub_walk(reg, out0, 0, 0);
            &&& out.len() == out0.len()
            &&& forall|t: int| 3 <= t <= sub_max(reg) ==> #[trigger] out[t] == v[t]
            &&& forall|t: int| sub_max(reg) < t < out0.len() ==> #[trigger] out[t] == out0[t]
        }),
{
    lemma_next_trans_props(v, length, 3);
    lemma_walk_correct(prev, v, length, out0, 0);
    assert(sub_walk_fills(prev, v, length, out0, 0, 0));
    lemma_encode_max(prev, v, length);
}

#[verifier::rlimit(100)]
proof fn lemma_walk_correct(prev: Seq<u8>, v: Seq<u16>, length: int, out0: Seq<u16>, j: int)
    requires
        sub_valid(v, length),
        prev.len() == 24,
        out0.len() >= 259,
        0 <= j < 8,
        nth_trans(v, length, j) <= length,
        j > 0 ==> nth_trans(v, length, j - 1) < sub_max(sub_encode(prev, v, length)),
    ensures
        sub_walk_fills(
            prev,
            v,
            length,
            out0,
            j,
            if j == 0 { 0int } else { nth_trans(v, length, j - 1) + 1 },
        ),
    decreases 8 - j,
{
    let reg = sub_encode(prev, v, length);
    let mx = sub_max(reg);
    let t_j = nth_trans(v, length, j);
    let pstart = if j == 0 { 0int } else { nth_trans(v, length, j - 1) + 1 };
    lemma_encode_entry(prev, v, length, j);
    lemma_encode_max(prev, v, length);
    assert(reg[3 * j] + 3 == t_j);
    let dist = (reg[3 * j + 1] + 256 * reg[3 * j + 2]) as u16;
    assert(dist == v[t_j]);
    // every length in this entry's span shares the entry's distance
    lemma_next_trans_props(v, length, 3);
    if j == 0 {
        assert(forall|k: int| 3 <= k <= t_j ==> #[trigger] v[k] == v[t_j]);
    } else {
        lemma_nth_trans_mono(v, length, 0, j - 1);
        lemma_nth_trans_step(v, length, j - 1);
        lemma_next_trans_props(v, length, nth_trans(v, length, j - 1) + 1);
        assert(forall|k: int| pstart <= k <= t_j ==> #[trigger] v[k] == v[t_j]);
        assert(pstart >= 4);
    }
    let out2 = write_range(out0, pstart, t_j as int, dist);
    assert(out2.len() == out0.len());
    if t_j == mx {
        let out = sub_walk(reg, out0, j, pstart);
        assert(out == out2);
        assert forall|t: int|
            pstart <= t <= mx implies #[trigger] out[t] == v[if t < 3 { 3int } else { t }] by {
            assert(out2[t] == dist);
            if t < 3 {
                assert(v[3] == v[t_j]);
            } else {
                assert(v[t] == v[t_j]);
            }
        }
        assert forall|t: int|
            !(pstart <= t <= mx) && 0 <= t < out0.len() implies #[trigger] out[t] == out0[t] by {
            assert(out2[t] == out0[t]);
        }
        assert(sub_walk_fills(prev, v, length, out0, j, pstart));
    } else {
        // the walk continues: this entry is not the last one
        assert(t_j < mx) by {
            if nth_trans(v, length, 7) <= length {
                if j < 7 {
                    assert(nth_trans(v, length, j) < nth_trans(v, length, 7)) by {
                        lemma_nth_trans_step(v, length, j);
                        lemma_nth_trans_mono(v, length, j + 1, 7);
                    }
                }
            }
        }
        assert(j < 7) by {
            if j == 7 {
                assert(mx == t_j);
            }
        }
        lemma_nth_trans_step(v, length, j);
        lemma_walk_correct(prev, v, length, out2, j + 1);
        assert(sub_walk_fills(prev, v, length, out2, j + 1, t_j + 1)) by {
            assert((if j + 1 == 0 { 0int } else { nth_trans(v, length, j + 1 - 1) + 1 }) == t_j
                + 1);
        }
        let out = sub_walk(reg, out2, j + 1, t_j + 1);
        assert(out.len() == out2.len());
        assert(sub_walk(reg, out0, j, pstart) == out);
        assert forall|t: int|
            pstart <= t <= mx implies #[trigger] sub_walk(reg, out0, j, pstart)[t] == v[if t < 3 {
            3int
        } else {
            t
        }] by {
            if t <= t_j {
                assert(out2[t] == dist);
                assert(out[t] == out2[t]);
                if t < 3 {
                    assert(v[3] == v[t_j]);
                } else {
                    assert(v[t] == v[t_j]);
                }
            } else {
                assert(out[t] == v[if t < 3 { 3int } else { t }]);
            }
        }
        assert forall|t: int|
            !(pstart <= t <= mx) && 0 <= t < out0.len() implies #[trigger] sub_walk(
            reg,
            out0,
            j,
            pstart,
        )[t] == out0[t] by {
            assert(out2[t] == out0[t]);
            assert(out[t] == out2[t]);
        }
        assert(sub_walk_fills(prev, v, length, out0, j, pstart));
    }
}

/// Cache of longest-match answers for every position of one block.
pub struct ZopfliLongestMatchCache {
    length: Vec<u16>,
    dist: Vec<u16>,
    sublen: Vec<u8>,
}

impl ZopfliLongestMatchCache {
    pub closed spec fn wf(&self) -> bool {
        &&& self.dist@.len() == self.length@.len()
        &&& self.sublen@.len() == 24 * self.length@.len()
    }

    pub closed spec fn blocksize(&self) -> int {
        self.length@.len() as int
    }

    /// The 24 sublen bytes belonging to position `p`.
    pub closed spec fn region(&self, p: int) -> Seq<u8> {
        self.sublen@.subrange(24 * p, 24 * p + 24)
    }

    pub closed spec fn spec_lengths(&self) -> Seq<u16> {
        self.length@
    }

    pub closed spec fn spec_dists(&self) -> Seq<u16> {
        self.dist@
    }

    pub closed spec fn spec_length_at(&self, p: int) -> u16 {
        self.length@[p]
    }

    pub closed spec fn spec_dist_at(&self, p: int) -> u16 {
        self.dist@[p]
    }

    /// A fresh cache: every position holds the "not yet filled" sentinel
    /// `length == 1 && dist == 0`, and no sublen bytes.
    pub fn new(blocksize: usize) -> (r: Self)
        requires
            blocksize <= usize::MAX / 24,
        ensures
            r.wf(),
            r.blocksize() == blocksize,
            forall|p: int| 0 <= p < blocksize ==> r.spec_length_at(p) == 1,
            forall|p: int| 0 <= p < blocksize ==> r.spec_dist_at(p) == 0,
            forall|p: int, b: int|
                0 <= p < blocksize && 0 <= b < 24 ==> r.region(p)[b] == 0,
    {
        let mut length: Vec<u16> = Vec::new();
        let mut dist: Vec<u16> = Vec::new();
        let mut sublen: Vec<u8> = Vec::new();
        let mut i: usize = 0;
        while i < blocksize
            invariant
                i <= blocksize,
                length.len() == i,
                dist.len() == i,
                forall|p: int| 0 <= p < i ==> length[p] == 1,
                forall|p: int| 0 <= p < i ==> dist[p] == 0,
            decreases blocksize - i,
        {
            length.push(1);
            dist.push(0);
            i += 1;
        }
        let mut b: usize = 0;
        while b < 24 * blocksize
            invariant
                blocksize <= usize::MAX / 24,
                b <= 24 * blocksize,
                sublen.len() == b,
                forall|x: int| 0 <= x < b ==> sublen[x] == 0,
            decreases 24 * blocksize - b,
        {
            sublen.push(0);
            b += 1;
        }
        ZopfliLongestMatchCache { length, dist, sublen }
    }

    /// Best match length cached for `pos` (1 when not yet filled).
    /// Every position of a well-formed cache owns exactly 24 sublen bytes;
    /// this lets callers apply the encode and round-trip lemmas to a region
    /// they have only read.
    pub proof fn lemma_region_len(&self, p: int)
        requires
            self.wf(),
            0 <= p < self.blocksize(),
        ensures
            self.region(p).len() == 24,
    {
        assert(24 * p + 24 <= 24 * self.blocksize());
    }

    pub fn length_at(&self, pos: usize) -> (r: u16)
        requires
            self.wf(),
            pos < self.blocksize(),
        ensures
            r == self.spec_length_at(pos as int),
    {
        self.length[pos]
    }

    /// Best match distance cached for `pos` (0 when not yet filled).
    pub fn dist_at(&self, pos: usize) -> (r: u16)
        requires
            self.wf(),
            pos < self.blocksize(),
        ensures
            r == self.spec_dist_at(pos as int),
    {
        self.dist[pos]
    }

    /// Length up to which sub-length distances are cached at `pos`, 0 when
    /// none are.
    pub fn max_cached_sublen(&self, pos: usize) -> (r: usize)
        requires
            self.wf(),
            pos < self.blocksize(),
        ensures
            r == sub_max(self.region(pos as int)),
    {
        let total = self.sublen.len();
        proof {
            assert(24 * (pos as int) + 24 <= 24 * self.blocksize());
        }
        let start = ZOPFLI_CACHE_LENGTH * pos * 3;
        if self.sublen[start + 1] == 0 && self.sublen[start + 2] == 0 {
            return 0;
        }
        self.sublen[start + (ZOPFLI_CACHE_LENGTH - 1) * 3] as usize + 3
    }

    /// Compacts the sub-length table `sublen[3..=length]` into the cache
    /// entry of `pos`: one entry per distance transition, at most 8. With
    /// `length < 3` there is nothing to cache and the call does nothing.
    #[verifier::rlimit(100)]
    pub fn sublen_to_cache(&mut self, sublen: &Vec<u16>, pos: usize, length: usize)
        requires
            old(self).wf(),
            pos < old(self).blocksize(),
            length <= 258,
            length >= 3 ==> sub_valid(sublen@, length as int),
        ensures
            final(self).wf(),
            final(self).blocksize() == old(self).blocksize(),
            final(self).spec_lengths() == old(self).spec_lengths(),
            final(self).spec_dists() == old(self).spec_dists(),
            length < 3 ==> final(self).region(pos as int) == old(self).region(pos as int),
            length >= 3 ==> final(self).region(pos as int) == sub_encode(
                old(self).region(pos as int),
                sublen@,
                length as int,
            ),
            forall|q: int|
                0 <= q < old(self).blocksize() && q != pos ==> final(self).region(q) == old(
                    self,
                ).region(q),
    {
        if length < 3 {
            return ;
        }
        let ghost v = sublen@;
        let ghost vl = length as int;
        let ghost prev = old(self).region(pos as int);
        let total = self.sublen.len();
        proof {
            assert(24 * (pos as int) + 24 <= 24 * self.blocksize());
            assert(prev.len() == 24);
        }
        let start = ZOPFLI_CACHE_LENGTH * pos * 3;
        let mut i: usize = 3;
        let mut j: usize = 0;
        let mut bestlength: usize = 0;
        proof {
            lemma_next_trans_props(v, vl, 3);
        }
        while i <= length
            invariant_except_break
                self.wf(),
                old(self).wf(),
                self.blocksize() == old(self).blocksize(),
                self.length@ == old(self).length@,
                self.dist@ == old(self).dist@,
                pos < self.blocksize(),
                start == 24 * pos,
                self.sublen@.len() == total,
                start + 24 <= total,
                prev.len() == 24,
                sub_valid(v, vl),
                v == sublen@,
                vl == length,
                3 <= length <= 258,
                sublen.len() > length,
                3 <= i <= length + 1,
                j <= 7,
                nth_trans(v, vl, j as int) == next_trans(v, vl, i as int),
                forall|j2: int| 0 <= j2 < j ==> #[trigger] nth_trans(v, vl, j2) <= vl,
                j > 0 ==> bestlength == nth_trans(v, vl, j as int - 1),
                forall|j2: int|
                    0 <= j2 < j ==> #[trigger] entry_saved(
                        self.sublen@,
                        24 * (pos as int),
                        prev,
                        v,
                        vl,
                        j2,
                    ),
                forall|b: int|
                    3 * (j as int) <= b < 24 ==> self.sublen@[24 * pos + b] == prev[b],
                forall|x: int|
                    0 <= x < self.sublen@.len() && !(24 * pos <= x < 24 * pos + 24)
                        ==> self.sublen@[x] == old(self).sublen@[x],
            ensures
                self.wf(),
                self.blocksize() == old(self).blocksize(),
                self.length@ == old(self).length@,
                self.dist@ == old(self).dist@,
                start == 24 * pos,
                self.sublen@.len() == total,
                start + 24 <= total,
                prev.len() == 24,
                j <= 8,
                forall|j2: int|
                    0 <= j2 < j ==> #[trigger] entry_saved(
                        self.sublen@,
                        24 * (pos as int),
                        prev,
                        v,
                        vl,
                        j2,
                    ),
                forall|b: int|
                    3 * (j as int) <= b < 24 ==> self.sublen@[24 * pos + b] == prev[b],
                forall|x: int|
                    0 <= x < self.sublen@.len() && !(24 * pos <= x < 24 * pos + 24)
                        ==> self.sublen@[x] == old(self).sublen@[x],
                forall|j2: int| 0 <= j2 < j ==> #[trigger] nth_trans(v, vl, j2) <= vl,
                j == 8 || (j <= 7 && nth_trans(v, vl, j as int) == next_trans(v, vl, vl + 1) && (j
                    > 0 ==> bestlength == nth_trans(v, vl, j as int - 1))),
            decreases length + 1 - i,
        {
            if i == length || sublen[i] != sublen[i + 1] {
                proof {
                    assert(next_trans(v, vl, i as int) == i);
                    lemma_next_trans_props(v, vl, 3);
                    lemma_nth_trans_mono(v, vl, 0, j as int);
                    assert((3 * (j as int)) / 3 == j && (3 * (j as int) + 1) / 3 == j && (3 * (
                    j as int) + 2) / 3 == j);
                }
                let ghost s0 = self.sublen@;
                let d = sublen[i];
                self.sublen.set(start + j * 3, (i - 3) as u8);
                self.sublen.set(start + j * 3 + 1, (d % 256) as u8);
                self.sublen.set(start + j * 3 + 2, (d / 256) as u8);
                bestlength = i;
                proof {
                    assert((3 * (j as int)) % 3 == 0 && (3 * (j as int) + 1) % 3 == 1 && (3 * (
                    j as int) + 2) % 3 == 2);
                    assert(sub_encode(prev, v, vl)[3 * (j as int)] == (i - 3) as u8);
                    assert(sub_encode(prev, v, vl)[3 * (j as int) + 1] == (v[i as int] as int
                        % 256) as u8);
                    assert(sub_encode(prev, v, vl)[3 * (j as int) + 2] == (v[i as int] as int
                        / 256) as u8);
                    assert(entry_saved(self.sublen@, 24 * (pos as int), prev, v, vl, j as int));
                    assert forall|j2: int| 0 <= j2 < j + 1 implies #[trigger] entry_saved(
                        self.sublen@,
                        24 * (pos as int),
                        prev,
                        v,
                        vl,
                        j2,
                    ) by {
                        if j2 < j {
                            assert(entry_saved(s0, 24 * (pos as int), prev, v, vl, j2));
                        }
                    }
                }
                j += 1;
                if j >= ZOPFLI_CACHE_LENGTH {
                    break ;
                }
                proof {
                    lemma_nth_trans_step(v, vl, j as int - 1);
                    assert(nth_trans(v, vl, j as int) == next_trans(v, vl, i as int + 1));
                }
            } else {
                proof {
                    assert(next_trans(v, vl, i as int) == next_trans(v, vl, i as int + 1));
                }
            }
            i += 1;
        }
        let ghost s_loop = self.sublen@;
        if j < ZOPFLI_CACHE_LENGTH {
            // fewer than 8 entries were needed: the loop ran to the end, so
            // the last entry recorded the best length itself
            proof {
                assert(next_trans(v, vl, vl + 1) == vl + 1);
                assert(j > 0) by {
                    lemma_next_trans_props(v, vl, 3);
                }
                assert(nth_trans(v, vl, j as int - 1) == vl) by {
                    if nth_trans(v, vl, j as int - 1) < vl {
                        lemma_next_trans_props(v, vl, nth_trans(v, vl, j as int - 1) + 1);
                    }
                }
                assert(bestlength == length);
                assert(nth_trans(v, vl, 7) > vl) by {
                    lemma_nth_trans_mono(v, vl, j as int, 7);
                }
            }
            self.sublen.set(start + (ZOPFLI_CACHE_LENGTH - 1) * 3, (bestlength - 3) as u8);
        }
        proof {
            lemma_encode_max(prev, v, vl);
            assert forall|b: int|
                0 <= b < 24 implies self.sublen@[24 * pos + b] == sub_encode(prev, v, vl)[b] by {
                let j2 = b / 3;
                assert(3 * j2 <= b < 3 * j2 + 3);
                assert(b == 3 * j2 || b == 3 * j2 + 1 || b == 3 * j2 + 2);
                if j2 < j {
                    assert(entry_saved(s_loop, 24 * (pos as int), prev, v, vl, j2));
                    assert(j == 8 || 3 * j2 + 2 < 21);
                } else if b == 21 {
                    assert(nth_trans(v, vl, 7) > vl) by {
                        lemma_nth_trans_mono(v, vl, j as int, 7);
                    }
                } else {
                    assert(nth_trans(v, vl, j2) > vl) by {
                        lemma_nth_trans_mono(v, vl, j as int, j2);
                    }
                }
            }
            assert(final(self).region(pos as int) =~= sub_encode(prev, v, vl));
            assert forall|q: int|
                0 <= q < old(self).blocksize() && q != pos implies final(self).region(q) == old(
                self,
            ).region(q) by {
                assert(final(self).region(q) =~= old(self).region(q));
            }
        }
    }

    /// Expands the cache entry of `pos` back into a sub-length table: fills
    /// `sublen[..]` up to the maximum cached sub-length with the cached
    /// distances. With `length < 3` nothing was cached and nothing is
    /// written. Together with `sublen_to_cache` this recovers the distances
    /// of every sub-length from 3 to `max_cached_sublen` exactly (see
    /// `lemma_cache_round_trip`).
    #[verifier::rlimit(100)]
    pub fn cache_to_sublen(&self, pos: usize, length: usize, sublen: &mut Vec<u16>)
        requires
            self.wf(),
            pos < self.blocksize(),
            old(sublen).len() >= 259,
        ensures
            final(sublen).len() == old(sublen).len(),
            length < 3 ==> final(sublen)@ == old(sublen)@,
            length >= 3 ==> final(sublen)@ == sub_walk(self.region(pos as int), old(sublen)@, 0, 0),
    {
        if length < 3 {
            return ;
        }
        let ghost reg = self.region(pos as int);
        let total = self.sublen.len();
        proof {
            assert(24 * (pos as int) + 24 <= 24 * self.blocksize());
        }
        let maxlength = self.max_cached_sublen(pos);
        let start = ZOPFLI_CACHE_LENGTH * pos * 3;
        let mut prevlength: usize = 0;
        let mut j: usize = 0;
        while j < ZOPFLI_CACHE_LENGTH
            invariant_except_break
                self.wf(),
                pos < self.blocksize(),
                start == 24 * pos,
                self.sublen@.len() == total,
                start + 24 <= total,
                reg == self.region(pos as int),
                maxlength == sub_max(reg),
                sublen.len() == old(sublen).len() >= 259,
                j <= 8,
                prevlength <= 259,
                sub_walk(reg, sublen@, j as int, prevlength as int) == sub_walk(
                    reg,
                    old(sublen)@,
                    0,
                    0,
                ),
            ensures
                sublen.len() == old(sublen).len(),
                sublen@ == sub_walk(reg, old(sublen)@, 0, 0),
            decreases 8 - j,
        {
            let len_b = self.sublen[start + j * 3] as usize + 3;
            let dist = self.sublen[start + j * 3 + 1] as u16 + 256 * (self.sublen[start + j * 3
                + 2] as u16);
            proof {
                assert(reg[3 * (j as int)] == self.sublen@[24 * pos + 3 * (j as int)]);
                assert(reg[3 * (j as int) + 1] == self.sublen@[24 * pos + 3 * (j as int) + 1]);
                assert(reg[3 * (j as int) + 2] == self.sublen@[24 * pos + 3 * (j as int) + 2]);
            }
            let ghost snapshot = sublen@;
            let mut t = prevlength;
            while t <= len_b
                invariant
                    prevlength <= t,
                    len_b <= 258,
                    t <= 259,
                    prevlength > len_b ==> t == prevlength,
                    prevlength <= len_b ==> t <= len_b + 1,
                    sublen.len() == snapshot.len() >= 259,
                    forall|x: int| prevlength <= x < t ==> sublen@[x] == dist,
                    forall|x: int|
                        0 <= x < snapshot.len() && !(prevlength <= x < t) ==> sublen@[x]
                            == snapshot[x],
                decreases len_b + 1 - t,
            {
                sublen.set(t, dist);
                t += 1;
            }
            proof {
                assert(sublen@ =~= write_range(snapshot, prevlength as int, len_b as int, dist));
                assert(sub_walk(reg, snapshot, j as int, prevlength as int) == if len_b
                    == sub_max(reg) {
                    sublen@
                } else {
                    sub_walk(reg, sublen@, j as int + 1, len_b as int + 1)
                });
            }
            if len_b == maxlength {
                break ;
            }
            prevlength = len_b + 1;
            j += 1;
        }
    }
}

} // verus!
