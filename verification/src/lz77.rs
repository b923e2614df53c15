//! LZ77 token store: the ordered litlen/dist pairs of one block, together
//! with cumulative per-chunk histograms over the literal/length and distance
//! alphabets, so that the symbol counts of any token range can be
//! reconstructed without walking the whole store.
//!
//! The histogram arrays grow by one whole chunk (288 literal/length slots,
//! 32 distance slots) whenever the token count crosses a chunk boundary; the
//! slots of chunk `c` always hold the symbol counts of all tokens up to the
//! end of that chunk (or up to the present end of the store).

use vstd::prelude::*;
use crate::util::ZOPFLI_NUM_LL;
use crate::util::ZOPFLI_NUM_D;
use crate::symbols::spec_length_symbol;
use crate::symbols::spec_dist_symbol;
use crate::symbols::length_symbol;
use crate::symbols::dist_symbol;
use crate::cache::ZopfliLongestMatchCache;

verus! {

/// A well-formed token: a literal byte, or a match with a DEFLATE-represent-
/// able length and distance.
pub open spec fn token_valid(litlen: u16, dist: u16) -> bool {
    if dist == 0 {
        litlen <= 255
    } else {
        3 <= litlen <= 258 && 1 <= dist <= 32768
    }
}

/// Literal/length alphabet symbol of a token.
pub open spec fn spec_ll_symbol(litlen: u16, dist: u16) -> int {
    if dist == 0 {
        litlen as int
    } else {
        spec_length_symbol(litlen as int)
    }
}

/// Number of tokens in `[a, b)` whose literal/length symbol is `s`.
pub open spec fn ll_count(lit: Seq<u16>, dst: Seq<u16>, a: int, b: int, s: int) -> int
    decreases b - a,
{
    if b <= a {
        0
    } else {
        ll_count(lit, dst, a, b - 1, s) + if spec_ll_symbol(lit[b - 1], dst[b - 1]) == s {
            1int
        } else {
            0int
        }
    }
}

/// Number of match tokens in `[a, b)` whose distance symbol is `s` (literal
/// tokens carry no distance and are never counted).
pub open spec fn d_count(lit: Seq<u16>, dst: Seq<u16>, a: int, b: int, s: int) -> int
    decreases b - a,
{
    if b <= a {
        0
    } else {
        d_count(lit, dst, a, b - 1, s) + if dst[b - 1] != 0 && spec_dist_symbol(
            dst[b - 1] as int,
        ) == s {
            1int
        } else {
            0int
        }
    }
}

pub proof fn lemma_ll_count_split(lit: Seq<u16>, dst: Seq<u16>, a: int, m: int, b: int, s: int)
    requires
        a <= m <= b,
    ensures
        ll_count(lit, dst, a, b, s) == ll_count(lit, dst, a, m, s) + ll_count(lit, dst, m, b, s),
    decreases b - m,
{
    if b > m {
        lemma_ll_count_split(lit, dst, a, m, b - 1, s);
    }
}

pub proof fn lemma_ll_count_bound(lit: Seq<u16>, dst: Seq<u16>, a: int, b: int, s: int)
    ensures
        0 <= ll_count(lit, dst, a, b, s),
        b >= a ==> ll_count(lit, dst, a, b, s) <= b - a,
    decreases b - a,
{
    if b > a {
        lemma_ll_count_bound(lit, dst, a, b - 1, s);
    }
}

proof fn lemma_ll_count_same(
    lit: Seq<u16>,
    dst: Seq<u16>,
    lit2: Seq<u16>,
    dst2: Seq<u16>,
    a: int,
    b: int,
    s: int,
)
    requires
        forall|i: int| a <= i < b ==> lit[i] == lit2[i] && dst[i] == dst2[i],
    ensures
        ll_count(lit, dst, a, b, s) == ll_count(lit2, dst2, a, b, s),
    decreases b - a,
{
    if b > a {
        lemma_ll_count_same(lit, dst, lit2, dst2, a, b - 1, s);
    }
}

pub proof fn lemma_d_count_split(lit: Seq<u16>, dst: Seq<u16>, a: int, m: int, b: int, s: int)
    requires
        a <= m <= b,
    ensures
        d_count(lit, dst, a, b, s) == d_count(lit, dst, a, m, s) + d_count(lit, dst, m, b, s),
    decreases b - m,
{
    if b > m {
        lemma_d_count_split(lit, dst, a, m, b - 1, s);
    }
}

pub proof fn lemma_d_count_bound(lit: Seq<u16>, dst: Seq<u16>, a: int, b: int, s: int)
    ensures
        0 <= d_count(lit, dst, a, b, s),
        b >= a ==> d_count(lit, dst, a, b, s) <= b - a,
    decreases b - a,
{
    if b > a {
        lemma_d_count_bound(lit, dst, a, b - 1, s);
    }
}

proof fn lemma_d_count_same(
    lit: Seq<u16>,
    dst: Seq<u16>,
    lit2: Seq<u16>,
    dst2: Seq<u16>,
    a: int,
    b: int,
    s: int,
)
    requires
        forall|i: int| a <= i < b ==> lit[i] == lit2[i] && dst[i] == dst2[i],
    ensures
        d_count(lit, dst, a, b, s) == d_count(lit2, dst2, a, b, s),
    decreases b - a,
{
    if b > a {
        lemma_d_count_same(lit, dst, lit2, dst2, a, b - 1, s);
    }
}

pub open spec fn spec_min(a: int, b: int) -> int {
    if a <= b {
        a
    } else {
        b
    }
}

/// How many histogram chunks of width `m` cover `n` tokens.
pub open spec fn spec_chunks(n: int, m: int) -> int {
    if n <= 0 {
        0
    } else {
        (n - 1) / m + 1
    }
}

proof fn lemma_chunk_of(nn: int, p: int)
    requires
        0 <= p < nn,
    ensures
        0 <= p / 288 < spec_chunks(nn, 288),
        0 <= p / 32 < spec_chunks(nn, 32),
    decreases 0int,
{
    assert(0 <= p / 288 < spec_chunks(nn, 288)) by (nonlinear_arith)
        requires
            0 <= p < nn,
    ;
    assert(0 <= p / 32 < spec_chunks(nn, 32)) by (nonlinear_arith)
        requires
            0 <= p < nn,
    ;
}

/// Slot `s` of literal/length chunk `c` holds the cumulative count up to the
/// end of the chunk, capped at the current store size `n`.
pub open spec fn ll_slot_ok(llc: Seq<usize>, lit: Seq<u16>, dst: Seq<u16>, n: int, c: int, s: int) -> bool {
    llc[288 * c + s] == ll_count(lit, dst, 0, spec_min(n, 288 * c + 288), s)
}

pub open spec fn d_slot_ok(dc: Seq<usize>, lit: Seq<u16>, dst: Seq<u16>, n: int, c: int, s: int) -> bool {
    dc[32 * c + s] == d_count(lit, dst, 0, spec_min(n, 32 * c + 32), s)
}

/// Lit/length and dist pairs of the LZ77 token stream of one block, with
/// rolling cumulative histograms.
pub struct Lz77Store {
    pub litlens: Vec<u16>,
    pub dists: Vec<u16>,
    pub pos: Vec<usize>,
    pub ll_symbol: Vec<u16>,
    pub d_symbol: Vec<u16>,
    pub ll_counts: Vec<usize>,
    pub d_counts: Vec<usize>,
}

impl Lz77Store {
    pub open spec fn size(&self) -> int {
        self.litlens@.len() as int
    }

    /// Every stored token is a valid literal or match.
    pub open spec fn tokens_valid(&self) -> bool {
        &&& self.dists@.len() == self.litlens@.len()
        &&& forall|i: int|
            0 <= i < self.litlens@.len() ==> token_valid(
                #[trigger] self.litlens@[i],
                self.dists@[i],
            )
    }

    pub open spec fn positions(&self) -> Seq<usize> {
        self.pos@
    }

    pub open spec fn wf(&self) -> bool {
        &&& self.tokens_valid()
        &&& self.pos@.len() == self.size()
        &&& self.ll_symbol@.len() == self.size()
        &&& self.d_symbol@.len() == self.size()
        &&& forall|i: int|
            0 <= i < self.size() ==> #[trigger] self.ll_symbol@[i] == spec_ll_symbol(
                self.litlens@[i],
                self.dists@[i],
            )
        &&& forall|i: int|
            0 <= i < self.size() ==> #[trigger] self.d_symbol@[i] as int == (if self.dists@[i]
                != 0 {
                spec_dist_symbol(self.dists@[i] as int)
            } else {
                0
            })
        &&& self.ll_counts@.len() == 288 * spec_chunks(self.size(), 288)
        &&& self.d_counts@.len() == 32 * spec_chunks(self.size(), 32)
        &&& forall|c: int, s: int|
            0 <= c < spec_chunks(self.size(), 288) && 0 <= s < 288 ==> #[trigger] ll_slot_ok(
                self.ll_counts@,
                self.litlens@,
                self.dists@,
                self.size(),
                c,
                s,
            )
        &&& forall|c: int, s: int|
            0 <= c < spec_chunks(self.size(), 32) && 0 <= s < 32 ==> #[trigger] d_slot_ok(
                self.d_counts@,
                self.litlens@,
                self.dists@,
                self.size(),
                c,
                s,
            )
    }

    pub fn new() -> (r: Lz77Store)
        ensures
            r.wf(),
            r.size() == 0,
            r.positions().len() == 0,
    {
        Lz77Store {
            litlens: Vec::new(),
            dists: Vec::new(),
            pos: Vec::new(),
            ll_symbol: Vec::new(),
            d_symbol: Vec::new(),
            ll_counts: Vec::new(),
            d_counts: Vec::new(),
        }
    }

    /// Appends one token. When the previous size sat on a chunk boundary,
    /// new histogram slots are first seeded from the previous chunk (zeros
    /// for the first); then the slot of the token's symbol in the current
    /// chunk is incremented.
    #[verifier::rlimit(100)]
    pub fn lit_len_dist(&mut self, length: u16, dist: u16, pos: usize)
        requires
            old(self).wf(),
            token_valid(length, dist),
            old(self).size() < usize::MAX - 288,
        ensures
            final(self).wf(),
            final(self).litlens@ == old(self).litlens@.push(length),
            final(self).dists@ == old(self).dists@.push(dist),
            final(self).positions() == old(self).positions().push(pos),
    {
        let ghost lit0 = self.litlens@;
        let ghost dst0 = self.dists@;
        let origsize = self.litlens.len();
        let ghost n = origsize as int;
        let llstart = ZOPFLI_NUM_LL * (origsize / ZOPFLI_NUM_LL);
        let dstart = ZOPFLI_NUM_D * (origsize / ZOPFLI_NUM_D);

        if origsize % ZOPFLI_NUM_LL == 0 {
            // seed a fresh literal/length chunk with the cumulative counts so far
            let mut k: usize = 0;
            while k < ZOPFLI_NUM_LL
                invariant
                    k <= 288,
                    origsize % 288 == 0,
                    origsize == llstart,
                    n == origsize,
                    n < usize::MAX - 288,
                    lit0 == self.litlens@,
                    dst0 == self.dists@,
                    old(self).litlens@ == lit0,
                    old(self).dists@ == dst0,
                    old(self).size() == n,
                    old(self).wf(),
                    self.pos@ == old(self).pos@,
                    self.ll_symbol@ == old(self).ll_symbol@,
                    self.d_symbol@ == old(self).d_symbol@,
                    self.d_counts@ == old(self).d_counts@,
                    self.ll_counts@.len() == 288 * spec_chunks(n, 288) + k,
                    forall|x: int|
                        0 <= x < 288 * spec_chunks(n, 288) ==> self.ll_counts@[x] == old(
                            self,
                        ).ll_counts@[x],
                    forall|x: int|
                        288 * spec_chunks(n, 288) <= x < self.ll_counts@.len()
                            ==> self.ll_counts@[x] == ll_count(
                            lit0,
                            dst0,
                            0,
                            n,
                            x - 288 * spec_chunks(n, 288),
                        ),
                decreases 288 - k,
            {
                if origsize == 0 {
                    proof {
                        lemma_ll_count_bound(lit0, dst0, 0, 0, k as int);
                    }
                    self.ll_counts.push(0);
                } else {
                    proof {
                        assert(spec_chunks(n, 288) == n / 288) by {
                            assert(n % 288 == 0 && n > 0);
                            assert((n - 1) / 288 + 1 == n / 288) by (nonlinear_arith)
                                requires
                                    n > 0,
                                    n % 288 == 0,
                            ;
                        }
                        assert(n >= 288) by (nonlinear_arith)
                            requires
                                n > 0,
                                n % 288 == 0,
                        ;
                        assert(0 <= n / 288 - 1 < spec_chunks(n, 288));
                        assert(ll_slot_ok(
                            old(self).ll_counts@,
                            old(self).litlens@,
                            old(self).dists@,
                            old(self).size(),
                            n / 288 - 1,
                            k as int,
                        ));
                        assert(ll_slot_ok(old(self).ll_counts@, lit0, dst0, n, n / 288 - 1, k as int));
                        assert(288 * (n / 288 - 1) + k == n - 288 + k) by (nonlinear_arith)
                            requires
                                n > 0,
                                n % 288 == 0,
                        ;
                        assert(spec_min(n, 288 * (n / 288 - 1) + 288) == n) by (nonlinear_arith)
                            requires
                                n > 0,
                                n % 288 == 0,
                        ;
                    }
                    let last_histogram_value = self.ll_counts[origsize - ZOPFLI_NUM_LL + k];
                    self.ll_counts.push(last_histogram_value);
                }
                k += 1;
            }
        }

        let ghost llc_seeded = self.ll_counts@;
        if origsize % ZOPFLI_NUM_D == 0 {
            // seed a fresh distance chunk likewise
            let mut k: usize = 0;
            while k < ZOPFLI_NUM_D
                invariant
                    k <= 32,
                    origsize % 32 == 0,
                    origsize == dstart,
                    n == origsize,
                    n < usize::MAX - 288,
                    lit0 == self.litlens@,
                    dst0 == self.dists@,
                    old(self).litlens@ == lit0,
                    old(self).dists@ == dst0,
                    old(self).size() == n,
                    old(self).wf(),
                    self.pos@ == old(self).pos@,
                    self.ll_symbol@ == old(self).ll_symbol@,
                    self.d_symbol@ == old(self).d_symbol@,
                    self.ll_counts@ == llc_seeded,
                    self.d_counts@.len() == 32 * spec_chunks(n, 32) + k,
                    forall|x: int|
                        0 <= x < 32 * spec_chunks(n, 32) ==> self.d_counts@[x] == old(
                            self,
                        ).d_counts@[x],
                    forall|x: int|
                        32 * spec_chunks(n, 32) <= x < self.d_counts@.len() ==> self.d_counts@[x]
                            == d_count(lit0, dst0, 0, n, x - 32 * spec_chunks(n, 32)),
                decreases 32 - k,
            {
                if origsize == 0 {
                    proof {
                        lemma_d_count_bound(lit0, dst0, 0, 0, k as int);
                    }
                    self.d_counts.push(0);
                } else {
                    proof {
                        assert(spec_chunks(n, 32) == n / 32) by {
                            assert((n - 1) / 32 + 1 == n / 32) by (nonlinear_arith)
                                requires
                                    n > 0,
                                    n % 32 == 0,
                            ;
                        }
                        assert(n >= 32) by (nonlinear_arith)
                            requires
                                n > 0,
                                n % 32 == 0,
                        ;
                        assert(0 <= n / 32 - 1 < spec_chunks(n, 32));
                        assert(d_slot_ok(
                            old(self).d_counts@,
                            old(self).litlens@,
                            old(self).dists@,
                            old(self).size(),
                            n / 32 - 1,
                            k as int,
                        ));
                        assert(d_slot_ok(old(self).d_counts@, lit0, dst0, n, n / 32 - 1, k as int));
                        assert(32 * (n / 32 - 1) + k == n - 32 + k) by (nonlinear_arith)
                            requires
                                n > 0,
                                n % 32 == 0,
                        ;
                        assert(spec_min(n, 32 * (n / 32 - 1) + 32) == n) by (nonlinear_arith)
                            requires
                                n > 0,
                                n % 32 == 0,
                        ;
                    }
                    let last_histogram_value = self.d_counts[origsize - ZOPFLI_NUM_D + k];
                    self.d_counts.push(last_histogram_value);
                }
                k += 1;
            }
        }

        self.litlens.push(length);
        self.dists.push(dist);
        self.pos.push(pos);

        let ghost lit1 = self.litlens@;
        let ghost dst1 = self.dists@;
        let ghost llc_pre = self.ll_counts@;
        let ghost dc_pre = self.d_counts@;
        proof {
            lemma_append_chunk_facts(llc_pre, dc_pre, lit0, dst0, n);
            // the current chunk's slots hold the cumulative counts over all
            // n existing tokens, whether freshly seeded or carried in wf
            assert forall|s: int|
                0 <= s < 288 implies #[trigger] llc_pre[288 * (n / 288) + s] == ll_count(
                lit0,
                dst0,
                0,
                n,
                s,
            ) by {
                if origsize % ZOPFLI_NUM_LL == 0 {
                    assert(spec_chunks(n, 288) == n / 288) by (nonlinear_arith)
                        requires
                            n >= 0,
                            n % 288 == 0,
                    ;
                    assert(llc_pre[288 * spec_chunks(n, 288) + s] == ll_count(
                        lit0,
                        dst0,
                        0,
                        n,
                        s,
                    ));
                } else {
                    assert(ll_slot_ok(llc_pre, lit0, dst0, n, n / 288, s));
                    assert(spec_min(n, 288 * (n / 288) + 288) == n);
                }
            }
            assert forall|s: int|
                0 <= s < 32 implies #[trigger] dc_pre[32 * (n / 32) + s] == d_count(
                lit0,
                dst0,
                0,
                n,
                s,
            ) by {
                if origsize % ZOPFLI_NUM_D == 0 {
                    assert(spec_chunks(n, 32) == n / 32) by (nonlinear_arith)
                        requires
                            n >= 0,
                            n % 32 == 0,
                    ;
                    assert(dc_pre[32 * spec_chunks(n, 32) + s] == d_count(lit0, dst0, 0, n, s));
                } else {
                    assert(d_slot_ok(dc_pre, lit0, dst0, n, n / 32, s));
                    assert(spec_min(n, 32 * (n / 32) + 32) == n);
                }
            }
        }

        if dist == 0 {
            self.ll_symbol.push(length);
            self.d_symbol.push(0);
            proof {
                lemma_append_chunk_facts(self.ll_counts@, self.d_counts@, lit0, dst0, n);
                lemma_ll_count_bound(lit0, dst0, 0, n, length as int);
                lemma_ll_count_same(lit0, dst0, lit1, dst1, 0, n, length as int);
            }
            let c = self.ll_counts[llstart + length as usize];
            self.ll_counts.set(llstart + length as usize, c + 1);
        } else {
            let lsym = length_symbol(length);
            let dsym = dist_symbol(dist);
            self.ll_symbol.push(lsym);
            self.d_symbol.push(dsym);
            proof {
                lemma_append_chunk_facts(self.ll_counts@, self.d_counts@, lit0, dst0, n);
                lemma_ll_count_bound(lit0, dst0, 0, n, lsym as int);
                lemma_ll_count_same(lit0, dst0, lit1, dst1, 0, n, lsym as int);
                lemma_d_count_bound(lit0, dst0, 0, n, dsym as int);
                lemma_d_count_same(lit0, dst0, lit1, dst1, 0, n, dsym as int);
            }
            let c = self.ll_counts[llstart + lsym as usize];
            self.ll_counts.set(llstart + lsym as usize, c + 1);
            let c2 = self.d_counts[dstart + dsym as usize];
            self.d_counts.set(dstart + dsym as usize, c2 + 1);
        }
        proof {
            let sym = spec_ll_symbol(length, dist);
            assert forall|s: int|
                0 <= s < 288 implies #[trigger] self.ll_counts@[288 * (n / 288) + s] == ll_count(
                lit1,
                dst1,
                0,
                n + 1,
                s,
            ) by {
                lemma_ll_count_same(lit0, dst0, lit1, dst1, 0, n, s);
                assert(llc_pre[288 * (n / 288) + s] == ll_count(lit0, dst0, 0, n, s));
            }
            assert forall|s: int|
                0 <= s < 32 implies #[trigger] self.d_counts@[32 * (n / 32) + s] == d_count(
                lit1,
                dst1,
                0,
                n + 1,
                s,
            ) by {
                lemma_d_count_same(lit0, dst0, lit1, dst1, 0, n, s);
                assert(dc_pre[32 * (n / 32) + s] == d_count(lit0, dst0, 0, n, s));
            }
            lemma_append_wf(self, old(self), lit0, dst0, lit1, dst1, n, length, dist);
        }
    }

    /// Symbol counts of the tokens `[0, lpos]`, reconstructed from the chunk
    /// of `lpos`: start from that chunk's cumulative slots and take away the
    /// tokens of the chunk that lie beyond `lpos`.
    #[verifier::rlimit(100)]
    fn histogram_at(&self, lpos: usize) -> (r: (Vec<usize>, Vec<usize>))
        requires
            self.wf(),
            lpos < self.size(),
        ensures
            r.0.len() == 288,
            r.1.len() == 32,
            forall|s: int|
                0 <= s < 288 ==> #[trigger] r.0[s] == ll_count(
                    self.litlens@,
                    self.dists@,
                    0,
                    lpos + 1,
                    s,
                ),
            forall|s: int|
                0 <= s < 32 ==> #[trigger] r.1[s] == d_count(
                    self.litlens@,
                    self.dists@,
                    0,
                    lpos + 1,
                    s,
                ),
    {
        let ghost lit = self.litlens@;
        let ghost dst = self.dists@;
        let ghost n = self.size();
        let size = self.litlens.len();
        let llpos = ZOPFLI_NUM_LL * (lpos / ZOPFLI_NUM_LL);
        let dpos = ZOPFLI_NUM_D * (lpos / ZOPFLI_NUM_D);
        let ghost mll = spec_min(n, llpos + 288);
        let ghost md = spec_min(n, dpos + 32);
        proof {
            lemma_append_chunk_facts(self.ll_counts@, self.d_counts@, lit, dst, lpos as int);
            lemma_chunk_of(n, lpos as int);
        }
        let llc_len = self.ll_counts.len();
        let dc_len = self.d_counts.len();
        let mut ll: Vec<usize> = Vec::new();
        let mut k: usize = 0;
        while k < ZOPFLI_NUM_LL
            invariant
                self.wf(),
                lit == self.litlens@,
                dst == self.dists@,
                n == self.size(),
                lpos < n,
                llc_len == self.ll_counts@.len(),
                llpos == 288 * (lpos as int / 288),
                llpos <= lpos,
                mll == spec_min(n, llpos + 288),
                k <= 288,
                ll.len() == k,
                forall|s: int| 0 <= s < k ==> #[trigger] ll[s] == ll_count(lit, dst, 0, mll, s),
            decreases 288 - k,
        {
            proof {
                lemma_chunk_of(n, lpos as int);
                assert(llpos as int + 288 <= 288 * spec_chunks(n, 288));
                assert(ll_slot_ok(
                    self.ll_counts@,
                    self.litlens@,
                    self.dists@,
                    self.size(),
                    lpos as int / 288,
                    k as int,
                ));
            }
            ll.push(self.ll_counts[llpos + k]);
            k += 1;
        }
        let mut i: usize = lpos + 1;
        proof {
            assert forall|s: int| 0 <= s < 288 implies #[trigger] ll[s] == ll_count(
                lit,
                dst,
                0,
                lpos + 1,
                s,
            ) + ll_count(lit, dst, lpos + 1, mll, s) by {
                lemma_ll_count_split(lit, dst, 0, lpos + 1, mll, s);
            }
        }
        while i < size && i - llpos < ZOPFLI_NUM_LL
            invariant
                self.wf(),
                lit == self.litlens@,
                dst == self.dists@,
                n == self.size(),
                size == n,
                lpos < n,
                llpos <= lpos < i,
                mll == spec_min(n, llpos + 288),
                i as int <= mll,
                ll.len() == 288,
                forall|s: int|
                    0 <= s < 288 ==> #[trigger] ll[s] == ll_count(lit, dst, 0, lpos + 1, s)
                        + ll_count(lit, dst, i as int, mll, s),
            decreases llpos + 288 - i,
        {
            let sym = self.ll_symbol[i];
            proof {
                assert(token_valid(lit[i as int], dst[i as int]));
                assert(spec_ll_symbol(lit[i as int], dst[i as int]) == sym);
                assert(0 <= sym < 288);
                assert(ll_count(lit, dst, i as int, i as int, sym as int) == 0);
                lemma_ll_count_split(lit, dst, i as int, i as int + 1, mll, sym as int);
                assert(ll_count(lit, dst, i as int, i as int + 1, sym as int) == 1);
                lemma_ll_count_bound(lit, dst, 0, lpos + 1, sym as int);
                lemma_ll_count_bound(lit, dst, i as int + 1, mll, sym as int);
                assert forall|s: int|
                    0 <= s < 288 && s != sym implies ll_count(lit, dst, i as int, mll, s)
                    == ll_count(lit, dst, i as int + 1, mll, s) by {
                    assert(ll_count(lit, dst, i as int, i as int, s) == 0);
                    lemma_ll_count_split(lit, dst, i as int, i as int + 1, mll, s);
                    assert(ll_count(lit, dst, i as int, i as int + 1, s) == 0);
                }
            }
            let c = ll[sym as usize];
            ll.set(sym as usize, c - 1);
            i += 1;
        }
        proof {
            assert forall|s: int| 0 <= s < 288 implies #[trigger] ll[s] == ll_count(
                lit,
                dst,
                0,
                lpos + 1,
                s,
            ) by {
                assert(ll_count(lit, dst, i as int, mll, s) == 0);
            }
        }

        let mut d: Vec<usize> = Vec::new();
        let mut k2: usize = 0;
        while k2 < ZOPFLI_NUM_D
            invariant
                self.wf(),
                lit == self.litlens@,
                dst == self.dists@,
                n == self.size(),
                lpos < n,
                dc_len == self.d_counts@.len(),
                dpos == 32 * (lpos as int / 32),
                dpos <= lpos,
                md == spec_min(n, dpos + 32),
                k2 <= 32,
                d.len() == k2,
                forall|s: int| 0 <= s < k2 ==> #[trigger] d[s] == d_count(lit, dst, 0, md, s),
            decreases 32 - k2,
        {
            proof {
                lemma_chunk_of(n, lpos as int);
                assert(dpos as int + 32 <= 32 * spec_chunks(n, 32));
                assert(d_slot_ok(
                    self.d_counts@,
                    self.litlens@,
                    self.dists@,
                    self.size(),
                    lpos as int / 32,
                    k2 as int,
                ));
            }
            d.push(self.d_counts[dpos + k2]);
            k2 += 1;
        }
        let mut i2: usize = lpos + 1;
        proof {
            assert forall|s: int| 0 <= s < 32 implies #[trigger] d[s] == d_count(
                lit,
                dst,
                0,
                lpos + 1,
                s,
            ) + d_count(lit, dst, lpos + 1, md, s) by {
                lemma_d_count_split(lit, dst, 0, lpos + 1, md, s);
            }
        }
        while i2 < size && i2 - dpos < ZOPFLI_NUM_D
            invariant
                self.wf(),
                lit == self.litlens@,
                dst == self.dists@,
                n == self.size(),
                size == n,
                lpos < n,
                dpos <= lpos < i2,
                md == spec_min(n, dpos + 32),
                i2 as int <= md,
                d.len() == 32,
                forall|s: int|
                    0 <= s < 32 ==> #[trigger] d[s] == d_count(lit, dst, 0, lpos + 1, s) + d_count(
                        lit,
                        dst,
                        i2 as int,
                        md,
                        s,
                    ),
            decreases dpos + 32 - i2,
        {
            if self.dists[i2] != 0 {
                let sym = self.d_symbol[i2];
                proof {
                    assert(token_valid(lit[i2 as int], dst[i2 as int]));
                    assert(sym as int == spec_dist_symbol(dst[i2 as int] as int));
                    assert(0 <= sym < 32);
                    assert(d_count(lit, dst, i2 as int, i2 as int, sym as int) == 0);
                    lemma_d_count_split(lit, dst, i2 as int, i2 as int + 1, md, sym as int);
                    assert(d_count(lit, dst, i2 as int, i2 as int + 1, sym as int) == 1);
                    lemma_d_count_bound(lit, dst, 0, lpos + 1, sym as int);
                    lemma_d_count_bound(lit, dst, i2 as int + 1, md, sym as int);
                    assert forall|s: int|
                        0 <= s < 32 && s != sym implies d_count(lit, dst, i2 as int, md, s)
                        == d_count(lit, dst, i2 as int + 1, md, s) by {
                        assert(d_count(lit, dst, i2 as int, i2 as int, s) == 0);
                        lemma_d_count_split(lit, dst, i2 as int, i2 as int + 1, md, s);
                        assert(d_count(lit, dst, i2 as int, i2 as int + 1, s) == 0);
                    }
                }
                let c = d[sym as usize];
                d.set(sym as usize, c - 1);
            } else {
                proof {
                    assert forall|s: int|
                        0 <= s < 32 implies d_count(lit, dst, i2 as int, md, s) == d_count(
                        lit,
                        dst,
                        i2 as int + 1,
                        md,
                        s,
                    ) by {
                        assert(d_count(lit, dst, i2 as int, i2 as int, s) == 0);
                        lemma_d_count_split(lit, dst, i2 as int, i2 as int + 1, md, s);
                        assert(d_count(lit, dst, i2 as int, i2 as int + 1, s) == 0);
                    }
                }
            }
            i2 += 1;
        }
        proof {
            assert forall|s: int| 0 <= s < 32 implies #[trigger] d[s] == d_count(
                lit,
                dst,
                0,
                lpos + 1,
                s,
            ) by {
                assert(d_count(lit, dst, i2 as int, md, s) == 0);
            }
        }
        (ll, d)
    }

    /// Literal/length and distance symbol counts of the tokens `[lstart,
    /// lend)`: a plain recount for short ranges, and the difference of two
    /// cumulative histograms for long ones. Either way the result equals the
    /// token-by-token count.
    #[verifier::rlimit(100)]
    pub fn get_histogram(&self, lstart: usize, lend: usize) -> (r: (Vec<usize>, Vec<usize>))
        requires
            self.wf(),
            lstart <= lend <= self.size(),
        ensures
            r.0.len() == 288,
            r.1.len() == 32,
            forall|s: int|
                0 <= s < 288 ==> #[trigger] r.0[s] == ll_count(
                    self.litlens@,
                    self.dists@,
                    lstart as int,
                    lend as int,
                    s,
                ),
            forall|s: int|
                0 <= s < 32 ==> #[trigger] r.1[s] == d_count(
                    self.litlens@,
                    self.dists@,
                    lstart as int,
                    lend as int,
                    s,
                ),
    {
        let ghost lit = self.litlens@;
        let ghost dst = self.dists@;
        if lend - lstart < 3 * ZOPFLI_NUM_LL {
            // short range: count the tokens one by one
            let mut ll: Vec<usize> = Vec::new();
            let mut k: usize = 0;
            while k < ZOPFLI_NUM_LL
                invariant
                    k <= 288,
                    ll.len() == k,
                    forall|s: int| 0 <= s < k ==> #[trigger] ll[s] == 0,
                decreases 288 - k,
            {
                ll.push(0);
                k += 1;
            }
            let mut d: Vec<usize> = Vec::new();
            let mut k2: usize = 0;
            while k2 < ZOPFLI_NUM_D
                invariant
                    k2 <= 32,
                    d.len() == k2,
                    forall|s: int| 0 <= s < k2 ==> #[trigger] d[s] == 0,
                decreases 32 - k2,
            {
                d.push(0);
                k2 += 1;
            }
            let mut i: usize = lstart;
            while i < lend
                invariant
                    self.wf(),
                    lit == self.litlens@,
                    dst == self.dists@,
                    lstart <= i <= lend <= self.size(),
                    ll.len() == 288,
                    d.len() == 32,
                    forall|s: int|
                        0 <= s < 288 ==> #[trigger] ll[s] == ll_count(
                            lit,
                            dst,
                            lstart as int,
                            i as int,
                            s,
                        ),
                    forall|s: int|
                        0 <= s < 32 ==> #[trigger] d[s] == d_count(
                            lit,
                            dst,
                            lstart as int,
                            i as int,
                            s,
                        ),
                decreases lend - i,
            {
                let sym = self.ll_symbol[i];
                proof {
                    assert(token_valid(lit[i as int], dst[i as int]));
                    assert(spec_ll_symbol(lit[i as int], dst[i as int]) == sym);
                    assert(0 <= sym < 288);
                    lemma_ll_count_bound(lit, dst, lstart as int, i as int, sym as int);
                }
                let c = ll[sym as usize];
                ll.set(sym as usize, c + 1);
                if self.dists[i] != 0 {
                    let dsym = self.d_symbol[i];
                    proof {
                        assert(token_valid(lit[i as int], dst[i as int]));
                        assert(dsym as int == spec_dist_symbol(dst[i as int] as int));
                        assert(0 <= dsym < 32);
                        lemma_d_count_bound(lit, dst, lstart as int, i as int, dsym as int);
                    }
                    let c2 = d[dsym as usize];
                    d.set(dsym as usize, c2 + 1);
                }
                i += 1;
            }
            (ll, d)
        } else {
            // long range: difference of cumulative histograms
            let (mut ll, mut d) = self.histogram_at(lend - 1);
            if lstart > 0 {
                let (ll2, d2) = self.histogram_at(lstart - 1);
                let mut k: usize = 0;
                while k < ZOPFLI_NUM_LL
                    invariant
                        k <= 288,
                        ll.len() == 288,
                        ll2.len() == 288,
                        lstart <= lend <= self.size(),
                        lit == self.litlens@,
                        dst == self.dists@,
                        forall|s: int|
                            k <= s < 288 ==> #[trigger] ll[s] == ll_count(
                                lit,
                                dst,
                                0,
                                lend as int,
                                s,
                            ),
                        forall|s: int|
                            0 <= s < 288 ==> #[trigger] ll2[s] == ll_count(
                                lit,
                                dst,
                                0,
                                lstart as int,
                                s,
                            ),
                        forall|s: int|
                            0 <= s < k ==> #[trigger] ll[s] == ll_count(
                                lit,
                                dst,
                                lstart as int,
                                lend as int,
                                s,
                            ),
                    decreases 288 - k,
                {
                    proof {
                        lemma_ll_count_split(lit, dst, 0, lstart as int, lend as int, k as int);
                        lemma_ll_count_bound(lit, dst, 0, lstart as int, k as int);
                        lemma_ll_count_bound(lit, dst, lstart as int, lend as int, k as int);
                    }
                    let c = ll[k];
                    let c2 = ll2[k];
                    ll.set(k, c - c2);
                    k += 1;
                }
                let mut k2: usize = 0;
                while k2 < ZOPFLI_NUM_D
                    invariant
                        k2 <= 32,
                        d.len() == 32,
                        d2.len() == 32,
                        lstart <= lend <= self.size(),
                        lit == self.litlens@,
                        dst == self.dists@,
                        forall|s: int|
                            k2 <= s < 32 ==> #[trigger] d[s] == d_count(lit, dst, 0, lend as int, s),
                        forall|s: int|
                            0 <= s < 32 ==> #[trigger] d2[s] == d_count(
                                lit,
                                dst,
                                0,
                                lstart as int,
                                s,
                            ),
                        forall|s: int|
                            0 <= s < k2 ==> #[trigger] d[s] == d_count(
                                lit,
                                dst,
                                lstart as int,
                                lend as int,
                                s,
                            ),
                    decreases 32 - k2,
                {
                    proof {
                        lemma_d_count_split(lit, dst, 0, lstart as int, lend as int, k2 as int);
                        lemma_d_count_bound(lit, dst, 0, lstart as int, k2 as int);
                        lemma_d_count_bound(lit, dst, lstart as int, lend as int, k2 as int);
                    }
                    let c = d[k2];
                    let c2 = d2[k2];
                    d.set(k2, c - c2);
                    k2 += 1;
                }
                (ll, d)
            } else {
                (ll, d)
            }
        }
    }
}

/// Arithmetic facts about the chunk layout right after the seeding step of
/// an append: the current chunk of the (about to be) `n + 1` tokens is the
/// last one, and it covers all of them.
proof fn lemma_append_chunk_facts(
    llc: Seq<usize>,
    dc: Seq<usize>,
    lit0: Seq<u16>,
    dst0: Seq<u16>,
    n: int,
)
    requires
        n >= 0,
    ensures
        spec_chunks(n + 1, 288) == n / 288 + 1,
        spec_chunks(n + 1, 32) == n / 32 + 1,
        n % 288 == 0 ==> spec_chunks(n, 288) == n / 288,
        n % 288 != 0 ==> spec_chunks(n, 288) == n / 288 + 1,
        n % 32 == 0 ==> spec_chunks(n, 32) == n / 32,
        n % 32 != 0 ==> spec_chunks(n, 32) == n / 32 + 1,
        288 * (n / 288) <= n < 288 * (n / 288) + 288,
        32 * (n / 32) <= n < 32 * (n / 32) + 32,
{
    assert(spec_chunks(n + 1, 288) == n / 288 + 1) by (nonlinear_arith)
        requires
            n >= 0,
    ;
    assert(spec_chunks(n + 1, 32) == n / 32 + 1) by (nonlinear_arith)
        requires
            n >= 0,
    ;
    assert(n % 288 == 0 ==> spec_chunks(n, 288) == n / 288) by (nonlinear_arith)
        requires
            n >= 0,
    ;
    assert(n % 288 != 0 ==> spec_chunks(n, 288) == n / 288 + 1) by (nonlinear_arith)
        requires
            n >= 0,
    ;
    assert(n % 32 == 0 ==> spec_chunks(n, 32) == n / 32) by (nonlinear_arith)
        requires
            n >= 0,
    ;
    assert(n % 32 != 0 ==> spec_chunks(n, 32) == n / 32 + 1) by (nonlinear_arith)
        requires
            n >= 0,
    ;
    assert(288 * (n / 288) <= n < 288 * (n / 288) + 288) by (nonlinear_arith)
        requires
            n >= 0,
    ;
    assert(32 * (n / 32) <= n < 32 * (n / 32) + 32) by (nonlinear_arith)
        requires
            n >= 0,
    ;
}

/// Re-establishes the store invariant after the append wrote the token, its
/// symbols and the histogram increments.
#[verifier::rlimit(100)]
proof fn lemma_append_wf(
    new: &Lz77Store,
    prev: &Lz77Store,
    lit0: Seq<u16>,
    dst0: Seq<u16>,
    lit1: Seq<u16>,
    dst1: Seq<u16>,
    n: int,
    length: u16,
    dist: u16,
)
    requires
        prev.wf(),
        token_valid(length, dist),
        n == lit0.len(),
        lit0 == prev.litlens@,
        dst0 == prev.dists@,
        lit1 == lit0.push(length),
        dst1 == dst0.push(dist),
        new.litlens@ == lit1,
        new.dists@ == dst1,
        new.pos@.len() == n + 1,
        new.ll_symbol@.len() == n + 1,
        new.d_symbol@.len() == n + 1,
        forall|i: int| 0 <= i < n ==> #[trigger] new.ll_symbol@[i] == prev.ll_symbol@[i],
        forall|i: int| 0 <= i < n ==> #[trigger] new.d_symbol@[i] == prev.d_symbol@[i],
        new.ll_symbol@[n] == spec_ll_symbol(length, dist),
        new.d_symbol@[n] as int == (if dist != 0 {
            spec_dist_symbol(dist as int)
        } else {
            0
        }),
        new.ll_counts@.len() == 288 * (n / 288 + 1),
        new.d_counts@.len() == 32 * (n / 32 + 1),
        // slots outside the current chunk kept their cumulative counts
        forall|x: int|
            0 <= x < 288 * (n / 288) ==> #[trigger] new.ll_counts@[x] == prev.ll_counts@[x],
        forall|x: int| 0 <= x < 32 * (n / 32) ==> #[trigger] new.d_counts@[x] == prev.d_counts@[x],
        // the current chunk holds counts over all n+1 tokens
        forall|s: int|
            0 <= s < 288 ==> #[trigger] new.ll_counts@[288 * (n / 288) + s] == ll_count(
                lit1,
                dst1,
                0,
                n + 1,
                s,
            ),
        forall|s: int|
            0 <= s < 32 ==> #[trigger] new.d_counts@[32 * (n / 32) + s] == d_count(
                lit1,
                dst1,
                0,
                n + 1,
                s,
            ),
    ensures
        new.wf(),
{
    lemma_append_chunk_facts(new.ll_counts@, new.d_counts@, lit0, dst0, n);
    assert forall|c: int, s: int|
        0 <= c < spec_chunks(n + 1, 288) && 0 <= s < 288 implies #[trigger] ll_slot_ok(
        new.ll_counts@,
        lit1,
        dst1,
        n + 1,
        c,
        s,
    ) by {
        if c < n / 288 {
            assert(288 * c + s < 288 * (n / 288)) by (nonlinear_arith)
                requires
                    c < n / 288,
                    0 <= s < 288,
            ;
            assert(c < spec_chunks(n, 288));
            assert(ll_slot_ok(prev.ll_counts@, lit0, dst0, n, c, s));
            assert(288 * c + 288 <= 288 * (n / 288)) by (nonlinear_arith)
                requires
                    c < n / 288,
            ;
            assert(spec_min(n, 288 * c + 288) == 288 * c + 288);
            assert(spec_min(n + 1, 288 * c + 288) == 288 * c + 288);
            lemma_ll_count_same(lit0, dst0, lit1, dst1, 0, 288 * c + 288, s);
        } else {
            assert(c == n / 288);
            assert(spec_min(n + 1, 288 * c + 288) == n + 1);
        }
    }
    assert forall|c: int, s: int|
        0 <= c < spec_chunks(n + 1, 32) && 0 <= s < 32 implies #[trigger] d_slot_ok(
        new.d_counts@,
        lit1,
        dst1,
        n + 1,
        c,
        s,
    ) by {
        if c < n / 32 {
            assert(32 * c + s < 32 * (n / 32)) by (nonlinear_arith)
                requires
                    c < n / 32,
                    0 <= s < 32,
            ;
            assert(c < spec_chunks(n, 32));
            assert(d_slot_ok(prev.d_counts@, lit0, dst0, n, c, s));
            assert(32 * c + 32 <= 32 * (n / 32)) by (nonlinear_arith)
                requires
                    c < n / 32,
            ;
            assert(spec_min(n, 32 * c + 32) == 32 * c + 32);
            assert(spec_min(n + 1, 32 * c + 32) == 32 * c + 32);
            lemma_d_count_same(lit0, dst0, lit1, dst1, 0, 32 * c + 32, s);
        } else {
            assert(c == n / 32);
            assert(spec_min(n + 1, 32 * c + 32) == n + 1);
        }
    }
}


/// Per-block compression state: the longest-match cache for the block's
/// positions and the block's bounds in the source data.
pub struct ZopfliBlockState {
    pub lmc: Option<ZopfliLongestMatchCache>,
    pub blockstart: usize,
    pub blockend: usize,
}

impl ZopfliBlockState {
    pub fn new(blockstart: usize, blockend: usize, add_lmc: bool) -> (r: ZopfliBlockState)
        requires
            blockstart <= blockend,
            blockend - blockstart <= usize::MAX / 24,
        ensures
            r.blockstart == blockstart,
            r.blockend == blockend,
            add_lmc <==> r.lmc is Some,
            r.lmc matches Some(c) ==> c.wf() && c.blocksize() == blockend - blockstart,
    {
        let lmc = if add_lmc {
            Some(ZopfliLongestMatchCache::new(blockend - blockstart))
        } else {
            None
        };
        ZopfliBlockState { lmc, blockstart, blockend }
    }
}

} // verus!
