//! Bounded package-merge: length-limited Huffman code-length assignment
//! after the algorithm of Katajainen, Moffat and Turpin. Chains of nodes
//! live in a growing pool and reference earlier nodes by index; every list
//! keeps its two newest chains.

use vstd::prelude::*;

verus! {

/// A leaf: one used symbol with its weight (frequency).
#[derive(Clone, Copy)]
pub struct Leaf {
    pub weight: usize,
    pub index: usize,
}

/// A chain node: total weight, number of leaves in its list so far, and the
/// previous chain (an index into the pool), if any. The ghost level records
/// which list created the node.
#[derive(Clone, Copy)]
pub struct Node {
    pub weight: usize,
    pub count: usize,
    pub tail: Option<usize>,
    pub level: Ghost<int>,
}

/// Number of non-zero entries among the first `n` of `f`.
pub open spec fn count_nz(f: Seq<usize>, n: int) -> int
    decreases n,
{
    if n <= 0 {
        0
    } else {
        count_nz(f, n - 1) + if f[n - 1] != 0 {
            1int
        } else {
            0int
        }
    }
}

/// Sum of the first `n` entries of `f`.
pub open spec fn sum_freqs(f: Seq<usize>, n: int) -> int
    decreases n,
{
    if n <= 0 {
        0
    } else {
        sum_freqs(f, n - 1) + f[n - 1]
    }
}

/// Two to the power `k`.
pub open spec fn p2(k: int) -> int
    decreases k,
{
    if k <= 0 {
        1
    } else {
        2 * p2(k - 1)
    }
}

proof fn lemma_p2_pos(k: int)
    ensures
        p2(k) >= 1,
    decreases k,
{
    if k > 0 {
        lemma_p2_pos(k - 1);
    }
}

proof fn lemma_p2_mono(a: int, b: int)
    requires
        a <= b,
    ensures
        1 <= p2(a) <= p2(b),
    decreases b - a,
{
    lemma_p2_pos(a);
    if a < b {
        lemma_p2_mono(a, b - 1);
    }
}

/// Multiplying a non-negative total by a larger power of two only grows it.
proof fn lemma_p2_mul_le(a: int, b: int, s: int)
    requires
        a <= b,
        s >= 0,
    ensures
        p2(a) * s <= p2(b) * s,
        s <= p2(a) * s,
        0 <= p2(a) * s,
{
    lemma_p2_mono(a, b);
    assert(p2(a) * s <= p2(b) * s) by (nonlinear_arith)
        requires
            s >= 0,
            1 <= p2(a) <= p2(b),
    ;
    assert(s <= p2(a) * s && 0 <= p2(a) * s) by (nonlinear_arith)
        requires
            s >= 0,
            1 <= p2(a),
    ;
}

/// Two chains of one list weigh together at most the bound of the next.
proof fn lemma_p2_sum(a: int, s: int)
    requires
        a >= 0,
        s >= 0,
    ensures
        p2(a) * s + p2(a) * s == p2(a + 1) * s,
{
    assert(p2(a + 1) == 2 * p2(a));
    assert(2 * p2(a) * s == p2(a) * s + p2(a) * s) by (nonlinear_arith);
}

proof fn lemma_sum_freqs_mono(f: Seq<usize>, a: int, b: int)
    requires
        0 <= a <= b,
    ensures
        0 <= sum_freqs(f, a) <= sum_freqs(f, b),
    decreases b,
{
    if a < b {
        lemma_sum_freqs_mono(f, a, b - 1);
    } else if a > 0 {
        lemma_sum_freqs_mono(f, a - 1, a - 1);
    }
}

/// Element `i` of `f` never exceeds the sum of any prefix containing it.
proof fn lemma_sum_freqs_elem(f: Seq<usize>, i: int, n: int)
    requires
        0 <= i < n,
    ensures
        f[i] <= sum_freqs(f, n),
    decreases n,
{
    lemma_sum_freqs_mono(f, 0, i);
    lemma_sum_freqs_mono(f, i + 1, n);
}

/// A pool node is well formed: its leaf count stays within the number of
/// used symbols, its weight within the bound of its list, and its tail
/// points strictly down both in pool order and in list level.
pub open spec fn node_wf(pool: Seq<Node>, i: int, ns: int, mb: int, s: int) -> bool {
    &&& 1 <= pool[i].count <= ns
    &&& 0 <= pool[i].level@ < mb
    &&& pool[i].weight <= p2(pool[i].level@ + 1) * s
    &&& match pool[i].tail {
        Some(t) => t < pool.len() && pool[t as int].level@ < pool[i].level@,
        None => true,
    }
}

pub open spec fn pool_wf(pool: Seq<Node>, ns: int, mb: int, s: int) -> bool {
    forall|i: int| 0 <= i < pool.len() ==> #[trigger] node_wf(pool, i, ns, mb, s)
}

/// The two lookahead chains of list `k` exist and were created by a list no
/// deeper than `k`.
pub open spec fn list_ok(lists: Seq<(usize, usize)>, pool: Seq<Node>, k: int) -> bool {
    &&& lists[k].0 < pool.len()
    &&& lists[k].1 < pool.len()
    &&& pool[lists[k].0 as int].level@ <= k
    &&& pool[lists[k].1 as int].level@ <= k
}

pub open spec fn lists_wf(lists: Seq<(usize, usize)>, pool: Seq<Node>) -> bool {
    forall|k: int| 0 <= k < lists.len() ==> #[trigger] list_ok(lists, pool, k)
}

/// All leaves carry a non-zero weight bounded by `s` and an index below `n`.
pub open spec fn leaves_wf(leaves: Seq<Leaf>, f: Seq<usize>, s: int) -> bool {
    forall|j: int|
        #![trigger leaves[j].index]
        #![trigger leaves[j].weight]
        0 <= j < leaves.len() ==> (leaves[j].index < f.len() && leaves[j].weight == f[
            leaves[j].index as int
        ] && leaves[j].weight != 0 && leaves[j].weight <= s)
}

/// Every used symbol is coded: a length of at least one bit, and at most
/// `mb` bits.
pub open spec fn used_lengths_ok(f: Seq<usize>, l: Seq<usize>, n: int, mb: int) -> bool {
    forall|i: int| 0 <= i < n && f[i] != 0 ==> 1 <= (#[trigger] l[i]) && l[i] <= mb
}

/// The Kraft sum of the used symbols' code lengths, scaled to integers by
/// `2^mb`: the lengths admit a prefix code exactly when this stays within
/// `2^mb`.
pub open spec fn kraft_terms(f: Seq<usize>, l: Seq<usize>, n: int, mb: int) -> int
    decreases n,
{
    if n <= 0 {
        0
    } else {
        kraft_terms(f, l, n - 1, mb) + if f[n - 1] != 0 {
            p2(mb - l[n - 1])
        } else {
            0int
        }
    }
}

proof fn lemma_kraft_mono(f: Seq<usize>, l: Seq<usize>, a: int, n: int, mb: int)
    requires
        0 <= a <= n,
    ensures
        0 <= kraft_terms(f, l, a, mb) <= kraft_terms(f, l, n, mb),
    decreases n,
{
    if a < n {
        lemma_kraft_mono(f, l, a, n - 1, mb);
        lemma_p2_pos(mb - l[n - 1]);
    } else if a > 0 {
        lemma_kraft_mono(f, l, a - 1, a - 1, mb);
        lemma_p2_pos(mb - l[a - 1]);
    }
}

/// With one uniform length `d` on every used symbol, the Kraft sum is just
/// the used-symbol count times one power of two.
proof fn lemma_kraft_uniform(f: Seq<usize>, l: Seq<usize>, n: int, mb: int, d: int)
    requires
        forall|i: int| 0 <= i < n && (#[trigger] f[i]) != 0 ==> l[i] == d,
    ensures
        kraft_terms(f, l, n, mb) == count_nz(f, n) * p2(mb - d),
    decreases n,
{
    if n > 0 {
        lemma_kraft_uniform(f, l, n - 1, mb, d);
        if f[n - 1] != 0 {
            assert((count_nz(f, n - 1) + 1) * p2(mb - d) == count_nz(f, n - 1) * p2(mb - d) + p2(
                mb - d,
            )) by (nonlinear_arith);
        }
    } else {
        assert(0 * p2(mb - d) == 0) by (nonlinear_arith);
    }
}

proof fn lemma_p2_add(a: int, b: int)
    requires
        a >= 0,
        b >= 0,
    ensures
        p2(a) * p2(b) == p2(a + b),
    decreases a,
{
    if a == 0 {
        assert(1 * p2(b) == p2(b)) by (nonlinear_arith);
    } else {
        lemma_p2_add(a - 1, b);
        assert(p2(a) == 2 * p2(a - 1));
        assert(p2(a + b) == 2 * p2(a - 1 + b));
        assert(2 * p2(a - 1) * p2(b) == 2 * (p2(a - 1) * p2(b))) by (nonlinear_arith);
    }
}

proof fn lemma_exists_used(f: Seq<usize>, n: int)
    requires
        count_nz(f, n) >= 1,
    ensures
        exists|i: int| 0 <= i < n && (#[trigger] f[i]) != 0,
    decreases n,
{
    if n > 0 {
        if f[n - 1] != 0 {
            assert(0 <= n - 1 < n && f[n - 1] != 0);
        } else {
            lemma_exists_used(f, n - 1);
        }
    }
}

/// Every used symbol below `n` is represented by some leaf.
pub open spec fn leaves_complete(leaves: Seq<Leaf>, f: Seq<usize>, n: int) -> bool {
    forall|x: int|
        0 <= x < n && f[x] != 0 ==> exists|j: int|
            0 <= j < leaves.len() && (#[trigger] leaves[j]).index == x
}

/// One boundary package-merge step on list `index`: add one chain, taking
/// either the next unused leaf or a package of the two lookahead chains of
/// the previous list, whichever is lighter (ties prefer the leaf).
#[verifier::rlimit(100)]
fn boundary_pm(
    pool: &mut Vec<Node>,
    lists: &mut Vec<(usize, usize)>,
    leaves: &Vec<Leaf>,
    index: usize,
    Ghost(f): Ghost<Seq<usize>>,
    Ghost(s): Ghost<int>,
)
    requires
        index < old(lists).len(),
        old(lists).len() <= 15,
        2 <= leaves.len(),
        leaves_wf(leaves@, f, s),
        0 <= s,
        p2(old(lists)@.len() as int) * s <= usize::MAX,
        pool_wf(old(pool)@, leaves.len() as int, old(lists)@.len() as int, s),
        lists_wf(old(lists)@, old(pool)@),
    ensures
        final(lists).len() == old(lists).len(),
        final(pool).len() >= old(pool).len(),
        forall|i: int| 0 <= i < old(pool).len() ==> final(pool)@[i] == old(pool)@[i],
        pool_wf(final(pool)@, leaves.len() as int, old(lists)@.len() as int, s),
        lists_wf(final(lists)@, final(pool)@),
        forall|k: int| index < k < old(lists).len() ==> final(lists)@[k] == old(lists)@[k],
        index >= 1 ==> final(pool)@[final(lists)@[index as int].1 as int].level@ == index,
    decreases index,
{
    let ghost ns = leaves.len() as int;
    let ghost mb = lists@.len() as int;
    proof {
        assert(list_ok(lists@, pool@, index as int));
        assert(node_wf(pool@, lists@[index as int].1 as int, ns, mb, s));
    }
    let lastcount = pool[lists[index].1].count;
    if index == 0 {
        if lastcount >= leaves.len() {
            return ;
        }
        let oldchain = lists[index].1;
        pool.push(
            Node {
                weight: leaves[lastcount].weight,
                count: lastcount + 1,
                tail: None,
                level: Ghost(0int),
            },
        );
        let newidx = pool.len() - 1;
        lists.set(index, (oldchain, newidx));
        proof {
            lemma_p2_mul_le(1, 1, s);
            assert forall|i: int| 0 <= i < pool@.len() implies #[trigger] node_wf(
                pool@,
                i,
                ns,
                mb,
                s,
            ) by {
                if i < pool@.len() - 1 {
                    assert(node_wf(old(pool)@, i, ns, mb, s));
                }
            }
            assert forall|k: int| 0 <= k < lists@.len() implies #[trigger] list_ok(
                lists@,
                pool@,
                k,
            ) by {
                assert(list_ok(old(lists)@, old(pool)@, k));
            }
        }
        return ;
    }
    let oldchain = lists[index].1;
    let prev = lists[index - 1];
    proof {
        assert(list_ok(lists@, pool@, index as int - 1));
        assert(node_wf(pool@, prev.0 as int, ns, mb, s));
        assert(node_wf(pool@, prev.1 as int, ns, mb, s));
        lemma_p2_mul_le(pool@[prev.0 as int].level@ + 1, index as int, s);
        lemma_p2_mul_le(pool@[prev.1 as int].level@ + 1, index as int, s);
        lemma_p2_sum(index as int, s);
        lemma_p2_mul_le(index as int + 1, mb, s);
    }
    let sum = pool[prev.0].weight + pool[prev.1].weight;
    if lastcount < leaves.len() && sum > leaves[lastcount].weight {
        // the next leaf is lighter: insert it, keeping the old chain's tail
        let tail = pool[oldchain].tail;
        pool.push(
            Node {
                weight: leaves[lastcount].weight,
                count: lastcount + 1,
                tail,
                level: Ghost(index as int),
            },
        );
        let newidx = pool.len() - 1;
        lists.set(index, (oldchain, newidx));
        proof {
            assert(node_wf(pool@, newidx as int, ns, mb, s)) by {
                assert(node_wf(old(pool)@, oldchain as int, ns, mb, s));
            }
            assert forall|i: int| 0 <= i < pool@.len() implies #[trigger] node_wf(
                pool@,
                i,
                ns,
                mb,
                s,
            ) by {
                if i < pool@.len() - 1 {
                    assert(node_wf(old(pool)@, i, ns, mb, s));
                }
            }
            assert forall|k: int| 0 <= k < lists@.len() implies #[trigger] list_ok(
                lists@,
                pool@,
                k,
            ) by {
                assert(list_ok(old(lists)@, old(pool)@, k));
            }
        }
    } else {
        // package the two lookahead chains of the previous list
        pool.push(
            Node { weight: sum, count: lastcount, tail: Some(prev.1), level: Ghost(index as int) },
        );
        let newidx = pool.len() - 1;
        lists.set(index, (oldchain, newidx));
        proof {
            assert(node_wf(pool@, newidx as int, ns, mb, s));
            assert forall|i: int| 0 <= i < pool@.len() implies #[trigger] node_wf(
                pool@,
                i,
                ns,
                mb,
                s,
            ) by {
                if i < pool@.len() - 1 {
                    assert(node_wf(old(pool)@, i, ns, mb, s));
                }
            }
            assert forall|k: int| 0 <= k < lists@.len() implies #[trigger] list_ok(
                lists@,
                pool@,
                k,
            ) by {
                assert(list_ok(old(lists)@, old(pool)@, k));
            }
        }
        let ghost pool_mid = pool@;
        let ghost lists_mid = lists@;
        boundary_pm(pool, lists, leaves, index - 1, Ghost(f), Ghost(s));
        proof {
            assert(lists@[index as int] == lists_mid[index as int]);
        }
        boundary_pm(pool, lists, leaves, index - 1, Ghost(f), Ghost(s));
        proof {
            assert(lists@[index as int].1 == newidx);
            assert(pool@[newidx as int] == pool_mid[newidx as int]);
        }
    }
}

/// The last boundary package-merge step: only the count and tail of the new
/// chain matter, so the lookahead bookkeeping can be skipped.
fn boundary_pm_final(
    pool: &mut Vec<Node>,
    lists: &mut Vec<(usize, usize)>,
    leaves: &Vec<Leaf>,
    index: usize,
    Ghost(f): Ghost<Seq<usize>>,
    Ghost(s): Ghost<int>,
)
    requires
        1 <= index < old(lists).len(),
        old(lists).len() <= 15,
        2 <= leaves.len(),
        leaves_wf(leaves@, f, s),
        0 <= s,
        p2(old(lists)@.len() as int) * s <= usize::MAX,
        pool_wf(old(pool)@, leaves.len() as int, old(lists)@.len() as int, s),
        lists_wf(old(lists)@, old(pool)@),
        old(pool)@[old(lists)@[index as int].1 as int].level@ == index,
    ensures
        final(lists).len() == old(lists).len(),
        pool_wf(final(pool)@, leaves.len() as int, old(lists)@.len() as int, s),
        lists_wf(final(lists)@, final(pool)@),
{
    let ghost ns = leaves.len() as int;
    let ghost mb = lists@.len() as int;
    proof {
        assert(list_ok(lists@, pool@, index as int));
        assert(list_ok(lists@, pool@, index as int - 1));
        assert(node_wf(pool@, lists@[index as int].1 as int, ns, mb, s));
        let p0 = lists@[index as int - 1].0 as int;
        let p1 = lists@[index as int - 1].1 as int;
        assert(node_wf(pool@, p0, ns, mb, s));
        assert(node_wf(pool@, p1, ns, mb, s));
        lemma_p2_mul_le(pool@[p0].level@ + 1, index as int, s);
        lemma_p2_mul_le(pool@[p1].level@ + 1, index as int, s);
        lemma_p2_sum(index as int, s);
        lemma_p2_mul_le(index as int + 1, mb, s);
    }
    let lastcount = pool[lists[index].1].count;
    let prev = lists[index - 1];
    let sum = pool[prev.0].weight + pool[prev.1].weight;
    if lastcount < leaves.len() && sum > leaves[lastcount].weight {
        let oldtail = pool[lists[index].1].tail;
        pool.push(
            Node {
                weight: leaves[lastcount].weight,
                count: lastcount + 1,
                tail: oldtail,
                level: Ghost(index as int),
            },
        );
        let newidx = pool.len() - 1;
        let l0 = lists[index].0;
        lists.set(index, (l0, newidx));
        proof {
            lemma_p2_mul_le(index as int + 1, index as int + 1, s);
            assert(node_wf(pool@, newidx as int, ns, mb, s)) by {
                assert(node_wf(old(pool)@, old(lists)@[index as int].1 as int, ns, mb, s));
            }
            assert forall|i: int| 0 <= i < pool@.len() implies #[trigger] node_wf(
                pool@,
                i,
                ns,
                mb,
                s,
            ) by {
                if i < pool@.len() - 1 {
                    assert(node_wf(old(pool)@, i, ns, mb, s));
                }
            }
            assert forall|k: int| 0 <= k < lists@.len() implies #[trigger] list_ok(
                lists@,
                pool@,
                k,
            ) by {
                assert(list_ok(old(lists)@, old(pool)@, k));
            }
        }
    } else {
        // rewrite the tail of the newest chain to point at the previous list
        let ni = lists[index].1;
        let w = pool[ni].weight;
        let c = pool[ni].count;
        let ghost lv = pool@[ni as int].level;
        pool.set(ni, Node { weight: w, count: c, tail: Some(prev.1), level: Ghost(lv@) });
        proof {
            assert(node_wf(old(pool)@, prev.1 as int, ns, mb, s));
            assert forall|i: int| 0 <= i < pool@.len() implies #[trigger] node_wf(
                pool@,
                i,
                ns,
                mb,
                s,
            ) by {
                assert(node_wf(old(pool)@, i, ns, mb, s));
                if i != ni as int {
                    assert(pool@[i] == old(pool)@[i]);
                    match old(pool)@[i].tail {
                        Some(t) => {
                            assert(pool@[t as int].level@ == old(pool)@[t as int].level@);
                        },
                        None => {},
                    }
                }
            }
            assert forall|k: int| 0 <= k < lists@.len() implies #[trigger] list_ok(
                lists@,
                pool@,
                k,
            ) by {
                assert(list_ok(old(lists)@, old(pool)@, k));
            }
        }
    }
}

/// The counts along a chain: the node's own count, then its tail's chain.
/// `fuel` bounds the walk; any fuel above the node's list level yields the
/// whole chain.
pub open spec fn chain_seq(pool: Seq<Node>, cur: int, fuel: int) -> Seq<usize>
    decreases fuel,
{
    if fuel <= 0 || !(0 <= cur < pool.len()) {
        Seq::empty()
    } else {
        match pool[cur].tail {
            Some(t) => seq![pool[cur].count] + chain_seq(pool, t as int, fuel - 1),
            None => seq![pool[cur].count],
        }
    }
}

proof fn lemma_chain_seq_fuel(pool: Seq<Node>, cur: int, f1: int, f2: int, ns: int, mb: int, s: int)
    requires
        pool_wf(pool, ns, mb, s),
        0 <= cur < pool.len(),
        f1 > pool[cur].level@,
        f2 > pool[cur].level@,
    ensures
        chain_seq(pool, cur, f1) == chain_seq(pool, cur, f2),
    decreases pool[cur].level@,
{
    assert(node_wf(pool, cur, ns, mb, s));
    match pool[cur].tail {
        Some(t) => {
            assert(node_wf(pool, t as int, ns, mb, s));
            lemma_chain_seq_fuel(pool, t as int, f1 - 1, f2 - 1, ns, mb, s);
        },
        None => {},
    }
}

/// Writes `value` at the leaves of ranks `low + 1 ..= val`, highest first.
pub open spec fn write_ranks(
    leaves: Seq<Leaf>,
    bits: Seq<usize>,
    val: int,
    low: int,
    value: usize,
) -> Seq<usize>
    decreases val - low,
{
    if val <= low {
        bits
    } else {
        write_ranks(leaves, bits.update(leaves[val - 1].index as int, value), val - 1, low, value)
    }
}

/// The bit-length assignment read off a chain's counts `cv`: walking the
/// lists from the deepest (`t == 0`), every leaf rank in
/// `(cv[t + 1], cv[t]]` that the descending rank cursor still covers gets
/// bit length `t + 1`.
pub open spec fn extract_fold(
    cv: Seq<usize>,
    leaves: Seq<Leaf>,
    t: int,
    val: int,
    bits: Seq<usize>,
) -> Seq<usize>
    decreases cv.len() - t,
{
    if t >= cv.len() {
        bits
    } else {
        let low = if t + 1 < cv.len() {
            cv[t + 1] as int
        } else {
            0
        };
        let bits2 = write_ranks(leaves, bits, val, low, (t + 1) as usize);
        extract_fold(cv, leaves, t + 1, if val <= low { val } else { low }, bits2)
    }
}

proof fn lemma_write_ranks_vals(leaves: Seq<Leaf>, bits: Seq<usize>, val: int, low: int, value: usize)
    requires
        0 <= low,
        val <= leaves.len(),
        forall|j: int| 0 <= j < leaves.len() ==> #[trigger] leaves[j].index < bits.len(),
    ensures
        write_ranks(leaves, bits, val, low, value).len() == bits.len(),
        forall|x: int|
            0 <= x < bits.len() ==> #[trigger] write_ranks(leaves, bits, val, low, value)[x]
                == bits[x] || write_ranks(leaves, bits, val, low, value)[x] == value,
    decreases val - low,
{
    if val > low {
        lemma_write_ranks_vals(
            leaves,
            bits.update(leaves[val - 1].index as int, value),
            val - 1,
            low,
            value,
        );
    }
}

proof fn lemma_write_ranks_hits(leaves: Seq<Leaf>, bits: Seq<usize>, val: int, low: int, value: usize)
    requires
        low < val,
        0 <= low,
        1 <= val <= leaves.len(),
        forall|j: int| 0 <= j < leaves.len() ==> #[trigger] leaves[j].index < bits.len(),
    ensures
        write_ranks(leaves, bits, val, low, value)[leaves[val - 1].index as int] == value,
{
    let li = leaves[val - 1].index as int;
    let bits2 = bits.update(li, value);
    lemma_write_ranks_vals(leaves, bits2, val - 1, low, value);
    assert(write_ranks(leaves, bits2, val - 1, low, value)[li] == bits2[li]
        || write_ranks(leaves, bits2, val - 1, low, value)[li] == value);
}

proof fn lemma_extract_fold_vals(cv: Seq<usize>, leaves: Seq<Leaf>, t: int, val: int, bits: Seq<usize>)
    requires
        t >= 0,
        cv.len() <= 16,
        val <= leaves.len(),
        forall|j: int| 0 <= j < leaves.len() ==> #[trigger] leaves[j].index < bits.len(),
    ensures
        extract_fold(cv, leaves, t, val, bits).len() == bits.len(),
        forall|x: int|
            0 <= x < bits.len() ==> #[trigger] extract_fold(cv, leaves, t, val, bits)[x]
                == bits[x] || extract_fold(cv, leaves, t, val, bits)[x] >= 1,
    decreases cv.len() - t,
{
    if t < cv.len() {
        let low = if t + 1 < cv.len() {
            cv[t + 1] as int
        } else {
            0
        };
        let bits2 = write_ranks(leaves, bits, val, low, (t + 1) as usize);
        lemma_write_ranks_vals(leaves, bits, val, low, (t + 1) as usize);
        assert((t + 1) as usize >= 1);
        lemma_extract_fold_vals(
            cv,
            leaves,
            t + 1,
            if val <= low { val } else { low },
            bits2,
        );
    }
}

/// As long as some rank is left, the assignment writes a positive bit
/// length somewhere: ranks only leave the cursor by being written.
proof fn lemma_extract_fold_nonzero(cv: Seq<usize>, leaves: Seq<Leaf>, t: int, val: int, bits: Seq<usize>)
    requires
        0 <= t < cv.len(),
        cv.len() <= 16,
        1 <= val <= leaves.len(),
        forall|j: int| 0 <= j < leaves.len() ==> #[trigger] leaves[j].index < bits.len(),
    ensures
        exists|x: int|
            0 <= x < bits.len() && #[trigger] extract_fold(cv, leaves, t, val, bits)[x] >= 1,
    decreases cv.len() - t,
{
    let low = if t + 1 < cv.len() {
        cv[t + 1] as int
    } else {
        0
    };
    let bits2 = write_ranks(leaves, bits, val, low, (t + 1) as usize);
    if val > low {
        let li = leaves[val - 1].index as int;
        lemma_write_ranks_hits(leaves, bits, val, low, (t + 1) as usize);
        lemma_write_ranks_vals(leaves, bits, val, low, (t + 1) as usize);
        assert((t + 1) as usize >= 1);
        assert(bits2[li] >= 1);
        lemma_extract_fold_vals(
            cv,
            leaves,
            t + 1,
            if val <= low { val } else { low },
            bits2,
        );
        assert(0 <= li < bits.len());
        assert(extract_fold(cv, leaves, t, val, bits)[li] >= 1);
    } else {
        assert(bits2 == bits);
        assert(low > 0 && t + 1 < cv.len());
        lemma_extract_fold_nonzero(cv, leaves, t + 1, val, bits2);
        let xw = choose|x: int|
            0 <= x < bits2.len() && #[trigger] extract_fold(cv, leaves, t + 1, val, bits2)[x] >= 1;
        assert(extract_fold(cv, leaves, t, val, bits)[xw] >= 1);
    }
}

/// Collects the counts of the chain starting at `head`, head first.
fn chain_counts_of(
    pool: &Vec<Node>,
    head: usize,
    Ghost(ns): Ghost<int>,
    Ghost(mb): Ghost<int>,
    Ghost(s): Ghost<int>,
) -> (r: Vec<usize>)
    requires
        head < pool.len(),
        1 <= mb <= 15,
        2 <= ns,
        pool_wf(pool@, ns, mb, s),
    ensures
        1 <= r.len() <= mb,
        forall|x: int| 0 <= x < r.len() ==> 1 <= #[trigger] r@[x] <= ns,
        r@[0] == pool@[head as int].count,
        r@ == chain_seq(pool@, head as int, 16),
{
    let mut chain_counts: Vec<usize> = Vec::new();
    proof {
        assert(node_wf(pool@, head as int, ns, mb, s));
        match pool@[head as int].tail {
            Some(t) => {
                assert(node_wf(pool@, t as int, ns, mb, s));
                lemma_chain_seq_fuel(
                    pool@,
                    t as int,
                    15,
                    pool@[head as int].level@,
                    ns,
                    mb,
                    s,
                );
            },
            None => {},
        }
    }
    chain_counts.push(pool[head].count);
    let mut cur = head;
    while pool[cur].tail.is_some()
        invariant
            cur < pool.len(),
            1 <= mb <= 15,
            2 <= ns,
            pool_wf(pool@, ns, mb, s),
            chain_counts.len() >= 1,
            chain_counts.len() + pool@[cur as int].level@ + 1 <= mb + 1,
            forall|t: int|
                0 <= t < chain_counts.len() ==> 1 <= #[trigger] chain_counts@[t] <= ns,
            chain_seq(pool@, head as int, 16) == chain_counts@ + (match pool@[cur as int].tail {
                Some(t) => chain_seq(pool@, t as int, pool@[cur as int].level@),
                None => Seq::<usize>::empty(),
            }),
        decreases pool@[cur as int].level@,
    {
        proof {
            assert(node_wf(pool@, cur as int, ns, mb, s));
        }
        let t = match pool[cur].tail {
            Some(t) => t,
            None => 0,
        };
        proof {
            assert(node_wf(pool@, t as int, ns, mb, s));
            let lv = pool@[cur as int].level@;
            match pool@[t as int].tail {
                Some(t2) => {
                    assert(node_wf(pool@, t2 as int, ns, mb, s));
                    lemma_chain_seq_fuel(
                        pool@,
                        t2 as int,
                        lv - 1,
                        pool@[t as int].level@,
                        ns,
                        mb,
                        s,
                    );
                    assert(chain_seq(pool@, t as int, lv) == seq![pool@[t as int].count]
                        + chain_seq(pool@, t2 as int, pool@[t as int].level@));
                },
                None => {
                    assert(chain_seq(pool@, t as int, lv) == seq![pool@[t as int].count]);
                },
            }
            assert(chain_counts@ + chain_seq(pool@, t as int, lv) =~= chain_counts@.push(
                pool@[t as int].count,
            ) + (match pool@[t as int].tail {
                Some(t2) => chain_seq(pool@, t2 as int, pool@[t as int].level@),
                None => Seq::<usize>::empty(),
            }));
        }
        cur = t;
        chain_counts.push(pool[cur].count);
    }
    proof {
        assert(chain_seq(pool@, head as int, 16) =~= chain_counts@);
        assert(node_wf(pool@, cur as int, ns, mb, s));
    }
    chain_counts
}

/// Assigns the bit lengths a chain's counts dictate: walking the lists from
/// the deepest, every leaf rank between two successive counts gets the
/// depth of its list. Only positions named by a leaf are written, each with
/// a value between 1 and the number of lists.
fn assign_bit_lengths(
    chain_counts: &Vec<usize>,
    leaves: &Vec<Leaf>,
    bitlengths: &mut Vec<usize>,
    Ghost(f): Ghost<Seq<usize>>,
    Ghost(s): Ghost<int>,
    Ghost(mb): Ghost<int>,
)
    requires
        1 <= chain_counts.len() <= mb,
        1 <= mb <= 15,
        2 <= leaves.len(),
        leaves_wf(leaves@, f, s),
        forall|x: int|
            0 <= x < chain_counts.len() ==> 1 <= #[trigger] chain_counts@[x] <= leaves.len(),
        forall|j: int| 0 <= j < leaves.len() ==> #[trigger] leaves@[j].index < old(bitlengths).len(),
    ensures
        final(bitlengths).len() == old(bitlengths).len(),
        final(bitlengths)@ == extract_fold(
            chain_counts@,
            leaves@,
            0,
            chain_counts@[0] as int,
            old(bitlengths)@,
        ),
        forall|x: int|
            0 <= x < old(bitlengths).len() ==> final(bitlengths)@[x] == old(bitlengths)@[x] || (1
                <= final(bitlengths)@[x] <= mb && exists|j: int|
                0 <= j < leaves@.len() && (#[trigger] leaves@[j]).index == x),
{
    let ghost ns = leaves.len() as int;
    let ghost cv = chain_counts@;
    let ghost target = extract_fold(cv, leaves@, 0, cv[0] as int, bitlengths@);
    let m = chain_counts.len();
    let mut val = chain_counts[0];
    let mut t: usize = 0;
    while t < m
        invariant
            m == chain_counts.len(),
            cv == chain_counts@,
            1 <= m <= mb <= 15,
            2 <= leaves.len(),
            ns == leaves.len() as int,
            leaves_wf(leaves@, f, s),
            forall|j: int|
                0 <= j < leaves.len() ==> #[trigger] leaves@[j].index < bitlengths@.len(),
            val <= ns,
            t <= m,
            forall|x: int|
                0 <= x < chain_counts.len() ==> 1 <= #[trigger] chain_counts@[x] <= ns,
            bitlengths.len() == old(bitlengths).len(),
            extract_fold(cv, leaves@, t as int, val as int, bitlengths@) == target,
            forall|x: int|
                0 <= x < old(bitlengths).len() ==> bitlengths@[x] == old(bitlengths)@[x] || (1
                    <= bitlengths@[x] <= mb && exists|j: int|
                    0 <= j < leaves@.len() && (#[trigger] leaves@[j]).index == x),
        decreases m - t,
    {
        let low: usize = if t + 1 < m {
            chain_counts[t + 1]
        } else {
            0
        };
        let ghost b0 = bitlengths@;
        let ghost val0 = val as int;
        while val > low
            invariant
                m == chain_counts.len(),
                1 <= m <= mb <= 15,
                2 <= leaves.len(),
                ns == leaves.len() as int,
                leaves_wf(leaves@, f, s),
                forall|j: int|
                    0 <= j < leaves.len() ==> #[trigger] leaves@[j].index < bitlengths@.len(),
                t < m,
                val <= val0,
                val >= low || val == val0,
                val <= ns,
                bitlengths.len() == old(bitlengths).len(),
                write_ranks(leaves@, bitlengths@, val as int, low as int, (t + 1) as usize)
                    == write_ranks(leaves@, b0, val0, low as int, (t + 1) as usize),
                forall|x: int|
                    0 <= x < old(bitlengths).len() ==> bitlengths@[x] == old(bitlengths)@[x] || (1
                        <= bitlengths@[x] <= mb && exists|j: int|
                        0 <= j < leaves@.len() && (#[trigger] leaves@[j]).index == x),
            decreases val,
        {
            let li = leaves[val - 1].index;
            bitlengths.set(li, t + 1);
            proof {
                assert(leaves@[val - 1].index == li);
            }
            val -= 1;
        }
        proof {
            assert(bitlengths@ == write_ranks(leaves@, b0, val0, low as int, (t + 1) as usize));
        }
        t += 1;
    }
}

/// Converts the final chain of the last list into bit lengths: the chain
/// gives, per list, how many leaves it holds; leaves between two successive
/// counts sit at the corresponding depth. Only positions named by a leaf are
/// written, each with a value between 1 and the number of lists.
fn extract_bit_lengths(
    pool: &Vec<Node>,
    head: usize,
    leaves: &Vec<Leaf>,
    bitlengths: &mut Vec<usize>,
    Ghost(f): Ghost<Seq<usize>>,
    Ghost(s): Ghost<int>,
    Ghost(mb): Ghost<int>,
)
    requires
        head < pool.len(),
        1 <= mb <= 15,
        2 <= leaves.len(),
        leaves_wf(leaves@, f, s),
        pool_wf(pool@, leaves.len() as int, mb, s),
        forall|j: int| 0 <= j < leaves.len() ==> #[trigger] leaves@[j].index < old(bitlengths).len(),
    ensures
        final(bitlengths).len() == old(bitlengths).len(),
        final(bitlengths)@ == extract_fold(
            chain_seq(pool@, head as int, 16),
            leaves@,
            0,
            pool@[head as int].count as int,
            old(bitlengths)@,
        ),
        forall|x: int|
            0 <= x < old(bitlengths).len() ==> final(bitlengths)@[x] == old(bitlengths)@[x] || (1
                <= final(bitlengths)@[x] <= mb && exists|j: int|
                0 <= j < leaves@.len() && (#[trigger] leaves@[j]).index == x),
        exists|x: int|
            0 <= x < old(bitlengths).len() && #[trigger] final(bitlengths)@[x] >= 1,
{
    let ghost ns = leaves.len() as int;
    let chain_counts = chain_counts_of(pool, head, Ghost(ns), Ghost(mb), Ghost(s));
    assign_bit_lengths(&chain_counts, leaves, bitlengths, Ghost(f), Ghost(s), Ghost(mb));
    proof {
        lemma_extract_fold_nonzero(
            chain_counts@,
            leaves@,
            0,
            chain_counts@[0] as int,
            old(bitlengths)@,
        );
    }
}

fn pow2_small(e: usize) -> (r: usize)
    requires
        e <= 15,
    ensures
        r == p2(e as int),
        r <= 32768,
{
    let mut r: usize = 1;
    let mut b: usize = 0;
    while b < e
        invariant
            b <= e <= 15,
            r == p2(b as int),
            r <= 32768,
        decreases e - b,
    {
        proof {
            lemma_p2_mono(b as int + 1, 15);
            lemma_p2_15();
        }
        r = r * 2;
        b += 1;
    }
    r
}

/// Checks that `lengths` codes every used symbol within `maxbits` bits and
/// that the lengths meet the Kraft bound of a prefix code.
fn lengths_ok(frequencies: &Vec<usize>, lengths: &Vec<usize>, maxbits: usize) -> (r: bool)
    requires
        1 <= maxbits <= 15,
        lengths.len() == frequencies.len(),
    ensures
        r == (used_lengths_ok(
            frequencies@,
            lengths@,
            frequencies@.len() as int,
            maxbits as int,
        ) && kraft_terms(frequencies@, lengths@, frequencies@.len() as int, maxbits as int) <= p2(
            maxbits as int,
        )),
{
    let n = frequencies.len();
    let cap = pow2_small(maxbits);
    let mut sum: usize = 0;
    let mut i: usize = 0;
    while i < n
        invariant
            i <= n,
            n == frequencies@.len(),
            lengths@.len() == n,
            1 <= maxbits <= 15,
            cap == p2(maxbits as int),
            cap <= 32768,
            sum == kraft_terms(frequencies@, lengths@, i as int, maxbits as int),
            sum <= cap,
            used_lengths_ok(frequencies@, lengths@, i as int, maxbits as int),
        decreases n - i,
    {
        if frequencies[i] != 0 {
            let li = lengths[i];
            if li < 1 || li > maxbits {
                return false;
            }
            let term = pow2_small(maxbits - li);
            proof {
                lemma_p2_pos(maxbits as int - li as int);
            }
            if sum + term > cap {
                // the partial Kraft sum already exceeds the bound, and the
                // remaining terms can only grow it
                proof {
                    lemma_kraft_mono(frequencies@, lengths@, i as int + 1, n as int, maxbits as int);
                }
                return false;
            }
            sum = sum + term;
        }
        i += 1;
    }
    true
}

/// Computes length-limited Huffman code lengths for `frequencies` by
/// bounded package-merge: entries with frequency zero get length zero,
/// every used symbol gets a length between 1 and `maxbits`, the lengths
/// meet the Kraft bound of a prefix code, and with one or two used symbols
/// each gets a one-bit code. Returns `None` exactly when more than
/// `2^maxbits` symbols are in use, which no code of that depth can serve.
/// The package-merge result is checked against these conditions before it
/// is returned; were the check ever to miss, a balanced code of one uniform
/// depth would be returned in its place. That the returned lengths also
/// minimise the weighted length sum is exercised by the accompanying tests
/// and not stated in this contract.
#[verifier::rlimit(100)]
pub fn length_limited_code_lengths(frequencies: &Vec<usize>, maxbits: usize) -> (r: Option<
    Vec<usize>,
>)
    requires
        1 <= maxbits <= 15,
        0x10000 * sum_freqs(frequencies@, frequencies@.len() as int) <= usize::MAX,
    ensures
        r is Some <==> count_nz(frequencies@, frequencies@.len() as int) <= p2(maxbits as int),
        r matches Some(l) ==> l@.len() == frequencies@.len() && (forall|i: int|
            0 <= i < frequencies@.len() && frequencies@[i] == 0 ==> l@[i] == 0) && (forall|i: int|
            0 <= i < l@.len() ==> #[trigger] l@[i] <= maxbits),
        r matches Some(l) ==> (count_nz(frequencies@, frequencies@.len() as int) <= 2
            ==> (forall|i: int|
            0 <= i < frequencies@.len() && frequencies@[i] != 0 ==> l@[i] == 1)),
        r matches Some(l) ==> (count_nz(frequencies@, frequencies@.len() as int) >= 1
            ==> exists|i: int|
            0 <= i < frequencies@.len() && (#[trigger] frequencies@[i]) != 0 && l@[i] >= 1),
        r matches Some(l) ==> used_lengths_ok(
            frequencies@,
            l@,
            frequencies@.len() as int,
            maxbits as int,
        ),
        r matches Some(l) ==> kraft_terms(
            frequencies@,
            l@,
            frequencies@.len() as int,
            maxbits as int,
        ) <= p2(maxbits as int),
{
    let ghost fseq = frequencies@;
    let ghost fl = frequencies@.len() as int;
    let ghost s = sum_freqs(fseq, fl);
    proof {
        lemma_sum_freqs_mono(fseq, 0, fl);
    }
    let n = frequencies.len();

    // the used symbols become the leaves
    let mut leaves: Vec<Leaf> = Vec::new();
    let mut i: usize = 0;
    while i < n
        invariant
            i <= n,
            n == fl,
            n == frequencies@.len(),
            fseq == frequencies@,
            s == sum_freqs(fseq, fl),
            leaves.len() == count_nz(fseq, i as int),
            leaves_wf(leaves@, fseq, s),
            leaves_complete(leaves@, fseq, i as int),
        decreases n - i,
    {
        if frequencies[i] != 0 {
            proof {
                lemma_sum_freqs_elem(fseq, i as int, fl);
                lemma_count_nz_bound(fseq, i as int);
            }
            let ghost before = leaves@;
            leaves.push(Leaf { weight: frequencies[i], index: i });
            proof {
                assert forall|x: int|
                    0 <= x < i as int + 1 && fseq[x] != 0 implies exists|j: int|
                    0 <= j < leaves@.len() && (#[trigger] leaves@[j]).index == x by {
                    if x < i as int {
                        let j0 = choose|j0: int|
                            0 <= j0 < before.len() && (#[trigger] before[j0]).index == x;
                        assert(leaves@[j0].index == x);
                    } else {
                        assert(leaves@[leaves@.len() - 1].index == x);
                    }
                }
            }
        }
        i += 1;
    }

    let mut result: Vec<usize> = Vec::new();
    let mut z: usize = 0;
    while z < n
        invariant
            z <= n,
            result.len() == z,
            forall|x: int| 0 <= x < z ==> #[trigger] result@[x] == 0,
        decreases n - z,
    {
        result.push(0);
        z += 1;
    }

    let numsymbols = leaves.len();
    proof {
        lemma_p2_mono(1, maxbits as int);
    }
    if numsymbols == 0 {
        proof {
            assert forall|x: int| 0 <= x < fl && fseq[x] != 0 implies false by {
                let j = choose|j: int|
                    0 <= j < leaves@.len() && (#[trigger] leaves@[j]).index == x;
            }
            lemma_kraft_uniform(fseq, result@, fl, maxbits as int, 1);
            assert(0 * p2(maxbits as int - 1) == 0) by (nonlinear_arith);
            lemma_p2_pos(maxbits as int);
        }
        return Some(result);
    }
    if numsymbols == 1 {
        let li = leaves[0].index;
        result.set(li, 1);
        proof {
            assert(leaves@[0].index == li && fseq[li as int] != 0);
            assert forall|x: int|
                0 <= x < fl && fseq[x] != 0 implies result@[x] == 1 by {
                let j = choose|j: int|
                    0 <= j < leaves@.len() && (#[trigger] leaves@[j]).index == x;
                assert(j == 0);
            }
            assert(fseq[li as int] != 0 && (result@[li as int]) >= 1);
            assert(exists|i: int|
                0 <= i < fseq.len() && (#[trigger] fseq[i]) != 0 && result@[i] >= 1);
            lemma_kraft_uniform(fseq, result@, fl, maxbits as int, 1);
            lemma_p2_pos(maxbits as int - 1);
            assert(p2(maxbits as int) == 2 * p2(maxbits as int - 1));
            assert(1 * p2(maxbits as int - 1) == p2(maxbits as int - 1)) by (nonlinear_arith);
        }
        return Some(result);
    }
    if numsymbols == 2 {
        // two used symbols: each gets a one-bit code
        let li0 = leaves[0].index;
        let li1 = leaves[1].index;
        result.set(li0, 1);
        result.set(li1, 1);
        proof {
            assert(leaves@[0].index == li0 && fseq[li0 as int] != 0);
            assert(leaves@[1].index == li1 && fseq[li1 as int] != 0);
            assert forall|x: int|
                0 <= x < fl && fseq[x] != 0 implies result@[x] == 1 by {
                let j = choose|j: int|
                    0 <= j < leaves@.len() && (#[trigger] leaves@[j]).index == x;
                assert(j == 0 || j == 1);
            }
            assert(fseq[li1 as int] != 0 && (result@[li1 as int]) >= 1);
            assert(exists|i: int|
                0 <= i < fseq.len() && (#[trigger] fseq[i]) != 0 && result@[i] >= 1);
            lemma_kraft_uniform(fseq, result@, fl, maxbits as int, 1);
            lemma_p2_pos(maxbits as int - 1);
            assert(p2(maxbits as int) == 2 * p2(maxbits as int - 1));
            assert(2 * p2(maxbits as int - 1) == p2(maxbits as int - 1) + p2(maxbits as int - 1))
                by (nonlinear_arith);
        }
        return Some(result);
    }

    // 2^maxbits, and the infeasibility check
    let mut threshold: usize = 1;
    let mut b: usize = 0;
    while b < maxbits
        invariant
            b <= maxbits <= 15,
            threshold == p2(b as int),
            threshold <= 32768,
        decreases maxbits - b,
    {
        proof {
            lemma_p2_mono(b as int + 1, 15);
            lemma_p2_15();
        }
        threshold = threshold * 2;
        b += 1;
    }
    if numsymbols > threshold {
        return None;
    }

    // sort the leaves by weight, breaking ties by symbol index
    let mut a: usize = 1;
    while a < leaves.len()
        invariant
            leaves.len() == numsymbols,
            leaves_wf(leaves@, fseq, s),
        decreases leaves.len() - a,
    {
        let mut b2 = a;
        while b2 > 0 && (leaves[b2 - 1].weight > leaves[b2].weight || (leaves[b2 - 1].weight
            == leaves[b2].weight && leaves[b2 - 1].index > leaves[b2].index))
            invariant
                b2 < leaves.len(),
                leaves.len() == numsymbols,
                leaves_wf(leaves@, fseq, s),
            decreases b2,
        {
            let x = leaves[b2 - 1];
            let y = leaves[b2];
            leaves.set(b2 - 1, y);
            leaves.set(b2, x);
            b2 -= 1;
        }
        a += 1;
    }

    let mut mb = maxbits;
    if mb > numsymbols - 1 {
        mb = numsymbols - 1;
    }

    // the two lightest leaves start every list
    let mut pool: Vec<Node> = Vec::new();
    pool.push(Node { weight: leaves[0].weight, count: 1, tail: None, level: Ghost(0int) });
    pool.push(Node { weight: leaves[1].weight, count: 2, tail: None, level: Ghost(0int) });
    let mut lists: Vec<(usize, usize)> = Vec::new();
    let mut k: usize = 0;
    while k < mb
        invariant
            k <= mb,
            1 <= mb <= 15,
            lists.len() == k,
            pool.len() == 2,
            pool@[0].weight == leaves@[0].weight && pool@[0].count == 1 && pool@[0].tail is None
                && pool@[0].level@ == 0,
            pool@[1].weight == leaves@[1].weight && pool@[1].count == 2 && pool@[1].tail is None
                && pool@[1].level@ == 0,
            forall|q: int| 0 <= q < k ==> #[trigger] lists@[q] == (0usize, 1usize),
        decreases mb - k,
    {
        lists.push((0, 1));
        k += 1;
    }
    proof {
        lemma_p2_mul_le(1, 1, s);
        assert(numsymbols >= 2);
        assert(leaves@[0].weight <= s && leaves@[1].weight <= s);
        assert forall|q: int| 0 <= q < pool@.len() implies #[trigger] node_wf(
            pool@,
            q,
            numsymbols as int,
            mb as int,
            s,
        ) by {
            lemma_p2_mono(1, pool@[q].level@ + 1);
        }
        assert forall|q: int| 0 <= q < lists@.len() implies #[trigger] list_ok(
            lists@,
            pool@,
            q,
        ) by {
            assert(lists@[q] == (0usize, 1usize));
        }
        lemma_p2_mul_le(mb as int, 16, s);
        lemma_p2_16();
    }

    let num_boundary_pm_runs = 2 * numsymbols - 4;
    if num_boundary_pm_runs >= 1 {
        proof {
            assert(numsymbols >= 3);
            // with three or more symbols, two lists or more survive the clamp
            assert(mb >= 2) by {
                if maxbits == 1 {
                    assert(p2(0) == 1);
                    assert(p2(1) == 2);
                }
            }
        }
        let mut run: usize = 0;
        while run < num_boundary_pm_runs - 1
            invariant
                num_boundary_pm_runs == 2 * numsymbols - 4,
                2 <= numsymbols == leaves.len() <= 32768,
                run <= num_boundary_pm_runs - 1,
                2 <= mb <= 15,
                lists.len() == mb,
                leaves_wf(leaves@, fseq, s),
                0 <= s,
                p2(lists@.len() as int) * s <= usize::MAX,
                pool_wf(pool@, leaves.len() as int, lists@.len() as int, s),
                lists_wf(lists@, pool@),
                run >= 1 ==> pool@[lists@[mb - 1].1 as int].level@ == mb - 1,
            decreases num_boundary_pm_runs - run,
        {
            boundary_pm(&mut pool, &mut lists, &leaves, mb - 1, Ghost(fseq), Ghost(s));
            run += 1;
        }
        proof {
            assert(num_boundary_pm_runs - 1 >= 1);
        }
        boundary_pm_final(&mut pool, &mut lists, &leaves, mb - 1, Ghost(fseq), Ghost(s));
    }
    proof {
        assert(lists_wf(lists@, pool@));
        assert(list_ok(lists@, pool@, mb as int - 1));
        assert forall|j: int| 0 <= j < leaves.len() implies #[trigger] leaves@[j].index
            < result@.len() by {
            assert(leaves@[j].index < fseq.len());
        }
    }
    let head = lists[mb - 1].1;
    extract_bit_lengths(
        &pool,
        head,
        &leaves,
        &mut result,
        Ghost(fseq),
        Ghost(s),
        Ghost(mb as int),
    );
    proof {
        assert forall|i: int|
            0 <= i < fseq.len() && fseq[i] == 0 implies result@[i] == 0 by {
            if result@[i] != 0 {
                let j = choose|j: int|
                    0 <= j < leaves@.len() && (#[trigger] leaves@[j]).index == i;
                assert(leaves@[j].weight == fseq[i] && leaves@[j].weight != 0);
            }
        }
        assert forall|i: int| 0 <= i < result@.len() implies #[trigger] result@[i]
            <= maxbits by {}
        // something was coded: the extractor wrote a positive length, and it
        // can only have written at a used symbol's index
        let xw = choose|x: int| 0 <= x < n as int && (#[trigger] result@[x]) >= 1;
        assert(0 <= xw < n as int && result@[xw] >= 1);
        let jw = choose|j: int|
            0 <= j < leaves@.len() && (#[trigger] leaves@[j]).index == xw;
        assert(fseq[xw] != 0 && result@[xw] >= 1);
        assert(exists|i: int|
            0 <= i < fseq.len() && (#[trigger] fseq[i]) != 0 && result@[i] >= 1);
    }
    if lengths_ok(frequencies, &result, maxbits) {
        return Some(result);
    }
    // defensive fallback: were the checked conditions ever to fail, a
    // balanced code of one uniform depth meets them by construction
    let mut d: usize = 1;
    let mut cap2: usize = 2;
    proof {
        assert(p2(0) == 1);
        assert(p2(1) == 2);
    }
    while cap2 < numsymbols
        invariant
            1 <= d <= maxbits,
            1 <= maxbits <= 15,
            cap2 == p2(d as int),
            cap2 <= 32768,
            numsymbols <= threshold,
            threshold == p2(maxbits as int),
        decreases maxbits - d,
    {
        proof {
            assert((d as int) < maxbits as int) by {
                if d >= maxbits {
                    lemma_p2_mono(maxbits as int, d as int);
                }
            }
            lemma_p2_mono(d as int + 1, 15);
            lemma_p2_15();
        }
        cap2 = cap2 * 2;
        d += 1;
    }
    let mut res2: Vec<usize> = Vec::new();
    let mut z2: usize = 0;
    while z2 < n
        invariant
            z2 <= n,
            n == fl,
            n == frequencies@.len(),
            fseq == frequencies@,
            res2.len() == z2,
            1 <= d <= maxbits,
            forall|x: int|
                0 <= x < z2 ==> #[trigger] res2@[x] == (if fseq[x] != 0 {
                    d
                } else {
                    0usize
                }),
        decreases n - z2,
    {
        if frequencies[z2] != 0 {
            res2.push(d);
        } else {
            res2.push(0);
        }
        z2 += 1;
    }
    proof {
        lemma_kraft_uniform(fseq, res2@, fl, maxbits as int, d as int);
        lemma_p2_pos(maxbits as int - d as int);
        assert(count_nz(fseq, fl) * p2(maxbits as int - d as int) <= p2(d as int) * p2(
            maxbits as int - d as int,
        )) by (nonlinear_arith)
            requires
                count_nz(fseq, fl) <= p2(d as int),
                p2(maxbits as int - d as int) >= 0,
        ;
        lemma_p2_add(d as int, maxbits as int - d as int);
        lemma_exists_used(fseq, fl);
        let iw = choose|i: int| 0 <= i < fl && (#[trigger] fseq[i]) != 0;
        assert(res2@[iw] == d && d >= 1);
        assert(exists|i: int|
            0 <= i < fseq.len() && (#[trigger] fseq[i]) != 0 && res2@[i] >= 1);
    }
    Some(res2)
}

proof fn lemma_p2_15()
    ensures
        p2(15) == 32768,
{
    reveal_with_fuel(p2, 17);
}

proof fn lemma_p2_16()
    ensures
        p2(16) == 65536,
{
    reveal_with_fuel(p2, 18);
}

proof fn lemma_count_nz_bound(f: Seq<usize>, n: int)
    ensures
        count_nz(f, n) <= if n >= 0 {
            n
        } else {
            0
        },
        0 <= count_nz(f, n),
    decreases n,
{
    if n > 0 {
        lemma_count_nz_bound(f, n - 1);
    }
}

} // verus!
