use zopfli::lz77::Lz77Store;
use zopfli::lz77::ZopfliBlockState;
use zopfli::symbols::length_symbol;
use zopfli::symbols::dist_symbol;
use zopfli::deflate::calculate_block_symbol_size;
use zopfli::deflate::calculate_block_symbol_size_small;
use zopfli::deflate::calculate_block_symbol_size_given_counts;
use zopfli::deflate::get_fixed_tree;

fn sample_store(n: usize) -> Lz77Store {
    let mut store = Lz77Store::new();
    for i in 0..n {
        if i % 3 == 0 {
            // a match token
            let length = 3 + (i % 256) as u16;
            let dist = 1 + (i % 32768) as u16;
            store.lit_len_dist(length, dist, i);
        } else {
            // a literal token
            store.lit_len_dist((i % 256) as u16, 0, i);
        }
    }
    store
}

fn naive_histogram(store: &Lz77Store, lstart: usize, lend: usize) -> (Vec<usize>, Vec<usize>) {
    let mut ll = vec![0usize; 288];
    let mut d = vec![0usize; 32];
    for i in lstart..lend {
        let litlen = store.litlens[i];
        let dist = store.dists[i];
        if dist == 0 {
            ll[litlen as usize] += 1;
        } else {
            ll[length_symbol(litlen) as usize] += 1;
            d[dist_symbol(dist) as usize] += 1;
        }
    }
    (ll, d)
}

#[test]
fn histogram_matches_naive_recount() {
    let store = sample_store(1000);
    let (ll, d) = store.get_histogram(0, 1000);
    let (nll, nd) = naive_histogram(&store, 0, 1000);
    assert_eq!(ll, nll);
    assert_eq!(d, nd);
}

#[test]
fn histogram_matches_naive_recount_subrange() {
    let store = sample_store(1000);
    // a long inner range takes the cumulative-difference path
    let (ll, d) = store.get_histogram(7, 980);
    let (nll, nd) = naive_histogram(&store, 7, 980);
    assert_eq!(ll, nll);
    assert_eq!(d, nd);
    // a short range takes the plain recount path
    let (ll2, d2) = store.get_histogram(12, 40);
    let (nll2, nd2) = naive_histogram(&store, 12, 40);
    assert_eq!(ll2, nll2);
    assert_eq!(d2, nd2);
}

#[test]
fn store_records_tokens() {
    let mut store = Lz77Store::new();
    store.lit_len_dist(65, 0, 0);
    store.lit_len_dist(3, 100, 1);
    store.lit_len_dist(255, 0, 4);
    assert_eq!(store.litlens, vec![65, 3, 255]);
    assert_eq!(store.dists, vec![0, 100, 0]);
}

#[test]
fn block_size_small_and_large_paths_agree() {
    let store = sample_store(1000);
    let mut ll = vec![0u32; 288];
    let mut d = vec![0u32; 32];
    get_fixed_tree(&mut ll, &mut d);
    // the full range is long enough for the histogram path
    let large = calculate_block_symbol_size(&ll, &d, &store, 0, 1000);
    let small = calculate_block_symbol_size_small(&ll, &d, &store, 0, 1000);
    assert_eq!(large, small);
    // and via explicitly supplied counts
    let (ll_counts, d_counts) = store.get_histogram(0, 1000);
    let given = calculate_block_symbol_size_given_counts(&ll_counts, &d_counts, &ll, &d, &store, 0, 1000);
    assert_eq!(given, small);
}

#[test]
fn block_size_counts_every_token_and_the_end_code() {
    let mut store = Lz77Store::new();
    store.lit_len_dist(0, 0, 0);  // literal: 8 bits in the fixed tree
    store.lit_len_dist(200, 0, 1);  // literal: 9 bits
    store.lit_len_dist(3, 1, 2);  // match: 7 + 5 bits, no extra
    let mut ll = vec![0u32; 288];
    let mut d = vec![0u32; 32];
    get_fixed_tree(&mut ll, &mut d);
    // 8 + 9 + 12 tokens plus the 7-bit end-of-block code
    assert_eq!(calculate_block_symbol_size(&ll, &d, &store, 0, 3), 8 + 9 + 12 + 7);
}

#[test]
fn block_state_holds_cache() {
    let with = ZopfliBlockState::new(10, 30, true);
    assert_eq!(with.blockstart, 10);
    assert_eq!(with.blockend, 30);
    assert!(with.lmc.is_some());
    let without = ZopfliBlockState::new(0, 5, false);
    assert!(without.lmc.is_none());
}
