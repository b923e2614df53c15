use zopfli::cache::ZopfliLongestMatchCache;
use zopfli::squeeze::get_cost_fixed;
use zopfli::squeeze::RanState;
use zopfli::symbols::length_symbol;
use zopfli::symbols::length_extra_bits;
use zopfli::symbols::length_symbol_extra_bits;
use zopfli::symbols::dist_symbol;
use zopfli::symbols::dist_extra_bits;
use zopfli::symbols::dist_symbol_extra_bits;

#[test]
fn sublen_cache_round_trip() {
    // distances 5,5,5,7,7,9 for lengths 3..=8
    let v: Vec<u16> = vec![0, 0, 0, 5, 5, 5, 7, 7, 9];
    let mut lmc = ZopfliLongestMatchCache::new(4);
    lmc.sublen_to_cache(&v, 1, 8);
    assert_eq!(lmc.max_cached_sublen(1), 8);
    let mut out = vec![0u16; 259];
    lmc.cache_to_sublen(1, 8, &mut out);
    assert_eq!(&out[3..=8], &v[3..=8]);
    // the other positions are still empty
    assert_eq!(lmc.max_cached_sublen(0), 0);
    assert_eq!(lmc.max_cached_sublen(2), 0);
}

#[test]
fn sublen_cache_many_transitions() {
    // a distinct distance at every length: more transitions than slots,
    // so only the first eight are kept and the maximum is the eighth
    let mut v: Vec<u16> = vec![0u16; 259];
    for i in 3..259 {
        v[i] = i as u16;
    }
    let mut lmc = ZopfliLongestMatchCache::new(1);
    lmc.sublen_to_cache(&v, 0, 258);
    assert_eq!(lmc.max_cached_sublen(0), 10);
    let mut out = vec![0u16; 259];
    lmc.cache_to_sublen(0, 258, &mut out);
    assert_eq!(&out[3..=10], &v[3..=10]);
}

#[test]
fn fresh_cache_is_unfilled() {
    let lmc = ZopfliLongestMatchCache::new(3);
    for p in 0..3 {
        assert_eq!(lmc.length_at(p), 1);
        assert_eq!(lmc.dist_at(p), 0);
        assert_eq!(lmc.max_cached_sublen(p), 0);
    }
}

#[test]
fn short_length_caches_nothing() {
    let v: Vec<u16> = vec![0, 0, 9];
    let mut lmc = ZopfliLongestMatchCache::new(1);
    lmc.sublen_to_cache(&v, 0, 2);
    assert_eq!(lmc.max_cached_sublen(0), 0);
}

#[test]
fn cost_fixed_values() {
    assert_eq!(get_cost_fixed(140, 0), 8);
    assert_eq!(get_cost_fixed(200, 0), 9);
    assert_eq!(get_cost_fixed(3, 1), 7 + 5 + 0 + 0);
    assert_eq!(get_cost_fixed(258, 32768), 8 + 5 + 0 + 13);
}

#[test]
fn ran_is_deterministic() {
    let mut a = RanState::new();
    let mut b = RanState::new();
    let xs: Vec<u32> = (0..5).map(|_| a.ran()).collect();
    let ys: Vec<u32> = (0..5).map(|_| b.ran()).collect();
    assert_eq!(xs, ys);
    // the state moves on every draw
    assert_ne!(xs[0], xs[1]);
}

#[test]
fn length_symbol_table() {
    assert_eq!(length_symbol(3), 257);
    assert_eq!(length_symbol(10), 264);
    assert_eq!(length_symbol(11), 265);
    assert_eq!(length_symbol(130), 280);
    assert_eq!(length_symbol(131), 281);
    assert_eq!(length_symbol(257), 284);
    assert_eq!(length_symbol(258), 285);
    assert_eq!(length_extra_bits(3), 0);
    assert_eq!(length_extra_bits(11), 1);
    assert_eq!(length_extra_bits(257), 5);
    assert_eq!(length_extra_bits(258), 0);
    assert_eq!(length_symbol_extra_bits(257), 0);
    assert_eq!(length_symbol_extra_bits(265), 1);
    assert_eq!(length_symbol_extra_bits(284), 5);
    assert_eq!(length_symbol_extra_bits(285), 0);
}

#[test]
fn dist_symbol_table() {
    assert_eq!(dist_symbol(1), 0);
    assert_eq!(dist_symbol(4), 3);
    assert_eq!(dist_symbol(5), 4);
    assert_eq!(dist_symbol(24577), 29);
    assert_eq!(dist_symbol(32768), 29);
    assert_eq!(dist_extra_bits(1), 0);
    assert_eq!(dist_extra_bits(5), 1);
    assert_eq!(dist_extra_bits(32768), 13);
    assert_eq!(dist_symbol_extra_bits(0), 0);
    assert_eq!(dist_symbol_extra_bits(4), 1);
    assert_eq!(dist_symbol_extra_bits(29), 13);
}
