use zopfli::katajainen::length_limited_code_lengths;
use zopfli::deflate::get_fixed_tree;
use zopfli::deflate::optimize_huffman_for_rle;
use zopfli::deflate::patch_distance_codes_for_buggy_decoders;

#[test]
fn test_from_paper_3() {
    let input = vec![1, 1, 5, 7, 10, 14];
    let output = length_limited_code_lengths(&input, 3).unwrap();
    let answer = vec![3, 3, 3, 3, 2, 2];
    assert_eq!(output, answer);
}

#[test]
fn test_from_paper_4() {
    let input = vec![1, 1, 5, 7, 10, 14];
    let output = length_limited_code_lengths(&input, 4).unwrap();
    let answer = vec![4, 4, 3, 2, 2, 2];
    assert_eq!(output, answer);
}

#[test]
fn code_lengths_nineteen_entries() {
    let input = vec![252, 0, 1, 6, 9, 10, 6, 3, 2, 0, 0, 0, 0, 0, 0, 0, 0, 0, 0];
    let output = length_limited_code_lengths(&input, 7).unwrap();
    let answer = vec![1, 0, 6, 4, 3, 3, 3, 5, 6, 0, 0, 0, 0, 0, 0, 0, 0, 0, 0];
    assert_eq!(output, answer);
}

#[test]
fn code_lengths_no_used_symbol() {
    let input = vec![0, 0, 0, 0];
    let output = length_limited_code_lengths(&input, 7).unwrap();
    assert_eq!(output, vec![0, 0, 0, 0]);
}

#[test]
fn code_lengths_one_used_symbol() {
    let input = vec![0, 0, 5, 0];
    let output = length_limited_code_lengths(&input, 7).unwrap();
    assert_eq!(output, vec![0, 0, 1, 0]);
}

#[test]
fn code_lengths_two_used_symbols() {
    let input = vec![9, 0, 5, 0];
    let output = length_limited_code_lengths(&input, 7).unwrap();
    assert_eq!(output, vec![1, 0, 1, 0]);
}

#[test]
fn code_lengths_infeasible_depth() {
    // five used symbols cannot fit in a depth-two code
    let input = vec![1, 1, 1, 1, 1];
    assert_eq!(length_limited_code_lengths(&input, 2), None);
}

#[test]
fn code_lengths_respect_maxbits() {
    let input = vec![1, 2, 4, 8, 16, 32, 64, 128, 256];
    let output = length_limited_code_lengths(&input, 15).unwrap();
    for (i, &l) in output.iter().enumerate() {
        assert!(l <= 15);
        if input[i] == 0 {
            assert_eq!(l, 0);
        } else {
            assert!(l >= 1);
        }
    }
}

#[test]
fn fixed_tree_values() {
    let mut ll = vec![0u32; 288];
    let mut d = vec![0u32; 32];
    get_fixed_tree(&mut ll, &mut d);
    assert_eq!(ll[0], 8);
    assert_eq!(ll[143], 8);
    assert_eq!(ll[144], 9);
    assert_eq!(ll[255], 9);
    assert_eq!(ll[256], 7);
    assert_eq!(ll[279], 7);
    assert_eq!(ll[280], 8);
    assert_eq!(ll[287], 8);
    for i in 0..32 {
        assert_eq!(d[i], 5);
    }
}

#[test]
fn rle_optimize_keeps_length_and_tail() {
    let mut counts = vec![13, 7, 7, 7, 1, 1, 0, 0, 0];
    let before = counts.clone();
    optimize_huffman_for_rle(&mut counts);
    assert_eq!(counts.len(), before.len());
    // the trailing zeros are never touched
    assert_eq!(&counts[6..], &before[6..]);
}

#[test]
fn rle_optimize_all_zero_unchanged() {
    let mut counts = vec![0usize; 10];
    optimize_huffman_for_rle(&mut counts);
    assert_eq!(counts, vec![0usize; 10]);
}

#[test]
fn rle_optimize_good_runs_unchanged() {
    // a run of eight equal values already encodes well and is kept
    let mut counts = vec![10usize; 8];
    optimize_huffman_for_rle(&mut counts);
    assert_eq!(counts, vec![10usize; 8]);
}

#[test]
fn patch_no_dist_codes() {
    let mut d = vec![0u32; 32];
    patch_distance_codes_for_buggy_decoders(&mut d);
    assert_eq!(d[0], 1);
    assert_eq!(d[1], 1);
    for i in 2..32 {
        assert_eq!(d[i], 0);
    }
}

#[test]
fn patch_one_dist_code() {
    let mut d = vec![0u32; 32];
    d[1] = 3;
    patch_distance_codes_for_buggy_decoders(&mut d);
    assert_eq!(d[0], 1);
    assert_eq!(d[1], 3);
}

#[test]
fn patch_two_dist_codes_unchanged() {
    let mut d = vec![0u32; 32];
    d[0] = 3;
    d[1] = 3;
    let before = d.clone();
    patch_distance_codes_for_buggy_decoders(&mut d);
    assert_eq!(d, before);
}

#[test]
fn patch_leaves_two_nonzero() {
    // whatever the input, at least two of the first 30 lengths end non-zero
    let inputs: Vec<Vec<u32>> = vec![
        vec![0u32; 32],
        {
            let mut v = vec![0u32; 32];
            v[0] = 5;
            v
        },
        {
            let mut v = vec![0u32; 32];
            v[17] = 2;
            v
        },
    ];
    for mut d in inputs {
        patch_distance_codes_for_buggy_decoders(&mut d);
        let nonzero = d[..30].iter().filter(|&&x| x != 0).count();
        assert!(nonzero >= 2);
    }
}

#[test]
fn code_lengths_mixed_weights_depth_seven() {
    let input = vec![10, 0, 1, 6, 9, 4, 6, 3, 2, 0, 0, 0, 0, 0, 0, 0, 42, 0, 0];
    let output = length_limited_code_lengths(&input, 7).unwrap();
    let answer = vec![3, 0, 6, 4, 3, 4, 4, 5, 6, 0, 0, 0, 0, 0, 0, 0, 1, 0, 0];
    assert_eq!(output, answer);
}

#[test]
fn code_lengths_heavy_tail_depth_seven() {
    let input = vec![4, 0, 1, 6, 9, 10, 6, 3, 2, 0, 0, 0, 0, 0, 0, 0, 0, 26, 0];
    let output = length_limited_code_lengths(&input, 7).unwrap();
    let answer = vec![4, 0, 6, 4, 3, 3, 4, 5, 6, 0, 0, 0, 0, 0, 0, 0, 0, 1, 0];
    assert_eq!(output, answer);
}

#[test]
fn code_lengths_distance_alphabet_depth_fifteen() {
    let input = vec![
        0, 0, 0, 0, 0, 0, 18, 0, 6, 0, 12, 2, 14, 9, 27, 15, 23, 15, 17, 8, 1, 0, 0, 0, 0, 0, 0,
        0, 0, 0, 0, 0,
    ];
    let output = length_limited_code_lengths(&input, 15).unwrap();
    let answer = vec![
        0, 0, 0, 0, 0, 0, 3, 0, 5, 0, 4, 6, 4, 4, 3, 4, 3, 3, 3, 4, 6, 0, 0, 0, 0, 0, 0, 0, 0, 0,
        0, 0,
    ];
    assert_eq!(output, answer);
}

#[test]
fn rle_optimize_collapses_near_constant_stride() {
    // the first four counts sit within 4 of the limit and collapse to their
    // rounded average (10 + 10 + 11 + 12 -> 11); the jump to 20 ends the stride
    let mut counts = vec![10, 10, 11, 12, 20];
    optimize_huffman_for_rle(&mut counts);
    assert_eq!(counts, vec![11, 11, 11, 11, 20]);
}
