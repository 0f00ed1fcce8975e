use bigbed_jaccard::oph::{
    densify_with, EmptySketchError, OnePermutationHasher, SketchLengthMismatchError, OPH_SEED,
};

#[test]
fn test_one_permutation_hasher_new() {
    let mut oph = OnePermutationHasher::new(3);
    assert_eq!(oph.get_indicators(), &vec![true, false, true]);
}

#[test]
fn test_one_permutation_hasher_densify() {
    let mut oph = OnePermutationHasher::new(4);
    let data = [None, None, None, Some(2)];
    let dense = oph.densify(&data).unwrap();
    let offset = oph.offset() as u32;
    assert_eq!(
        dense,
        vec![2 + 3 * offset, 2 + 2 * offset, 2 + offset, 2]
    );
}

#[test]
fn test_one_permutation_hasher_jaccard() {
    let sketch1 = vec![1, 2, 0];
    let sketch2 = vec![1, 0, 2];
    let ratio = match OnePermutationHasher::jaccard(&sketch1, &sketch2) {
        Ok(val) => val,
        Err(_) => panic!("This test should not error."),
    };
    let result = ratio.num as f64 / ratio.den as f64;
    let expected = 1. / 3.;
    assert!((result - expected).abs() <= 2. * f64::EPSILON);
}

#[test]
#[should_panic]
fn test_one_permutation_hasher_jaccard_length_mismatch_raises() {
    let sketch1 = vec![1, 2, 0];
    let sketch2 = vec![1, 0];
    let _ = OnePermutationHasher::jaccard(&sketch1, &sketch2).unwrap();
}

#[test]
fn jaccard_counts_agreeing_bins() {
    let ratio = OnePermutationHasher::jaccard(&[1, 2, 0], &[1, 0, 2]).unwrap();
    assert_eq!(ratio.num, 1);
    assert_eq!(ratio.den, 3);
    let same = OnePermutationHasher::jaccard(&[4, 5, 6, 7], &[4, 5, 6, 7]).unwrap();
    assert_eq!(same.num, 4);
    assert_eq!(same.den, 4);
    let none = OnePermutationHasher::jaccard(&[], &[]).unwrap();
    assert_eq!(none.num, 0);
    assert_eq!(none.den, 0);
}

#[test]
fn jaccard_length_mismatch_is_an_error() {
    let result = OnePermutationHasher::jaccard(&[1, 2, 0], &[1, 0]);
    assert!(matches!(result, Err(SketchLengthMismatchError)));
    assert_eq!(
        SketchLengthMismatchError.message(),
        "Sketches to compare must be the same length"
    );
}

#[test]
fn offset_is_one_more_than_the_share_of_a_bin() {
    assert_eq!(OnePermutationHasher::new(4).offset(), 1_073_741_824);
    assert_eq!(OnePermutationHasher::new(3).offset(), 1_431_655_766);
    assert_eq!(OnePermutationHasher::new(1).offset(), 4_294_967_296);
    assert_eq!(OnePermutationHasher::new(100).offset(), 42_949_673);
    assert_eq!(OnePermutationHasher::new(4).num_bins(), 4);
}

#[test]
fn indicators_depend_on_the_seed_alone() {
    let mut first = OnePermutationHasher::new(64);
    let mut second = OnePermutationHasher::with_seed(64, OPH_SEED);
    let bits = first.get_indicators().clone();
    assert_eq!(bits.len(), 64);
    assert_eq!(&bits, second.get_indicators());
    assert_eq!(&bits, first.get_indicators());
    assert!(bits.iter().any(|&bit| bit));
    assert!(bits.iter().any(|&bit| !bit));
}

#[test]
fn indicators_of_fewer_bins_begin_those_of_more() {
    let mut few = OnePermutationHasher::new(3);
    let mut many = OnePermutationHasher::new(10);
    let short = few.get_indicators().clone();
    let long = many.get_indicators().clone();
    assert_eq!(short[..], long[..3]);
}

#[test]
fn indicators_differ_between_seeds() {
    let mut first = OnePermutationHasher::with_seed(128, 1);
    let mut second = OnePermutationHasher::with_seed(128, 2);
    assert_ne!(first.get_indicators().clone(), second.get_indicators().clone());
}

#[test]
fn sketch_keeps_the_smallest_hash_of_each_bin() {
    let oph = OnePermutationHasher::new(4);
    assert_eq!(
        oph.sketch(&[1, 2, 3]),
        vec![
            Some(2_775_455_340),
            Some(1_257_542_785),
            None,
            Some(4_293_367_895)
        ]
    );
    assert_eq!(
        oph.sketch(&[1, 2, 3, 8, 9]),
        vec![
            Some(740_002_048),
            Some(1_257_542_785),
            None,
            Some(2_257_914_603)
        ]
    );
    assert_eq!(
        oph.sketch(&[9, 8, 3, 2, 1]),
        oph.sketch(&[1, 2, 3, 8, 9])
    );
}

#[test]
fn sketch_of_nothing_is_empty_in_every_bin() {
    let oph = OnePermutationHasher::new(3);
    assert_eq!(oph.sketch(&[]), vec![None, None, None]);
}

#[test]
fn densify_looks_backward_where_the_indicator_is_false() {
    let sketch = [None, Some(5), None, None];
    let dense = densify_with(&sketch, &[false, false, false, false], 10).unwrap();
    assert_eq!(dense, vec![35, 5, 15, 25]);
}

#[test]
fn densify_looks_forward_where_the_indicator_is_true() {
    let sketch = [None, Some(5), None, None];
    let dense = densify_with(&sketch, &[true, true, true, true], 10).unwrap();
    assert_eq!(dense, vec![15, 5, 35, 25]);
}

#[test]
fn densify_takes_the_nearest_filled_bin() {
    let sketch = [Some(1), None, None, Some(100), None];
    let dense = densify_with(&sketch, &[true, true, false, true, false], 1000).unwrap();
    assert_eq!(dense, vec![1, 2100, 2001, 100, 1100]);
}

#[test]
fn densify_reduces_the_sum_modulo_two_to_the_32() {
    let sketch = [Some(u32::MAX), None];
    let dense = densify_with(&sketch, &[true, true], 2).unwrap();
    assert_eq!(dense, vec![u32::MAX, 1]);
}

#[test]
fn densify_keeps_a_full_sketch() {
    let sketch = [Some(3), Some(2), Some(1)];
    let dense = densify_with(&sketch, &[true, false, true], 7).unwrap();
    assert_eq!(dense, vec![3, 2, 1]);
}

#[test]
fn densify_of_an_empty_sketch_fails() {
    let sketch = [None, None, None];
    let result = densify_with(&sketch, &[true, false, true], 7);
    assert!(matches!(result, Err(EmptySketchError)));
    let mut oph = OnePermutationHasher::new(3);
    assert!(oph.densify(&sketch).is_err());
    assert_eq!(
        EmptySketchError.message(),
        "All bins of sketch were empty, could not densify."
    );
}

#[test]
fn densify_of_a_single_empty_bin_fails() {
    let result = densify_with(&[None], &[true], 7);
    assert!(result.is_err());
}

#[test]
fn densify_of_no_bins_is_empty() {
    let dense = densify_with(&[], &[], 7).unwrap();
    assert!(dense.is_empty());
}

#[test]
fn densify_optimal_takes_the_first_filled_bin_probed() {
    let oph = OnePermutationHasher::new(4);
    let dense = oph.densify_optimal(&[None, None, None, Some(2)]).unwrap();
    assert_eq!(dense, vec![2, 2, 2, 2]);
    let dense = oph.densify_optimal(&[Some(7), None, None, Some(2)]).unwrap();
    assert_eq!(dense, vec![7, 7, 2, 2]);
}

#[test]
fn densify_optimal_of_an_empty_sketch_fails() {
    let oph = OnePermutationHasher::new(4);
    let result = oph.densify_optimal(&[None, None, None, None]);
    assert!(matches!(result, Err(EmptySketchError)));
}

#[test]
fn dense_sketch_fills_the_empty_bin() {
    let mut oph = OnePermutationHasher::new(4);
    let dense = oph.dense_sketch(&[1, 2, 3]).unwrap();
    assert_eq!(
        dense,
        vec![2_775_455_340, 1_257_542_785, 1_072_142_423, 4_293_367_895]
    );
}

#[test]
fn dense_sketch_of_nothing_fails() {
    let mut oph = OnePermutationHasher::new(4);
    assert!(oph.dense_sketch(&[]).is_err());
}

#[test]
fn dense_sketches_of_equal_sets_agree_everywhere() {
    let mut oph = OnePermutationHasher::new(16);
    let first = oph.dense_sketch(&[5, 6, 7, 8, 9, 100, 101]).unwrap();
    let second = oph.dense_sketch(&[101, 100, 9, 8, 7, 6, 5]).unwrap();
    let ratio = OnePermutationHasher::jaccard(&first, &second).unwrap();
    assert_eq!(ratio.num, 16);
    assert_eq!(ratio.den, 16);
}
