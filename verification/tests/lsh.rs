use bigbed_jaccard::lsh::{IncorrectlyChunkedInputSketchError, Lsh};
use bigbed_jaccard::oph::OnePermutationHasher;

#[test]
fn test_lsh_new() {
    let lsh = Lsh::new(3_usize, 2_usize);
    let result = lsh.table_count();
    assert_eq!(result, 3)
}

#[test]
fn test_chunk_sketch() {
    let lsh = Lsh::new(3_usize, 2_usize);
    assert_eq!(
        lsh.chunk_sketch(&[1, 2, 3, 4, 5, 6]).unwrap(),
        vec![vec![1, 2], vec![3, 4], vec![5, 6]]
    );
}

#[test]
#[should_panic]
fn test_chunk_sketch_wrong_size_should_panic() {
    let lsh = Lsh::new(3_usize, 2_usize);
    lsh.chunk_sketch(&[1, 2, 3, 4, 5]).unwrap();
}

#[test]
fn test_lsh_query_some() {
    let mut lsh = Lsh::new(3_usize, 2_usize);
    lsh.insert(&[1, 2, 3, 4, 5, 6], 12).unwrap();
    let result = lsh.query(&[1, 2, 17, 18, 5, 6]).unwrap().unwrap();
    assert_eq!(result, vec![12])
}

#[test]
fn test_lsh_query_no_hits_returns_none() {
    let mut lsh = Lsh::new(2_usize, 2_usize);
    lsh.insert(&[1, 2, 3, 4], 12).unwrap();
    let result = lsh.query(&[17, 18, 5, 6]).unwrap();
    assert!(result.is_none())
}

#[test]
fn test_lsh_query_bulk() {
    let mut lsh = Lsh::new(2_usize, 2_usize);
    lsh.insert(&[1, 2, 3, 4], 12).unwrap();
    lsh.insert(&[5, 6, 7, 8], 13).unwrap();
    let result: Vec<Option<Vec<u32>>> = lsh
        .query_bulk(&[&[17, 18, 3, 4], &[5, 6, 10, 11], &[9, 10, 11, 12]])
        .into_iter()
        .map(|answer| answer.unwrap())
        .collect();
    assert_eq!(result, vec![Some(vec![12]), Some(vec![13]), None])
}

#[test]
fn test_lsh_insert() {
    let mut lsh = Lsh::new(3_usize, 2_usize);
    lsh.insert(&[1, 2, 3, 4, 5, 6], 7).unwrap();
    assert_eq!(lsh.ids_of(0_usize, &[1, 2]), vec![7]);
    assert_eq!(lsh.ids_of(1_usize, &[3, 4]), vec![7]);
    assert_eq!(lsh.ids_of(2_usize, &[5, 6]), vec![7]);
    assert_eq!(lsh.sketch_of(7).unwrap(), vec![1, 2, 3, 4, 5, 6]);
}

#[test]
fn test_lsh_get_top_hits() {
    let mut lsh = Lsh::new(2_usize, 2_usize);
    lsh.insert(&[1, 2, 3, 4], 12).unwrap();
    lsh.insert(&[1, 2, 8, 9], 13).unwrap();
    let query = vec![1, 2, 3, 5];
    let results = Some(vec![12, 13]);
    let hits = lsh.get_top_hits(results, &query).unwrap();
    let (hit_0_id, hit_0_jac) = hits[0];
    assert_eq!(hit_0_id, 12);
    assert!((hit_0_jac.num as f64 / hit_0_jac.den as f64 - 0.75).abs() <= f64::EPSILON);
    let (hit_1_id, hit_1_jac) = hits[1];
    assert_eq!(hit_1_id, 13);
    assert!((hit_1_jac.num as f64 / hit_1_jac.den as f64 - 0.5).abs() <= f64::EPSILON);
}

#[test]
fn new_index_is_empty() {
    let lsh = Lsh::new(3, 2);
    assert_eq!(lsh.n_hashes(), 3);
    assert_eq!(lsh.n_values(), 2);
    assert_eq!(lsh.sketch_of(12), None);
    assert_eq!(lsh.ids_of(0, &[1, 2]), Vec::<u32>::new());
    assert_eq!(lsh.query(&[1, 2, 3, 4, 5, 6]).unwrap(), None);
}

#[test]
fn chunk_sketch_names_the_lengths_it_refuses() {
    let lsh = Lsh::new(3, 2);
    let error = lsh.chunk_sketch(&[1, 2, 3, 4, 5]).unwrap_err();
    assert_eq!(
        error,
        IncorrectlyChunkedInputSketchError {
            expected: 6,
            found: 5
        }
    );
    assert!(lsh.chunk_sketch(&[1, 2, 3, 4, 5, 6, 7]).is_err());
    assert!(lsh.chunk_sketch(&[]).is_err());
}

#[test]
fn chunk_sketch_without_values_in_a_band() {
    let lsh = Lsh::new(3, 0);
    assert_eq!(
        lsh.chunk_sketch(&[]).unwrap(),
        vec![Vec::<u32>::new(), Vec::new(), Vec::new()]
    );
    let none = Lsh::new(0, 4);
    assert_eq!(none.chunk_sketch(&[]).unwrap(), Vec::<Vec<u32>>::new());
}

#[test]
fn insert_fills_the_bucket_of_each_band() {
    let mut lsh = Lsh::new(3, 2);
    lsh.insert(&[1, 2, 3, 4, 5, 6], 12).unwrap();
    assert_eq!(lsh.ids_of(0, &[1, 2]), vec![12]);
    assert_eq!(lsh.ids_of(1, &[3, 4]), vec![12]);
    assert_eq!(lsh.ids_of(2, &[5, 6]), vec![12]);
    assert_eq!(lsh.ids_of(0, &[3, 4]), Vec::<u32>::new());
    assert_eq!(lsh.ids_of(1, &[1, 2]), Vec::<u32>::new());
    assert_eq!(lsh.ids_of(2, &[5]), Vec::<u32>::new());
    for query in [
        [1, 2, 0, 0, 0, 0],
        [0, 0, 3, 4, 0, 0],
        [0, 0, 0, 0, 5, 6],
        [1, 2, 3, 4, 5, 6],
    ] {
        assert_eq!(lsh.query(&query).unwrap(), Some(vec![12]));
    }
    for query in [
        [0, 0, 0, 0, 0, 0],
        [3, 4, 5, 6, 1, 2],
        [2, 1, 4, 3, 6, 5],
        [0, 1, 2, 3, 4, 5],
    ] {
        assert_eq!(lsh.query(&query).unwrap(), None);
    }
}

#[test]
fn buckets_keep_ids_in_the_order_of_insertion() {
    let mut lsh = Lsh::new(2, 2);
    lsh.insert(&[1, 2, 3, 4], 30).unwrap();
    lsh.insert(&[1, 2, 5, 6], 10).unwrap();
    lsh.insert(&[1, 2, 3, 4], 20).unwrap();
    assert_eq!(lsh.ids_of(0, &[1, 2]), vec![30, 10, 20]);
    assert_eq!(lsh.ids_of(1, &[3, 4]), vec![30, 20]);
    assert_eq!(lsh.ids_of(1, &[5, 6]), vec![10]);
}

#[test]
fn insert_under_a_held_id_changes_nothing() {
    let mut lsh = Lsh::new(3, 2);
    lsh.insert(&[1, 2, 3, 4, 5, 6], 12).unwrap();
    lsh.insert(&[7, 8, 9, 10, 11, 12], 12).unwrap();
    assert_eq!(lsh.sketch_of(12).unwrap(), vec![1, 2, 3, 4, 5, 6]);
    assert_eq!(lsh.ids_of(0, &[1, 2]), vec![12]);
    assert_eq!(lsh.ids_of(1, &[3, 4]), vec![12]);
    assert_eq!(lsh.ids_of(2, &[5, 6]), vec![12]);
    assert_eq!(lsh.ids_of(0, &[7, 8]), Vec::<u32>::new());
    assert_eq!(lsh.ids_of(1, &[9, 10]), Vec::<u32>::new());
    assert_eq!(lsh.ids_of(2, &[11, 12]), Vec::<u32>::new());
    assert_eq!(lsh.query(&[7, 8, 9, 10, 11, 12]).unwrap(), None);
    lsh.insert(&[1, 2, 3, 4, 5, 6], 12).unwrap();
    assert_eq!(lsh.ids_of(0, &[1, 2]), vec![12]);
    lsh.insert(&[1, 2, 3], 12).unwrap();
    assert_eq!(lsh.sketch_of(12).unwrap(), vec![1, 2, 3, 4, 5, 6]);
}

#[test]
fn insert_of_a_wrong_length_is_refused_and_changes_nothing() {
    let mut lsh = Lsh::new(3, 2);
    let error = lsh.insert(&[1, 2, 3, 4, 5], 12).unwrap_err();
    assert_eq!(error.expected, 6);
    assert_eq!(error.found, 5);
    assert_eq!(lsh.sketch_of(12), None);
    assert_eq!(lsh.ids_of(0, &[1, 2]), Vec::<u32>::new());
    lsh.insert(&[1, 2, 3, 4, 5, 6], 12).unwrap();
    assert_eq!(lsh.sketch_of(12).unwrap(), vec![1, 2, 3, 4, 5, 6]);
}

#[test]
fn query_of_a_wrong_length_is_refused() {
    let mut lsh = Lsh::new(3, 2);
    lsh.insert(&[1, 2, 3, 4, 5, 6], 12).unwrap();
    let error = lsh.query(&[1, 2, 3, 4]).unwrap_err();
    assert_eq!(error.expected, 6);
    assert_eq!(error.found, 4);
    assert!(lsh.ranked_query(&[1, 2, 3, 4, 5, 6, 7]).is_err());
    let bulk = lsh.query_bulk(&[&[1, 2], &[1, 2, 0, 0, 0, 0]]);
    assert_eq!(bulk.len(), 2);
    assert!(bulk[0].is_err());
    assert_eq!(bulk[1], Ok(Some(vec![12])));
}

#[test]
fn query_gives_each_candidate_once_in_ascending_order() {
    let mut lsh = Lsh::new(2, 2);
    lsh.insert(&[1, 2, 3, 4], 40).unwrap();
    lsh.insert(&[1, 2, 3, 4], 7).unwrap();
    lsh.insert(&[1, 2, 9, 9], 25).unwrap();
    lsh.insert(&[8, 8, 3, 4], 3).unwrap();
    lsh.insert(&[8, 8, 9, 9], 1).unwrap();
    assert_eq!(lsh.query(&[1, 2, 3, 4]).unwrap(), Some(vec![3, 7, 25, 40]));
    assert_eq!(lsh.query(&[8, 8, 0, 0]).unwrap(), Some(vec![1, 3]));
}

#[test]
fn ranked_query_orders_by_descending_similarity() {
    let mut lsh = Lsh::new(2, 2);
    lsh.insert(&[1, 2, 8, 9], 13).unwrap();
    lsh.insert(&[1, 2, 3, 4], 12).unwrap();
    lsh.insert(&[1, 2, 3, 5], 11).unwrap();
    lsh.insert(&[6, 6, 6, 6], 10).unwrap();
    let hits = lsh.ranked_query(&[1, 2, 3, 5]).unwrap().unwrap();
    let ids: Vec<u32> = hits.iter().map(|hit| hit.0).collect();
    assert_eq!(ids, vec![11, 12, 13]);
    let shared: Vec<(usize, usize)> = hits.iter().map(|hit| (hit.1.num, hit.1.den)).collect();
    assert_eq!(shared, vec![(4, 4), (3, 4), (2, 4)]);
    for pair in hits.windows(2) {
        let before = pair[0].1.num as f64 / pair[0].1.den as f64;
        let after = pair[1].1.num as f64 / pair[1].1.den as f64;
        assert!(before > after);
    }
}

#[test]
fn ranked_query_puts_the_larger_id_first_among_equals() {
    let mut lsh = Lsh::new(2, 2);
    lsh.insert(&[1, 2, 8, 9], 5).unwrap();
    lsh.insert(&[1, 2, 7, 7], 9).unwrap();
    lsh.insert(&[1, 2, 3, 4], 2).unwrap();
    let hits = lsh.ranked_query(&[1, 2, 3, 0]).unwrap().unwrap();
    let ranking: Vec<(u32, usize)> = hits.iter().map(|hit| (hit.0, hit.1.num)).collect();
    assert_eq!(ranking, vec![(2, 3), (9, 2), (5, 2)]);
}

#[test]
fn ranked_query_without_candidates_is_none() {
    let mut lsh = Lsh::new(2, 2);
    lsh.insert(&[1, 2, 3, 4], 12).unwrap();
    assert_eq!(lsh.ranked_query(&[4, 3, 2, 1]).unwrap(), None);
}

#[test]
fn top_hits_rank_each_id_once() {
    let mut lsh = Lsh::new(2, 2);
    lsh.insert(&[1, 2, 3, 4], 12).unwrap();
    lsh.insert(&[1, 2, 8, 9], 13).unwrap();
    let hits = lsh
        .get_top_hits(Some(vec![13, 12, 13]), &[1, 2, 3, 4])
        .unwrap();
    let ranking: Vec<(u32, usize, usize)> =
        hits.iter().map(|hit| (hit.0, hit.1.num, hit.1.den)).collect();
    assert_eq!(ranking, vec![(12, 4, 4), (13, 2, 4)]);
    assert_eq!(lsh.get_top_hits(None, &[1, 2, 3, 4]), None);
}

#[test]
fn index_of_dense_sketches_finds_the_same_set() {
    let mut oph = OnePermutationHasher::new(8);
    let first = oph.dense_sketch(&[1, 2, 3, 4, 5, 6, 7, 8, 9, 10]).unwrap();
    let second = oph.dense_sketch(&[1000, 2000, 3000]).unwrap();
    let mut lsh = Lsh::new(4, 2);
    lsh.insert(&first, 0).unwrap();
    lsh.insert(&second, 1).unwrap();
    let hits = lsh.ranked_query(&first).unwrap().unwrap();
    assert_eq!(hits[0].0, 0);
    assert_eq!(hits[0].1.num, 8);
    assert_eq!(hits[0].1.den, 8);
}
