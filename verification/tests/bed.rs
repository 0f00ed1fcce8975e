use bigbed_jaccard::bed::{
    can_offset, find_chrom, get_chrom_data, get_chrom_end, get_offset_data, get_offset_intervals,
    intervals_to_vec, offset_data, ChromData, ChromInfo, ChromNotFoundError, Interval,
    IntervalQuery,
};

#[test]
fn bed_test_get_chrom_data() {
    let chroms = [
        ChromInfo::new("chr1".to_string(), 10),
        ChromInfo::new("chr2".to_string(), 20),
    ];
    let result = get_chrom_data(&chroms).unwrap();
    assert_eq!(
        find_chrom(&result, "chr1").unwrap(),
        ChromData {
            length: 10,
            offset: 0
        }
    );
    assert_eq!(
        find_chrom(&result, "chr2").unwrap(),
        ChromData {
            length: 20,
            offset: 10
        }
    );
}

#[test]
fn lib_test_get_chrom_data() {
    let chroms = [
        ChromInfo::new("chr1".to_string(), 10),
        ChromInfo::new("chr2".to_string(), 20),
    ];
    let result = get_chrom_data(&chroms).unwrap();
    assert_eq!(
        find_chrom(&result, "chr1").unwrap(),
        ChromData {
            length: 10,
            offset: 0
        }
    );
    assert_eq!(
        find_chrom(&result, "chr2").unwrap(),
        ChromData {
            length: 20,
            offset: 10
        }
    );
}

#[test]
fn reader_test_get_chrom_data() {
    let chroms = [
        ChromInfo::new("chr1".to_string(), 10),
        ChromInfo::new("chr2".to_string(), 20),
    ];
    let result = get_chrom_data(&chroms).unwrap();
    assert_eq!(
        find_chrom(&result, "chr1").unwrap(),
        ChromData {
            length: 10,
            offset: 0
        }
    );
    assert_eq!(
        find_chrom(&result, "chr2").unwrap(),
        ChromData {
            length: 20,
            offset: 10
        }
    );
}

#[test]
fn bed_test_offset_data() {
    let mut data = vec![
        Interval { start: 1, end: 2 },
        Interval { start: 4, end: 10 },
    ];
    offset_data(&mut data, 3);
    assert_eq!(data[0].start, 4);
    assert_eq!(data[0].end, 5);
    assert_eq!(data[1].start, 7);
    assert_eq!(data[1].end, 13);
}

#[test]
fn lib_test_offset_data() {
    let mut data = vec![
        Interval { start: 1, end: 2 },
        Interval { start: 4, end: 10 },
    ];
    offset_data(&mut data, 3);
    assert_eq!(data[0].start, 4);
    assert_eq!(data[0].end, 5);
    assert_eq!(data[1].start, 7);
    assert_eq!(data[1].end, 13);
}

#[test]
fn reader_test_offset_data() {
    let mut data = vec![
        Interval { start: 1, end: 2 },
        Interval { start: 4, end: 10 },
    ];
    offset_data(&mut data, 3);
    assert_eq!(data[0].start, 4);
    assert_eq!(data[0].end, 5);
    assert_eq!(data[1].start, 7);
    assert_eq!(data[1].end, 13);
}

#[test]
fn test_interval_query_is_valid() {
    let query = IntervalQuery::new("chr1".to_string(), 10, 1);
    assert!(!query.is_valid())
}

#[test]
fn test_interval_query_make_valid_already_valid() {
    let mut query = IntervalQuery::new("chr1".to_string(), 1, 10);
    query.make_valid();
    assert!(query.is_valid());
    assert_eq!(query.start, 1);
    assert_eq!(query.end, 10);
}

#[test]
fn test_interval_query_make_valid_from_invalid() {
    let mut query = IntervalQuery::new("chr1".to_string(), 10, 1);
    query.make_valid();
    assert!(query.is_valid());
    assert_eq!(query.start, 1);
    assert_eq!(query.end, 10);
}

#[test]
fn interval_query_of_equal_bounds_stays_invalid() {
    let mut query = IntervalQuery::new("chr1".to_string(), 5, 5);
    query.make_valid();
    assert!(!query.is_valid());
    assert_eq!(query.start, 5);
    assert_eq!(query.end, 5);
    assert_eq!(query.chrom, "chr1");
}

#[test]
fn chrom_data_follows_name_order_not_input_order() {
    let chroms = [
        ChromInfo::new("chr2".to_string(), 20),
        ChromInfo::new("chr10".to_string(), 5),
        ChromInfo::new("chr1".to_string(), 10),
    ];
    let table = get_chrom_data(&chroms).unwrap();
    assert_eq!(table.len(), 3);
    assert_eq!(find_chrom(&table, "chr1").unwrap(), ChromData::new(10, 0));
    assert_eq!(find_chrom(&table, "chr10").unwrap(), ChromData::new(5, 10));
    assert_eq!(find_chrom(&table, "chr2").unwrap(), ChromData::new(20, 15));
    assert_eq!(table[0].name, "chr2");
    assert_eq!(table[1].name, "chr10");
    assert_eq!(table[2].name, "chr1");
}

#[test]
fn chrom_data_is_the_same_for_the_same_set() {
    let one = [
        ChromInfo::new("b".to_string(), 3),
        ChromInfo::new("a".to_string(), 4),
        ChromInfo::new("c".to_string(), 5),
    ];
    let other = [
        ChromInfo::new("c".to_string(), 5),
        ChromInfo::new("b".to_string(), 3),
        ChromInfo::new("a".to_string(), 4),
    ];
    let first = get_chrom_data(&one).unwrap();
    let second = get_chrom_data(&other).unwrap();
    for name in ["a", "b", "c"] {
        assert_eq!(find_chrom(&first, name), find_chrom(&second, name));
    }
    assert_eq!(find_chrom(&first, "a").unwrap().offset, 0);
    assert_eq!(find_chrom(&first, "b").unwrap().offset, 4);
    assert_eq!(find_chrom(&first, "c").unwrap().offset, 7);
}

#[test]
fn chrom_data_orders_names_by_their_bytes() {
    let chroms = [
        ChromInfo::new("chrX".to_string(), 1),
        ChromInfo::new("chr".to_string(), 2),
        ChromInfo::new("chrü".to_string(), 4),
        ChromInfo::new("Chr".to_string(), 8),
    ];
    let table = get_chrom_data(&chroms).unwrap();
    assert_eq!(find_chrom(&table, "Chr").unwrap().offset, 0);
    assert_eq!(find_chrom(&table, "chr").unwrap().offset, 8);
    assert_eq!(find_chrom(&table, "chrX").unwrap().offset, 10);
    assert_eq!(find_chrom(&table, "chrü").unwrap().offset, 11);
}

#[test]
fn chrom_data_of_nothing_is_empty() {
    let table = get_chrom_data(&[]).unwrap();
    assert!(table.is_empty());
}

#[test]
fn chrom_data_refuses_a_name_twice() {
    let chroms = [
        ChromInfo::new("chr1".to_string(), 10),
        ChromInfo::new("chr2".to_string(), 20),
        ChromInfo::new("chr1".to_string(), 30),
    ];
    assert!(get_chrom_data(&chroms).is_none());
}

#[test]
fn chrom_data_refuses_more_than_32_bits_of_positions() {
    let chroms = [
        ChromInfo::new("chr1".to_string(), u32::MAX),
        ChromInfo::new("chr2".to_string(), 1),
    ];
    assert!(get_chrom_data(&chroms).is_none());
    let fits = [
        ChromInfo::new("chr1".to_string(), u32::MAX - 1),
        ChromInfo::new("chr2".to_string(), 1),
    ];
    let table = get_chrom_data(&fits).unwrap();
    assert_eq!(find_chrom(&table, "chr2").unwrap().offset, u32::MAX - 1);
}

#[test]
fn find_chrom_misses_an_unknown_name() {
    let chroms = [ChromInfo::new("chr1".to_string(), 10)];
    let table = get_chrom_data(&chroms).unwrap();
    assert_eq!(find_chrom(&table, "chr2"), None);
    assert_eq!(find_chrom(&table, "chr"), None);
    assert_eq!(find_chrom(&table, "chr11"), None);
}

#[test]
fn chrom_end_is_the_length() {
    let chroms = [
        ChromInfo::new("chr1".to_string(), 10),
        ChromInfo::new("chr2".to_string(), 20),
    ];
    assert_eq!(get_chrom_end(&chroms, "chr2").unwrap(), 20);
    assert_eq!(get_chrom_end(&chroms, "chr1").unwrap(), 10);
}

#[test]
fn chrom_end_of_a_missing_chromosome_names_it() {
    let chroms = [ChromInfo::new("chr1".to_string(), 10)];
    let error = get_chrom_end(&chroms, "chrM").unwrap_err();
    assert_eq!(error.chrom, "chrM");
}

#[test]
fn chrom_not_found_message() {
    let error = ChromNotFoundError {
        chrom: "chr7".to_string(),
    };
    assert_eq!(
        error.message(),
        "Could not find data for chrom chr7. Ensure that the files contain the same set of chromosomes you are querying."
    );
}

#[test]
fn flatten_disjoint_intervals_after_offset() {
    let mut data = vec![
        Interval { start: 1, end: 2 },
        Interval { start: 4, end: 10 },
    ];
    offset_data(&mut data, 3);
    assert_eq!(data, vec![Interval { start: 4, end: 5 }, Interval { start: 7, end: 13 }]);
    assert_eq!(intervals_to_vec(&data), vec![4, 7, 8, 9, 10, 11, 12]);
}

#[test]
fn flatten_overlapping_intervals() {
    let data = [
        Interval { start: 1, end: 5 },
        Interval { start: 3, end: 8 },
    ];
    assert_eq!(intervals_to_vec(&data), vec![1, 2, 3, 4, 5, 6, 7]);
}

#[test]
fn flatten_skips_a_subsumed_interval() {
    let data = [
        Interval { start: 1, end: 10 },
        Interval { start: 2, end: 4 },
        Interval { start: 9, end: 12 },
    ];
    assert_eq!(
        intervals_to_vec(&data),
        vec![1, 2, 3, 4, 5, 6, 7, 8, 9, 10, 11]
    );
}

#[test]
fn flatten_touching_intervals() {
    let data = [
        Interval { start: 1, end: 3 },
        Interval { start: 3, end: 5 },
    ];
    assert_eq!(intervals_to_vec(&data), vec![1, 2, 3, 4]);
}

#[test]
fn flatten_nothing() {
    assert_eq!(intervals_to_vec(&[]), Vec::<u32>::new());
}

#[test]
fn flatten_an_interval_without_positions() {
    let data = [
        Interval { start: 5, end: 5 },
        Interval { start: 9, end: 7 },
        Interval { start: 9, end: 11 },
    ];
    assert_eq!(intervals_to_vec(&data), vec![9, 10]);
}

#[test]
fn flatten_unsorted_intervals_loses_positions() {
    let data = [
        Interval { start: 5, end: 8 },
        Interval { start: 1, end: 3 },
        Interval { start: 2, end: 10 },
    ];
    assert_eq!(intervals_to_vec(&data), vec![5, 6, 7, 8, 9]);
}

#[test]
fn flatten_up_to_the_last_position() {
    let data = [Interval {
        start: u32::MAX - 2,
        end: u32::MAX,
    }];
    assert_eq!(intervals_to_vec(&data), vec![u32::MAX - 2, u32::MAX - 1]);
}

#[test]
fn can_offset_tells_when_bounds_fit() {
    let data = [Interval {
        start: 1,
        end: u32::MAX - 3,
    }];
    assert!(can_offset(&data, 3));
    assert!(!can_offset(&data, 4));
    assert!(can_offset(&[], u32::MAX));
}

#[test]
fn offset_intervals_gathers_each_query() {
    let chroms = [
        ChromInfo::new("chr2".to_string(), 20),
        ChromInfo::new("chr1".to_string(), 10),
    ];
    let table = get_chrom_data(&chroms).unwrap();
    let queries = [
        IntervalQuery::new("chr1".to_string(), 0, 10),
        IntervalQuery::new("chr2".to_string(), 0, 20),
    ];
    let fetched = [
        vec![Interval { start: 1, end: 5 }, Interval { start: 3, end: 8 }],
        vec![Interval { start: 0, end: 2 }],
    ];
    let intervals = get_offset_intervals(&table, &queries, &fetched).unwrap();
    assert_eq!(
        intervals,
        vec![
            Interval { start: 1, end: 5 },
            Interval { start: 3, end: 8 },
            Interval { start: 10, end: 12 },
        ]
    );
    let positions = get_offset_data(&table, &queries, &fetched).unwrap();
    assert_eq!(positions, vec![1, 2, 3, 4, 5, 6, 7, 10, 11]);
}

#[test]
fn offset_data_fails_on_the_first_missing_chromosome() {
    let chroms = [ChromInfo::new("chr1".to_string(), 10)];
    let table = get_chrom_data(&chroms).unwrap();
    let queries = [
        IntervalQuery::new("chr1".to_string(), 0, 10),
        IntervalQuery::new("chrX".to_string(), 0, 5),
        IntervalQuery::new("chrY".to_string(), 0, 5),
    ];
    let fetched = [vec![Interval { start: 1, end: 2 }], vec![], vec![]];
    let error = get_offset_data(&table, &queries, &fetched).unwrap_err();
    assert_eq!(error.chrom, "chrX");
    let error = get_offset_intervals(&table, &queries, &fetched).unwrap_err();
    assert_eq!(error.chrom, "chrX");
}

#[test]
fn offset_data_of_no_query_is_empty() {
    let table = get_chrom_data(&[]).unwrap();
    assert_eq!(get_offset_data(&table, &[], &[]).unwrap(), Vec::<u32>::new());
}

#[test]
fn chromosomes_are_equal_by_name() {
    let one = ChromInfo::new("chr1".to_string(), 10);
    let longer = ChromInfo::new("chr1".to_string(), 20);
    let other = ChromInfo::new("chr2".to_string(), 10);
    let prefix = ChromInfo::new("chr".to_string(), 10);
    assert!(one == longer);
    assert!(one != other);
    assert!(one != prefix);
    assert_eq!(one.data.offset, 0);
}

#[test]
fn layout_gives_ranges_that_do_not_overlap() {
    let chroms = [
        ChromInfo::new("chrM".to_string(), 7),
        ChromInfo::new("chr3".to_string(), 0),
        ChromInfo::new("chr1".to_string(), 5),
        ChromInfo::new("chr2".to_string(), 9),
    ];
    let table = get_chrom_data(&chroms).unwrap();
    let mut ranges: Vec<(u32, u32)> = table
        .iter()
        .map(|chrom| (chrom.data.offset, chrom.data.offset + chrom.data.length))
        .collect();
    ranges.sort();
    assert_eq!(ranges, vec![(0, 5), (5, 14), (14, 14), (14, 21)]);
}
