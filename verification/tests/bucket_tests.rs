use toposaic::buckets::{add_segment_to_bucket, add_to_vector_buckets, LineBucketEntry, VECTOR_BUCKET_COLUMNS};

fn ranges(bucket: &[LineBucketEntry]) -> Vec<(usize, Vec<(u32, u32)>)> {
    bucket.iter().map(|entry| (entry.line_index, entry.segment_ranges.clone())).collect()
}

#[test]
fn contiguous_segments_merge_into_one_range() {
    let mut bucket = Vec::new();
    add_segment_to_bucket(&mut bucket, 3, 4);
    add_segment_to_bucket(&mut bucket, 3, 5);
    add_segment_to_bucket(&mut bucket, 3, 6);
    add_segment_to_bucket(&mut bucket, 3, 9);
    add_segment_to_bucket(&mut bucket, 3, 5);
    add_segment_to_bucket(&mut bucket, 7, 0);
    assert_eq!(ranges(&bucket), vec![(3, vec![(4, 7), (9, 10)]), (7, vec![(0, 1)])]);
}

#[test]
fn features_land_in_every_bucket_of_their_rectangle() {
    let mut buckets = vec![Vec::new(); VECTOR_BUCKET_COLUMNS * VECTOR_BUCKET_COLUMNS];
    add_to_vector_buckets(&mut buckets, 1, 2, 2, 3, 9);
    let filled = buckets.iter().enumerate().filter(|(_, b)| !b.is_empty()).map(|(i, _)| i).collect::<Vec<_>>();
    assert_eq!(filled, vec![65, 66, 97, 98]);
    assert_eq!(buckets[66], vec![9]);
    add_to_vector_buckets(&mut buckets, 5, 5, 4, 4, 1);
    assert_eq!(buckets.iter().filter(|b| !b.is_empty()).count(), 4);
}
