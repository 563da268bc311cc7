//! Spatial buckets that index vector lines and areas by the cells of a
//! coarse grid over the model square.
use vstd::prelude::*;

verus! {

/// Columns (and rows) of the bucket grid.
pub const VECTOR_BUCKET_COLUMNS: usize = 32;

/// The segments of one line that reach one bucket, as half-open ranges of
/// segment indices: segment `i` joins point `i` to point `i + 1`.
pub struct LineBucketEntry {
    pub line_index: usize,
    pub segment_ranges: Vec<(u32, u32)>,
}

/// A bucket's entries as plain values.
pub open spec fn bucket_view(bucket: Seq<LineBucketEntry>) -> Seq<(usize, Seq<(u32, u32)>)> {
    bucket.map_values(|e: LineBucketEntry| (e.line_index, e.segment_ranges@))
}

/// The bucket after recording `segment` of line `line`. Segments of a line
/// arrive in increasing order and a whole line is recorded before the next,
/// so only the last entry can belong to `line`: a segment right after its
/// last range extends that range, one inside it changes nothing, and any
/// other starts a new range; a new line starts a new entry.
pub open spec fn bucket_after(b: Seq<(usize, Seq<(u32, u32)>)>, line: usize, segment: u32) -> Seq<(usize, Seq<(u32, u32)>)> {
    if b.len() > 0 && b.last().0 == line {
        let rs = b.last().1;
        if rs.len() > 0 && rs.last().1 == segment {
            b.update(b.len() - 1, (line, rs.update(rs.len() - 1, (rs.last().0, (segment + 1) as u32))))
        } else if rs.len() > 0 && segment < rs.last().1 {
            b
        } else {
            b.update(b.len() - 1, (line, rs.push((segment, (segment + 1) as u32))))
        }
    } else {
        b.push((line, seq![(segment, (segment + 1) as u32)]))
    }
}

/// Whether the bucket lists segment `segment` of line `line`.
pub open spec fn covers(b: Seq<(usize, Seq<(u32, u32)>)>, line: usize, segment: u32) -> bool {
    exists|i: int, j: int|
        0 <= i < b.len() && b[i].0 == line && 0 <= j < b[i].1.len() && #[trigger] b[i].1[j].0 <= segment < b[i].1[j].1
}

/// Records one segment of one line in a bucket; see `bucket_after`.
pub fn add_segment_to_bucket(bucket: &mut Vec<LineBucketEntry>, line_index: usize, segment: u32)
    requires
        segment < u32::MAX,
    ensures
        bucket_view(final(bucket)@) == bucket_after(bucket_view(old(bucket)@), line_index, segment),
{
    let ghost b = bucket_view(bucket@);
    let n = bucket.len();
    if n > 0 && bucket[n - 1].line_index == line_index {
        let mut entry = bucket.pop().unwrap();
        let ghost rest = bucket@;
        let ghost rs = entry.segment_ranges@;
        proof {
            assert(b.last() == (line_index, rs));
            assert(bucket_view(rest) =~= b.drop_last());
        }
        let m = entry.segment_ranges.len();
        if m > 0 && entry.segment_ranges[m - 1].1 == segment {
            let start = entry.segment_ranges[m - 1].0;
            entry.segment_ranges.set(m - 1, (start, segment + 1));
            assert(entry.segment_ranges@ =~= rs.update(rs.len() - 1, (rs.last().0, (segment + 1) as u32)));
        } else if m > 0 && segment < entry.segment_ranges[m - 1].1 {
        } else {
            entry.segment_ranges.push((segment, segment + 1));
        }
        let ghost ranges = entry.segment_ranges@;
        bucket.push(entry);
        proof {
            let expected = if rs.len() > 0 && rs.last().1 == segment {
                rs.update(rs.len() - 1, (rs.last().0, (segment + 1) as u32))
            } else if rs.len() > 0 && segment < rs.last().1 {
                rs
            } else {
                rs.push((segment, (segment + 1) as u32))
            };
            assert(ranges =~= expected);
            assert(b.update(b.len() - 1, (line_index, rs)) =~= b);
            assert(bucket_after(b, line_index, segment) == b.update(b.len() - 1, (line_index, expected)));
            assert(bucket_view(bucket@) =~= bucket_view(rest).push((line_index, ranges)));
            assert(bucket_view(bucket@) =~= b.update(b.len() - 1, (line_index, expected)));
        }
    } else {
        let mut ranges: Vec<(u32, u32)> = Vec::new();
        ranges.push((segment, segment + 1));
        let ghost old_bucket = bucket@;
        bucket.push(LineBucketEntry { line_index, segment_ranges: ranges });
        proof {
            if n > 0 {
                assert(b.last().0 == old_bucket[n - 1].line_index);
            }
            assert(bucket_view(bucket@) =~= bucket_view(old_bucket).push((line_index, seq![(segment, (segment + 1) as u32)])));
            assert(bucket_view(bucket@) =~= bucket_after(b, line_index, segment));
        }
    }
}

/// Ranges in increasing order, each non-empty and separated from the next.
pub open spec fn ranges_ordered(rs: Seq<(u32, u32)>) -> bool {
    &&& forall|j: int| 0 <= j < rs.len() ==> (#[trigger] rs[j]).0 < rs[j].1
    &&& forall|j: int, k: int| 0 <= j < k < rs.len() ==> (#[trigger] rs[j]).1 < (#[trigger] rs[k]).0
}

/// Recording a segment that is no earlier than the last range of its line
/// adds exactly that segment to what the bucket lists.
pub proof fn law_recording_adds_the_segment(b: Seq<(usize, Seq<(u32, u32)>)>, line: usize, segment: u32, other_line: usize, other: u32)
    requires
        segment < u32::MAX,
        b.len() > 0 && b.last().0 == line ==> ranges_ordered(b.last().1),
        b.len() > 0 && b.last().0 == line && b.last().1.len() > 0 ==> b.last().1.last().1 <= segment,
    ensures
        covers(bucket_after(b, line, segment), other_line, other) <==> (covers(b, other_line, other) || (other_line
            == line && other == segment)),
{
    let a = bucket_after(b, line, segment);
    if covers(a, other_line, other) {
        let (i, j) = choose|i: int, j: int|
            0 <= i < a.len() && a[i].0 == other_line && 0 <= j < a[i].1.len() && #[trigger] a[i].1[j].0 <= other < a[i].1[j].1;
        if i < b.len() && !(i == b.len() - 1 && b.last().0 == line) {
            assert(a[i] == b[i]);
        } else if i < b.len() {
            let rs = b.last().1;
            if rs.len() > 0 && rs.last().1 == segment && j == rs.len() - 1 {
                if other != segment {
                    assert(b[i].1[j].0 <= other < b[i].1[j].1);
                }
            } else if j < rs.len() {
                assert(a[i].1[j] == rs[j]);
                assert(b[i].1[j].0 <= other < b[i].1[j].1);
            }
        }
    }
    if covers(b, other_line, other) {
        let (i, j) = choose|i: int, j: int|
            0 <= i < b.len() && b[i].0 == other_line && 0 <= j < b[i].1.len() && #[trigger] b[i].1[j].0 <= other < b[i].1[j].1;
        if i == b.len() - 1 && b.last().0 == line {
            let rs = b.last().1;
            if rs.len() > 0 && rs.last().1 == segment && j == rs.len() - 1 {
                assert(a[i].1[j].0 <= other < a[i].1[j].1);
            } else {
                assert(a[i].1[j] == rs[j]);
                assert(a[i].1[j].0 <= other < a[i].1[j].1);
            }
        } else {
            assert(a[i] == b[i]);
            assert(a[i].1[j].0 <= other < a[i].1[j].1);
        }
    }
    if other_line == line && other == segment {
        if b.len() > 0 && b.last().0 == line {
            let rs = b.last().1;
            let i = b.len() - 1;
            if rs.len() > 0 && rs.last().1 == segment {
                assert(a[i].1[rs.len() - 1].0 <= other < a[i].1[rs.len() - 1].1);
            } else {
                assert(a[i].1[rs.len() as int].0 <= other < a[i].1[rs.len() as int].1);
            }
        } else {
            assert(a[b.len() as int].1[0].0 <= other < a[b.len() as int].1[0].1);
        }
    }
}

/// Lists feature `feature_index` in every bucket of the rectangle of bucket
/// cells from (`minimum_x`, `minimum_y`) to (`maximum_x`, `maximum_y`),
/// bounds included.
pub fn add_to_vector_buckets(
    buckets: &mut Vec<Vec<usize>>,
    minimum_x: usize,
    minimum_y: usize,
    maximum_x: usize,
    maximum_y: usize,
    feature_index: usize,
)
    requires
        old(buckets)@.len() == VECTOR_BUCKET_COLUMNS * VECTOR_BUCKET_COLUMNS,
        maximum_x < VECTOR_BUCKET_COLUMNS,
        maximum_y < VECTOR_BUCKET_COLUMNS,
    ensures
        final(buckets)@.len() == old(buckets)@.len(),
        forall|c: int|
            0 <= c < final(buckets)@.len() ==> #[trigger] final(buckets)@[c]@ == if minimum_x <= c % 32 <= maximum_x
                && minimum_y <= c / 32 <= maximum_y {
                old(buckets)@[c]@.push(feature_index)
            } else {
                old(buckets)@[c]@
            },
{
    let ghost start = buckets@;
    let mut y = minimum_y;
    while y <= maximum_y
        invariant
            buckets@.len() == 1024,
            start.len() == 1024,
            maximum_x < 32,
            maximum_y < 32,
            minimum_y <= y || y == minimum_y,
            y <= maximum_y + 1 || y == minimum_y,
            y >= minimum_y,
            forall|c: int|
                0 <= c < 1024 ==> #[trigger] buckets@[c]@ == if minimum_x <= c % 32 <= maximum_x && minimum_y <= c / 32 < y {
                    start[c]@.push(feature_index)
                } else {
                    start[c]@
                },
        decreases maximum_y + 1 - y,
    {
        let mut x = minimum_x;
        while x <= maximum_x
            invariant
                buckets@.len() == 1024,
                start.len() == 1024,
                maximum_x < 32,
                y <= maximum_y < 32,
                y >= minimum_y,
                x >= minimum_x,
                x <= maximum_x + 1 || x == minimum_x,
                forall|c: int|
                    0 <= c < 1024 ==> #[trigger] buckets@[c]@ == if (minimum_x <= c % 32 <= maximum_x && minimum_y <= c / 32
                        < y) || (minimum_x <= c % 32 < x && c / 32 == y) {
                        start[c]@.push(feature_index)
                    } else {
                        start[c]@
                    },
            decreases maximum_x + 1 - x,
        {
            let index = y * VECTOR_BUCKET_COLUMNS + x;
            buckets[index].push(feature_index);
            proof {
                assert(index as int % 32 == x as int && index as int / 32 == y as int);
            }
            x = x + 1;
        }
        y = y + 1;
    }
}

} // verus!
