use vstd::prelude::*;

verus! {

/// Default max frames per parallel inference chunk.
pub const DEFAULT_CHUNK_MAX_FRAME: usize = 30000;

/// Frames `[start, end)` handed to one inference pass.
///
/// Frames are cut into consecutive chunks of `chunk_max_frame` frames (at
/// least one); the last chunk takes what is left. A signal that fits in
/// one chunk, the empty one included, is a single chunk.
pub fn chunk_ranges(total: usize, chunk_max_frame: usize) -> (ranges: Vec<(usize, usize)>)
    ensures
        ranges@.len() > 0,
        ranges@[0].0 == 0,
        ranges@.last().1 == total,
        forall|i: int|
            0 <= i < ranges@.len() - 1 ==> #[trigger] ranges@[i].1 == ranges@[i + 1].0,
        forall|i: int|
            0 <= i < ranges@.len() ==> #[trigger] ranges@[i].0 <= ranges@[i].1 && ranges@[i].1
                - ranges@[i].0 <= if chunk_max_frame == 0 {
                1
            } else {
                chunk_max_frame as int
            },
        forall|i: int|
            0 <= i < ranges@.len() - 1 ==> #[trigger] ranges@[i].1 - ranges@[i].0 == if chunk_max_frame
                == 0 {
                1
            } else {
                chunk_max_frame as int
            },
        total > 0 ==> forall|i: int| 0 <= i < ranges@.len() ==> #[trigger] ranges@[i].0 < ranges@[i].1,
{
    let chunk = if chunk_max_frame == 0 { 1 } else { chunk_max_frame };
    let mut ranges: Vec<(usize, usize)> = Vec::new();
    if total <= chunk {
        ranges.push((0, total));
        return ranges;
    }
    let mut start: usize = 0;
    while start < total
        invariant
            chunk > 0,
            start <= total,
            ranges@.len() > 0 ==> ranges@[0].0 == 0,
            ranges@.len() == 0 ==> start == 0,
            ranges@.len() > 0 ==> ranges@.last().1 == start,
            forall|i: int|
                0 <= i < ranges@.len() - 1 ==> #[trigger] ranges@[i].1 == ranges@[i + 1].0,
            forall|i: int|
                0 <= i < ranges@.len() ==> #[trigger] ranges@[i].0 < ranges@[i].1 && ranges@[i].1
                    - ranges@[i].0 <= chunk,
            forall|i: int|
                0 <= i < ranges@.len() - 1 ==> #[trigger] ranges@[i].1 - ranges@[i].0 == chunk,
            start < total ==> ranges@.len() == 0 || ranges@.last().1 - ranges@.last().0 == chunk,
            total > chunk,
        decreases total - start,
    {
        let end = if total - start <= chunk { total } else { start + chunk };
        let ghost prev = ranges@;
        ranges.push((start, end));
        assert forall|i: int| 0 <= i < ranges@.len() - 1 implies #[trigger] ranges@[i].1
            == ranges@[i + 1].0 by {
            if i < prev.len() - 1 {
                assert(ranges@[i] == prev[i] && ranges@[i + 1] == prev[i + 1]);
            } else {
                assert(ranges@[i] == prev.last());
            }
        }
        assert forall|i: int| 0 <= i < ranges@.len() - 1 implies #[trigger] ranges@[i].1
            - ranges@[i].0 == chunk by {
            assert(ranges@[i] == prev[i]);
        }
        start = end;
    }
    ranges
}

} // verus!
