//! Which runs to merge next: size-tiered compaction policy.
//!
//! Each level holds runs roughly `fanout` times larger than the level below;
//! when a level accumulates `fanout` runs they merge into one run at the next
//! level, so a link is rewritten about once per level it passes through.
//!
//! Runs resolve oldest-span-first, so a merge may only take a **contiguous**
//! stretch of the stack: leaving a run in the middle of what was merged would
//! move it in the resolution order.

use std::ops::Range;
use vstd::prelude::*;

verus! {

/// Runs per level before they merge into one run at the level above.
///
/// Write amplification is roughly the number of levels, so a **larger** fanout
/// rewrites less; what it costs is depth.
pub const DEFAULT_TIER_FANOUT: usize = 10;

/// `a..b` is a stretch: consecutive runs of one level that no run of that level
/// borders.
pub open spec fn stretch(levels: Seq<u8>, a: int, b: int) -> bool {
    &&& 0 <= a < b <= levels.len()
    &&& forall|i: int| a <= i < b ==> #[trigger] levels[i] == levels[a]
    &&& a > 0 ==> levels[a - 1] != levels[a]
    &&& b < levels.len() ==> levels[b] != levels[a]
}

/// `a..b` is the stretch to merge: at least `min` runs, of the lowest level
/// that has such a stretch, and the oldest of that level.
pub open spec fn lowest(levels: Seq<u8>, min: int, a: int, b: int) -> bool {
    &&& stretch(levels, a, b)
    &&& b - a >= min
    &&& forall|c: int, d: int| #[trigger]
        stretch(levels, c, d) && d - c >= min ==> levels[a] < levels[c] || (levels[a] == levels[c]
            && a <= c)
}

/// No stretch has `min` runs.
pub open spec fn none_long(levels: Seq<u8>, min: int) -> bool {
    forall|c: int, d: int| #[trigger] stretch(levels, c, d) ==> d - c < min
}

/// `a..b` are the oldest `fanout` runs of the lowest level that has so many in
/// a stretch.
pub open spec fn full_level(levels: Seq<u8>, fanout: int, a: int, b: int) -> bool {
    &&& exists|c: int| #[trigger] lowest(levels, fanout, a, c)
    &&& b == a + fanout
}

/// Never below two: merging single runs would rewrite bytes to achieve
/// nothing.
pub open spec fn usable_fanout(fanout: usize) -> int {
    if fanout < 2 {
        2
    } else {
        fanout as int
    }
}

/// The oldest stretch of at least `min` consecutive runs sharing a level,
/// taking the lowest such level.
fn lowest_stretch(levels: &[u8], min: usize) -> (r: Option<Range<usize>>)
    requires
        min > 0,
    ensures
        match r {
            Some(s) => lowest(levels@, min as int, s.start as int, s.end as int),
            None => none_long(levels@, min as int),
        },
{
    let n: usize = levels.len();
    let mut best: Option<Range<usize>> = None;
    let mut start: usize = 0;
    while start < n
        invariant
            n == levels@.len(),
            start <= n,
            0 < start < n ==> levels@[start - 1] != levels@[start as int],
            match best {
                Some(s) => s.start < s.end <= start && stretch(
                    levels@,
                    s.start as int,
                    s.end as int,
                ) && s.end - s.start >= min && forall|c: int, d: int| #[trigger]
                    stretch(levels@, c, d) && d <= start && d - c >= min ==> levels@[s.start as int]
                        < levels@[c] || (levels@[s.start as int] == levels@[c] && s.start <= c),
                None => forall|c: int, d: int| #[trigger]
                    stretch(levels@, c, d) && d <= start ==> d - c < min,
            },
        decreases n - start,
    {
        let mut end: usize = start;
        while end < n && levels[end] == levels[start]
            invariant
                n == levels@.len(),
                start <= end <= n,
                start < n,
                forall|i: int| start <= i < end ==> #[trigger] levels@[i] == levels@[start as int],
            decreases n - end,
        {
            end += 1;
        }
        assert(stretch(levels@, start as int, end as int));
        assert forall|c: int, d: int| #[trigger]
            stretch(levels@, c, d) && start < d <= end implies c == start && d == end by {
            if c < start {
                // It would run across the border before `start`.
                assert(levels@[start - 1] == levels@[c]);
                assert(levels@[start as int] == levels@[c]);
            } else if c > start {
                assert(levels@[c - 1] == levels@[start as int]);
                assert(levels@[c] == levels@[start as int]);
            } else if d < end {
                assert(levels@[d] == levels@[start as int]);
            }
        }
        if end - start >= min {
            // Strictly lower, so among equal levels the oldest stretch wins.
            let improves: bool = match &best {
                None => true,
                Some(b) => levels[start] < levels[b.start],
            };
            if improves {
                best = Some(start..end);
            }
        }
        start = end;
    }
    best
}

/// Which runs to merge next, as an index range into the stack, oldest first.
///
/// `levels[i]` is the size tier of the `i`th run. `max_runs` is the depth
/// ceiling: lookups and ingest both pay per run, so a stack that grows past it
/// should buy depth back even when no level is due.
///
/// `None` means leave the stack alone.
pub fn pick_merge(levels: &[u8], fanout: usize, max_runs: usize) -> (r: Option<Range<usize>>)
    ensures
        ({
            let t = usable_fanout(fanout);
            match r {
                Some(s) => {
                    ||| full_level(levels@, t, s.start as int, s.end as int)
                    ||| none_long(levels@, t) && levels@.len() >= max_runs && lowest(
                        levels@,
                        2,
                        s.start as int,
                        s.end as int,
                    )
                },
                None => none_long(levels@, t) && (levels@.len() >= max_runs ==> none_long(
                    levels@,
                    2,
                )),
            }
        }),
{
    let least: usize = if fanout < 2 {
        2
    } else {
        fanout
    };
    // The ordinary case: a level has filled up. Lowest first, because those
    // are the cheapest runs to merge and the ones there are most of.
    match lowest_stretch(levels, least) {
        Some(s) => {
            let ghost t = usable_fanout(fanout);
            assert(lowest(levels@, t, s.start as int, s.end as int));
            assert(full_level(levels@, t, s.start as int, s.start + least));
            return Some(s.start..s.start + least);
        },
        None => {},
    }
    // No level is due, but the stack is deeper than lookups should pay for.
    // Merge the lowest stretch there is: any of `fanout` or more would have
    // been caught above, so this one is smaller.
    if levels.len() >= max_runs {
        return lowest_stretch(levels, 2);
    }
    None
}

/// **A picked merge is bounded and contiguous**: it takes runs of one level
/// that lie next to each other, at least two and at most the fanout, so the
/// result can be spliced back where they were.
pub proof fn picked_merges_are_bounded(levels: Seq<u8>, fanout: usize, a: int, b: int)
    requires
        ({
            let t = usable_fanout(fanout);
            ||| full_level(levels, t, a, b)
            ||| none_long(levels, t) && lowest(levels, 2, a, b)
        }),
    ensures
        0 <= a < b <= levels.len(),
        2 <= b - a <= usable_fanout(fanout),
        forall|i: int| a <= i < b ==> #[trigger] levels[i] == levels[a],
{
    let t = usable_fanout(fanout);
    if full_level(levels, t, a, b) {
        let c = choose|c: int| #[trigger] lowest(levels, t, a, c);
        assert(stretch(levels, a, c));
    } else {
        assert(stretch(levels, a, b));
    }
}

/// `count` runs from `c` on share a level.
pub open spec fn row_of(levels: Seq<u8>, c: int, count: int) -> bool {
    &&& 0 <= c
    &&& c + count <= levels.len()
    &&& forall|i: int| c <= i < c + count ==> #[trigger] levels[i] == levels[c]
}

/// Runs in a row lie within a stretch.
proof fn a_row_lies_in_a_stretch(levels: Seq<u8>, c: int, count: int) -> (s: (int, int))
    requires
        row_of(levels, c, count),
        count > 0,
    ensures
        stretch(levels, s.0, s.1),
        s.0 <= c,
        c + count <= s.1,
        levels[s.0] == levels[c],
    decreases levels.len() - count,
{
    if c > 0 && levels[c - 1] == levels[c] {
        assert forall|i: int| c - 1 <= i < c - 1 + (count + 1) implies #[trigger] levels[i]
            == levels[c - 1] by {
            if i >= c {
                assert(levels[i] == levels[c]);
            }
        }
        a_row_lies_in_a_stretch(levels, c - 1, count + 1)
    } else if c + count < levels.len() && levels[c + count] == levels[c] {
        a_row_lies_in_a_stretch(levels, c, count + 1)
    } else {
        (c, c + count)
    }
}

/// **The lowest full level goes first, and its oldest runs**: a merge of a full
/// level takes as many runs as the fanout, never fewer than two, and no lower
/// level, nor older runs of that one, had as many in a row. Without a full level
/// nothing is merged while the stack is within its depth, and past it the lowest
/// level with two runs in a row goes, if any has.
pub proof fn the_lowest_full_level_goes_first(
    levels: Seq<u8>,
    fanout: usize,
    a: int,
    b: int,
    c: int,
)
    ensures
        usable_fanout(fanout) >= 2,
        fanout >= 2 ==> usable_fanout(fanout) == fanout,
        fanout < 2 ==> usable_fanout(fanout) == 2,
        full_level(levels, usable_fanout(fanout), a, b) ==> {
            &&& b - a == usable_fanout(fanout)
            &&& row_of(levels, a, b - a)
            &&& row_of(levels, c, b - a) ==> levels[a] < levels[c] || (levels[a] == levels[c] && a
                <= c)
        },
        none_long(levels, usable_fanout(fanout)) ==> !row_of(levels, c, usable_fanout(fanout)),
        none_long(levels, 2) ==> !row_of(levels, c, 2),
        lowest(levels, 2, a, b) ==> {
            &&& b - a >= 2
            &&& row_of(levels, a, b - a)
            &&& row_of(levels, c, 2) ==> levels[a] < levels[c] || (levels[a] == levels[c] && a <= c)
            &&& b < levels.len() ==> levels[b] != levels[a]
        },
{
    let t = usable_fanout(fanout);
    if row_of(levels, c, t) {
        let (x, y) = a_row_lies_in_a_stretch(levels, c, t);
        assert(stretch(levels, x, y));
    }
    if row_of(levels, c, 2) {
        let (x, y) = a_row_lies_in_a_stretch(levels, c, 2);
        assert(stretch(levels, x, y));
    }
    if full_level(levels, t, a, b) {
        let d = choose|d: int| #[trigger] lowest(levels, t, a, d);
        assert(stretch(levels, a, d));
    }
}

/// **A merge that is picked takes runs in a row of one level**, at least two and at
/// most the fanout; and none is picked where no level is full and the stack is
/// within its depth.
pub proof fn a_picked_merge_takes_runs_in_a_row(
    levels: &[u8],
    fanout: usize,
    max_runs: usize,
    r: Option<Range<usize>>,
    c: int,
)
    requires
        call_ensures(pick_merge, (levels, fanout, max_runs), r),
    ensures
        r matches Some(s) ==> 2 <= s.end - s.start && s.end <= levels@.len() && row_of(
            levels@,
            s.start as int,
            s.end - s.start,
        ) && (s.end - s.start <= fanout || s.end - s.start == 2),
        r is None ==> !row_of(levels@, c, if fanout < 2 {
            2
        } else {
            fanout as int
        }),
        r is None && levels@.len() >= max_runs ==> !row_of(levels@, c, 2),
        levels@.len() < max_runs ==> (r matches Some(s) ==> s.end - s.start == if fanout < 2 {
            2
        } else {
            fanout as int
        }),
{
    match r {
        Some(s) => {
            the_lowest_full_level_goes_first(
                levels@,
                fanout,
                s.start as int,
                s.end as int,
                c,
            );
            picked_merges_are_bounded(levels@, fanout, s.start as int, s.end as int);
        },
        None => {
            the_lowest_full_level_goes_first(levels@, fanout, 0, 0, c);
        },
    }
}

} // verus!
