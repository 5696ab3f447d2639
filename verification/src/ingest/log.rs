//! Ingest from a partitioned, ordered, replayable log.
//!
//! The offset is what a committed position is measured in, so it has to come
//! from the log: a log assigns it once and every consumer sees the same number
//! against the same record. Restart is then "resume after the position", and
//! the replayed suffix is exactly the events that were applied and never
//! committed.
//!
//! The log kept here is newline-delimited text, one event per line, and **the
//! offset is the line number**, counting from one: stable across readers and
//! restarts, assigned by something other than the consumer, and replayable.

use vstd::prelude::*;

use crate::graph::stream::{applied, PartitionId, StreamPosition};
use crate::graph::types::EdgeEvent;
use crate::storage::names::{has_prefix, has_suffix, strip_prefix, strip_suffix};
use crate::text::{decimal, decimal_text, parse_decimal, parsed};

verus! {

/// One record from the log: the event, and the offset the log gave it.
///
/// Offsets are **one-based and strictly increasing**; zero is reserved for
/// "nothing committed". Gaps are allowed.
#[derive(Debug)]
pub struct Record {
    /// Which ordered log this came from. Single-partition sources use `0`.
    pub partition: PartitionId,
    pub offset: u64,
    pub event: EdgeEvent,
}

pub const NEWLINE: u8 = 10;

pub const CARRIAGE_RETURN: u8 = 13;

/// The lowest index of a newline at or after `from`; `data.len()` when there
/// is none.
pub open spec fn newline_at(data: Seq<u8>, from: int) -> int
    decreases data.len() - from,
{
    if from < 0 || from >= data.len() {
        data.len() as int
    } else if data[from] == NEWLINE {
        from
    } else {
        newline_at(data, from + 1)
    }
}

/// `end` moved back over line endings, no further than `start`.
pub open spec fn trimmed_end(data: Seq<u8>, start: int, end: int) -> int
    decreases end - start,
{
    if end <= start {
        end
    } else if data[end - 1] == NEWLINE || data[end - 1] == CARRIAGE_RETURN {
        trimmed_end(data, start, end - 1)
    } else {
        end
    }
}

/// The contents of the first `max` complete lines from `from` on, as start and
/// end. A line that does not end in a newline is a record the writer is still
/// appending, and is left alone.
pub open spec fn framed(data: Seq<u8>, from: int, max: nat) -> Seq<(int, int)>
    decreases max,
{
    let e = newline_at(data, from);
    if max == 0 || e >= data.len() {
        Seq::empty()
    } else {
        seq![(from, trimmed_end(data, from, e))] + framed(data, e + 1, (max - 1) as nat)
    }
}

/// Where the line after the first `max` complete lines from `from` on starts.
pub open spec fn framed_end(data: Seq<u8>, from: int, max: nat) -> int
    decreases max,
{
    let e = newline_at(data, from);
    if max == 0 || e >= data.len() {
        from
    } else {
        framed_end(data, e + 1, (max - 1) as nat)
    }
}

proof fn newline_bounds(data: Seq<u8>, from: int)
    requires
        0 <= from <= data.len(),
    ensures
        from <= newline_at(data, from) <= data.len(),
    decreases data.len() - from,
{
    if from < data.len() && data[from] != NEWLINE {
        newline_bounds(data, from + 1);
    }
}

proof fn every_line_takes_a_byte(data: Seq<u8>, from: int, max: nat)
    requires
        0 <= from <= data.len(),
    ensures
        framed(data, from, max).len() <= data.len() - from,
    decreases max,
{
    let e = newline_at(data, from);
    newline_bounds(data, from);
    if max > 0 && e < data.len() {
        every_line_takes_a_byte(data, e + 1, (max - 1) as nat);
    }
}

/// **A poll is capped and the next one resumes where it stopped**: framing `a`
/// lines and then `b` more frames the same lines as framing `a + b`.
pub proof fn a_poll_resumes_where_it_stopped(data: Seq<u8>, from: int, a: nat, b: nat)
    requires
        0 <= from <= data.len(),
    ensures
        framed(data, from, a + b) == framed(data, from, a) + framed(
            data,
            framed_end(data, from, a),
            b,
        ),
        framed_end(data, from, a + b) == framed_end(data, framed_end(data, from, a), b),
    decreases a,
{
    let e = newline_at(data, from);
    newline_bounds(data, from);
    if a == 0 {
        assert(framed(data, from, a) + framed(data, from, b) =~= framed(data, from, b));
    } else if e >= data.len() {
        assert(framed(data, from, b) =~= Seq::empty());
        assert(framed(data, from, a) + framed(data, from, b) =~= Seq::empty());
        assert(framed_end(data, from, b) == from);
    } else {
        a_poll_resumes_where_it_stopped(data, e + 1, (a - 1) as nat, b);
        assert((a + b - 1) as nat == (a - 1) as nat + b);
        let head = seq![(from, trimmed_end(data, from, e))];
        let mid = framed(data, e + 1, (a - 1) as nat);
        let tail = framed(data, framed_end(data, from, a), b);
        assert(head + (mid + tail) =~= (head + mid) + tail);
    }
}

proof fn trimming_ignores_the_rest(data: Seq<u8>, more: Seq<u8>, start: int, end: int)
    requires
        0 <= start,
        end <= data.len(),
    ensures
        trimmed_end(data + more, start, end) == trimmed_end(data, start, end),
    decreases end - start,
{
    if end > start {
        assert((data + more)[end - 1] == data[end - 1]);
        trimming_ignores_the_rest(data, more, start, end - 1);
    }
}

proof fn a_newline_stays(data: Seq<u8>, more: Seq<u8>, from: int)
    requires
        0 <= from <= data.len(),
        newline_at(data, from) < data.len(),
    ensures
        newline_at(data + more, from) == newline_at(data, from),
    decreases data.len() - from,
{
    assert((data + more)[from] == data[from]);
    if data[from] != NEWLINE {
        a_newline_stays(data, more, from + 1);
    }
}

/// **A torn record is read whole once its newline lands**: what a writer
/// appends changes no line that was already framed, and the next poll starts
/// at the first byte that no complete line took.
pub proof fn appending_keeps_every_framed_line(
    data: Seq<u8>,
    more: Seq<u8>,
    from: int,
    max: nat,
)
    requires
        0 <= from <= data.len(),
    ensures
        ({
            let before = framed(data, from, max);
            &&& framed(data + more, from, max) == before + framed(
                data + more,
                framed_end(data, from, max),
                (max - before.len()) as nat,
            )
            &&& before.len() <= max
        }),
    decreases max,
{
    let e = newline_at(data, from);
    let all = data + more;
    newline_bounds(data, from);
    if max == 0 || e >= data.len() {
        assert(framed(data, from, max) + framed(all, from, max) =~= framed(all, from, max));
    } else {
        a_newline_stays(data, more, from);
        trimming_ignores_the_rest(data, more, from, e);
        appending_keeps_every_framed_line(data, more, e + 1, (max - 1) as nat);
        let head = seq![(from, trimmed_end(data, from, e))];
        let mid = framed(data, e + 1, (max - 1) as nat);
        let left = ((max - 1) as nat - mid.len()) as nat;
        let tail = framed(all, framed_end(data, from, max), left);
        assert(left == (max - framed(data, from, max).len()) as nat);
        assert(head + (mid + tail) =~= (head + mid) + tail);
    }
}

proof fn a_line_starts_where_the_last_ended(data: Seq<u8>, from: int, max: nat, k: int)
    requires
        0 <= from <= data.len(),
        0 <= k < framed(data, from, max).len(),
    ensures
        framed(data, from, max)[k].0 == framed_end(data, from, k as nat),
        framed_end(data, from, k as nat) <= data.len(),
    decreases max,
{
    let e = newline_at(data, from);
    newline_bounds(data, from);
    if k > 0 {
        a_line_starts_where_the_last_ended(data, e + 1, (max - 1) as nat, k - 1);
    }
}

/// The lines of one poll.
#[derive(Debug)]
pub struct Framed {
    /// Start and end of each line's content.
    pub lines: Vec<(usize, usize)>,
    /// Bytes taken; what follows belongs to the next poll.
    pub consumed: usize,
    /// Why the line after these cannot be read, where that ended the poll.
    pub bad: Option<LogError>,
}

pub open spec fn as_ranges(v: Seq<(usize, usize)>) -> Seq<(int, int)> {
    v.map_values(|p: (usize, usize)| (p.0 as int, p.1 as int))
}

/// The index of the first newline at or after `from`; `data.len()` if none.
fn find_newline(data: &[u8], from: usize) -> (e: usize)
    requires
        from <= data@.len(),
    ensures
        e == newline_at(data@, from as int),
        from <= e <= data@.len(),
{
    let mut e: usize = from;
    while e < data.len() && data[e] != NEWLINE
        invariant
            from <= e <= data@.len(),
            newline_at(data@, from as int) == newline_at(data@, e as int),
        decreases data@.len() - e,
    {
        e += 1;
    }
    e
}

fn trim_line(data: &[u8], start: usize, end: usize) -> (e: usize)
    requires
        start <= end <= data@.len(),
    ensures
        e == trimmed_end(data@, start as int, end as int),
        start <= e <= end,
{
    let mut e: usize = end;
    while e > start && (data[e - 1] == NEWLINE || data[e - 1] == CARRIAGE_RETURN)
        invariant
            start <= e <= end <= data@.len(),
            trimmed_end(data@, start as int, end as int) == trimmed_end(
                data@,
                start as int,
                e as int,
            ),
        decreases e,
    {
        e -= 1;
    }
    e
}

/// The first `max` complete lines of `data`, without their line endings.
pub fn frame(data: &[u8], max: usize) -> (f: Framed)
    ensures
        as_ranges(f.lines@) == framed(data@, 0, max as nat),
        f.consumed == framed_end(data@, 0, max as nat),
        f.consumed <= data@.len(),
        f.bad is None,
        f.lines@.len() <= max,
        forall|i: int|
            0 <= i < f.lines@.len() ==> (#[trigger] f.lines@[i]).0 <= f.lines@[i].1
                <= data@.len(),
{
    let mut lines: Vec<(usize, usize)> = Vec::new();
    let mut at: usize = 0;
    let ghost all = framed(data@, 0, max as nat);
    assert(as_ranges(lines@) + framed(data@, 0, max as nat) =~= all);
    while lines.len() < max
        invariant
            at <= data@.len(),
            lines@.len() <= max,
            all == framed(data@, 0, max as nat),
            as_ranges(lines@) + framed(data@, at as int, (max - lines@.len()) as nat) == all,
            framed_end(data@, at as int, (max - lines@.len()) as nat) == framed_end(
                data@,
                0,
                max as nat,
            ),
            forall|i: int|
                0 <= i < lines@.len() ==> (#[trigger] lines@[i]).0 <= lines@[i].1 <= data@.len(),
        ensures
            framed(data@, at as int, (max - lines@.len()) as nat) == Seq::<(int, int)>::empty(),
            framed_end(data@, 0, max as nat) == at,
        decreases max - lines.len(),
    {
        let e: usize = find_newline(data, at);
        if e >= data.len() {
            break ;
        }
        let end: usize = trim_line(data, at, e);
        let ghost was = lines@;
        lines.push((at, end));
        proof {
            let left = (max - was.len()) as nat;
            let tail = framed(data@, e + 1, (left - 1) as nat);
            assert(as_ranges(lines@) =~= as_ranges(was).push((at as int, end as int)));
            assert(as_ranges(lines@) + tail =~= as_ranges(was) + (seq![(at as int, end as int)]
                + tail));
        }
        at = e + 1;
    }
    assert(as_ranges(lines@) + Seq::<(int, int)>::empty() =~= as_ranges(lines@));
    Framed { lines, consumed: at, bad: None }
}

/// Why a log cannot be read on.
#[derive(Debug, Clone, Copy, PartialEq, Eq, Structural)]
pub enum LogError {
    /// A blank line would break the line-number-is-offset mapping.
    Blank { offset: u64 },
    /// The committed position is past the end of this log.
    PastTheEnd { partition: PartitionId, offset: u64, end: u64 },
}

/// The words of a [`LogError`].
pub open spec fn log_error_text(e: LogError) -> Seq<char> {
    match e {
        LogError::Blank { offset } => "blank line at offset "@ + decimal(offset as nat),
        LogError::PastTheEnd { partition, offset, end } => "cannot resume partition "@ + decimal(
            partition as nat,
        ) + " at offset "@ + decimal(offset as nat) + ": the log ends at "@ + decimal(end as nat)
            + ". The committed position is past the end of this log, which usually means the worker is pointed at a different stream than the one its snapshots were built from."@,
    }
}

impl LogError {
    pub fn to_text(&self) -> (s: String)
        ensures
            s@ == log_error_text(*self),
    {
        match self {
            LogError::Blank { offset } => {
                let mut s = String::from_str("blank line at offset ");
                s.append(decimal_text(*offset).as_str());
                s
            },
            LogError::PastTheEnd { partition, offset, end } => {
                let mut s = String::from_str("cannot resume partition ");
                s.append(decimal_text(*partition as u64).as_str());
                s.append(" at offset ");
                s.append(decimal_text(*offset).as_str());
                s.append(": the log ends at ");
                s.append(decimal_text(*end).as_str());
                s.append(
                    ". The committed position is past the end of this log, which usually means the worker is pointed at a different stream than the one its snapshots were built from.",
                );
                s
            },
        }
    }
}

/// Where a reader stands in one partition.
#[derive(Debug, Clone, Copy, PartialEq, Eq, Structural)]
pub struct LogCursor {
    /// Which partition the log is.
    pub partition: PartitionId,
    /// Offset of the last record returned; the next line is `next + 1`.
    pub next: u64,
}

/// Whether line `i` of a poll has no content.
pub open spec fn blank(lines: Seq<(int, int)>, i: int) -> bool {
    0 <= i < lines.len() && lines[i].0 >= lines[i].1
}

/// `events` under the offsets after `next`.
pub open spec fn numbered(
    partition: PartitionId,
    next: u64,
    events: Seq<EdgeEvent>,
) -> Seq<Record> {
    Seq::new(
        events.len(),
        |i: int| Record { partition, offset: (next + i + 1) as u64, event: events[i] },
    )
}

impl LogCursor {
    /// A reader at the beginning of the log of `partition`.
    pub fn new(partition: PartitionId) -> (c: LogCursor)
        ensures
            c == (LogCursor { partition, next: 0 }),
    {
        LogCursor { partition, next: 0 }
    }

    /// The lines of the next poll: at most `max` complete lines of the unread
    /// bytes `data`, up to the first blank one. A blank line is an error that
    /// names its offset; the lines before it are handed out, since one of them
    /// may be the first bad record.
    pub fn lines(&self, data: &[u8], max: usize) -> (f: Framed)
        requires
            self.next + data@.len() <= u64::MAX,
        ensures
            ({
                let all = framed(data@, 0, max as nat);
                let k = f.lines@.len();
                &&& as_ranges(f.lines@) == all.take(k as int)
                &&& k <= all.len() <= data@.len()
                &&& f.consumed == framed_end(data@, 0, if f.bad is None { max as nat } else { k })
                &&& f.consumed <= data@.len()
                &&& match f.bad {
                    None => k == all.len(),
                    Some(e) => blank(all, k as int) && e == (LogError::Blank {
                        offset: (self.next + k + 1) as u64,
                    }),
                }
            }),
            forall|i: int|
                0 <= i < f.lines@.len() ==> (#[trigger] f.lines@[i]).0 < f.lines@[i].1
                    <= data@.len(),
    {
        let mut f = frame(data, max);
        let ghost all = framed(data@, 0, max as nat);
        let ghost given = f.lines@;
        proof {
            every_line_takes_a_byte(data@, 0, max as nat);
        }
        let mut i: usize = 0;
        while i < f.lines.len() && f.lines[i].0 < f.lines[i].1
            invariant
                i <= f.lines@.len(),
                all == as_ranges(f.lines@),
                all == framed(data@, 0, max as nat),
                forall|j: int| 0 <= j < i ==> (#[trigger] f.lines@[j]).0 < f.lines@[j].1,
            decreases f.lines@.len() - i,
        {
            i += 1;
        }
        if i < f.lines.len() {
            proof {
                assert(all[i as int] == (given[i as int].0 as int, given[i as int].1 as int));
                a_line_starts_where_the_last_ended(data@, 0, max as nat, i as int);
            }
            f.consumed = f.lines[i].0;
            f.lines.truncate(i);
            f.bad = Some(LogError::Blank { offset: self.next + i as u64 + 1 });
            assert(as_ranges(f.lines@) =~= all.take(i as int));
        } else {
            assert(all.take(i as int) =~= all);
        }
        f
    }

    /// Gives the events of a poll their offsets: the line numbers.
    pub fn deliver(&mut self, events: Vec<EdgeEvent>) -> (records: Vec<Record>)
        requires
            old(self).next + events@.len() <= u64::MAX,
        ensures
            records@ == numbered(old(self).partition, old(self).next, events@),
            *final(self) == (LogCursor {
                next: (old(self).next + events@.len()) as u64,
                ..*old(self)
            }),
    {
        let mut records: Vec<Record> = Vec::new();
        let ghost start = *self;
        let ghost all = events@;
        let mut left = events;
        let mut reversed: Vec<EdgeEvent> = Vec::new();
        while left.len() > 0
            invariant
                left@.len() + reversed@.len() == all.len(),
                left@ == all.take(left@.len() as int),
                forall|i: int|
                    0 <= i < reversed@.len() ==> #[trigger] reversed@[i] == all[all.len() - 1 - i],
            decreases left@.len(),
        {
            let ghost n = left@.len();
            if let Some(e) = left.pop() {
                reversed.push(e);
                assert(e == all[n - 1]);
                assert(left@ =~= all.take(n - 1));
            }
        }
        while reversed.len() > 0
            invariant
                reversed@.len() + records@.len() == all.len(),
                start.next + all.len() <= u64::MAX,
                forall|i: int|
                    0 <= i < reversed@.len() ==> #[trigger] reversed@[i] == all[all.len() - 1 - i],
                records@ == numbered(start.partition, start.next, all).take(records@.len() as int),
                *self == (LogCursor {
                    next: (start.next + records@.len()) as u64,
                    ..start
                }),
            decreases reversed@.len(),
        {
            let ghost was = records@;
            if let Some(event) = reversed.pop() {
                self.next = self.next + 1;
                records.push(Record { partition: self.partition, offset: self.next, event });
                assert(records@ =~= numbered(start.partition, start.next, all).take(
                    was.len() as int + 1,
                ));
            }
        }
        assert(records@ =~= numbered(start.partition, start.next, all));
        records
    }

    /// Starts a seek: back to the beginning of the log.
    pub fn rewind(&mut self)
        ensures
            *final(self) == (LogCursor { next: 0, ..*old(self) }),
    {
        self.next = 0;
    }

    /// Whether records at or before `position` are still ahead.
    pub fn behind(&self, position: &StreamPosition) -> (r: bool)
        ensures
            r == (self.next < applied(position@, self.partition)),
    {
        self.next < position.get(self.partition)
    }

    /// Steps over one record on the way to `position`, given the bytes that
    /// reading a line took: none means that the log ends before the position.
    pub fn step_over(&mut self, position: &StreamPosition, read: usize) -> (r: Result<
        (),
        LogError,
    >)
        requires
            old(self).next < applied(position@, old(self).partition),
        ensures
            match r {
                Ok(_) => read > 0 && *final(self) == (LogCursor {
                    next: (old(self).next + 1) as u64,
                    ..*old(self)
                }),
                Err(e) => read == 0 && *final(self) == *old(self) && e == (LogError::PastTheEnd {
                    partition: old(self).partition,
                    offset: applied(position@, old(self).partition),
                    end: old(self).next,
                }),
            },
    {
        if read == 0 {
            return Err(
                LogError::PastTheEnd {
                    partition: self.partition,
                    offset: position.get(self.partition),
                    end: self.next,
                },
            );
        }
        self.next = self.next + 1;
        Ok(())
    }
}

// --- reading a log through ---------------------------------------------------------------------------

/// Every complete line of `data`.
pub open spec fn all_lines(data: Seq<u8>) -> Seq<(int, int)> {
    framed(data, 0, data.len())
}

/// What the line at `r` says.
pub open spec fn content(data: Seq<u8>, r: (int, int)) -> Seq<u8> {
    data.subrange(r.0, r.1)
}

/// How many bytes reading a line from `at` takes: up to its newline, or to the
/// end of what is there.
pub open spec fn line_bytes(data: Seq<u8>, at: int) -> int {
    let e = newline_at(data, at);
    if e < data.len() {
        e + 1 - at
    } else {
        data.len() - at
    }
}

/// Where a reader that stands at byte `at`, after `next` lines, comes to on its
/// way to `target`, stepping over a line at a time: the byte after the line, or
/// the number of lines where the log ends before.
pub open spec fn sought(data: Seq<u8>, at: int, next: int, target: int) -> Result<int, int>
    decreases target - next,
{
    if next >= target {
        Ok(at)
    } else if line_bytes(data, at) <= 0 {
        Err(next)
    } else {
        sought(data, at + line_bytes(data, at), next + 1, target)
    }
}

proof fn framed_facts(data: Seq<u8>, from: int, max: nat)
    requires
        0 <= from <= data.len(),
    ensures
        framed(data, from, max).len() <= max,
        from <= framed_end(data, from, max) <= data.len(),
        framed(data, from, max).len() < max ==> newline_at(data, framed_end(data, from, max))
            >= data.len(),
        forall|i: int|
            0 <= i < framed(data, from, max).len() ==> from <= (#[trigger] framed(
                data,
                from,
                max,
            )[i]).0 <= framed(data, from, max)[i].1 <= data.len(),
    decreases max,
{
    let e = newline_at(data, from);
    newline_bounds(data, from);
    if max > 0 && e < data.len() {
        framed_facts(data, e + 1, (max - 1) as nat);
        trim_bounds(data, from, e);
        let rest = framed(data, e + 1, (max - 1) as nat);
        let all = framed(data, from, max);
        assert forall|i: int| 0 <= i < all.len() implies from <= (#[trigger] all[i]).0
            <= all[i].1 <= data.len() by {
            if i > 0 {
                assert(all[i] == rest[i - 1]);
            }
        }
    }
}

proof fn trim_bounds(data: Seq<u8>, start: int, end: int)
    requires
        start <= end,
    ensures
        start <= trimmed_end(data, start, end) <= end,
    decreases end - start,
{
    if end > start {
        trim_bounds(data, start, end - 1);
    }
}

/// A reader passes each complete line in one step.
proof fn lines_are_stepped_over(data: Seq<u8>, j: nat, n: nat, target: int)
    requires
        j <= n <= target,
        framed(data, 0, n).len() == n,
    ensures
        sought(data, framed_end(data, 0, j), j as int, target) == sought(
            data,
            framed_end(data, 0, n),
            n as int,
            target,
        ),
    decreases n - j,
{
    if j < n {
        let at = framed_end(data, 0, j);
        framed_facts(data, 0, j);
        // Lines `j` and `j + 1` are there.
        a_poll_resumes_where_it_stopped(data, 0, j, (n - j) as nat);
        framed_facts(data, at, (n - j) as nat);
        assert(framed(data, at, (n - j) as nat).len() == n - j);
        let e = newline_at(data, at);
        newline_bounds(data, at);
        assert(e < data.len());
        a_poll_resumes_where_it_stopped(data, 0, j, 1);
        assert(framed_end(data, at, 1) == e + 1) by {
            reveal_with_fuel(framed_end, 2);
        }
        assert(j + 1 == (j + 1) as nat);
        lines_are_stepped_over(data, j + 1, n, target);
    }
}

/// **A seek lands after the line it names**: with at least `k` complete lines it
/// stands right after line `k`, and where the log ends with line `n` before
/// that, it says so.
pub proof fn a_seek_lands_after_its_line(data: Seq<u8>, k: nat)
    ensures
        ({
            let n = all_lines(data).len();
            &&& k <= n ==> sought(data, 0, 0, k as int) == Ok::<int, int>(framed_end(data, 0, k))
            &&& k > n && framed_end(data, 0, n) == data.len() ==> sought(data, 0, 0, k as int)
                == Err::<int, int>(n as int)
        }),
{
    let n = all_lines(data).len();
    every_line_takes_a_byte(data, 0, data.len());
    framed_facts(data, 0, data.len());
    lines_up_to(data, n);
    if k <= n {
        lines_up_to(data, k);
        lines_are_stepped_over(data, 0, k, k as int);
    } else if framed_end(data, 0, n) == data.len() {
        lines_are_stepped_over(data, 0, n, k as int);
        assert(line_bytes(data, data.len() as int) == 0);
    }
}

/// The first `k` of the complete lines are what framing `k` lines gives.
proof fn lines_up_to(data: Seq<u8>, k: nat)
    requires
        k <= all_lines(data).len(),
    ensures
        framed(data, 0, k).len() == k,
        framed(data, 0, k) == all_lines(data).take(k as int),
{
    every_line_takes_a_byte(data, 0, data.len());
    framed_facts(data, 0, k);
    let rest = (data.len() - k) as nat;
    a_poll_resumes_where_it_stopped(data, 0, k, rest);
    framed_facts(data, framed_end(data, 0, k), rest);
    assert(k + rest == data.len());
    if framed(data, 0, k).len() < k {
        // No newline is left, so nothing follows either.
        assert(framed(data, framed_end(data, 0, k), rest).len() == 0);
    }
    assert(framed(data, 0, k) =~= all_lines(data).take(k as int));
}

proof fn newlines_shift(data: Seq<u8>, at: int, i: int)
    requires
        0 <= at <= data.len(),
        0 <= i <= data.len() - at,
    ensures
        newline_at(data.skip(at), i) + at == newline_at(data, at + i),
    decreases data.len() - at - i,
{
    if i < data.len() - at {
        assert(data.skip(at)[i] == data[at + i]);
        if data[at + i] != NEWLINE {
            newlines_shift(data, at, i + 1);
        }
    }
}

proof fn trimming_shifts(data: Seq<u8>, at: int, start: int, end: int)
    requires
        0 <= at <= data.len(),
        0 <= start,
        end <= data.len() - at,
    ensures
        trimmed_end(data.skip(at), start, end) + at == trimmed_end(data, at + start, at + end),
    decreases end - start,
{
    if end > start {
        assert(data.skip(at)[end - 1] == data[at + end - 1]);
        trimming_shifts(data, at, start, end - 1);
    }
}

proof fn framing_shifts(data: Seq<u8>, at: int, i: int, max: nat)
    requires
        0 <= at <= data.len(),
        0 <= i <= data.len() - at,
    ensures
        framed(data.skip(at), i, max).len() == framed(data, at + i, max).len(),
        forall|l: int|
            0 <= l < framed(data, at + i, max).len() ==> (#[trigger] framed(
                data,
                at + i,
                max,
            )[l]) == (
                framed(data.skip(at), i, max)[l].0 + at,
                framed(data.skip(at), i, max)[l].1 + at,
            ),
        framed_end(data.skip(at), i, max) + at == framed_end(data, at + i, max),
    decreases max,
{
    let rest = data.skip(at);
    let e = newline_at(rest, i);
    newlines_shift(data, at, i);
    newline_bounds(rest, i);
    if max > 0 && e < rest.len() {
        trimming_shifts(data, at, i, e);
        framing_shifts(data, at, e + 1, (max - 1) as nat);
        let a = framed(rest, i, max);
        let b = framed(data, at + i, max);
        let ta = framed(rest, e + 1, (max - 1) as nat);
        let tb = framed(data, at + e + 1, (max - 1) as nat);
        assert forall|l: int| 0 <= l < b.len() implies (#[trigger] b[l]) == (
            a[l].0 + at,
            a[l].1 + at,
        ) by {
            if l > 0 {
                assert(b[l] == tb[l - 1]);
                assert(a[l] == ta[l - 1]);
            }
        }
    }
}

/// **A log is read through in order, each line once, under its own number**: a
/// poll of `max` after `k` lines yields lines `k + 1` onward, as many as are
/// complete, delivered under the offsets `k + 1` onward, and stops where the
/// next poll goes on. A last line without its newline is not among them.
pub proof fn a_poll_yields_the_next_lines(
    data: Seq<u8>,
    k: nat,
    max: nat,
    partition: PartitionId,
    events: Seq<EdgeEvent>,
)
    requires
        k <= all_lines(data).len(),
    ensures
        ({
            let all = all_lines(data);
            let at = framed_end(data, 0, k);
            let unread = data.skip(at);
            let got = framed(unread, 0, max);
            &&& 0 <= at <= data.len()
            &&& got.len() == if max <= all.len() - k {
                max as int
            } else {
                all.len() - k
            }
            &&& forall|i: int|
                0 <= i < got.len() ==> content(unread, #[trigger] got[i]) == content(
                    data,
                    all[k + i],
                )
            &&& at + framed_end(unread, 0, max) == framed_end(data, 0, k + got.len())
            &&& events.len() == got.len() && k + got.len() <= u64::MAX ==> forall|i: int|
                0 <= i < got.len() ==> #[trigger] numbered(partition, k as u64, events)[i] == (
                Record { partition, offset: (k + i + 1) as u64, event: events[i] })
        }),
{
    let all = all_lines(data);
    let n = all.len();
    let at = framed_end(data, 0, k);
    let unread = data.skip(at);
    let got = framed(unread, 0, max);
    lines_up_to(data, k);
    lines_up_to(data, n);
    framed_facts(data, 0, k);
    framed_facts(data, at, max);
    framing_shifts(data, at, 0, max);
    let here = framed(data, at, max);
    a_poll_resumes_where_it_stopped(data, 0, k, max);
    // As many lines as are asked for, or all there are.
    let m: nat = if max <= n - k {
        max
    } else {
        (n - k) as nat
    };
    lines_up_to(data, k + m);
    a_poll_resumes_where_it_stopped(data, 0, k, m);
    framed_facts(data, at, m);
    assert(framed(data, at, m).len() == m);
    if max > m {
        // Nothing complete is left after line `n`.
        assert(k + m == n);
        nothing_follows_the_last_line(data);
        a_poll_resumes_where_it_stopped(data, at, m, (max - m) as nat);
        assert(framed_end(data, at, m) == framed_end(data, 0, n));
        assert(framed(data, framed_end(data, 0, n), (max - m) as nat) =~= Seq::empty());
        assert(m + (max - m) as nat == max);
        assert(framed_end(data, framed_end(data, 0, n), (max - m) as nat) == framed_end(
            data,
            0,
            n,
        ));
    }
    assert(here =~= framed(data, at, m));
    assert(framed_end(data, at, max) == framed_end(data, 0, k + m));
    assert forall|i: int| 0 <= i < got.len() implies content(unread, #[trigger] got[i]) == content(
        data,
        all[k + i],
    ) by {
        assert(here[i] == (got[i].0 + at, got[i].1 + at));
        let upto = framed(data, 0, k + m);
        assert(upto[k + i] == here[i]);
        assert(all[k + i] == here[i]);
        assert(content(unread, got[i]) =~= content(data, here[i]));
    }
}

proof fn nothing_follows_the_last_line(data: Seq<u8>)
    ensures
        newline_at(data, framed_end(data, 0, all_lines(data).len())) >= data.len(),
{
    let n = all_lines(data).len();
    every_line_takes_a_byte(data, 0, data.len());
    framed_facts(data, 0, data.len());
    lines_up_to(data, n);
    let rest = (data.len() - n) as nat;
    a_poll_resumes_where_it_stopped(data, 0, n, rest);
    assert(n + rest == data.len());
    let at = framed_end(data, 0, n);
    framed_facts(data, 0, n);
    framed_facts(data, at, rest);
    assert(framed(data, at, rest).len() == 0);
    if rest == 0 {
        lines_move_on(data, 0, n);
    }
}

/// `n` lines take at least `n` bytes.
proof fn lines_move_on(data: Seq<u8>, from: int, n: nat)
    requires
        0 <= from <= data.len(),
        framed(data, from, n).len() == n,
    ensures
        framed_end(data, from, n) >= from + n,
    decreases n,
{
    newline_bounds(data, from);
    if n > 0 {
        lines_move_on(data, newline_at(data, from) + 1, (n - 1) as nat);
    }
}

/// The partition that a log file's name says.
pub open spec fn named_partition(name: Seq<char>) -> Option<nat> {
    let rest = name.skip("partition-"@.len() as int);
    if has_prefix(name, "partition-"@) && has_suffix(rest, ".ndjson"@) {
        parsed(rest.take(rest.len() - ".ndjson"@.len()), u32::MAX as nat)
    } else {
        None
    }
}

/// The partition of a file named `partition-<n>.ndjson`; `None` for any other
/// name.
pub fn partition_of(name: &str) -> (r: Option<PartitionId>)
    ensures
        match r {
            Some(p) => named_partition(name@) == Some(p as nat),
            None => named_partition(name@) is None,
        },
{
    match strip_prefix(name, "partition-") {
        None => None,
        Some(rest) => match strip_suffix(rest, ".ndjson") {
            None => None,
            Some(digits) => match parse_decimal(digits, u32::MAX as u64) {
                None => None,
                Some(n) => Some(n as u32),
            },
        },
    }
}

/// How many of the `left` records of a poll the next of `parts` partitions may
/// yield: an equal share, rounded up, so that no partition waits for another to
/// drain and all of them together stay within the poll.
pub open spec fn share_of(left: int, parts: int) -> int {
    (left + parts - 1) / parts
}

/// How many of the `left` records of a poll the next of `parts` partitions that
/// are still to be polled may yield.
pub fn poll_share(left: usize, parts: usize) -> (share: usize)
    requires
        parts > 0,
    ensures
        share == share_of(left as int, parts as int),
        share <= left,
        share * parts >= left,
        share == 0 <==> left == 0,
{
    let q: usize = left / parts;
    let r: usize = left % parts;
    proof {
        vstd::arithmetic::div_mod::lemma_fundamental_div_mod(left as int, parts as int);
        vstd::arithmetic::div_mod::lemma_mod_bound(left as int, parts as int);
    }
    if r > 0 {
        assert(q + 1 <= left && (q + 1) * parts >= left) by (nonlinear_arith)
            requires
                left == parts * q + r,
                0 < r < parts,
        ;
        proof {
            let over = left + parts - 1;
            assert(over == (q + 1) * parts + (r - 1)) by (nonlinear_arith)
                requires
                    over == left + parts - 1,
                    left == parts * q + r,
            ;
            vstd::arithmetic::div_mod::lemma_fundamental_div_mod_converse(
                over,
                parts as int,
                q + 1,
                r - 1,
            );
        }
        q + 1
    } else {
        assert(q <= left && q * parts >= left && (q == 0 <==> left == 0)) by (nonlinear_arith)
            requires
                left == parts * q,
                parts > 0,
        ;
        proof {
            let over = left + parts - 1;
            assert(over == q * parts + (parts - 1)) by (nonlinear_arith)
                requires
                    over == left + parts - 1,
                    left == parts * q,
            ;
            vstd::arithmetic::div_mod::lemma_fundamental_div_mod_converse(
                over,
                parts as int,
                q as int,
                parts - 1,
            );
        }
        q
    }
}

/// What `parts` partitions yield to a poll of `left` records in turn, each asked
/// for its share of what is left. `ready` says how many records each of them
/// has.
pub open spec fn polled_in_turn(left: int, ready: Seq<nat>) -> Seq<int>
    decreases ready.len(),
{
    if ready.len() == 0 {
        Seq::empty()
    } else {
        let share = share_of(left, ready.len() as int);
        let got = if ready[0] < share {
            ready[0] as int
        } else {
            share
        };
        seq![got] + polled_in_turn(left - got, ready.skip(1))
    }
}

/// All of `counts` together.
pub open spec fn sum_of(counts: Seq<int>) -> int
    decreases counts.len(),
{
    if counts.len() == 0 {
        0
    } else {
        counts[0] + sum_of(counts.skip(1))
    }
}

/// **A poll never yields more than it asked for**, however many partitions share
/// it, and a record that is ready is not passed over while there is room.
pub proof fn shares_stay_within_the_poll(max: int, ready: Seq<nat>)
    requires
        max >= 0,
    ensures
        0 <= sum_of(polled_in_turn(max, ready)) <= max,
        (forall|i: int| 0 <= i < ready.len() ==> #[trigger] ready[i] >= max) && ready.len() > 0
            ==> sum_of(polled_in_turn(max, ready)) == max,
    decreases ready.len(),
{
    if ready.len() > 0 {
        let parts = ready.len() as int;
        let share = share_of(max, parts);
        vstd::arithmetic::div_mod::lemma_fundamental_div_mod(max + parts - 1, parts);
        vstd::arithmetic::div_mod::lemma_mod_bound(max + parts - 1, parts);
        assert(0 <= share <= max) by (nonlinear_arith)
            requires
                max + parts - 1 == parts * share + (max + parts - 1) % parts,
                0 <= (max + parts - 1) % parts < parts,
                max >= 0,
                parts > 0,
        ;
        let got = if ready[0] < share {
            ready[0] as int
        } else {
            share
        };
        let rest = ready.skip(1);
        shares_stay_within_the_poll(max - got, rest);
        let all = polled_in_turn(max, ready);
        assert(all.skip(1) =~= polled_in_turn(max - got, rest));
        if forall|i: int| 0 <= i < ready.len() ==> #[trigger] ready[i] >= max {
            assert(ready[0] >= max);
            assert forall|i: int| 0 <= i < rest.len() implies #[trigger] rest[i] >= max - got by {
                assert(ready[i + 1] >= max);
            }
            if parts == 1 {
                assert(share == max) by (nonlinear_arith)
                    requires
                        max + parts - 1 == parts * share + (max + parts - 1) % parts,
                        0 <= (max + parts - 1) % parts < parts,
                        parts == 1,
                ;
                assert(sum_of(polled_in_turn(max - got, rest)) == 0);
            }
        }
    }
}

/// How the consumer behaves when the log has nothing to give.
#[derive(Debug, Clone, Copy, PartialEq, Eq, Structural)]
pub struct ConsumerConfig {
    /// Records per poll.
    pub batch: usize,
    /// How long to wait before polling a live source that returned nothing, in
    /// milliseconds.
    pub idle_ms: u64,
}

impl Default for ConsumerConfig {
    fn default() -> (c: ConsumerConfig)
        ensures
            c == (ConsumerConfig { batch: 10_000, idle_ms: 20 }),
    {
        ConsumerConfig { batch: 10_000, idle_ms: 20 }
    }
}

/// What a consumer does after a poll.
#[derive(Debug, Clone, Copy, PartialEq, Eq, Structural)]
pub enum AfterPoll {
    Apply,
    Wait,
    Stop,
}

/// What a consumer does after a poll that brought `records`: an empty batch
/// means "nothing right now" from a live source and the end from any other.
pub fn after_poll(records: usize, live: bool) -> (a: AfterPoll)
    ensures
        a is Apply <==> records > 0,
        a is Wait <==> records == 0 && live,
        a is Stop <==> records == 0 && !live,
{
    if records > 0 {
        AfterPoll::Apply
    } else if live {
        AfterPoll::Wait
    } else {
        AfterPoll::Stop
    }
}

// --- what a line is ----------------------------------------------------------------

proof fn newline_is_the_first(data: Seq<u8>, from: int)
    requires
        0 <= from <= data.len(),
    ensures
        from <= newline_at(data, from) <= data.len(),
        newline_at(data, from) < data.len() ==> data[newline_at(data, from)] == 10,
        forall|j: int| from <= j < newline_at(data, from) ==> #[trigger] data[j] != 10,
    decreases data.len() - from,
{
    if from < data.len() && data[from] != NEWLINE {
        newline_is_the_first(data, from + 1);
    }
}

proof fn trimming_takes_line_endings(data: Seq<u8>, start: int, end: int)
    requires
        0 <= start <= end <= data.len(),
    ensures
        start <= trimmed_end(data, start, end) <= end,
        forall|j: int|
            trimmed_end(data, start, end) <= j < end ==> #[trigger] data[j] == 10 || data[j] == 13,
        start < trimmed_end(data, start, end) ==> data[trimmed_end(data, start, end) - 1] != 10
            && data[trimmed_end(data, start, end) - 1] != 13,
    decreases end - start,
{
    if end > start && (data[end - 1] == NEWLINE || data[end - 1] == CARRIAGE_RETURN) {
        trimming_takes_line_endings(data, start, end - 1);
    }
}

/// **A line is handed out whole**: line `l` of a poll starts where the line
/// before it ended, or at the beginning, and ends at its own newline, with none
/// between. Its content is all of that but the carriage returns right before
/// the newline, and does not end in one; without them it reaches the newline.
pub proof fn a_line_is_handed_out_whole(data: Seq<u8>, from: int, max: nat, l: int)
    requires
        0 <= from <= data.len(),
        0 <= l < framed(data, from, max).len(),
    ensures
        ({
            let (start, end) = framed(data, from, max)[l];
            let newline = framed_end(data, from, (l + 1) as nat) - 1;
            &&& l == 0 ==> start == from
            &&& start == framed_end(data, from, l as nat)
            &&& from <= start <= end <= newline < data.len()
            &&& data[newline] == 10
            &&& forall|j: int| start <= j < newline ==> #[trigger] data[j] != 10
            &&& forall|j: int| end <= j < newline ==> #[trigger] data[j] == 13
            &&& start < end ==> data[end - 1] != 13
        }),
    decreases max,
{
    let e = newline_at(data, from);
    newline_is_the_first(data, from);
    trimming_takes_line_endings(data, from, e);
    if l == 0 {
        assert(framed_end(data, from, 1) == e + 1) by {
            reveal_with_fuel(framed_end, 2);
        }
        let end = trimmed_end(data, from, e);
        assert forall|j: int| end <= j < e implies #[trigger] data[j] == 13 by {
            assert(data[j] == 10 || data[j] == 13);
        }
    } else {
        a_line_is_handed_out_whole(data, e + 1, (max - 1) as nat, l - 1);
        assert(framed(data, from, max)[l] == framed(data, e + 1, (max - 1) as nat)[l - 1]);
    }
}

/// **A poll hands out every complete line it may**: as many as were asked for,
/// or else no newline is left behind the last of them.
pub proof fn a_poll_leaves_no_complete_line(data: Seq<u8>, from: int, max: nat)
    requires
        0 <= from <= data.len(),
    ensures
        framed(data, from, max).len() <= max,
        framed_end(data, from, max) == framed_end(data, from, framed(data, from, max).len()),
        from <= framed_end(data, from, max) <= data.len(),
        framed(data, from, max).len() < max ==> forall|j: int|
            framed_end(data, from, max) <= j < data.len() ==> #[trigger] data[j] != 10,
    decreases max,
{
    let e = newline_at(data, from);
    newline_is_the_first(data, from);
    if max > 0 && e < data.len() {
        a_poll_leaves_no_complete_line(data, e + 1, (max - 1) as nat);
        assert((framed(data, from, max).len() - 1) as nat == framed(
            data,
            e + 1,
            (max - 1) as nat,
        ).len());
    }
}

/// **A line is blank where it holds nothing but carriage returns.**
pub proof fn a_blank_line_holds_nothing(data: Seq<u8>, max: nat, l: int)
    requires
        0 <= l < framed(data, 0, max).len(),
    ensures
        blank(framed(data, 0, max), l) <==> forall|j: int|
            framed_end(data, 0, l as nat) <= j < framed_end(data, 0, (l + 1) as nat) - 1
                ==> #[trigger] data[j] == 13,
{
    a_line_is_handed_out_whole(data, 0, max, l);
    let (start, end) = framed(data, 0, max)[l];
    if start < end {
        assert(data[end - 1] != 13);
    }
}

/// **The offset is the line number**: events get consecutive offsets after those
/// already delivered, each in its own partition, and are otherwise untouched.
pub proof fn the_offset_is_the_line_number(
    partition: PartitionId,
    next: u64,
    events: Seq<EdgeEvent>,
    i: int,
)
    requires
        next + events.len() <= u64::MAX,
    ensures
        numbered(partition, next, events).len() == events.len(),
        0 <= i < events.len() ==> numbered(partition, next, events)[i].offset == next + i + 1,
        0 <= i < events.len() ==> numbered(partition, next, events)[i].partition == partition,
        0 <= i < events.len() ==> numbered(partition, next, events)[i].event == events[i],
{
}

/// **A partition's log is known by its name**: `partition-`, the number,
/// `.ndjson`, and by nothing else.
pub proof fn a_log_is_known_by_its_name(d: Seq<char>, name: Seq<char>)
    ensures
        named_partition("partition-"@ + d + ".ndjson"@) == parsed(d, u32::MAX as nat),
        named_partition(name) is Some ==> exists|n: Seq<char>|
            name == #[trigger] ("partition-"@ + n + ".ndjson"@),
{
    let p = "partition-"@;
    let s = ".ndjson"@;
    let full = p + d + s;
    assert(full.take(p.len() as int) =~= p);
    let rest = full.skip(p.len() as int);
    assert(rest =~= d + s);
    assert(rest.skip(rest.len() - s.len()) =~= s);
    assert(rest.take(rest.len() - s.len()) =~= d);
    if named_partition(name) is Some {
        let tail = name.skip(p.len() as int);
        let n = tail.take(tail.len() - s.len());
        assert(name =~= name.take(p.len() as int) + tail);
        assert(tail =~= n + tail.skip(tail.len() - s.len()));
        assert(name =~= p + n + s);
    }
}

/// **A share is the least that lets the partitions drain the poll**: `parts` such
/// shares reach what is left, and one record less each would not.
pub proof fn a_share_is_the_least_that_drains(left: int, parts: int)
    requires
        left >= 0,
        parts > 0,
    ensures
        share_of(left, parts) * parts >= left,
        left > 0 ==> (share_of(left, parts) - 1) * parts < left,
        left == 0 ==> share_of(left, parts) == 0,
{
    let share = share_of(left, parts);
    vstd::arithmetic::div_mod::lemma_fundamental_div_mod(left + parts - 1, parts);
    vstd::arithmetic::div_mod::lemma_mod_bound(left + parts - 1, parts);
    let r = (left + parts - 1) % parts;
    assert(share * parts >= left && (share - 1) * parts < left + (if left == 0 {
        1int
    } else {
        0int
    }) && (left == 0 ==> share == 0)) by (nonlinear_arith)
        requires
            left + parts - 1 == parts * share + r,
            0 <= r < parts,
            left >= 0,
            parts > 0,
    ;
}

proof fn the_advice_is_a_sentence()
    ensures
        ". The committed position is past the end of this log, which usually means the worker is pointed at a different stream than the one its snapshots were built from."@.len()
            > 0,
        ". The committed position is past the end of this log, which usually means the worker is pointed at a different stream than the one its snapshots were built from."@[0]
            == '.',
{
    reveal_strlit(
        ". The committed position is past the end of this log, which usually means the worker is pointed at a different stream than the one its snapshots were built from.",
    );
}

/// **A log error names what it is about**: a blank line its offset, and a position
/// past the end its partition, its offset and where the log ends.
#[verifier::rlimit(50)]
pub proof fn a_log_error_names_its_place(
    a: u64,
    b: u64,
    p: PartitionId,
    q: PartitionId,
    m: u64,
    n: u64,
)
    ensures
        log_error_text(LogError::Blank { offset: a }) == log_error_text(
            LogError::Blank { offset: b },
        ) <==> a == b,
        log_error_text(LogError::PastTheEnd { partition: p, offset: a, end: m })
            == log_error_text(LogError::PastTheEnd { partition: q, offset: b, end: n }) <==> p == q
            && a == b && m == n,
{
    let x = log_error_text(LogError::Blank { offset: a });
    let y = log_error_text(LogError::Blank { offset: b });
    let k = "blank line at offset "@.len() as int;
    if x == y {
        assert(decimal(a as nat) =~= x.skip(k));
        assert(decimal(b as nat) =~= y.skip(k));
        crate::text::decimal_is_injective(a as nat, b as nat);
    }
    reveal_strlit(" at offset ");
    reveal_strlit(": the log ends at ");
    the_advice_is_a_sentence();
    crate::text::numbers_are_told_by_their_places(
        "cannot resume partition "@,
        (p as nat, a as nat, m as nat),
        (q as nat, b as nat, n as nat),
        " at offset "@,
        ": the log ends at "@,
        ". The committed position is past the end of this log, which usually means the worker is pointed at a different stream than the one its snapshots were built from."@,
    );
}

/// **A poll hands out whole lines up to the first blank one**: each line it returns
/// ends at a newline, less the carriage returns before it, and holds something;
/// an error names the line after them, which holds nothing.
#[verifier::rlimit(50)]
pub proof fn a_poll_hands_out_whole_lines(
    c: LogCursor,
    data: &[u8],
    max: usize,
    f: Framed,
    l: int,
)
    requires
        call_ensures(LogCursor::lines, (&c, data, max), f),
        0 <= l < f.lines@.len(),
    ensures
        ({
            let (start, end) = f.lines@[l];
            let newline = framed_end(data@, 0, (l + 1) as nat) - 1;
            &&& l == 0 ==> start == 0
            &&& start < end <= newline < data@.len()
            &&& data@[newline] == 10
            &&& forall|j: int| start <= j < newline ==> #[trigger] data@[j] != 10
            &&& forall|j: int| end <= j < newline ==> #[trigger] data@[j] == 13
            &&& data@[end - 1] != 13
            &&& l + 1 < f.lines@.len() ==> f.lines@[l + 1].0 == newline + 1
            &&& f.lines@.len() <= max
            &&& f.bad matches Some(e) ==> e == (LogError::Blank {
                offset: (c.next + f.lines@.len() + 1) as u64,
            })
        }),
{
    let all = framed(data@, 0, max as nat);
    let k = f.lines@.len() as int;
    assert(as_ranges(f.lines@)[l] == (f.lines@[l].0 as int, f.lines@[l].1 as int));
    assert(all.take(k)[l] == all[l]);
    a_line_is_handed_out_whole(data@, 0, max as nat, l);
    a_poll_leaves_no_complete_line(data@, 0, max as nat);
    if l + 1 < k {
        assert(as_ranges(f.lines@)[l + 1] == (f.lines@[l + 1].0 as int, f.lines@[l + 1].1 as int));
        assert(all.take(k)[l + 1] == all[l + 1]);
        a_line_is_handed_out_whole(data@, 0, max as nat, l + 1);
    }
}

/// **A consumer stops only at the end of a log that does not grow**, and never
/// drops a batch that brought something.
pub proof fn a_live_log_is_never_done(records: usize, live: bool, a: AfterPoll)
    requires
        call_ensures(after_poll, (records, live), a),
    ensures
        records > 0 ==> a == AfterPoll::Apply,
        records == 0 && live ==> a == AfterPoll::Wait,
        records == 0 && !live ==> a == AfterPoll::Stop,
{
}

/// **A partition's share is what drains the poll**, and no more.
pub proof fn a_share_drains_the_poll(left: usize, parts: usize, share: usize)
    requires
        parts > 0,
        call_ensures(poll_share, (left, parts), share),
    ensures
        share <= left,
        share * parts >= left,
        left > 0 ==> (share - 1) * parts < left,
{
    a_share_is_the_least_that_drains(left as int, parts as int);
}

/// **A log file's name gives its partition.**
pub proof fn a_named_log_gives_its_partition(name: &str, p: PartitionId, r: Option<PartitionId>)
    requires
        name@ == "partition-"@ + decimal(p as nat) + ".ndjson"@,
        call_ensures(partition_of, (name,), r),
    ensures
        r == Some(p),
{
    a_log_is_known_by_its_name(decimal(p as nat), name@);
    crate::text::decimal_reads_back(p as nat, u32::MAX as nat);
}

/// **Delivered events are numbered on from where the cursor stood**, in order and on
/// its partition, and the cursor then stands past them; rewinding sets it to the
/// start.
pub proof fn delivered_events_are_numbered_on(
    cursor: &mut LogCursor,
    rewound: &mut LogCursor,
    events: Vec<EdgeEvent>,
    records: Vec<Record>,
    i: int,
)
    requires
        old(cursor).next + events@.len() <= u64::MAX,
        call_ensures(LogCursor::deliver, (cursor, events), records),
        call_ensures(LogCursor::rewind, (rewound,), ()),
    ensures
        records@.len() == events@.len(),
        0 <= i < records@.len() ==> records@[i].offset == old(cursor).next + i + 1
            && records@[i].partition == old(cursor).partition && records@[i].event == events@[i],
        final(cursor).next == old(cursor).next + events@.len(),
        final(cursor).partition == old(cursor).partition,
        final(rewound).next == 0 && final(rewound).partition == old(rewound).partition,
{
}

} // verus!
