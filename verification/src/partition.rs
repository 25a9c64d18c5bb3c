//! The work partitioner.
//!
//! A plain seekable dump file of length `L` is divided into at most 500 MiB
//! byte ranges: `parts = ceil(L / 500 MiB)` ranges of `slice = ceil(L / parts)`
//! bytes each, the last one clamped so that together they partition `[0, L)`.
//! A compressed file gets one unseekable streaming range instead.
//!
//! A page is owned by the range that contains the first byte of its opening
//! `<page>` tag, so every page of a file belongs to exactly one range.

use vstd::prelude::*;

verus! {

/// The largest number of bytes a single work range of a plain file may span.
pub const PART_SIZE_LIMIT: u64 = 500 * 1024 * 1024;

/// A half-open byte interval `[start, end)` of one dump file, handed to one
/// worker.  `seekable` is true for ranges of plain files, false for the single
/// streaming range of a compressed file.
pub struct WorkRange {
    pub start: u64,
    pub end: u64,
    pub seekable: bool,
}

/// The mathematical ceiling of `x / y`.
pub open spec fn spec_ceil_div(x: int, y: int) -> int {
    (x + y - 1) / y
}

/// Rounds the quotient `x / y` upward.
pub fn ceiling_div(x: u64, y: u64) -> (r: u64)
    requires
        y >= 1,
        x + y - 1 <= u64::MAX,
    ensures
        r == spec_ceil_div(x as int, y as int),
        y * r >= x,
        x > 0 ==> y * (r - 1) < x,
        r <= x,
{
    let r = if x == 0 { 0 } else { (x - 1) / y + 1 };
    proof {
        let xi = x as int;
        let yi = y as int;
        assert(r == spec_ceil_div(xi, yi) && yi * (r as int) >= xi && (xi > 0 ==> yi * (r - 1) < xi)
            && r <= xi) by (nonlinear_arith)
            requires
                yi >= 1,
                xi >= 0,
                r == if xi == 0 { 0int } else { (xi - 1) / yi + 1 },
        ;
    }
    r
}

/// The ranges `rs` partition `[0, len)`: they start at zero, abut at their
/// boundaries, end at `len`, and each is nonempty when `len` is nonzero.
pub open spec fn ranges_partition(rs: Seq<WorkRange>, len: int) -> bool {
    &&& rs.len() >= 1
    &&& rs[0].start == 0
    &&& rs[rs.len() - 1].end == len
    &&& forall|i: int| 0 <= i < rs.len() ==> #[trigger] rs[i].start <= rs[i].end
    &&& forall|i: int| 0 <= i < rs.len() - 1 ==> #[trigger] rs[i].end == rs[i + 1].start
    &&& len > 0 ==> forall|i: int| 0 <= i < rs.len() ==> #[trigger] rs[i].start < rs[i].end
}

/// Divides a plain file of `len` bytes into the ranges described by the module
/// documentation.  Every range spans at most `PART_SIZE_LIMIT` bytes and the
/// ranges partition `[0, len)`.
pub fn ranges_for_plain_file(len: u64) -> (rs: Vec<WorkRange>)
    requires
        len < 0x8000_0000_0000_0000,
    ensures
        ranges_partition(rs@, len as int),
        forall|i: int| 0 <= i < rs@.len() ==> #[trigger] rs@[i].end - rs@[i].start <= PART_SIZE_LIMIT,
        forall|i: int| 0 <= i < rs@.len() ==> #[trigger] rs@[i].seekable,
        len == 0 ==> rs@.len() == 1,
        len > 0 ==> ({
            let parts = spec_ceil_div(len as int, PART_SIZE_LIMIT as int);
            let slice = spec_ceil_div(len as int, parts);
            &&& rs@.len() == parts
            &&& forall|i: int| 0 <= i < parts ==> (#[trigger] rs@[i]).start == i * slice
            &&& forall|i: int| 0 <= i < parts ==> (#[trigger] rs@[i]).end == (if i == parts - 1 {
                len as int
            } else {
                (i + 1) * slice
            })
        }),
{
    if len == 0 {
        let mut rs: Vec<WorkRange> = Vec::new();
        rs.push(WorkRange { start: 0, end: 0, seekable: true });
        return rs;
    }
    let parts = ceiling_div(len, PART_SIZE_LIMIT);
    let slice = ceiling_div(len, parts);
    proof {
        let l = len as int;
        let c = PART_SIZE_LIMIT as int;
        let p = parts as int;
        let s = slice as int;
        // slice stays within the size limit, and all but the last range end
        // strictly before the end of the file
        assert(s <= c && (p - 1) * s < l && p * s >= l && s >= 1 && p * s <= l + p - 1)
            by (nonlinear_arith)
            requires
                l >= 1,
                c >= 1,
                p == spec_ceil_div(l, c),
                s == spec_ceil_div(l, p),
                c * p >= l,
                l > 0 ==> c * (p - 1) < l,
                p >= 1,
                p <= l,
                p * s >= l,
                l > 0 ==> p * (s - 1) < l,
        ;
    }
    let mut rs: Vec<WorkRange> = Vec::new();
    let mut i: u64 = 0;
    while i < parts
        invariant
            0 <= i <= parts,
            1 <= parts,
            1 <= slice <= PART_SIZE_LIMIT,
            (parts - 1) * slice < len,
            parts * slice >= len,
            parts * slice <= len + parts - 1,
            parts <= len,
            len < 0x8000_0000_0000_0000,
            rs@.len() == i as int,
            forall|j: int| 0 <= j < i ==> #[trigger] rs@[j].start == j * slice,
            forall|j: int| 0 <= j < i ==>
                #[trigger] rs@[j].end == if j == parts - 1 { len as int } else { (j + 1) * slice },
            forall|j: int| 0 <= j < i ==> #[trigger] rs@[j].seekable,
        decreases parts - i,
    {
        proof {
            let ii = i as int;
            let p = parts as int;
            let s = slice as int;
            let l = len as int;
            assert(ii * s <= (p - 1) * s && (ii + 1) * s <= p * s && ii * s < (ii + 1) * s)
                by (nonlinear_arith)
                requires
                    0 <= ii <= p - 1,
                    s >= 1,
            ;
            assert((ii + 1) * s <= u64::MAX);
        }
        let start = i * slice;
        let end = if i == parts - 1 { len } else { (i + 1) * slice };
        rs.push(WorkRange { start, end, seekable: true });
        i = i + 1;
    }
    proof {
        let p = parts as int;
        let s = slice as int;
        let l = len as int;
        assert forall|j: int| 0 <= j < p implies #[trigger] rs@[j].start <= rs@[j].end
            && rs@[j].start < rs@[j].end
            && rs@[j].end - rs@[j].start <= PART_SIZE_LIMIT by {
            assert((j + 1) * s == j * s + s && j * s <= (p - 1) * s) by (nonlinear_arith)
                requires 0 <= j <= p - 1, s >= 1,
            ;
        }
        assert forall|j: int| 0 <= j < p - 1 implies #[trigger] rs@[j].end == rs@[j + 1].start by {
        }
    }
    rs
}

/// The single unseekable range `[0, infinity)` that a compressed file is
/// searched through; `u64::MAX` stands for the unbounded end.
pub fn streaming_range() -> (r: WorkRange)
    ensures
        r.start == 0,
        r.end == u64::MAX,
        !r.seekable,
{
    WorkRange { start: 0, end: u64::MAX, seekable: false }
}


/// Where a just-read `<page>` start tag opens, as an absolute file offset:
/// the worker's range start plus the tokenizer's byte position after the tag,
/// minus the six bytes of `<page>` itself — clamped at the bounds of the
/// unsigned range.  This offset decides page ownership against a range `end`.
pub fn page_tag_start_position(start: u64, position_after_tag: u64) -> (r: u64)
    ensures
        r as int == ({
            let total = if start + position_after_tag <= u64::MAX {
                start as int + position_after_tag as int
            } else {
                u64::MAX as int
            };
            if total >= 6 {
                total - 6
            } else {
                0
            }
        }),
{
    let total = if position_after_tag > u64::MAX - start {
        u64::MAX
    } else {
        start + position_after_tag
    };
    if total >= 6 {
        total - 6
    } else {
        0
    }
}

/// The page whose opening tag starts at `pos` is owned by the range
/// `[start, end)` exactly when `pos` lies inside it.
pub open spec fn spec_page_owned(r: WorkRange, pos: int) -> bool {
    r.start <= pos < r.end
}

/// Every byte position of the file lies in exactly one of the ranges, so each
/// page of the file is processed by exactly one worker.
pub proof fn lemma_page_owned_by_exactly_one_range(rs: Seq<WorkRange>, len: int, pos: int)
    requires
        ranges_partition(rs, len),
        0 <= pos < len,
    ensures
        exists|i: int| 0 <= i < rs.len() && #[trigger] spec_page_owned(rs[i], pos),
        forall|i: int, j: int|
            0 <= i < rs.len() && 0 <= j < rs.len()
                && #[trigger] spec_page_owned(rs[i], pos) && #[trigger] spec_page_owned(rs[j], pos)
                ==> i == j,
{
    lemma_range_starts_monotonic(rs, len);
    lemma_page_owned_exists(rs, len, pos);
    assert forall|i: int, j: int|
        0 <= i < rs.len() && 0 <= j < rs.len()
            && #[trigger] spec_page_owned(rs[i], pos) && #[trigger] spec_page_owned(rs[j], pos)
            implies i == j by {
        if i < j {
            assert(rs[i].end <= rs[j].start);
        }
        if j < i {
            assert(rs[j].end <= rs[i].start);
        }
    }
}

/// In a partition, the end of one range never exceeds the start of any later
/// range.
pub proof fn lemma_range_starts_monotonic(rs: Seq<WorkRange>, len: int)
    requires
        ranges_partition(rs, len),
    ensures
        forall|i: int, j: int| 0 <= i < j < rs.len() ==> #[trigger] rs[i].end <= #[trigger] rs[j].start,
{
    assert forall|i: int, j: int| 0 <= i < j < rs.len() implies
        #[trigger] rs[i].end <= #[trigger] rs[j].start by {
        lemma_end_le_start(rs, len, i, j);
    }
}

proof fn lemma_end_le_start(rs: Seq<WorkRange>, len: int, i: int, j: int)
    requires
        ranges_partition(rs, len),
        0 <= i < j < rs.len(),
    ensures
        rs[i].end <= rs[j].start,
    decreases j - i,
{
    if i + 1 == j {
        assert(rs[i].end == rs[i + 1].start);
    } else {
        lemma_end_le_start(rs, len, i, j - 1);
        assert(rs[j - 1].end == rs[j].start);
    }
}

/// Some range of the partition contains the position.
proof fn lemma_page_owned_exists(rs: Seq<WorkRange>, len: int, pos: int)
    requires
        ranges_partition(rs, len),
        0 <= pos < len,
    ensures
        exists|i: int| 0 <= i < rs.len() && #[trigger] spec_page_owned(rs[i], pos),
    decreases rs.len(),
{
    let last = rs.len() - 1;
    if rs[last].start <= pos {
        assert(spec_page_owned(rs[last], pos));
    } else {
        let front = rs.drop_last();
        assert(rs.len() >= 2) by {
            if rs.len() == 1 {
                assert(rs[0].start == 0 <= pos);
            }
        }
        assert(ranges_partition(front, rs[last].start as int)) by {
            assert(front[front.len() - 1] == rs[last - 1]);
            assert(rs[last - 1].end == rs[last].start);
            assert(forall|i: int| 0 <= i < front.len() ==> front[i] == rs[i]);
        }
        lemma_page_owned_exists(front, rs[last].start as int, pos);
        let w = choose|i: int| 0 <= i < front.len() && #[trigger] spec_page_owned(front[i], pos);
        assert(spec_page_owned(rs[w], pos));
    }
}

/// A page lying at or past one range's `end` belongs to a later range: the
/// unique owner of its position comes strictly after that range.
pub proof fn lemma_page_past_end_owned_later(rs: Seq<WorkRange>, len: int, pos: int, i: int)
    requires
        ranges_partition(rs, len),
        0 <= i < rs.len(),
        pos >= rs[i].end,
        0 <= pos < len,
    ensures
        exists|j: int| 0 <= j < rs.len() && #[trigger] spec_page_owned(rs[j], pos) && j > i,
{
    lemma_page_owned_by_exactly_one_range(rs, len, pos);
    lemma_range_starts_monotonic(rs, len);
    let j = choose|j: int| 0 <= j < rs.len() && #[trigger] spec_page_owned(rs[j], pos);
    if j < i {
        assert(rs[j].end <= rs[i].start);
        assert(rs[i].start <= rs[i].end);
    }
    assert(j > i);
}

/// Which pages a range's worker handles does not depend on how the file was
/// split: under any two partitions of the same file, each page position is
/// owned by exactly one range of either partition, so the pages processed —
/// and with them the revision blocks produced — are the same multiset
/// whatever the partitioning and the thread count; only their order differs.
pub proof fn lemma_partitions_process_same_pages(
    rs1: Seq<WorkRange>,
    rs2: Seq<WorkRange>,
    len: int,
    pos: int,
)
    requires
        ranges_partition(rs1, len),
        ranges_partition(rs2, len),
        0 <= pos < len,
    ensures
        exists|i: int| 0 <= i < rs1.len() && #[trigger] spec_page_owned(rs1[i], pos),
        exists|i: int| 0 <= i < rs2.len() && #[trigger] spec_page_owned(rs2[i], pos),
        forall|i: int, j: int|
            0 <= i < rs1.len() && 0 <= j < rs1.len()
                && #[trigger] spec_page_owned(rs1[i], pos) && #[trigger] spec_page_owned(rs1[j], pos)
                ==> i == j,
        forall|i: int, j: int|
            0 <= i < rs2.len() && 0 <= j < rs2.len()
                && #[trigger] spec_page_owned(rs2[i], pos) && #[trigger] spec_page_owned(rs2[j], pos)
                ==> i == j,
{
    lemma_page_owned_by_exactly_one_range(rs1, len, pos);
    lemma_page_owned_by_exactly_one_range(rs2, len, pos);
}

} // verus!
