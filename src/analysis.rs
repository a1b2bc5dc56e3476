use vstd::prelude::*;

use crate::table::{entry_count, entry_end, header_len, offset_at, read_u16};

verus! {

/// One line of a structural report on a table buffer.
#[derive(Clone, Copy, Debug, PartialEq, Eq, Structural)]
pub enum Finding {
    /// Fewer than two bytes: nothing more can be read.
    TooSmall,
    /// The entry count the buffer announces.
    EntryCount { count: usize },
    /// The offset table runs past the end of the buffer: nothing more is read.
    TruncatedOffsetTable,
    /// One row of the offset table.
    Offset { index: usize, offset: usize },
    /// `length` bytes lie between the offset table and the lowest offset; those of them
    /// inside the buffer are `start..end`.
    UnknownData { length: usize, start: usize, end: usize },
    /// The lowest offset does not lie past the offset table.
    NoUnexpectedData,
    /// Entry `index` ends at `end` (exclusive), so its last byte lies outside the buffer.
    LastByteOutOfBounds { index: usize, end: usize },
    /// Entry `index`, at `offset`, does not end with a null byte.
    NotNullTerminated { index: usize, offset: usize },
    /// No entry drew a warning about its ending.
    AllTerminated,
}

/// The lowest of the first `n` offsets, or the end of the offset table when `n` is zero.
pub open spec fn lowest_offset(b: Seq<u8>, n: int) -> nat
    decreases n,
{
    if n <= 0 {
        header_len(b)
    } else if n == 1 {
        offset_at(b, 0)
    } else {
        let m = lowest_offset(b, n - 1);
        if offset_at(b, n - 1) < m {
            offset_at(b, n - 1)
        } else {
            m
        }
    }
}

/// What lies between the offset table and the lowest offset.
pub open spec fn gap_findings(b: Seq<u8>) -> Seq<Finding> {
    let f = lowest_offset(b, entry_count(b) as int);
    let h = header_len(b);
    if f > h {
        seq![
            Finding::UnknownData {
                length: (f - h) as usize,
                start: h as usize,
                end: (if f < b.len() {
                    f
                } else {
                    b.len()
                }) as usize,
            },
        ]
    } else {
        seq![Finding::NoUnexpectedData]
    }
}

/// The warning about how entry `i` ends, if any.
pub open spec fn ending_finding(b: Seq<u8>, i: int) -> Option<Finding> {
    let end = entry_end(b, i);
    if end == 0 || end > b.len() {
        Some(Finding::LastByteOutOfBounds { index: i as usize, end: end as usize })
    } else if b[end - 1] != 0 {
        Some(Finding::NotNullTerminated { index: i as usize, offset: offset_at(b, i) as usize })
    } else {
        None
    }
}

/// The warnings about how the first `n` entries end, in index order.
pub open spec fn ending_findings(b: Seq<u8>, n: int) -> Seq<Finding>
    decreases n,
{
    if n <= 0 {
        seq![]
    } else {
        match ending_finding(b, n - 1) {
            Some(f) => ending_findings(b, n - 1).push(f),
            None => ending_findings(b, n - 1),
        }
    }
}

/// The full report on a buffer. It stops after the size warning or after the truncation
/// warning; otherwise it lists the count, the offset table, the gap check, the ending
/// warnings, and, when there were none, that all entries end well.
pub open spec fn analysis(b: Seq<u8>) -> Seq<Finding> {
    if b.len() < 2 {
        seq![Finding::TooSmall]
    } else {
        let n = entry_count(b);
        let head = seq![Finding::EntryCount { count: n as usize }];
        if b.len() < header_len(b) {
            head.push(Finding::TruncatedOffsetTable)
        } else {
            let endings = ending_findings(b, n as int);
            head + Seq::new(
                n,
                |i: int| Finding::Offset { index: i as usize, offset: offset_at(b, i) as usize },
            ) + gap_findings(b) + endings + if endings.len() == 0 {
                seq![Finding::AllTerminated]
            } else {
                seq![]
            }
        }
    }
}

/// Inspects a table buffer without changing it and reports, in order, what it finds; a
/// malformed buffer gives warnings, never an error.
pub fn analyse_table(buffer: &[u8]) -> (r: Vec<Finding>)
    ensures
        r@ == analysis(buffer@),
{
    let mut report: Vec<Finding> = Vec::new();
    if buffer.len() < 2 {
        report.push(Finding::TooSmall);
        assert(report@ =~= analysis(buffer@));
        return report;
    }
    let n = read_u16(buffer, 0);
    report.push(Finding::EntryCount { count: n });
    let header_end = 2 + n * 2;
    if buffer.len() < header_end {
        report.push(Finding::TruncatedOffsetTable);
        assert(report@ =~= analysis(buffer@));
        return report;
    }
    let ghost b = buffer@;
    let mut offsets: Vec<usize> = Vec::new();
    let mut lowest: usize = header_end;
    let mut i: usize = 0;
    while i < n
        invariant
            b == buffer@,
            n == entry_count(b),
            header_end == header_len(b),
            header_end <= b.len(),
            i <= n,
            offsets@.len() == i,
            forall|j: int| 0 <= j < i ==> #[trigger] offsets@[j] == offset_at(b, j),
            lowest == lowest_offset(b, i as int),
            report@ =~= seq![Finding::EntryCount { count: n }] + Seq::new(
                i as nat,
                |j: int| Finding::Offset { index: j as usize, offset: offset_at(b, j) as usize },
            ),
        decreases n - i,
    {
        let off = read_u16(buffer, 2 + i * 2);
        offsets.push(off);
        report.push(Finding::Offset { index: i, offset: off });
        if i == 0 || off < lowest {
            lowest = off;
        }
        i = i + 1;
    }
    let ghost listed = report@;
    if lowest > header_end {
        let end = if lowest < buffer.len() {
            lowest
        } else {
            buffer.len()
        };
        report.push(Finding::UnknownData { length: lowest - header_end, start: header_end, end });
    } else {
        report.push(Finding::NoUnexpectedData);
    }
    assert(report@ =~= listed + gap_findings(b));
    let ghost with_gap = report@;
    let mut warned = false;
    let mut i: usize = 0;
    while i < n
        invariant
            b == buffer@,
            n == entry_count(b),
            header_end <= b.len(),
            i <= n,
            offsets@.len() == n,
            forall|j: int| 0 <= j < n ==> #[trigger] offsets@[j] == offset_at(b, j),
            report@ =~= with_gap + ending_findings(b, i as int),
            warned == (ending_findings(b, i as int).len() > 0),
        decreases n - i,
    {
        let end = if i + 1 < n {
            offsets[i + 1]
        } else {
            buffer.len()
        };
        if end == 0 || end > buffer.len() {
            report.push(Finding::LastByteOutOfBounds { index: i, end });
            warned = true;
        } else if buffer[end - 1] != 0 {
            report.push(Finding::NotNullTerminated { index: i, offset: offsets[i] });
            warned = true;
        }
        i = i + 1;
    }
    if !warned {
        report.push(Finding::AllTerminated);
    }
    assert(report@ =~= analysis(buffer@));
    report
}

} // verus!
