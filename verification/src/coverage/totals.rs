//! The project-wide totals an export report sums over its targets' snapshots.

use vstd::prelude::*;

use crate::coverage::model::{CoverageSnapshot, Rate};

verus! {

/// The counts summed over a project's snapshots.
#[derive(Debug, Clone, Copy, PartialEq, Eq, Structural)]
pub struct SnapshotTotals {
    pub files: i64,
    pub lines: i64,
    pub lines_covered: i64,
    pub branches: i64,
    pub branches_covered: i64,
}

/// One of a snapshot's counts: 0 files, 1 lines, 2 covered lines, 3
/// branches, 4 covered branches.
pub open spec fn count_of(s: CoverageSnapshot, what: int) -> int {
    if what == 0 {
        s.file_count as int
    } else if what == 1 {
        s.lines_total as int
    } else if what == 2 {
        s.lines_covered as int
    } else if what == 3 {
        s.branches_total as int
    } else {
        s.branches_covered as int
    }
}

/// The sum of one count over `snaps`.
pub open spec fn sum_of(snaps: Seq<CoverageSnapshot>, what: int) -> int
    decreases snaps.len(),
{
    if snaps.len() == 0 {
        0
    } else {
        sum_of(snaps.drop_last(), what) + count_of(snaps.last(), what)
    }
}

/// Every running sum of every count over `snaps` fits an `i64`.
pub open spec fn sums_fit(snaps: Seq<CoverageSnapshot>) -> bool {
    forall|k: int, what: int|
        0 <= k <= snaps.len() && 0 <= what < 5 ==> i64::MIN <= #[trigger] sum_of(snaps.take(k), what) <= i64::MAX
}

/// The files, lines and branches, and the covered lines and branches,
/// summed over `snaps`; nothing when a running sum leaves the `i64` range.
pub fn snapshot_totals(snaps: &[CoverageSnapshot]) -> (r: Option<SnapshotTotals>)
    ensures
        r is Some <==> sums_fit(snaps@),
        r matches Some(t) ==> t.files == sum_of(snaps@, 0) && t.lines == sum_of(snaps@, 1) && t.lines_covered
            == sum_of(snaps@, 2) && t.branches == sum_of(snaps@, 3) && t.branches_covered == sum_of(snaps@, 4),
{
    let mut t = SnapshotTotals { files: 0, lines: 0, lines_covered: 0, branches: 0, branches_covered: 0 };
    let mut i: usize = 0;
    proof {
        assert(snaps@.take(0) =~= Seq::<CoverageSnapshot>::empty());
    }
    while i < snaps.len()
        invariant
            i <= snaps@.len(),
            t.files == sum_of(snaps@.take(i as int), 0),
            t.lines == sum_of(snaps@.take(i as int), 1),
            t.lines_covered == sum_of(snaps@.take(i as int), 2),
            t.branches == sum_of(snaps@.take(i as int), 3),
            t.branches_covered == sum_of(snaps@.take(i as int), 4),
            forall|k: int, what: int|
                0 <= k <= i && 0 <= what < 5 ==> i64::MIN <= #[trigger] sum_of(snaps@.take(k), what) <= i64::MAX,
        decreases snaps.len() - i,
    {
        let s = &snaps[i];
        let ghost next = snaps@.take(i + 1);
        proof {
            assert(next.drop_last() == snaps@.take(i as int));
            assert(next.last() == snaps@[i as int]);
        }
        let f = t.files.checked_add(s.file_count);
        let l = t.lines.checked_add(s.lines_total);
        let lc = t.lines_covered.checked_add(s.lines_covered);
        let b = t.branches.checked_add(s.branches_total);
        let bc = t.branches_covered.checked_add(s.branches_covered);
        match (f, l, lc, b, bc) {
            (Some(f), Some(l), Some(lc), Some(b), Some(bc)) => {
                t = SnapshotTotals { files: f, lines: l, lines_covered: lc, branches: b, branches_covered: bc };
                proof {
                    assert forall|k: int, what: int|
                        0 <= k <= i + 1 && 0 <= what < 5 implies i64::MIN <= #[trigger] sum_of(snaps@.take(k), what)
                        <= i64::MAX by {
                        if k == i + 1 {
                            assert(sum_of(next, what) == sum_of(snaps@.take(i as int), what) + count_of(
                                snaps@[i as int],
                                what,
                            ));
                        }
                    }
                }
            },
            _ => {
                proof {
                    let w: int = if f is None {
                        0
                    } else if l is None {
                        1
                    } else if lc is None {
                        2
                    } else if b is None {
                        3
                    } else {
                        4
                    };
                    assert(sum_of(next, w) == sum_of(snaps@.take(i as int), w) + count_of(snaps@[i as int], w));
                    assert(!(i64::MIN <= sum_of(snaps@.take(i + 1), w) <= i64::MAX));
                }
                return None;
            },
        }
        i += 1;
    }
    proof {
        assert(snaps@.take(i as int) == snaps@);
    }
    Some(t)
}

/// The figures of several targets taken together.
#[derive(Debug, Clone, Copy, PartialEq, Eq, Structural)]
pub struct CompositeSnapshot {
    pub line_rate: Rate,
    pub branch_rate: Rate,
    pub lines_covered: i64,
    pub lines_total: i64,
    pub branches_covered: i64,
    pub branches_total: i64,
    pub file_count: i64,
}

/// The composite of a project's targets, when it has two or more: their
/// counts summed, and rates taken from the sums rather than averaged.
pub fn compute_composite(snaps: &[CoverageSnapshot]) -> (r: Option<CompositeSnapshot>)
    requires
        sums_fit(snaps@),
    ensures
        r is Some <==> snaps@.len() >= 2,
        r matches Some(c) ==> {
            &&& c.file_count == sum_of(snaps@, 0)
            &&& c.lines_total == sum_of(snaps@, 1)
            &&& c.lines_covered == sum_of(snaps@, 2)
            &&& c.branches_total == sum_of(snaps@, 3)
            &&& c.branches_covered == sum_of(snaps@, 4)
            &&& c.line_rate == Rate::Ratio { covered: c.lines_covered, total: c.lines_total }
            &&& c.branch_rate == Rate::Ratio { covered: c.branches_covered, total: c.branches_total }
        },
{
    if snaps.len() < 2 {
        return None;
    }
    match snapshot_totals(snaps) {
        Some(t) => Some(
            CompositeSnapshot {
                line_rate: Rate::Ratio { covered: t.lines_covered, total: t.lines },
                branch_rate: Rate::Ratio { covered: t.branches_covered, total: t.branches },
                lines_covered: t.lines_covered,
                lines_total: t.lines,
                branches_covered: t.branches_covered,
                branches_total: t.branches,
                file_count: t.files,
            },
        ),
        None => None,
    }
}

} // verus!
