//! The order in which findings are reported: by file, then by line.

use crate::errors::finding::{Finding, FindingView};
use camino::Utf8Path;
use std::cmp::Ordering;
use vstd::prelude::*;
use vstd::seq_lib::{to_multiset_insert, to_multiset_remove};

verus! {

/// How the paths `a` and `b` compare as `Utf8Path` orders paths, which is
/// component by component, a path taken apart as the platform does for
/// which the library is built: -1 where `a` comes first, 0 where neither
/// does, 1 where `b` comes first.
pub uninterp spec fn path_order(a: Seq<char>, b: Seq<char>) -> int;

/// Compares two paths with `Utf8Path::cmp`, and gives -1 for less, 0 for
/// equal, 1 for greater. Comparing them the other way round gives the
/// opposite.
#[verifier::external_body]
fn compare_paths(a: &str, b: &str) -> (sign: i8)
    ensures
        sign == path_order(a@, b@),
        -1 <= sign <= 1,
        path_order(b@, a@) == -sign,
{
    match Utf8Path::new(a).cmp(Utf8Path::new(b)) {
        Ordering::Less => -1,
        Ordering::Equal => 0,
        Ordering::Greater => 1,
    }
}

/// How two findings compare: by their files, and in one file by their
/// lines. Negative where `a` comes first, positive where `b` does.
pub open spec fn finding_order(a: FindingView, b: FindingView) -> int {
    if path_order(a.file, b.file) != 0 {
        path_order(a.file, b.file)
    } else if a.line < b.line {
        -1
    } else if a.line == b.line {
        0
    } else {
        1
    }
}

/// No finding stands directly before one that comes first.
pub open spec fn is_ordered(findings: Seq<FindingView>) -> bool {
    forall|i: int|
        0 <= i < findings.len() - 1 ==> finding_order(#[trigger] findings[i], findings[i + 1]) <= 0
}

impl Finding {
    /// Compares two findings by file, then by line: -1 where `self` comes
    /// first, 0 where neither does, 1 where `other` comes first.
    pub fn compare(&self, other: &Finding) -> (sign: i8)
        ensures
            sign == finding_order(self.deep_view(), other.deep_view()),
            finding_order(other.deep_view(), self.deep_view()) == -sign,
    {
        let by_file = compare_paths(self.file.as_str(), other.file.as_str());
        if by_file != 0 {
            by_file
        } else if self.line < other.line {
            -1
        } else if self.line == other.line {
            0
        } else {
            1
        }
    }
}

/// Puts findings in order: by file, then by line.
pub fn sort_issues(issues: &mut Vec<Finding>)
    ensures
        is_ordered(final(issues).deep_view()),
        final(issues).deep_view().to_multiset() == old(issues).deep_view().to_multiset(),
{
    let ghost given = issues.deep_view();
    let mut i: usize = 0;
    while i < issues.len()
        invariant
            i <= issues.len(),
            issues.deep_view().to_multiset() == given.to_multiset(),
            is_ordered(issues.deep_view().take(i as int)),
        decreases issues.len() - i,
    {
        let ghost before = issues.deep_view();
        let finding = issues.remove(i);
        let ghost without = issues.deep_view();
        assert(without =~= before.remove(i as int));
        let mut j: usize = i;
        while j > 0 && issues[j - 1].compare(&finding) > 0
            invariant
                j <= i,
                i <= issues.len(),
                without == issues.deep_view(),
                forall|k: int|
                    j <= k < i ==> finding_order(finding.deep_view(), #[trigger] without[k]) <= 0,
            decreases j,
        {
            j -= 1;
        }
        issues.insert(j, finding);
        proof {
            let after = issues.deep_view();
            assert(after =~= without.insert(j as int, finding.deep_view()));
            to_multiset_remove(before, i as int);
            to_multiset_insert(without, j as int, finding.deep_view());
            assert(before[i as int] == finding.deep_view());
            before.to_multiset_ensures();
            assert(before.contains(before[i as int]));
            assert(given.to_multiset().remove(finding.deep_view()).insert(finding.deep_view())
                =~= given.to_multiset());
            let sorted = after.take(i + 1);
            let earlier = before.take(i as int);
            assert forall|k: int| 0 <= k < sorted.len() - 1 implies finding_order(
                #[trigger] sorted[k],
                sorted[k + 1],
            ) <= 0 by {
                if k + 1 < j {
                    assert(sorted[k] == earlier[k] && sorted[k + 1] == earlier[k + 1]);
                } else if k + 1 == j {
                    assert(sorted[k] == without[j - 1]);
                } else if k == j {
                    assert(sorted[k + 1] == without[j as int]);
                } else {
                    assert(sorted[k] == earlier[k - 1] && sorted[k + 1] == earlier[k]);
                }
            }
        }
        i += 1;
    }
    assert(issues.deep_view().take(i as int) =~= issues.deep_view());
}

} // verus!
