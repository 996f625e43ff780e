//! The health check's tally: environment problems count as issues of both
//! kinds, data problems as issues only, and the verdict follows from both.

use vstd::prelude::*;
use crate::prompt::{decimal, decimal_string};

verus! {

/// The problems a health check has found so far.
#[derive(Debug, Clone, Copy, PartialEq, Eq, Structural)]
pub struct DoctorTally {
    pub issues: u8,
    pub env_issues: u8,
}

/// The exit code of a health check: 0 when healthy, 1 when the environment
/// is at fault, 2 when only data is.
pub open spec fn spec_exit_code(t: DoctorTally) -> u8 {
    if t.issues == 0 {
        0
    } else if t.env_issues > 0 {
        1
    } else {
        2
    }
}

/// The closing line of a health check.
pub open spec fn spec_verdict(t: DoctorTally) -> Seq<char> {
    if t.issues == 0 {
        "🟢 All checks passed. Ecosystem is healthy."@
    } else if t.env_issues > 0 {
        "🔴 "@ + decimal(t.env_issues as nat) + " environment issue(s) found."@
    } else {
        "🔴 "@ + decimal(t.issues as nat) + " data issue(s) found."@
    }
}

impl DoctorTally {
    /// A check that has found nothing yet.
    pub fn new() -> (r: DoctorTally)
        ensures
            r.issues == 0,
            r.env_issues == 0,
    {
        DoctorTally { issues: 0, env_issues: 0 }
    }

    /// Records a problem with the environment (project, adapter, scan data).
    pub fn env_problem(&mut self)
        requires
            old(self).issues < 255,
            old(self).env_issues < 255,
        ensures
            final(self).issues == old(self).issues + 1,
            final(self).env_issues == old(self).env_issues + 1,
    {
        self.env_issues = self.env_issues + 1;
        self.issues = self.issues + 1;
    }

    /// Records a problem with the data alone (a malformed scan file).
    pub fn data_problem(&mut self)
        requires
            old(self).issues < 255,
        ensures
            final(self).issues == old(self).issues + 1,
            final(self).env_issues == old(self).env_issues,
    {
        self.issues = self.issues + 1;
    }

    /// Whether the adapter is test-run: when nothing, or nothing in the
    /// environment, has been found wrong so far.
    pub fn should_test_adapter(&self) -> (r: bool)
        ensures
            r == (self.issues == 0 || self.env_issues == 0),
    {
        self.issues == 0 || self.env_issues == 0
    }

    /// The exit code of the check (see `spec_exit_code`).
    pub fn exit_code(&self) -> (r: u8)
        ensures
            r == spec_exit_code(*self),
    {
        if self.issues == 0 {
            0
        } else if self.env_issues > 0 {
            1
        } else {
            2
        }
    }

    /// The closing line of the check (see `spec_verdict`).
    pub fn verdict(&self) -> (r: String)
        ensures
            r@ == spec_verdict(*self),
    {
        if self.issues == 0 {
            String::from_str("🟢 All checks passed. Ecosystem is healthy.")
        } else if self.env_issues > 0 {
            let mut out = String::from_str("🔴 ");
            let n = decimal_string(self.env_issues as u64);
            out.append(n.as_str());
            out.append(" environment issue(s) found.");
            out
        } else {
            let mut out = String::from_str("🔴 ");
            let n = decimal_string(self.issues as u64);
            out.append(n.as_str());
            out.append(" data issue(s) found.");
            out
        }
    }
}

/// A tally with no more environment issues than issues, as every
/// environment problem is also an issue.
pub open spec fn tally_consistent(t: DoctorTally) -> bool {
    t.env_issues <= t.issues
}

/// The recording steps keep a tally consistent, and a consistent tally's
/// exit code is 0 exactly when nothing at all was recorded.
pub proof fn law_tally_consistent(t: DoctorTally)
    requires
        tally_consistent(t),
    ensures
        t.issues < 255 && t.env_issues < 255 ==> tally_consistent(
            DoctorTally { issues: (t.issues + 1) as u8, env_issues: (t.env_issues + 1) as u8 },
        ),
        t.issues < 255 ==> tally_consistent(DoctorTally { issues: (t.issues + 1) as u8, env_issues: t.env_issues }),
        (spec_exit_code(t) == 0) == (t.issues == 0 && t.env_issues == 0),
{
}

} // verus!
