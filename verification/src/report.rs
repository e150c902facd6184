//! Violations and the report that a check run builds.

use vstd::prelude::*;

use crate::baseline::BaselineEntry;

verus! {

/// A single architectural violation: what it is, the file it is in, and the bytes of that
/// file to point at.
#[derive(Debug)]
pub struct Violation {
    pub message: String,
    /// The file the violation is reported against.
    pub path: String,
    /// The `(start, len)` byte range in the file that the violation points at, as recorded
    /// when the reference or directive was read.
    pub span: (usize, usize),
}

/// The value of a violation.
pub struct ViolationView {
    pub message: Seq<char>,
    pub path: Seq<char>,
    pub span: (usize, usize),
}

impl View for Violation {
    type V = ViolationView;

    open spec fn view(&self) -> ViolationView {
        ViolationView { message: self.message@, path: self.path@, span: self.span }
    }
}

/// The values of a sequence of violations.
pub open spec fn violation_views(s: Seq<Violation>) -> Seq<ViolationView> {
    s.map_values(|v: Violation| v@)
}

/// The values of a sequence of strings.
pub open spec fn string_views(s: Seq<String>) -> Seq<Seq<char>> {
    s.map_values(|w: String| w@)
}

impl Violation {
    /// A copy of this violation.
    pub fn duplicate(&self) -> (r: Violation)
        ensures
            r@ == self@,
    {
        Violation {
            message: self.message.clone(),
            path: self.path.clone(),
            span: self.span,
        }
    }
}

/// The aggregate result of a check run: violations, their baseline keys (one per
/// violation, in the same order), and warnings.
#[derive(Debug)]
pub struct CheckReport {
    pub violations: Vec<Violation>,
    pub warnings: Vec<String>,
    pub violation_keys: Vec<BaselineEntry>,
}

impl CheckReport {
    /// An empty report.
    pub fn new() -> (r: CheckReport)
        ensures
            r.violations@.len() == 0,
            r.warnings@.len() == 0,
            r.violation_keys@.len() == 0,
    {
        CheckReport { violations: Vec::new(), warnings: Vec::new(), violation_keys: Vec::new() }
    }

    /// A report is clean when it has no violations; warnings do not count.
    pub fn is_clean(&self) -> (r: bool)
        ensures
            r == (self.violations@.len() == 0),
    {
        self.violations.len() == 0
    }

    /// Whether the run fails: on any violation, and on any warning when `strict`.
    pub fn should_fail(&self, strict: bool) -> (r: bool)
        ensures
            r == (self.violations@.len() > 0 || (strict && self.warnings@.len() > 0)),
    {
        self.violations.len() > 0 || (strict && self.warnings.len() > 0)
    }
}

} // verus!
