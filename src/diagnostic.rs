//! Violations found in a trace.
use vstd::prelude::*;
use crate::borrow::ConflictKind;

verus! {

/// The kinds of violation.
#[derive(Clone, Copy, Debug, PartialEq, Eq, Structural)]
pub enum DiagnosticKind {
    UseAfterMove,
    UseAfterDrop,
    DoubleMove,
    DoubleDrop,
    BorrowConflict(ConflictKind),
    /// A borrow would outlive the scope that owns its resource.
    DanglingBorrow,
    /// A name that no visible binding (or no borrow) carries.
    UnknownBinding,
}

impl DiagnosticKind {
    /// A short human-readable description.
    pub fn message(&self) -> &'static str {
        match self {
            DiagnosticKind::UseAfterMove => "value used after it was moved",
            DiagnosticKind::UseAfterDrop => "value used after it was dropped",
            DiagnosticKind::DoubleMove => "value moved twice",
            DiagnosticKind::DoubleDrop => "value dropped twice",
            DiagnosticKind::BorrowConflict(ConflictKind::ExclusiveWhileBorrowed) =>
                "exclusive borrow while the value is borrowed",
            DiagnosticKind::BorrowConflict(ConflictKind::SharedWhileExclusive) =>
                "shared borrow while the value is exclusively borrowed",
            DiagnosticKind::DanglingBorrow => "borrow outlives the scope that owns the value",
            DiagnosticKind::UnknownBinding => "name not found in any visible scope",
        }
    }
}

/// One violation: its kind, the location tag of the offending operation,
/// the resource involved (if one was resolved) and the name involved (a
/// binding's, or a borrow's for a refused or unknown borrow).
pub struct Diagnostic {
    pub kind: DiagnosticKind,
    pub location: u64,
    pub resource: Option<usize>,
    pub name: Option<String>,
}

impl Diagnostic {
    /// The description of this diagnostic's kind.
    pub fn message(&self) -> &'static str {
        self.kind.message()
    }
}

} // verus!
