use vstd::prelude::*;

verus! {

/// Lifecycle of a staged file. `Ignored` is terminal and excluded from grouping.
///
/// The stored numbering is 0, 1, 2, 3 in declaration order.
#[derive(Debug, Clone, Copy, PartialEq, Eq, Structural)]
pub enum ResolvedStatus {
    UnResolved,
    AutoResolved,
    UserResolved,
    Ignored,
}

impl ResolvedStatus {
    pub open spec fn spec_value(self) -> int {
        match self {
            ResolvedStatus::UnResolved => 0,
            ResolvedStatus::AutoResolved => 1,
            ResolvedStatus::UserResolved => 2,
            ResolvedStatus::Ignored => 3,
        }
    }

    /// Whether a scan may not replace this status (set by a user, or sticky).
    pub open spec fn spec_is_pinned(self) -> bool {
        self == ResolvedStatus::UserResolved || self == ResolvedStatus::Ignored
    }

    /// The stored number of this status.
    pub fn value(&self) -> (r: i64)
        ensures
            r == self.spec_value(),
    {
        match self {
            ResolvedStatus::UnResolved => 0,
            ResolvedStatus::AutoResolved => 1,
            ResolvedStatus::UserResolved => 2,
            ResolvedStatus::Ignored => 3,
        }
    }

    /// The status stored as `value`, if any.
    pub fn from_value(value: i64) -> (r: Option<ResolvedStatus>)
        ensures
            r matches Some(s) ==> s.spec_value() == value,
            r is None <==> !(0 <= value <= 3),
    {
        match value {
            0 => Some(ResolvedStatus::UnResolved),
            1 => Some(ResolvedStatus::AutoResolved),
            2 => Some(ResolvedStatus::UserResolved),
            3 => Some(ResolvedStatus::Ignored),
            _ => None,
        }
    }

    pub fn is_pinned(&self) -> (r: bool)
        ensures
            r == self.spec_is_pinned(),
    {
        match self {
            ResolvedStatus::UserResolved | ResolvedStatus::Ignored => true,
            _ => false,
        }
    }
}

} // verus!
