use vstd::prelude::*;
use crate::text::{owned, append_str};

verus! {

/// Lifecycle of a computation node.
///
/// `Clean` means the last computation succeeded and nothing invalidated it
/// since. `Dirty` covers both a local edit and an invalidation.
#[derive(Clone, Copy, Debug, PartialEq, Eq, Structural)]
pub enum NodeStatus {
    /// Registered, never successfully computed.
    Pending,
    /// Output matches current known inputs.
    Clean,
    /// Must recompute before the output is trusted.
    Dirty,
    /// Currently running.
    Computing,
    /// Last computation returned an error. Still dirty.
    Failed,
}

impl NodeStatus {
    pub open spec fn spec_needs_compute(self) -> bool {
        self is Pending || self is Dirty || self is Failed
    }

    pub fn is_usable(self) -> (b: bool)
        ensures
            b == (self is Clean),
    {
        matches!(self, NodeStatus::Clean)
    }

    pub fn needs_compute(self) -> (b: bool)
        ensures
            b == self.spec_needs_compute(),
    {
        matches!(self, NodeStatus::Pending | NodeStatus::Dirty | NodeStatus::Failed)
    }
}

/// The word a status is shown with to an editor.
pub open spec fn status_text(s: NodeStatus) -> Seq<char> {
    match s {
        NodeStatus::Clean => "clean"@,
        NodeStatus::Dirty => "invalidated"@,
        NodeStatus::Pending => "pending"@,
        NodeStatus::Computing => "recomputed"@,
        NodeStatus::Failed => "failed"@,
    }
}

/// The word a status is shown with to an editor.
pub fn status_word(s: NodeStatus) -> (w: &'static str)
    ensures
        w@ == status_text(s),
{
    match s {
        NodeStatus::Clean => "clean",
        NodeStatus::Dirty => "invalidated",
        NodeStatus::Pending => "pending",
        NodeStatus::Computing => "recomputed",
        NodeStatus::Failed => "failed",
    }
}

/// Why a node was last invalidated.
#[derive(Clone, Debug, PartialEq, Eq)]
pub enum InvalidationReason {
    InputChanged,
    DependencyChanged { dependency: String },
    Manual,
    PolicyChoseFull,
    CycleBreak,
}

impl InvalidationReason {
    /// Same variant, and for `DependencyChanged` the same dependency text.
    pub open spec fn same(self, other: InvalidationReason) -> bool {
        match (self, other) {
            (InvalidationReason::DependencyChanged { dependency: a },
             InvalidationReason::DependencyChanged { dependency: b }) => a@ == b@,
            (InvalidationReason::InputChanged, InvalidationReason::InputChanged) => true,
            (InvalidationReason::Manual, InvalidationReason::Manual) => true,
            (InvalidationReason::PolicyChoseFull, InvalidationReason::PolicyChoseFull) => true,
            (InvalidationReason::CycleBreak, InvalidationReason::CycleBreak) => true,
            _ => false,
        }
    }

    /// How the reason is described to a reader.
    pub open spec fn description(self) -> Seq<char> {
        match self {
            InvalidationReason::InputChanged => "input changed"@,
            InvalidationReason::DependencyChanged { dependency } =>
                "dependency "@ + dependency@ + " changed"@,
            InvalidationReason::Manual => "manual"@,
            InvalidationReason::PolicyChoseFull => "policy chose full recompute"@,
            InvalidationReason::CycleBreak => "cycle break"@,
        }
    }

    /// A copy of this reason.
    pub fn duplicate(&self) -> (r: InvalidationReason)
        ensures
            r.same(*self),
    {
        match self {
            InvalidationReason::InputChanged => InvalidationReason::InputChanged,
            InvalidationReason::DependencyChanged { dependency } =>
                InvalidationReason::DependencyChanged { dependency: dependency.clone() },
            InvalidationReason::Manual => InvalidationReason::Manual,
            InvalidationReason::PolicyChoseFull => InvalidationReason::PolicyChoseFull,
            InvalidationReason::CycleBreak => InvalidationReason::CycleBreak,
        }
    }

    /// The description of this reason.
    pub fn describe(&self) -> (s: String)
        ensures
            s@ == self.description(),
    {
        match self {
            InvalidationReason::InputChanged => owned("input changed"),
            InvalidationReason::DependencyChanged { dependency } => {
                let mut s = owned("dependency ");
                append_str(&mut s, dependency.as_str());
                append_str(&mut s, " changed");
                s
            },
            InvalidationReason::Manual => owned("manual"),
            InvalidationReason::PolicyChoseFull => owned("policy chose full recompute"),
            InvalidationReason::CycleBreak => owned("cycle break"),
        }
    }
}

} // verus!
