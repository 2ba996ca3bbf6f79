use vstd::prelude::*;
use crate::id::{node_label, NodeId};
use crate::text::{append_str, owned};

verus! {

/// Errors of the engine. Each carries a human readable message or the node
/// it is about.
#[derive(Debug, Clone, PartialEq, Eq)]
pub enum Error {
    InvalidDelta(String),
    UnknownNode(NodeId),
    StaleNode(NodeId),
    Cycle(String),
    Graph(String),
    Computation(String),
    TypeMismatch(NodeId),
    Limit(String),
    Unsupported(String),
    Io(String),
    Serialize(String),
}

impl Error {
    /// `InvalidDelta` carrying exactly the message `m`.
    pub open spec fn is_invalid_delta(self, m: Seq<char>) -> bool {
        self matches Error::InvalidDelta(s) && s@ == m
    }

    pub open spec fn is_unsupported(self, m: Seq<char>) -> bool {
        self matches Error::Unsupported(s) && s@ == m
    }

    pub open spec fn is_cycle(self, m: Seq<char>) -> bool {
        self matches Error::Cycle(s) && s@ == m
    }

    pub open spec fn is_limit(self, m: Seq<char>) -> bool {
        self matches Error::Limit(s) && s@ == m
    }

    /// How the error reads: a prefix naming its kind, then its message or
    /// node.
    pub open spec fn text(self) -> Seq<char> {
        match self {
            Error::InvalidDelta(m) => "invalid delta: "@ + m@,
            Error::UnknownNode(id) => "unknown node "@ + node_label(id),
            Error::StaleNode(id) => "stale generation for node "@ + node_label(id),
            Error::Cycle(m) => "dependency cycle: "@ + m@,
            Error::Graph(m) => "graph error: "@ + m@,
            Error::Computation(m) => "computation failed: "@ + m@,
            Error::TypeMismatch(id) => "type mismatch on node "@ + node_label(id),
            Error::Limit(m) => "limit exceeded: "@ + m@,
            Error::Unsupported(m) => "unsupported: "@ + m@,
            Error::Io(m) => "io: "@ + m@,
            Error::Serialize(m) => "serialize: "@ + m@,
        }
    }

    /// The text of this error.
    pub fn message(&self) -> (s: String)
        ensures
            s@ == self.text(),
    {
        let (prefix, detail) = match self {
            Error::InvalidDelta(m) => ("invalid delta: ", m.clone()),
            Error::UnknownNode(id) => ("unknown node ", id.label()),
            Error::StaleNode(id) => ("stale generation for node ", id.label()),
            Error::Cycle(m) => ("dependency cycle: ", m.clone()),
            Error::Graph(m) => ("graph error: ", m.clone()),
            Error::Computation(m) => ("computation failed: ", m.clone()),
            Error::TypeMismatch(id) => ("type mismatch on node ", id.label()),
            Error::Limit(m) => ("limit exceeded: ", m.clone()),
            Error::Unsupported(m) => ("unsupported: ", m.clone()),
            Error::Io(m) => ("io: ", m.clone()),
            Error::Serialize(m) => ("serialize: ", m.clone()),
        };
        let mut s = owned(prefix);
        append_str(&mut s, detail.as_str());
        s
    }
}

} // verus!
