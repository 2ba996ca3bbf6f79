//! The vocabulary of computations: how much an engine logs, in which mode a
//! node is computed, what a computation sees and what it hands back.
//!
//! Full recomputation is the oracle; incremental is the experiment.

use vstd::prelude::*;
use crate::delta::Delta;
use crate::error::Error;
use crate::fingerprint::Fingerprint;
use crate::id::NodeId;
use crate::metrics::WorkMetrics;
use crate::store::{slot_key, MemoryStore, Store};
use crate::text::{append_decimal, decimal, owned};

verus! {

/// How much an engine writes to its log.
#[derive(Clone, Copy, Debug, PartialEq, Eq, Structural)]
pub enum LogLevel {
    Disabled,
    Normal,
    Verbose,
    Debug,
}

impl Default for LogLevel {
    fn default() -> (l: LogLevel)
        ensures
            l == LogLevel::Normal,
    {
        LogLevel::Normal
    }
}

/// Levels in increasing order of detail.
pub open spec fn level_rank(level: LogLevel) -> nat {
    match level {
        LogLevel::Disabled => 0,
        LogLevel::Normal => 1,
        LogLevel::Verbose => 2,
        LogLevel::Debug => 3,
    }
}

fn rank(level: LogLevel) -> (r: u8)
    ensures
        r == level_rank(level),
{
    match level {
        LogLevel::Disabled => 0,
        LogLevel::Normal => 1,
        LogLevel::Verbose => 2,
        LogLevel::Debug => 3,
    }
}

impl LogLevel {
    /// Whether a message that needs `needed` is written at this level.
    pub fn allows(self, needed: LogLevel) -> (b: bool)
        ensures
            b == (level_rank(self) >= level_rank(needed)),
    {
        rank(self) >= rank(needed)
    }
}

/// Whether a node is computed from scratch or from its previous value.
#[derive(Clone, Copy, Debug, PartialEq, Eq, Structural)]
pub enum ComputeMode {
    Full,
    Incremental,
}

/// What one edit changed, in characters and bytes.
#[derive(Clone, Debug, PartialEq, Eq, Structural)]
pub struct ChangeSummary {
    pub inserted_chars: i64,
    pub deleted_chars: i64,
    pub inserted_bytes: usize,
    pub deleted_bytes: usize,
}

impl Default for ChangeSummary {
    fn default() -> (c: ChangeSummary)
        ensures
            c == (ChangeSummary { inserted_chars: 0, deleted_chars: 0, inserted_bytes: 0, deleted_bytes: 0 }),
    {
        ChangeSummary { inserted_chars: 0, deleted_chars: 0, inserted_bytes: 0, deleted_bytes: 0 }
    }
}

/// Read access to a store.
pub trait StoreView<V> {
    fn get(&self, id: NodeId) -> Option<&V>;
}

impl<V, T: Store<V>> StoreView<V> for T {
    fn get(&self, id: NodeId) -> (r: Option<&V>)
        ensures
            r == (if self.contents().contains_key(slot_key(id)) { Some(&self.contents()[slot_key(id)]) } else { None }),
    {
        Store::get(self, id)
    }
}

/// What a computation hands back: its value, optionally a fingerprint of
/// it, and the work it did.
pub struct ComputeOutput<V> {
    pub value: V,
    pub fingerprint: Option<Fingerprint>,
    pub work: WorkMetrics,
}

/// What a computation sees: its node, its inputs in order, the store holding
/// every computed value, its own previous value, the edit being applied to
/// one of its inputs, and the mode.
pub struct ComputeCtx<'a, V> {
    pub node: NodeId,
    pub inputs: &'a [NodeId],
    pub store: &'a MemoryStore<V>,
    pub previous: Option<&'a V>,
    pub delta: Option<&'a Delta>,
    pub mode: ComputeMode,
}

/// The message of a missing input.
pub open spec fn msg_missing_input(index: nat) -> Seq<char> {
    "missing input "@ + decimal(index)
}

impl<'a, V> ComputeCtx<'a, V> {
    /// The value of input `index`. A missing input is a computation error;
    /// an input with no value in the store is a type mismatch on that input.
    pub fn input(&self, index: usize) -> (r: Result<&'a V, Error>)
        ensures
            index >= self.inputs@.len() ==> (r matches Err(Error::Computation(m)) && m@ == msg_missing_input(index as nat)),
            index < self.inputs@.len() ==> {
                let key = slot_key(self.inputs@[index as int]);
                match r {
                    Ok(v) => self.store@.contains_key(key) && *v == self.store@[key],
                    Err(e) => !self.store@.contains_key(key) && e == Error::TypeMismatch(self.inputs@[index as int]),
                }
            },
    {
        if index >= self.inputs.len() {
            let mut m = owned("missing input ");
            append_decimal(&mut m, index as u128);
            proof {
                reveal_strlit("missing input ");
            }
            return Err(Error::Computation(m));
        }
        let id = self.inputs[index];
        match self.store.get_as(id) {
            Some(v) => Ok(v),
            None => Err(Error::TypeMismatch(id)),
        }
    }

    /// This node's previous value, if it has one.
    pub fn previous_as(&self) -> (r: Option<&'a V>)
        ensures
            r == self.previous,
    {
        self.previous
    }
}

/// A reusable unit of work.
///
/// `compute` is the oracle. `compute_incremental` may answer `None` to ask
/// for the oracle.
pub trait Computation<V> {
    fn name(&self) -> &str;

    fn kind(&self) -> &str;

    fn compute(&self, ctx: ComputeCtx<'_, V>) -> Result<ComputeOutput<V>, Error>;

    /// By default a computation declines, asking for the full one.
    fn compute_incremental(&self, ctx: ComputeCtx<'_, V>) -> (r: Result<Option<ComputeOutput<V>>, Error>)
        default_ensures
            r matches Ok(None),
    {
        let _ = ctx;
        Ok(None)
    }
}

} // verus!
