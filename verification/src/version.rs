use vstd::prelude::*;
use crate::text::{decimal, append_decimal, push_char};

verus! {

/// Monotonic per-node version. Incremented when a node successfully produces
/// a new output; `0` means "never computed".
#[derive(Clone, Copy, PartialEq, Eq, PartialOrd, Ord, Hash, Default, Debug, Structural)]
pub struct Version(pub u64);

/// The version that follows `v`: one more, saturating at `u64::MAX`, and never 0.
pub open spec fn bumped(v: u64) -> u64 {
    if v == u64::MAX {
        u64::MAX
    } else {
        (v + 1) as u64
    }
}

impl Version {
    /// The version of a node that was never computed.
    pub fn never() -> (v: Version)
        ensures
            v.0 == 0,
    {
        Version(0)
    }

    pub fn new(n: u64) -> (v: Version)
        ensures
            v.0 == n,
    {
        Version(n)
    }

    pub fn get(self) -> (n: u64)
        ensures
            n == self.0,
    {
        self.0
    }

    pub fn bump(self) -> (v: Version)
        ensures
            v.0 == bumped(self.0),
            v.0 >= 1,
            self.0 <= v.0,
    {
        let n = self.0.saturating_add(1);
        Version(if n < 1 { 1 } else { n })
    }

    /// True when this version is older than an observed one.
    pub fn is_stale_wrt(self, observed: Version) -> (b: bool)
        ensures
            b == (self.0 < observed.0),
    {
        self.0 < observed.0
    }

    /// How a version is written: `v<n>`.
    pub fn label(&self) -> (s: String)
        ensures
            s@ == seq!['v'] + decimal(self.0 as nat),
    {
        let mut s = String::new();
        push_char(&mut s, 'v');
        append_decimal(&mut s, self.0 as u128);
        assert(s@ =~= seq!['v'] + decimal(self.0 as nat));
        s
    }
}

} // verus!
