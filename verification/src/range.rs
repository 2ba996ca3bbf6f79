use vstd::prelude::*;
use crate::error::Error;
use crate::text::{append_decimal, decimal, owned, append_str};

verus! {

/// Half-open byte range `[start, end)`.
#[derive(Clone, Copy, Debug, PartialEq, Eq, Hash, Structural)]
pub struct ByteRange {
    pub start: usize,
    pub end: usize,
}

/// Message of a range whose start lies after its end.
pub open spec fn range_order_message(start: nat, end: nat) -> Seq<char> {
    "range start "@ + decimal(start) + " > end "@ + decimal(end)
}

/// Message of a range that runs past the text.
pub open spec fn range_length_message(start: nat, end: nat, len: nat) -> Seq<char> {
    "range ["@ + decimal(start) + ", "@ + decimal(end) + ") exceeds length "@ + decimal(len)
}

impl ByteRange {
    /// A range, refused when `start > end`.
    pub fn new(start: usize, end: usize) -> (r: Result<ByteRange, Error>)
        ensures
            r is Ok <==> start <= end,
            r matches Ok(v) ==> v == (ByteRange { start, end }),
            r matches Err(e) ==> e.is_invalid_delta(range_order_message(start as nat, end as nat)),
    {
        if start > end {
            let mut m = owned("range start ");
            append_decimal(&mut m, start as u128);
            append_str(&mut m, " > end ");
            append_decimal(&mut m, end as u128);
            assert(m@ =~= range_order_message(start as nat, end as nat));
            return Err(Error::InvalidDelta(m));
        }
        Ok(ByteRange { start, end })
    }

    pub fn len(self) -> (n: usize)
        requires
            self.start <= self.end,
        ensures
            n == self.end - self.start,
    {
        self.end - self.start
    }

    pub fn is_empty(self) -> (b: bool)
        ensures
            b == (self.start == self.end),
    {
        self.start == self.end
    }

    pub fn contains(self, offset: usize) -> (b: bool)
        ensures
            b == (self.start <= offset && offset < self.end),
    {
        offset >= self.start && offset < self.end
    }

    /// Refuses a range that ends past `len`.
    pub fn validate_against(self, len: usize) -> (r: Result<(), Error>)
        ensures
            r is Ok <==> self.end <= len,
            r matches Err(e) ==> e.is_invalid_delta(
                range_length_message(self.start as nat, self.end as nat, len as nat),
            ),
    {
        if self.end > len {
            let mut m = owned("range [");
            append_decimal(&mut m, self.start as u128);
            append_str(&mut m, ", ");
            append_decimal(&mut m, self.end as u128);
            append_str(&mut m, ") exceeds length ");
            append_decimal(&mut m, len as u128);
            assert(m@ =~= range_length_message(self.start as nat, self.end as nat, len as nat));
            return Err(Error::InvalidDelta(m));
        }
        Ok(())
    }
}

} // verus!
