use vstd::prelude::*;
use crate::delta::{apply_delta, apply_delta_mut, apply_op, reports, utf8, zero_stats, ApplyStats, Delta};
use crate::error::Error;

verus! {

/// A text held as a `String`; edits splice it in place, and the tail moved by
/// an edit is counted.
#[derive(Clone, Debug, Default)]
pub struct TextBuffer {
    pub text: String,
}

impl TextBuffer {
    pub fn new(text: &str) -> (b: TextBuffer)
        ensures
            b.text@ == text@,
    {
        TextBuffer { text: text.to_owned() }
    }

    /// Length in bytes.
    pub fn len(&self) -> (n: usize)
        requires
            utf8(self.text@).len() <= usize::MAX,
        ensures
            n == utf8(self.text@).len(),
    {
        self.text.as_str().len()
    }

    pub fn is_empty(&self) -> (b: bool)
        ensures
            b == (self.text@.len() == 0),
    {
        self.text.as_str().is_empty()
    }

    /// Apply a delta in place.
    pub fn apply(&mut self, delta: &Delta) -> (r: Result<ApplyStats, Error>)
        requires
            apply_op(utf8(old(self).text@), delta@, zero_stats()).fits,
        ensures
            utf8(final(self).text@) == apply_op(utf8(old(self).text@), delta@, zero_stats()).bytes,
            r is Ok <==> apply_op(utf8(old(self).text@), delta@, zero_stats()).fault is None,
            r matches Ok(st) ==> st@ == apply_op(utf8(old(self).text@), delta@, zero_stats()).stats,
            r matches Err(e) ==> reports(e, apply_op(utf8(old(self).text@), delta@, zero_stats()).fault.unwrap()),
    {
        apply_delta_mut(&mut self.text, delta)
    }

    /// Oracle: rebuild a brand-new string.
    pub fn apply_full(text: &str, delta: &Delta) -> (r: Result<(String, ApplyStats), Error>)
        requires
            apply_op(utf8(text@), delta@, zero_stats()).fits,
        ensures
            r is Ok <==> apply_op(utf8(text@), delta@, zero_stats()).fault is None,
            r matches Ok((s, st)) ==> utf8(s@) == apply_op(utf8(text@), delta@, zero_stats()).bytes
                && st@ == apply_op(utf8(text@), delta@, zero_stats()).stats,
            r matches Err(e) ==> reports(e, apply_op(utf8(text@), delta@, zero_stats()).fault.unwrap()),
    {
        apply_delta(text, delta)
    }
}

} // verus!
