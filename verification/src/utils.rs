//! A text buffer that collects output to be printed at once.
use vstd::prelude::*;
use vstd::string::StringExecFns;

verus! {

/// Collected text.
pub struct Buf {
    pub buffer: String,
}

impl Buf {
    /// An empty buffer.
    pub fn new() -> (b: Buf)
        ensures
            b.buffer@ == Seq::<char>::empty(),
    {
        Buf { buffer: String::new() }
    }

    /// Appends `string` to the buffer.
    pub fn add_buf(&mut self, string: &String)
        ensures
            final(self).buffer@ == old(self).buffer@ + string@,
    {
        self.buffer.append(string.as_str());
    }

    /// Empties the buffer and hands back what it held, to be printed.
    pub fn clear_buf(&mut self) -> (s: String)
        ensures
            s@ == old(self).buffer@,
            final(self).buffer@ == Seq::<char>::empty(),
    {
        let mut out = String::new();
        core::mem::swap(&mut out, &mut self.buffer);
        out
    }
}

} // verus!
