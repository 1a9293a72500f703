//! The input buffer: the bytes of the lines read so far that no input
//! instruction has consumed yet.

use vstd::prelude::*;

verus! {

/// Pending input. The bytes are stored back to front, so that the next byte to
/// consume is the last one of the vector.
pub struct InputBuffer {
    pub bytes: Vec<u8>,
}

impl View for InputBuffer {
    type V = Seq<u8>;

    /// The pending bytes in the order in which they will be consumed.
    open spec fn view(&self) -> Seq<u8> {
        self.bytes@.reverse()
    }
}

impl InputBuffer {
    /// A buffer with nothing pending.
    pub fn new() -> (buffer: InputBuffer)
        ensures
            buffer@ == Seq::<u8>::empty(),
    {
        let buffer = InputBuffer { bytes: Vec::new() };
        assert(buffer@ =~= Seq::<u8>::empty());
        buffer
    }

    /// Whether nothing is pending.
    pub fn is_empty(&self) -> (empty: bool)
        ensures
            empty == (self@.len() == 0),
    {
        self.bytes.is_empty()
    }

    /// Takes in the bytes of one line of input, line terminator included: they
    /// will be consumed in the order of the line, after what is already pending.
    pub fn refill(&mut self, line: &[u8])
        ensures
            final(self)@ == old(self)@ + line@,
    {
        let mut fresh: Vec<u8> = Vec::new();
        let mut i: usize = line.len();
        while i > 0
            invariant
                0 <= i <= line.len(),
                fresh.len() == line.len() - i,
                forall|k: int| 0 <= k < fresh.len() ==> fresh[k] == line@[line.len() - 1 - k],
            decreases i,
        {
            i -= 1;
            fresh.push(line[i]);
        }
        let mut j: usize = 0;
        while j < self.bytes.len()
            invariant
                0 <= j <= self.bytes.len(),
                self.bytes == old(self).bytes,
                fresh.len() == line.len() + j,
                forall|k: int| 0 <= k < line.len() ==> fresh[k] == line@[line.len() - 1 - k],
                forall|k: int| 0 <= k < j ==> fresh[line.len() + k] == self.bytes[k],
            decreases self.bytes.len() - j,
        {
            fresh.push(self.bytes[j]);
            j += 1;
        }
        self.bytes = fresh;
        assert(self@ =~= old(self)@ + line@);
    }

    /// Consumes the next pending byte, if there is one.
    pub fn pop(&mut self) -> (byte: Option<u8>)
        ensures
            match byte {
                Some(b) => old(self)@.len() > 0 && b == old(self)@[0] && final(self)@ == old(
                    self,
                )@.drop_first(),
                None => old(self)@.len() == 0 && final(self)@ == old(self)@,
            },
    {
        let byte = self.bytes.pop();
        assert(byte is Some ==> self@ =~= old(self)@.drop_first());
        byte
    }
}

} // verus!
