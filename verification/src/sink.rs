//! The output sink: the one place where finished lines are written, each
//! as a whole block and in the order in which they finish.

use vstd::prelude::*;
use crate::text::{lemma_texts_add, texts};

verus! {

/// The lines written so far.
pub struct OutputSink {
    written: Vec<String>,
}

impl View for OutputSink {
    type V = Seq<Seq<char>>;

    closed spec fn view(&self) -> Seq<Seq<char>> {
        texts(self.written@)
    }
}

impl OutputSink {
    /// A sink to which nothing has been written.
    pub fn new() -> (out: OutputSink)
        ensures
            out@ == Seq::<Seq<char>>::empty(),
    {
        let out = OutputSink { written: Vec::new() };
        assert(out@ =~= Seq::<Seq<char>>::empty());
        out
    }

    /// Writes the block of a finished line: all of its lines, in their
    /// order, after everything written before.
    pub fn flush(&mut self, block: Vec<String>)
        ensures
            final(self)@ == old(self)@ + texts(block@),
    {
        let mut block = block;
        proof {
            lemma_texts_add(self.written@, block@);
        }
        self.written.append(&mut block);
    }

    /// The number of lines written so far.
    pub fn len(&self) -> (out: usize)
        ensures
            out == self@.len(),
    {
        self.written.len()
    }

    /// The lines written so far, in order.
    pub fn into_lines(self) -> (out: Vec<String>)
        ensures
            texts(out@) == self@,
    {
        self.written
    }
}

} // verus!
