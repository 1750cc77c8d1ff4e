//! The output sink: a growable, append-only byte buffer. The scanner
//! only ever appends runs of bytes to it and never reads them back.

use vstd::prelude::*;

verus! {

/// An append-only byte buffer; its view is the sequence of bytes
/// appended so far, in order.
pub struct Buffer {
    data: Vec<u8>,
}

impl View for Buffer {
    type V = Seq<u8>;

    closed spec fn view(&self) -> Seq<u8> {
        self.data@
    }
}

impl Buffer {
    /// An empty buffer.
    pub fn new() -> (b: Buffer)
        ensures
            b@ == Seq::<u8>::empty(),
    {
        Buffer { data: Vec::new() }
    }

    /// Append the run `src[from..to]`.
    pub fn push_run(&mut self, src: &[u8], from: usize, to: usize)
        requires
            from <= to <= src@.len(),
        ensures
            final(self)@ == old(self)@ + src@.subrange(from as int, to as int),
    {
        proof {
            assert(self@ =~= self@ + src@.subrange(from as int, from as int));
        }
        let mut i: usize = from;
        while i < to
            invariant
                from <= i <= to <= src@.len(),
                self@ == old(self)@ + src@.subrange(from as int, i as int),
            decreases to - i,
        {
            self.data.push(src[i]);
            proof {
                assert(src@.subrange(from as int, i + 1) =~= src@.subrange(
                    from as int,
                    i as int,
                ).push(src@[i as int]));
            }
            i = i + 1;
        }
    }

    /// Append all of `run`.
    pub fn push_bytes(&mut self, run: &[u8])
        ensures
            final(self)@ == old(self)@ + run@,
    {
        self.push_run(run, 0, run.len());
        proof {
            assert(run@.subrange(0, run@.len() as int) =~= run@);
        }
    }

    /// The bytes appended so far.
    pub fn as_slice(&self) -> (r: &[u8])
        ensures
            r@ == self@,
    {
        self.data.as_slice()
    }

    /// How many bytes the buffer holds.
    pub fn len(&self) -> (n: usize)
        ensures
            n == self@.len(),
    {
        self.data.len()
    }
}

} // verus!
