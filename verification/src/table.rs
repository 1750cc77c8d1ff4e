//! The escape table: a total mapping from byte values to an optional
//! replacement string, realized as a 256-entry lookup table of indices
//! into an ordered list of replacement byte strings.

use vstd::prelude::*;
use vstd::pervasive::VecAdditionalExecFns;

verus! {

/// Lookup-table entry meaning "this byte is not escaped".
pub const NO_ESCAPE: u8 = 255;

/// A fixed mapping from byte value to either "not escaped" or a short
/// replacement byte string. Constructed once, then only read.
pub struct EscapeTable {
    /// One entry per byte value; an entry below `replacements.len()`
    /// is an index into `replacements`, anything else means no escape.
    lut: Vec<u8>,
    /// The ordered list of replacement byte strings.
    replacements: Vec<Vec<u8>>,
}

impl EscapeTable {
    /// Structural invariant: the lookup table is total (256 entries) and
    /// every entry is either `NO_ESCAPE` or an index in range.
    pub closed spec fn wf(self) -> bool {
        &&& self.lut@.len() == 256
        &&& self.replacements@.len() <= 255
        &&& forall|i: int|
            0 <= i < 256 ==> (self.lut@[i] == NO_ESCAPE || (self.lut@[i] as int)
                < self.replacements@.len())
    }

    /// The mapping the table denotes: the replacement for `b`, or `None`
    /// when `b` is copied verbatim.
    pub closed spec fn escapes(self, b: u8) -> Option<Seq<u8>> {
        if (self.lut@[b as int] as int) < self.replacements@.len() {
            Some(self.replacements@[self.lut@[b as int] as int]@)
        } else {
            None
        }
    }

    /// How many replacement strings the table holds.
    pub closed spec fn replacement_count(self) -> nat {
        self.replacements@.len()
    }

    /// A table that escapes nothing.
    pub fn new() -> (t: EscapeTable)
        ensures
            t.wf(),
            t.replacement_count() == 0,
            forall|b: u8| t.escapes(b) is None,
    {
        let mut lut: Vec<u8> = Vec::new();
        let mut i: usize = 0;
        while i < 256
            invariant
                i <= 256,
                lut@.len() == i,
                forall|j: int| 0 <= j < i ==> lut@[j] == NO_ESCAPE,
            decreases 256 - i,
        {
            lut.push(NO_ESCAPE);
            i = i + 1;
        }
        EscapeTable { lut, replacements: Vec::new() }
    }

    /// Map byte `b` to `replacement`; every other byte keeps its mapping.
    pub fn map_byte(&mut self, b: u8, replacement: Vec<u8>)
        requires
            old(self).wf(),
            old(self).replacement_count() < 255,
        ensures
            final(self).wf(),
            final(self).replacement_count() == old(self).replacement_count() + 1,
            final(self).escapes(b) == Some(replacement@),
            forall|c: u8| c != b ==> final(self).escapes(c) == old(self).escapes(c),
    {
        let idx: u8 = self.replacements.len() as u8;
        self.replacements.push(replacement);
        self.lut.set(b as usize, idx);
    }

    /// Look the byte up: the replacement string when `b` is escaped.
    pub fn lookup(&self, b: u8) -> (r: Option<&Vec<u8>>)
        requires
            self.wf(),
        ensures
            match r {
                Some(v) => self.escapes(b) == Some(v@),
                None => self.escapes(b) is None,
            },
    {
        let c = self.lut[b as usize];
        if (c as usize) < self.replacements.len() {
            Some(&self.replacements[c as usize])
        } else {
            None
        }
    }
}

} // verus!
