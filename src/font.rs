//! Glyph tables for 8x8 bitmap text.
use vstd::prelude::*;

verus! {

/// An 8x8 glyph: one byte per row, the leftmost pixel in the high bit.
pub type Glyph = [u8; 8];

/// A table of glyphs, looked up by character; the first entry for a
/// character wins.
pub struct Font {
    pub glyphs: Vec<(char, Glyph)>,
}

impl Font {
    /// Index of the first entry for `ch`.
    pub open spec fn first_entry(&self, ch: char, i: int) -> bool {
        &&& 0 <= i < self.glyphs@.len()
        &&& self.glyphs@[i].0 == ch
        &&& forall|j: int| 0 <= j < i ==> #[trigger] self.glyphs@[j].0 != ch
    }

    /// The glyph drawn for `ch`, if the table has one.
    pub open spec fn lookup(&self, ch: char) -> Option<Glyph> {
        if exists|i: int| self.first_entry(ch, i) {
            Some(self.glyphs@[choose|i: int| self.first_entry(ch, i)].1)
        } else {
            None
        }
    }

    /// The glyph of `ch`, if the table has one.
    pub fn glyph(&self, ch: char) -> (r: Option<Glyph>)
        ensures
            r == self.lookup(ch),
    {
        let mut i: usize = 0;
        while i < self.glyphs.len()
            invariant
                i <= self.glyphs@.len(),
                forall|j: int| 0 <= j < i ==> #[trigger] self.glyphs@[j].0 != ch,
            decreases self.glyphs@.len() - i,
        {
            if self.glyphs[i].0 == ch {
                proof {
                    assert(self.first_entry(ch, i as int));
                    let c = choose|c: int| self.first_entry(ch, c);
                    if c < i {
                        assert(self.glyphs@[c].0 != ch);
                    }
                    if c > i {
                        assert(self.glyphs@[i as int].0 != ch);
                    }
                }
                return Some(self.glyphs[i].1);
            }
            i = i + 1;
        }
        None
    }
}

} // verus!
