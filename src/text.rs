//! Measured extents of text runs, keyed by text and font size.
use vstd::prelude::*;

use crate::geometry::Region;
use crate::strmap::str_eq;

verus! {

/// The extent of `text` drawn at `font_size` (thousandths of a pixel).
#[derive(Debug)]
pub struct TextRun {
    pub text: String,
    pub font_size: i64,
    pub region: Region,
}

/// A table of measured text runs, which layout consults for the size of text.
#[derive(Debug)]
pub struct TextMetrics {
    pub runs: Vec<TextRun>,
}

/// The extent recorded for `text` at `size`: the first matching run's, else empty.
pub open spec fn measured(runs: Seq<TextRun>, text: Seq<char>, size: int) -> Region
    decreases runs.len(),
{
    if runs.len() == 0 {
        Region { width: 0, height: 0 }
    } else if runs[0].text@ == text && runs[0].font_size == size {
        runs[0].region
    } else {
        measured(runs.drop_first(), text, size)
    }
}

impl TextMetrics {
    pub fn new() -> (m: TextMetrics)
        ensures
            m.runs@.len() == 0,
    {
        TextMetrics { runs: Vec::new() }
    }

    /// Records the extent of `text` at `font_size`, after the runs already there.
    pub fn insert(&mut self, text: String, font_size: i64, region: Region)
        ensures
            final(self).runs@ == old(self).runs@.push(TextRun { text, font_size, region }),
    {
        self.runs.push(TextRun { text, font_size, region });
    }

    /// The extent recorded for `text` at `font_size`; zero when none is.
    pub fn measure(&self, text: &str, font_size: i64) -> (r: Region)
        ensures
            r == measured(self.runs@, text@, font_size as int),
    {
        let mut i: usize = 0;
        assert(self.runs@.subrange(0, self.runs@.len() as int) =~= self.runs@);
        while i < self.runs.len()
            invariant
                i <= self.runs@.len(),
                measured(self.runs@, text@, font_size as int)
                    == measured(self.runs@.subrange(i as int, self.runs@.len() as int), text@, font_size as int),
            decreases self.runs@.len() - i,
        {
            let ghost rest = self.runs@.subrange(i as int, self.runs@.len() as int);
            assert(rest.drop_first() =~= self.runs@.subrange(i + 1, self.runs@.len() as int));
            assert(rest[0] == self.runs@[i as int]);
            let run = &self.runs[i];
            if run.font_size == font_size && str_eq(run.text.as_str(), text) {
                return run.region;
            }
            i = i + 1;
        }
        Region { width: 0, height: 0 }
    }
}

} // verus!
