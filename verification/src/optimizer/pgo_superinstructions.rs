//! Keys of instruction patterns found by profiling.
use vstd::prelude::*;
use crate::text::push_str;

verus! {

/// A pattern of instructions, each by its debug text.
#[derive(Debug, Clone, PartialEq, Eq, Hash)]
pub struct PatternKey {
    pub instructions: Vec<String>,
}

/// The texts joined with ` → `.
pub open spec fn joined_pattern(ts: Seq<String>) -> Seq<char>
    decreases ts.len(),
{
    if ts.len() == 0 {
        seq![]
    } else if ts.len() == 1 {
        ts[0]@
    } else {
        joined_pattern(ts.drop_last()) + " → "@ + ts.last()@
    }
}

impl PatternKey {
    /// The key of a pattern given by the texts of its instructions.
    pub fn new(instructions: Vec<String>) -> (r: Self)
        ensures
            r.instructions@ == instructions@,
    {
        PatternKey { instructions }
    }

    /// Number of instructions in the pattern.
    pub fn length(&self) -> (r: usize)
        ensures
            r == self.instructions@.len(),
    {
        self.instructions.len()
    }

    /// The instructions' texts joined with ` → `.
    pub fn display_text(&self) -> (r: String)
        ensures
            r@ == joined_pattern(self.instructions@),
    {
        let mut out = String::new();
        let mut i: usize = 0;
        while i < self.instructions.len()
            invariant
                i <= self.instructions@.len(),
                out@ == joined_pattern(self.instructions@.take(i as int)),
            decreases self.instructions@.len() - i,
        {
            if i > 0 {
                push_str(&mut out, " → ");
            }
            push_str(&mut out, self.instructions[i].as_str());
            proof {
                assert(self.instructions@.take(i + 1).drop_last() =~= self.instructions@.take(i as int));
                if i == 0 {
                    assert(out@ =~= self.instructions@[0]@);
                }
            }
            i = i + 1;
        }
        assert(self.instructions@.take(self.instructions@.len() as int) =~= self.instructions@);
        out
    }
}

} // verus!
