//! The replacement stage: standardized variation sequences in place of CJK
//! compatibility ideographs.

use crate::normalize::{cjk_compat_variants, decompose_cjk_compat_variants};
use crate::stream::CharStream;
use crate::tables::Tables;
use vstd::prelude::*;

verus! {

/// The standardized variation sequences of the characters of `s`, one after
/// the other.
pub open spec fn replace_all(tables: &Tables, s: Seq<char>) -> Seq<char>
    decreases s.len(),
{
    if s.len() == 0 {
        Seq::<char>::empty()
    } else {
        cjk_compat_variants(tables, s[0]) + replace_all(tables, s.skip(1))
    }
}

/// External iterator for replacements for a string's characters.
pub struct Replacements<'a, I> {
    tables: &'a Tables,
    iter: I,
    // The replacement of the last character read, and how much of it has
    // been handed out.
    buffer: Vec<char>,
    next: usize,
}

/// A stage that yields `iter` with standardized variation sequences in place
/// of CJK compatibility ideographs.
pub fn new_cjk_compat_variants<'a, I: CharStream>(tables: &'a Tables, iter: I) -> (stage:
    Replacements<'a, I>)
    requires
        tables.wf(),
        iter.wf(),
    ensures
        stage.wf(),
        stage.remaining() == replace_all(tables, iter.remaining()),
        stage.source() == iter,
{
    let stage = Replacements { tables, iter, buffer: Vec::new(), next: 0 };
    proof {
        let out = replace_all(tables, iter.remaining());
        assert(stage.buffer@.skip(0) + out =~= out);
    }
    stage
}

impl<'a, I: CharStream> Replacements<'a, I> {
    /// The stream that this stage reads.
    pub closed spec fn source(&self) -> I {
        self.iter
    }

    /// The stream that this stage reads.
    pub fn get_ref(&self) -> (iter: &I)
        ensures
            *iter == self.source(),
    {
        &self.iter
    }

    /// The characters that the stage holds ready: it hands them out before
    /// it reads its source again.
    pub closed spec fn ready_chars(&self) -> Seq<char> {
        self.buffer@.skip(self.next as int)
    }
}

impl<'a, I: CharStream> CharStream for Replacements<'a, I> {
    closed spec fn wf(&self) -> bool {
        &&& self.tables.wf()
        &&& self.iter.wf()
        &&& self.next <= self.buffer@.len()
    }

    closed spec fn remaining(&self) -> Seq<char> {
        self.buffer@.skip(self.next as int) + replace_all(self.tables, self.iter.remaining())
    }

    fn next(&mut self) -> (c: Option<char>)
        ensures
            old(self).ready_chars().len() > 0 ==> final(self).source() == old(self).source(),
    {
        loop
            invariant
                self.wf(),
                self.remaining() == old(self).remaining(),
                old(self).ready_chars().len() > 0 ==> self.iter == old(self).iter,
                old(self).ready_chars().len() > 0 ==> self.next < self.buffer@.len(),
            decreases self.iter.remaining().len(), self.buffer@.len() - self.next,
        {
            let ghost out = self.remaining();
            if self.next < self.buffer.len() {
                let c: char = self.buffer[self.next];
                self.next = self.next + 1;
                proof {
                    assert(self.remaining() =~= out.skip(1));
                }
                return Some(c);
            }
            match self.iter.next() {
                Some(ch) => {
                    self.buffer.clear();
                    decompose_cjk_compat_variants(self.tables, ch, &mut self.buffer);
                    self.next = 0;
                    proof {
                        assert(self.remaining() =~= out);
                    }
                },
                None => {
                    proof {
                        assert(out =~= Seq::<char>::empty());
                    }
                    return None;
                },
            }
        }
    }
}

} // verus!
