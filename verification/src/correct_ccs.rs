//! The stage that corrects defective combining character sequences.

use crate::perfect_hash::{
    combining_mark_in, default_ignorable_mark_in, is_combining_mark, is_default_ignorable_mark,
    not_in_ccs, not_in_ccs_in,
};
use crate::stream::CharStream;
use crate::tables::Tables;
use std::collections::VecDeque;
use vstd::prelude::*;

verus! {

/// NO-BREAK SPACE, the base character given to a sequence that lacks one.
pub const NO_BREAK_SPACE: char = '\u{00A0}';

/// The part that a character plays in a combining character sequence.
#[derive(Clone, Copy, Debug, PartialEq, Eq)]
pub enum CcsKind {
    /// A CCS base character (graphic character other than combining mark).
    Base,
    /// A combining character other than a `Default_Ignorable_Code_Point`.
    NonIgnorableCombining,
    /// A default-ignorable combining character, ZWJ, or ZWNJ.
    IgnorableCombining,
}

/// The part that `c` plays in a combining character sequence, or `None`
/// where it takes part in none.
pub open spec fn ccs_kind(tables: &Tables, c: char) -> Option<CcsKind> {
    if c == '\u{200C}' || c == '\u{200D}' {
        Some(CcsKind::IgnorableCombining)
    } else if combining_mark_in(tables, c) {
        if default_ignorable_mark_in(tables, c) {
            Some(CcsKind::IgnorableCombining)
        } else {
            Some(CcsKind::NonIgnorableCombining)
        }
    } else if not_in_ccs_in(tables, c) {
        None
    } else {
        Some(CcsKind::Base)
    }
}

impl CcsKind {
    /// The part that `c` plays in a combining character sequence.
    pub fn of(tables: &Tables, c: char) -> (kind: Option<CcsKind>)
        requires
            tables.wf(),
        ensures
            kind == ccs_kind(tables, c),
    {
        if c == '\u{200C}' || c == '\u{200D}' {
            // ZWNJ || ZWJ
            Some(CcsKind::IgnorableCombining)
        } else if is_combining_mark(tables, c) {
            if is_default_ignorable_mark(tables, c) {
                Some(CcsKind::IgnorableCombining)
            } else {
                Some(CcsKind::NonIgnorableCombining)
            }
        } else if not_in_ccs(tables, c) {
            None
        } else {
            Some(CcsKind::Base)
        }
    }
}

/// The text `s` with a no-break space in front of every defective combining
/// character sequence, unless the sequence holds default-ignorable
/// characters only.
///
/// `in_ccs` tells whether the character in front of `s` is part of a
/// combining character sequence; `pending` are default-ignorable combining
/// characters in front of `s` that began a sequence without a base.
pub open spec fn corrected(tables: &Tables, in_ccs: bool, pending: Seq<char>, s: Seq<char>) -> Seq<
    char,
>
    decreases s.len(),
{
    if s.len() == 0 {
        pending
    } else if in_ccs {
        seq![s[0]] + corrected(
            tables,
            !not_in_ccs_in(tables, s[0]),
            Seq::<char>::empty(),
            s.skip(1),
        )
    } else {
        match ccs_kind(tables, s[0]) {
            None => pending.push(s[0]) + corrected(
                tables,
                false,
                Seq::<char>::empty(),
                s.skip(1),
            ),
            Some(CcsKind::Base) => pending.push(s[0]) + corrected(
                tables,
                true,
                Seq::<char>::empty(),
                s.skip(1),
            ),
            Some(CcsKind::NonIgnorableCombining) => seq![NO_BREAK_SPACE] + pending.push(s[0])
                + corrected(tables, true, Seq::<char>::empty(), s.skip(1)),
            Some(CcsKind::IgnorableCombining) => corrected(
                tables,
                false,
                pending.push(s[0]),
                s.skip(1),
            ),
        }
    }
}

/// Whether a buffer ends in the marker of the end of the input.
pub open spec fn holds_end(buf: Seq<Option<char>>) -> bool {
    buf.len() > 0 && buf.last() is None
}

/// The characters of a buffer, in front of the end marker if it holds one.
pub open spec fn buffered(buf: Seq<Option<char>>) -> Seq<char> {
    Seq::new(
        if holds_end(buf) {
            (buf.len() - 1) as nat
        } else {
            buf.len()
        },
        |i: int| buf[i]->0,
    )
}

/// An iterator over the string that corrects
/// [defective combining character sequences](https://www.unicode.org/versions/Unicode15.0.0/UnicodeStandard-15.0.pdf#I6.1.36487)
/// by inserting U+00A0 NO-BREAK SPACE in front of them.
///
/// For the purposes of this iterator, private use characters,
/// as well as unassigned codepoints other than noncharacters,
/// are considered valid base characters,
/// so combining character sequences that start with such will not be modified.
///
/// In addition, combining character sequences that consist entirely of `Default_Ignorable_Code_Point`s
/// will not be modified. (Because of this, this iterator may buffer up to the entire length of its input;
/// it is *not* "stream-safe" *even if* used with `StreamSafe`).
pub struct CorrectDefectiveCcs<'a, I> {
    tables: &'a Tables,
    /// Whether the last character emitted was part of a CCS.
    in_ccs: bool,
    buffer: VecDeque<Option<char>>,
    /// Whether the last character in `buffer` is part of a CCS.
    /// (Updated only when `is_ccs` is set from false to true).
    end_of_buffer_in_ccs: bool,
    iter: I,
}

impl<'a, I: CharStream> CorrectDefectiveCcs<'a, I> {
    /// A stage that yields `iter` with its defective sequences corrected.
    pub fn new(tables: &'a Tables, iter: I) -> (stage: Self)
        requires
            tables.wf(),
            iter.wf(),
        ensures
            stage.wf(),
            stage.remaining() == corrected(tables, false, Seq::<char>::empty(), iter.remaining()),
            stage.source() == iter,
    {
        CorrectDefectiveCcs {
            tables,
            in_ccs: false,
            buffer: VecDeque::new(),
            end_of_buffer_in_ccs: false,
            iter,
        }
    }

    /// The stream that this stage reads.
    pub closed spec fn source(&self) -> I {
        self.iter
    }

    /// The stream that this stage reads.
    pub fn get_ref(&self) -> (iter: &I)
        ensures
            *iter == self.source(),
    {
        &self.iter
    }

    /// Whether the stage holds characters ready: it hands them out before
    /// it reads its source again.
    pub closed spec fn holds_ready(&self) -> bool {
        self.in_ccs && self.buffer@.len() > 0
    }

    // What holds of the fields while a call collects default-ignorable
    // characters: the buffer holds them, and nothing else.
    spec fn collecting(&self) -> bool {
        &&& self.tables.wf()
        &&& self.iter.wf()
        &&& !self.in_ccs
        &&& forall|i: int| 0 <= i < self.buffer@.len() ==> self.buffer@[i] is Some
    }
}

impl<'a, I: CharStream> CharStream for CorrectDefectiveCcs<'a, I> {
    closed spec fn wf(&self) -> bool {
        &&& self.tables.wf()
        &&& self.iter.wf()
        &&& !self.in_ccs ==> self.buffer@.len() == 0
        &&& forall|i: int| 0 <= i < self.buffer@.len() - 1 ==> self.buffer@[i] is Some
        &&& holds_end(self.buffer@) ==> self.iter.remaining().len() == 0
            && !self.end_of_buffer_in_ccs
    }

    closed spec fn remaining(&self) -> Seq<char> {
        if self.buffer@.len() > 0 {
            buffered(self.buffer@) + if holds_end(self.buffer@) {
                Seq::<char>::empty()
            } else {
                corrected(
                    self.tables,
                    self.end_of_buffer_in_ccs,
                    Seq::<char>::empty(),
                    self.iter.remaining(),
                )
            }
        } else {
            corrected(self.tables, self.in_ccs, Seq::<char>::empty(), self.iter.remaining())
        }
    }

    fn next(&mut self) -> (c: Option<char>)
        ensures
            old(self).holds_ready() ==> final(self).source() == old(self).source(),
    {
        let ghost out = self.remaining();
        let ghost held = self.buffer@;
        let ghost input = self.iter.remaining();
        if self.in_ccs {
            if let Some(c) = self.buffer.pop_front() {
                // Empty buffer

                if self.buffer.len() == 0 {
                    self.in_ccs = self.end_of_buffer_in_ccs;
                }
                proof {
                    let now = self.buffer@;
                    assert(now =~= held.skip(1));
                    if c is Some {
                        assert(buffered(held) =~= seq![c->0] + buffered(now));
                        assert(self.remaining() =~= out.skip(1));
                    } else {
                        assert(held.len() == 1);
                        assert(buffered(held) =~= Seq::<char>::empty());
                        assert(out =~= Seq::<char>::empty());
                        assert(self.remaining() =~= out);
                    }
                }
                c
            } else {
                // Forward from inner iterator

                let c = self.iter.next();
                match c {
                    Some(ch) => {
                        if not_in_ccs(self.tables, ch) {
                            self.in_ccs = false;
                        }
                        proof {
                            let after = corrected(
                                self.tables,
                                !not_in_ccs_in(self.tables, ch),
                                Seq::<char>::empty(),
                                input.skip(1),
                            );
                            assert(out =~= seq![ch] + after);
                            assert(self.remaining() =~= out.skip(1));
                        }
                    },
                    None => {
                        self.in_ccs = false;
                        proof {
                            assert(out =~= Seq::<char>::empty());
                            assert(self.remaining() =~= out);
                        }
                    },
                }
                c
            }
        } else {
            if self.buffer.len() == 0 {
                // We don't have a buffer of default ignorable combining characters built up

                let c: char = match self.iter.next() {
                    Some(c) => c,
                    None => {
                        proof {
                            assert(out =~= Seq::<char>::empty());
                        }
                        return None;
                    },
                };
                let ghost nothing = Seq::<char>::empty();
                assert(nothing.push(c) =~= seq![c]);
                match CcsKind::of(self.tables, c) {
                    // Character not in CCS, just forward it
                    None => {
                        proof {
                            let after = corrected(self.tables, false, nothing, input.skip(1));
                            assert(out =~= seq![c] + after);
                            assert(self.remaining() =~= out.skip(1));
                        }
                        return Some(c);
                    },
                    // Character starts non-defective CCS,
                    // label ourselves as in CCS and forward it
                    Some(CcsKind::Base) => {
                        self.in_ccs = true;
                        proof {
                            let after = corrected(self.tables, true, nothing, input.skip(1));
                            assert(out =~= seq![c] + after);
                            assert(self.remaining() =~= out.skip(1));
                        }
                        return Some(c);
                    },
                    // Character starts defective CCS and is not default-ignorable.
                    // Put it in the buffer to emit on next iteration,
                    // mark ourselves as in CCS,
                    // and emit NO-BREAK SPACE
                    Some(CcsKind::NonIgnorableCombining) => {
                        self.in_ccs = true;
                        self.end_of_buffer_in_ccs = true;
                        self.buffer.push_back(Some(c));
                        proof {
                            let after = corrected(self.tables, true, nothing, input.skip(1));
                            assert(out =~= seq![NO_BREAK_SPACE] + seq![c] + after);
                            assert(buffered(self.buffer@) =~= seq![c]);
                            assert(self.remaining() =~= out.skip(1));
                        }
                        return Some(NO_BREAK_SPACE);
                    },
                    // Character starts defective CCS and is default-ignorable.
                    // Put it in the buffer, and fall through to loop below
                    // to find out whether we emit a NO-BREAK SPACE first.
                    Some(CcsKind::IgnorableCombining) => {
                        self.buffer.push_back(Some(c));
                        proof {
                            assert(buffered(self.buffer@) =~= nothing.push(c));
                        }
                    },
                }
            }
            loop
                invariant
                    self.collecting(),
                    !old(self).in_ccs,
                    self.buffer@.len() > 0,
                    corrected(self.tables, false, buffered(self.buffer@), self.iter.remaining())
                        == old(self).remaining(),
                decreases self.iter.remaining().len(),
            {
                // We do have a buffer of default ignorable combining characters built up,
                // and we need to figure out whether to emit a NO-BREAK SPACE first.
                let ghost out = old(self).remaining();
                let ghost pending = buffered(self.buffer@);
                let ghost before = self.buffer@;
                let ghost input = self.iter.remaining();
                assert(pending =~= Seq::new(before.len(), |i: int| before[i]->0));
                let c = self.iter.next();
                let kind: Option<CcsKind> = match c {
                    Some(ch) => CcsKind::of(self.tables, ch),
                    None => None,
                };
                let ghost nothing = Seq::<char>::empty();
                match kind {
                    // Inner iterator yielded character outside CCS (or `None`).
                    // Emit the built-up buffer with no leading NO-BREAK SPACE.
                    None => {
                        self.in_ccs = true;
                        self.end_of_buffer_in_ccs = false;
                        let ret = self.buffer.pop_front();
                        self.buffer.push_back(c);
                        proof {
                            let now = self.buffer@;
                            assert(now =~= before.skip(1).push(c));
                            if c is Some {
                                let after = corrected(self.tables, false, nothing, input.skip(1));
                                assert(out =~= pending.push(c->0) + after);
                                assert(buffered(now) =~= pending.skip(1).push(c->0));
                                assert(self.remaining() =~= out.skip(1));
                            } else {
                                assert(out =~= pending);
                                assert(buffered(now) =~= pending.skip(1));
                                assert(self.remaining() =~= out.skip(1));
                            }
                        }
                        return ret.unwrap();
                    },
                    // Inner iterator yielded character that starts a new CCS.
                    // Emit the built-up buffer with no leading NO-BREAK SPACE.
                    Some(CcsKind::Base) => {
                        self.in_ccs = true;
                        self.end_of_buffer_in_ccs = true;
                        let ret = self.buffer.pop_front();
                        self.buffer.push_back(c);
                        proof {
                            let now = self.buffer@;
                            assert(now =~= before.skip(1).push(c));
                            let after = corrected(self.tables, true, nothing, input.skip(1));
                            assert(out =~= pending.push(c->0) + after);
                            assert(buffered(now) =~= pending.skip(1).push(c->0));
                            assert(self.remaining() =~= out.skip(1));
                        }
                        return ret.unwrap();
                    },
                    // Inner iterator yielded non-ignorable combining character.
                    // Emit the built-up buffer with leading NO-BREAK SPACE.
                    Some(CcsKind::NonIgnorableCombining) => {
                        self.in_ccs = true;
                        self.end_of_buffer_in_ccs = true;
                        self.buffer.push_back(c);
                        proof {
                            let now = self.buffer@;
                            let after = corrected(self.tables, true, nothing, input.skip(1));
                            assert(out =~= seq![NO_BREAK_SPACE] + pending.push(c->0) + after);
                            assert(buffered(now) =~= pending.push(c->0));
                            assert(self.remaining() =~= out.skip(1));
                        }
                        return Some(NO_BREAK_SPACE);
                    },
                    // Inner iterator yielded ignorable combining character.
                    // Add it to the buffer, don't emit anything.
                    Some(CcsKind::IgnorableCombining) => {
                        self.buffer.push_back(c);
                        proof {
                            assert(buffered(self.buffer@) =~= pending.push(c->0));
                        }
                    },
                }
            }
        }
    }
}

} // verus!
