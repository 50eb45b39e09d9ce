//! The Stream-Safe Text Process: combining grapheme joiners keep every run of
//! non-starters within a fixed length.

use crate::normalize::{
    hangul_decomposition, is_ascii, is_hangul_syllable, S_BASE, S_COUNT, T_COUNT,
};
use crate::perfect_hash::{
    canonical_combining_class, canonical_decomposition_of, canonical_fully_decomposed,
    combining_class_of, compatibility_decomposition_of, compatibility_fully_decomposed,
    stream_safe_trailing_nonstarters, trailing_nonstarters_of,
};
use crate::recompose::{option_seq, COMBINING_GRAPHEME_JOINER};
use crate::stream::CharStream;
use crate::tables::Tables;
use vstd::prelude::*;

verus! {

/// The longest run of non-starters that a stream-safe text holds.
pub const MAX_NONSTARTERS: usize = 30;

/// How the compatibility decomposition of a character begins and ends.
#[derive(Clone, Copy)]
pub struct Decomposition {
    /// The number of non-starters in front of its first starter.
    pub leading_nonstarters: usize,
    /// The number of non-starters behind its last starter.
    pub trailing_nonstarters: usize,
    /// Its length.
    pub decomposition_len: usize,
}

/// The number of characters of non-zero class that follow one another in
/// `d` from index `from` on.
pub open spec fn nonstarters_from(tables: &Tables, d: Seq<char>, from: int) -> nat
    decreases d.len() - from,
{
    if from < 0 || from >= d.len() || combining_class_of(tables, d[from]) == 0 {
        0
    } else {
        1 + nonstarters_from(tables, d, from + 1)
    }
}

/// The number of characters of non-zero class that `d` begins with.
pub open spec fn leading_nonstarters_in(tables: &Tables, d: Seq<char>) -> nat {
    nonstarters_from(tables, d, 0)
}

/// How the compatibility decomposition of `c` begins and ends.
#[verifier::opaque]
pub open spec fn classification(tables: &Tables, c: char) -> Decomposition {
    if is_ascii(c) {
        Decomposition { leading_nonstarters: 0, trailing_nonstarters: 0, decomposition_len: 1 }
    } else if is_hangul_syllable(c) {
        Decomposition {
            leading_nonstarters: 0,
            trailing_nonstarters: 0,
            decomposition_len: hangul_decomposition(c).len() as usize,
        }
    } else {
        let found = match compatibility_decomposition_of(tables, c) {
            Some(d) => Some(d),
            None => canonical_decomposition_of(tables, c),
        };
        match found {
            Some(d) => Decomposition {
                leading_nonstarters: leading_nonstarters_in(tables, d) as usize,
                trailing_nonstarters: trailing_nonstarters_of(tables, c) as usize,
                decomposition_len: d.len() as usize,
            },
            None => {
                let nonstarter: usize = if combining_class_of(tables, c) != 0 {
                    1
                } else {
                    0
                };
                Decomposition {
                    leading_nonstarters: nonstarter,
                    trailing_nonstarters: nonstarter,
                    decomposition_len: 1,
                }
            },
        }
    }
}

/// The length of the run of non-starters that ends a text, after a character
/// classified as `d` has been added to a text that ended in a run of `count`.
pub open spec fn run_after(count: nat, d: Decomposition) -> nat {
    if d.leading_nonstarters == d.decomposition_len {
        (count + d.decomposition_len) as nat
    } else {
        d.trailing_nonstarters as nat
    }
}

/// The stream-safe form of `s`, where `s` follows a text that ends in a run
/// of `count` non-starters: a combining grapheme joiner stands in front of
/// each character that would make a run longer than `MAX_NONSTARTERS`.
pub open spec fn stream_safe_from(tables: &Tables, count: nat, s: Seq<char>) -> Seq<char>
    decreases s.len(),
{
    if s.len() == 0 {
        Seq::<char>::empty()
    } else {
        let d = classification(tables, s[0]);
        if count + d.leading_nonstarters > MAX_NONSTARTERS {
            seq![COMBINING_GRAPHEME_JOINER, s[0]] + stream_safe_from(
                tables,
                run_after(0, d),
                s.skip(1),
            )
        } else {
            seq![s[0]] + stream_safe_from(tables, run_after(count, d), s.skip(1))
        }
    }
}

/// The stream-safe form of a whole text.
pub open spec fn stream_safe_form(tables: &Tables, s: Seq<char>) -> Seq<char> {
    stream_safe_from(tables, 0, s)
}

/// Whether the runs of non-starters of `t` stay within `MAX_NONSTARTERS`,
/// where `t` follows a text that ends in a run of `count` non-starters.
pub open spec fn runs_bounded(tables: &Tables, count: nat, t: Seq<char>) -> bool
    decreases t.len(),
{
    if t.len() == 0 {
        true
    } else {
        let d = classification(tables, t[0]);
        count + d.leading_nonstarters <= MAX_NONSTARTERS && runs_bounded(
            tables,
            run_after(count, d),
            t.skip(1),
        )
    }
}

/// Whether the tables classify every character within the bound, and the
/// combining grapheme joiner as a starter that ends every run.
pub open spec fn joiner_ends_runs(tables: &Tables) -> bool {
    &&& forall|c: char|
        (#[trigger] classification(tables, c)).leading_nonstarters <= MAX_NONSTARTERS
            && classification(tables, c).trailing_nonstarters <= MAX_NONSTARTERS
    &&& classification(tables, COMBINING_GRAPHEME_JOINER).leading_nonstarters == 0
    &&& classification(tables, COMBINING_GRAPHEME_JOINER).trailing_nonstarters == 0
    &&& classification(tables, COMBINING_GRAPHEME_JOINER).decomposition_len > 0
}

/// In the stream-safe form of a text no run of non-starters is longer than
/// `MAX_NONSTARTERS`.
pub proof fn lemma_stream_safe_bounds_runs(tables: &Tables, count: nat, s: Seq<char>)
    requires
        joiner_ends_runs(tables),
        count <= MAX_NONSTARTERS,
    ensures
        runs_bounded(tables, count, stream_safe_from(tables, count, s)),
    decreases s.len(),
{
    if s.len() > 0 {
        let d = classification(tables, s[0]);
        let joiner = classification(tables, COMBINING_GRAPHEME_JOINER);
        if count + d.leading_nonstarters > MAX_NONSTARTERS {
            let tail = stream_safe_from(tables, run_after(0, d), s.skip(1));
            let out = seq![COMBINING_GRAPHEME_JOINER, s[0]] + tail;
            lemma_stream_safe_bounds_runs(tables, run_after(0, d), s.skip(1));
            assert(out[0] == COMBINING_GRAPHEME_JOINER);
            assert(out.skip(1)[0] == s[0]);
            assert(out.skip(1).skip(1) =~= tail);
            assert(run_after(count, joiner) == 0);
            assert(runs_bounded(tables, 0, out.skip(1)));
        } else {
            let tail = stream_safe_from(tables, run_after(count, d), s.skip(1));
            let out = seq![s[0]] + tail;
            lemma_stream_safe_bounds_runs(tables, run_after(count, d), s.skip(1));
            assert(out[0] == s[0]);
            assert(out.skip(1) =~= tail);
        }
    }
}

/// The stream-safe process leaves a text as it is whose runs of
/// non-starters stay within the bound.
pub proof fn lemma_stream_safe_of_bounded(tables: &Tables, count: nat, s: Seq<char>)
    requires
        runs_bounded(tables, count, s),
    ensures
        stream_safe_from(tables, count, s) == s,
    decreases s.len(),
{
    if s.len() > 0 {
        let d = classification(tables, s[0]);
        lemma_stream_safe_of_bounded(tables, run_after(count, d), s.skip(1));
        assert(seq![s[0]] + s.skip(1) =~= s);
    }
}

/// The stream-safe process is idempotent.
pub proof fn lemma_stream_safe_idempotent(tables: &Tables, s: Seq<char>)
    requires
        joiner_ends_runs(tables),
    ensures
        stream_safe_form(tables, stream_safe_form(tables, s)) == stream_safe_form(tables, s),
{
    lemma_stream_safe_bounds_runs(tables, 0, s);
    lemma_stream_safe_of_bounded(tables, 0, stream_safe_form(tables, s));
}

/// The length of the decomposition of a precomposed Hangul syllable.
pub fn hangul_decomposition_length(s: char) -> (n: usize)
    requires
        is_hangul_syllable(s),
    ensures
        n == hangul_decomposition(s).len(),
{
    let si: u32 = s as u32 - S_BASE;
    let ti: u32 = si % T_COUNT;
    if ti > 0 {
        3
    } else {
        2
    }
}

fn leading_nonstarters(tables: &Tables, d: &[char]) -> (n: usize)
    requires
        tables.wf(),
    ensures
        n == leading_nonstarters_in(tables, d@),
        n <= d@.len(),
{
    let mut i: usize = 0;
    while i < d.len()
        invariant
            tables.wf(),
            i <= d@.len(),
            nonstarters_from(tables, d@, 0) == i + nonstarters_from(tables, d@, i as int),
        decreases d.len() - i,
    {
        let class: u8 = canonical_combining_class(tables, d[i]);
        if class == 0 {
            return i;
        }
        i = i + 1;
    }
    i
}

/// Classifies `c` by the non-starters at both ends of its compatibility
/// decomposition.
pub fn classify_nonstarters(tables: &Tables, c: char) -> (d: Decomposition)
    requires
        tables.wf(),
    ensures
        d == classification(tables, c),
        d.leading_nonstarters <= d.decomposition_len <= u16::MAX,
        d.trailing_nonstarters <= u8::MAX,
{
    reveal(classification);
    // As usual, fast path for ASCII (which is always a starter)
    if c <= '\x7f' {
        return Decomposition {
            leading_nonstarters: 0,
            trailing_nonstarters: 0,
            decomposition_len: 1,
        };
    }
    // Next, special case Hangul, since it's not handled by our tables.

    if (c as u32) >= S_BASE && (c as u32) < (S_BASE + S_COUNT) {
        return Decomposition {
            leading_nonstarters: 0,
            trailing_nonstarters: 0,
            decomposition_len: hangul_decomposition_length(c),
        };
    }
    let decomp: Option<&[char]> = match compatibility_fully_decomposed(tables, c) {
        Some(d) => Some(d),
        None => canonical_fully_decomposed(tables, c),
    };
    match decomp {
        Some(decomp) => Decomposition {
            leading_nonstarters: leading_nonstarters(tables, decomp),
            trailing_nonstarters: stream_safe_trailing_nonstarters(tables, c),
            decomposition_len: decomp.len(),
        },
        None => {
            let is_nonstarter: bool = canonical_combining_class(tables, c) != 0;
            let nonstarter: usize = if is_nonstarter {
                1
            } else {
                0
            };
            Decomposition {
                leading_nonstarters: nonstarter,
                trailing_nonstarters: nonstarter,
                decomposition_len: 1,
            }
        },
    }
}

/// An iterator over the string with Conjoining Grapheme Joiner characters
/// inserted according to the Stream-Safe Text Process.
pub struct StreamSafe<'a, I> {
    tables: &'a Tables,
    iter: I,
    nonstarter_count: usize,
    buffer: Option<char>,
}

impl<'a, I: CharStream> StreamSafe<'a, I> {
    /// A stage that yields the stream-safe form of `iter`.
    pub fn new(tables: &'a Tables, iter: I) -> (stage: StreamSafe<'a, I>)
        requires
            tables.wf(),
            iter.wf(),
        ensures
            stage.wf(),
            stage.remaining() == stream_safe_form(tables, iter.remaining()),
            stage.source() == iter,
    {
        let stage = StreamSafe { tables, iter, nonstarter_count: 0, buffer: None };
        proof {
            let out = stream_safe_form(tables, iter.remaining());
            assert(Seq::<char>::empty() + out =~= out);
        }
        stage
    }

    /// The stream that this stage reads.
    pub closed spec fn source(&self) -> I {
        self.iter
    }

    /// The stream that this stage reads.
    pub fn get_ref(&self) -> (iter: &I)
        ensures
            *iter == self.source(),
    {
        &self.iter
    }

    /// The character that the stage holds back behind a joiner: it hands it
    /// out before it reads its source again.
    pub closed spec fn held(&self) -> Option<char> {
        self.buffer
    }
}

impl<'a, I: CharStream> CharStream for StreamSafe<'a, I> {
    closed spec fn wf(&self) -> bool {
        &&& self.tables.wf()
        &&& self.iter.wf()
        &&& self.nonstarter_count <= u16::MAX
    }

    closed spec fn remaining(&self) -> Seq<char> {
        option_seq(self.buffer) + stream_safe_from(
            self.tables,
            self.nonstarter_count as nat,
            self.iter.remaining(),
        )
    }

    fn next(&mut self) -> (c: Option<char>)
        ensures
            old(self).held() is Some ==> final(self).source() == old(self).source(),
            old(self).held() is None && old(self).source().remaining().len() > 0 ==> final(self).source().remaining() == old(self).source().remaining().skip(1),
    {
        let ghost out = self.remaining();
        if let Some(ch) = self.buffer {
            self.buffer = None;
            proof {
                assert(self.remaining() =~= out.skip(1));
            }
            return Some(ch);
        }
        let next_ch: char = match self.iter.next() {
            None => {
                proof {
                    assert(self.remaining() =~= out);
                    assert(out =~= Seq::<char>::empty());
                }
                return None;
            },
            Some(c) => c,
        };
        let d = classify_nonstarters(self.tables, next_ch);
        if self.nonstarter_count + d.leading_nonstarters > MAX_NONSTARTERS {
            // The joiner ends the run; the character that follows it starts
            // the count anew.
            self.buffer = Some(next_ch);
            self.nonstarter_count = if d.leading_nonstarters == d.decomposition_len {
                d.decomposition_len
            } else {
                d.trailing_nonstarters
            };
            proof {
                assert(self.remaining() =~= out.skip(1));
            }
            return Some(COMBINING_GRAPHEME_JOINER);
        }
        // No starters in the decomposition, so keep accumulating

        if d.leading_nonstarters == d.decomposition_len {
            self.nonstarter_count += d.decomposition_len;
        } else {
            // Otherwise, restart the nonstarter counter.
            self.nonstarter_count = d.trailing_nonstarters;
        }
        proof {
            assert(self.remaining() =~= out.skip(1));
        }
        Some(next_ch)
    }
}

} // verus!
