//! Stages that insert Hangul filler characters, so that every Korean
//! syllable block is in standard form.

use crate::normalize::{N_COUNT, S_BASE, T_COUNT};
use crate::small_vec::{array_entries, array_entries_new, array_entries_pop, array_entries_push};
use crate::stream::CharStream;
use tinyvec::ArrayVec;
use vstd::prelude::*;

verus! {

/// HANGUL CHOSEONG FILLER, which stands in for a missing leading consonant.
pub const CHOSEONG_FILLER: char = '\u{115F}';

/// HANGUL JUNGSEONG FILLER, which stands in for a missing vowel.
pub const JUNGSEONG_FILLER: char = '\u{1160}';

/// The three kinds of conjoining jamo.
#[derive(Clone, Copy, Debug, PartialEq, Eq)]
pub enum JamoKind {
    /// A leading consonant.
    L,
    /// A vowel.
    V,
    /// A trailing consonant.
    T,
}

/// The kind of jamo that `c` begins with and the kind that it ends with:
/// a jamo begins and ends with itself, a precomposed syllable begins with a
/// leading consonant and ends with a vowel or a trailing consonant.
pub open spec fn jamo_kinds(c: char) -> (Option<JamoKind>, Option<JamoKind>) {
    let u = c as u32;
    if (0x1100 <= u && u <= 0x115F) || (0xA960 <= u && u <= 0xA97C) {
        (Some(JamoKind::L), Some(JamoKind::L))
    } else if (0x1160 <= u && u <= 0x11A7) || (0xD7B0 <= u && u <= 0xD7C6) {
        (Some(JamoKind::V), Some(JamoKind::V))
    } else if (0x11A8 <= u && u <= 0x11FF) || (0xD7CB <= u && u <= 0xD7FB) {
        (Some(JamoKind::T), Some(JamoKind::T))
    } else if 0xAC00 <= u && u <= 0xD7A3 {
        (
            Some(JamoKind::L),
            Some(
                if ((u - S_BASE) % (N_COUNT as int)) % (T_COUNT as int) == 0 {
                    JamoKind::V
                } else {
                    JamoKind::T
                },
            ),
        )
    } else {
        (None, None)
    }
}

impl JamoKind {
    /// The kind of jamo that `c` begins with and the kind that it ends with.
    pub fn of(c: char) -> (kinds: (Option<JamoKind>, Option<JamoKind>))
        ensures
            kinds == jamo_kinds(c),
    {
        let u: u32 = c as u32;
        if (0x1100 <= u && u <= 0x115F) || (0xA960 <= u && u <= 0xA97C) {
            // L
            (Some(JamoKind::L), Some(JamoKind::L))
        } else if (0x1160 <= u && u <= 0x11A7) || (0xD7B0 <= u && u <= 0xD7C6) {
            // V
            (Some(JamoKind::V), Some(JamoKind::V))
        } else if (0x11A8 <= u && u <= 0x11FF) || (0xD7CB <= u && u <= 0xD7FB) {
            // T
            (Some(JamoKind::T), Some(JamoKind::T))
        } else if 0xAC00 <= u && u <= 0xD7A3 {
            // LV or LVT
            (
                Some(JamoKind::L),
                Some(
                    if ((u - S_BASE) % N_COUNT) % T_COUNT == 0 {
                        // LV
                        JamoKind::V
                    } else {
                        // LVT
                        JamoKind::T
                    },
                ),
            )
        } else {
            (None, None)
        }
    }
}

/// What the vector holds after `fillers` and `next_c` have been emitted
/// but for the first of them: the rest, last first.
pub open spec fn stacked_behind(fillers: Seq<char>, next_c: Option<char>, buf: Seq<Option<char>>) -> bool {
    &&& buf.len() == fillers.len()
    &&& fillers.len() > 0 ==> buf[0] == next_c
    &&& forall|i: int| 0 < i < fillers.len() ==> buf[fillers.len() - i] == Some(fillers[i])
}

/// A set of rules on which fillers stand between two characters.
pub trait NormalizeKoreanSyllables {
    /// The fillers to insert between a character that ends with a jamo of
    /// kind `prev_end` and one that begins with a jamo of kind `next_start`,
    /// where `None` stands for anything but a jamo.
    spec fn fillers(prev_end: Option<JamoKind>, next_start: Option<JamoKind>) -> Seq<char>;

    /// At most three fillers stand between two characters, and none between
    /// two characters that are no jamo.
    proof fn lemma_fillers_bounded(prev_end: Option<JamoKind>, next_start: Option<JamoKind>)
        ensures
            Self::fillers(prev_end, next_start).len() <= 3,
            Self::fillers(None, None).len() == 0,
    ;

    /// Returns the first of the fillers and `next_c`, and leaves the rest
    /// in `buf`, last first.
    fn insert_fillers(
        next_c: Option<char>,
        prev_end_jamo_kind: Option<JamoKind>,
        next_start_jamo_kind: Option<JamoKind>,
        buf: &mut ArrayVec<[Option<char>; 3]>,
    ) -> (first: Option<char>)
        requires
            array_entries(*old(buf)).len() == 0,
        ensures
            stacked_behind(
                Self::fillers(prev_end_jamo_kind, next_start_jamo_kind),
                next_c,
                array_entries(*final(buf)),
            ),
            first == if Self::fillers(prev_end_jamo_kind, next_start_jamo_kind).len() > 0 {
                Some(Self::fillers(prev_end_jamo_kind, next_start_jamo_kind)[0])
            } else {
                next_c
            },
    ;
}

/// The characters that leave `buf` before an end marker does, last pushed first.
pub open spec fn drained(buf: Seq<Option<char>>) -> Seq<char>
    decreases buf.len(),
{
    if buf.len() == 0 {
        Seq::<char>::empty()
    } else {
        match buf.last() {
            Some(c) => seq![c] + drained(buf.drop_last()),
            None => Seq::<char>::empty(),
        }
    }
}

/// Whether `buf` holds an end marker.
pub open spec fn holds_end(buf: Seq<Option<char>>) -> bool {
    buf.len() > 0 && buf[0] is None
}

/// `s` with the fillers of the rules `N` inserted, where `s` follows a
/// character that ends with a jamo of kind `prev`.
pub open spec fn standardized<N: NormalizeKoreanSyllables>(prev: Option<JamoKind>, s: Seq<char>) -> Seq<char>
    decreases s.len(),
{
    if s.len() == 0 {
        N::fillers(prev, None)
    } else {
        N::fillers(prev, jamo_kinds(s[0]).0).push(s[0]) + standardized::<N>(
            jamo_kinds(s[0]).1,
            s.skip(1),
        )
    }
}

// What leaves a vector that was filled behind the first of `fillers` and `next_c`.
proof fn lemma_drained_stack(fillers: Seq<char>, next_c: Option<char>, buf: Seq<Option<char>>)
    requires
        stacked_behind(fillers, next_c, buf),
        0 < fillers.len() <= 3,
    ensures
        drained(buf) == fillers.skip(1) + crate::recompose::option_seq(next_c),
{
    reveal_with_fuel(drained, 5);
    let n = fillers.len() as int;
    if n == 1 {
        assert(buf.drop_last().len() == 0);
    } else if n == 2 {
        assert(buf.last() == Some(fillers[1]));
        assert(buf.drop_last().last() == next_c);
        assert(buf.drop_last().drop_last().len() == 0);
    } else {
        assert(buf.last() == Some(fillers[1]));
        assert(buf.drop_last().last() == Some(fillers[2]));
        assert(buf.drop_last().drop_last().last() == next_c);
        assert(buf.drop_last().drop_last().drop_last().len() == 0);
    }
    assert(drained(buf) =~= fillers.skip(1) + crate::recompose::option_seq(next_c));
}

/// A stage that inserts fillers by the rules `N`.
pub struct StandardizeKoreanSyllablesInner<I, N> {
    prev_end_jamo_kind: Option<JamoKind>,
    buf: ArrayVec<[Option<char>; 3]>,
    inner: I,
    normalizer: N,
}

impl<I: CharStream, N: NormalizeKoreanSyllables> StandardizeKoreanSyllablesInner<I, N> {
    /// A stage that yields `iter` with the fillers of `normalizer` inserted.
    pub fn new(iter: I, normalizer: N) -> (stage: Self)
        requires
            iter.wf(),
        ensures
            stage.wf(),
            stage.remaining() == standardized::<N>(None, iter.remaining()),
            stage.source() == iter,
    {
        let stage = StandardizeKoreanSyllablesInner {
            prev_end_jamo_kind: None,
            buf: array_entries_new(),
            inner: iter,
            normalizer,
        };
        proof {
            let out = standardized::<N>(None, iter.remaining());
            assert(Seq::<char>::empty() + out =~= out);
        }
        stage
    }

    /// The stream that this stage reads.
    pub closed spec fn source(&self) -> I {
        self.inner
    }

    /// The stream that this stage reads.
    pub fn get_ref(&self) -> (iter: &I)
        ensures
            *iter == self.source(),
    {
        &self.inner
    }

    /// Whether the stage holds characters ready: it hands them out before
    /// it reads its source again.
    pub closed spec fn holds_ready(&self) -> bool {
        array_entries(self.buf).len() > 0
    }
}

impl<I: CharStream, N: NormalizeKoreanSyllables> CharStream for StandardizeKoreanSyllablesInner<
    I,
    N,
> {
    closed spec fn wf(&self) -> bool {
        &&& self.inner.wf()
        &&& array_entries(self.buf).len() <= 3
        &&& forall|i: int| 0 < i < array_entries(self.buf).len() ==> array_entries(self.buf)[i] is Some
        &&& holds_end(array_entries(self.buf)) ==> self.inner.remaining().len() == 0
            && self.prev_end_jamo_kind is None
    }

    closed spec fn remaining(&self) -> Seq<char> {
        drained(array_entries(self.buf)) + if holds_end(array_entries(self.buf)) {
            Seq::<char>::empty()
        } else {
            standardized::<N>(self.prev_end_jamo_kind, self.inner.remaining())
        }
    }

    fn next(&mut self) -> (c: Option<char>)
        ensures
            old(self).holds_ready() ==> final(self).source() == old(self).source(),
            !old(self).holds_ready() && old(self).source().remaining().len() > 0 ==> final(self).source().remaining() == old(self).source().remaining().skip(1),
    {
        let ghost out = self.remaining();
        let ghost held = array_entries(self.buf);
        if let Some(c) = array_entries_pop(&mut self.buf) {
            proof {
                N::lemma_fillers_bounded(None, None);
                let now = array_entries(self.buf);
                assert(now == held.drop_last());
                assert forall|j: int| 0 < j < now.len() implies now[j] is Some by {
                    assert(now[j] == held[j]);
                }
                if c is Some {
                    assert(held.len() > 1 ==> held.drop_last()[0] == held[0]);
                    assert(self.remaining() =~= out.skip(1));
                } else {
                    assert(held.len() == 1);
                    assert(out =~= Seq::<char>::empty());
                    assert(self.remaining() =~= out);
                }
            }
            c
        } else {
            let ghost input = self.inner.remaining();
            let next_c = self.inner.next();
            let prev_end_jamo_kind = self.prev_end_jamo_kind;
            let (next_start_jamo_kind, next_end_jamo_kind) = match next_c {
                Some(c) => JamoKind::of(c),
                None => (None, None),
            };
            self.prev_end_jamo_kind = next_end_jamo_kind;
            let first = N::insert_fillers(
                next_c,
                prev_end_jamo_kind,
                next_start_jamo_kind,
                &mut self.buf,
            );
            proof {
                let f = N::fillers(prev_end_jamo_kind, next_start_jamo_kind);
                N::lemma_fillers_bounded(prev_end_jamo_kind, next_start_jamo_kind);
                let now = array_entries(self.buf);
                let rest = self.inner.remaining();
                if f.len() > 0 {
                    lemma_drained_stack(f, next_c, now);
                }
                assert forall|j: int| 0 < j < now.len() implies now[j] is Some by {
                    let i = f.len() - j;
                    assert(now[f.len() - i] == Some(f[i]));
                }
                if next_c is Some {
                    let tail = standardized::<N>(next_end_jamo_kind, rest);
                    assert(out =~= f.push(next_c->0) + tail);
                    if f.len() > 0 {
                        assert(self.remaining() =~= out.skip(1));
                    } else {
                        assert(self.remaining() =~= out.skip(1));
                    }
                } else {
                    assert(out =~= f);
                    if f.len() > 0 {
                        assert(self.remaining() =~= out.skip(1));
                    } else {
                        assert(self.remaining() =~= out);
                    }
                }
            }
            first
        }
    }
}

/// The filler rules of Unicode Standard Annex #29.
pub struct Uax29;

impl NormalizeKoreanSyllables for Uax29 {
    open spec fn fillers(prev_end: Option<JamoKind>, next_start: Option<JamoKind>) -> Seq<char> {
        match (prev_end, next_start) {
            // Insert choseong filler before V not preceded by L or V
            (None, Some(JamoKind::V)) | (Some(JamoKind::T), Some(JamoKind::V)) => seq![
                CHOSEONG_FILLER,
            ],
            // Insert choseong and jungseong fillers before T preceded non-jamo
            (None, Some(JamoKind::T)) => seq![CHOSEONG_FILLER, JUNGSEONG_FILLER],
            // Insert V filler between L and non-jamo
            (Some(JamoKind::L), None) => seq![JUNGSEONG_FILLER],
            // For L followed by T, insert V filler, L filler, then another V filler
            (Some(JamoKind::L), Some(JamoKind::T)) => seq![
                JUNGSEONG_FILLER,
                CHOSEONG_FILLER,
                JUNGSEONG_FILLER,
            ],
            _ => Seq::<char>::empty(),
        }
    }

    proof fn lemma_fillers_bounded(prev_end: Option<JamoKind>, next_start: Option<JamoKind>) {
    }

    fn insert_fillers(
        next_c: Option<char>,
        prev_end_jamo_kind: Option<JamoKind>,
        next_start_jamo_kind: Option<JamoKind>,
        buf: &mut ArrayVec<[Option<char>; 3]>,
    ) -> (first: Option<char>) {
        match (prev_end_jamo_kind, next_start_jamo_kind) {
            // Insert choseong filler before V not preceded by L or V
            (None, Some(JamoKind::V)) | (Some(JamoKind::T), Some(JamoKind::V)) => {
                array_entries_push(buf, next_c);
                Some(CHOSEONG_FILLER)
            },
            // Insert choseong and jungseong fillers before T preceded non-jamo
            (None, Some(JamoKind::T)) => {
                array_entries_push(buf, next_c);
                array_entries_push(buf, Some(JUNGSEONG_FILLER));
                Some(CHOSEONG_FILLER)
            },
            // Insert V filler between L and non-jamo
            (Some(JamoKind::L), None) => {
                array_entries_push(buf, next_c);
                Some(JUNGSEONG_FILLER)
            },
            // For L followed by T, insert V filler, L filler, then another V filler
            (Some(JamoKind::L), Some(JamoKind::T)) => {
                array_entries_push(buf, next_c);
                array_entries_push(buf, Some(JUNGSEONG_FILLER));
                array_entries_push(buf, Some(CHOSEONG_FILLER));
                Some(JUNGSEONG_FILLER)
            },
            _ => next_c,
        }
    }
}

/// Iterator over a string's characters, with U+115F and U+1160 inserted
/// where needed to ensure all Korean syllable blocks are in standard form
/// by [UAX29 rules](https://www.unicode.org/reports/tr29/#Standard_Korean_Syllables).
pub struct StandardizeKoreanSyllables<I>(pub StandardizeKoreanSyllablesInner<I, Uax29>);

impl<I: CharStream> StandardizeKoreanSyllables<I> {
    /// A stage that yields `iter` with fillers inserted by the UAX29 rules.
    pub fn new(iter: I) -> (stage: Self)
        requires
            iter.wf(),
        ensures
            stage.wf(),
            stage.remaining() == standardized::<Uax29>(None, iter.remaining()),
    {
        StandardizeKoreanSyllables(StandardizeKoreanSyllablesInner::new(iter, Uax29))
    }
}

impl<I: CharStream> CharStream for StandardizeKoreanSyllables<I> {
    open spec fn wf(&self) -> bool {
        self.0.wf()
    }

    open spec fn remaining(&self) -> Seq<char> {
        self.0.remaining()
    }

    fn next(&mut self) -> (c: Option<char>) {
        self.0.next()
    }
}

/// The filler rules of KS X 1026-1.
pub struct KsX1026_1;

impl NormalizeKoreanSyllables for KsX1026_1 {
    open spec fn fillers(prev_end: Option<JamoKind>, next_start: Option<JamoKind>) -> Seq<char> {
        match (prev_end, next_start) {
            // Insert choseong filler before V preceded by V, T or non-jamo
            (None, Some(JamoKind::V))
            | (Some(JamoKind::V), Some(JamoKind::V))
            | (Some(JamoKind::T), Some(JamoKind::V)) => seq![CHOSEONG_FILLER],
            // Insert choseong and jungseong fillers before T preceded by T or non-jamo
            (None, Some(JamoKind::T)) | (Some(JamoKind::T), Some(JamoKind::T)) => seq![
                CHOSEONG_FILLER,
                JUNGSEONG_FILLER,
            ],
            // Insert V filler between L and non-jamo or other L
            (Some(JamoKind::L), None) | (Some(JamoKind::L), Some(JamoKind::L)) => seq![
                JUNGSEONG_FILLER,
            ],
            // For L followed by T, insert V filler, L filler, then another V filler
            (Some(JamoKind::L), Some(JamoKind::T)) => seq![
                JUNGSEONG_FILLER,
                CHOSEONG_FILLER,
                JUNGSEONG_FILLER,
            ],
            _ => Seq::<char>::empty(),
        }
    }

    proof fn lemma_fillers_bounded(prev_end: Option<JamoKind>, next_start: Option<JamoKind>) {
    }

    fn insert_fillers(
        next_c: Option<char>,
        prev_end_jamo_kind: Option<JamoKind>,
        next_start_jamo_kind: Option<JamoKind>,
        buf: &mut ArrayVec<[Option<char>; 3]>,
    ) -> (first: Option<char>) {
        match (prev_end_jamo_kind, next_start_jamo_kind) {
            // Insert choseong filler before V preceded by V, T or non-jamo
            (None, Some(JamoKind::V))
            | (Some(JamoKind::V), Some(JamoKind::V))
            | (Some(JamoKind::T), Some(JamoKind::V)) => {
                array_entries_push(buf, next_c);
                Some(CHOSEONG_FILLER)
            },
            // Insert choseong and jungseong fillers before T preceded by T or non-jamo
            (None, Some(JamoKind::T)) | (Some(JamoKind::T), Some(JamoKind::T)) => {
                array_entries_push(buf, next_c);
                array_entries_push(buf, Some(JUNGSEONG_FILLER));
                Some(CHOSEONG_FILLER)
            },
            // Insert V filler between L and non-jamo or other L
            (Some(JamoKind::L), None) | (Some(JamoKind::L), Some(JamoKind::L)) => {
                array_entries_push(buf, next_c);
                Some(JUNGSEONG_FILLER)
            },
            // For L followed by T, insert V filler, L filler, then another V filler
            (Some(JamoKind::L), Some(JamoKind::T)) => {
                array_entries_push(buf, next_c);
                array_entries_push(buf, Some(JUNGSEONG_FILLER));
                array_entries_push(buf, Some(CHOSEONG_FILLER));
                Some(JUNGSEONG_FILLER)
            },
            _ => next_c,
        }
    }
}

/// Iterator over a string's characters, with U+115F and U+1160 inserted
/// where needed to ensure all Korean syllable blocks are in standard form
/// by [KS X 1026-1](http://std.dkuug.dk/jtc1/sc2/wg2/docs/n3422.pdf) rules.
pub struct StandardizeKoreanSyllablesKsX1026_1<I>(
    pub StandardizeKoreanSyllablesInner<I, KsX1026_1>,
);

impl<I: CharStream> StandardizeKoreanSyllablesKsX1026_1<I> {
    /// A stage that yields `iter` with fillers inserted by the KS X 1026-1 rules.
    pub fn new(iter: I) -> (stage: Self)
        requires
            iter.wf(),
        ensures
            stage.wf(),
            stage.remaining() == standardized::<KsX1026_1>(None, iter.remaining()),
    {
        StandardizeKoreanSyllablesKsX1026_1(StandardizeKoreanSyllablesInner::new(iter, KsX1026_1))
    }
}

impl<I: CharStream> CharStream for StandardizeKoreanSyllablesKsX1026_1<I> {
    open spec fn wf(&self) -> bool {
        self.0.wf()
    }

    open spec fn remaining(&self) -> Seq<char> {
        self.0.remaining()
    }

    fn next(&mut self) -> (c: Option<char>) {
        self.0.next()
    }
}

} // verus!
