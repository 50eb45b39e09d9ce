//! The normalization variants of Korean Standard KS X 1026-1.
//!
//! <http://std.dkuug.dk/jtc1/sc2/wg2/docs/n3422.pdf> Annex B

use crate::normalize::{
    char_from_u32, hangul_decomposition, is_hangul_syllable, L_BASE, N_COUNT, S_BASE, S_COUNT,
    T_COUNT, V_BASE,
};
use crate::recompose::option_seq;
use crate::small_vec::{array_chars, array_chars_new, array_chars_pop, array_chars_push};
use crate::standardize_korean_syllables::{CHOSEONG_FILLER, JUNGSEONG_FILLER};
use crate::stream::CharStream;
use tinyvec::ArrayVec;
use vstd::prelude::*;

verus! {

// § B.1.2
/// Whether `t` is a trailing consonant of old Hangul.
pub open spec fn old_jongseong(t: char) -> bool {
    (0x11C3 <= t as u32 && t as u32 <= 0x11FF) || (0xD7CB <= t as u32 && t as u32 <= 0xD7FB)
}

/// Whether `t` is a trailing consonant of old Hangul.
pub fn is_old_jongseong(t: char) -> (old: bool)
    ensures
        old == old_jongseong(t),
{
    let u: u32 = t as u32;
    (0x11C3 <= u && u <= 0x11FF) || (0xD7CB <= u && u <= 0xD7FB)
}

/// Whether `c` is a precomposed syllable without a trailing consonant.
pub open spec fn is_lv_syllable(c: char) -> bool {
    is_hangul_syllable(c) && (c as u32 - S_BASE) % (T_COUNT as int) == 0
}

/// `s` behind the character `last`, with every precomposed syllable without
/// a trailing consonant that stands right in front of an old trailing
/// consonant taken apart into its leading consonant and its vowel.
pub open spec fn split_before_old_jongseong(last: Option<char>, s: Seq<char>) -> Seq<char>
    decreases s.len(),
{
    match last {
        None => Seq::<char>::empty(),
        Some(prev) => {
            if s.len() == 0 {
                seq![prev]
            } else if is_lv_syllable(prev) && old_jongseong(s[0]) {
                hangul_decomposition(prev) + split_before_old_jongseong(Some(s[0]), s.skip(1))
            } else {
                seq![prev] + split_before_old_jongseong(Some(s[0]), s.skip(1))
            }
        },
    }
}

/// The text `s` under the rule of KS X 1026-1 annex B.1.5.
pub open spec fn recomposed_hangul(s: Seq<char>) -> Seq<char> {
    if s.len() == 0 {
        Seq::<char>::empty()
    } else {
        split_before_old_jongseong(Some(s[0]), s.skip(1))
    }
}

/// Iterator that decomposes modern Hangul LV syllables immediately followed by old Hangul T jamo
/// into a 3-character L V T sequences, as specified in KS X 1026-1 annex B.1.5.
pub struct RecomposeHangul<I> {
    /// Medial vowel of a decomposed LV syllable
    v: Option<char>,
    /// Character yielded by inner iterator in last call to its `next()`
    last: Option<char>,
    inner: I,
}

impl<I: CharStream> RecomposeHangul<I> {
    /// A stage over `iter`. It reads the first character of `iter` at once.
    pub fn new(iter: I) -> (stage: Self)
        requires
            iter.wf(),
        ensures
            stage.wf(),
            stage.remaining() == recomposed_hangul(iter.remaining()),
    {
        let mut iter = iter;
        let ghost all = iter.remaining();
        let last = iter.next();
        let stage = RecomposeHangul { v: None, last, inner: iter };
        proof {
            let out = recomposed_hangul(all);
            assert(Seq::<char>::empty() + out =~= out);
        }
        stage
    }

    /// The stream that this stage reads.
    pub closed spec fn source(&self) -> I {
        self.inner
    }

    /// The stream that this stage reads.
    pub fn get_ref(&self) -> (iter: &I)
        ensures
            *iter == self.source(),
    {
        &self.inner
    }

    /// The vowel of a syllable taken apart that the stage holds ready: it
    /// hands it out before it reads its source again.
    pub closed spec fn held(&self) -> Option<char> {
        self.v
    }
}

impl<I: CharStream> CharStream for RecomposeHangul<I> {
    closed spec fn wf(&self) -> bool {
        &&& self.inner.wf()
        &&& self.last is None ==> self.inner.remaining().len() == 0
    }

    closed spec fn remaining(&self) -> Seq<char> {
        option_seq(self.v) + split_before_old_jongseong(self.last, self.inner.remaining())
    }

    fn next(&mut self) -> (c: Option<char>)
        ensures
            old(self).held() is Some ==> final(self).source() == old(self).source(),
            old(self).held() is None && old(self).source().remaining().len() > 0 ==> final(self).source().remaining() == old(self).source().remaining().skip(1),
    {
        let ghost out = self.remaining();
        if let Some(v) = self.v {
            // If an LV syllable was decomposed in the last call to `next`,
            // yield its medial vowel.
            self.v = None;
            proof {
                assert(self.remaining() =~= out.skip(1));
            }
            Some(v)
        } else {
            let prev = self.last;
            self.last = self.inner.next();
            if let (Some(prev), Some(next)) = (prev, self.last) {
                let s_index: u32 = (prev as u32).wrapping_sub(S_BASE);
                if s_index < S_COUNT && s_index % T_COUNT == 0 && is_old_jongseong(next) {
                    // We have an LV syllable followed by an old jongseong, decompose into L V
                    assert(s_index / 588 < 19 && (s_index % 588) / 28 < 21) by (nonlinear_arith)
                        requires
                            s_index < 11172,
                    ;
                    let l = char_from_u32(L_BASE + s_index / N_COUNT);
                    self.v = char_from_u32(V_BASE + (s_index % N_COUNT) / T_COUNT);
                    proof {
                        assert(hangul_decomposition(prev) =~= seq![l->0, self.v->0]);
                        assert(self.remaining() =~= out.skip(1));
                    }
                    return l;
                }
            }
            proof {
                if prev is Some {
                    assert(self.remaining() =~= out.skip(1));
                } else {
                    assert(self.remaining() =~= out);
                }
            }
            prev
        }
    }
}

// B.2.1
pub const CP_JAMO: [char; 94] = [
    '\u{1100}', '\u{1101}', '\u{11AA}', '\u{1102}', '\u{11AC}', '\u{11AD}', '\u{1103}', '\u{1104}',
    '\u{1105}', '\u{11B0}', '\u{11B1}', '\u{11B2}', '\u{11B3}', '\u{11B4}', '\u{11B5}', '\u{111A}',
    '\u{1106}', '\u{1107}', '\u{1108}', '\u{1121}', '\u{1109}', '\u{110A}', '\u{110B}', '\u{110C}',
    '\u{110D}', '\u{110E}', '\u{110F}', '\u{1110}', '\u{1111}', '\u{1112}', '\u{1161}', '\u{1162}',
    '\u{1163}', '\u{1164}', '\u{1165}', '\u{1166}', '\u{1167}', '\u{1168}', '\u{1169}', '\u{116A}',
    '\u{116B}', '\u{116C}', '\u{116D}', '\u{116E}', '\u{116F}', '\u{1170}', '\u{1171}', '\u{1172}',
    '\u{1173}', '\u{1174}', '\u{1175}', '\u{1160}', '\u{1114}', '\u{1115}', '\u{11C7}', '\u{11C8}',
    '\u{11CC}', '\u{11CE}', '\u{11D3}', '\u{11D7}', '\u{11D9}', '\u{111C}', '\u{11DD}', '\u{11DF}',
    '\u{111D}', '\u{111E}', '\u{1120}', '\u{1122}', '\u{1123}', '\u{1127}', '\u{1129}', '\u{112B}',
    '\u{112C}', '\u{112D}', '\u{112E}', '\u{112F}', '\u{1132}', '\u{1136}', '\u{1140}', '\u{1147}',
    '\u{114C}', '\u{11F1}', '\u{11F2}', '\u{1157}', '\u{1158}', '\u{1159}', '\u{1184}', '\u{1185}',
    '\u{1188}', '\u{1191}', '\u{1192}', '\u{1194}', '\u{119E}', '\u{11A1}',
];

// § B.2.2
pub const HW_JAMO: [char; 64] = [
    '\u{1160}', '\u{1100}', '\u{1101}', '\u{11AA}', '\u{1102}', '\u{11AC}', '\u{11AD}', '\u{1103}',
    '\u{1104}', '\u{1105}', '\u{11B0}', '\u{11B1}', '\u{11B2}', '\u{11B3}', '\u{11B4}', '\u{11B5}',
    '\u{111A}', '\u{1106}', '\u{1107}', '\u{1108}', '\u{1121}', '\u{1109}', '\u{110A}', '\u{110B}',
    '\u{110C}', '\u{110D}', '\u{110E}', '\u{110F}', '\u{1110}', '\u{1111}', '\u{1112}', '\u{FFBF}',
    '\u{FFC0}', '\u{FFC1}', '\u{1161}', '\u{1162}', '\u{1163}', '\u{1164}', '\u{1165}', '\u{1166}',
    '\u{FFC8}', '\u{FFC9}', '\u{1167}', '\u{1168}', '\u{1169}', '\u{116A}', '\u{116B}', '\u{116C}',
    '\u{FFD0}', '\u{FFD1}', '\u{116D}', '\u{116E}', '\u{116F}', '\u{1170}', '\u{1171}', '\u{1172}',
    '\u{FFD8}', '\u{FFD9}', '\u{1173}', '\u{1174}', '\u{1175}', '\u{FFDD}', '\u{FFDE}', '\u{FFDF}',
];

// § B.2.3
pub const PC_JAMO: [char; 14] = [
    '\u{1100}', '\u{1102}', '\u{1103}', '\u{1105}', '\u{1106}', '\u{1107}', '\u{1109}', '\u{110B}',
    '\u{110C}', '\u{110E}', '\u{110F}', '\u{1110}', '\u{1111}', '\u{1112}',
];

/// The conjoining jamo that a Hangul compatibility character stands for,
/// and whether the character shows it in parentheses.
#[verifier::opaque]
pub open spec fn base_jamo_of(c: char) -> Option<(char, bool)> {
    let uch = c as u32;
    if 0x3131 <= uch && uch <= 0x318E {
        // Hangul compatibility letter
        Some((CP_JAMO@[uch - 0x3131], false))
    } else if 0x3200 <= uch && uch <= 0x320D {
        // Parenthesized Hangul letter
        Some((PC_JAMO@[uch - 0x3200], true))
    } else if 0x3260 <= uch && uch <= 0x326D {
        // Circled Hangul letter
        Some((PC_JAMO@[uch - 0x3260], false))
    } else if 0xFFA0 <= uch && uch <= 0xFFDF {
        // Halfwidth Hangul letter
        Some((HW_JAMO@[uch - 0xFFA0], false))
    } else {
        None
    }
}

/// Looks up the conjoining jamo that a Hangul compatibility character
/// stands for, and whether the character shows it in parentheses.
pub fn base_jamo(c: char) -> (found: Option<(char, bool)>)
    ensures
        found == base_jamo_of(c),
        match found {
            Some((jamo, parenthesized)) => parenthesized ==> 0x1100 <= jamo as u32 <= 0x1112,
            None => true,
        },
{
    reveal(base_jamo_of);
    let uch: u32 = c as u32;
    if 0x3131 <= uch && uch <= 0x318E {
        // Hangul compatibility letter
        Some((CP_JAMO[(uch - 0x3131) as usize], false))
    } else if 0x3200 <= uch && uch <= 0x320D {
        // Parenthesized Hangul letter
        Some((PC_JAMO[(uch - 0x3200) as usize], true))
    } else if 0x3260 <= uch && uch <= 0x326D {
        // Circled Hangul letter
        Some((PC_JAMO[(uch - 0x3260) as usize], false))
    } else if 0xFFA0 <= uch && uch <= 0xFFDF {
        // Halfwidth Hangul letter
        Some((HW_JAMO[(uch - 0xFFA0) as usize], false))
    } else {
        None
    }
}

/// A conjoining jamo with the fillers that make it a syllable block of its
/// own: a vowel filler behind a leading consonant, a consonant filler in
/// front of a vowel, and both fillers in front of a trailing consonant.
/// A character that is no conjoining jamo has none.
pub open spec fn syllable_block(jamo: char) -> Option<Seq<char>> {
    let u = jamo as u32;
    if 0x1100 <= u && u <= 0x115F {
        Some(seq![jamo, JUNGSEONG_FILLER])
    } else if 0x1160 <= u && u <= 0x11A7 {
        Some(seq![CHOSEONG_FILLER, jamo])
    } else if 0x11A8 <= u && u <= 0x11FF {
        Some(seq![CHOSEONG_FILLER, JUNGSEONG_FILLER, jamo])
    } else {
        None
    }
}

/// What stands for `c` once Hangul compatibility characters are written as
/// syllable blocks of conjoining jamo. A character that stands for no
/// conjoining jamo is left as it is.
pub open spec fn jamo_expansion(c: char) -> Seq<char> {
    match base_jamo_of(c) {
        None => seq![c],
        Some((jamo, parenthesized)) => match syllable_block(jamo) {
            None => seq![c],
            Some(block) => if parenthesized {
                seq!['('] + block + seq![')']
            } else {
                block
            },
        },
    }
}

/// The expansions of the characters of `s`, one after the other.
pub open spec fn expand_jamo(s: Seq<char>) -> Seq<char>
    decreases s.len(),
{
    if s.len() == 0 {
        Seq::<char>::empty()
    } else {
        jamo_expansion(s[0]) + expand_jamo(s.skip(1))
    }
}

/// The characters of `buf` in the order in which they leave it, last pushed first.
pub open spec fn popped(buf: Seq<char>) -> Seq<char>
    decreases buf.len(),
{
    if buf.len() == 0 {
        Seq::<char>::empty()
    } else {
        seq![buf.last()] + popped(buf.drop_last())
    }
}

// § B.2.4
/// Iterator that decomposes compatibility characters containing Hangul jamo
/// in a manner that avoids introducing new nonstandard jamo sequences,
/// as specified in KS X 1026-1 annex B.2.4.
pub struct NormalizeJamoKdkc<I> {
    inner: I,
    // Buffer for when a character normalizes into multiple.
    // Characters are pushed to and popped from the end.
    // Length 3 is sufficient, as the longest possible expansion
    // is for a parenthesized choseong like U+3200,
    // which expands into ['(', <choseong>, '\u{1160}', ')'] (length 4).
    // (There are no parenthesized jungseong or jongseong.)
    buf: ArrayVec<[char; 3]>,
}

impl<I: CharStream> NormalizeJamoKdkc<I> {
    /// A stage that yields `iter` with its Hangul compatibility characters expanded.
    pub fn new(iter: I) -> (stage: Self)
        requires
            iter.wf(),
        ensures
            stage.wf(),
            stage.remaining() == expand_jamo(iter.remaining()),
    {
        let stage = NormalizeJamoKdkc { inner: iter, buf: array_chars_new() };
        proof {
            let out = expand_jamo(iter.remaining());
            assert(Seq::<char>::empty() + out =~= out);
        }
        stage
    }

    /// The stream that this stage reads.
    pub closed spec fn source(&self) -> I {
        self.inner
    }

    /// The stream that this stage reads.
    pub fn get_ref(&self) -> (iter: &I)
        ensures
            *iter == self.source(),
    {
        &self.inner
    }

    /// The characters that the stage holds ready: it hands them out before
    /// it reads its source again.
    pub closed spec fn ready_chars(&self) -> Seq<char> {
        popped(array_chars(self.buf))
    }
}

impl<I: CharStream> CharStream for NormalizeJamoKdkc<I> {
    closed spec fn wf(&self) -> bool {
        &&& self.inner.wf()
        &&& array_chars(self.buf).len() <= 3
    }

    closed spec fn remaining(&self) -> Seq<char> {
        popped(array_chars(self.buf)) + expand_jamo(self.inner.remaining())
    }

    fn next(&mut self) -> (c: Option<char>)
        ensures
            old(self).ready_chars().len() > 0 ==> final(self).source() == old(self).source(),
            old(self).ready_chars().len() == 0 && old(self).source().remaining().len() > 0
                ==> final(self).source().remaining() == old(self).source().remaining().skip(1),
    {
        let ghost out = self.remaining();
        if let Some(c) = array_chars_pop(&mut self.buf) {
            // Empty buffer before yielding from underlying iterator.
            proof {
                assert(self.remaining() =~= out.skip(1));
            }
            Some(c)
        } else {
            let ch: char = match self.inner.next() {
                Some(ch) => ch,
                None => {
                    proof {
                        assert(out =~= Seq::<char>::empty());
                    }
                    return None;
                },
            };
            let ghost tail = expand_jamo(self.inner.remaining());
            assert(out =~= jamo_expansion(ch) + tail);
            // The jamo that `ch` stands for, and whether `ch` is a
            // parenthesized Hangul letter
            let (base_jamo, pf): (char, bool) = match base_jamo(ch) {
                Some(found) => found,
                None => {
                    proof {
                        assert(tail =~= out.skip(1));
                    }
                    return Some(ch);
                },
            };
            let jamo: u32 = base_jamo as u32;
            if !(0x1100 <= jamo && jamo <= 0x11FF) {
                // `ch` stands for no conjoining jamo
                proof {
                    assert(tail =~= out.skip(1));
                }
                return Some(ch);
            }
            if pf {
                assert(0x1100 <= jamo && jamo <= 0x1112);
                array_chars_push(&mut self.buf, ')');
            }
            // Insert fillers

            let first_ret: char = if jamo <= 0x115F {
                // `base_jamo` is choseong, yield a jungseong filler after
                array_chars_push(&mut self.buf, JUNGSEONG_FILLER);
                base_jamo
            } else if jamo <= 0x11A7 {
                // `base_jamo` is jungseong, yield a choseong filler before
                array_chars_push(&mut self.buf, base_jamo);
                CHOSEONG_FILLER
            } else {
                // `base_jamo` is jongseong, yield a choseong and a jungseong filler before
                array_chars_push(&mut self.buf, base_jamo);
                array_chars_push(&mut self.buf, JUNGSEONG_FILLER);
                CHOSEONG_FILLER
            };
            if pf {
                // Parenthesized Hangul letter, yield open paren before
                array_chars_push(&mut self.buf, first_ret);
                proof {
                    reveal_with_fuel(popped, 4);
                    assert(self.remaining() =~= out.skip(1));
                }
                Some('(')
            } else {
                proof {
                    reveal_with_fuel(popped, 4);
                    assert(self.remaining() =~= out.skip(1));
                }
                Some(first_ret)
            }
        }
    }
}

} // verus!
