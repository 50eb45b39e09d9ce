//! Unicode character composition and decomposition utilities
//! as described in
//! [Unicode Standard Annex #15](http://www.unicode.org/reports/tr15/).
//!
//! The normalization forms, the Stream-Safe Text Process and the quick check
//! are stages over character streams. Every stage reads the properties of
//! characters from [`tables::Tables`], which the caller provides.
//!
//! # What is proved of the forms
//!
//! Every stage hands out exactly the text that its form is defined to be.
//! Beyond that, [`canonical`] shows that the decomposed forms are in
//! canonical order and idempotent, [`stability`] that the composed forms are
//! idempotent, [`safety`] that the forms of a stream-safe text are
//! stream-safe, and [`soundness`] that a text which the quick check affirms
//! is normalized. Where such a law depends on the property tables, it names
//! what it asks of them.
//!
//! # KS X 1026-1
//!
//! Korean Standard KS X 1026-1 is an ROK government standard that corrects
//! some defects and makes some changes to the Unicode NFC, NFKC, and NFKD
//! normalization forms for certain Korean characters. The stages of
//! [`ks_x_1026_1`] support these alternate normalizations.

pub mod buffer;
pub mod canonical;
pub mod correct_ccs;
pub mod decompose;
pub mod ks_x_1026_1;
pub mod normalize;
pub mod perfect_hash;
pub mod quick_check;
pub mod recompose;
pub mod replace;
pub mod safety;
pub mod small_vec;
pub mod soundness;
pub mod stability;
pub mod standardize_korean_syllables;
pub mod stream;
pub mod stream_safe;
pub mod tables;

use crate::correct_ccs::{corrected, CorrectDefectiveCcs};
use crate::decompose::{decomposed_form, DecompositionType, Decompositions};
use crate::ks_x_1026_1::{expand_jamo, recomposed_hangul, NormalizeJamoKdkc, RecomposeHangul};
use crate::recompose::{composed_form, Recompositions};
use crate::replace::{replace_all, Replacements};
use crate::standardize_korean_syllables::{
    standardized, KsX1026_1, StandardizeKoreanSyllables, StandardizeKoreanSyllablesKsX1026_1,
    Uax29,
};
use crate::stream::CharStream;
use crate::stream_safe::{stream_safe_form, StreamSafe};
use crate::tables::Tables;
use vstd::prelude::*;

verus! {

/// Methods for iterating over character streams while applying Unicode
/// normalizations as described in
/// [Unicode Standard Annex #15](http://www.unicode.org/reports/tr15/).
pub trait UnicodeNormalization: CharStream + Sized {
    /// A stream over the text in Unicode Normalization Form D
    /// (canonical decomposition).
    fn nfd<'a>(self, tables: &'a Tables) -> (stage: Decompositions<'a, Self>)
        requires
            tables.wf(),
            self.wf(),
        ensures
            stage.wf(),
            stage.remaining() == decomposed_form(
                tables,
                DecompositionType::Canonical,
                self.remaining(),
            ),
    ;

    /// A stream over the text in Unicode Normalization Form KD
    /// (compatibility decomposition).
    fn nfkd<'a>(self, tables: &'a Tables) -> (stage: Decompositions<'a, Self>)
        requires
            tables.wf(),
            self.wf(),
        ensures
            stage.wf(),
            stage.remaining() == decomposed_form(
                tables,
                DecompositionType::Compatible,
                self.remaining(),
            ),
    ;

    /// A stream over the text in Unicode Normalization Form C
    /// (canonical decomposition followed by canonical composition).
    fn nfc<'a>(self, tables: &'a Tables) -> (stage: Recompositions<'a, Self>)
        requires
            tables.wf(),
            self.wf(),
        ensures
            stage.wf(),
            stage.remaining() == composed_form(
                tables,
                DecompositionType::Canonical,
                self.remaining(),
            ),
    ;

    /// A stream over the text in Unicode Normalization Form KC
    /// (compatibility decomposition followed by canonical composition).
    fn nfkc<'a>(self, tables: &'a Tables) -> (stage: Recompositions<'a, Self>)
        requires
            tables.wf(),
            self.wf(),
        ensures
            stage.wf(),
            stage.remaining() == composed_form(
                tables,
                DecompositionType::Compatible,
                self.remaining(),
            ),
    ;

    /// A transformation which replaces CJK Compatibility Ideograph codepoints
    /// with normal forms using Standardized Variation Sequences. This is not
    /// part of the canonical or compatibility decomposition algorithms, but
    /// performing it before those algorithms produces normalized output which
    /// better preserves the intent of the text as it was written.
    ///
    /// Note that many systems today ignore variation selectors, so these
    /// may not immediately help text display as intended, but they at
    /// least preserve the information in a standardized form, giving
    /// implementations the option to recognize them.
    fn cjk_compat_variants<'a>(self, tables: &'a Tables) -> (stage: Replacements<'a, Self>)
        requires
            tables.wf(),
            self.wf(),
        ensures
            stage.wf(),
            stage.remaining() == replace_all(tables, self.remaining()),
    ;

    /// A stream over the text with Conjoining Grapheme Joiner characters
    /// inserted according to the Stream-Safe Text Process
    /// ([UAX15-D4](https://unicode.org/reports/tr15/#UAX15-D4))
    fn stream_safe<'a>(self, tables: &'a Tables) -> (stage: StreamSafe<'a, Self>)
        requires
            tables.wf(),
            self.wf(),
        ensures
            stage.wf(),
            stage.remaining() == stream_safe_form(tables, self.remaining()),
    ;

    /// A stream over the text with U+00A0 NO-BREAK SPACE in front of every
    /// defective combining character sequence.
    fn correct_defective_ccs<'a>(self, tables: &'a Tables) -> (stage: CorrectDefectiveCcs<
        'a,
        Self,
    >)
        requires
            tables.wf(),
            self.wf(),
        ensures
            stage.wf(),
            stage.remaining() == corrected(tables, false, Seq::<char>::empty(), self.remaining()),
    ;

    /// A stream over the text with Hangul choseong and jungseong filler characters inserted
    /// to ensure that all Korean syllable blocks are in standard form according to
    /// [UAX29](https://www.unicode.org/reports/tr29/#Transforming_Into_SKS).
    fn standard_korean_syllables(self) -> (stage: StandardizeKoreanSyllables<Self>)
        requires
            self.wf(),
        ensures
            stage.wf(),
            stage.remaining() == standardized::<Uax29>(None, self.remaining()),
    ;

    /// A stream over the text in the variant of Unicode Normalization Form KD
    /// defined by Korean Standard X 1026-1. This normalization differs from that defined by Unicode
    /// in that it will not produce nonstandard Korean jamo sequences if none were present in the input.
    /// (Any string that is in KS X 1026-1 modified NFKD is also in standard Unicode NFKD,
    /// but the reverse may not hold.)
    fn nfkd_ks_x_1026_1<'a>(self, tables: &'a Tables) -> (stage: Decompositions<
        'a,
        NormalizeJamoKdkc<Self>,
    >)
        requires
            tables.wf(),
            self.wf(),
        ensures
            stage.wf(),
            stage.remaining() == decomposed_form(
                tables,
                DecompositionType::Compatible,
                expand_jamo(self.remaining()),
            ),
    ;

    /// A stream over the text in the variant of Unicode Normalization Form C
    /// defined by Korean Standard X 1026-1. This normalization differs from that defined by Unicode
    /// in that it will not contain any precomposed LV Hangul syllables immediately followed by conjoining T jamo.
    /// (A string that is in KS X 1026-1 modified NFC might not be in standard Unicode NFC,
    /// and vice versa.)
    fn nfc_ks_x_1026_1<'a>(self, tables: &'a Tables) -> (stage: RecomposeHangul<
        Recompositions<'a, Self>,
    >)
        requires
            tables.wf(),
            self.wf(),
        ensures
            stage.wf(),
            stage.remaining() == recomposed_hangul(
                composed_form(tables, DecompositionType::Canonical, self.remaining()),
            ),
    ;

    /// A stream over the text in the variant of Unicode Normalization Form KC
    /// defined by Korean Standard X 1026-1. This normalization differs from that defined by Unicode
    /// in that it will not produce nonstandard Korean jamo sequences if none were present in the input,
    /// and it will also not contain any precomposed LV Hangul syllables immediately followed
    /// by conjoining T jamo.
    /// (A string that is in KS X 1026-1 modified NFKC might not be in standard Unicode NFKC,
    /// and vice versa.)
    fn nfkc_ks_x_1026_1<'a>(self, tables: &'a Tables) -> (stage: RecomposeHangul<
        Recompositions<'a, NormalizeJamoKdkc<Self>>,
    >)
        requires
            tables.wf(),
            self.wf(),
        ensures
            stage.wf(),
            stage.remaining() == recomposed_hangul(
                composed_form(
                    tables,
                    DecompositionType::Compatible,
                    expand_jamo(self.remaining()),
                ),
            ),
    ;

    /// A stream over the text with Hangul choseong and jungseong filler characters inserted
    /// to ensure that all Korean syllable blocks are in standard form according to KS X 1026-1 § 7.8.
    fn standard_korean_syllables_ks_x_1026_1(self) -> (stage: StandardizeKoreanSyllablesKsX1026_1<
        Self,
    >)
        requires
            self.wf(),
        ensures
            stage.wf(),
            stage.remaining() == standardized::<KsX1026_1>(None, self.remaining()),
    ;
}

impl<I: CharStream> UnicodeNormalization for I {
    fn nfd<'a>(self, tables: &'a Tables) -> (stage: Decompositions<'a, I>) {
        decompose::new_canonical(tables, self)
    }

    fn nfkd<'a>(self, tables: &'a Tables) -> (stage: Decompositions<'a, I>) {
        decompose::new_compatible(tables, self)
    }

    fn nfc<'a>(self, tables: &'a Tables) -> (stage: Recompositions<'a, I>) {
        recompose::new_canonical(tables, self)
    }

    fn nfkc<'a>(self, tables: &'a Tables) -> (stage: Recompositions<'a, I>) {
        recompose::new_compatible(tables, self)
    }

    fn cjk_compat_variants<'a>(self, tables: &'a Tables) -> (stage: Replacements<'a, I>) {
        replace::new_cjk_compat_variants(tables, self)
    }

    fn stream_safe<'a>(self, tables: &'a Tables) -> (stage: StreamSafe<'a, I>) {
        StreamSafe::new(tables, self)
    }

    fn correct_defective_ccs<'a>(self, tables: &'a Tables) -> (stage: CorrectDefectiveCcs<'a, I>) {
        CorrectDefectiveCcs::new(tables, self)
    }

    fn standard_korean_syllables(self) -> (stage: StandardizeKoreanSyllables<I>) {
        StandardizeKoreanSyllables::new(self)
    }

    fn nfkd_ks_x_1026_1<'a>(self, tables: &'a Tables) -> (stage: Decompositions<
        'a,
        NormalizeJamoKdkc<I>,
    >) {
        decompose::new_compatible(tables, NormalizeJamoKdkc::new(self))
    }

    fn nfc_ks_x_1026_1<'a>(self, tables: &'a Tables) -> (stage: RecomposeHangul<
        Recompositions<'a, I>,
    >) {
        RecomposeHangul::new(recompose::new_canonical(tables, self))
    }

    fn nfkc_ks_x_1026_1<'a>(self, tables: &'a Tables) -> (stage: RecomposeHangul<
        Recompositions<'a, NormalizeJamoKdkc<I>>,
    >) {
        RecomposeHangul::new(recompose::new_compatible(tables, NormalizeJamoKdkc::new(self)))
    }

    fn standard_korean_syllables_ks_x_1026_1(self) -> (stage: StandardizeKoreanSyllablesKsX1026_1<
        I,
    >) {
        StandardizeKoreanSyllablesKsX1026_1::new(self)
    }
}

} // verus!
