use unicode_normalization::standardize_korean_syllables::{
    JamoKind, StandardizeKoreanSyllables, StandardizeKoreanSyllablesKsX1026_1,
};
use unicode_normalization::stream::{collect, Chars};

const L: char = '\u{1100}';
const L_F: char = '\u{115F}';
const V: char = '\u{1161}';
const V_F: char = '\u{1160}';
const T: char = '\u{11AE}';
const LV: char = '\u{AC00}';
const LVT: char = '\u{AC01}';

fn standardize(input: &[char]) -> Vec<char> {
    collect(&mut StandardizeKoreanSyllables::new(Chars::new(input.to_vec())))
}

fn standardize_ks_x_1026_1(input: &[char]) -> Vec<char> {
    collect(&mut StandardizeKoreanSyllablesKsX1026_1::new(Chars::new(input.to_vec())))
}

/// <https://www.unicode.org/reports/tr29/#Korean_Syllable_Break_Examples>
#[test]
fn korean_syllable_break_examples() {
    // LVT LV LV LVf LfV LfVfT
    let orig = [LVT, L, V, LV, L, V_F, L_F, V, L_F, V_F, T];
    assert_eq!(standardize(&orig), orig);

    // LL TT VV TT VV LLVV
    let orig = [L, L, T, T, V, V, T, T, V, V, L, LV, V];
    assert_eq!(
        standardize(&orig),
        [L, L, V_F, L_F, V_F, T, T, L_F, V, V, T, T, L_F, V, V, L, LV, V]
    );
}

/// <http://std.dkuug.dk/jtc1/sc2/wg2/docs/n3422.pdf> § 7.8
#[test]
fn korean_syllable_break_examples_ks_x_1026_1() {
    // LVT LV LV LVf LfV LfVfT
    let orig = [LVT, L, V, LV, L, V_F, L_F, V, L_F, V_F, T];
    assert_eq!(standardize_ks_x_1026_1(&orig), orig);

    // L L T T V VT T V V L LV V
    let orig = [L, L, T, T, V, V, T, T, V, V, L, LV, V];
    assert_eq!(
        standardize_ks_x_1026_1(&orig),
        [
            L, V_F, L, V_F, L_F, V_F, T, L_F, V_F, T, L_F, V, L_F, V, T, L_F, V_F, T, L_F, V,
            L_F, V, L, V_F, LV, L_F, V
        ]
    );

    //L LVf LfVfT T LfV VT T LfV V L LV V
    let orig = [
        L, L, V_F, L_F, V_F, T, T, L_F, V, V, T, T, L_F, V, V, L, LV, V,
    ];
    assert_eq!(
        standardize_ks_x_1026_1(&orig),
        [
            L, V_F, L, V_F, L_F, V_F, T, L_F, V_F, T, L_F, V, L_F, V, T, L_F, V_F, T, L_F, V,
            L_F, V, L, V_F, LV, L_F, V
        ]
    );
}

#[test]
fn jamo_kinds_of_jamo_and_syllables() {
    assert_eq!(JamoKind::of(L), (Some(JamoKind::L), Some(JamoKind::L)));
    assert_eq!(JamoKind::of('\u{A97C}'), (Some(JamoKind::L), Some(JamoKind::L)));
    assert_eq!(JamoKind::of(V_F), (Some(JamoKind::V), Some(JamoKind::V)));
    assert_eq!(JamoKind::of('\u{D7C6}'), (Some(JamoKind::V), Some(JamoKind::V)));
    assert_eq!(JamoKind::of(T), (Some(JamoKind::T), Some(JamoKind::T)));
    assert_eq!(JamoKind::of('\u{D7FB}'), (Some(JamoKind::T), Some(JamoKind::T)));
    assert_eq!(JamoKind::of(LV), (Some(JamoKind::L), Some(JamoKind::V)));
    assert_eq!(JamoKind::of(LVT), (Some(JamoKind::L), Some(JamoKind::T)));
    assert_eq!(JamoKind::of('\u{D7A3}'), (Some(JamoKind::L), Some(JamoKind::T)));
    assert_eq!(JamoKind::of('a'), (None, None));
    assert_eq!(JamoKind::of('\u{D7A4}'), (None, None));
}

#[test]
fn a_leading_consonant_at_the_end_gets_a_vowel_filler() {
    assert_eq!(standardize(&[L]), [L, V_F]);
    assert_eq!(standardize_ks_x_1026_1(&[L]), [L, V_F]);
    assert_eq!(standardize(&[]), []);
}

#[test]
fn a_trailing_consonant_behind_a_leading_one_gets_three_fillers() {
    assert_eq!(standardize(&[L, T, 'a']), [L, V_F, L_F, V_F, T, 'a']);
    assert_eq!(standardize_ks_x_1026_1(&[L, T, 'a']), [L, V_F, L_F, V_F, T, 'a']);
}
