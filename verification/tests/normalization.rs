use unicode_normalization::correct_ccs::{CcsKind, CorrectDefectiveCcs};
use unicode_normalization::decompose;
use unicode_normalization::ks_x_1026_1::{
    base_jamo, is_old_jongseong, NormalizeJamoKdkc, RecomposeHangul,
};
use unicode_normalization::normalize::{
    compose, compose_hangul, decompose_canonical, decompose_cjk_compat_variants,
    decompose_compatible, decompose_hangul,
};
use unicode_normalization::perfect_hash::{
    canonical_combining_class, canonical_fully_decomposed, cjk_compat_variants_fully_decomposed,
    compatibility_fully_decomposed, composition_table, is_combining_mark,
    is_default_ignorable_mark, mph_lookup, my_hash, not_in_ccs, pair_lookup_fk,
    pair_lookup_fv_opt, stream_safe_trailing_nonstarters, u8_lookup_fk, u8_lookup_fv,
};
use unicode_normalization::quick_check::{quick_check_class, stream_equals, Form};
use unicode_normalization::stream_safe::{classify_nonstarters, hangul_decomposition_length};
use unicode_normalization::UnicodeNormalization;
use unicode_normalization::quick_check::{
    is_nfc, is_nfc_quick, is_nfc_stream_safe, is_nfc_stream_safe_quick, is_nfd, is_nfd_quick,
    is_nfd_stream_safe, is_nfkc, is_nfkc_quick, is_nfkd, is_nfkd_quick, IsNormalized,
};
use unicode_normalization::recompose;
use unicode_normalization::replace::new_cjk_compat_variants;
use unicode_normalization::stream::{collect, CharStream, Chars, SliceChars};
use unicode_normalization::stream_safe::StreamSafe;
use unicode_normalization::tables::Tables;

// Builds a minimal perfect hash table over `entries`, which are keyed by
// `key`. An empty set of entries gives a table of the one entry `unused`.
fn perfect_hash<KV: Copy>(entries: &[KV], key: fn(KV) -> u32, unused: KV) -> (Vec<u16>, Vec<KV>) {
    let n = entries.len();
    if n == 0 {
        return (vec![0], vec![unused]);
    }
    let mut buckets: Vec<Vec<KV>> = vec![Vec::new(); n];
    for &entry in entries {
        buckets[my_hash(key(entry), 0, n)].push(entry);
    }
    let mut order: Vec<usize> = (0..n).collect();
    // The fullest buckets are placed first.
    order.sort_by_key(|&h| usize::MAX - buckets[h].len());
    let mut slots: Vec<Option<KV>> = vec![None; n];
    let mut salts: Vec<u16> = vec![0; n];
    for h in order {
        if buckets[h].is_empty() {
            break;
        }
        let mut found = false;
        for salt in 1..32768u16 {
            let rehashes: Vec<usize> = buckets[h]
                .iter()
                .map(|&entry| my_hash(key(entry), salt as u32, n))
                .collect();
            let free = rehashes.iter().all(|&slot| slots[slot].is_none());
            let distinct = (0..rehashes.len())
                .all(|i| (0..i).all(|j| rehashes[i] != rehashes[j]));
            if free && distinct {
                salts[h] = salt;
                for (i, &slot) in rehashes.iter().enumerate() {
                    slots[slot] = Some(buckets[h][i]);
                }
                found = true;
                break;
            }
        }
        assert!(found, "no salt found");
    }
    (salts, slots.into_iter().map(|slot| slot.unwrap()).collect())
}

fn packed(entries: &[(u32, u8)]) -> (Vec<u16>, Vec<u32>) {
    let kv: Vec<u32> = entries.iter().map(|&(c, v)| c << 8 | v as u32).collect();
    perfect_hash(&kv, |kv| kv >> 8, 0xFFFF_FFFF)
}

fn members(entries: &[u32]) -> (Vec<u16>, Vec<u32>) {
    perfect_hash(entries, |kv| kv, 0xFFFF_FFFF)
}

fn mappings(entries: &[(u32, &[u32])]) -> (Vec<u16>, Vec<(u32, (u16, u16))>, Vec<char>) {
    let mut chars: Vec<char> = Vec::new();
    let mut kv: Vec<(u32, (u16, u16))> = Vec::new();
    for &(c, mapping) in entries {
        kv.push((c, (chars.len() as u16, mapping.len() as u16)));
        chars.extend(mapping.iter().map(|&d| char::from_u32(d).unwrap()));
    }
    let (salt, kv) = perfect_hash(&kv, |kv| kv.0, (0xFFFF_FFFF, (0, 0)));
    (salt, kv, chars)
}

const YES: u8 = 0;
const NO: u8 = 1;
const MAYBE: u8 = 2;

fn quick_check_value(nfc: u8, nfd: u8, nfkc: u8, nfkd: u8) -> u8 {
    nfc | nfd << 2 | nfkc << 4 | nfkd << 6
}

// The properties of the characters that the tests below use, as the Unicode
// Character Database gives them.
fn tables() -> Tables {
    let (canonical_combining_class_salt, canonical_combining_class_kv) = packed(&[
        (0x0300, 230),
        (0x0301, 230),
        (0x0305, 230),
        (0x0307, 230),
        (0x0308, 230),
        (0x030A, 230),
        (0x030C, 230),
        (0x030F, 230),
        (0x0315, 232),
        (0x0323, 220),
        (0x0342, 230),
        (0x0344, 230),
        (0x05AE, 228),
        (0x110BA, 7),
    ]);
    let pairs: [(u32, u32, u32); 10] = [
        (0x0041, 0x030A, 0x00C5),
        (0x0061, 0x0300, 0x00E0),
        (0x0061, 0x0301, 0x00E1),
        (0x0065, 0x0301, 0x00E9),
        (0x0063, 0x030C, 0x010D),
        (0x005A, 0x030C, 0x017D),
        (0x0044, 0x0307, 0x1E0A),
        (0x0064, 0x0307, 0x1E0B),
        (0x0044, 0x0323, 0x1E0C),
        (0x0064, 0x0323, 0x1E0D),
    ];
    let composition: Vec<(u32, char)> = pairs
        .iter()
        .map(|&(a, b, c)| (a << 16 | b, char::from_u32(c).unwrap()))
        .collect();
    let (composition_table_salt, composition_table_kv) =
        perfect_hash(&composition, |kv| kv.0, (0xD800_D800, '\0'));
    let (canonical_decomposed_salt, canonical_decomposed_kv, canonical_decomposed_chars) =
        mappings(&[
            (0x00C5, &[0x0041, 0x030A]),
            (0x212B, &[0x0041, 0x030A]),
            (0x00E0, &[0x0061, 0x0300]),
            (0x00E1, &[0x0061, 0x0301]),
            (0x00E9, &[0x0065, 0x0301]),
            (0x010D, &[0x0063, 0x030C]),
            (0x017D, &[0x005A, 0x030C]),
            (0x1E0A, &[0x0044, 0x0307]),
            (0x1E0B, &[0x0064, 0x0307]),
            (0x1E0C, &[0x0044, 0x0323]),
            (0x1E0D, &[0x0064, 0x0323]),
            (0x2126, &[0x03A9]),
            (0x0344, &[0x0308, 0x0301]),
            (0x2F999, &[0x831D]),
            (0x2F8A6, &[0x6148]),
            (0x1109A, &[0x11099, 0x110BA]),
        ]);
    let (
        compatibility_decomposed_salt,
        compatibility_decomposed_kv,
        compatibility_decomposed_chars,
    ) = mappings(&[
        (0x01C4, &[0x0044, 0x005A, 0x030C]),
        (0x2026, &[0x002E, 0x002E, 0x002E]),
        (0x2156, &[0x0032, 0x2044, 0x0035]),
        (0xFB01, &[0x0066, 0x0069]),
        (0x3131, &[0x1100]),
        (0x314F, &[0x1161]),
        (0xFFA1, &[0x1100]),
        (0xFFC6, &[0x1165]),
        (0x3260, &[0x1100]),
        (0x3200, &[0x0028, 0x1100, 0x0029]),
    ]);
    let (
        cjk_compat_variants_decomposed_salt,
        cjk_compat_variants_decomposed_kv,
        cjk_compat_variants_decomposed_chars,
    ) = mappings(&[(0x2F999, &[0x831D, 0xFE00]), (0x2F8A6, &[0x6148, 0xFE00])]);
    let (combining_mark_salt, combining_mark_kv) = members(&[
        0x0300, 0x0301, 0x0305, 0x0307, 0x0308, 0x030A, 0x030C, 0x030F, 0x0315, 0x0323, 0x0342,
        0x0344, 0x05AE, 0x180F, 0xFE00, 0x110BA,
    ]);
    let (trailing_nonstarters_salt, trailing_nonstarters_kv) = packed(&[
        (0x00C5, 1),
        (0x212B, 1),
        (0x00E0, 1),
        (0x00E1, 1),
        (0x00E9, 1),
        (0x010D, 1),
        (0x017D, 1),
        (0x1E0A, 1),
        (0x1E0B, 1),
        (0x1E0C, 1),
        (0x1E0D, 1),
        (0x01C4, 1),
        (0x0344, 2),
        (0x1109A, 1),
    ]);
    let composes = quick_check_value(MAYBE, YES, MAYBE, YES);
    let decomposes = quick_check_value(YES, NO, YES, NO);
    let singleton = quick_check_value(NO, NO, NO, NO);
    let compatible = quick_check_value(YES, YES, NO, NO);
    let mut quick_check: Vec<(u32, u8)> = Vec::new();
    for c in [0x0300, 0x0301, 0x0307, 0x0308, 0x030A, 0x030C, 0x0323, 0x0342, 0x110BA] {
        quick_check.push((c, composes));
    }
    for c in 0x1161..=0x1175 {
        quick_check.push((c, composes));
    }
    for c in 0x11A8..=0x11C2 {
        quick_check.push((c, composes));
    }
    for c in [
        0x00C5, 0x00E0, 0x00E1, 0x00E9, 0x010D, 0x017D, 0x1E0A, 0x1E0B, 0x1E0C, 0x1E0D, 0x1109A,
        0xAC00, 0xAC01, 0xAC1C, 0xAC70, 0xD4DB,
    ] {
        quick_check.push((c, decomposes));
    }
    for c in [0x212B, 0x2126, 0x0344, 0x2F999, 0x2F8A6] {
        quick_check.push((c, singleton));
    }
    for c in [0x01C4, 0x2026, 0x2156, 0xFB01, 0x3131, 0x314F, 0xFFA1, 0xFFC6, 0x3260, 0x3200] {
        quick_check.push((c, compatible));
    }
    let (quick_check_salt, quick_check_kv) = packed(&quick_check);
    let (default_ignorable_mark_salt, default_ignorable_mark_kv) = members(&[0x180F, 0xFE00]);
    let (not_in_ccs_salt, not_in_ccs_kv) = members(&[0xFFFE, 0xFFFF, 0x000A]);
    let tables = Tables {
        canonical_combining_class_salt,
        canonical_combining_class_kv,
        composition_table_salt,
        composition_table_kv,
        composition_table_astral: vec![('\u{11099}', '\u{110BA}', '\u{1109A}')],
        canonical_decomposed_salt,
        canonical_decomposed_kv,
        canonical_decomposed_chars,
        compatibility_decomposed_salt,
        compatibility_decomposed_kv,
        compatibility_decomposed_chars,
        cjk_compat_variants_decomposed_salt,
        cjk_compat_variants_decomposed_kv,
        cjk_compat_variants_decomposed_chars,
        combining_mark_salt,
        combining_mark_kv,
        trailing_nonstarters_salt,
        trailing_nonstarters_kv,
        quick_check_salt,
        quick_check_kv,
        default_ignorable_mark_salt,
        default_ignorable_mark_kv,
        not_in_ccs_salt,
        not_in_ccs_kv,
    };
    assert!(tables.is_valid());
    tables
}

fn chars(s: &str) -> Chars {
    Chars::new(s.chars().collect())
}

fn text(s: &str) -> Vec<char> {
    s.chars().collect()
}

fn string<I: CharStream>(mut stream: I) -> String {
    collect(&mut stream).into_iter().collect()
}

fn nfd(t: &Tables, s: &str) -> String {
    string(decompose::new_canonical(t, chars(s)))
}

fn nfkd(t: &Tables, s: &str) -> String {
    string(decompose::new_compatible(t, chars(s)))
}

fn nfc(t: &Tables, s: &str) -> String {
    string(recompose::new_canonical(t, chars(s)))
}

fn nfkc(t: &Tables, s: &str) -> String {
    string(recompose::new_compatible(t, chars(s)))
}

fn stream_safe(t: &Tables, s: &str) -> String {
    string(StreamSafe::new(t, chars(s)))
}

fn nfkd_ks_x_1026_1(t: &Tables, s: &str) -> String {
    string(decompose::new_compatible(t, NormalizeJamoKdkc::new(chars(s))))
}

fn nfc_ks_x_1026_1(t: &Tables, s: &str) -> String {
    string(RecomposeHangul::new(recompose::new_canonical(t, chars(s))))
}

fn nfkc_ks_x_1026_1(t: &Tables, s: &str) -> String {
    string(RecomposeHangul::new(recompose::new_compatible(
        t,
        NormalizeJamoKdkc::new(chars(s)),
    )))
}

#[test]
fn test_nfd_chars() {
    let t = tables();
    assert_eq!(nfd(&t, "abc"), "abc");
    assert_eq!(nfd(&t, "\u{1e0b}\u{1c4}"), "d\u{307}\u{1c4}");
    assert_eq!(nfd(&t, "\u{2026}"), "\u{2026}");
    assert_eq!(nfd(&t, "\u{2126}"), "\u{3a9}");
    assert_eq!(nfd(&t, "\u{1e0b}\u{323}"), "d\u{323}\u{307}");
    assert_eq!(nfd(&t, "\u{1e0d}\u{307}"), "d\u{323}\u{307}");
    assert_eq!(nfd(&t, "a\u{301}"), "a\u{301}");
    assert_eq!(nfd(&t, "\u{301}a"), "\u{301}a");
    assert_eq!(nfd(&t, "\u{d4db}"), "\u{1111}\u{1171}\u{11b6}");
    assert_eq!(nfd(&t, "\u{ac1c}"), "\u{1100}\u{1162}");
}

#[test]
fn test_nfkd_chars() {
    let t = tables();
    assert_eq!(nfkd(&t, "abc"), "abc");
    assert_eq!(nfkd(&t, "\u{1e0b}\u{1c4}"), "d\u{307}DZ\u{30c}");
    assert_eq!(nfkd(&t, "\u{2026}"), "...");
    assert_eq!(nfkd(&t, "\u{2126}"), "\u{3a9}");
    assert_eq!(nfkd(&t, "\u{1e0b}\u{323}"), "d\u{323}\u{307}");
    assert_eq!(nfkd(&t, "\u{1e0d}\u{307}"), "d\u{323}\u{307}");
    assert_eq!(nfkd(&t, "a\u{301}"), "a\u{301}");
    assert_eq!(nfkd(&t, "\u{301}a"), "\u{301}a");
    assert_eq!(nfkd(&t, "\u{d4db}"), "\u{1111}\u{1171}\u{11b6}");
    assert_eq!(nfkd(&t, "\u{ac1c}"), "\u{1100}\u{1162}");
}

#[test]
fn test_nfc_chars() {
    let t = tables();
    assert_eq!(nfc(&t, "abc"), "abc");
    assert_eq!(nfc(&t, "\u{1e0b}\u{1c4}"), "\u{1e0b}\u{1c4}");
    assert_eq!(nfc(&t, "\u{2026}"), "\u{2026}");
    assert_eq!(nfc(&t, "\u{2126}"), "\u{3a9}");
    assert_eq!(nfc(&t, "\u{1e0b}\u{323}"), "\u{1e0d}\u{307}");
    assert_eq!(nfc(&t, "\u{1e0d}\u{307}"), "\u{1e0d}\u{307}");
    assert_eq!(nfc(&t, "a\u{301}"), "\u{e1}");
    assert_eq!(nfc(&t, "\u{301}a"), "\u{301}a");
    assert_eq!(nfc(&t, "\u{d4db}"), "\u{d4db}");
    assert_eq!(nfc(&t, "\u{ac1c}"), "\u{ac1c}");
    assert_eq!(
        nfc(&t, "a\u{300}\u{305}\u{315}\u{5ae}b"),
        "\u{e0}\u{5ae}\u{305}\u{315}b"
    );
}

#[test]
fn test_nfkc_chars() {
    let t = tables();
    assert_eq!(nfkc(&t, "abc"), "abc");
    assert_eq!(nfkc(&t, "\u{1e0b}\u{1c4}"), "\u{1e0b}D\u{17d}");
    assert_eq!(nfkc(&t, "\u{2026}"), "...");
    assert_eq!(nfkc(&t, "\u{2126}"), "\u{3a9}");
    assert_eq!(nfkc(&t, "\u{1e0b}\u{323}"), "\u{1e0d}\u{307}");
    assert_eq!(nfkc(&t, "\u{1e0d}\u{307}"), "\u{1e0d}\u{307}");
    assert_eq!(nfkc(&t, "a\u{301}"), "\u{e1}");
    assert_eq!(nfkc(&t, "\u{301}a"), "\u{301}a");
    assert_eq!(nfkc(&t, "\u{d4db}"), "\u{d4db}");
    assert_eq!(nfkc(&t, "\u{ac1c}"), "\u{ac1c}");
    assert_eq!(
        nfkc(&t, "a\u{300}\u{305}\u{315}\u{5ae}b"),
        "\u{e0}\u{5ae}\u{305}\u{315}b"
    );
}

fn check_cjk_variants(t: &Tables) {
    // These codepoints have singleton decompositions in the canonical
    // decomposition, and can use standardized variations.
    let s = "\u{2f999}\u{2f8a6}";

    // These codepoints have canonical decompositions.
    let mut nfd_iter = decompose::new_canonical(t, chars(s));
    assert_eq!(nfd_iter.next(), Some('\u{831d}'));
    assert_eq!(nfd_iter.next(), Some('\u{6148}'));
    assert_eq!(nfd_iter.next(), None);

    let mut nfkd_iter = decompose::new_compatible(t, chars(s));
    assert_eq!(nfkd_iter.next(), Some('\u{831d}'));
    assert_eq!(nfkd_iter.next(), Some('\u{6148}'));
    assert_eq!(nfkd_iter.next(), None);

    let mut nfc_iter = recompose::new_canonical(t, chars(s));
    assert_eq!(nfc_iter.next(), Some('\u{831d}'));
    assert_eq!(nfc_iter.next(), Some('\u{6148}'));
    assert_eq!(nfc_iter.next(), None);

    let mut nfkc_iter = recompose::new_compatible(t, chars(s));
    assert_eq!(nfkc_iter.next(), Some('\u{831d}'));
    assert_eq!(nfkc_iter.next(), Some('\u{6148}'));
    assert_eq!(nfkc_iter.next(), None);

    // However they also have standardized variants.
    let mut var_iter = new_cjk_compat_variants(t, chars(s));
    assert_eq!(var_iter.next(), Some('\u{831d}'));
    assert_eq!(var_iter.next(), Some('\u{fe00}'));
    assert_eq!(var_iter.next(), Some('\u{6148}'));
    assert_eq!(var_iter.next(), Some('\u{fe00}'));
    assert_eq!(var_iter.next(), None);

    // The standardized variants are normalization-stable.
    let mut var_nfc_iter = recompose::new_canonical(t, new_cjk_compat_variants(t, chars(s)));
    assert_eq!(var_nfc_iter.next(), Some('\u{831d}'));
    assert_eq!(var_nfc_iter.next(), Some('\u{fe00}'));
    assert_eq!(var_nfc_iter.next(), Some('\u{6148}'));
    assert_eq!(var_nfc_iter.next(), Some('\u{fe00}'));
    assert_eq!(var_nfc_iter.next(), None);

    let mut var_nfd_iter = decompose::new_canonical(t, new_cjk_compat_variants(t, chars(s)));
    assert_eq!(var_nfd_iter.next(), Some('\u{831d}'));
    assert_eq!(var_nfd_iter.next(), Some('\u{fe00}'));
    assert_eq!(var_nfd_iter.next(), Some('\u{6148}'));
    assert_eq!(var_nfd_iter.next(), Some('\u{fe00}'));
    assert_eq!(var_nfd_iter.next(), None);

    let mut var_nfkc_iter = recompose::new_compatible(t, new_cjk_compat_variants(t, chars(s)));
    assert_eq!(var_nfkc_iter.next(), Some('\u{831d}'));
    assert_eq!(var_nfkc_iter.next(), Some('\u{fe00}'));
    assert_eq!(var_nfkc_iter.next(), Some('\u{6148}'));
    assert_eq!(var_nfkc_iter.next(), Some('\u{fe00}'));
    assert_eq!(var_nfkc_iter.next(), None);

    let mut var_nfkd_iter = decompose::new_compatible(t, new_cjk_compat_variants(t, chars(s)));
    assert_eq!(var_nfkd_iter.next(), Some('\u{831d}'));
    assert_eq!(var_nfkd_iter.next(), Some('\u{fe00}'));
    assert_eq!(var_nfkd_iter.next(), Some('\u{6148}'));
    assert_eq!(var_nfkd_iter.next(), Some('\u{fe00}'));
    assert_eq!(var_nfkd_iter.next(), None);
}

#[test]
fn test_cjk_compat_variants() {
    check_cjk_variants(&tables());
}

#[test]
fn svar_test_standardized_variations_for_cjk_singleton_decompositions() {
    check_cjk_variants(&tables());
}

/// `cjk_compat_variants` shouldn't decompose Hangul.
#[test]
fn test_cjk_compat_variants_with_hangul() {
    let t = tables();
    assert_eq!(
        string(new_cjk_compat_variants(&t, chars("중국어 (홍콩)"))),
        "중국어 (홍콩)"
    );
}

#[test]
fn test_svar_hangul() {
    let t = tables();
    assert_eq!(
        string(new_cjk_compat_variants(&t, chars("중국어 (홍콩)"))),
        "중국어 (홍콩)"
    );
}

#[test]
fn ext_test_standardized_variations_for_cjk_singleton_decompositions() {
    // These codepoints have singleton decompositions in the canonical
    // decomposition, and can use standardized variations in the extended
    // decomposition.
    let t = tables();
    let s = "\u{2f999}\u{2f8a6}";

    let mut nfd_iter = decompose::new_canonical(&t, chars(s));
    assert_eq!(nfd_iter.next(), Some('\u{831d}'));
    assert_eq!(nfd_iter.next(), Some('\u{6148}'));
    assert_eq!(nfd_iter.next(), None);

    let mut nfd_ext_iter = decompose::new_canonical(&t, new_cjk_compat_variants(&t, chars(s)));
    assert_eq!(nfd_ext_iter.next(), Some('\u{831d}'));
    assert_eq!(nfd_ext_iter.next(), Some('\u{fe00}'));
    assert_eq!(nfd_ext_iter.next(), Some('\u{6148}'));
    assert_eq!(nfd_ext_iter.next(), Some('\u{fe00}'));
    assert_eq!(nfd_ext_iter.next(), None);

    let mut nfkd_iter = decompose::new_compatible(&t, chars(s));
    assert_eq!(nfkd_iter.next(), Some('\u{831d}'));
    assert_eq!(nfkd_iter.next(), Some('\u{6148}'));
    assert_eq!(nfkd_iter.next(), None);

    let mut nfkd_ext_iter = decompose::new_compatible(&t, new_cjk_compat_variants(&t, chars(s)));
    assert_eq!(nfkd_ext_iter.next(), Some('\u{831d}'));
    assert_eq!(nfkd_ext_iter.next(), Some('\u{fe00}'));
    assert_eq!(nfkd_ext_iter.next(), Some('\u{6148}'));
    assert_eq!(nfkd_ext_iter.next(), Some('\u{fe00}'));
    assert_eq!(nfkd_ext_iter.next(), None);

    let mut nfc_iter = recompose::new_canonical(&t, chars(s));
    assert_eq!(nfc_iter.next(), Some('\u{831d}'));
    assert_eq!(nfc_iter.next(), Some('\u{6148}'));
    assert_eq!(nfc_iter.next(), None);

    let mut nfc_ext_iter = recompose::new_canonical(&t, new_cjk_compat_variants(&t, chars(s)));
    assert_eq!(nfc_ext_iter.next(), Some('\u{831d}'));
    assert_eq!(nfc_ext_iter.next(), Some('\u{fe00}'));
    assert_eq!(nfc_ext_iter.next(), Some('\u{6148}'));
    assert_eq!(nfc_ext_iter.next(), Some('\u{fe00}'));
    assert_eq!(nfc_ext_iter.next(), None);

    let mut nfkc_iter = recompose::new_compatible(&t, chars(s));
    assert_eq!(nfkc_iter.next(), Some('\u{831d}'));
    assert_eq!(nfkc_iter.next(), Some('\u{6148}'));
    assert_eq!(nfkc_iter.next(), None);

    let mut nfkc_ext_iter = recompose::new_compatible(&t, new_cjk_compat_variants(&t, chars(s)));
    assert_eq!(nfkc_ext_iter.next(), Some('\u{831d}'));
    assert_eq!(nfkc_ext_iter.next(), Some('\u{fe00}'));
    assert_eq!(nfkc_ext_iter.next(), Some('\u{6148}'));
    assert_eq!(nfkc_ext_iter.next(), Some('\u{fe00}'));
    assert_eq!(nfkc_ext_iter.next(), None);
}

/// Test that the ext iterators incude the usual NFC/NFD/NFKC/NKFD normalizations.
#[test]
fn test_underlying_nfd_nfc_nfkd_nfkc() {
    let t = tables();
    let s = "hi\u{212b}\u{4d}\u{3a9}\u{2156}\u{31}\u{2044}\u{33}";

    let mut nfd_ext_iter = decompose::new_canonical(&t, new_cjk_compat_variants(&t, chars(s)));
    assert_eq!(nfd_ext_iter.next(), Some('h'));
    assert_eq!(nfd_ext_iter.next(), Some('i'));
    assert_eq!(nfd_ext_iter.next(), Some('\u{41}'));
    assert_eq!(nfd_ext_iter.next(), Some('\u{30a}'));
    assert_eq!(nfd_ext_iter.next(), Some('\u{4d}'));
    assert_eq!(nfd_ext_iter.next(), Some('\u{3a9}'));
    assert_eq!(nfd_ext_iter.next(), Some('\u{2156}'));
    assert_eq!(nfd_ext_iter.next(), Some('\u{31}'));
    assert_eq!(nfd_ext_iter.next(), Some('\u{2044}'));
    assert_eq!(nfd_ext_iter.next(), Some('\u{33}'));
    assert_eq!(nfd_ext_iter.next(), None);

    let mut nfkd_ext_iter = decompose::new_compatible(&t, new_cjk_compat_variants(&t, chars(s)));
    assert_eq!(nfkd_ext_iter.next(), Some('h'));
    assert_eq!(nfkd_ext_iter.next(), Some('i'));
    assert_eq!(nfkd_ext_iter.next(), Some('\u{41}'));
    assert_eq!(nfkd_ext_iter.next(), Some('\u{30a}'));
    assert_eq!(nfkd_ext_iter.next(), Some('\u{4d}'));
    assert_eq!(nfkd_ext_iter.next(), Some('\u{3a9}'));
    assert_eq!(nfkd_ext_iter.next(), Some('\u{32}'));
    assert_eq!(nfkd_ext_iter.next(), Some('\u{2044}'));
    assert_eq!(nfkd_ext_iter.next(), Some('\u{35}'));
    assert_eq!(nfkd_ext_iter.next(), Some('\u{31}'));
    assert_eq!(nfkd_ext_iter.next(), Some('\u{2044}'));
    assert_eq!(nfkd_ext_iter.next(), Some('\u{33}'));
    assert_eq!(nfkd_ext_iter.next(), None);

    let mut nfc_ext_iter = recompose::new_canonical(&t, new_cjk_compat_variants(&t, chars(s)));
    assert_eq!(nfc_ext_iter.next(), Some('h'));
    assert_eq!(nfc_ext_iter.next(), Some('i'));
    assert_eq!(nfc_ext_iter.next(), Some('\u{c5}'));
    assert_eq!(nfc_ext_iter.next(), Some('\u{4d}'));
    assert_eq!(nfc_ext_iter.next(), Some('\u{3a9}'));
    assert_eq!(nfc_ext_iter.next(), Some('\u{2156}'));
    assert_eq!(nfc_ext_iter.next(), Some('\u{31}'));
    assert_eq!(nfc_ext_iter.next(), Some('\u{2044}'));
    assert_eq!(nfc_ext_iter.next(), Some('\u{33}'));
    assert_eq!(nfc_ext_iter.next(), None);

    let mut nfkc_ext_iter = recompose::new_compatible(&t, new_cjk_compat_variants(&t, chars(s)));
    assert_eq!(nfkc_ext_iter.next(), Some('h'));
    assert_eq!(nfkc_ext_iter.next(), Some('i'));
    assert_eq!(nfkc_ext_iter.next(), Some('\u{c5}'));
    assert_eq!(nfkc_ext_iter.next(), Some('\u{4d}'));
    assert_eq!(nfkc_ext_iter.next(), Some('\u{3a9}'));
    assert_eq!(nfkc_ext_iter.next(), Some('\u{32}'));
    assert_eq!(nfkc_ext_iter.next(), Some('\u{2044}'));
    assert_eq!(nfkc_ext_iter.next(), Some('\u{35}'));
    assert_eq!(nfkc_ext_iter.next(), Some('\u{31}'));
    assert_eq!(nfkc_ext_iter.next(), Some('\u{2044}'));
    assert_eq!(nfkc_ext_iter.next(), Some('\u{33}'));
    assert_eq!(nfkc_ext_iter.next(), None);
}

fn check_ccs(t: &Tables, input: &str, expected_out: &str) {
    assert_eq!(string(CorrectDefectiveCcs::new(t, chars(input))), expected_out);
}

#[test]
fn defective_css() {
    let t = tables();
    check_ccs(&t, "", "");
    check_ccs(&t, "abcde", "abcde");
    check_ccs(&t, "a\u{0301}bcde", "a\u{0301}bcde");
    check_ccs(&t, "\u{0301}bcde", "\u{00A0}\u{0301}bcde");
    check_ccs(&t, "\u{200C}\u{0301}bcde", "\u{00A0}\u{200C}\u{0301}bcde");
    check_ccs(&t, "\u{200C}bcde", "\u{200C}bcde");
    check_ccs(&t, "\u{180F}bcde", "\u{180F}bcde");
    check_ccs(&t, "\u{FFFF}\u{0301}bcde", "\u{FFFF}\u{00A0}\u{0301}bcde");
    check_ccs(&t, "\u{10FFFD}\u{0301}bcde", "\u{10FFFD}\u{0301}bcde");
    check_ccs(&t, "\u{180F}\u{180F}\u{180F}", "\u{180F}\u{180F}\u{180F}");
    check_ccs(&t, "\u{180F}\u{180F}\u{180F}a", "\u{180F}\u{180F}\u{180F}a");
    check_ccs(
        &t,
        "\u{180F}\u{180F}\u{180F}\u{0301}",
        "\u{00A0}\u{180F}\u{180F}\u{180F}\u{0301}",
    );
}

/// § 6.2
#[test]
fn compatibility_and_halfwidth_hangul_letters() {
    let t = tables();
    // Compatibility
    let orig = "\u{3131}\u{314F}";
    assert_eq!(nfkd(&t, orig), "\u{1100}\u{1161}");
    assert_eq!(nfkc(&t, orig), "\u{AC00}");
    assert_eq!(nfkd_ks_x_1026_1(&t, orig), "\u{1100}\u{1160}\u{115F}\u{1161}");
    assert_eq!(nfkc_ks_x_1026_1(&t, orig), "\u{1100}\u{1160}\u{115F}\u{1161}");

    // Halfwidth
    let orig = "\u{FFA1}\u{FFC6}";
    assert_eq!(nfd(&t, orig), "\u{FFA1}\u{FFC6}");
    assert_eq!(nfc(&t, orig), "\u{FFA1}\u{FFC6}");
    assert_eq!(nfkd(&t, orig), "\u{1100}\u{1165}");
    assert_eq!(nfkc(&t, orig), "\u{AC70}");
    assert_eq!(nfc_ks_x_1026_1(&t, orig), "\u{FFA1}\u{FFC6}");
    assert_eq!(nfkd_ks_x_1026_1(&t, orig), "\u{1100}\u{1160}\u{115F}\u{1165}");
    assert_eq!(nfkc_ks_x_1026_1(&t, orig), "\u{1100}\u{1160}\u{115F}\u{1165}");
}

/// § 6.3
#[test]
fn hangul_embedded_symbols() {
    let t = tables();
    // Circled
    let orig = "\u{3260}";
    assert_eq!(nfd(&t, orig), "\u{3260}");
    assert_eq!(nfc(&t, orig), "\u{3260}");
    assert_eq!(nfkd(&t, orig), "\u{1100}");
    assert_eq!(nfkc(&t, orig), "\u{1100}");
    assert_eq!(nfc_ks_x_1026_1(&t, orig), "\u{3260}");
    assert_eq!(nfkd_ks_x_1026_1(&t, orig), "\u{1100}\u{1160}");
    assert_eq!(nfkc_ks_x_1026_1(&t, orig), "\u{1100}\u{1160}");

    // Parenthesized
    let orig = "\u{3200}";
    assert_eq!(nfd(&t, orig), "\u{3200}");
    assert_eq!(nfc(&t, orig), "\u{3200}");
    assert_eq!(nfkd(&t, orig), "(\u{1100})");
    assert_eq!(nfkc(&t, orig), "(\u{1100})");
    assert_eq!(nfc_ks_x_1026_1(&t, orig), "\u{3200}");
    assert_eq!(nfkd_ks_x_1026_1(&t, orig), "(\u{1100}\u{1160})");
    assert_eq!(nfkc_ks_x_1026_1(&t, orig), "(\u{1100}\u{1160})");
}

/// § 6.4
#[test]
fn hangul_syllable_blocks() {
    let t = tables();
    let orig = "\u{1100}\u{1161}\u{11EB}";
    assert_eq!(nfd(&t, orig), "\u{1100}\u{1161}\u{11EB}");
    assert_eq!(nfc(&t, orig), "\u{AC00}\u{11EB}");
    assert_eq!(nfkd(&t, orig), "\u{1100}\u{1161}\u{11EB}");
    assert_eq!(nfkc(&t, orig), "\u{AC00}\u{11EB}");
    assert_eq!(nfc_ks_x_1026_1(&t, orig), "\u{1100}\u{1161}\u{11EB}");
    assert_eq!(nfkd_ks_x_1026_1(&t, orig), "\u{1100}\u{1161}\u{11EB}");
    assert_eq!(nfkc_ks_x_1026_1(&t, orig), "\u{1100}\u{1161}\u{11EB}");
}

#[test]
fn non_hangul() {
    let t = tables();
    let orig = "ab\u{010D}de\u{0301}";
    assert_eq!(nfd(&t, orig), "abc\u{030C}de\u{0301}");
    assert_eq!(nfc(&t, orig), "ab\u{010D}d\u{00E9}");
    assert_eq!(nfkd(&t, orig), "abc\u{030C}de\u{0301}");
    assert_eq!(nfkc(&t, orig), "ab\u{010D}d\u{00E9}");
    assert_eq!(nfc_ks_x_1026_1(&t, orig), "ab\u{010D}d\u{00E9}");
    assert_eq!(nfkd_ks_x_1026_1(&t, orig), "abc\u{030C}de\u{0301}");
    assert_eq!(nfkc_ks_x_1026_1(&t, orig), "ab\u{010D}d\u{00E9}");
}

// The composing stage over `data`, with the number of characters that it may
// read from `data` at most.
struct Limited<'a> {
    stage: recompose::Recompositions<'a, Chars>,
    stop: usize,
}

impl<'a> Limited<'a> {
    fn new(t: &'a Tables, data: Vec<char>, stop: usize) -> Self {
        Limited { stage: recompose::new_canonical(t, Chars::new(data)), stop }
    }

    fn next(&mut self) -> Option<char> {
        let c = self.stage.next();
        assert!(
            self.stage.get_ref().position() <= self.stop,
            "next() called too many times"
        );
        c
    }
}

#[test]
fn test_nfc_nobuffer_newline() {
    let t = tables();
    let mut s = Limited::new(&t, vec!['a', 'b', 'c', '\n', 'd', 'e', 'f'], 4);
    assert_eq!(s.next(), Some('a'));
    assert_eq!(s.next(), Some('b'));
    assert_eq!(s.next(), Some('c'));
    assert_eq!(s.next(), Some('\n'));
}

#[test]
fn test_nfc_nobuffer_newline_at_start() {
    let t = tables();
    let mut s = Limited::new(&t, vec!['\n', 'd', 'e', 'f'], 1);
    assert_eq!(s.next(), Some('\n'));
}

#[test]
fn test_nfc_nobuffer_newline_after_combine() {
    let t = tables();
    let mut s = Limited::new(&t, vec!['A', '\u{30a}', '\n', 'd', 'e', 'f'], 3);
    assert_eq!(s.next(), Some('\u{c5}'));
    assert_eq!(s.next(), Some('\n'));
}

#[test]
fn test_nfc_nobuffer_newline_after_block() {
    let t = tables();
    let mut s = Limited::new(&t, vec![',', ')', '\u{30f}', '\n', '\u{30f}'], 4);
    assert_eq!(s.next(), Some(','));
    assert_eq!(s.next(), Some(')'));
    assert_eq!(s.next(), Some('\u{30f}'));
    assert_eq!(s.next(), Some('\n'));
}

#[test]
fn test_nfc_nobuffer_cgj() {
    let t = tables();
    let mut s = Limited::new(&t, vec!['a', 'b', 'c', '\u{34f}', 'd', 'e', 'f'], 4);
    assert_eq!(s.next(), Some('a'));
    assert_eq!(s.next(), Some('b'));
    assert_eq!(s.next(), Some('c'));
    assert_eq!(s.next(), Some('\u{34f}'));
}

#[test]
fn test_nfc_nobuffer_cgj_at_start() {
    let t = tables();
    let mut s = Limited::new(&t, vec!['\u{34f}', 'd', 'e', 'f'], 1);
    assert_eq!(s.next(), Some('\u{34f}'));
}

#[test]
fn test_nfc_nobuffer_cgj_after_combine() {
    let t = tables();
    let mut s = Limited::new(&t, vec!['A', '\u{30a}', '\u{34f}', 'd', 'e', 'f'], 3);
    assert_eq!(s.next(), Some('\u{c5}'));
    assert_eq!(s.next(), Some('\u{34f}'));
}

#[test]
fn test_nfc_nobuffer_cgj_after_block() {
    let t = tables();
    let mut s = Limited::new(&t, vec![',', ')', '\u{30f}', '\u{34f}', '\u{30f}'], 4);
    assert_eq!(s.next(), Some(','));
    assert_eq!(s.next(), Some(')'));
    assert_eq!(s.next(), Some('\u{30f}'));
    assert_eq!(s.next(), Some('\u{34f}'));
}

#[test]
fn test_streamsafe_regression() {
    let t = tables();
    let input = "\u{342}".repeat(55) + &"\u{344}".repeat(3);
    let nfc_ss = string(StreamSafe::new(&t, recompose::new_canonical(&t, chars(&input))));

    // The result should be NFC:
    assert!(is_nfc(&t, &text(&nfc_ss)));
    // and should be stream-safe:
    assert!(is_nfc_stream_safe(&t, &text(&nfc_ss)))
}

struct NormalizationTest {
    source: &'static str,
    nfc: &'static str,
    nfd: &'static str,
    nfkc: &'static str,
    nfkd: &'static str,
}

// Lines of the Unicode Character Database's conformance test.
const NORMALIZATION_TESTS: &[NormalizationTest] = &[
    NormalizationTest {
        source: "\u{1E0A}",
        nfc: "\u{1E0A}",
        nfd: "\u{0044}\u{0307}",
        nfkc: "\u{1E0A}",
        nfkd: "\u{0044}\u{0307}",
    },
    NormalizationTest {
        source: "\u{1E0C}",
        nfc: "\u{1E0C}",
        nfd: "\u{0044}\u{0323}",
        nfkc: "\u{1E0C}",
        nfkd: "\u{0044}\u{0323}",
    },
    NormalizationTest {
        source: "\u{1E0A}\u{0323}",
        nfc: "\u{1E0C}\u{0307}",
        nfd: "\u{0044}\u{0323}\u{0307}",
        nfkc: "\u{1E0C}\u{0307}",
        nfkd: "\u{0044}\u{0323}\u{0307}",
    },
    NormalizationTest {
        source: "\u{1E0C}\u{0307}",
        nfc: "\u{1E0C}\u{0307}",
        nfd: "\u{0044}\u{0323}\u{0307}",
        nfkc: "\u{1E0C}\u{0307}",
        nfkd: "\u{0044}\u{0323}\u{0307}",
    },
    NormalizationTest {
        source: "\u{0044}\u{0307}\u{0323}",
        nfc: "\u{1E0C}\u{0307}",
        nfd: "\u{0044}\u{0323}\u{0307}",
        nfkc: "\u{1E0C}\u{0307}",
        nfkd: "\u{0044}\u{0323}\u{0307}",
    },
    NormalizationTest {
        source: "\u{00C5}",
        nfc: "\u{00C5}",
        nfd: "\u{0041}\u{030A}",
        nfkc: "\u{00C5}",
        nfkd: "\u{0041}\u{030A}",
    },
    NormalizationTest {
        source: "\u{212B}",
        nfc: "\u{00C5}",
        nfd: "\u{0041}\u{030A}",
        nfkc: "\u{00C5}",
        nfkd: "\u{0041}\u{030A}",
    },
    NormalizationTest {
        source: "\u{2126}",
        nfc: "\u{03A9}",
        nfd: "\u{03A9}",
        nfkc: "\u{03A9}",
        nfkd: "\u{03A9}",
    },
    NormalizationTest {
        source: "\u{FB01}",
        nfc: "\u{FB01}",
        nfd: "\u{FB01}",
        nfkc: "\u{0066}\u{0069}",
        nfkd: "\u{0066}\u{0069}",
    },
    NormalizationTest {
        source: "\u{AC00}\u{11A8}",
        nfc: "\u{AC01}",
        nfd: "\u{1100}\u{1161}\u{11A8}",
        nfkc: "\u{AC01}",
        nfkd: "\u{1100}\u{1161}\u{11A8}",
    },
    NormalizationTest {
        source: "\u{1100}\u{AC00}\u{11A8}",
        nfc: "\u{1100}\u{AC01}",
        nfd: "\u{1100}\u{1100}\u{1161}\u{11A8}",
        nfkc: "\u{1100}\u{AC01}",
        nfkd: "\u{1100}\u{1100}\u{1161}\u{11A8}",
    },
    NormalizationTest {
        source: "\u{0061}\u{0315}\u{0300}\u{05AE}\u{0300}\u{0062}",
        nfc: "\u{00E0}\u{05AE}\u{0300}\u{0315}\u{0062}",
        nfd: "\u{0061}\u{05AE}\u{0300}\u{0300}\u{0315}\u{0062}",
        nfkc: "\u{00E0}\u{05AE}\u{0300}\u{0315}\u{0062}",
        nfkd: "\u{0061}\u{05AE}\u{0300}\u{0300}\u{0315}\u{0062}",
    },
];

fn check_official(t: &Tables) {
    for test in NORMALIZATION_TESTS {
        // these invariants come from the CONFORMANCE section of
        // http://www.unicode.org/Public/UNIDATA/NormalizationTest.txt
        {
            let r1 = nfc(t, test.source);
            let r2 = nfc(t, test.nfc);
            let r3 = nfc(t, test.nfd);
            let r4 = nfc(t, test.nfkc);
            let r5 = nfc(t, test.nfkd);
            assert_eq!(test.nfc, &r1[..]);
            assert_eq!(test.nfc, &r2[..]);
            assert_eq!(test.nfc, &r3[..]);
            assert_eq!(test.nfkc, &r4[..]);
            assert_eq!(test.nfkc, &r5[..]);
        }

        {
            let r1 = nfd(t, test.source);
            let r2 = nfd(t, test.nfc);
            let r3 = nfd(t, test.nfd);
            let r4 = nfd(t, test.nfkc);
            let r5 = nfd(t, test.nfkd);
            assert_eq!(test.nfd, &r1[..]);
            assert_eq!(test.nfd, &r2[..]);
            assert_eq!(test.nfd, &r3[..]);
            assert_eq!(test.nfkd, &r4[..]);
            assert_eq!(test.nfkd, &r5[..]);
        }

        {
            let r1 = nfkc(t, test.source);
            let r2 = nfkc(t, test.nfc);
            let r3 = nfkc(t, test.nfd);
            let r4 = nfkc(t, test.nfkc);
            let r5 = nfkc(t, test.nfkd);
            assert_eq!(test.nfkc, &r1[..]);
            assert_eq!(test.nfkc, &r2[..]);
            assert_eq!(test.nfkc, &r3[..]);
            assert_eq!(test.nfkc, &r4[..]);
            assert_eq!(test.nfkc, &r5[..]);
        }

        {
            let r1 = nfkd(t, test.source);
            let r2 = nfkd(t, test.nfc);
            let r3 = nfkd(t, test.nfd);
            let r4 = nfkd(t, test.nfkc);
            let r5 = nfkd(t, test.nfkd);
            assert_eq!(test.nfkd, &r1[..]);
            assert_eq!(test.nfkd, &r2[..]);
            assert_eq!(test.nfkd, &r3[..]);
            assert_eq!(test.nfkd, &r4[..]);
            assert_eq!(test.nfkd, &r5[..]);
        }
    }
}

#[test]
fn tests_test_official() {
    check_official(&tables());
}

#[test]
fn normalization_test_official() {
    check_official(&tables());
}

#[test]
fn tests_test_normalization_tests_unaffected() {
    let t = tables();
    for test in NORMALIZATION_TESTS {
        for &s in &[test.source, test.nfc, test.nfd, test.nfkc, test.nfkd] {
            assert_eq!(stream_safe(&t, s), s);
        }
    }
}

#[test]
fn stream_safe_normalization_test_normalization_tests_unaffected() {
    let t = tables();
    for test in NORMALIZATION_TESTS {
        for &s in &[test.source, test.nfc, test.nfd, test.nfkc, test.nfkd] {
            assert_eq!(stream_safe(&t, s), s);
        }
    }
}

#[test]
fn test_quick_check() {
    let t = tables();
    for test in NORMALIZATION_TESTS {
        assert!(is_nfc(&t, &text(test.nfc)));
        assert!(is_nfd(&t, &text(test.nfd)));
        assert!(is_nfkc(&t, &text(test.nfkc)));
        assert!(is_nfkd(&t, &text(test.nfkd)));
        if test.nfc != test.nfd {
            assert!(!is_nfc(&t, &text(test.nfd)));
            assert!(!is_nfd(&t, &text(test.nfc)));
        }
        if test.nfkc != test.nfc {
            assert!(!is_nfkc(&t, &text(test.nfc)));
            assert!(is_nfc(&t, &text(test.nfkc)));
        }
        if test.nfkd != test.nfd {
            assert!(!is_nfkd(&t, &text(test.nfd)));
            assert!(is_nfd(&t, &text(test.nfkd)));
        }
    }
}

#[test]
fn quick_check_of_ascii_is_yes() {
    let t = tables();
    assert_eq!(is_nfc_quick(&t, chars("abc")), IsNormalized::Yes);
    assert_eq!(is_nfd_quick(&t, chars("abc")), IsNormalized::Yes);
    assert_eq!(is_nfkc_quick(&t, chars("abc")), IsNormalized::Yes);
    assert_eq!(is_nfkd_quick(&t, chars("abc")), IsNormalized::Yes);
    assert!(is_nfc(&t, &text("abc")));
}

#[test]
fn quick_check_of_a_mark_that_may_compose_is_maybe() {
    let t = tables();
    assert_eq!(is_nfc_quick(&t, chars("e\u{301}")), IsNormalized::Maybe);
    assert!(!is_nfc(&t, &text("e\u{301}")));
    // The same mark behind a letter that it does not compose with.
    assert_eq!(is_nfc_quick(&t, chars("q\u{301}")), IsNormalized::Maybe);
    assert!(is_nfc(&t, &text("q\u{301}")));
    assert_eq!(is_nfd_quick(&t, chars("e\u{301}")), IsNormalized::Yes);
    assert!(is_nfd(&t, &text("e\u{301}")));
}

#[test]
fn quick_check_says_no_to_marks_out_of_order() {
    let t = tables();
    // Class 230 in front of class 220.
    assert_eq!(is_nfd_quick(&t, chars("d\u{307}\u{323}")), IsNormalized::No);
    assert_eq!(is_nfc_quick(&t, chars("d\u{307}\u{323}")), IsNormalized::No);
    assert!(!is_nfd(&t, &text("d\u{307}\u{323}")));
    assert_eq!(is_nfd_quick(&t, chars("d\u{323}\u{307}")), IsNormalized::Yes);
}

#[test]
fn quick_check_says_no_to_a_character_of_class_no() {
    let t = tables();
    assert_eq!(is_nfc_quick(&t, chars("\u{212B}")), IsNormalized::No);
    assert_eq!(is_nfd_quick(&t, chars("\u{E9}")), IsNormalized::No);
    assert_eq!(is_nfkc_quick(&t, chars("\u{FB01}")), IsNormalized::No);
    assert_eq!(is_nfkd_quick(&t, chars("\u{FB01}")), IsNormalized::No);
    assert_eq!(is_nfc_quick(&t, chars("\u{FB01}")), IsNormalized::Yes);
    assert!(!is_nfc(&t, &text("\u{212B}")));
    assert!(!is_nfkc(&t, &text("\u{FB01}")));
    assert!(!is_nfkd(&t, &text("\u{FB01}")));
}

#[test]
fn stream_safe_inserts_one_joiner_before_the_31st_mark() {
    let t = tables();
    let input = "a".to_string() + &"\u{301}".repeat(31);
    let expected = "a".to_string() + &"\u{301}".repeat(30) + "\u{34f}\u{301}";
    assert_eq!(stream_safe(&t, &input), expected);
    // Thirty marks are left alone.
    let input = "a".to_string() + &"\u{301}".repeat(30);
    assert_eq!(stream_safe(&t, &input), input);
}

#[test]
fn stream_safe_counts_on_behind_a_joiner() {
    let t = tables();
    let input = "\u{301}".repeat(62);
    let expected =
        "\u{301}".repeat(30) + "\u{34f}" + &"\u{301}".repeat(30) + "\u{34f}" + &"\u{301}".repeat(2);
    assert_eq!(stream_safe(&t, &input), expected);
    // A text that is stream-safe already is left as it is.
    assert_eq!(stream_safe(&t, &expected), expected);
}

#[test]
fn stream_safe_counts_the_marks_that_end_a_decomposition() {
    let t = tables();
    // U+00E9 ends in one mark, so only 29 more fit behind it.
    let input = "\u{e9}".to_string() + &"\u{301}".repeat(30);
    let expected = "\u{e9}".to_string() + &"\u{301}".repeat(29) + "\u{34f}\u{301}";
    assert_eq!(stream_safe(&t, &input), expected);
    // U+0344 stands for two marks.
    let input = "a".to_string() + &"\u{344}".repeat(16);
    let expected = "a".to_string() + &"\u{344}".repeat(15) + "\u{34f}\u{344}";
    assert_eq!(stream_safe(&t, &input), expected);
}

#[test]
fn stream_safe_quick_check_says_no_to_a_long_run() {
    let t = tables();
    let long = "a".to_string() + &"\u{301}".repeat(31);
    assert_eq!(is_nfc_stream_safe_quick(&t, chars(&long)), IsNormalized::No);
    assert!(!is_nfc_stream_safe(&t, &text(&long)));
    assert!(!is_nfd_stream_safe(&t, &text(&long)));
    let safe = stream_safe(&t, &long);
    assert!(is_nfd_stream_safe(&t, &text(&safe)));
    assert!(is_nfc_stream_safe(&t, &text(&nfc(&t, &safe))));
}

#[test]
fn jamo_compose_to_a_syllable() {
    let t = tables();
    assert_eq!(nfc(&t, "\u{1100}\u{1161}"), "\u{AC00}");
    assert_eq!(nfc(&t, "\u{1100}\u{1161}\u{11A8}"), "\u{AC01}");
    assert_eq!(nfc(&t, "\u{1112}\u{1175}\u{11C2}"), "\u{D7A3}");
    assert_eq!(nfd(&t, "\u{D7A3}"), "\u{1112}\u{1175}\u{11C2}");
}

#[test]
fn a_pair_outside_the_basic_plane_composes() {
    let t = tables();
    assert_eq!(nfc(&t, "\u{11099}\u{110BA}"), "\u{1109A}");
    assert_eq!(nfd(&t, "\u{1109A}"), "\u{11099}\u{110BA}");
}

#[test]
fn normalization_is_idempotent_on_the_conformance_lines() {
    let t = tables();
    for test in NORMALIZATION_TESTS {
        let d = nfd(&t, test.source);
        assert_eq!(nfd(&t, &d), d);
        let c = nfc(&t, test.source);
        assert_eq!(nfc(&t, &c), c);
        let kd = nfkd(&t, test.source);
        assert_eq!(nfkd(&t, &kd), kd);
        let kc = nfkc(&t, test.source);
        assert_eq!(nfkc(&t, &kc), kc);
        assert!(d.chars().count() >= c.chars().count());
        assert!(kd.chars().count() >= kc.chars().count());
    }
}

#[test]
fn composing_a_stream_safe_text_reads_a_bounded_number_of_marks_ahead() {
    let t = tables();
    let input = "a".to_string() + &"\u{5ae}".repeat(100) + "b" + &"\u{315}".repeat(70);
    let safe: Vec<char> = stream_safe(&t, &input).chars().collect();
    let mut stage = recompose::new_canonical(&t, Chars::new(safe.clone()));
    let mut emitted: usize = 0;
    let mut last_position: usize = 0;
    while let Some(_) = stage.next() {
        emitted += 1;
        let position = stage.get_ref().position();
        let marks = safe[last_position..position]
            .iter()
            .filter(|&&c| c == '\u{5ae}' || c == '\u{315}')
            .count();
        assert!(marks <= 30 + 1);
        last_position = position;
    }
    assert_eq!(emitted, safe.len());
}

#[test]
fn my_hash_scales_a_mixed_key_into_the_table() {
    // key 0, salt 0: both products are 0.
    assert_eq!(my_hash(0, 0, 10), 0);
    // key 1, salt 0: 0x9E3779B9 ^ 0x31415926 is 0xAF76209F, and its top four bits are 0xA.
    let y: u32 = 2654435769u32 ^ 0x31415926u32;
    assert_eq!(y, 0xAF76209F);
    assert_eq!(my_hash(1, 0, 16), ((y as u64 * 16) >> 32) as usize);
    assert_eq!(my_hash(1, 0, 16), 10);
    // The salt is added to the key before the first product.
    let y: u32 = 3u32.wrapping_mul(2654435769) ^ 0x31415926u32;
    assert_eq!(my_hash(1, 2, 1000), ((y as u64 * 1000) >> 32) as usize);
    for key in 0..2000u32 {
        assert!(my_hash(key, 7, 13) < 13);
    }
    assert_eq!(my_hash(0xFFFF_FFFF, 0xFFFF_FFFF, 1), 0);
}

#[test]
fn mph_lookup_finds_the_key_or_gives_the_default() {
    let (salt, kv) = packed(&[(0x0301, 230), (0x0323, 220), (0x05AE, 228)]);
    assert_eq!(mph_lookup(0x0301, &salt, &kv, u8_lookup_fk, u8_lookup_fv, 0), 230);
    assert_eq!(mph_lookup(0x0323, &salt, &kv, u8_lookup_fk, u8_lookup_fv, 0), 220);
    assert_eq!(mph_lookup(0x05AE, &salt, &kv, u8_lookup_fk, u8_lookup_fv, 0), 228);
    assert_eq!(mph_lookup(0x0041, &salt, &kv, u8_lookup_fk, u8_lookup_fv, 0), 0);
    assert_eq!(mph_lookup(0x0041, &salt, &kv, u8_lookup_fk, u8_lookup_fv, 9), 9);
    let pairs: Vec<(u32, char)> = vec![(5, 'x'), (6, 'y')];
    let (salt, kv) = perfect_hash(&pairs, |kv| kv.0, (0xFFFF_FFFF, '\0'));
    assert_eq!(mph_lookup(5, &salt, &kv, pair_lookup_fk, pair_lookup_fv_opt, None), Some('x'));
    assert_eq!(mph_lookup(7, &salt, &kv, pair_lookup_fk, pair_lookup_fv_opt, None), None);
}

#[test]
fn packed_entries_split_into_key_and_value() {
    assert_eq!(u8_lookup_fk(0x0003_01E6), 0x0301);
    assert_eq!(u8_lookup_fv(0x0003_01E6), 0xE6);
    assert_eq!(u8_lookup_fk(0xFFFF_FFFF), 0x00FF_FFFF);
    assert_eq!(u8_lookup_fv(0xFFFF_FF00), 0);
    assert_eq!(pair_lookup_fk((7u32, 'a')), 7);
    assert_eq!(pair_lookup_fv_opt((7u32, 'a')), Some('a'));
}

#[test]
fn lookups_read_the_tables() {
    let t = tables();
    assert_eq!(canonical_combining_class(&t, 'a'), 0);
    assert_eq!(canonical_combining_class(&t, '\u{301}'), 230);
    assert_eq!(canonical_combining_class(&t, '\u{323}'), 220);
    assert_eq!(canonical_combining_class(&t, '\u{110BA}'), 7);
    assert_eq!(canonical_combining_class(&t, '\u{10FFFF}'), 0);
    assert!(is_combining_mark(&t, '\u{301}'));
    assert!(!is_combining_mark(&t, 'a'));
    assert!(is_default_ignorable_mark(&t, '\u{180F}'));
    assert!(!is_default_ignorable_mark(&t, '\u{301}'));
    assert!(not_in_ccs(&t, '\u{FFFF}'));
    assert!(!not_in_ccs(&t, 'a'));
    assert_eq!(stream_safe_trailing_nonstarters(&t, '\u{344}'), 2);
    assert_eq!(stream_safe_trailing_nonstarters(&t, '\u{E9}'), 1);
    assert_eq!(stream_safe_trailing_nonstarters(&t, 'a'), 0);
    assert_eq!(canonical_fully_decomposed(&t, '\u{E9}'), Some(&['e', '\u{301}'][..]));
    assert_eq!(canonical_fully_decomposed(&t, 'e'), None);
    assert_eq!(canonical_fully_decomposed(&t, '\u{FB01}'), None);
    assert_eq!(compatibility_fully_decomposed(&t, '\u{FB01}'), Some(&['f', 'i'][..]));
    assert_eq!(compatibility_fully_decomposed(&t, '\u{E9}'), None);
    assert_eq!(
        cjk_compat_variants_fully_decomposed(&t, '\u{2F999}'),
        Some(&['\u{831D}', '\u{FE00}'][..])
    );
    assert_eq!(cjk_compat_variants_fully_decomposed(&t, '\u{831D}'), None);
    assert_eq!(composition_table(&t, 'e', '\u{301}'), Some('\u{E9}'));
    assert_eq!(composition_table(&t, '\u{301}', 'e'), None);
    assert_eq!(composition_table(&t, '\u{11099}', '\u{110BA}'), Some('\u{1109A}'));
    assert_eq!(composition_table(&t, '\u{11099}', '\u{301}'), None);
    assert_eq!(composition_table(&t, 'e', '\u{110BA}'), None);
}

#[test]
fn quick_check_classes_come_from_two_bits_each() {
    let t = tables();
    assert_eq!(quick_check_class(&t, Form::Nfc, '\u{301}'), IsNormalized::Maybe);
    assert_eq!(quick_check_class(&t, Form::Nfd, '\u{301}'), IsNormalized::Yes);
    assert_eq!(quick_check_class(&t, Form::Nfkc, '\u{301}'), IsNormalized::Maybe);
    assert_eq!(quick_check_class(&t, Form::Nfkd, '\u{301}'), IsNormalized::Yes);
    assert_eq!(quick_check_class(&t, Form::Nfc, '\u{E9}'), IsNormalized::Yes);
    assert_eq!(quick_check_class(&t, Form::Nfd, '\u{E9}'), IsNormalized::No);
    assert_eq!(quick_check_class(&t, Form::Nfkc, '\u{E9}'), IsNormalized::Yes);
    assert_eq!(quick_check_class(&t, Form::Nfkd, '\u{E9}'), IsNormalized::No);
    assert_eq!(quick_check_class(&t, Form::Nfc, '\u{FB01}'), IsNormalized::Yes);
    assert_eq!(quick_check_class(&t, Form::Nfkc, '\u{FB01}'), IsNormalized::No);
    assert_eq!(quick_check_class(&t, Form::Nfc, 'q'), IsNormalized::Yes);
}

#[test]
fn tables_with_a_slice_out_of_bounds_are_not_valid() {
    let mut t = tables();
    assert!(t.is_valid());
    t.canonical_decomposed_chars.pop();
    t.canonical_decomposed_chars.pop();
    assert!(!t.is_valid());
    let mut t = tables();
    t.combining_mark_salt.push(0);
    assert!(!t.is_valid());
    let mut t = tables();
    t.quick_check_salt.clear();
    t.quick_check_kv.clear();
    assert!(!t.is_valid());
}

#[test]
fn one_character_decomposes() {
    let t = tables();
    let mut out: Vec<char> = vec!['x'];
    decompose_canonical(&t, 'a', &mut out);
    decompose_canonical(&t, '\u{E9}', &mut out);
    decompose_canonical(&t, '\u{FB01}', &mut out);
    decompose_canonical(&t, '\u{AC01}', &mut out);
    assert_eq!(
        out,
        vec!['x', 'a', 'e', '\u{301}', '\u{FB01}', '\u{1100}', '\u{1161}', '\u{11A8}']
    );
    let mut out: Vec<char> = Vec::new();
    decompose_compatible(&t, 'a', &mut out);
    decompose_compatible(&t, '\u{E9}', &mut out);
    decompose_compatible(&t, '\u{FB01}', &mut out);
    decompose_compatible(&t, '\u{AC00}', &mut out);
    assert_eq!(out, vec!['a', 'e', '\u{301}', 'f', 'i', '\u{1100}', '\u{1161}']);
    let mut out: Vec<char> = Vec::new();
    decompose_cjk_compat_variants(&t, '\u{2F999}', &mut out);
    decompose_cjk_compat_variants(&t, 'a', &mut out);
    decompose_cjk_compat_variants(&t, '\u{AC00}', &mut out);
    assert_eq!(out, vec!['\u{831D}', '\u{FE00}', 'a', '\u{AC00}']);
}

#[test]
fn hangul_syllables_split_by_arithmetic() {
    let mut out: Vec<char> = Vec::new();
    decompose_hangul('\u{AC00}', &mut out);
    assert_eq!(out, vec!['\u{1100}', '\u{1161}']);
    let mut out: Vec<char> = Vec::new();
    decompose_hangul('\u{D7A3}', &mut out);
    assert_eq!(out, vec!['\u{1112}', '\u{1175}', '\u{11C2}']);
    let mut out: Vec<char> = Vec::new();
    decompose_hangul('\u{D55C}', &mut out);
    assert_eq!(out, vec!['\u{1112}', '\u{1161}', '\u{11AB}']);
    assert_eq!(hangul_decomposition_length('\u{AC00}'), 2);
    assert_eq!(hangul_decomposition_length('\u{AC01}'), 3);
}

#[test]
fn two_characters_compose() {
    let t = tables();
    assert_eq!(compose(&t, 'A', '\u{30a}'), Some('\u{C5}'));
    assert_eq!(compose(&t, 'A', '\u{301}'), None);
    assert_eq!(compose(&t, '\u{1100}', '\u{1161}'), Some('\u{AC00}'));
    assert_eq!(compose(&t, '\u{AC00}', '\u{11A8}'), Some('\u{AC01}'));
    assert_eq!(compose_hangul('\u{1112}', '\u{1161}'), Some('\u{D558}'));
    assert_eq!(compose_hangul('\u{D558}', '\u{11AB}'), Some('\u{D55C}'));
    assert_eq!(compose_hangul('\u{1112}', '\u{1175}'), Some('\u{D788}'));
    assert_eq!(compose_hangul('\u{D788}', '\u{11C2}'), Some('\u{D7A3}'));
    // Not a leading consonant of modern Hangul, not a vowel of modern Hangul.
    assert_eq!(compose_hangul('\u{1113}', '\u{1161}'), None);
    assert_eq!(compose_hangul('\u{1100}', '\u{1176}'), None);
    assert_eq!(compose_hangul('\u{1100}', '\u{1160}'), None);
    // A syllable that has a trailing consonant takes no other.
    assert_eq!(compose_hangul('\u{AC01}', '\u{11A8}'), None);
    // U+11A7 is no trailing consonant, U+11C3 is none of modern Hangul.
    assert_eq!(compose_hangul('\u{AC00}', '\u{11A7}'), None);
    assert_eq!(compose_hangul('\u{AC00}', '\u{11C3}'), None);
    assert_eq!(compose_hangul('a', 'b'), None);
}

#[test]
fn characters_are_classified_by_the_ends_of_their_decomposition() {
    let t = tables();
    let d = classify_nonstarters(&t, 'a');
    assert_eq!((d.leading_nonstarters, d.trailing_nonstarters, d.decomposition_len), (0, 0, 1));
    let d = classify_nonstarters(&t, '\u{AC01}');
    assert_eq!((d.leading_nonstarters, d.trailing_nonstarters, d.decomposition_len), (0, 0, 3));
    let d = classify_nonstarters(&t, '\u{301}');
    assert_eq!((d.leading_nonstarters, d.trailing_nonstarters, d.decomposition_len), (1, 1, 1));
    let d = classify_nonstarters(&t, '\u{3A9}');
    assert_eq!((d.leading_nonstarters, d.trailing_nonstarters, d.decomposition_len), (0, 0, 1));
    let d = classify_nonstarters(&t, '\u{E9}');
    assert_eq!((d.leading_nonstarters, d.trailing_nonstarters, d.decomposition_len), (0, 1, 2));
    let d = classify_nonstarters(&t, '\u{344}');
    assert_eq!((d.leading_nonstarters, d.trailing_nonstarters, d.decomposition_len), (2, 2, 2));
    let d = classify_nonstarters(&t, '\u{1C4}');
    assert_eq!((d.leading_nonstarters, d.trailing_nonstarters, d.decomposition_len), (0, 1, 3));
}

#[test]
fn the_kinds_of_characters_in_combining_sequences() {
    let t = tables();
    assert_eq!(CcsKind::of(&t, 'a'), Some(CcsKind::Base));
    assert_eq!(CcsKind::of(&t, '\u{301}'), Some(CcsKind::NonIgnorableCombining));
    assert_eq!(CcsKind::of(&t, '\u{180F}'), Some(CcsKind::IgnorableCombining));
    assert_eq!(CcsKind::of(&t, '\u{200C}'), Some(CcsKind::IgnorableCombining));
    assert_eq!(CcsKind::of(&t, '\u{200D}'), Some(CcsKind::IgnorableCombining));
    assert_eq!(CcsKind::of(&t, '\u{FFFF}'), None);
}

#[test]
fn a_sequence_behind_a_character_outside_sequences_is_defective() {
    let t = tables();
    check_ccs(&t, "a\n\u{0301}", "a\n\u{00A0}\u{0301}");
    check_ccs(&t, "\u{0301}\u{0301}", "\u{00A0}\u{0301}\u{0301}");
    check_ccs(&t, "\u{180F}\u{FFFF}\u{0301}", "\u{180F}\u{FFFF}\u{00A0}\u{0301}");
    check_ccs(&t, "\u{180F}a\u{0301}", "\u{180F}a\u{0301}");
    check_ccs(&t, "\u{200D}", "\u{200D}");
}

#[test]
fn a_stage_stays_exhausted() {
    let t = tables();
    let mut stage = chars("\u{180F}").correct_defective_ccs(&t);
    assert_eq!(stage.next(), Some('\u{180F}'));
    assert_eq!(stage.next(), None);
    assert_eq!(stage.next(), None);
    let mut stage = chars("a\u{301}").nfc(&t);
    assert_eq!(stage.next(), Some('\u{E1}'));
    assert_eq!(stage.next(), None);
    assert_eq!(stage.next(), None);
    let mut stage = chars("\u{301}").nfd(&t);
    assert_eq!(stage.next(), Some('\u{301}'));
    assert_eq!(stage.next(), None);
    assert_eq!(stage.next(), None);
    let mut stage = chars("\u{1100}").nfc_ks_x_1026_1(&t);
    assert_eq!(stage.next(), Some('\u{1100}'));
    assert_eq!(stage.next(), None);
    assert_eq!(stage.next(), None);
    let mut stage = chars("").stream_safe(&t);
    assert_eq!(stage.next(), None);
    assert_eq!(stage.next(), None);
}

#[test]
fn the_methods_build_the_stages() {
    let t = tables();
    assert_eq!(string(chars("\u{1e0b}\u{323}").nfd(&t)), "d\u{323}\u{307}");
    assert_eq!(string(chars("\u{1e0b}\u{1c4}").nfkd(&t)), "d\u{307}DZ\u{30c}");
    assert_eq!(string(chars("\u{1e0b}\u{323}").nfc(&t)), "\u{1e0d}\u{307}");
    assert_eq!(string(chars("\u{1e0b}\u{1c4}").nfkc(&t)), "\u{1e0b}D\u{17d}");
    assert_eq!(string(chars("\u{2f999}").cjk_compat_variants(&t)), "\u{831d}\u{fe00}");
    assert_eq!(string(chars("\u{0301}b").correct_defective_ccs(&t)), "\u{00A0}\u{0301}b");
    assert_eq!(string(chars("q\u{301}").stream_safe(&t)), "q\u{301}");
    assert_eq!(string(chars("\u{1100}a").standard_korean_syllables()), "\u{1100}\u{1160}a");
    assert_eq!(
        string(chars("\u{1161}").standard_korean_syllables_ks_x_1026_1()),
        "\u{115F}\u{1161}"
    );
    assert_eq!(string(chars("\u{3260}").nfkd_ks_x_1026_1(&t)), "\u{1100}\u{1160}");
    assert_eq!(string(chars("\u{3200}").nfkc_ks_x_1026_1(&t)), "(\u{1100}\u{1160})");
    assert_eq!(
        string(chars("\u{1100}\u{1161}\u{11EB}").nfc_ks_x_1026_1(&t)),
        "\u{1100}\u{1161}\u{11EB}"
    );
}

#[test]
fn old_trailing_consonants() {
    assert!(!is_old_jongseong('\u{11C2}'));
    assert!(is_old_jongseong('\u{11C3}'));
    assert!(is_old_jongseong('\u{11FF}'));
    assert!(!is_old_jongseong('\u{1200}'));
    assert!(!is_old_jongseong('\u{D7CA}'));
    assert!(is_old_jongseong('\u{D7CB}'));
    assert!(is_old_jongseong('\u{D7FB}'));
    assert!(!is_old_jongseong('\u{D7FC}'));
}

#[test]
fn a_syllable_in_front_of_an_old_trailing_consonant_is_taken_apart() {
    fn split(s: &str) -> String {
        string(RecomposeHangul::new(chars(s)))
    }
    assert_eq!(split(""), "");
    assert_eq!(split("\u{AC00}"), "\u{AC00}");
    assert_eq!(split("\u{AC00}\u{11C3}"), "\u{1100}\u{1161}\u{11C3}");
    assert_eq!(split("\u{AC1C}\u{D7CB}x"), "\u{1100}\u{1162}\u{D7CB}x");
    // A modern trailing consonant, and a syllable that has one already.
    assert_eq!(split("\u{AC00}\u{11C2}"), "\u{AC00}\u{11C2}");
    assert_eq!(split("\u{AC01}\u{11C3}"), "\u{AC01}\u{11C3}");
    assert_eq!(split("a\u{11C3}\u{AC00}\u{11C3}"), "a\u{11C3}\u{1100}\u{1161}\u{11C3}");
}

#[test]
fn hangul_compatibility_characters_become_syllable_blocks() {
    fn expand(s: &str) -> String {
        string(NormalizeJamoKdkc::new(chars(s)))
    }
    assert_eq!(expand("abc"), "abc");
    // A leading consonant, a vowel, a trailing consonant.
    assert_eq!(expand("\u{3131}"), "\u{1100}\u{1160}");
    assert_eq!(expand("\u{314F}"), "\u{115F}\u{1161}");
    assert_eq!(expand("\u{3133}"), "\u{115F}\u{1160}\u{11AA}");
    // The last compatibility letter, and the characters around the block.
    assert_eq!(expand("\u{318E}"), "\u{115F}\u{11A1}");
    assert_eq!(expand("\u{3130}\u{318F}"), "\u{3130}\u{318F}");
    // Parenthesized and circled letters.
    assert_eq!(expand("\u{320D}"), "(\u{1112}\u{1160})");
    assert_eq!(expand("\u{326D}"), "\u{1112}\u{1160}");
    assert_eq!(expand("\u{320E}\u{326E}"), "\u{320E}\u{326E}");
    // Halfwidth letters; U+FFBF stands for no jamo.
    assert_eq!(expand("\u{FFA1}"), "\u{1100}\u{1160}");
    assert_eq!(expand("\u{FFC2}"), "\u{115F}\u{1161}");
    assert_eq!(expand("\u{FFA3}"), "\u{115F}\u{1160}\u{11AA}");
    assert_eq!(expand("\u{FFBF}"), "\u{FFBF}");
    assert_eq!(expand("\u{FFDF}x"), "\u{FFDF}x");
    // The fillers themselves.
    assert_eq!(expand("\u{3164}"), "\u{115F}\u{1160}");
    assert_eq!(expand("\u{FFA0}"), "\u{115F}\u{1160}");
}

#[test]
fn a_stream_is_compared_with_a_text() {
    let t = tables();
    assert!(stream_equals(&text("abc"), &mut chars("abc")));
    assert!(!stream_equals(&text("abc"), &mut chars("abd")));
    assert!(!stream_equals(&text("abc"), &mut chars("ab")));
    assert!(!stream_equals(&text("ab"), &mut chars("abc")));
    assert!(stream_equals(&text(""), &mut chars("")));
    assert!(stream_equals(&text("\u{E1}"), &mut chars("a\u{301}").nfc(&t)));
}

#[test]
fn a_stream_counts_what_it_has_yielded() {
    let mut stream = chars("ab");
    assert_eq!(stream.position(), 0);
    assert_eq!(stream.next(), Some('a'));
    assert_eq!(stream.position(), 1);
    assert_eq!(stream.next(), Some('b'));
    assert_eq!(stream.next(), None);
    assert_eq!(stream.position(), 2);
}

#[test]
fn a_decomposition_reads_no_further_than_the_next_starter() {
    let t = tables();
    let mut stage = chars("a\u{301}\u{323}bc").nfd(&t);
    assert_eq!(stage.next(), Some('a'));
    assert_eq!(stage.get_ref().position(), 1);
    assert_eq!(stage.next(), Some('\u{323}'));
    assert_eq!(stage.get_ref().position(), 4);
    assert_eq!(stage.next(), Some('\u{301}'));
    assert_eq!(stage.next(), Some('b'));
    assert_eq!(stage.get_ref().position(), 4);
    assert_eq!(stage.next(), Some('c'));
    assert_eq!(stage.next(), None);
}

#[test]
fn marks_of_one_class_keep_their_order() {
    let t = tables();
    assert_eq!(
        nfd(&t, "a\u{308}\u{301}\u{323}\u{300}\u{5ae}\u{315}\u{307}"),
        "a\u{323}\u{5ae}\u{308}\u{301}\u{300}\u{307}\u{315}"
    );
    // Marks in front of the first starter are put in order too.
    assert_eq!(nfd(&t, "\u{301}\u{323}a"), "\u{323}\u{301}a");
}

#[test]
fn a_mark_behind_a_blocked_mark_of_its_class_does_not_compose() {
    let t = tables();
    // U+0305 does not compose with `a` and blocks the U+0301 behind it.
    assert_eq!(nfc(&t, "a\u{305}\u{301}"), "a\u{305}\u{301}");
    // U+05AE has a lower class and blocks nothing.
    assert_eq!(nfc(&t, "a\u{5ae}\u{301}"), "\u{e1}\u{5ae}");
    // A starter behind a blocked mark begins a new run.
    assert_eq!(nfc(&t, "a\u{305}e\u{301}"), "a\u{305}\u{e9}");
    // A leading mark is passed on.
    assert_eq!(nfc(&t, "\u{301}\u{301}e\u{301}"), "\u{301}\u{301}\u{e9}");
}

#[test]
fn the_stable_sort_by_class_sorts_a_slice() {
    let mut data = [(230u8, 'a'), (220, 'b'), (230, 'c'), (1, 'd'), (220, 'e'), (0, 'f')];
    decompose::sort_by_combining_class(&mut data);
    assert_eq!(data, [(0, 'f'), (1, 'd'), (220, 'b'), (220, 'e'), (230, 'a'), (230, 'c')]);
    let mut data: [(u8, char); 0] = [];
    decompose::sort_by_combining_class(&mut data);
    assert_eq!(data, []);
    let mut data = [(9u8, 'x')];
    decompose::sort_by_combining_class(&mut data);
    assert_eq!(data, [(9, 'x')]);
}

#[test]
fn stages_hand_out_what_they_hold_before_they_read_on() {
    let t = tables();
    // The joiner and the mark behind it come from one read.
    let input: String = "\u{301}".repeat(31) + "b";
    let mut stage = chars(&input).stream_safe(&t);
    for _ in 0..30 {
        assert_eq!(stage.next(), Some('\u{301}'));
    }
    assert_eq!(stage.get_ref().position(), 30);
    assert_eq!(stage.next(), Some('\u{34f}'));
    assert_eq!(stage.get_ref().position(), 31);
    assert_eq!(stage.next(), Some('\u{301}'));
    assert_eq!(stage.get_ref().position(), 31);
    assert_eq!(stage.next(), Some('b'));
    assert_eq!(stage.get_ref().position(), 32);
    // A variation sequence comes from one read.
    let mut stage = chars("\u{2f999}a").cjk_compat_variants(&t);
    assert_eq!(stage.next(), Some('\u{831d}'));
    assert_eq!(stage.get_ref().position(), 1);
    assert_eq!(stage.next(), Some('\u{fe00}'));
    assert_eq!(stage.get_ref().position(), 1);
    // A syllable block comes from one read.
    let mut stage = NormalizeJamoKdkc::new(chars("\u{3200}a"));
    assert_eq!(stage.next(), Some('('));
    assert_eq!(stage.next(), Some('\u{1100}'));
    assert_eq!(stage.next(), Some('\u{1160}'));
    assert_eq!(stage.next(), Some(')'));
    assert_eq!(stage.get_ref().position(), 1);
    assert_eq!(stage.next(), Some('a'));
    assert_eq!(stage.get_ref().position(), 2);
    // The stage that takes syllables apart is one character ahead.
    let mut stage = RecomposeHangul::new(chars("\u{AC00}\u{11C3}a"));
    assert_eq!(stage.get_ref().position(), 1);
    assert_eq!(stage.next(), Some('\u{1100}'));
    assert_eq!(stage.get_ref().position(), 2);
    assert_eq!(stage.next(), Some('\u{1161}'));
    assert_eq!(stage.get_ref().position(), 2);
    assert_eq!(stage.next(), Some('\u{11C3}'));
    assert_eq!(stage.get_ref().position(), 3);
    // Default-ignorable marks are held until the next character is known.
    let mut stage = chars("\u{180F}\u{180F}ab").correct_defective_ccs(&t);
    assert_eq!(stage.next(), Some('\u{180F}'));
    assert_eq!(stage.get_ref().position(), 3);
    assert_eq!(stage.next(), Some('\u{180F}'));
    assert_eq!(stage.next(), Some('a'));
    assert_eq!(stage.get_ref().position(), 3);
    assert_eq!(stage.next(), Some('b'));
    assert_eq!(stage.get_ref().position(), 4);
}

#[test]
fn a_stream_over_a_slice_yields_the_slice() {
    let t = tables();
    let data = text("a\u{301}b");
    let mut stream = SliceChars::new(&data);
    assert_eq!(stream.position(), 0);
    assert_eq!(stream.next(), Some('a'));
    assert_eq!(stream.next(), Some('\u{301}'));
    assert_eq!(stream.position(), 2);
    assert_eq!(stream.next(), Some('b'));
    assert_eq!(stream.next(), None);
    assert_eq!(stream.next(), None);
    assert_eq!(stream.position(), 3);
    assert_eq!(string(SliceChars::new(&data).nfc(&t)), "\u{e1}b");
    assert_eq!(collect(&mut SliceChars::new(&[])), Vec::<char>::new());
}

#[test]
fn the_jamo_behind_hangul_compatibility_characters() {
    assert_eq!(base_jamo('\u{3130}'), None);
    assert_eq!(base_jamo('\u{3131}'), Some(('\u{1100}', false)));
    assert_eq!(base_jamo('\u{3164}'), Some(('\u{1160}', false)));
    assert_eq!(base_jamo('\u{318E}'), Some(('\u{11A1}', false)));
    assert_eq!(base_jamo('\u{318F}'), None);
    assert_eq!(base_jamo('\u{3200}'), Some(('\u{1100}', true)));
    assert_eq!(base_jamo('\u{320D}'), Some(('\u{1112}', true)));
    assert_eq!(base_jamo('\u{320E}'), None);
    assert_eq!(base_jamo('\u{3260}'), Some(('\u{1100}', false)));
    assert_eq!(base_jamo('\u{326D}'), Some(('\u{1112}', false)));
    assert_eq!(base_jamo('\u{326E}'), None);
    assert_eq!(base_jamo('\u{FF9F}'), None);
    assert_eq!(base_jamo('\u{FFA0}'), Some(('\u{1160}', false)));
    assert_eq!(base_jamo('\u{FFBE}'), Some(('\u{1112}', false)));
    assert_eq!(base_jamo('\u{FFDF}'), Some(('\u{FFDF}', false)));
    assert_eq!(base_jamo('\u{FFE0}'), None);
    assert_eq!(base_jamo('a'), None);
}

// The longest run of characters of non-zero class in `s`.
fn longest_run(t: &Tables, s: &str) -> usize {
    let mut longest: usize = 0;
    let mut run: usize = 0;
    for c in s.chars() {
        if canonical_combining_class(t, c) == 0 {
            run = 0;
        } else {
            run += 1;
            longest = longest.max(run);
        }
    }
    longest
}

#[test]
fn decomposing_and_composing_keep_a_text_stream_safe() {
    let t = tables();
    let input = "e".to_string()
        + &"\u{323}".repeat(20)
        + &"\u{301}".repeat(20)
        + "\u{1E0B}"
        + &"\u{5ae}".repeat(45)
        + "\u{e9}"
        + &"\u{315}".repeat(33);
    let safe = stream_safe(&t, &input);
    assert!(longest_run(&t, &nfd(&t, &input)) > 30);
    for form in [nfd(&t, &safe), nfkd(&t, &safe), nfc(&t, &safe), nfkc(&t, &safe)] {
        assert!(longest_run(&t, &form) <= 30);
        assert_eq!(stream_safe(&t, &form), form);
    }
    assert!(is_nfd_stream_safe(&t, &text(&nfd(&t, &safe))));
    assert!(is_nfc_stream_safe(&t, &text(&nfc(&t, &safe))));
}

#[test]
fn a_text_that_the_quick_check_affirms_is_normalized() {
    let t = tables();
    for s in ["", "abc", "d\u{323}\u{307}", "\u{3a9}q\u{5ae}\u{301}", "\u{1100}\u{1161}"] {
        if is_nfd_quick(&t, chars(s)) == IsNormalized::Yes {
            assert_eq!(nfd(&t, s), s);
        }
        if is_nfkd_quick(&t, chars(s)) == IsNormalized::Yes {
            assert_eq!(nfkd(&t, s), s);
        }
        if is_nfc_quick(&t, chars(s)) == IsNormalized::Yes {
            assert_eq!(nfc(&t, s), s);
        }
        if is_nfkc_quick(&t, chars(s)) == IsNormalized::Yes {
            assert_eq!(nfkc(&t, s), s);
        }
    }
    assert_eq!(is_nfd_quick(&t, chars("d\u{323}\u{307}")), IsNormalized::Yes);
    assert_eq!(is_nfc_quick(&t, chars("\u{1E0D}\u{3a9}")), IsNormalized::Yes);
}

#[test]
fn a_denial_of_the_quick_check_is_a_denial_of_the_check() {
    let t = tables();
    for s in ["\u{212B}", "d\u{307}\u{323}", "\u{E9}", "\u{FB01}", "a\u{344}"] {
        if is_nfc_quick(&t, chars(s)) == IsNormalized::No {
            assert!(!is_nfc(&t, &text(s)));
        }
        if is_nfd_quick(&t, chars(s)) == IsNormalized::No {
            assert!(!is_nfd(&t, &text(s)));
        }
        if is_nfkc_quick(&t, chars(s)) == IsNormalized::No {
            assert!(!is_nfkc(&t, &text(s)));
        }
        if is_nfkd_quick(&t, chars(s)) == IsNormalized::No {
            assert!(!is_nfkd(&t, &text(s)));
        }
    }
    assert_eq!(is_nfc_quick(&t, chars("a\u{344}")), IsNormalized::No);
    assert_eq!(is_nfd_quick(&t, chars("\u{E9}")), IsNormalized::No);
}

#[test]
fn a_decomposed_form_is_in_canonical_order() {
    let t = tables();
    for s in [
        "a\u{315}\u{301}\u{5ae}\u{323}",
        "\u{1E0B}\u{323}\u{5ae}",
        "\u{301}\u{323}x\u{344}\u{323}",
        "\u{e9}\u{5ae}\u{1C4}\u{323}",
    ] {
        for form in [nfd(&t, s), nfkd(&t, s)] {
            let classes: Vec<u8> =
                form.chars().map(|c| canonical_combining_class(&t, c)).collect();
            for pair in classes.windows(2) {
                assert!(pair[0] == 0 || pair[1] == 0 || pair[0] <= pair[1]);
            }
        }
    }
}

#[test]
fn composing_a_stream_safe_text_holds_no_more_than_a_run_and_two_characters() {
    let t = tables();
    let input = "a".to_string()
        + &"\u{5ae}".repeat(100)
        + "\u{1E0B}"
        + &"\u{323}".repeat(40)
        + &"\u{307}".repeat(40)
        + "b"
        + &"\u{315}".repeat(70);
    let safe = stream_safe(&t, &input);
    let mut stage = chars(&safe).nfc(&t);
    let mut most: usize = 0;
    assert_eq!(stage.held(), 0);
    while let Some(_) = stage.next() {
        most = most.max(stage.held());
        assert!(stage.held() <= 30 + 2);
    }
    assert!(most >= 30);
    assert_eq!(stage.held(), 0);
    // Without the joiners the stage holds the whole run.
    let mut stage = chars(&input).nfc(&t);
    let mut most: usize = 0;
    while let Some(_) = stage.next() {
        most = most.max(stage.held());
    }
    assert!(most > 30 + 2);
}
