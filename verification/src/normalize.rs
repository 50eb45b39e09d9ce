//! Functions for computing canonical and compatible decompositions for Unicode characters.

use crate::perfect_hash::{
    canonical_decomposition_of, canonical_fully_decomposed, cjk_compat_variants_fully_decomposed,
    cjk_compat_variants_of, compatibility_decomposition_of, compatibility_fully_decomposed,
    composition_table, table_composition_of,
};
use crate::tables::Tables;
use vstd::prelude::*;

verus! {

// Constants from Unicode 9.0.0 Section 3.12 Conjoining Jamo Behavior
pub const S_BASE: u32 = 0xAC00;

pub const L_BASE: u32 = 0x1100;

pub const V_BASE: u32 = 0x1161;

pub const T_BASE: u32 = 0x11A7;

pub const L_COUNT: u32 = 19;

pub const V_COUNT: u32 = 21;

pub const T_COUNT: u32 = 28;

pub const N_COUNT: u32 = 588;

pub const S_COUNT: u32 = 11172;

/// Whether `x` is a Unicode scalar value: a code point that is no surrogate.
pub open spec fn is_scalar_value(x: u32) -> bool {
    x <= 0xD7FF || (0xE000 <= x && x <= 0x10FFFF)
}

/// Calls `char::from_u32` of the standard library, which gives the character
/// with the code `x` where `x` is a Unicode scalar value and `None` for a
/// surrogate or a number above U+10FFFF.
#[verifier::external_body]
pub(crate) fn char_from_u32(x: u32) -> (c: Option<char>)
    ensures
        c == if is_scalar_value(x) {
            Some(x as char)
        } else {
            None::<char>
        },
{
    char::from_u32(x)
}

/// Whether `c` is 7-bit ASCII.
pub open spec fn is_ascii(c: char) -> bool {
    c as u32 <= 0x7f
}

/// Whether `c` is a precomposed Hangul syllable.
pub open spec fn is_hangul_syllable(c: char) -> bool {
    S_BASE <= c as u32 && (c as u32) < S_BASE + S_COUNT
}

/// The jamo that a precomposed Hangul syllable stands for: a leading
/// consonant, a vowel and, unless the syllable has none, a trailing consonant.
pub open spec fn hangul_decomposition(s: char) -> Seq<char> {
    let si = s as u32 - S_BASE;
    let l = (L_BASE + si / (N_COUNT as int)) as char;
    let v = (V_BASE + (si % (N_COUNT as int)) / (T_COUNT as int)) as char;
    let ti = si % (T_COUNT as int);
    if ti > 0 {
        seq![l, v, (T_BASE + ti) as char]
    } else {
        seq![l, v]
    }
}

/// The syllable that a pair of Hangul characters composes to: a leading
/// consonant with a vowel, or a syllable without trailing consonant with a
/// trailing consonant.
pub open spec fn hangul_composition(a: char, b: char) -> Option<char> {
    let l = a as u32;
    let v = b as u32;
    if L_BASE <= l && l < L_BASE + L_COUNT && V_BASE <= v && v < V_BASE + V_COUNT {
        Some((S_BASE + (l - L_BASE) * N_COUNT + (v - V_BASE) * T_COUNT) as char)
    } else if S_BASE <= l && l <= S_BASE + S_COUNT - T_COUNT && T_BASE < v && v < T_BASE + T_COUNT
        && (l - S_BASE) % (T_COUNT as int) == 0 {
        Some((l + (v - T_BASE)) as char)
    } else {
        None
    }
}

/// The full canonical decomposition of one character.
pub open spec fn canonical_decomposition(tables: &Tables, c: char) -> Seq<char> {
    if is_ascii(c) {
        seq![c]
    } else if is_hangul_syllable(c) {
        hangul_decomposition(c)
    } else {
        match canonical_decomposition_of(tables, c) {
            Some(d) => d,
            None => seq![c],
        }
    }
}

/// The full compatibility decomposition of one character: the compatibility
/// mapping where the tables hold one, else the canonical one.
pub open spec fn compatible_decomposition(tables: &Tables, c: char) -> Seq<char> {
    if is_ascii(c) {
        seq![c]
    } else if is_hangul_syllable(c) {
        hangul_decomposition(c)
    } else {
        match compatibility_decomposition_of(tables, c) {
            Some(d) => d,
            None => match canonical_decomposition_of(tables, c) {
                Some(d) => d,
                None => seq![c],
            },
        }
    }
}

/// The standardized variation sequence that stands for one character, or
/// the character itself where it has none.
pub open spec fn cjk_compat_variants(tables: &Tables, c: char) -> Seq<char> {
    if is_ascii(c) {
        seq![c]
    } else {
        match cjk_compat_variants_of(tables, c) {
            Some(d) => d,
            None => seq![c],
        }
    }
}

/// The composite of two characters, by the Hangul rule or by the tables.
pub open spec fn composition(tables: &Tables, a: char, b: char) -> Option<char> {
    match hangul_composition(a, b) {
        Some(r) => Some(r),
        None => table_composition_of(tables, a, b),
    }
}

/// Composing two Hangul characters and decomposing the syllable gives the
/// two back: the first one, decomposed where it is a syllable, and the second.
pub proof fn lemma_hangul_composition_reverses(a: char, b: char)
    requires
        hangul_composition(a, b) is Some,
    ensures
        is_hangul_syllable(hangul_composition(a, b)->0),
        hangul_decomposition(hangul_composition(a, b)->0) == (if is_hangul_syllable(a) {
            hangul_decomposition(a)
        } else {
            seq![a]
        }).push(b),
{
    let l = a as u32;
    let v = b as u32;
    let r = hangul_composition(a, b)->0;
    if L_BASE <= l && l < L_BASE + L_COUNT && V_BASE <= v && v < V_BASE + V_COUNT {
        let li = (l - L_BASE) as int;
        let vi = (v - V_BASE) as int;
        let si = li * 588 + vi * 28;
        assert(r as u32 == S_BASE + si);
        assert(si / 588 == li && (si % 588) / 28 == vi && si % 28 == 0) by (nonlinear_arith)
            requires
                si == li * 588 + vi * 28,
                0 <= li < 19,
                0 <= vi < 21,
        ;
        assert(hangul_decomposition(r) =~= seq![a].push(b));
    } else {
        let si = (l - S_BASE) as int;
        let ti = (v - T_BASE) as int;
        assert(r as u32 == S_BASE + si + ti);
        assert((si + ti) / 588 == si / 588 && ((si + ti) % 588) / 28 == (si % 588) / 28 && (si
            + ti) % 28 == ti) by (nonlinear_arith)
            requires
                0 <= si < 11172,
                si % 28 == 0,
                0 < ti < 28,
        ;
        assert(hangul_decomposition(r) =~= hangul_decomposition(a).push(b));
    }
}

/// Decomposing a Hangul syllable and composing its jamo gives the syllable
/// back: the leading consonant and the vowel compose to a syllable, and
/// that syllable and the trailing consonant, if there is one, to the whole.
pub proof fn lemma_hangul_decomposition_reverses(s: char)
    requires
        is_hangul_syllable(s),
    ensures
        hangul_decomposition(s).len() == 2 ==> hangul_composition(
            hangul_decomposition(s)[0],
            hangul_decomposition(s)[1],
        ) == Some(s),
        hangul_decomposition(s).len() == 3 ==> hangul_composition(
            hangul_decomposition(s)[0],
            hangul_decomposition(s)[1],
        ) is Some && hangul_composition(
            hangul_composition(hangul_decomposition(s)[0], hangul_decomposition(s)[1])->0,
            hangul_decomposition(s)[2],
        ) == Some(s),
        2 <= hangul_decomposition(s).len() <= 3,
        L_BASE <= hangul_decomposition(s)[0] as u32 && (hangul_decomposition(s)[0] as u32) < L_BASE
            + L_COUNT,
        forall|i: int|
            1 <= i < hangul_decomposition(s).len() ==> V_BASE <= (
            #[trigger] hangul_decomposition(s)[i]) as u32 && (hangul_decomposition(s)[i] as u32)
                < T_BASE + T_COUNT,
{
    let si = (s as u32 - S_BASE) as int;
    let li = si / 588;
    let vi = (si % 588) / 28;
    let ti = si % 28;
    assert(0 <= li < 19 && 0 <= vi < 21 && 0 <= ti < 28 && si == li * 588 + vi * 28 + ti)
        by (nonlinear_arith)
        requires
            0 <= si < 11172,
            li == si / 588,
            vi == (si % 588) / 28,
            ti == si % 28,
    ;
    let l = (L_BASE + li) as char;
    let v = (V_BASE + vi) as char;
    let lv = (S_BASE + li * 588 + vi * 28) as char;
    assert(hangul_composition(l, v) == Some(lv));
    if ti > 0 {
        let t = (T_BASE + ti) as char;
        assert((li * 588 + vi * 28) % 28 == 0) by (nonlinear_arith)
            requires
                0 <= li < 19,
                0 <= vi < 21,
        ;
        assert(hangul_composition(lv, t) == Some(s));
    }
}

fn emit_all(chars: &[char], out: &mut Vec<char>)
    ensures
        final(out)@ == old(out)@ + chars@,
{
    let mut i: usize = 0;
    while i < chars.len()
        invariant
            i <= chars.len(),
            out@ == old(out)@ + chars@.subrange(0, i as int),
        decreases chars.len() - i,
    {
        out.push(chars[i]);
        i = i + 1;
        assert(out@ =~= old(out)@ + chars@.subrange(0, i as int));
    }
    assert(chars@.subrange(0, chars.len() as int) =~= chars@);
}

/// Compute canonical Unicode decomposition for character, appending it to `out`.
/// See [Unicode Standard Annex #15](http://www.unicode.org/reports/tr15/)
/// for more information.
pub fn decompose_canonical(tables: &Tables, c: char, out: &mut Vec<char>)
    requires
        tables.wf(),
    ensures
        final(out)@ == old(out)@ + canonical_decomposition(tables, c),
{
    // 7-bit ASCII never decomposes
    if c <= '\x7f' {
        out.push(c);
        assert(out@ =~= old(out)@ + seq![c]);
        return ;
    }
    // Perform decomposition for Hangul

    if (c as u32) >= S_BASE && (c as u32) < (S_BASE + S_COUNT) {
        decompose_hangul(c, out);
        return ;
    }
    if let Some(decomposed) = canonical_fully_decomposed(tables, c) {
        emit_all(decomposed, out);
        return ;
    }
    // Finally bottom out.

    out.push(c);
    assert(out@ =~= old(out)@ + seq![c]);
}

/// Compute canonical or compatible Unicode decomposition for character,
/// appending it to `out`.
/// See [Unicode Standard Annex #15](http://www.unicode.org/reports/tr15/)
/// for more information.
pub fn decompose_compatible(tables: &Tables, c: char, out: &mut Vec<char>)
    requires
        tables.wf(),
    ensures
        final(out)@ == old(out)@ + compatible_decomposition(tables, c),
{
    // 7-bit ASCII never decomposes
    if c <= '\x7f' {
        out.push(c);
        assert(out@ =~= old(out)@ + seq![c]);
        return ;
    }
    // Perform decomposition for Hangul

    if (c as u32) >= S_BASE && (c as u32) < (S_BASE + S_COUNT) {
        decompose_hangul(c, out);
        return ;
    }
    if let Some(decomposed) = compatibility_fully_decomposed(tables, c) {
        emit_all(decomposed, out);
        return ;
    }
    if let Some(decomposed) = canonical_fully_decomposed(tables, c) {
        emit_all(decomposed, out);
        return ;
    }
    // Finally bottom out.

    out.push(c);
    assert(out@ =~= old(out)@ + seq![c]);
}

/// Compute standard-variation decomposition for character, appending it
/// to `out`.
///
/// [Standardized Variation Sequences] are used instead of the standard canonical
/// decompositions, notably for CJK codepoints with singleton canonical decompositions,
/// to avoid losing information. See the
/// [Unicode Variation Sequence FAQ](http://unicode.org/faq/vs.html) and the
/// "Other Enhancements" section of the
/// [Unicode 6.3 Release Summary](https://www.unicode.org/versions/Unicode6.3.0/#Summary)
/// for more information.
pub fn decompose_cjk_compat_variants(tables: &Tables, c: char, out: &mut Vec<char>)
    requires
        tables.wf(),
    ensures
        final(out)@ == old(out)@ + cjk_compat_variants(tables, c),
{
    // 7-bit ASCII never decomposes
    if c <= '\x7f' {
        out.push(c);
        assert(out@ =~= old(out)@ + seq![c]);
        return ;
    }
    // Don't perform decomposition for Hangul

    if let Some(decomposed) = cjk_compat_variants_fully_decomposed(tables, c) {
        emit_all(decomposed, out);
        return ;
    }
    // Finally bottom out.

    out.push(c);
    assert(out@ =~= old(out)@ + seq![c]);
}

/// Compose two characters into a single character, if possible.
/// See [Unicode Standard Annex #15](http://www.unicode.org/reports/tr15/)
/// for more information.
pub fn compose(tables: &Tables, a: char, b: char) -> (composite: Option<char>)
    requires
        tables.wf(),
    ensures
        composite == composition(tables, a, b),
{
    match compose_hangul(a, b) {
        Some(r) => Some(r),
        None => composition_table(tables, a, b),
    }
}

/// Decompose a precomposed Hangul syllable, appending its jamo to `out`.
pub fn decompose_hangul(s: char, out: &mut Vec<char>)
    requires
        is_hangul_syllable(s),
    ensures
        final(out)@ == old(out)@ + hangul_decomposition(s),
{
    let si: u32 = s as u32 - S_BASE;
    let li: u32 = si / N_COUNT;
    let vi: u32 = (si % N_COUNT) / T_COUNT;
    let ti: u32 = si % T_COUNT;
    assert(li < 19 && vi < 21) by (nonlinear_arith)
        requires
            si < 11172,
            li == si / 588,
            vi == (si % 588) / 28,
    ;
    if let Some(l) = char_from_u32(L_BASE + li) {
        out.push(l);
    }
    if let Some(v) = char_from_u32(V_BASE + vi) {
        out.push(v);
    }
    if ti > 0 {
        if let Some(t) = char_from_u32(T_BASE + ti) {
            out.push(t);
        }
    }
    assert(out@ =~= old(out)@ + hangul_decomposition(s));
}

/// Compose a pair of Hangul Jamo
pub fn compose_hangul(a: char, b: char) -> (composite: Option<char>)
    ensures
        composite == hangul_composition(a, b),
{
    let l: u32 = a as u32;
    let v: u32 = b as u32;
    // Compose an LPart and a VPart
    if L_BASE <= l && l < (L_BASE + L_COUNT) && V_BASE <= v && v < (V_BASE + V_COUNT) {
        let r: u32 = S_BASE + (l - L_BASE) * N_COUNT + (v - V_BASE) * T_COUNT;
        return char_from_u32(r);
    }
    // Compose an LVPart and a TPart

    if S_BASE <= l && l <= (S_BASE + S_COUNT - T_COUNT) && T_BASE < v && v < (T_BASE + T_COUNT)
        && (l - S_BASE) % T_COUNT == 0 {
        let r: u32 = l + (v - T_BASE);
        return char_from_u32(r);
    }
    None
}

} // verus!
