//! The quick check: one pass that tells whether a text is in a normalization
//! form, definitely or perhaps.

use crate::canonical::{
    in_canonical_order, lemma_decompose_all_fixed, lemma_reorder_of_ordered, pair_in_order,
};
use crate::decompose::{
    chars_of, decomposed_form, decomposition, new_canonical as decompose_canonical_stage,
    new_compatible as decompose_compatible_stage, DecompositionType,
};
use crate::normalize::is_ascii;
use crate::perfect_hash::{
    canonical_combining_class, combining_class_of, mph_lookup, u8_lookup_fk, u8_lookup_fv,
    u8_table_value,
};
use crate::recompose::{
    composed_form, new_canonical as recompose_canonical_stage,
    new_compatible as recompose_compatible_stage,
};
use crate::soundness::{lemma_text_stays_composed, ordered_from, stays_composed, text_stays};
use crate::stream::{CharStream, SliceChars};
use crate::stream_safe::{
    classification, classify_nonstarters, run_after, stream_safe_form, StreamSafe,
    MAX_NONSTARTERS,
};
use crate::tables::Tables;
use vstd::prelude::*;

verus! {

/// The QuickCheck algorithm can quickly determine if a text is or isn't
/// normalized without any allocations in many cases, but it has to be able to
/// return `Maybe` when a full decomposition and recomposition is necessary.
#[derive(Clone, Copy, Debug, PartialEq, Eq)]
pub enum IsNormalized {
    /// The text is definitely normalized.
    Yes,
    /// The text is definitely not normalized.
    No,
    /// The text may be normalized.
    Maybe,
}

/// A normalization form.
#[derive(Clone, Copy, Debug, PartialEq, Eq)]
pub enum Form {
    /// Canonical decomposition followed by canonical composition.
    Nfc,
    /// Canonical decomposition.
    Nfd,
    /// Compatibility decomposition followed by canonical composition.
    Nfkc,
    /// Compatibility decomposition.
    Nfkd,
}

/// The place of the two bits of `form` in a quick-check table value, as the
/// power of two that the value is divided by.
pub open spec fn form_scale(form: Form) -> int {
    match form {
        Form::Nfc => 1,
        Form::Nfd => 4,
        Form::Nfkc => 16,
        Form::Nfkd => 64,
    }
}

/// The quick-check class that the tables give to `c` for `form`: the two
/// bits of the table value read as 0 for yes, 1 for no and anything else
/// for maybe.
#[verifier::opaque]
pub open spec fn quick_check_class_of(tables: &Tables, form: Form, c: char) -> IsNormalized {
    let value = u8_table_value(c as u32, tables.quick_check_salt@, tables.quick_check_kv@);
    let bits = (value as int / form_scale(form)) % 4;
    if bits == 0 {
        IsNormalized::Yes
    } else if bits == 1 {
        IsNormalized::No
    } else {
        IsNormalized::Maybe
    }
}

/// Looks up the quick-check class of a code point for a normalization form.
pub fn quick_check_class(tables: &Tables, form: Form, c: char) -> (class: IsNormalized)
    requires
        tables.wf(),
    ensures
        class == quick_check_class_of(tables, form, c),
{
    reveal(quick_check_class_of);
    let value: u8 = mph_lookup(
        c as u32,
        tables.quick_check_salt.as_slice(),
        tables.quick_check_kv.as_slice(),
        u8_lookup_fk,
        u8_lookup_fv,
        0,
    );
    let scaled: u8 = match form {
        Form::Nfc => value,
        Form::Nfd => value / 4,
        Form::Nfkc => value / 16,
        Form::Nfkd => value / 64,
    };
    let bits: u8 = scaled % 4;
    if bits == 0 {
        IsNormalized::Yes
    } else if bits == 1 {
        IsNormalized::No
    } else {
        IsNormalized::Maybe
    }
}

/// The result of the quick check on `s`, where `s` follows a text whose
/// last character has class `last_cc`, whose last run of non-starters has
/// length `count`, and on which the check has come to `result` so far.
///
/// The answer is no as soon as a non-starter follows a character of a higher
/// class, a character has the quick-check class no, or, where `stream_safe`
/// is set, a run of non-starters grows beyond `MAX_NONSTARTERS`. It is maybe
/// where some character has the class maybe and nothing says no.
pub open spec fn quick_check_from(
    tables: &Tables,
    form: Form,
    stream_safe: bool,
    last_cc: u8,
    count: nat,
    result: IsNormalized,
    s: Seq<char>,
) -> IsNormalized
    decreases s.len(),
{
    if s.len() == 0 {
        result
    } else if is_ascii(s[0]) {
        quick_check_from(tables, form, stream_safe, 0, 0, result, s.skip(1))
    } else {
        let cc = combining_class_of(tables, s[0]);
        let allowed = quick_check_class_of(tables, form, s[0]);
        let d = classification(tables, s[0]);
        if last_cc > cc && cc != 0 {
            IsNormalized::No
        } else if allowed is No {
            IsNormalized::No
        } else if stream_safe && count + d.leading_nonstarters > MAX_NONSTARTERS {
            IsNormalized::No
        } else {
            quick_check_from(
                tables,
                form,
                stream_safe,
                cc,
                if stream_safe {
                    run_after(count, d)
                } else {
                    count
                },
                if allowed is Maybe {
                    IsNormalized::Maybe
                } else {
                    result
                },
                s.skip(1),
            )
        }
    }
}

// One step of the quick check, spelled out.
proof fn lemma_quick_check_step(
    tables: &Tables,
    form: Form,
    stream_safe: bool,
    last_cc: u8,
    count: nat,
    result: IsNormalized,
    s: Seq<char>,
)
    requires
        s.len() > 0,
    ensures
        quick_check_from(tables, form, stream_safe, last_cc, count, result, s) == if is_ascii(
            s[0],
        ) {
            quick_check_from(tables, form, stream_safe, 0, 0, result, s.skip(1))
        } else {
            let cc = combining_class_of(tables, s[0]);
            let allowed = quick_check_class_of(tables, form, s[0]);
            let d = classification(tables, s[0]);
            if last_cc > cc && cc != 0 {
                IsNormalized::No
            } else if allowed is No {
                IsNormalized::No
            } else if stream_safe && count + d.leading_nonstarters > MAX_NONSTARTERS {
                IsNormalized::No
            } else {
                quick_check_from(
                    tables,
                    form,
                    stream_safe,
                    cc,
                    if stream_safe {
                        run_after(count, d)
                    } else {
                        count
                    },
                    if allowed is Maybe {
                        IsNormalized::Maybe
                    } else {
                        result
                    },
                    s.skip(1),
                )
            }
        },
{
}

/// The result of the quick check on a whole text.
pub open spec fn quick_check_of(tables: &Tables, form: Form, stream_safe: bool, s: Seq<char>) -> IsNormalized {
    quick_check_from(tables, form, stream_safe, 0, 0, IsNormalized::Yes, s)
}

/// Runs the quick check for `form` over the characters of `s`, with the
/// bound on runs of non-starters where `stream_safe` is set.
pub fn quick_check<I: CharStream>(tables: &Tables, s: I, form: Form, stream_safe: bool) -> (result:
    IsNormalized)
    requires
        tables.wf(),
        s.wf(),
    ensures
        result == quick_check_of(tables, form, stream_safe, s.remaining()),
{
    let ghost all = s.remaining();
    let mut stream = s;
    let mut last_cc: u8 = 0;
    let mut nonstarter_count: usize = 0;
    let mut result = IsNormalized::Yes;
    loop
        invariant
            tables.wf(),
            stream.wf(),
            nonstarter_count <= u16::MAX,
            all == s.remaining(),
            quick_check_from(
                tables,
                form,
                stream_safe,
                last_cc,
                nonstarter_count as nat,
                result,
                stream.remaining(),
            ) == quick_check_of(tables, form, stream_safe, all),
        ensures
            result == quick_check_of(tables, form, stream_safe, all),
        decreases stream.remaining().len(),
    {
        let ghost before = stream.remaining();
        let ch: char = match stream.next() {
            Some(ch) => ch,
            None => {
                break ;
            },
        };
        proof {
            lemma_quick_check_step(
                tables,
                form,
                stream_safe,
                last_cc,
                nonstarter_count as nat,
                result,
                before,
            );
        }
        // For ASCII we know it's always allowed and a starter
        if (ch as u32) <= 0x7f {
            last_cc = 0;
            nonstarter_count = 0;
            continue ;
        }
        // Otherwise, lookup the combining class and QC property

        let cc: u8 = canonical_combining_class(tables, ch);
        if last_cc > cc && cc != 0 {
            return IsNormalized::No;
        }
        match quick_check_class(tables, form, ch) {
            IsNormalized::Yes => (),
            IsNormalized::No => {
                return IsNormalized::No;
            },
            IsNormalized::Maybe => {
                result = IsNormalized::Maybe;
            },
        }
        if stream_safe {
            let decomp = classify_nonstarters(tables, ch);
            // If we're above `MAX_NONSTARTERS`, we're definitely *not*
            // stream-safe normalized.
            if nonstarter_count + decomp.leading_nonstarters > MAX_NONSTARTERS {
                return IsNormalized::No;
            }
            if decomp.leading_nonstarters == decomp.decomposition_len {
                nonstarter_count += decomp.decomposition_len;
            } else {
                nonstarter_count = decomp.trailing_nonstarters;
            }
        }
        last_cc = cc;
    }
    result
}

/// Quickly check if a string is in NFC, potentially returning
/// `IsNormalized::Maybe` if further checks are necessary.  In this case a check
/// like `is_nfc` should suffice.
pub fn is_nfc_quick<I: CharStream>(tables: &Tables, s: I) -> (result: IsNormalized)
    requires
        tables.wf(),
        s.wf(),
    ensures
        result == quick_check_of(tables, Form::Nfc, false, s.remaining()),
{
    quick_check(tables, s, Form::Nfc, false)
}

/// Quickly check if a string is in NFKC.
pub fn is_nfkc_quick<I: CharStream>(tables: &Tables, s: I) -> (result: IsNormalized)
    requires
        tables.wf(),
        s.wf(),
    ensures
        result == quick_check_of(tables, Form::Nfkc, false, s.remaining()),
{
    quick_check(tables, s, Form::Nfkc, false)
}

/// Quickly check if a string is in NFD.
pub fn is_nfd_quick<I: CharStream>(tables: &Tables, s: I) -> (result: IsNormalized)
    requires
        tables.wf(),
        s.wf(),
    ensures
        result == quick_check_of(tables, Form::Nfd, false, s.remaining()),
{
    quick_check(tables, s, Form::Nfd, false)
}

/// Quickly check if a string is in NFKD.
pub fn is_nfkd_quick<I: CharStream>(tables: &Tables, s: I) -> (result: IsNormalized)
    requires
        tables.wf(),
        s.wf(),
    ensures
        result == quick_check_of(tables, Form::Nfkd, false, s.remaining()),
{
    quick_check(tables, s, Form::Nfkd, false)
}

/// Quickly check if a string is Stream-Safe NFC.
pub fn is_nfc_stream_safe_quick<I: CharStream>(tables: &Tables, s: I) -> (result: IsNormalized)
    requires
        tables.wf(),
        s.wf(),
    ensures
        result == quick_check_of(tables, Form::Nfc, true, s.remaining()),
{
    quick_check(tables, s, Form::Nfc, true)
}

/// Quickly check if a string is Stream-Safe NFD.
pub fn is_nfd_stream_safe_quick<I: CharStream>(tables: &Tables, s: I) -> (result: IsNormalized)
    requires
        tables.wf(),
        s.wf(),
    ensures
        result == quick_check_of(tables, Form::Nfd, true, s.remaining()),
{
    quick_check(tables, s, Form::Nfd, true)
}

/// Tells whether `stream` yields exactly the characters of `s`.
pub fn stream_equals<I: CharStream>(s: &[char], stream: &mut I) -> (same: bool)
    requires
        old(stream).wf(),
    ensures
        final(stream).wf(),
        same == (s@ == old(stream).remaining()),
{
    let ghost all = stream.remaining();
    let mut i: usize = 0;
    while i < s.len()
        invariant
            i <= s@.len(),
            stream.wf(),
            i <= all.len(),
            all == old(stream).remaining(),
            stream.remaining() == all.skip(i as int),
            s@.subrange(0, i as int) == all.subrange(0, i as int),
        decreases s.len() - i,
    {
        let ghost before = stream.remaining();
        match stream.next() {
            Some(c) => {
                assert(c == all[i as int]) by {
                    assert(before[0] == all[i as int]);
                }
                if c != s[i] {
                    assert(s@[i as int] != all[i as int]);
                    return false;
                }
            },
            None => {
                assert(all.len() == i) by {
                    assert(before.len() == all.len() - i);
                }
                return false;
            },
        }
        i = i + 1;
        proof {
            assert(stream.remaining() =~= all.skip(i as int));
            assert(s@.subrange(0, i as int) =~= s@.subrange(0, i - 1).push(s@[i - 1]));
            assert(all.subrange(0, i as int) =~= all.subrange(0, i - 1).push(all[i - 1]));
        }
    }
    proof {
        assert(s@.subrange(0, i as int) =~= s@);
    }
    let ghost before = stream.remaining();
    match stream.next() {
        Some(_) => {
            assert(all.len() > i) by {
                assert(before.len() == all.len() - i);
            }
            false
        },
        None => {
            proof {
                assert(before.len() == all.len() - i);
                assert(all.subrange(0, i as int) =~= all);
            }
            true
        },
    }
}

/// The answer of the authoritative check, given the answer of the quick
/// check and the normalized form of the text.
pub open spec fn is_normalized(quick: IsNormalized, s: Seq<char>, normalized: Seq<char>) -> bool {
    match quick {
        IsNormalized::Yes => true,
        IsNormalized::No => false,
        IsNormalized::Maybe => s == normalized,
    }
}

/// The authoritative check agrees with every definite answer of the quick
/// check: it denies what the quick check denies, and it affirms what the
/// quick check affirms.
pub proof fn lemma_quick_check_decides(quick: IsNormalized, s: Seq<char>, normalized: Seq<char>)
    ensures
        quick is No ==> !is_normalized(quick, s, normalized),
        quick is Yes ==> is_normalized(quick, s, normalized),
        quick is Maybe ==> (is_normalized(quick, s, normalized) <==> s == normalized),
{
}

/// The kind of decomposition that a normalization form begins with.
pub open spec fn kind_of(form: Form) -> DecompositionType {
    match form {
        Form::Nfc => DecompositionType::Canonical,
        Form::Nfd => DecompositionType::Canonical,
        Form::Nfkc => DecompositionType::Compatible,
        Form::Nfkd => DecompositionType::Compatible,
    }
}

/// Whether the quick-check classes of a decomposed form go with the
/// decompositions: ASCII characters are starters, and a character of the
/// class yes does not decompose.
pub open spec fn quick_check_goes_with_decompositions(tables: &Tables, form: Form) -> bool {
    &&& forall|c: char| is_ascii(c) ==> #[trigger] combining_class_of(tables, c) == 0
    &&& forall|c: char|
        !is_ascii(c) && (#[trigger] quick_check_class_of(tables, form, c)) is Yes
            ==> decomposition(tables, kind_of(form), c) == seq![c]
}

// What the answer yes tells of a text.
proof fn lemma_quick_check_yes(
    tables: &Tables,
    form: Form,
    stream_safe: bool,
    last_cc: u8,
    count: nat,
    result: IsNormalized,
    s: Seq<char>,
)
    requires
        quick_check_goes_with_decompositions(tables, form),
        quick_check_from(tables, form, stream_safe, last_cc, count, result, s) is Yes,
    ensures
        result is Yes,
        in_canonical_order(tables, s),
        s.len() > 0 ==> pair_in_order(last_cc, combining_class_of(tables, s[0])),
        forall|i: int|
            0 <= i < s.len() ==> decomposition(tables, kind_of(form), #[trigger] s[i]) == seq![
                s[i],
            ],
    decreases s.len(),
{
    if s.len() > 0 {
        let c = s[0];
        let rest = s.skip(1);
        lemma_quick_check_step(tables, form, stream_safe, last_cc, count, result, s);
        if is_ascii(c) {
            lemma_quick_check_yes(tables, form, stream_safe, 0, 0, result, rest);
            assert(decomposition(tables, kind_of(form), c) == seq![c]);
        } else {
            let cc = combining_class_of(tables, c);
            let allowed = quick_check_class_of(tables, form, c);
            let d = classification(tables, c);
            lemma_quick_check_yes(
                tables,
                form,
                stream_safe,
                cc,
                if stream_safe {
                    run_after(count, d)
                } else {
                    count
                },
                if allowed is Maybe {
                    IsNormalized::Maybe
                } else {
                    result
                },
                rest,
            );
            assert(allowed is Yes);
        }
        assert forall|i: int, j: int| 0 <= i && j == i + 1 && j < s.len() implies pair_in_order(
            combining_class_of(tables, #[trigger] s[i]),
            combining_class_of(tables, #[trigger] s[j]),
        ) by {
            if i == 0 {
                assert(s[j] == rest[0]);
            } else {
                assert(s[i] == rest[i - 1] && s[j] == rest[j - 1]);
            }
        }
        assert forall|i: int| 0 <= i < s.len() implies decomposition(
            tables,
            kind_of(form),
            #[trigger] s[i],
        ) == seq![s[i]] by {
            if i > 0 {
                assert(s[i] == rest[i - 1]);
            }
        }
    }
}

/// Where the quick-check classes go with the decompositions, a text that
/// the quick check affirms is its own decomposed form.
pub proof fn lemma_quick_check_yes_is_decomposed(
    tables: &Tables,
    form: Form,
    stream_safe: bool,
    s: Seq<char>,
)
    requires
        quick_check_goes_with_decompositions(tables, form),
        quick_check_of(tables, form, stream_safe, s) is Yes,
    ensures
        decomposed_form(tables, kind_of(form), s) == s,
{
    lemma_quick_check_yes(tables, form, stream_safe, 0, 0, IsNormalized::Yes, s);
    lemma_decompose_all_fixed(tables, kind_of(form), s);
    let nothing = Seq::<(u8, char)>::empty();
    assert(chars_of(nothing) + s =~= s);
    lemma_reorder_of_ordered(tables, nothing, s);
}

/// Whether the quick-check classes of a composed form go with the
/// compositions: ASCII characters are starters, and ASCII characters and
/// characters of the class yes stay as they are where a text is decomposed
/// and composed again.
pub open spec fn quick_check_goes_with_compositions(tables: &Tables, form: Form) -> bool {
    &&& forall|c: char| is_ascii(c) ==> #[trigger] combining_class_of(tables, c) == 0
    &&& forall|c: char| is_ascii(c) ==> #[trigger] stays_composed(tables, kind_of(form), c)
    &&& forall|c: char|
        (#[trigger] quick_check_class_of(tables, form, c)) is Yes ==> stays_composed(
            tables,
            kind_of(form),
            c,
        )
}

// What the answer yes tells of a text, for a composed form.
proof fn lemma_quick_check_yes_stays(
    tables: &Tables,
    form: Form,
    stream_safe: bool,
    last_cc: u8,
    count: nat,
    result: IsNormalized,
    s: Seq<char>,
)
    requires
        quick_check_goes_with_compositions(tables, form),
        quick_check_from(tables, form, stream_safe, last_cc, count, result, s) is Yes,
    ensures
        result is Yes,
        ordered_from(tables, last_cc, s),
        text_stays(tables, kind_of(form), s),
    decreases s.len(),
{
    if s.len() > 0 {
        let c = s[0];
        let rest = s.skip(1);
        lemma_quick_check_step(tables, form, stream_safe, last_cc, count, result, s);
        if is_ascii(c) {
            lemma_quick_check_yes_stays(tables, form, stream_safe, 0, 0, result, rest);
            assert(stays_composed(tables, kind_of(form), c));
        } else {
            let cc = combining_class_of(tables, c);
            let allowed = quick_check_class_of(tables, form, c);
            let d = classification(tables, c);
            lemma_quick_check_yes_stays(
                tables,
                form,
                stream_safe,
                cc,
                if stream_safe {
                    run_after(count, d)
                } else {
                    count
                },
                if allowed is Maybe {
                    IsNormalized::Maybe
                } else {
                    result
                },
                rest,
            );
            assert(allowed is Yes);
        }
        assert forall|i: int| 0 <= i < s.len() implies stays_composed(
            tables,
            kind_of(form),
            #[trigger] s[i],
        ) by {
            if i > 0 {
                assert(s[i] == rest[i - 1]);
            }
        }
    }
}

/// Where the quick-check classes go with the compositions, a text that the
/// quick check affirms is its own composed form.
pub proof fn lemma_quick_check_yes_is_composed(
    tables: &Tables,
    form: Form,
    stream_safe: bool,
    s: Seq<char>,
)
    requires
        quick_check_goes_with_compositions(tables, form),
        quick_check_of(tables, form, stream_safe, s) is Yes,
    ensures
        composed_form(tables, kind_of(form), s) == s,
{
    lemma_quick_check_yes_stays(tables, form, stream_safe, 0, 0, IsNormalized::Yes, s);
    lemma_text_stays_composed(tables, kind_of(form), s);
}

/// Authoritatively check if a string is in NFC.
pub fn is_nfc(tables: &Tables, s: &[char]) -> (normalized: bool)
    requires
        tables.wf(),
    ensures
        normalized == is_normalized(
            quick_check_of(tables, Form::Nfc, false, s@),
            s@,
            composed_form(tables, DecompositionType::Canonical, s@),
        ),
{
    match is_nfc_quick(tables, SliceChars::new(s)) {
        IsNormalized::Yes => true,
        IsNormalized::No => false,
        IsNormalized::Maybe => {
            let mut stage = recompose_canonical_stage(tables, SliceChars::new(s));
            stream_equals(s, &mut stage)
        },
    }
}

/// Authoritatively check if a string is in NFKC.
pub fn is_nfkc(tables: &Tables, s: &[char]) -> (normalized: bool)
    requires
        tables.wf(),
    ensures
        normalized == is_normalized(
            quick_check_of(tables, Form::Nfkc, false, s@),
            s@,
            composed_form(tables, DecompositionType::Compatible, s@),
        ),
{
    match is_nfkc_quick(tables, SliceChars::new(s)) {
        IsNormalized::Yes => true,
        IsNormalized::No => false,
        IsNormalized::Maybe => {
            let mut stage = recompose_compatible_stage(tables, SliceChars::new(s));
            stream_equals(s, &mut stage)
        },
    }
}

/// Authoritatively check if a string is in NFD.
pub fn is_nfd(tables: &Tables, s: &[char]) -> (normalized: bool)
    requires
        tables.wf(),
    ensures
        normalized == is_normalized(
            quick_check_of(tables, Form::Nfd, false, s@),
            s@,
            decomposed_form(tables, DecompositionType::Canonical, s@),
        ),
{
    match is_nfd_quick(tables, SliceChars::new(s)) {
        IsNormalized::Yes => true,
        IsNormalized::No => false,
        IsNormalized::Maybe => {
            let mut stage = decompose_canonical_stage(tables, SliceChars::new(s));
            stream_equals(s, &mut stage)
        },
    }
}

/// Authoritatively check if a string is in NFKD.
pub fn is_nfkd(tables: &Tables, s: &[char]) -> (normalized: bool)
    requires
        tables.wf(),
    ensures
        normalized == is_normalized(
            quick_check_of(tables, Form::Nfkd, false, s@),
            s@,
            decomposed_form(tables, DecompositionType::Compatible, s@),
        ),
{
    match is_nfkd_quick(tables, SliceChars::new(s)) {
        IsNormalized::Yes => true,
        IsNormalized::No => false,
        IsNormalized::Maybe => {
            let mut stage = decompose_compatible_stage(tables, SliceChars::new(s));
            stream_equals(s, &mut stage)
        },
    }
}

/// Authoritatively check if a string is Stream-Safe NFC.
pub fn is_nfc_stream_safe(tables: &Tables, s: &[char]) -> (normalized: bool)
    requires
        tables.wf(),
    ensures
        normalized == is_normalized(
            quick_check_of(tables, Form::Nfc, true, s@),
            s@,
            composed_form(tables, DecompositionType::Canonical, stream_safe_form(tables, s@)),
        ),
{
    match is_nfc_stream_safe_quick(tables, SliceChars::new(s)) {
        IsNormalized::Yes => true,
        IsNormalized::No => false,
        IsNormalized::Maybe => {
            let safe = StreamSafe::new(tables, SliceChars::new(s));
            let mut stage = recompose_canonical_stage(tables, safe);
            stream_equals(s, &mut stage)
        },
    }
}

/// Authoritatively check if a string is Stream-Safe NFD.
pub fn is_nfd_stream_safe(tables: &Tables, s: &[char]) -> (normalized: bool)
    requires
        tables.wf(),
    ensures
        normalized == is_normalized(
            quick_check_of(tables, Form::Nfd, true, s@),
            s@,
            decomposed_form(tables, DecompositionType::Canonical, stream_safe_form(tables, s@)),
        ),
{
    match is_nfd_stream_safe_quick(tables, SliceChars::new(s)) {
        IsNormalized::Yes => true,
        IsNormalized::No => false,
        IsNormalized::Maybe => {
            let safe = StreamSafe::new(tables, SliceChars::new(s));
            let mut stage = decompose_canonical_stage(tables, safe);
            stream_equals(s, &mut stage)
        },
    }
}

} // verus!
