//! Lookups in minimal perfect hash tables.
//!
//! A table is a sequence of salts followed by a sequence of packed key/value
//! entries. A key is hashed twice: the first hash picks a salt, and the second
//! hash, seeded with that salt, picks the only entry that can hold the key.

use crate::tables::Tables;
use vstd::prelude::*;

verus! {

/// The slot that `key` hashes to in a table of `n` slots, seeded by `salt`.
#[verifier::opaque]
pub open spec fn hash_slot(key: u32, salt: u32, n: nat) -> nat {
    let y: u32 = key.wrapping_add(salt).wrapping_mul(2654435769u32) ^ key.wrapping_mul(
        0x31415926u32,
    );
    ((y as nat) * n / 0x1_0000_0000) as nat
}

/// The entry of the table that may hold `x`.
pub open spec fn mph_entry<KV>(x: u32, salt: Seq<u16>, kv: Seq<KV>) -> KV {
    kv[hash_slot(x, salt[hash_slot(x, 0, salt.len()) as int] as u32, salt.len()) as int]
}

proof fn lemma_scaled_below(y: u64, n: u64)
    requires
        y < 0x1_0000_0000,
        n < 0x1_0000_0000,
    ensures
        y * n <= u64::MAX,
        n > 0 ==> (y * n) / 0x1_0000_0000 < n,
        (y * n) as u64 >> 32 == (y * n) / 0x1_0000_0000,
{
    assert(y * n <= 0xffff_ffff * 0xffff_ffff) by (nonlinear_arith)
        requires
            y <= 0xffff_ffff,
            n <= 0xffff_ffff,
    ;
    if n > 0 {
        assert(y * n < 0x1_0000_0000 * n) by (nonlinear_arith)
            requires
                y < 0x1_0000_0000,
                n > 0,
        ;
    }
    let p: u64 = (y * n) as u64;
    assert(p >> 32 == p / 0x1_0000_0000) by (bit_vector);
}

/// A key always hashes to a slot of the table.
pub proof fn lemma_hash_slot_in_range(key: u32, salt: u32, n: nat)
    requires
        0 < n <= u32::MAX,
    ensures
        hash_slot(key, salt, n) < n,
{
    reveal(hash_slot);
    let y: u32 = key.wrapping_add(salt).wrapping_mul(2654435769u32) ^ key.wrapping_mul(
        0x31415926u32,
    );
    lemma_scaled_below(y as u64, n as u64);
}

/// The entry that may hold `x` is one of the table's entries.
pub proof fn lemma_mph_entry_in_table<KV>(x: u32, salt: Seq<u16>, kv: Seq<KV>)
    requires
        0 < salt.len() <= kv.len(),
        salt.len() <= u32::MAX,
    ensures
        exists|i: int| 0 <= i < kv.len() && mph_entry(x, salt, kv) == #[trigger] kv[i],
{
    lemma_hash_slot_in_range(x, 0, salt.len());
    let s: u32 = salt[hash_slot(x, 0, salt.len()) as int] as u32;
    lemma_hash_slot_in_range(x, s, salt.len());
    let i: int = hash_slot(x, s, salt.len()) as int;
    assert(mph_entry(x, salt, kv) == kv[i]);
}

/// Hashes `key` into `0..n`.
///
/// This function is based on multiplication being fast and is "good enough".
/// It can share some work between the unsalted and salted versions.
pub fn my_hash(key: u32, salt: u32, n: usize) -> (slot: usize)
    requires
        n <= u32::MAX,
    ensures
        slot == hash_slot(key, salt, n as nat),
        n > 0 ==> slot < n,
{
    let y: u32 = key.wrapping_add(salt).wrapping_mul(2654435769);
    let y: u32 = y ^ key.wrapping_mul(0x31415926);
    proof {
        reveal(hash_slot);
        lemma_scaled_below(y as u64, n as u64);
    }
    (((y as u64) * (n as u64)) >> 32) as usize
}

/// Do a lookup using minimal perfect hashing.
///
/// The first hash retrieves a salt value that makes the second hash unique.
/// The entry found holds `x` exactly when `fk` extracts `x` from it; its
/// value is then what `fv` extracts, and `default` otherwise.
pub fn mph_lookup<KV: Copy, V, FK: Fn(KV) -> u32, FV: Fn(KV) -> V>(
    x: u32,
    salt: &[u16],
    kv: &[KV],
    fk: FK,
    fv: FV,
    default: V,
) -> (value: V)
    requires
        0 < salt@.len() <= kv@.len(),
        salt@.len() <= u32::MAX,
        call_requires(fk, (mph_entry(x, salt@, kv@),)),
        call_ensures(fk, (mph_entry(x, salt@, kv@),), x) ==> call_requires(
            fv,
            (mph_entry(x, salt@, kv@),),
        ),
    ensures
        exists|key: u32| #[trigger]
            call_ensures(fk, (mph_entry(x, salt@, kv@),), key) && if x == key {
                call_ensures(fv, (mph_entry(x, salt@, kv@),), value)
            } else {
                value == default
            },
{
    let s: u32 = salt[my_hash(x, 0, salt.len())] as u32;
    let key_val = kv[my_hash(x, s, salt.len())];
    let key: u32 = fk(key_val);
    if x == key {
        fv(key_val)
    } else {
        default
    }
}

/// Extract the key in a 24 bit key and 8 bit value packed in a u32.
pub fn u8_lookup_fk(kv: u32) -> (key: u32)
    ensures
        key == kv >> 8,
{
    kv >> 8
}

/// Extract the value in a 24 bit key and 8 bit value packed in a u32.
pub fn u8_lookup_fv(kv: u32) -> (value: u8)
    ensures
        value == (kv & 0xff) as u8,
        value == kv % 256,
{
    assert(kv & 0xff == kv % 256) by (bit_vector);
    (kv & 0xff) as u8
}

/// Extract the key for a boolean lookup.
pub fn bool_lookup_fk(kv: u32) -> (key: u32)
    ensures
        key == kv,
{
    kv
}

/// Extract the value for a boolean lookup.
pub fn bool_lookup_fv(_kv: u32) -> (value: bool)
    ensures
        value,
{
    true
}

/// Extract the key in a pair.
pub fn pair_lookup_fk<T>(kv: (u32, T)) -> (key: u32)
    ensures
        key == kv.0,
{
    kv.0
}

/// Extract the value in a pair, returning an option.
pub fn pair_lookup_fv_opt<T>(kv: (u32, T)) -> (value: Option<T>)
    ensures
        value == Some(kv.1),
{
    Some(kv.1)
}

/// The value stored under `x` in a table of 24 bit keys and 8 bit values,
/// or 0 where the table does not hold `x`.
pub open spec fn u8_table_value(x: u32, salt: Seq<u16>, kv: Seq<u32>) -> u8 {
    let entry = mph_entry(x, salt, kv);
    if x == entry >> 8 {
        (entry % 256) as u8
    } else {
        0
    }
}

/// Whether a table of bare keys holds `x`.
pub open spec fn bool_table_value(x: u32, salt: Seq<u16>, kv: Seq<u32>) -> bool {
    x == mph_entry(x, salt, kv)
}

/// The value stored under `x` in a table of pairs.
pub open spec fn pair_table_value<T>(x: u32, salt: Seq<u16>, kv: Seq<(u32, T)>) -> Option<T> {
    let entry = mph_entry(x, salt, kv);
    if x == entry.0 {
        Some(entry.1)
    } else {
        None
    }
}

/// The canonical combining class that the tables give to `c`.
pub open spec fn combining_class_of(tables: &Tables, c: char) -> u8 {
    u8_table_value(
        c as u32,
        tables.canonical_combining_class_salt@,
        tables.canonical_combining_class_kv@,
    )
}

/// Look up the canonical combining class for a codepoint.
///
/// The value returned is as defined in the Unicode Character Database.
pub fn canonical_combining_class(tables: &Tables, c: char) -> (class: u8)
    requires
        tables.wf(),
    ensures
        class == combining_class_of(tables, c),
{
    mph_lookup(
        c as u32,
        tables.canonical_combining_class_salt.as_slice(),
        tables.canonical_combining_class_kv.as_slice(),
        u8_lookup_fk,
        u8_lookup_fv,
        0,
    )
}

/// The key under which the composition table holds a pair of code points
/// of the Basic Multilingual Plane.
pub open spec fn pair_key(c1: char, c2: char) -> u32 {
    ((c1 as u32) * 0x1_0000 + (c2 as u32)) as u32
}

/// The first composite that `list` holds for the pair, from index `from` on.
pub open spec fn astral_composition_from(
    list: Seq<(char, char, char)>,
    c1: char,
    c2: char,
    from: int,
) -> Option<char>
    decreases list.len() - from,
{
    if from < 0 || from >= list.len() {
        None
    } else if list[from].0 == c1 && list[from].1 == c2 {
        Some(list[from].2)
    } else {
        astral_composition_from(list, c1, c2, from + 1)
    }
}

/// The primary composite that the tables give to the pair, if any.
pub open spec fn table_composition_of(tables: &Tables, c1: char, c2: char) -> Option<char> {
    if (c1 as u32) < 0x1_0000 && (c2 as u32) < 0x1_0000 {
        pair_table_value(
            pair_key(c1, c2),
            tables.composition_table_salt@,
            tables.composition_table_kv@,
        )
    } else {
        astral_composition_from(tables.composition_table_astral@, c1, c2, 0)
    }
}

fn composition_table_astral(tables: &Tables, c1: char, c2: char) -> (composite: Option<char>)
    ensures
        composite == astral_composition_from(tables.composition_table_astral@, c1, c2, 0),
{
    let mut i: usize = 0;
    while i < tables.composition_table_astral.len()
        invariant
            i <= tables.composition_table_astral.len(),
            astral_composition_from(tables.composition_table_astral@, c1, c2, 0)
                == astral_composition_from(tables.composition_table_astral@, c1, c2, i as int),
        decreases tables.composition_table_astral.len() - i,
    {
        let entry = tables.composition_table_astral[i];
        if entry.0 == c1 && entry.1 == c2 {
            return Some(entry.2);
        }
        i = i + 1;
    }
    None
}

/// Look up the primary composite of a pair of code points.
pub fn composition_table(tables: &Tables, c1: char, c2: char) -> (composite: Option<char>)
    requires
        tables.wf(),
    ensures
        composite == table_composition_of(tables, c1, c2),
{
    let hi: u32 = c1 as u32;
    let lo: u32 = c2 as u32;
    if hi < 0x1_0000 && lo < 0x1_0000 {
        assert(hi << 16 | lo == hi * 0x1_0000 + lo) by (bit_vector)
            requires
                hi < 0x1_0000,
                lo < 0x1_0000,
        ;
        mph_lookup(
            hi << 16 | lo,
            tables.composition_table_salt.as_slice(),
            tables.composition_table_kv.as_slice(),
            pair_lookup_fk,
            pair_lookup_fv_opt,
            None,
        )
    } else {
        composition_table_astral(tables, c1, c2)
    }
}

/// The characters that a decomposition table stores under `c`, if any.
pub open spec fn decomposition_in(
    c: char,
    salt: Seq<u16>,
    kv: Seq<(u32, (u16, u16))>,
    chars: Seq<char>,
) -> Option<Seq<char>> {
    match pair_table_value(c as u32, salt, kv) {
        Some((start, len)) => Some(chars.subrange(start as int, start + len)),
        None => None,
    }
}

/// The full canonical decomposition that the tables give to `c`, if any.
pub open spec fn canonical_decomposition_of(tables: &Tables, c: char) -> Option<Seq<char>> {
    decomposition_in(
        c,
        tables.canonical_decomposed_salt@,
        tables.canonical_decomposed_kv@,
        tables.canonical_decomposed_chars@,
    )
}

/// The full compatibility decomposition that the tables give to `c`, if any.
pub open spec fn compatibility_decomposition_of(tables: &Tables, c: char) -> Option<Seq<char>> {
    decomposition_in(
        c,
        tables.compatibility_decomposed_salt@,
        tables.compatibility_decomposed_kv@,
        tables.compatibility_decomposed_chars@,
    )
}

/// The standardized variation sequence that the tables give to `c`, if any.
pub open spec fn cjk_compat_variants_of(tables: &Tables, c: char) -> Option<Seq<char>> {
    decomposition_in(
        c,
        tables.cjk_compat_variants_decomposed_salt@,
        tables.cjk_compat_variants_decomposed_kv@,
        tables.cjk_compat_variants_decomposed_chars@,
    )
}

fn decomposition_lookup<'a>(
    c: char,
    salt: &[u16],
    kv: &[(u32, (u16, u16))],
    chars: &'a [char],
) -> (found: Option<&'a [char]>)
    requires
        crate::tables::table_shape(salt@.len(), kv@.len()),
        crate::tables::slices_in_bounds(kv@, chars@.len()),
    ensures
        match decomposition_in(c, salt@, kv@, chars@) {
            Some(d) => found is Some && found->0@ == d && d.len() <= u16::MAX,
            None => found is None,
        },
{
    proof {
        lemma_mph_entry_in_table(c as u32, salt@, kv@);
    }
    let range: Option<(u16, u16)> = mph_lookup(
        c as u32,
        salt,
        kv,
        pair_lookup_fk,
        pair_lookup_fv_opt,
        None,
    );
    match range {
        Some((start, len)) => {
            let from: usize = start as usize;
            let to: usize = from + len as usize;
            Some(vstd::slice::slice_subrange(chars, from, to))
        },
        None => None,
    }
}

/// Look up the full canonical decomposition of a code point.
pub fn canonical_fully_decomposed<'a>(tables: &'a Tables, c: char) -> (found: Option<&'a [char]>)
    requires
        tables.wf(),
    ensures
        match canonical_decomposition_of(tables, c) {
            Some(d) => found is Some && found->0@ == d && d.len() <= u16::MAX,
            None => found is None,
        },
{
    decomposition_lookup(
        c,
        tables.canonical_decomposed_salt.as_slice(),
        tables.canonical_decomposed_kv.as_slice(),
        tables.canonical_decomposed_chars.as_slice(),
    )
}

/// Look up the full compatibility decomposition of a code point.
pub fn compatibility_fully_decomposed<'a>(tables: &'a Tables, c: char) -> (found: Option<
    &'a [char],
>)
    requires
        tables.wf(),
    ensures
        match compatibility_decomposition_of(tables, c) {
            Some(d) => found is Some && found->0@ == d && d.len() <= u16::MAX,
            None => found is None,
        },
{
    decomposition_lookup(
        c,
        tables.compatibility_decomposed_salt.as_slice(),
        tables.compatibility_decomposed_kv.as_slice(),
        tables.compatibility_decomposed_chars.as_slice(),
    )
}

/// Look up the standardized variation sequence of a CJK compatibility ideograph.
pub fn cjk_compat_variants_fully_decomposed<'a>(tables: &'a Tables, c: char) -> (found: Option<
    &'a [char],
>)
    requires
        tables.wf(),
    ensures
        match cjk_compat_variants_of(tables, c) {
            Some(d) => found is Some && found->0@ == d && d.len() <= u16::MAX,
            None => found is None,
        },
{
    decomposition_lookup(
        c,
        tables.cjk_compat_variants_decomposed_salt.as_slice(),
        tables.cjk_compat_variants_decomposed_kv.as_slice(),
        tables.cjk_compat_variants_decomposed_chars.as_slice(),
    )
}

/// Whether the tables list `c` as a combining mark.
pub open spec fn combining_mark_in(tables: &Tables, c: char) -> bool {
    bool_table_value(c as u32, tables.combining_mark_salt@, tables.combining_mark_kv@)
}

/// Return whether the given character is a combining mark (`General_Category=Mark`)
pub fn is_combining_mark(tables: &Tables, c: char) -> (mark: bool)
    requires
        tables.wf(),
    ensures
        mark == combining_mark_in(tables, c),
{
    mph_lookup(
        c as u32,
        tables.combining_mark_salt.as_slice(),
        tables.combining_mark_kv.as_slice(),
        bool_lookup_fk,
        bool_lookup_fv,
        false,
    )
}

/// The number of trailing non-starters that the tables give to `c`.
pub open spec fn trailing_nonstarters_of(tables: &Tables, c: char) -> nat {
    u8_table_value(c as u32, tables.trailing_nonstarters_salt@, tables.trailing_nonstarters_kv@) as nat
}

/// Look up how many non-starters end the compatibility decomposition of `c`.
pub fn stream_safe_trailing_nonstarters(tables: &Tables, c: char) -> (count: usize)
    requires
        tables.wf(),
    ensures
        count == trailing_nonstarters_of(tables, c),
{
    mph_lookup(
        c as u32,
        tables.trailing_nonstarters_salt.as_slice(),
        tables.trailing_nonstarters_kv.as_slice(),
        u8_lookup_fk,
        u8_lookup_fv,
        0,
    ) as usize
}

/// Whether the tables list `c` as a default-ignorable combining mark.
pub open spec fn default_ignorable_mark_in(tables: &Tables, c: char) -> bool {
    bool_table_value(
        c as u32,
        tables.default_ignorable_mark_salt@,
        tables.default_ignorable_mark_kv@,
    )
}

/// Return whether the given combining mark is a `Default_Ignorable_Code_Point`.
pub fn is_default_ignorable_mark(tables: &Tables, c: char) -> (ignorable: bool)
    requires
        tables.wf(),
    ensures
        ignorable == default_ignorable_mark_in(tables, c),
{
    mph_lookup(
        c as u32,
        tables.default_ignorable_mark_salt.as_slice(),
        tables.default_ignorable_mark_kv.as_slice(),
        bool_lookup_fk,
        bool_lookup_fv,
        false,
    )
}

/// Whether the tables keep `c` out of combining character sequences.
pub open spec fn not_in_ccs_in(tables: &Tables, c: char) -> bool {
    bool_table_value(c as u32, tables.not_in_ccs_salt@, tables.not_in_ccs_kv@)
}

/// Return whether the given character can never be part of a combining
/// character sequence, neither as its base nor as a mark.
pub fn not_in_ccs(tables: &Tables, c: char) -> (outside: bool)
    requires
        tables.wf(),
    ensures
        outside == not_in_ccs_in(tables, c),
{
    mph_lookup(
        c as u32,
        tables.not_in_ccs_salt.as_slice(),
        tables.not_in_ccs_kv.as_slice(),
        bool_lookup_fk,
        bool_lookup_fv,
        false,
    )
}

} // verus!
