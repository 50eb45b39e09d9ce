//! The Unicode Character Database property tables the normalizer reads.
//!
//! The tables are data handed to the library by its caller. Each one is a
//! minimal perfect hash table: a sequence of salts and a sequence of packed
//! key/value entries of the same length.

use vstd::prelude::*;

verus! {

/// The property tables behind every lookup of this crate.
pub struct Tables {
    /// Canonical combining classes: 24 bit key, 8 bit class.
    pub canonical_combining_class_salt: Vec<u16>,
    pub canonical_combining_class_kv: Vec<u32>,
    /// Primary composites of pairs from the Basic Multilingual Plane,
    /// keyed by the first code point shifted left by 16, or-ed with the second.
    pub composition_table_salt: Vec<u16>,
    pub composition_table_kv: Vec<(u32, char)>,
    /// Primary composites of pairs outside the Basic Multilingual Plane:
    /// first, second, composite.
    pub composition_table_astral: Vec<(char, char, char)>,
    /// Full canonical decompositions: each value is an offset and a length
    /// into `canonical_decomposed_chars`.
    pub canonical_decomposed_salt: Vec<u16>,
    pub canonical_decomposed_kv: Vec<(u32, (u16, u16))>,
    pub canonical_decomposed_chars: Vec<char>,
    /// Full compatibility decompositions, laid out like the canonical ones.
    pub compatibility_decomposed_salt: Vec<u16>,
    pub compatibility_decomposed_kv: Vec<(u32, (u16, u16))>,
    pub compatibility_decomposed_chars: Vec<char>,
    /// Standardized variation sequences of CJK compatibility ideographs.
    pub cjk_compat_variants_decomposed_salt: Vec<u16>,
    pub cjk_compat_variants_decomposed_kv: Vec<(u32, (u16, u16))>,
    pub cjk_compat_variants_decomposed_chars: Vec<char>,
    /// Members of `General_Category=Mark`.
    pub combining_mark_salt: Vec<u16>,
    pub combining_mark_kv: Vec<u32>,
    /// Number of trailing non-starters of a compatibility decomposition:
    /// 24 bit key, 8 bit count.
    pub trailing_nonstarters_salt: Vec<u16>,
    pub trailing_nonstarters_kv: Vec<u32>,
    /// Quick-check classes: 24 bit key, 8 bit value holding two bits for
    /// each of NFC, NFD, NFKC and NFKD, from the lowest bits up.
    pub quick_check_salt: Vec<u16>,
    pub quick_check_kv: Vec<u32>,
    /// Combining marks that are default-ignorable.
    pub default_ignorable_mark_salt: Vec<u16>,
    pub default_ignorable_mark_kv: Vec<u32>,
    /// Code points that never take part in a combining character sequence.
    pub not_in_ccs_salt: Vec<u16>,
    pub not_in_ccs_kv: Vec<u32>,
}

/// A salt sequence and an entry sequence form a usable hash table.
pub open spec fn table_shape(salt_len: nat, kv_len: nat) -> bool {
    0 < salt_len && salt_len == kv_len && salt_len <= u32::MAX
}

/// Every offset and length in `kv` lies inside a character sequence of
/// length `chars_len`.
pub open spec fn slices_in_bounds(kv: Seq<(u32, (u16, u16))>, chars_len: nat) -> bool {
    forall|i: int| 0 <= i < kv.len() ==> (#[trigger] kv[i]).1.0 + kv[i].1.1 <= chars_len
}

impl Tables {
    /// All tables have a usable shape and all decomposition slices are in bounds.
    pub open spec fn wf(&self) -> bool {
        &&& table_shape(self.canonical_combining_class_salt@.len(), self.canonical_combining_class_kv@.len())
        &&& table_shape(self.composition_table_salt@.len(), self.composition_table_kv@.len())
        &&& table_shape(self.canonical_decomposed_salt@.len(), self.canonical_decomposed_kv@.len())
        &&& table_shape(self.compatibility_decomposed_salt@.len(), self.compatibility_decomposed_kv@.len())
        &&& table_shape(
            self.cjk_compat_variants_decomposed_salt@.len(),
            self.cjk_compat_variants_decomposed_kv@.len(),
        )
        &&& table_shape(self.combining_mark_salt@.len(), self.combining_mark_kv@.len())
        &&& table_shape(self.trailing_nonstarters_salt@.len(), self.trailing_nonstarters_kv@.len())
        &&& table_shape(self.quick_check_salt@.len(), self.quick_check_kv@.len())
        &&& table_shape(self.default_ignorable_mark_salt@.len(), self.default_ignorable_mark_kv@.len())
        &&& table_shape(self.not_in_ccs_salt@.len(), self.not_in_ccs_kv@.len())
        &&& slices_in_bounds(self.canonical_decomposed_kv@, self.canonical_decomposed_chars@.len())
        &&& slices_in_bounds(self.compatibility_decomposed_kv@, self.compatibility_decomposed_chars@.len())
        &&& slices_in_bounds(
            self.cjk_compat_variants_decomposed_kv@,
            self.cjk_compat_variants_decomposed_chars@.len(),
        )
    }

    /// Tests at run time whether the tables are well-formed.
    pub fn is_valid(&self) -> (ok: bool)
        ensures
            ok == self.wf(),
    {
        shape_ok(self.canonical_combining_class_salt.len(), self.canonical_combining_class_kv.len())
            && shape_ok(self.composition_table_salt.len(), self.composition_table_kv.len())
            && shape_ok(self.canonical_decomposed_salt.len(), self.canonical_decomposed_kv.len())
            && shape_ok(self.compatibility_decomposed_salt.len(), self.compatibility_decomposed_kv.len())
            && shape_ok(
            self.cjk_compat_variants_decomposed_salt.len(),
            self.cjk_compat_variants_decomposed_kv.len(),
        ) && shape_ok(self.combining_mark_salt.len(), self.combining_mark_kv.len()) && shape_ok(
            self.trailing_nonstarters_salt.len(),
            self.trailing_nonstarters_kv.len(),
        ) && shape_ok(self.quick_check_salt.len(), self.quick_check_kv.len()) && shape_ok(
            self.default_ignorable_mark_salt.len(),
            self.default_ignorable_mark_kv.len(),
        ) && shape_ok(self.not_in_ccs_salt.len(), self.not_in_ccs_kv.len()) && bounds_ok(
            &self.canonical_decomposed_kv,
            self.canonical_decomposed_chars.len(),
        ) && bounds_ok(&self.compatibility_decomposed_kv, self.compatibility_decomposed_chars.len())
            && bounds_ok(
            &self.cjk_compat_variants_decomposed_kv,
            self.cjk_compat_variants_decomposed_chars.len(),
        )
    }
}

fn shape_ok(salt_len: usize, kv_len: usize) -> (ok: bool)
    ensures
        ok == table_shape(salt_len as nat, kv_len as nat),
{
    0 < salt_len && salt_len == kv_len && salt_len <= 0xffff_ffff
}

fn bounds_ok(kv: &Vec<(u32, (u16, u16))>, chars_len: usize) -> (ok: bool)
    ensures
        ok == slices_in_bounds(kv@, chars_len as nat),
{
    let mut i: usize = 0;
    while i < kv.len()
        invariant
            i <= kv.len(),
            forall|j: int| 0 <= j < i ==> (#[trigger] kv@[j]).1.0 + kv@[j].1.1 <= chars_len,
        decreases kv.len() - i,
    {
        let entry = kv[i];
        let start: usize = entry.1.0 as usize;
        let len: usize = entry.1.1 as usize;
        if start + len > chars_len {
            return false;
        }
        i = i + 1;
    }
    true
}

} // verus!
