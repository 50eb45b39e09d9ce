//! What holds of the canonical ordering and of the decomposed forms.

use crate::decompose::{
    chars_of, decompose_all, decomposed_form, decomposition, insert_by_class, reorder,
    sort_by_class, DecompositionType,
};
use crate::perfect_hash::combining_class_of;
use crate::tables::Tables;
use vstd::prelude::*;

verus! {

/// Whether the pair of classes `a` and `b`, of two adjacent characters, is
/// in canonical order: of two non-starters, the first has no higher class
/// than the second.
pub open spec fn pair_in_order(a: u8, b: u8) -> bool {
    a == 0 || b == 0 || a <= b
}

/// Whether `s` is in canonical order: of two adjacent non-starters, the
/// first has no higher class than the second.
pub open spec fn in_canonical_order(tables: &Tables, s: Seq<char>) -> bool {
    forall|i: int, j: int|
        0 <= i && j == i + 1 && j < s.len() ==> pair_in_order(
            combining_class_of(tables, #[trigger] s[i]),
            combining_class_of(tables, #[trigger] s[j]),
        )
}

/// Whether the classes of `p` ascend.
pub open spec fn sorted_by_class(p: Seq<(u8, char)>) -> bool {
    forall|i: int, j: int| 0 <= i <= j < p.len() ==> p[i].0 <= p[j].0
}

/// Whether every entry of `p` is a non-starter paired with its class.
pub open spec fn classes_match(tables: &Tables, p: Seq<(u8, char)>) -> bool {
    forall|i: int|
        0 <= i < p.len() ==> (#[trigger] p[i]).0 == combining_class_of(tables, p[i].1) && p[i].0
            != 0
}

/// Whether no character of a decomposition under `kind` decomposes further.
pub open spec fn fully_decomposed(tables: &Tables, kind: DecompositionType) -> bool {
    forall|c: char, i: int|
        0 <= i < decomposition(tables, kind, c).len() ==> decomposition(
            tables,
            kind,
            #[trigger] decomposition(tables, kind, c)[i],
        ) == seq![decomposition(tables, kind, c)[i]]
}

/// What holds of an entry and of all entries of a sequence holds of all
/// entries of the sequence with the entry inserted.
pub proof fn lemma_insert_keeps(
    s: Seq<(u8, char)>,
    x: (u8, char),
    pred: spec_fn((u8, char)) -> bool,
)
    requires
        pred(x),
        forall|i: int| 0 <= i < s.len() ==> pred(#[trigger] s[i]),
    ensures
        forall|i: int|
            0 <= i < insert_by_class(s, x).len() ==> pred(#[trigger] insert_by_class(s, x)[i]),
    decreases s.len(),
{
    let r = insert_by_class(s, x);
    if s.len() == 0 {
        assert forall|i: int| 0 <= i < r.len() implies pred(#[trigger] r[i]) by {
            assert(r[i] == x);
        }
    } else if s.last().0 <= x.0 {
        assert forall|i: int| 0 <= i < r.len() implies pred(#[trigger] r[i]) by {
            if i < s.len() {
                assert(r[i] == s[i]);
            } else {
                assert(r[i] == x);
            }
        }
    } else {
        let t = s.drop_last();
        assert forall|i: int| 0 <= i < t.len() implies pred(#[trigger] t[i]) by {
            assert(t[i] == s[i]);
        }
        lemma_insert_keeps(t, x, pred);
        let q = insert_by_class(t, x);
        assert forall|i: int| 0 <= i < r.len() implies pred(#[trigger] r[i]) by {
            if i < q.len() {
                assert(r[i] == q[i]);
            } else {
                assert(r[i] == s[s.len() - 1]);
            }
        }
    }
}

/// What holds of all entries of a sequence holds of all entries of the
/// sorted sequence.
pub proof fn lemma_sort_keeps(s: Seq<(u8, char)>, pred: spec_fn((u8, char)) -> bool)
    requires
        forall|i: int| 0 <= i < s.len() ==> pred(#[trigger] s[i]),
    ensures
        forall|i: int|
            0 <= i < sort_by_class(s).len() ==> pred(#[trigger] sort_by_class(s)[i]),
    decreases s.len(),
{
    if s.len() > 0 {
        let t = s.drop_last();
        assert forall|i: int| 0 <= i < t.len() implies pred(#[trigger] t[i]) by {
            assert(t[i] == s[i]);
        }
        lemma_sort_keeps(t, pred);
        assert(pred(s[s.len() - 1]));
        lemma_insert_keeps(sort_by_class(t), s.last(), pred);
    }
}

/// Inserting an entry adds it, and nothing else, to the entries of a sequence.
pub proof fn lemma_insert_permutes(s: Seq<(u8, char)>, x: (u8, char))
    ensures
        insert_by_class(s, x).to_multiset() == s.to_multiset().insert(x),
    decreases s.len(),
{
    broadcast use vstd::seq_lib::group_to_multiset_ensures;

    if s.len() == 0 {
        assert(insert_by_class(s, x) =~= s.push(x));
    } else if s.last().0 <= x.0 {
    } else {
        let t = s.drop_last();
        lemma_insert_permutes(t, x);
        assert(t.push(s.last()) =~= s);
        assert(insert_by_class(s, x).to_multiset() =~= s.to_multiset().insert(x));
    }
}

/// Sorting rearranges the entries of a sequence: it adds none and drops none.
pub proof fn lemma_sort_permutes(s: Seq<(u8, char)>)
    ensures
        sort_by_class(s).to_multiset() == s.to_multiset(),
    decreases s.len(),
{
    broadcast use vstd::seq_lib::group_to_multiset_ensures;

    if s.len() > 0 {
        let t = s.drop_last();
        lemma_sort_permutes(t);
        lemma_insert_permutes(sort_by_class(t), s.last());
        assert(t.push(s.last()) =~= s);
    }
}

/// The test of an entry for having the class `class`.
pub open spec fn has_class(class: u8) -> spec_fn((u8, char)) -> bool {
    |e: (u8, char)| e.0 == class
}

/// The entries of class `class`, in the order they have in `s`.
pub open spec fn of_class(s: Seq<(u8, char)>, class: u8) -> Seq<(u8, char)> {
    s.filter(has_class(class))
}

/// Inserting an entry puts it behind the entries of its class, and leaves
/// the entries of every class in their order.
pub proof fn lemma_insert_stable(s: Seq<(u8, char)>, x: (u8, char), class: u8)
    ensures
        of_class(insert_by_class(s, x), class) == if x.0 == class {
            of_class(s, class).push(x)
        } else {
            of_class(s, class)
        },
    decreases s.len(),
{
    let same = has_class(class);
    if s.len() == 0 {
        s.lemma_filter_push(x, same);
        assert(insert_by_class(s, x) =~= s.push(x));
    } else if s.last().0 <= x.0 {
        s.lemma_filter_push(x, same);
    } else {
        let t = s.drop_last();
        let top = s.last();
        lemma_insert_stable(t, x, class);
        assert(t.push(top) =~= s);
        t.lemma_filter_push(top, same);
        insert_by_class(t, x).lemma_filter_push(top, same);
    }
}

/// Sorting is stable: it leaves the entries of every class in the order
/// they have in the sequence.
pub proof fn lemma_sort_stable(s: Seq<(u8, char)>, class: u8)
    ensures
        of_class(sort_by_class(s), class) == of_class(s, class),
    decreases s.len(),
{
    let same = has_class(class);
    if s.len() > 0 {
        let t = s.drop_last();
        lemma_sort_stable(t, class);
        lemma_insert_stable(sort_by_class(t), s.last(), class);
        assert(t.push(s.last()) =~= s);
        t.lemma_filter_push(s.last(), same);
    }
}

/// Inserting into a sequence of ascending classes gives one.
pub proof fn lemma_insert_sorted(s: Seq<(u8, char)>, x: (u8, char))
    requires
        sorted_by_class(s),
    ensures
        sorted_by_class(insert_by_class(s, x)),
    decreases s.len(),
{
    if s.len() == 0 {
    } else if s.last().0 <= x.0 {
        let r = s.push(x);
        assert forall|i: int, j: int| 0 <= i <= j < r.len() implies r[i].0 <= r[j].0 by {
            if j == s.len() && i < s.len() {
                assert(s[i].0 <= s[s.len() - 1].0);
            }
        }
    } else {
        let t = s.drop_last();
        let top = s.last();
        assert(sorted_by_class(t)) by {
            assert forall|i: int, j: int| 0 <= i <= j < t.len() implies t[i].0 <= t[j].0 by {
                assert(s[i].0 <= s[j].0);
            }
        }
        lemma_insert_sorted(t, x);
        let below = |e: (u8, char)| e.0 <= top.0;
        assert forall|i: int| 0 <= i < t.len() implies below(#[trigger] t[i]) by {
            assert(s[i].0 <= s[s.len() - 1].0);
        }
        lemma_insert_keeps(t, x, below);
        let r = insert_by_class(t, x);
        let out = r.push(top);
        assert forall|i: int, j: int| 0 <= i <= j < out.len() implies out[i].0 <= out[j].0 by {
            if j == r.len() {
                if i < r.len() {
                    assert(below(r[i]));
                }
            } else {
                assert(r[i].0 <= r[j].0);
            }
        }
    }
}

/// Sorting gives ascending classes.
pub proof fn lemma_sort_sorted(s: Seq<(u8, char)>)
    ensures
        sorted_by_class(sort_by_class(s)),
    decreases s.len(),
{
    if s.len() > 0 {
        lemma_sort_sorted(s.drop_last());
        lemma_insert_sorted(sort_by_class(s.drop_last()), s.last());
    }
}

/// Sorting leaves a sequence of ascending classes as it is.
pub proof fn lemma_sort_of_sorted(s: Seq<(u8, char)>)
    requires
        sorted_by_class(s),
    ensures
        sort_by_class(s) == s,
    decreases s.len(),
{
    if s.len() > 0 {
        let t = s.drop_last();
        assert(sorted_by_class(t)) by {
            assert forall|i: int, j: int| 0 <= i <= j < t.len() implies t[i].0 <= t[j].0 by {
                assert(s[i].0 <= s[j].0);
            }
        }
        lemma_sort_of_sorted(t);
        if t.len() > 0 {
            assert(t.last().0 <= s.last().0) by {
                assert(s[t.len() - 1].0 <= s[s.len() - 1].0);
            }
        }
        assert(insert_by_class(t, s.last()) =~= t.push(s.last()));
        assert(t.push(s.last()) =~= s);
    }
}

// The characters of matching entries of ascending classes are in canonical order.
proof fn lemma_sorted_in_order(tables: &Tables, p: Seq<(u8, char)>)
    requires
        sorted_by_class(p),
        classes_match(tables, p),
    ensures
        in_canonical_order(tables, chars_of(p)),
{
    let s = chars_of(p);
    assert forall|i: int, j: int| 0 <= i && j == i + 1 && j < s.len() implies pair_in_order(
        combining_class_of(tables, #[trigger] s[i]),
        combining_class_of(tables, #[trigger] s[j]),
    ) by {
        assert(p[i].0 <= p[j].0);
        assert(p[i].0 == combining_class_of(tables, p[i].1));
        assert(p[j].0 == combining_class_of(tables, p[j].1));
    }
}

// Two texts in canonical order, the first of which ends in a starter or
// the second of which begins with one, make one text in canonical order.
proof fn lemma_join_in_order(tables: &Tables, a: Seq<char>, b: Seq<char>)
    requires
        in_canonical_order(tables, a),
        in_canonical_order(tables, b),
        a.len() == 0 || b.len() == 0 || combining_class_of(tables, a.last()) == 0
            || combining_class_of(tables, b[0]) == 0,
    ensures
        in_canonical_order(tables, a + b),
{
    let s = a + b;
    assert forall|i: int, j: int| 0 <= i && j == i + 1 && j < s.len() implies pair_in_order(
        combining_class_of(tables, #[trigger] s[i]),
        combining_class_of(tables, #[trigger] s[j]),
    ) by {
        if j < a.len() {
            assert(s[i] == a[i] && s[j] == a[j]);
        } else if i >= a.len() {
            assert(s[i] == b[i - a.len()] && s[j] == b[j - a.len()]);
        } else {
            assert(s[i] == a.last() && s[j] == b[0]);
        }
    }
}

/// The canonical ordering of a text is in canonical order, whatever run of
/// non-starters it continues.
pub proof fn lemma_reorder_in_order(tables: &Tables, pending: Seq<(u8, char)>, later: Seq<char>)
    requires
        classes_match(tables, pending),
    ensures
        in_canonical_order(tables, reorder(tables, pending, later)),
    decreases later.len(),
{
    let sorted = sort_by_class(pending);
    lemma_sort_sorted(pending);
    lemma_sort_keeps(
        pending,
        |e: (u8, char)| e.0 == combining_class_of(tables, e.1) && e.0 != 0,
    );
    assert(classes_match(tables, sorted));
    lemma_sorted_in_order(tables, sorted);
    if later.len() > 0 {
        let c = later[0];
        let class = combining_class_of(tables, c);
        if class == 0 {
            let nothing = Seq::<(u8, char)>::empty();
            lemma_reorder_in_order(tables, nothing, later.skip(1));
            let head = chars_of(sorted).push(c);
            assert(head =~= chars_of(sorted) + seq![c]);
            lemma_join_in_order(tables, chars_of(sorted), seq![c]);
            lemma_join_in_order(tables, head, reorder(tables, nothing, later.skip(1)));
        } else {
            lemma_reorder_in_order(tables, pending.push((class, c)), later.skip(1));
        }
    }
}

/// In a decomposed form, of two adjacent non-starters the first has no
/// higher class than the second.
pub proof fn lemma_decomposed_form_in_order(tables: &Tables, kind: DecompositionType, s: Seq<char>)
    ensures
        in_canonical_order(tables, decomposed_form(tables, kind, s)),
{
    lemma_reorder_in_order(
        tables,
        Seq::<(u8, char)>::empty(),
        decompose_all(tables, kind, s),
    );
}

/// The canonical ordering leaves a text in canonical order as it is.
pub proof fn lemma_reorder_of_ordered(tables: &Tables, pending: Seq<(u8, char)>, later: Seq<char>)
    requires
        classes_match(tables, pending),
        sorted_by_class(pending),
        in_canonical_order(tables, chars_of(pending) + later),
    ensures
        reorder(tables, pending, later) == chars_of(pending) + later,
    decreases later.len(),
{
    lemma_sort_of_sorted(pending);
    let whole = chars_of(pending) + later;
    if later.len() == 0 {
        assert(chars_of(pending) + later =~= chars_of(pending));
    } else {
        let c = later[0];
        let class = combining_class_of(tables, c);
        let rest = later.skip(1);
        if class == 0 {
            let nothing = Seq::<(u8, char)>::empty();
            assert(chars_of(nothing) + rest =~= rest);
            assert(in_canonical_order(tables, rest)) by {
                assert forall|i: int, j: int|
                    0 <= i && j == i + 1 && j < rest.len() implies pair_in_order(
                    combining_class_of(tables, #[trigger] rest[i]),
                    combining_class_of(tables, #[trigger] rest[j]),
                ) by {
                    let k = pending.len() + 1 + i;
                    assert(whole[k] == rest[i] && whole[k + 1] == rest[j]);
                }
            }
            lemma_reorder_of_ordered(tables, nothing, rest);
            assert(chars_of(pending).push(c) + rest =~= whole);
        } else {
            let longer = pending.push((class, c));
            assert(chars_of(longer) + rest =~= whole);
            assert(sorted_by_class(longer)) by {
                assert forall|i: int, j: int| 0 <= i <= j < longer.len() implies longer[i].0
                    <= longer[j].0 by {
                    if j == pending.len() && i < pending.len() {
                        let k = pending.len() - 1;
                        assert(pending[i].0 <= pending[k].0);
                        assert(whole[k] == pending[k].1 && whole[k + 1] == c);
                        assert(pair_in_order(
                            combining_class_of(tables, whole[k]),
                            combining_class_of(tables, whole[k + 1]),
                        ));
                        assert(pending[k].0 == combining_class_of(tables, pending[k].1));
                    }
                }
            }
            lemma_reorder_of_ordered(tables, longer, rest);
        }
    }
}

/// What holds of every pending character and of every character of a text
/// holds of every character of the text's canonical ordering.
pub proof fn lemma_reorder_keeps(
    tables: &Tables,
    pending: Seq<(u8, char)>,
    later: Seq<char>,
    pred: spec_fn(char) -> bool,
)
    requires
        forall|i: int| 0 <= i < pending.len() ==> pred((#[trigger] pending[i]).1),
        forall|i: int| 0 <= i < later.len() ==> pred(#[trigger] later[i]),
    ensures
        forall|i: int|
            0 <= i < reorder(tables, pending, later).len() ==> pred(
                #[trigger] reorder(tables, pending, later)[i],
            ),
    decreases later.len(),
{
    let sorted = sort_by_class(pending);
    let holds = |e: (u8, char)| pred(e.1);
    assert forall|i: int| 0 <= i < pending.len() implies holds(#[trigger] pending[i]) by {
        assert(pred(pending[i].1));
    }
    lemma_sort_keeps(pending, holds);
    let out = reorder(tables, pending, later);
    if later.len() == 0 {
        assert forall|i: int| 0 <= i < out.len() implies pred(#[trigger] out[i]) by {
            assert(holds(sorted[i]));
        }
    } else {
        let c = later[0];
        let class = combining_class_of(tables, c);
        let rest = later.skip(1);
        assert forall|i: int| 0 <= i < rest.len() implies pred(#[trigger] rest[i]) by {
            assert(rest[i] == later[i + 1]);
        }
        if class == 0 {
            let nothing = Seq::<(u8, char)>::empty();
            lemma_reorder_keeps(tables, nothing, rest, pred);
            let tail = reorder(tables, nothing, rest);
            assert forall|i: int| 0 <= i < out.len() implies pred(#[trigger] out[i]) by {
                if i < sorted.len() {
                    assert(holds(sorted[i]));
                    assert(out[i] == sorted[i].1);
                } else if i == sorted.len() {
                    assert(out[i] == c);
                } else {
                    assert(out[i] == tail[i - sorted.len() - 1]);
                }
            }
        } else {
            let longer = pending.push((class, c));
            assert forall|i: int| 0 <= i < longer.len() implies pred((#[trigger] longer[i]).1) by {
                if i < pending.len() {
                    assert(longer[i] == pending[i]);
                }
            }
            lemma_reorder_keeps(tables, longer, rest, pred);
            let inner = reorder(tables, longer, rest);
            assert(out == inner);
            assert forall|i: int| 0 <= i < out.len() implies pred(#[trigger] out[i]) by {
                assert(pred(inner[i]));
            }
        }
    }
}

/// Decomposing a text of characters that do not decompose gives the text.
pub proof fn lemma_decompose_all_fixed(tables: &Tables, kind: DecompositionType, s: Seq<char>)
    requires
        forall|i: int|
            0 <= i < s.len() ==> decomposition(tables, kind, #[trigger] s[i]) == seq![s[i]],
    ensures
        decompose_all(tables, kind, s) == s,
    decreases s.len(),
{
    if s.len() > 0 {
        let rest = s.skip(1);
        assert forall|i: int| 0 <= i < rest.len() implies decomposition(
            tables,
            kind,
            #[trigger] rest[i],
        ) == seq![rest[i]] by {
            assert(rest[i] == s[i + 1]);
        }
        lemma_decompose_all_fixed(tables, kind, rest);
        assert(seq![s[0]] + rest =~= s);
    }
}

/// Where no character of a decomposition decomposes further, no character
/// of a decomposed text does.
pub proof fn lemma_decompose_all_is_fixed(tables: &Tables, kind: DecompositionType, s: Seq<char>)
    requires
        fully_decomposed(tables, kind),
    ensures
        forall|i: int|
            0 <= i < decompose_all(tables, kind, s).len() ==> decomposition(
                tables,
                kind,
                #[trigger] decompose_all(tables, kind, s)[i],
            ) == seq![decompose_all(tables, kind, s)[i]],
    decreases s.len(),
{
    if s.len() > 0 {
        lemma_decompose_all_is_fixed(tables, kind, s.skip(1));
        let head = decomposition(tables, kind, s[0]);
        let tail = decompose_all(tables, kind, s.skip(1));
        let all = decompose_all(tables, kind, s);
        assert forall|i: int| 0 <= i < all.len() implies decomposition(
            tables,
            kind,
            #[trigger] all[i],
        ) == seq![all[i]] by {
            if i < head.len() {
                assert(all[i] == head[i]);
            } else {
                assert(all[i] == tail[i - head.len()]);
            }
        }
    }
}

/// Where no character of a decomposition decomposes further, decomposing
/// is idempotent: the decomposed form of a decomposed form is that form.
pub proof fn lemma_decomposed_form_idempotent(
    tables: &Tables,
    kind: DecompositionType,
    s: Seq<char>,
)
    requires
        fully_decomposed(tables, kind),
    ensures
        decomposed_form(tables, kind, decomposed_form(tables, kind, s)) == decomposed_form(
            tables,
            kind,
            s,
        ),
{
    let nothing = Seq::<(u8, char)>::empty();
    let flat = decompose_all(tables, kind, s);
    let form = decomposed_form(tables, kind, s);
    lemma_decompose_all_is_fixed(tables, kind, s);
    lemma_reorder_keeps(
        tables,
        nothing,
        flat,
        |c: char| decomposition(tables, kind, c) == seq![c],
    );
    lemma_decompose_all_fixed(tables, kind, form);
    lemma_reorder_in_order(tables, nothing, flat);
    assert(chars_of(nothing) + form =~= form);
    lemma_reorder_of_ordered(tables, nothing, form);
}

} // verus!
