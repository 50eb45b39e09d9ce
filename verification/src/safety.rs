//! Decomposing a stream-safe text gives a stream-safe text, and so does
//! composing it.

use crate::canonical::{
    fully_decomposed, lemma_decompose_all_is_fixed, lemma_reorder_keeps, lemma_sort_keeps,
};
use crate::decompose::{
    chars_of, decompose_all, decomposed_form, decomposition, lemma_sort_len, reorder,
    sort_by_class, DecompositionType,
};
use crate::perfect_hash::combining_class_of;
use crate::recompose::composed_form;
use crate::stability::{composition_reverses, lemma_composed_form_decomposes};
use crate::stream_safe::{
    classification, joiner_ends_runs, lemma_stream_safe_bounds_runs, run_after, runs_bounded,
    stream_safe_form, Decomposition, MAX_NONSTARTERS,
};
use crate::tables::Tables;
use vstd::prelude::*;

verus! {

/// The length of the run of non-starters that ends a text, after `d` has
/// been added to a text that ended in a run of `count`.
pub open spec fn marks_after(tables: &Tables, count: nat, d: Seq<char>) -> nat
    decreases d.len(),
{
    if d.len() == 0 {
        count
    } else if combining_class_of(tables, d[0]) == 0 {
        marks_after(tables, 0, d.skip(1))
    } else {
        marks_after(tables, count + 1, d.skip(1))
    }
}

/// Whether no run of non-starters of `d` is longer than `MAX_NONSTARTERS`,
/// where `d` follows a text that ends in a run of `count` non-starters.
pub open spec fn marks_bounded(tables: &Tables, count: nat, d: Seq<char>) -> bool
    decreases d.len(),
{
    if d.len() == 0 {
        true
    } else if combining_class_of(tables, d[0]) == 0 {
        marks_bounded(tables, 0, d.skip(1))
    } else {
        count + 1 <= MAX_NONSTARTERS && marks_bounded(tables, count + 1, d.skip(1))
    }
}

/// Whether the classification of every character covers its decomposition
/// under `kind`: where the character fits behind a run, the runs of its
/// decomposition stay within the bound and end no longer than the
/// classification says.
pub open spec fn classification_covers(tables: &Tables, kind: DecompositionType) -> bool {
    forall|c: char, count: nat|
        count + classification(tables, c).leading_nonstarters <= MAX_NONSTARTERS ==> (
        #[trigger] marks_bounded(tables, count, decomposition(tables, kind, c))) && marks_after(
            tables,
            count,
            decomposition(tables, kind, c),
        ) <= run_after(count, classification(tables, c))
}

/// Whether a character that does not decompose under `kind` is classified
/// as the one starter or the one non-starter that it is.
pub open spec fn classification_of_fixed(tables: &Tables, kind: DecompositionType) -> bool {
    forall|c: char|
        decomposition(tables, kind, c) == seq![c] ==> #[trigger] classification(tables, c) == (
        Decomposition {
            leading_nonstarters: if combining_class_of(tables, c) != 0 {
                1usize
            } else {
                0usize
            },
            trailing_nonstarters: if combining_class_of(tables, c) != 0 {
                1usize
            } else {
                0usize
            },
            decomposition_len: 1,
        })
}

/// A text whose runs stay within the bound behind a run does so behind a
/// shorter run, and ends in a run that is no longer.
pub proof fn lemma_marks_monotone(tables: &Tables, less: nat, more: nat, d: Seq<char>)
    requires
        less <= more,
        marks_bounded(tables, more, d),
    ensures
        marks_bounded(tables, less, d),
        marks_after(tables, less, d) <= marks_after(tables, more, d),
    decreases d.len(),
{
    if d.len() > 0 {
        if combining_class_of(tables, d[0]) == 0 {
        } else {
            lemma_marks_monotone(tables, less + 1, more + 1, d.skip(1));
        }
    }
}

/// The runs of a joined text are the runs of its first part and the runs
/// of its second part behind them.
pub proof fn lemma_marks_join(tables: &Tables, count: nat, a: Seq<char>, b: Seq<char>)
    ensures
        marks_bounded(tables, count, a + b) == (marks_bounded(tables, count, a) && marks_bounded(
            tables,
            marks_after(tables, count, a),
            b,
        )),
        marks_after(tables, count, a + b) == marks_after(tables, marks_after(tables, count, a), b),
    decreases a.len(),
{
    if a.len() == 0 {
        assert(a + b =~= b);
    } else {
        assert((a + b)[0] == a[0]);
        assert((a + b).skip(1) =~= a.skip(1) + b);
        if combining_class_of(tables, a[0]) == 0 {
            lemma_marks_join(tables, 0, a.skip(1), b);
        } else {
            lemma_marks_join(tables, count + 1, a.skip(1), b);
        }
    }
}

/// A text of non-starters alone is one run.
pub proof fn lemma_marks_of_run(tables: &Tables, count: nat, m: Seq<char>)
    requires
        forall|i: int| 0 <= i < m.len() ==> combining_class_of(tables, #[trigger] m[i]) != 0,
    ensures
        marks_after(tables, count, m) == count + m.len(),
        marks_bounded(tables, count, m) == (m.len() == 0 || count + m.len() <= MAX_NONSTARTERS),
    decreases m.len(),
{
    if m.len() > 0 {
        let rest = m.skip(1);
        assert forall|i: int| 0 <= i < rest.len() implies combining_class_of(
            tables,
            #[trigger] rest[i],
        ) != 0 by {
            assert(rest[i] == m[i + 1]);
        }
        lemma_marks_of_run(tables, count + 1, rest);
    }
}

/// Where the classification covers the decompositions, the decomposition
/// of a stream-safe text has no run of non-starters above the bound.
pub proof fn lemma_decomposition_bounded(
    tables: &Tables,
    kind: DecompositionType,
    marks: nat,
    count: nat,
    x: Seq<char>,
)
    requires
        classification_covers(tables, kind),
        marks <= count,
        runs_bounded(tables, count, x),
    ensures
        marks_bounded(tables, marks, decompose_all(tables, kind, x)),
    decreases x.len(),
{
    if x.len() > 0 {
        let c = x[0];
        let d = decomposition(tables, kind, c);
        let k = classification(tables, c);
        assert(marks_bounded(tables, count, d));
        lemma_marks_monotone(tables, marks, count, d);
        lemma_decomposition_bounded(
            tables,
            kind,
            marks_after(tables, marks, d),
            run_after(count, k),
            x.skip(1),
        );
        lemma_marks_join(tables, marks, d, decompose_all(tables, kind, x.skip(1)));
    }
}

/// Where the classification covers the decompositions, the decomposed form
/// of a stream-safe text has no run of non-starters above the bound.
pub proof fn lemma_decomposed_form_bounded(tables: &Tables, kind: DecompositionType, x: Seq<char>)
    requires
        classification_covers(tables, kind),
        runs_bounded(tables, 0, x),
    ensures
        marks_bounded(tables, 0, decomposed_form(tables, kind, x)),
{
    let nothing = Seq::<(u8, char)>::empty();
    let flat = decompose_all(tables, kind, x);
    lemma_decomposition_bounded(tables, kind, 0, 0, x);
    assert(chars_of(nothing) + flat =~= flat);
    lemma_reorder_keeps_runs(tables, 0, nothing, flat);
}

/// Where the classification covers the decompositions and the joiner ends
/// every run, the decomposed form of the stream-safe form of any text has
/// no run of non-starters above the bound: a stage that composes it holds
/// no more than a run and two characters.
pub proof fn lemma_stream_safe_form_decomposes_bounded(
    tables: &Tables,
    kind: DecompositionType,
    x: Seq<char>,
)
    requires
        classification_covers(tables, kind),
        joiner_ends_runs(tables),
    ensures
        marks_bounded(tables, 0, decomposed_form(tables, kind, stream_safe_form(tables, x))),
{
    lemma_stream_safe_bounds_runs(tables, 0, x);
    lemma_decomposed_form_bounded(tables, kind, stream_safe_form(tables, x));
}

/// The canonical ordering leaves the runs of non-starters as long as they
/// are.
pub proof fn lemma_reorder_keeps_runs(
    tables: &Tables,
    count: nat,
    pending: Seq<(u8, char)>,
    later: Seq<char>,
)
    requires
        forall|i: int|
            0 <= i < pending.len() ==> combining_class_of(tables, (#[trigger] pending[i]).1) != 0,
    ensures
        marks_bounded(tables, count, reorder(tables, pending, later)) == marks_bounded(
            tables,
            count,
            chars_of(pending) + later,
        ),
    decreases later.len(),
{
    let marks = chars_of(pending);
    let sorted = chars_of(sort_by_class(pending));
    let nonstarter = |e: (u8, char)| combining_class_of(tables, e.1) != 0;
    assert forall|i: int| 0 <= i < pending.len() implies nonstarter(#[trigger] pending[i]) by {
        assert(combining_class_of(tables, pending[i].1) != 0);
    }
    lemma_sort_keeps(pending, nonstarter);
    lemma_sort_len(pending);
    assert forall|i: int| 0 <= i < marks.len() implies combining_class_of(
        tables,
        #[trigger] marks[i],
    ) != 0 by {
        assert(marks[i] == pending[i].1);
    }
    assert forall|i: int| 0 <= i < sorted.len() implies combining_class_of(
        tables,
        #[trigger] sorted[i],
    ) != 0 by {
        assert(nonstarter(sort_by_class(pending)[i]));
    }
    lemma_marks_of_run(tables, count, marks);
    lemma_marks_of_run(tables, count, sorted);
    lemma_marks_join(tables, count, marks, later);
    let none = Seq::<char>::empty();
    assert(marks_after(tables, 0, none) == 0 && marks_bounded(tables, 0, none));
    if later.len() == 0 {
        assert(marks + later =~= marks);
    } else {
        let c = later[0];
        let class = combining_class_of(tables, c);
        let rest = later.skip(1);
        if class == 0 {
            let nothing = Seq::<(u8, char)>::empty();
            let tail = reorder(tables, nothing, rest);
            assert(chars_of(nothing) + rest =~= rest);
            lemma_reorder_keeps_runs(tables, 0, nothing, rest);
            let head = sorted.push(c);
            let one = seq![c];
            assert(head =~= sorted + one);
            assert(one[0] == c && one.skip(1) =~= none);
            assert(forall|n: nat| marks_after(tables, n, one) == 0 && marks_bounded(tables, n, one));
            lemma_marks_join(tables, count, sorted, one);
            lemma_marks_join(tables, count, head, tail);
            assert(marks_after(tables, count, head) == 0);
            assert(marks_bounded(tables, count + marks.len(), later) == marks_bounded(
                tables,
                0,
                rest,
            ));
            assert(reorder(tables, pending, later) == head + tail);
        } else {
            let longer = pending.push((class, c));
            assert(chars_of(longer) + rest =~= marks + later);
            assert forall|i: int| 0 <= i < longer.len() implies combining_class_of(
                tables,
                (#[trigger] longer[i]).1,
            ) != 0 by {
                if i < pending.len() {
                    assert(longer[i] == pending[i]);
                }
            }
            lemma_reorder_keeps_runs(tables, count, longer, rest);
        }
    }
}

/// A text of characters that do not decompose, whose runs of non-starters
/// stay within the bound, is stream-safe.
pub proof fn lemma_bounded_is_stream_safe(
    tables: &Tables,
    kind: DecompositionType,
    count: nat,
    y: Seq<char>,
)
    requires
        classification_of_fixed(tables, kind),
        forall|i: int|
            0 <= i < y.len() ==> decomposition(tables, kind, #[trigger] y[i]) == seq![y[i]],
        count <= MAX_NONSTARTERS,
        marks_bounded(tables, count, y),
    ensures
        runs_bounded(tables, count, y),
    decreases y.len(),
{
    if y.len() > 0 {
        let rest = y.skip(1);
        assert forall|i: int| 0 <= i < rest.len() implies decomposition(tables, kind, #[trigger] rest[i])
            == seq![rest[i]] by {
            assert(rest[i] == y[i + 1]);
        }
        let k = classification(tables, y[0]);
        assert(decomposition(tables, kind, y[0]) == seq![y[0]]);
        if combining_class_of(tables, y[0]) == 0 {
            assert(run_after(count, k) == 0);
            lemma_bounded_is_stream_safe(tables, kind, 0, rest);
        } else {
            assert(run_after(count, k) == count + 1);
            lemma_bounded_is_stream_safe(tables, kind, count + 1, rest);
        }
    }
}

/// Whether the classification of every character stays within its
/// decomposition under `kind`: where the runs of the decomposition stay
/// within the bound behind a run, the character fits behind the run and
/// ends in a run no longer than its decomposition does.
pub open spec fn classification_within(tables: &Tables, kind: DecompositionType) -> bool {
    forall|c: char, count: nat| #[trigger]
        marks_bounded(tables, count, decomposition(tables, kind, c)) && count <= MAX_NONSTARTERS
            ==> count + classification(tables, c).leading_nonstarters <= MAX_NONSTARTERS
            && run_after(count, classification(tables, c)) <= marks_after(
            tables,
            count,
            decomposition(tables, kind, c),
        )
}

/// Where the classification stays within the decompositions, a text is
/// stream-safe whose decomposition has no run of non-starters above the
/// bound.
pub proof fn lemma_stream_safe_by_decomposition(
    tables: &Tables,
    kind: DecompositionType,
    count: nat,
    marks: nat,
    z: Seq<char>,
)
    requires
        classification_within(tables, kind),
        count <= marks <= MAX_NONSTARTERS,
        marks_bounded(tables, marks, decompose_all(tables, kind, z)),
    ensures
        runs_bounded(tables, count, z),
    decreases z.len(),
{
    if z.len() > 0 {
        let c = z[0];
        let d = decomposition(tables, kind, c);
        let k = classification(tables, c);
        let tail = decompose_all(tables, kind, z.skip(1));
        lemma_marks_join(tables, marks, d, tail);
        lemma_marks_monotone(tables, count, marks, d);
        assert(marks_bounded(tables, count, d));
        lemma_marks_within_bound(tables, marks, d);
        lemma_stream_safe_by_decomposition(
            tables,
            kind,
            run_after(count, k),
            marks_after(tables, marks, d),
            z.skip(1),
        );
    }
}

/// A text whose runs stay within the bound behind a run within the bound
/// ends in a run within the bound.
pub proof fn lemma_marks_within_bound(tables: &Tables, count: nat, d: Seq<char>)
    requires
        count <= MAX_NONSTARTERS,
        marks_bounded(tables, count, d),
    ensures
        marks_after(tables, count, d) <= MAX_NONSTARTERS,
    decreases d.len(),
{
    if d.len() > 0 {
        if combining_class_of(tables, d[0]) == 0 {
            lemma_marks_within_bound(tables, 0, d.skip(1));
        } else {
            lemma_marks_within_bound(tables, count + 1, d.skip(1));
        }
    }
}

/// Where the classification covers the decompositions, the decomposed form
/// of a stream-safe text is stream-safe.
pub proof fn lemma_decomposed_form_stays_stream_safe(
    tables: &Tables,
    kind: DecompositionType,
    x: Seq<char>,
)
    requires
        fully_decomposed(tables, kind),
        classification_covers(tables, kind),
        classification_of_fixed(tables, kind),
        runs_bounded(tables, 0, x),
    ensures
        runs_bounded(tables, 0, decomposed_form(tables, kind, x)),
{
    let nothing = Seq::<(u8, char)>::empty();
    let flat = decompose_all(tables, kind, x);
    let y = decomposed_form(tables, kind, x);
    lemma_decomposition_bounded(tables, kind, 0, 0, x);
    assert(chars_of(nothing) + flat =~= flat);
    lemma_reorder_keeps_runs(tables, 0, nothing, flat);
    lemma_decompose_all_is_fixed(tables, kind, x);
    lemma_reorder_keeps(
        tables,
        nothing,
        flat,
        |c: char| decomposition(tables, kind, c) == seq![c],
    );
    lemma_bounded_is_stream_safe(tables, kind, 0, y);
}

/// Where the classification covers the decompositions and stays within
/// them, and every composite decomposes into its parts, the composed form
/// of a stream-safe text is stream-safe.
pub proof fn lemma_composed_form_stays_stream_safe(
    tables: &Tables,
    kind: DecompositionType,
    x: Seq<char>,
)
    requires
        fully_decomposed(tables, kind),
        composition_reverses(tables, kind),
        classification_covers(tables, kind),
        classification_within(tables, kind),
        runs_bounded(tables, 0, x),
    ensures
        runs_bounded(tables, 0, composed_form(tables, kind, x)),
{
    let nothing = Seq::<(u8, char)>::empty();
    let z = composed_form(tables, kind, x);
    let flat = decompose_all(tables, kind, x);
    let again = decompose_all(tables, kind, z);
    // The decomposition of the text has no run above the bound, nor has
    // its canonical ordering.
    lemma_decomposition_bounded(tables, kind, 0, 0, x);
    assert(chars_of(nothing) + flat =~= flat);
    lemma_reorder_keeps_runs(tables, 0, nothing, flat);
    // The composed form decomposes into the same text.
    lemma_composed_form_decomposes(tables, kind, x);
    assert(chars_of(nothing) + again =~= again);
    lemma_reorder_keeps_runs(tables, 0, nothing, again);
    lemma_stream_safe_by_decomposition(tables, kind, 0, 0, z);
}

} // verus!
