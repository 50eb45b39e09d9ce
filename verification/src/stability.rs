//! Composing a decomposed text and decomposing the result gives the
//! decomposed text again, and so the composed forms are stable.

use crate::canonical::{
    fully_decomposed, in_canonical_order, lemma_decompose_all_fixed,
    lemma_decompose_all_is_fixed, lemma_reorder_in_order, lemma_reorder_keeps,
    lemma_reorder_of_ordered, pair_in_order,
};
use crate::decompose::{
    chars_of, decompose_all, decomposed_form, decomposition, insert_by_class, reorder,
    sort_by_class, DecompositionType,
};
use crate::normalize::{
    composition, hangul_composition, hangul_decomposition, is_hangul_syllable,
    lemma_hangul_composition_reverses,
};
use crate::perfect_hash::{
    canonical_decomposition_of, combining_class_of, compatibility_decomposition_of,
    table_composition_of,
};
use crate::recompose::{composed_form, composite_in_run, is_boundary, option_seq, recompose};
use crate::tables::Tables;
use vstd::prelude::*;

verus! {

/// Whether every composite decomposes into the decomposition of its first
/// part and its second part.
pub open spec fn composition_reverses(tables: &Tables, kind: DecompositionType) -> bool {
    forall|a: char, b: char|
        (#[trigger] composition(tables, a, b)) is Some ==> decomposition(
            tables,
            kind,
            composition(tables, a, b)->0,
        ) == decomposition(tables, kind, a).push(b)
}

/// The characters of `marks`, each paired with its class.
pub open spec fn with_classes(tables: &Tables, marks: Seq<char>) -> Seq<(u8, char)> {
    marks.map_values(|c: char| (combining_class_of(tables, c), c))
}

/// The order in which two entries of different classes are inserted is of
/// no account.
pub proof fn lemma_insert_commutes(s: Seq<(u8, char)>, b: (u8, char), x: (u8, char))
    requires
        b.0 < x.0,
    ensures
        insert_by_class(insert_by_class(s, b), x) == insert_by_class(insert_by_class(s, x), b),
    decreases s.len(),
{
    if s.len() == 0 {
        assert(insert_by_class(s, b) =~= seq![b]);
        assert(insert_by_class(s, x) =~= seq![x]);
        assert(seq![b].drop_last() =~= s);
        assert(seq![x].drop_last() =~= s);
        assert(insert_by_class(seq![b], x) =~= seq![b].push(x));
        assert(insert_by_class(seq![x], b) =~= insert_by_class(s, b).push(x));
    } else {
        let top = s.last();
        let t = s.drop_last();
        if top.0 <= b.0 {
            assert(s.push(b).drop_last() =~= s);
            assert(s.push(x).drop_last() =~= s);
            assert(insert_by_class(s.push(x), b) =~= insert_by_class(s, b).push(x));
        } else if top.0 <= x.0 {
            let sb = insert_by_class(t, b).push(top);
            assert(insert_by_class(s, b) == sb);
            assert(insert_by_class(sb, x) =~= sb.push(x));
            assert(s.push(x).drop_last() =~= s);
            assert(insert_by_class(s.push(x), b) =~= insert_by_class(s, b).push(x));
        } else {
            lemma_insert_commutes(t, b, x);
            let sb = insert_by_class(t, b).push(top);
            let sx = insert_by_class(t, x).push(top);
            assert(sb.drop_last() =~= insert_by_class(t, b));
            assert(sx.drop_last() =~= insert_by_class(t, x));
            assert(insert_by_class(sb, x) =~= insert_by_class(insert_by_class(t, b), x).push(top));
            assert(insert_by_class(sx, b) =~= insert_by_class(insert_by_class(t, x), b).push(top));
        }
    }
}

/// An entry sorts to the same place from in front of entries of lower
/// classes as from behind them.
pub proof fn lemma_sort_moves_behind(q: Seq<(u8, char)>, x: (u8, char), m: Seq<(u8, char)>)
    requires
        forall|i: int| 0 <= i < m.len() ==> (#[trigger] m[i]).0 < x.0,
    ensures
        sort_by_class(q.push(x) + m) == sort_by_class((q + m).push(x)),
    decreases m.len(),
{
    if m.len() == 0 {
        assert(q.push(x) + m =~= (q + m).push(x));
    } else {
        let short = m.drop_last();
        let b = m.last();
        assert forall|i: int| 0 <= i < short.len() implies (#[trigger] short[i]).0 < x.0 by {
            assert(short[i] == m[i]);
        }
        lemma_sort_moves_behind(q, x, short);
        let base = sort_by_class(q + short);
        let front = q.push(x) + m;
        assert(front.drop_last() =~= q.push(x) + short);
        assert(front.last() == b);
        assert(sort_by_class(front) == insert_by_class(sort_by_class(q.push(x) + short), b));
        let moved = (q + short).push(x);
        assert(moved.drop_last() =~= q + short);
        assert(sort_by_class(moved) == insert_by_class(base, x));
        let joined = q + m;
        assert(joined.drop_last() =~= q + short);
        assert(joined.last() == b);
        assert(sort_by_class(joined) == insert_by_class(base, b));
        let back = joined.push(x);
        assert(back.drop_last() =~= joined);
        assert(sort_by_class(back) == insert_by_class(sort_by_class(joined), x));
        assert(b.0 < x.0) by {
            assert(m[m.len() - 1].0 < x.0);
        }
        lemma_insert_commutes(base, b, x);
    }
}

/// Pending runs that sort alike are reordered alike.
pub proof fn lemma_reorder_sorts_pending(
    tables: &Tables,
    p1: Seq<(u8, char)>,
    p2: Seq<(u8, char)>,
    later: Seq<char>,
)
    requires
        sort_by_class(p1) == sort_by_class(p2),
    ensures
        reorder(tables, p1, later) == reorder(tables, p2, later),
    decreases later.len(),
{
    if later.len() > 0 {
        let c = later[0];
        let class = combining_class_of(tables, c);
        if class != 0 {
            assert(p1.push((class, c)).drop_last() =~= p1);
            assert(p2.push((class, c)).drop_last() =~= p2);
            lemma_reorder_sorts_pending(
                tables,
                p1.push((class, c)),
                p2.push((class, c)),
                later.skip(1),
            );
        }
    }
}

/// Non-starters in front of a text join the pending run.
pub proof fn lemma_reorder_takes_marks(
    tables: &Tables,
    pending: Seq<(u8, char)>,
    marks: Seq<char>,
    later: Seq<char>,
)
    requires
        forall|i: int| 0 <= i < marks.len() ==> combining_class_of(tables, #[trigger] marks[i]) != 0,
    ensures
        reorder(tables, pending, marks + later) == reorder(
            tables,
            pending + with_classes(tables, marks),
            later,
        ),
    decreases marks.len(),
{
    if marks.len() == 0 {
        assert(marks + later =~= later);
        assert(pending + with_classes(tables, marks) =~= pending);
    } else {
        let m = marks[0];
        let class = combining_class_of(tables, m);
        let rest = marks.skip(1);
        assert forall|i: int| 0 <= i < rest.len() implies combining_class_of(
            tables,
            #[trigger] rest[i],
        ) != 0 by {
            assert(rest[i] == marks[i + 1]);
        }
        lemma_reorder_takes_marks(tables, pending.push((class, m)), rest, later);
        assert((marks + later)[0] == m);
        assert((marks + later).skip(1) =~= rest + later);
        assert(pending.push((class, m)) + with_classes(tables, rest) =~= pending + with_classes(
            tables,
            marks,
        ));
    }
}

/// Texts that are reordered alike behind every pending run are reordered
/// alike behind every text.
pub proof fn lemma_reorder_behind(
    tables: &Tables,
    pending: Seq<(u8, char)>,
    front: Seq<char>,
    y1: Seq<char>,
    y2: Seq<char>,
)
    requires
        forall|q: Seq<(u8, char)>| #[trigger] reorder(tables, q, y1) == reorder(tables, q, y2),
    ensures
        reorder(tables, pending, front + y1) == reorder(tables, pending, front + y2),
    decreases front.len(),
{
    if front.len() == 0 {
        assert(front + y1 =~= y1);
        assert(front + y2 =~= y2);
    } else {
        let c = front[0];
        let class = combining_class_of(tables, c);
        let rest = front.skip(1);
        assert((front + y1)[0] == c && (front + y2)[0] == c);
        assert((front + y1).skip(1) =~= rest + y1);
        assert((front + y2).skip(1) =~= rest + y2);
        if class == 0 {
            lemma_reorder_behind(tables, Seq::<(u8, char)>::empty(), rest, y1, y2);
        } else {
            lemma_reorder_behind(tables, pending.push((class, c)), rest, y1, y2);
        }
    }
}

/// A character behind non-starters of lower classes is reordered as it is
/// in front of them.
pub proof fn lemma_reorder_moves_behind(
    tables: &Tables,
    pending: Seq<(u8, char)>,
    marks: Seq<char>,
    ch: char,
    later: Seq<char>,
)
    requires
        forall|i: int|
            0 <= i < marks.len() ==> 0 < combining_class_of(tables, #[trigger] marks[i])
                < combining_class_of(tables, ch),
    ensures
        reorder(tables, pending, (marks.push(ch)) + later) == reorder(
            tables,
            pending,
            (seq![ch] + marks) + later,
        ),
{
    if marks.len() == 0 {
        assert(marks.push(ch) =~= seq![ch] + marks);
    } else {
        let class = combining_class_of(tables, ch);
        let m = with_classes(tables, marks);
        assert(class != 0) by {
            assert(combining_class_of(tables, marks[0]) < class);
        }
        let behind_marks = marks.push(ch);
        let front_marks = seq![ch] + marks;
        assert forall|i: int| 0 <= i < behind_marks.len() implies combining_class_of(
            tables,
            #[trigger] behind_marks[i],
        ) != 0 by {
            if i < marks.len() {
                assert(behind_marks[i] == marks[i]);
            }
        }
        assert forall|i: int| 0 <= i < front_marks.len() implies combining_class_of(
            tables,
            #[trigger] front_marks[i],
        ) != 0 by {
            if i > 0 {
                assert(front_marks[i] == marks[i - 1]);
            }
        }
        assert forall|i: int| 0 <= i < m.len() implies (#[trigger] m[i]).0 < class by {
            assert(m[i].0 == combining_class_of(tables, marks[i]));
        }
        lemma_reorder_takes_marks(tables, pending, marks.push(ch), later);
        lemma_reorder_takes_marks(tables, pending, seq![ch] + marks, later);
        let behind = pending + with_classes(tables, marks.push(ch));
        let front = pending + with_classes(tables, seq![ch] + marks);
        assert(behind =~= (pending + m).push((class, ch)));
        assert(front =~= pending.push((class, ch)) + m);
        lemma_sort_moves_behind(pending, (class, ch), m);
        lemma_reorder_sorts_pending(tables, front, behind, later);
    }
}

/// Decomposing two texts one behind the other decomposes their join.
pub proof fn lemma_decompose_all_join(
    tables: &Tables,
    kind: DecompositionType,
    a: Seq<char>,
    b: Seq<char>,
)
    ensures
        decompose_all(tables, kind, a + b) == decompose_all(tables, kind, a) + decompose_all(
            tables,
            kind,
            b,
        ),
    decreases a.len(),
{
    if a.len() == 0 {
        assert(a + b =~= b);
        assert(decompose_all(tables, kind, a) + decompose_all(tables, kind, b) =~= decompose_all(
            tables,
            kind,
            b,
        ));
    } else {
        lemma_decompose_all_join(tables, kind, a.skip(1), b);
        assert((a + b)[0] == a[0]);
        assert((a + b).skip(1) =~= a.skip(1) + b);
        assert(decompose_all(tables, kind, a + b) =~= decompose_all(tables, kind, a)
            + decompose_all(tables, kind, b));
    }
}

/// Whether a state of the composing run and the text behind it come from
/// a decomposed text in canonical order.
pub open spec fn run_in_order(
    tables: &Tables,
    kind: DecompositionType,
    composee: Option<char>,
    blocked: Seq<char>,
    last_ccc: Option<u8>,
    z: Seq<char>,
) -> bool {
    &&& forall|i: int|
        0 <= i < blocked.len() ==> combining_class_of(tables, #[trigger] blocked[i]) != 0
            && decomposition(tables, kind, blocked[i]) == seq![blocked[i]]
    &&& forall|i: int, j: int|
        0 <= i <= j < blocked.len() ==> combining_class_of(tables, blocked[i])
            <= combining_class_of(tables, blocked[j])
    &&& blocked.len() > 0 ==> last_ccc == Some(combining_class_of(tables, blocked.last()))
    &&& blocked.len() == 0 ==> last_ccc is None
    &&& composee is None ==> blocked.len() == 0
    &&& forall|i: int|
        0 <= i < z.len() ==> decomposition(tables, kind, #[trigger] z[i]) == seq![z[i]]
    &&& in_canonical_order(tables, z)
    &&& last_ccc is Some && z.len() > 0 && combining_class_of(tables, z[0]) != 0 ==> last_ccc->0
        <= combining_class_of(tables, z[0])
}

/// The decomposition of what a state of the composing run holds.
pub open spec fn run_decomposed(
    tables: &Tables,
    kind: DecompositionType,
    composee: Option<char>,
    blocked: Seq<char>,
) -> Seq<char> {
    decompose_all(tables, kind, option_seq(composee)) + blocked
}

// The rest of a text in canonical order is in canonical order, and of two
// adjacent non-starters the second has no lower class.
proof fn lemma_rest_in_order(tables: &Tables, kind: DecompositionType, z: Seq<char>)
    requires
        z.len() > 0,
        in_canonical_order(tables, z),
        forall|i: int|
            0 <= i < z.len() ==> decomposition(tables, kind, #[trigger] z[i]) == seq![z[i]],
    ensures
        in_canonical_order(tables, z.skip(1)),
        forall|i: int|
            0 <= i < z.skip(1).len() ==> decomposition(tables, kind, #[trigger] z.skip(1)[i])
                == seq![z.skip(1)[i]],
        z.len() > 1 ==> pair_in_order(
            combining_class_of(tables, z[0]),
            combining_class_of(tables, z[1]),
        ),
{
    let rest = z.skip(1);
    assert forall|i: int, j: int| 0 <= i && j == i + 1 && j < rest.len() implies pair_in_order(
        combining_class_of(tables, #[trigger] rest[i]),
        combining_class_of(tables, #[trigger] rest[j]),
    ) by {
        assert(rest[i] == z[i + 1] && rest[j] == z[j + 1]);
    }
    assert forall|i: int| 0 <= i < rest.len() implies decomposition(tables, kind, #[trigger] rest[i])
        == seq![rest[i]] by {
        assert(rest[i] == z[i + 1]);
    }
}

// A character behind no starter: it is handed on as it is.
proof fn lemma_passed_on(
    tables: &Tables,
    kind: DecompositionType,
    pending: Seq<(u8, char)>,
    z: Seq<char>,
)
    requires
        composition_reverses(tables, kind),
        run_in_order(tables, kind, None, Seq::<char>::empty(), None, z),
        z.len() > 0,
        combining_class_of(tables, z[0]) != 0 || is_boundary(z[0]),
    ensures
        reorder(
            tables,
            pending,
            decompose_all(
                tables,
                kind,
                recompose(tables, None, Seq::<char>::empty(), None, z),
            ),
        ) == reorder(tables, pending, z),
    decreases z.len(), 0nat,
{
    let nothing = Seq::<char>::empty();
    let ch = z[0];
    let rest = z.skip(1);
    lemma_rest_in_order(tables, kind, z);
    lemma_single_fixed(tables, kind, ch);
    let tail = recompose(tables, None, nothing, None, rest);
    lemma_decompose_all_join(tables, kind, seq![ch], tail);
    lemma_nothing_held(tables, kind);
    assert forall|q: Seq<(u8, char)>| #[trigger]
        reorder(tables, q, decompose_all(tables, kind, tail)) == reorder(tables, q, rest) by {
        lemma_recompose_decomposes(tables, kind, q, None, nothing, None, rest);
        assert(run_decomposed(tables, kind, None, nothing) + rest =~= rest);
    }
    lemma_reorder_behind(tables, pending, seq![ch], decompose_all(tables, kind, tail), rest);
    assert(seq![ch] + rest =~= z);
}

// A boundary behind a starter: the run ends, and the boundary leaves
// behind it.
proof fn lemma_run_ended(
    tables: &Tables,
    kind: DecompositionType,
    pending: Seq<(u8, char)>,
    k: char,
    blocked: Seq<char>,
    last_ccc: Option<u8>,
    z: Seq<char>,
)
    requires
        composition_reverses(tables, kind),
        run_in_order(tables, kind, Some(k), blocked, last_ccc, z),
        z.len() > 0,
        is_boundary(z[0]),
    ensures
        reorder(
            tables,
            pending,
            decompose_all(tables, kind, recompose(tables, Some(k), blocked, last_ccc, z)),
        ) == reorder(tables, pending, run_decomposed(tables, kind, Some(k), blocked) + z),
    decreases z.len(), 0nat,
{
    let nothing = Seq::<char>::empty();
    let ch = z[0];
    let rest = z.skip(1);
    let whole = decomposition(tables, kind, k);
    lemma_rest_in_order(tables, kind, z);
    lemma_single_fixed(tables, kind, ch);
    lemma_single(tables, kind, k);
    lemma_decompose_all_fixed(tables, kind, blocked);
    let tail = recompose(tables, None, nothing, None, rest);
    let out = recompose(tables, Some(k), blocked, last_ccc, z);
    assert(out == seq![k] + blocked.push(ch) + tail);
    lemma_decompose_all_join(tables, kind, seq![k] + blocked.push(ch), tail);
    lemma_decompose_all_join(tables, kind, seq![k], blocked.push(ch));
    lemma_decompose_all_join(tables, kind, blocked, seq![ch]);
    assert(blocked.push(ch) =~= blocked + seq![ch]);
    let front = whole + blocked + seq![ch];
    assert(decompose_all(tables, kind, out) =~= front + decompose_all(tables, kind, tail));
    lemma_nothing_held(tables, kind);
    assert forall|q: Seq<(u8, char)>| #[trigger]
        reorder(tables, q, decompose_all(tables, kind, tail)) == reorder(tables, q, rest) by {
        lemma_recompose_decomposes(tables, kind, q, None, nothing, None, rest);
        assert(run_decomposed(tables, kind, None, nothing) + rest =~= rest);
    }
    lemma_reorder_behind(tables, pending, front, decompose_all(tables, kind, tail), rest);
    assert(seq![ch] + rest =~= z);
    assert(run_decomposed(tables, kind, Some(k), blocked) + z =~= front + rest);
}

// A character that composes with the starter.
proof fn lemma_composed(
    tables: &Tables,
    kind: DecompositionType,
    pending: Seq<(u8, char)>,
    k: char,
    blocked: Seq<char>,
    last_ccc: Option<u8>,
    z: Seq<char>,
)
    requires
        composition_reverses(tables, kind),
        run_in_order(tables, kind, Some(k), blocked, last_ccc, z),
        z.len() > 0,
        !is_boundary(z[0]),
        composite_in_run(tables, k, last_ccc, z[0]) is Some,
    ensures
        reorder(
            tables,
            pending,
            decompose_all(tables, kind, recompose(tables, Some(k), blocked, last_ccc, z)),
        ) == reorder(tables, pending, run_decomposed(tables, kind, Some(k), blocked) + z),
    decreases z.len(), 0nat,
{
    let ch = z[0];
    let rest = z.skip(1);
    let whole = decomposition(tables, kind, k);
    let r = composite_in_run(tables, k, last_ccc, ch)->0;
    lemma_rest_in_order(tables, kind, z);
    lemma_single(tables, kind, k);
    lemma_single(tables, kind, r);
    assert(composition(tables, k, ch) == Some(r));
    assert(decomposition(tables, kind, r) == whole.push(ch));
    assert(run_in_order(tables, kind, Some(r), blocked, last_ccc, rest));
    lemma_recompose_decomposes(tables, kind, pending, Some(r), blocked, last_ccc, rest);
    // The character that composed stands behind the starter now, in front
    // of the blocked marks.
    assert forall|i: int| 0 <= i < blocked.len() implies 0 < combining_class_of(
        tables,
        #[trigger] blocked[i],
    ) < combining_class_of(tables, ch) by {
        assert(combining_class_of(tables, blocked[i]) <= combining_class_of(
            tables,
            blocked[blocked.len() - 1],
        ));
    }
    assert forall|q: Seq<(u8, char)>| #[trigger]
        reorder(tables, q, (blocked.push(ch)) + rest) == reorder(
            tables,
            q,
            (seq![ch] + blocked) + rest,
        ) by {
        lemma_reorder_moves_behind(tables, q, blocked, ch, rest);
    }
    lemma_reorder_behind(
        tables,
        pending,
        whole,
        (blocked.push(ch)) + rest,
        (seq![ch] + blocked) + rest,
    );
    assert(seq![ch] + rest =~= z);
    assert(whole + ((blocked.push(ch)) + rest) =~= run_decomposed(tables, kind, Some(k), blocked)
        + z);
    assert(whole + ((seq![ch] + blocked) + rest) =~= run_decomposed(
        tables,
        kind,
        Some(r),
        blocked,
    ) + rest);
}

// A starter that does not compose: the run ends, and the starter begins
// the next one.
proof fn lemma_run_flushed(
    tables: &Tables,
    kind: DecompositionType,
    pending: Seq<(u8, char)>,
    k: char,
    blocked: Seq<char>,
    last_ccc: Option<u8>,
    z: Seq<char>,
)
    requires
        composition_reverses(tables, kind),
        run_in_order(tables, kind, Some(k), blocked, last_ccc, z),
        z.len() > 0,
        !is_boundary(z[0]),
        composite_in_run(tables, k, last_ccc, z[0]) is None,
        combining_class_of(tables, z[0]) == 0,
    ensures
        reorder(
            tables,
            pending,
            decompose_all(tables, kind, recompose(tables, Some(k), blocked, last_ccc, z)),
        ) == reorder(tables, pending, run_decomposed(tables, kind, Some(k), blocked) + z),
    decreases z.len(), 0nat,
{
    let nothing = Seq::<char>::empty();
    let ch = z[0];
    let rest = z.skip(1);
    let whole = decomposition(tables, kind, k);
    lemma_rest_in_order(tables, kind, z);
    lemma_single_fixed(tables, kind, ch);
    lemma_single(tables, kind, k);
    lemma_single(tables, kind, ch);
    lemma_decompose_all_fixed(tables, kind, blocked);
    let tail = recompose(tables, Some(ch), nothing, None, rest);
    let out = recompose(tables, Some(k), blocked, last_ccc, z);
    assert(out == seq![k] + blocked + tail);
    lemma_decompose_all_join(tables, kind, seq![k] + blocked, tail);
    lemma_decompose_all_join(tables, kind, seq![k], blocked);
    let front = whole + blocked;
    assert(decompose_all(tables, kind, out) =~= front + decompose_all(tables, kind, tail));
    assert(seq![ch] + rest =~= z);
    assert forall|q: Seq<(u8, char)>| #[trigger]
        reorder(tables, q, decompose_all(tables, kind, tail)) == reorder(tables, q, z) by {
        lemma_recompose_decomposes(tables, kind, q, Some(ch), nothing, None, rest);
        assert(run_decomposed(tables, kind, Some(ch), nothing) + rest =~= z);
    }
    lemma_reorder_behind(tables, pending, front, decompose_all(tables, kind, tail), z);
}

// A non-starter that does not compose: it joins the blocked marks.
proof fn lemma_mark_blocked(
    tables: &Tables,
    kind: DecompositionType,
    pending: Seq<(u8, char)>,
    k: char,
    blocked: Seq<char>,
    last_ccc: Option<u8>,
    z: Seq<char>,
)
    requires
        composition_reverses(tables, kind),
        run_in_order(tables, kind, Some(k), blocked, last_ccc, z),
        z.len() > 0,
        !is_boundary(z[0]),
        composite_in_run(tables, k, last_ccc, z[0]) is None,
        combining_class_of(tables, z[0]) != 0,
    ensures
        reorder(
            tables,
            pending,
            decompose_all(tables, kind, recompose(tables, Some(k), blocked, last_ccc, z)),
        ) == reorder(tables, pending, run_decomposed(tables, kind, Some(k), blocked) + z),
    decreases z.len(), 0nat,
{
    let ch = z[0];
    let rest = z.skip(1);
    let class = combining_class_of(tables, ch);
    let longer = blocked.push(ch);
    lemma_rest_in_order(tables, kind, z);
    assert(run_in_order(tables, kind, Some(k), longer, Some(class), rest)) by {
        assert forall|i: int, j: int| 0 <= i <= j < longer.len() implies combining_class_of(
            tables,
            longer[i],
        ) <= combining_class_of(tables, longer[j]) by {
            if j == blocked.len() && i < blocked.len() {
                assert(combining_class_of(tables, blocked[i]) <= combining_class_of(
                    tables,
                    blocked[blocked.len() - 1],
                ));
            }
        }
    }
    lemma_recompose_decomposes(tables, kind, pending, Some(k), longer, Some(class), rest);
    assert(seq![ch] + rest =~= z);
    assert(run_decomposed(tables, kind, Some(k), longer) + rest =~= run_decomposed(
        tables,
        kind,
        Some(k),
        blocked,
    ) + z);
}

// Decomposing one character gives its decomposition.
proof fn lemma_single(tables: &Tables, kind: DecompositionType, c: char)
    ensures
        decompose_all(tables, kind, seq![c]) == decomposition(tables, kind, c),
        decompose_all(tables, kind, option_seq(Some(c))) == decomposition(tables, kind, c),
{
    let nothing = Seq::<char>::empty();
    assert(seq![c].skip(1) =~= nothing);
    assert(option_seq(Some(c)).skip(1) =~= nothing);
    assert(decompose_all(tables, kind, nothing) =~= nothing);
    assert(decomposition(tables, kind, c) + nothing =~= decomposition(tables, kind, c));
}

// Decomposing one character that does not decompose gives the character.
proof fn lemma_single_fixed(tables: &Tables, kind: DecompositionType, c: char)
    requires
        decomposition(tables, kind, c) == seq![c],
    ensures
        decompose_all(tables, kind, seq![c]) == seq![c],
{
    lemma_single(tables, kind, c);
}

// A run that holds nothing decomposes into nothing.
proof fn lemma_nothing_held(tables: &Tables, kind: DecompositionType)
    ensures
        run_decomposed(tables, kind, None, Seq::<char>::empty()) == Seq::<char>::empty(),
{
    let nothing = Seq::<char>::empty();
    assert(decompose_all(tables, kind, nothing) =~= nothing);
    assert(nothing + nothing =~= nothing);
}

/// Decomposing and reordering what the composing run makes of a decomposed
/// text in canonical order gives what decomposing and reordering the text
/// gives: composing takes nothing away that decomposing does not give back.
pub proof fn lemma_recompose_decomposes(
    tables: &Tables,
    kind: DecompositionType,
    pending: Seq<(u8, char)>,
    composee: Option<char>,
    blocked: Seq<char>,
    last_ccc: Option<u8>,
    z: Seq<char>,
)
    requires
        composition_reverses(tables, kind),
        run_in_order(tables, kind, composee, blocked, last_ccc, z),
    ensures
        reorder(
            tables,
            pending,
            decompose_all(tables, kind, recompose(tables, composee, blocked, last_ccc, z)),
        ) == reorder(tables, pending, run_decomposed(tables, kind, composee, blocked) + z),
    decreases z.len(), 1nat,
{
    let nothing = Seq::<char>::empty();
    if z.len() == 0 {
        lemma_decompose_all_fixed(tables, kind, blocked);
        lemma_decompose_all_join(tables, kind, option_seq(composee), blocked);
        assert(run_decomposed(tables, kind, composee, blocked) + z =~= run_decomposed(
            tables,
            kind,
            composee,
            blocked,
        ));
    } else {
        let ch = z[0];
        let rest = z.skip(1);
        match composee {
            None => {
                assert(blocked =~= nothing);
                lemma_nothing_held(tables, kind);
                assert(run_decomposed(tables, kind, composee, blocked) + z =~= z);
                if combining_class_of(tables, ch) != 0 || is_boundary(ch) {
                    lemma_passed_on(tables, kind, pending, z);
                } else {
                    lemma_rest_in_order(tables, kind, z);
                    lemma_single(tables, kind, ch);
                    lemma_recompose_decomposes(tables, kind, pending, Some(ch), nothing, None, rest);
                    assert(seq![ch] + rest =~= z);
                    assert(run_decomposed(tables, kind, Some(ch), nothing) + rest =~= z);
                }
            },
            Some(k) => {
                if is_boundary(ch) {
                    lemma_run_ended(tables, kind, pending, k, blocked, last_ccc, z);
                } else if composite_in_run(tables, k, last_ccc, ch) is Some {
                    lemma_composed(tables, kind, pending, k, blocked, last_ccc, z);
                } else if combining_class_of(tables, ch) == 0 {
                    lemma_run_flushed(tables, kind, pending, k, blocked, last_ccc, z);
                } else {
                    lemma_mark_blocked(tables, kind, pending, k, blocked, last_ccc, z);
                }
            },
        }
    }
}

/// Where no character of a decomposition decomposes further and every
/// composite decomposes into its parts, a composed form decomposes into the
/// decomposed form of the same text.
pub proof fn lemma_composed_form_decomposes(tables: &Tables, kind: DecompositionType, s: Seq<char>)
    requires
        fully_decomposed(tables, kind),
        composition_reverses(tables, kind),
    ensures
        decomposed_form(tables, kind, composed_form(tables, kind, s)) == decomposed_form(
            tables,
            kind,
            s,
        ),
{
    let no_pending = Seq::<(u8, char)>::empty();
    let nothing = Seq::<char>::empty();
    let flat = decompose_all(tables, kind, s);
    let y = decomposed_form(tables, kind, s);
    lemma_decompose_all_is_fixed(tables, kind, s);
    lemma_reorder_keeps(
        tables,
        no_pending,
        flat,
        |c: char| decomposition(tables, kind, c) == seq![c],
    );
    lemma_reorder_in_order(tables, no_pending, flat);
    lemma_recompose_decomposes(tables, kind, no_pending, None, nothing, None, y);
    assert(decompose_all(tables, kind, nothing) =~= nothing);
    assert(run_decomposed(tables, kind, None, nothing) + y =~= y);
    assert(chars_of(no_pending) + y =~= y);
    lemma_reorder_of_ordered(tables, no_pending, y);
}

/// Where no character of a decomposition decomposes further and every
/// composite decomposes into its parts, composing is idempotent: the
/// composed form of a composed form is that form.
pub proof fn lemma_composed_form_idempotent(tables: &Tables, kind: DecompositionType, s: Seq<char>)
    requires
        fully_decomposed(tables, kind),
        composition_reverses(tables, kind),
    ensures
        composed_form(tables, kind, composed_form(tables, kind, s)) == composed_form(
            tables,
            kind,
            s,
        ),
{
    lemma_composed_form_decomposes(tables, kind, s);
}

/// Whether the tables hold no decomposition and no composite, so that
/// Hangul syllables alone decompose and compose.
pub open spec fn hangul_alone(tables: &Tables) -> bool {
    &&& forall|c: char| (#[trigger] canonical_decomposition_of(tables, c)) is None
    &&& forall|c: char| (#[trigger] compatibility_decomposition_of(tables, c)) is None
    &&& forall|a: char, b: char| (#[trigger] table_composition_of(tables, a, b)) is None
}

/// The arithmetic of Hangul syllables meets the conditions by itself: no
/// jamo decomposes further, and every syllable decomposes into its parts.
pub proof fn lemma_hangul_alone_is_stable(tables: &Tables, kind: DecompositionType)
    requires
        hangul_alone(tables),
    ensures
        fully_decomposed(tables, kind),
        composition_reverses(tables, kind),
{
    assert forall|c: char| #[trigger]
        decomposition(tables, kind, c) == if is_hangul_syllable(c) {
            hangul_decomposition(c)
        } else {
            seq![c]
        } by {
        assert(canonical_decomposition_of(tables, c) is None);
        assert(compatibility_decomposition_of(tables, c) is None);
    }
    assert forall|c: char, i: int| 0 <= i < decomposition(tables, kind, c).len() implies decomposition(
        tables,
        kind,
        #[trigger] decomposition(tables, kind, c)[i],
    ) == seq![decomposition(tables, kind, c)[i]] by {
        let d = decomposition(tables, kind, c)[i];
        assert(!is_hangul_syllable(d));
    }
    assert forall|a: char, b: char| (#[trigger] composition(tables, a, b)) is Some implies decomposition(
        tables,
        kind,
        composition(tables, a, b)->0,
    ) == decomposition(tables, kind, a).push(b) by {
        assert(table_composition_of(tables, a, b) is None);
        assert(composition(tables, a, b) == hangul_composition(a, b));
        lemma_hangul_composition_reverses(a, b);
    }
}

} // verus!
