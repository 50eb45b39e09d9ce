//! A text that the quick check affirms for a composed form is its own
//! composed form, where the quick-check classes go with the compositions.

use crate::canonical::{lemma_sort_keeps, lemma_sort_of_sorted, sorted_by_class};
use crate::decompose::{
    chars_of, decompose_all, decomposition, insert_by_class, lemma_insert_position, reorder,
    sort_by_class, DecompositionType,
};
use crate::normalize::{
    composition, hangul_composition, hangul_decomposition, is_hangul_syllable,
    lemma_hangul_decomposition_reverses, T_BASE, T_COUNT, V_BASE, V_COUNT,
};
use crate::perfect_hash::combining_class_of;
use crate::recompose::{composite_in_run, is_boundary, option_seq, recompose};
use crate::stability::{hangul_alone, lemma_sort_moves_behind, with_classes};
use crate::tables::Tables;
use vstd::prelude::*;

verus! {

/// What composing the characters of `t`, one after the other, onto `k`
/// gives, if each of them composes.
pub open spec fn composed_onto(tables: &Tables, k: char, t: Seq<char>) -> Option<char>
    decreases t.len(),
{
    if t.len() == 0 {
        Some(k)
    } else {
        match composition(tables, k, t[0]) {
            Some(r) => composed_onto(tables, r, t.skip(1)),
            None => None,
        }
    }
}

/// Whether `t` is in canonical order behind a character of class `last`.
pub open spec fn ordered_from(tables: &Tables, last: u8, t: Seq<char>) -> bool
    decreases t.len(),
{
    if t.len() == 0 {
        true
    } else {
        let class = combining_class_of(tables, t[0]);
        (class == 0 || last <= class) && ordered_from(tables, class, t.skip(1))
    }
}

/// Whether `t` holds non-starters only, none of them a boundary, with
/// ascending classes.
pub open spec fn ascending_marks(tables: &Tables, t: Seq<char>) -> bool {
    &&& forall|i: int|
        0 <= i < t.len() ==> combining_class_of(tables, #[trigger] t[i]) != 0 && !is_boundary(
            t[i],
        )
    &&& forall|i: int, j: int|
        0 <= i <= j < t.len() ==> combining_class_of(tables, t[i]) <= combining_class_of(
            tables,
            t[j],
        )
}

/// Whether no character composes with `c` behind it.
pub open spec fn never_second(tables: &Tables, c: char) -> bool {
    forall|a: char| (#[trigger] composition(tables, a, c)) is None
}

/// The class of the last of `t`, or 0 where `t` is empty.
pub open spec fn last_class(tables: &Tables, t: Seq<char>) -> u8 {
    if t.len() == 0 {
        0
    } else {
        combining_class_of(tables, t.last())
    }
}

/// The class of the last blocked mark, as the composing run keeps it.
pub open spec fn blocked_class(tables: &Tables, blocked: Seq<char>) -> Option<u8> {
    if blocked.len() == 0 {
        None
    } else {
        Some(combining_class_of(tables, blocked.last()))
    }
}

/// Composing a joined text onto a character composes its first part and
/// then its second part.
pub proof fn lemma_composed_onto_join(tables: &Tables, k: char, a: Seq<char>, b: Seq<char>)
    ensures
        composed_onto(tables, k, a + b) == match composed_onto(tables, k, a) {
            Some(r) => composed_onto(tables, r, b),
            None => None,
        },
    decreases a.len(),
{
    if a.len() == 0 {
        assert(a + b =~= b);
    } else {
        assert((a + b)[0] == a[0]);
        assert((a + b).skip(1) =~= a.skip(1) + b);
        match composition(tables, k, a[0]) {
            Some(r) => {
                lemma_composed_onto_join(tables, r, a.skip(1), b);
            },
            None => {},
        }
    }
}

/// Marks of ascending classes are sorted as they stand.
pub proof fn lemma_ascending_is_sorted(tables: &Tables, t: Seq<char>)
    requires
        ascending_marks(tables, t),
    ensures
        sort_by_class(with_classes(tables, t)) == with_classes(tables, t),
        chars_of(with_classes(tables, t)) == t,
{
    let p = with_classes(tables, t);
    assert forall|i: int, j: int| 0 <= i <= j < p.len() implies p[i].0 <= p[j].0 by {
        assert(p[i].0 == combining_class_of(tables, t[i]));
        assert(p[j].0 == combining_class_of(tables, t[j]));
    }
    lemma_sort_of_sorted(p);
    assert(chars_of(p) =~= t);
}

/// The composing run takes in marks that compose one after the other,
/// where none of them is blocked.
pub proof fn lemma_marks_compose(
    tables: &Tables,
    k: char,
    blocked: Seq<char>,
    last_ccc: Option<u8>,
    t: Seq<char>,
    z: Seq<char>,
)
    requires
        composed_onto(tables, k, t) is Some,
        forall|i: int| 0 <= i < t.len() ==> !is_boundary(#[trigger] t[i]),
        forall|i: int|
            0 <= i < t.len() && last_ccc is Some ==> last_ccc->0 < combining_class_of(
                tables,
                #[trigger] t[i],
            ),
    ensures
        recompose(tables, Some(k), blocked, last_ccc, t + z) == recompose(
            tables,
            Some(composed_onto(tables, k, t)->0),
            blocked,
            last_ccc,
            z,
        ),
    decreases t.len(),
{
    if t.len() == 0 {
        assert(t + z =~= z);
    } else {
        let ch = t[0];
        let rest = t.skip(1);
        assert((t + z)[0] == ch);
        assert((t + z).skip(1) =~= rest + z);
        assert(!is_boundary(t[0]));
        let r = composition(tables, k, ch)->0;
        assert(composite_in_run(tables, k, last_ccc, ch) == Some(r));
        assert forall|i: int| 0 <= i < rest.len() implies !is_boundary(#[trigger] rest[i]) by {
            assert(rest[i] == t[i + 1]);
        }
        assert forall|i: int| 0 <= i < rest.len() && last_ccc is Some implies last_ccc->0
            < combining_class_of(tables, #[trigger] rest[i]) by {
            assert(rest[i] == t[i + 1]);
        }
        lemma_marks_compose(tables, r, blocked, last_ccc, rest, z);
    }
}

/// Behind no starter, the composing run hands non-starters on as they are.
pub proof fn lemma_marks_pass(tables: &Tables, m: Seq<char>, z: Seq<char>)
    requires
        forall|i: int| 0 <= i < m.len() ==> combining_class_of(tables, #[trigger] m[i]) != 0,
    ensures
        recompose(tables, None, Seq::<char>::empty(), None, m + z) == m + recompose(
            tables,
            None,
            Seq::<char>::empty(),
            None,
            z,
        ),
    decreases m.len(),
{
    let nothing = Seq::<char>::empty();
    if m.len() == 0 {
        assert(m + z =~= z);
        assert(m + recompose(tables, None, nothing, None, z) =~= recompose(
            tables,
            None,
            nothing,
            None,
            z,
        ));
    } else {
        let rest = m.skip(1);
        assert((m + z)[0] == m[0]);
        assert((m + z).skip(1) =~= rest + z);
        assert forall|i: int| 0 <= i < rest.len() implies combining_class_of(
            tables,
            #[trigger] rest[i],
        ) != 0 by {
            assert(rest[i] == m[i + 1]);
        }
        lemma_marks_pass(tables, rest, z);
        assert(seq![m[0]] + (rest + recompose(tables, None, nothing, None, z)) =~= m + recompose(
            tables,
            None,
            nothing,
            None,
            z,
        ));
    }
}

/// The number of marks at the front of `t` whose class is at most `v`.
pub open spec fn below(tables: &Tables, t: Seq<char>, v: u8) -> int
    decreases t.len(),
{
    if t.len() == 0 || combining_class_of(tables, t[0]) > v {
        0
    } else {
        1 + below(tables, t.skip(1), v)
    }
}

/// Marks of ascending classes fall into those of a class up to `v`, in
/// front, and those of a higher class, behind.
pub proof fn lemma_below_splits(tables: &Tables, t: Seq<char>, v: u8)
    requires
        ascending_marks(tables, t),
    ensures
        0 <= below(tables, t, v) <= t.len(),
        forall|i: int|
            0 <= i < below(tables, t, v) ==> combining_class_of(tables, #[trigger] t[i]) <= v,
        forall|i: int|
            below(tables, t, v) <= i < t.len() ==> combining_class_of(tables, #[trigger] t[i]) > v,
    decreases t.len(),
{
    if t.len() == 0 {
    } else if combining_class_of(tables, t[0]) > v {
        assert forall|i: int| 0 <= i < t.len() implies combining_class_of(tables, #[trigger] t[i])
            > v by {
            assert(combining_class_of(tables, t[0]) <= combining_class_of(tables, t[i]));
        }
    } else {
        let rest = t.skip(1);
        assert(ascending_marks(tables, rest)) by {
            assert forall|i: int| 0 <= i < rest.len() implies combining_class_of(
                tables,
                #[trigger] rest[i],
            ) != 0 && !is_boundary(rest[i]) by {
                assert(rest[i] == t[i + 1]);
            }
            assert forall|i: int, j: int| 0 <= i <= j < rest.len() implies combining_class_of(
                tables,
                rest[i],
            ) <= combining_class_of(tables, rest[j]) by {
                assert(rest[i] == t[i + 1] && rest[j] == t[j + 1]);
            }
        }
        lemma_below_splits(tables, rest, v);
        let j = below(tables, t, v);
        assert forall|i: int| 0 <= i < j implies combining_class_of(tables, #[trigger] t[i])
            <= v by {
            if i > 0 {
                assert(t[i] == rest[i - 1]);
            }
        }
        assert forall|i: int| j <= i < t.len() implies combining_class_of(tables, #[trigger] t[i])
            > v by {
            assert(t[i] == rest[i - 1]);
        }
    }
}

/// Entries of ascending classes that are higher than the classes behind
/// them, and no lower than the classes in front of them, sort to the end.
pub proof fn lemma_sort_keeps_highest(
    a: Seq<(u8, char)>,
    g: Seq<(u8, char)>,
    b: Seq<(u8, char)>,
)
    requires
        sorted_by_class(g),
        forall|i: int, j: int| 0 <= i < a.len() && 0 <= j < g.len() ==> a[i].0 <= g[j].0,
        forall|i: int, j: int| 0 <= i < b.len() && 0 <= j < g.len() ==> b[i].0 < g[j].0,
    ensures
        sort_by_class(a + g + b) == sort_by_class(a + b) + g,
    decreases g.len(),
{
    if g.len() == 0 {
        assert(a + g + b =~= a + b);
        assert(sort_by_class(a + b) + g =~= sort_by_class(a + b));
    } else {
        let short = g.drop_last();
        let top = g.last();
        assert(sorted_by_class(short)) by {
            assert forall|i: int, j: int| 0 <= i <= j < short.len() implies short[i].0
                <= short[j].0 by {
                assert(g[i].0 <= g[j].0);
            }
        }
        assert forall|i: int, j: int| 0 <= i < a.len() && 0 <= j < short.len() implies a[i].0
            <= short[j].0 by {
            assert(short[j] == g[j]);
        }
        assert forall|i: int, j: int| 0 <= i < b.len() && 0 <= j < short.len() implies b[i].0
            < short[j].0 by {
            assert(short[j] == g[j]);
        }
        lemma_sort_keeps_highest(a, short, b);
        // The last of `g` sorts alike from in front of `b` and from behind it.
        assert forall|i: int| 0 <= i < b.len() implies (#[trigger] b[i]).0 < top.0 by {
            assert(b[i].0 < g[g.len() - 1].0);
        }
        lemma_sort_moves_behind(a + short, top, b);
        assert((a + short).push(top) + b =~= a + g + b);
        let joined = (a + short + b).push(top);
        assert(joined.drop_last() =~= a + short + b);
        assert(sort_by_class(joined) == insert_by_class(sort_by_class(a + short + b), top));
        // And it is no lower than any entry in front of it.
        let base = sort_by_class(a + b);
        let front = base + short;
        let below_top = |e: (u8, char)| e.0 <= top.0;
        assert forall|i: int| 0 <= i < (a + b).len() implies below_top(#[trigger] (a + b)[i]) by {
            if i < a.len() {
                assert(a[i].0 <= g[g.len() - 1].0);
            } else {
                assert(b[i - a.len()].0 < g[g.len() - 1].0);
            }
        }
        lemma_sort_keeps(a + b, below_top);
        if front.len() > 0 {
            if short.len() > 0 {
                assert(front.last() == short.last());
                assert(g[short.len() - 1].0 <= g[g.len() - 1].0);
            } else {
                assert(front.last() == base.last());
                assert(below_top(base[base.len() - 1]));
            }
        }
        lemma_insert_position(front, top, front.len() as int);
        assert(front.subrange(0, front.len() as int) =~= front);
        assert(front.subrange(front.len() as int, front.len() as int) =~= Seq::<(u8, char)>::empty());
        assert(insert_by_class(front, top) =~= base + g);
    }
}

/// Of the marks `t` and the marks `m` behind them, the last of `m` sorts
/// behind the marks of `t` up to its class and in front of the others.
pub proof fn lemma_last_mark_sorts(tables: &Tables, t: Seq<char>, m: Seq<char>)
    requires
        ascending_marks(tables, t),
        ascending_marks(tables, m),
        m.len() > 0,
    ensures
        sort_by_class(with_classes(tables, t) + with_classes(tables, m)) == sort_by_class(
            with_classes(
                tables,
                t.subrange(0, below(tables, t, combining_class_of(tables, m.last()))),
            ) + with_classes(tables, m.drop_last()),
        ).push((combining_class_of(tables, m.last()), m.last())) + with_classes(
            tables,
            t.subrange(below(tables, t, combining_class_of(tables, m.last())), t.len() as int),
        ),
{
    let short = m.drop_last();
    let last = m.last();
    let v = combining_class_of(tables, last);
    let entry = (v, last);
    lemma_below_splits(tables, t, v);
    let j = below(tables, t, v);
    let t1 = t.subrange(0, j);
    let t2 = t.subrange(j, t.len() as int);
    let w1 = with_classes(tables, t1);
    let w2 = with_classes(tables, t2);
    let ws = with_classes(tables, short);
    let whole = with_classes(tables, t) + with_classes(tables, m);
    assert(whole.drop_last() =~= w1 + w2 + ws);
    assert(whole.last() == entry);
    assert(sorted_by_class(w2)) by {
        assert forall|i: int, n: int| 0 <= i <= n < w2.len() implies w2[i].0 <= w2[n].0 by {
            assert(w2[i].0 == combining_class_of(tables, t[i + j]));
            assert(w2[n].0 == combining_class_of(tables, t[n + j]));
        }
    }
    assert forall|i: int, n: int| 0 <= i < w1.len() && 0 <= n < w2.len() implies w1[i].0
        <= w2[n].0 by {
        assert(w1[i].0 == combining_class_of(tables, t[i]));
        assert(w2[n].0 == combining_class_of(tables, t[n + j]));
    }
    assert forall|i: int, n: int| 0 <= i < ws.len() && 0 <= n < w2.len() implies ws[i].0
        < w2[n].0 by {
        assert(ws[i].0 == combining_class_of(tables, m[i]));
        assert(combining_class_of(tables, m[i]) <= combining_class_of(tables, m[m.len() - 1]));
        assert(w2[n].0 == combining_class_of(tables, t[n + j]));
    }
    lemma_sort_keeps_highest(w1, w2, ws);
    let base = sort_by_class(w1 + ws);
    let front = base + w2;
    let up_to = |e: (u8, char)| e.0 <= v;
    assert forall|i: int| 0 <= i < (w1 + ws).len() implies up_to(#[trigger] (w1 + ws)[i]) by {
        if i < w1.len() {
            assert(w1[i].0 == combining_class_of(tables, t[i]));
        } else {
            let n = i - w1.len();
            assert(ws[n].0 == combining_class_of(tables, m[n]));
            assert(combining_class_of(tables, m[n]) <= combining_class_of(tables, m[m.len() - 1]));
        }
    }
    lemma_sort_keeps(w1 + ws, up_to);
    assert forall|n: int| base.len() <= n < front.len() implies front[n].0 > entry.0 by {
        let i = n - base.len();
        assert(front[n] == w2[i]);
        assert(w2[i].0 == combining_class_of(tables, t[i + j]));
    }
    if base.len() > 0 {
        assert(up_to(base[base.len() - 1]));
        assert(front[base.len() - 1] == base[base.len() - 1]);
    }
    lemma_insert_position(front, entry, base.len() as int);
    assert(front.subrange(0, base.len() as int) =~= base);
    assert(front.subrange(base.len() as int, front.len() as int) =~= w2);
}

// The parts of a run of marks of ascending classes are such runs.
proof fn lemma_parts_ascend(tables: &Tables, t: Seq<char>, j: int)
    requires
        ascending_marks(tables, t),
        0 <= j <= t.len(),
    ensures
        ascending_marks(tables, t.subrange(0, j)),
        ascending_marks(tables, t.subrange(j, t.len() as int)),
{
    let t1 = t.subrange(0, j);
    let t2 = t.subrange(j, t.len() as int);
    assert forall|i: int| 0 <= i < t1.len() implies combining_class_of(tables, #[trigger] t1[i])
        != 0 && !is_boundary(t1[i]) by {
        assert(t1[i] == t[i]);
    }
    assert forall|i: int, n: int| 0 <= i <= n < t1.len() implies combining_class_of(tables, t1[i])
        <= combining_class_of(tables, t1[n]) by {
        assert(t1[i] == t[i] && t1[n] == t[n]);
    }
    assert forall|i: int| 0 <= i < t2.len() implies combining_class_of(tables, #[trigger] t2[i])
        != 0 && !is_boundary(t2[i]) by {
        assert(t2[i] == t[i + j]);
    }
    assert forall|i: int, n: int| 0 <= i <= n < t2.len() implies combining_class_of(tables, t2[i])
        <= combining_class_of(tables, t2[n]) by {
        assert(t2[i] == t[i + j] && t2[n] == t[n + j]);
    }
}

/// The composing run takes in a run of non-starters in canonical order, of
/// which the marks `t` compose with the starter and the marks `m` never
/// compose: it composes the first and blocks the second.
pub proof fn lemma_run_merges(
    tables: &Tables,
    k: char,
    t: Seq<char>,
    m: Seq<char>,
    z: Seq<char>,
)
    requires
        composed_onto(tables, k, t) is Some,
        ascending_marks(tables, t),
        ascending_marks(tables, m),
        forall|i: int| 0 <= i < m.len() ==> never_second(tables, #[trigger] m[i]),
    ensures
        recompose(
            tables,
            Some(k),
            Seq::<char>::empty(),
            None,
            chars_of(sort_by_class(with_classes(tables, t) + with_classes(tables, m))) + z,
        ) == recompose(
            tables,
            Some(composed_onto(tables, k, t)->0),
            m,
            blocked_class(tables, m),
            z,
        ),
    decreases m.len(),
{
    let nothing = Seq::<char>::empty();
    if m.len() == 0 {
        lemma_ascending_is_sorted(tables, t);
        assert(with_classes(tables, t) + with_classes(tables, m) =~= with_classes(tables, t));
        lemma_marks_compose(tables, k, nothing, None, t, z);
        assert(m =~= nothing);
    } else {
        let short = m.drop_last();
        let last = m.last();
        let v = combining_class_of(tables, last);
        lemma_below_splits(tables, t, v);
        let j = below(tables, t, v);
        let t1 = t.subrange(0, j);
        let t2 = t.subrange(j, t.len() as int);
        assert(t1 + t2 =~= t);
        lemma_parts_ascend(tables, t, j);
        lemma_parts_ascend(tables, m, m.len() - 1);
        assert(m.subrange(0, m.len() - 1) =~= short);
        lemma_composed_onto_join(tables, k, t1, t2);
        let k1 = composed_onto(tables, k, t1)->0;
        assert forall|i: int| 0 <= i < short.len() implies never_second(
            tables,
            #[trigger] short[i],
        ) by {
            assert(short[i] == m[i]);
        }
        // The marks of a higher class than the last blocked mark sort
        // behind it, all others in front of it.
        lemma_last_mark_sorts(tables, t, m);
        let base = sort_by_class(with_classes(tables, t1) + with_classes(tables, short));
        let whole = with_classes(tables, t) + with_classes(tables, m);
        assert(chars_of(with_classes(tables, t2)) =~= t2);
        let behind = seq![last] + (t2 + z);
        assert(chars_of(sort_by_class(whole)) + z =~= chars_of(base) + behind);
        // The run takes in what stands in front of the last blocked mark,
        lemma_run_merges(tables, k, t1, short, behind);
        // blocks the mark,
        lemma_mark_is_blocked(tables, k1, short, last, t2 + z);
        assert(short.push(last) =~= m);
        // and composes the marks behind it.
        assert forall|i: int| 0 <= i < t2.len() implies v < combining_class_of(
            tables,
            #[trigger] t2[i],
        ) && !is_boundary(t2[i]) by {
            assert(t2[i] == t[i + j]);
        }
        lemma_marks_compose(tables, k1, m, Some(v), t2, z);
    }
}

// The composing run blocks a mark that never composes.
proof fn lemma_mark_is_blocked(
    tables: &Tables,
    k: char,
    blocked: Seq<char>,
    mark: char,
    z: Seq<char>,
)
    requires
        never_second(tables, mark),
        combining_class_of(tables, mark) != 0,
        !is_boundary(mark),
    ensures
        recompose(tables, Some(k), blocked, blocked_class(tables, blocked), seq![mark] + z)
            == recompose(
            tables,
            Some(k),
            blocked.push(mark),
            Some(combining_class_of(tables, mark)),
            z,
        ),
{
    let input = seq![mark] + z;
    assert(input[0] == mark);
    assert(input.skip(1) =~= z);
    assert(composition(tables, k, mark) is None);
    assert(composite_in_run(tables, k, blocked_class(tables, blocked), mark) is None);
}

/// Whether `c` stays as it is where a text is decomposed and composed
/// again: no character composes with `c` behind it; a non-starter does not
/// decompose; and a starter decomposes into a starter, with which no
/// character composes either, and characters in canonical order that
/// compose with it, one after the other, to `c` again.
pub open spec fn stays_composed(tables: &Tables, kind: DecompositionType, c: char) -> bool {
    let d = decomposition(tables, kind, c);
    &&& never_second(tables, c)
    &&& combining_class_of(tables, c) != 0 ==> d == seq![c] && !is_boundary(c)
    &&& combining_class_of(tables, c) == 0 ==> {
        &&& d.len() >= 1
        &&& combining_class_of(tables, d[0]) == 0
        &&& never_second(tables, d[0])
        &&& composed_onto(tables, d[0], d.skip(1)) == Some(c)
        &&& ordered_from(tables, 0, d.skip(1))
        &&& forall|i: int| 0 <= i < d.skip(1).len() ==> !is_boundary(#[trigger] d.skip(1)[i])
        &&& is_boundary(d[0]) ==> d.len() == 1
    }
}

/// Whether every character of `s` stays as it is.
pub open spec fn text_stays(tables: &Tables, kind: DecompositionType, s: Seq<char>) -> bool {
    forall|i: int| 0 <= i < s.len() ==> stays_composed(tables, kind, #[trigger] s[i])
}

// The rest of a text that stays, and a longer run of marks in front of it.
proof fn lemma_mark_joins(
    tables: &Tables,
    kind: DecompositionType,
    m: Seq<char>,
    s: Seq<char>,
)
    requires
        ascending_marks(tables, m),
        forall|i: int| 0 <= i < m.len() ==> never_second(tables, #[trigger] m[i]),
        text_stays(tables, kind, s),
        ordered_from(tables, last_class(tables, m), s),
        s.len() > 0,
        combining_class_of(tables, s[0]) != 0,
    ensures
        ascending_marks(tables, m.push(s[0])),
        forall|i: int|
            0 <= i < m.push(s[0]).len() ==> never_second(tables, #[trigger] m.push(s[0])[i]),
        text_stays(tables, kind, s.skip(1)),
        ordered_from(tables, last_class(tables, m.push(s[0])), s.skip(1)),
        decompose_all(tables, kind, s) == seq![s[0]] + decompose_all(tables, kind, s.skip(1)),
{
    let longer = m.push(s[0]);
    let rest = s.skip(1);
    assert(stays_composed(tables, kind, s[0]));
    assert forall|i: int| 0 <= i < longer.len() implies combining_class_of(
        tables,
        #[trigger] longer[i],
    ) != 0 && !is_boundary(longer[i]) && never_second(tables, longer[i]) by {
        if i < m.len() {
            assert(longer[i] == m[i]);
        }
    }
    assert forall|i: int, j: int| 0 <= i <= j < longer.len() implies combining_class_of(
        tables,
        longer[i],
    ) <= combining_class_of(tables, longer[j]) by {
        if j == m.len() && i < m.len() {
            assert(combining_class_of(tables, m[i]) <= combining_class_of(tables, m[m.len() - 1]));
        }
    }
    assert forall|i: int| 0 <= i < rest.len() implies stays_composed(tables, kind, #[trigger] rest[i]) by {
        assert(rest[i] == s[i + 1]);
    }
}

// The rest of a text that stays behind a starter of it.
proof fn lemma_starter_leads(tables: &Tables, kind: DecompositionType, last: u8, s: Seq<char>)
    requires
        text_stays(tables, kind, s),
        ordered_from(tables, last, s),
        s.len() > 0,
        combining_class_of(tables, s[0]) == 0,
    ensures
        text_stays(tables, kind, s.skip(1)),
        ordered_from(tables, 0, s.skip(1)),
        decompose_all(tables, kind, s) == decomposition(tables, kind, s[0]) + decompose_all(
            tables,
            kind,
            s.skip(1),
        ),
        stays_composed(tables, kind, s[0]),
{
    let rest = s.skip(1);
    assert forall|i: int| 0 <= i < rest.len() implies stays_composed(tables, kind, #[trigger] rest[i]) by {
        assert(rest[i] == s[i + 1]);
    }
}

/// Behind a starter under composition: `k` is what has been composed, `t`
/// are marks of its decomposition that wait for the canonical ordering,
/// and `x` is the rest of its decomposition. What is left of the text
/// composes to the starter `c` and the text behind it.
pub proof fn lemma_starter_composes(
    tables: &Tables,
    kind: DecompositionType,
    k: char,
    t: Seq<char>,
    x: Seq<char>,
    c: char,
    s: Seq<char>,
)
    requires
        ascending_marks(tables, t),
        composed_onto(tables, k, t + x) == Some(c),
        ordered_from(tables, last_class(tables, t), x),
        forall|i: int| 0 <= i < x.len() ==> !is_boundary(#[trigger] x[i]),
        text_stays(tables, kind, s),
        ordered_from(tables, 0, s),
    ensures
        recompose(
            tables,
            Some(k),
            Seq::<char>::empty(),
            None,
            reorder(tables, with_classes(tables, t), x + decompose_all(tables, kind, s)),
        ) == seq![c] + s,
    decreases s.len(), 2 + x.len(),
{
    let nothing = Seq::<char>::empty();
    let flat = decompose_all(tables, kind, s);
    let pending = with_classes(tables, t);
    if x.len() == 0 {
        assert(t + x =~= t);
        assert(x + flat =~= flat);
        assert(pending + with_classes(tables, nothing) =~= pending);
        lemma_run_composes(tables, kind, k, t, nothing, c, s);
        assert(seq![c] + nothing + s =~= seq![c] + s);
    } else {
        let x0 = x[0];
        let xr = x.skip(1);
        let class = combining_class_of(tables, x0);
        assert((x + flat)[0] == x0);
        assert((x + flat).skip(1) =~= xr + flat);
        assert forall|i: int| 0 <= i < xr.len() implies !is_boundary(#[trigger] xr[i]) by {
            assert(xr[i] == x[i + 1]);
        }
        assert(!is_boundary(x[0]));
        if class != 0 {
            let longer = t.push(x0);
            assert(ascending_marks(tables, longer)) by {
                assert forall|i: int| 0 <= i < longer.len() implies combining_class_of(
                    tables,
                    #[trigger] longer[i],
                ) != 0 && !is_boundary(longer[i]) by {
                    if i < t.len() {
                        assert(longer[i] == t[i]);
                    }
                }
                assert forall|i: int, j: int| 0 <= i <= j < longer.len() implies combining_class_of(
                    tables,
                    longer[i],
                ) <= combining_class_of(tables, longer[j]) by {
                    if j == t.len() && i < t.len() {
                        assert(combining_class_of(tables, t[i]) <= combining_class_of(
                            tables,
                            t[t.len() - 1],
                        ));
                    }
                }
            }
            assert(longer + xr =~= t + x);
            assert(pending.push((class, x0)) =~= with_classes(tables, longer));
            lemma_starter_composes(tables, kind, k, longer, xr, c, s);
        } else {
            // A starter of the decomposition: the marks in front of it
            // are in order as they stand, and all compose.
            lemma_ascending_is_sorted(tables, t);
            lemma_composed_onto_join(tables, k, t, x);
            let kt = composed_onto(tables, k, t)->0;
            let behind = reorder(tables, Seq::<(u8, char)>::empty(), xr + flat);
            let stream = reorder(tables, pending, x + flat);
            assert(stream =~= t + (seq![x0] + behind));
            lemma_marks_compose(tables, k, nothing, None, t, seq![x0] + behind);
            assert((seq![x0] + behind)[0] == x0);
            assert((seq![x0] + behind).skip(1) =~= behind);
            let r = composition(tables, kt, x0)->0;
            assert(composite_in_run(tables, kt, None, x0) == Some(r));
            assert(with_classes(tables, nothing) =~= Seq::<(u8, char)>::empty());
            assert(nothing + xr =~= xr);
            assert(ascending_marks(tables, nothing));
            lemma_starter_composes(tables, kind, r, nothing, xr, c, s);
        }
    }
}

/// Behind a starter whose decomposition has been taken in: `t` are the
/// marks of it that wait for the canonical ordering, and `m` are the marks
/// of the text behind it that wait with them. What is left of the text
/// composes to the starter `c`, the marks `m` and the text behind them.
pub proof fn lemma_run_composes(
    tables: &Tables,
    kind: DecompositionType,
    k: char,
    t: Seq<char>,
    m: Seq<char>,
    c: char,
    s: Seq<char>,
)
    requires
        ascending_marks(tables, t),
        composed_onto(tables, k, t) == Some(c),
        ascending_marks(tables, m),
        forall|i: int| 0 <= i < m.len() ==> never_second(tables, #[trigger] m[i]),
        text_stays(tables, kind, s),
        ordered_from(tables, last_class(tables, m), s),
    ensures
        recompose(
            tables,
            Some(k),
            Seq::<char>::empty(),
            None,
            reorder(
                tables,
                with_classes(tables, t) + with_classes(tables, m),
                decompose_all(tables, kind, s),
            ),
        ) == seq![c] + m + s,
    decreases s.len(), 1nat,
{
    let nothing = Seq::<char>::empty();
    let flat = decompose_all(tables, kind, s);
    let pending = with_classes(tables, t) + with_classes(tables, m);
    if s.len() == 0 {
        let sorted = chars_of(sort_by_class(pending));
        lemma_run_merges(tables, k, t, m, nothing);
        assert(sorted + nothing =~= sorted);
        assert(seq![c] + m + s =~= option_seq(Some(c)) + m);
    } else if combining_class_of(tables, s[0]) != 0 {
        lemma_mark_joins(tables, kind, m, s);
        let class = combining_class_of(tables, s[0]);
        let rest = s.skip(1);
        assert(flat[0] == s[0]);
        assert(flat.skip(1) =~= decompose_all(tables, kind, rest));
        assert(pending.push((class, s[0])) =~= with_classes(tables, t) + with_classes(
            tables,
            m.push(s[0]),
        ));
        lemma_run_composes(tables, kind, k, t, m.push(s[0]), c, rest);
        assert(seq![c] + m.push(s[0]) + rest =~= seq![c] + m + s);
    } else {
        lemma_run_meets_starter(tables, kind, k, t, m, c, s);
    }
}

// The case of a starter behind the run.
proof fn lemma_run_meets_starter(
    tables: &Tables,
    kind: DecompositionType,
    k: char,
    t: Seq<char>,
    m: Seq<char>,
    c: char,
    s: Seq<char>,
)
    requires
        ascending_marks(tables, t),
        composed_onto(tables, k, t) == Some(c),
        ascending_marks(tables, m),
        forall|i: int| 0 <= i < m.len() ==> never_second(tables, #[trigger] m[i]),
        text_stays(tables, kind, s),
        ordered_from(tables, last_class(tables, m), s),
        s.len() > 0,
        combining_class_of(tables, s[0]) == 0,
    ensures
        recompose(
            tables,
            Some(k),
            Seq::<char>::empty(),
            None,
            reorder(
                tables,
                with_classes(tables, t) + with_classes(tables, m),
                decompose_all(tables, kind, s),
            ),
        ) == seq![c] + m + s,
    decreases s.len(), 0nat,
{
    let nothing = Seq::<char>::empty();
    let no_pending = Seq::<(u8, char)>::empty();
    let flat = decompose_all(tables, kind, s);
    let pending = with_classes(tables, t) + with_classes(tables, m);
    let held = blocked_class(tables, m);
    lemma_starter_leads(tables, kind, last_class(tables, m), s);
    let next = s[0];
    let rest = s.skip(1);
    let d = decomposition(tables, kind, next);
    let first = d[0];
    let tail = d.skip(1);
    let later = decompose_all(tables, kind, rest);
    assert(flat[0] == first);
    assert(flat.skip(1) =~= tail + later);
    let behind = reorder(tables, no_pending, tail + later);
    let stream = reorder(tables, pending, flat);
    assert(stream =~= chars_of(sort_by_class(pending)) + (seq![first] + behind));
    lemma_run_merges(tables, k, t, m, seq![first] + behind);
    lemma_run_ends(tables, c, m, first, behind);
    assert(with_classes(tables, nothing) =~= no_pending);
    assert(ascending_marks(tables, nothing));
    if is_boundary(first) {
        assert(tail =~= nothing);
        assert(first == next);
        assert(tail + later =~= later);
        lemma_marks_stay(tables, kind, nothing, rest);
        assert(nothing + rest =~= rest);
        assert(seq![c] + m.push(first) + rest =~= seq![c] + m + s);
    } else {
        assert(nothing + tail =~= tail);
        lemma_starter_composes(tables, kind, first, nothing, tail, next, rest);
        assert(seq![c] + m + (seq![next] + rest) =~= seq![c] + m + s);
    }
}

// The composing run ends at a starter that composes with nothing.
proof fn lemma_run_ends(tables: &Tables, c: char, m: Seq<char>, first: char, z: Seq<char>)
    requires
        never_second(tables, first),
        combining_class_of(tables, first) == 0,
    ensures
        recompose(tables, Some(c), m, blocked_class(tables, m), seq![first] + z) == if is_boundary(
            first,
        ) {
            seq![c] + m.push(first) + recompose(
                tables,
                None,
                Seq::<char>::empty(),
                None,
                z,
            )
        } else {
            seq![c] + m + recompose(tables, Some(first), Seq::<char>::empty(), None, z)
        },
{
    let input = seq![first] + z;
    assert(input[0] == first);
    assert(input.skip(1) =~= z);
    assert(composition(tables, c, first) is None);
    assert(composite_in_run(tables, c, blocked_class(tables, m), first) is None);
}

/// Behind no starter: `m` are the marks of the text that wait for the
/// canonical ordering. What is left of the text composes to the marks `m`
/// and the text behind them.
pub proof fn lemma_marks_stay(
    tables: &Tables,
    kind: DecompositionType,
    m: Seq<char>,
    s: Seq<char>,
)
    requires
        ascending_marks(tables, m),
        forall|i: int| 0 <= i < m.len() ==> never_second(tables, #[trigger] m[i]),
        text_stays(tables, kind, s),
        ordered_from(tables, last_class(tables, m), s),
    ensures
        recompose(
            tables,
            None,
            Seq::<char>::empty(),
            None,
            reorder(tables, with_classes(tables, m), decompose_all(tables, kind, s)),
        ) == m + s,
    decreases s.len(), 0nat,
{
    let nothing = Seq::<char>::empty();
    let no_pending = Seq::<(u8, char)>::empty();
    let flat = decompose_all(tables, kind, s);
    let pending = with_classes(tables, m);
    lemma_ascending_is_sorted(tables, m);
    if s.len() == 0 {
        lemma_marks_pass(tables, m, nothing);
        assert(m + nothing =~= m);
        assert(m + s =~= m);
    } else if combining_class_of(tables, s[0]) != 0 {
        lemma_mark_joins(tables, kind, m, s);
        let class = combining_class_of(tables, s[0]);
        let rest = s.skip(1);
        assert(flat[0] == s[0]);
        assert(flat.skip(1) =~= decompose_all(tables, kind, rest));
        assert(pending.push((class, s[0])) =~= with_classes(tables, m.push(s[0])));
        lemma_marks_stay(tables, kind, m.push(s[0]), rest);
        assert(m.push(s[0]) + rest =~= m + s);
    } else {
        lemma_starter_leads(tables, kind, last_class(tables, m), s);
        let next = s[0];
        let rest = s.skip(1);
        let d = decomposition(tables, kind, next);
        let first = d[0];
        let tail = d.skip(1);
        let later = decompose_all(tables, kind, rest);
        assert(flat[0] == first);
        assert(flat.skip(1) =~= tail + later);
        let behind = reorder(tables, no_pending, tail + later);
        let stream = reorder(tables, pending, flat);
        assert(stream =~= m + (seq![first] + behind));
        lemma_marks_pass(tables, m, seq![first] + behind);
        assert((seq![first] + behind)[0] == first);
        assert((seq![first] + behind).skip(1) =~= behind);
        assert(with_classes(tables, nothing) =~= no_pending);
        assert(ascending_marks(tables, nothing));
        if is_boundary(first) {
            assert(tail =~= nothing);
            assert(first == next);
            assert(tail + later =~= later);
            lemma_marks_stay(tables, kind, nothing, rest);
            assert(nothing + rest =~= rest);
            assert(m + (seq![first] + rest) =~= m + s);
        } else {
            assert(nothing + tail =~= tail);
            lemma_starter_composes(tables, kind, first, nothing, tail, next, rest);
            assert(m + (seq![next] + rest) =~= m + s);
        }
    }
}

/// A text in canonical order whose characters stay as they are is its own
/// composed form.
pub proof fn lemma_text_stays_composed(tables: &Tables, kind: DecompositionType, s: Seq<char>)
    requires
        text_stays(tables, kind, s),
        ordered_from(tables, 0, s),
    ensures
        crate::recompose::composed_form(tables, kind, s) == s,
{
    let nothing = Seq::<char>::empty();
    assert(ascending_marks(tables, nothing));
    assert(with_classes(tables, nothing) =~= Seq::<(u8, char)>::empty());
    lemma_marks_stay(tables, kind, nothing, s);
    assert(nothing + s =~= s);
}

/// Whether `c` is a vowel or a trailing consonant of modern Hangul, which
/// compose with what stands in front of them.
pub open spec fn is_composing_jamo(c: char) -> bool {
    (V_BASE <= c as u32 && (c as u32) < V_BASE + V_COUNT) || (T_BASE < c as u32 && (c as u32)
        < T_BASE + T_COUNT)
}

/// Where Hangul syllables alone decompose and compose and no character is
/// a non-starter, every character stays as it is but the vowels and the
/// trailing consonants of modern Hangul.
pub proof fn lemma_syllables_stay(tables: &Tables, kind: DecompositionType, c: char)
    requires
        hangul_alone(tables),
        forall|x: char| #[trigger] combining_class_of(tables, x) == 0,
        !is_composing_jamo(c),
    ensures
        stays_composed(tables, kind, c),
{
    let d = decomposition(tables, kind, c);
    assert(crate::perfect_hash::canonical_decomposition_of(tables, c) is None);
    assert(crate::perfect_hash::compatibility_decomposition_of(tables, c) is None);
    assert forall|a: char, b: char| #[trigger]
        composition(tables, a, b) == hangul_composition(a, b) by {
        assert(crate::perfect_hash::table_composition_of(tables, a, b) is None);
    }
    assert(never_second(tables, c));
    assert(combining_class_of(tables, c) == 0);
    if is_hangul_syllable(c) {
        lemma_hangul_decomposition_reverses(c);
        assert(d == hangul_decomposition(c));
        let tail = d.skip(1);
        assert(never_second(tables, d[0]));
        assert(combining_class_of(tables, d[0]) == 0);
        let lv = hangul_composition(d[0], d[1])->0;
        assert(tail[0] == d[1]);
        if d.len() == 2 {
            assert(tail.skip(1) =~= Seq::<char>::empty());
            assert(composed_onto(tables, lv, tail.skip(1)) == Some(lv));
            assert(composed_onto(tables, d[0], tail) == Some(c));
        } else {
            assert(tail.skip(1)[0] == d[2]);
            assert(tail.skip(1).skip(1) =~= Seq::<char>::empty());
            assert(composed_onto(tables, c, tail.skip(1).skip(1)) == Some(c));
            assert(composed_onto(tables, lv, tail.skip(1)) == Some(c));
            assert(composed_onto(tables, d[0], tail) == Some(c));
        }
        assert(ordered_from(tables, 0, tail)) by {
            reveal_with_fuel(ordered_from, 4);
        }
        assert forall|i: int| 0 <= i < tail.len() implies !is_boundary(#[trigger] tail[i]) by {
            assert(tail[i] == d[i + 1]);
        }
        assert(!is_boundary(d[0]));
    } else {
        assert(d =~= seq![c]);
        assert(d.skip(1) =~= Seq::<char>::empty());
    }
}

} // verus!
