//! The decomposition stage: canonical or compatibility decomposition of a
//! character stream, put into canonical order.

use crate::buffer::Buffer;
use crate::normalize::{
    canonical_decomposition, compatible_decomposition, decompose_canonical, decompose_compatible,
};
use crate::perfect_hash::{canonical_combining_class, combining_class_of};
use crate::stream::CharStream;
use crate::tables::Tables;
use vstd::prelude::*;

verus! {

/// Which decomposition mapping a stage applies.
pub enum DecompositionType {
    Canonical,
    Compatible,
}

/// The full decomposition of one character under `kind`.
pub open spec fn decomposition(tables: &Tables, kind: DecompositionType, c: char) -> Seq<char> {
    match kind {
        DecompositionType::Canonical => canonical_decomposition(tables, c),
        DecompositionType::Compatible => compatible_decomposition(tables, c),
    }
}

/// The decompositions of the characters of `s`, one after the other.
pub open spec fn decompose_all(tables: &Tables, kind: DecompositionType, s: Seq<char>) -> Seq<
    char,
>
    decreases s.len(),
{
    if s.len() == 0 {
        Seq::<char>::empty()
    } else {
        decomposition(tables, kind, s[0]) + decompose_all(tables, kind, s.skip(1))
    }
}

/// `sorted` with `x` put behind the last entry whose class is not above its own.
pub open spec fn insert_by_class(sorted: Seq<(u8, char)>, x: (u8, char)) -> Seq<(u8, char)>
    decreases sorted.len(),
{
    if sorted.len() == 0 {
        seq![x]
    } else if sorted.last().0 <= x.0 {
        sorted.push(x)
    } else {
        insert_by_class(sorted.drop_last(), x).push(sorted.last())
    }
}

/// The entries of `s` in ascending order of class, entries of one class in
/// the order they have in `s`: the stable sort of `s` by class.
pub open spec fn sort_by_class(s: Seq<(u8, char)>) -> Seq<(u8, char)>
    decreases s.len(),
{
    if s.len() == 0 {
        s
    } else {
        insert_by_class(sort_by_class(s.drop_last()), s.last())
    }
}

/// The characters of a sequence of class and character pairs.
pub open spec fn chars_of(s: Seq<(u8, char)>) -> Seq<char> {
    s.map_values(|p: (u8, char)| p.1)
}

/// The canonical ordering of `later`, continuing a run of non-starters
/// `pending` that came before it: every maximal run of non-starters is sorted
/// stably by class, and starters stay where they are.
pub open spec fn reorder(tables: &Tables, pending: Seq<(u8, char)>, later: Seq<char>) -> Seq<char>
    decreases later.len(),
{
    if later.len() == 0 {
        chars_of(sort_by_class(pending))
    } else {
        let c = later[0];
        let class = combining_class_of(tables, c);
        if class == 0 {
            chars_of(sort_by_class(pending)).push(c) + reorder(
                tables,
                Seq::<(u8, char)>::empty(),
                later.skip(1),
            )
        } else {
            reorder(tables, pending.push((class, c)), later.skip(1))
        }
    }
}

/// The decomposition of `s` under `kind`, in canonical order: Normalization
/// Form D for the canonical kind, Normalization Form KD for the compatible one.
pub open spec fn decomposed_form(tables: &Tables, kind: DecompositionType, s: Seq<char>) -> Seq<
    char,
> {
    reorder(tables, Seq::<(u8, char)>::empty(), decompose_all(tables, kind, s))
}

/// Inserting puts `x` at the place in front of which every entry has a
/// greater class and behind which none has.
pub proof fn lemma_insert_position(s: Seq<(u8, char)>, x: (u8, char), j: int)
    requires
        0 <= j <= s.len(),
        forall|k: int| j <= k < s.len() ==> s[k].0 > x.0,
        j > 0 ==> s[j - 1].0 <= x.0,
    ensures
        insert_by_class(s, x) == s.subrange(0, j).push(x) + s.subrange(j, s.len() as int),
    decreases s.len(),
{
    if s.len() == 0 {
        assert(insert_by_class(s, x) =~= s.subrange(0, j).push(x) + s.subrange(j, s.len() as int));
    } else if j == s.len() {
        assert(s.push(x) =~= s.subrange(0, j).push(x) + s.subrange(j, s.len() as int));
    } else {
        let t = s.drop_last();
        lemma_insert_position(t, x, j);
        assert((t.subrange(0, j).push(x) + t.subrange(j, t.len() as int)).push(s.last()) =~= s.subrange(
            0,
            j,
        ).push(x) + s.subrange(j, s.len() as int));
    }
}

/// Sorting keeps the number of entries.
pub proof fn lemma_sort_len(s: Seq<(u8, char)>)
    ensures
        sort_by_class(s).len() == s.len(),
    decreases s.len(),
{
    if s.len() > 0 {
        lemma_sort_len(s.drop_last());
        lemma_insert_len(sort_by_class(s.drop_last()), s.last());
    }
}

/// Inserting adds one entry.
pub proof fn lemma_insert_len(s: Seq<(u8, char)>, x: (u8, char))
    ensures
        insert_by_class(s, x).len() == s.len() + 1,
    decreases s.len(),
{
    if s.len() > 0 && s.last().0 > x.0 {
        lemma_insert_len(s.drop_last(), x);
    }
}

/// Sorts `data` by combining class. The sort is stable, so it preserves the
/// order that the marks of one combining class have in the text.
pub fn sort_by_combining_class(data: &mut [(u8, char)])
    ensures
        final(data)@ == sort_by_class(old(data)@),
{
    let n: usize = data.len();
    let mut i: usize = 0;
    assert(data@.subrange(0, 0) =~= sort_by_class(old(data)@.subrange(0, 0)));
    while i < n
        invariant
            i <= n,
            data@.len() == n,
            old(data)@.len() == n,
            data@.subrange(0, i as int) == sort_by_class(old(data)@.subrange(0, i as int)),
            data@.subrange(i as int, n as int) == old(data)@.subrange(i as int, n as int),
        decreases n - i,
    {
        let x = data[i];
        let ghost sorted = data@.subrange(0, i as int);
        let ghost at_entry = data@;
        assert(x == old(data)@[i as int]) by {
            assert(data@.subrange(i as int, n as int)[0] == old(data)@.subrange(
                i as int,
                n as int,
            )[0]);
        }
        let mut j: usize = i;
        while j > 0 && data[j - 1].0 > x.0
            invariant
                j <= i < n,
                data@.len() == n,
                sorted.len() == i,
                forall|k: int| 0 <= k < j ==> data@[k] == sorted[k],
                forall|k: int| j < k <= i ==> data@[k] == sorted[k - 1],
                forall|k: int| j <= k < i ==> sorted[k].0 > x.0,
                forall|k: int| i < k < n ==> data@[k] == at_entry[k],
            decreases j,
        {
            data[j] = data[j - 1];
            j = j - 1;
        }
        data[j] = x;
        i = i + 1;
        proof {
            lemma_insert_position(sorted, x, j as int);
            let prefix = old(data)@.subrange(0, i as int);
            assert(prefix.drop_last() =~= old(data)@.subrange(0, i - 1));
            assert(prefix.last() == x);
            assert(data@.subrange(0, i as int) =~= sorted.subrange(0, j as int).push(x)
                + sorted.subrange(j as int, sorted.len() as int));
            assert(data@.subrange(i as int, n as int) =~= old(data)@.subrange(i as int, n as int)) by {
                assert forall|k: int| i <= k < n implies data@[k] == old(data)@[k] by {
                    assert(at_entry.subrange(i - 1, n as int)[k - (i - 1)] == old(data)@.subrange(
                        i - 1,
                        n as int,
                    )[k - (i - 1)]);
                }
            }
        }
    }
    assert(data@.subrange(0, n as int) =~= data@);
    assert(old(data)@.subrange(0, n as int) =~= old(data)@);
}

/// External iterator for a string decomposition's characters.
pub struct Decompositions<'a, I> {
    tables: &'a Tables,
    kind: DecompositionType,
    iter: I,
    // This buffer stores pairs of (canonical combining class, character),
    // pushed onto the end in text order.
    //
    // It's split into two contiguous regions by the `ready` offset.  The first
    // `ready` pairs are sorted and ready to emit on demand.  The "pending"
    // suffix afterwards still needs more characters for us to be able to sort
    // in canonical order and is not safe to emit.
    buffer: Buffer<(u8, char)>,
    ready: usize,
    // The decomposition of the character read last. The vector is kept
    // from one character to the next, so that it is allocated once.
    scratch: Vec<char>,
}

/// A stage that yields the canonical decomposition of `iter`.
pub fn new_canonical<'a, I: CharStream>(tables: &'a Tables, iter: I) -> (stage: Decompositions<
    'a,
    I,
>)
    requires
        tables.wf(),
        iter.wf(),
    ensures
        stage.wf(),
        stage.remaining() == decomposed_form(tables, DecompositionType::Canonical, iter.remaining()),
        stage.source() == iter,
{
    let stage = Decompositions {
        tables,
        kind: DecompositionType::Canonical,
        iter: iter,
        buffer: Buffer::new(),
        ready: 0,
        scratch: Vec::new(),
    };
    proof {
        stage.lemma_fresh();
    }
    stage
}

/// A stage that yields the compatibility decomposition of `iter`.
pub fn new_compatible<'a, I: CharStream>(tables: &'a Tables, iter: I) -> (stage: Decompositions<
    'a,
    I,
>)
    requires
        tables.wf(),
        iter.wf(),
    ensures
        stage.wf(),
        stage.remaining() == decomposed_form(tables, DecompositionType::Compatible, iter.remaining()),
        stage.source() == iter,
{
    let stage = Decompositions {
        tables,
        kind: DecompositionType::Compatible,
        iter: iter,
        buffer: Buffer::new(),
        ready: 0,
        scratch: Vec::new(),
    };
    proof {
        stage.lemma_fresh();
    }
    stage
}

impl<'a, I: CharStream> Decompositions<'a, I> {
    /// The stream that this stage reads.
    pub closed spec fn source(&self) -> I {
        self.iter
    }

    /// The stream that this stage reads.
    pub fn get_ref(&self) -> (iter: &I)
        ensures
            *iter == self.source(),
    {
        &self.iter
    }

    /// The characters that the stage holds ready: it hands them out before
    /// it reads its source again.
    pub closed spec fn ready_chars(&self) -> Seq<char> {
        chars_of(self.buffer@.subrange(0, self.ready as int))
    }

    // What holds of the fields between calls.
    spec fn inv(&self) -> bool {
        &&& self.tables.wf()
        &&& self.buffer.wf()
        &&& self.ready <= self.buffer@.len()
        &&& self.iter.wf()
    }

    // The output still owed, given what is left to decompose after the buffer.
    spec fn owed(&self, later: Seq<char>) -> Seq<char> {
        chars_of(self.buffer@.subrange(0, self.ready as int)) + reorder(
            self.tables,
            self.buffer@.subrange(self.ready as int, self.buffer@.len() as int),
            later,
        )
    }

    proof fn lemma_fresh(&self)
        requires
            self.buffer@ == Seq::<(u8, char)>::empty(),
            self.ready == 0,
        ensures
            self.remaining() == decomposed_form(self.tables, self.kind, self.iter.remaining()),
    {
        assert(self.buffer@.subrange(0, 0) =~= Seq::<(u8, char)>::empty());
        assert(chars_of(Seq::<(u8, char)>::empty()) =~= Seq::<char>::empty());
        let out = decomposed_form(self.tables, self.kind, self.iter.remaining());
        assert(Seq::<char>::empty() + out =~= out);
    }

    // Pushing `ch` moves it from what is left to decompose into the buffer.
    proof fn lemma_push_step(&self, after: &Self, ch: char, rest: Seq<char>)
        requires
            self.ready <= self.buffer@.len(),
            after.tables == self.tables,
            ({
                let class = combining_class_of(self.tables, ch);
                let pending = self.buffer@.subrange(self.ready as int, self.buffer@.len() as int);
                if class == 0 {
                    &&& after.buffer@ == self.buffer@.subrange(0, self.ready as int) + sort_by_class(
                        pending,
                    ).push((class, ch))
                    &&& after.ready == after.buffer@.len()
                } else {
                    &&& after.buffer@ == self.buffer@.push((class, ch))
                    &&& after.ready == self.ready
                }
            }),
        ensures
            after.owed(rest) == self.owed(seq![ch] + rest),
    {
        let class = combining_class_of(self.tables, ch);
        let pending = self.buffer@.subrange(self.ready as int, self.buffer@.len() as int);
        let later = seq![ch] + rest;
        assert(later[0] == ch);
        assert(later.skip(1) =~= rest);
        let prefix = self.buffer@.subrange(0, self.ready as int);
        if class == 0 {
            let sorted = sort_by_class(pending);
            assert(after.buffer@.subrange(0, after.ready as int) =~= after.buffer@);
            assert(after.buffer@.subrange(after.ready as int, after.buffer@.len() as int)
                =~= Seq::<(u8, char)>::empty());
            assert(chars_of(after.buffer@) =~= chars_of(prefix) + chars_of(sorted).push(ch));
            assert(after.owed(rest) =~= self.owed(later));
        } else {
            assert(after.buffer@.subrange(0, after.ready as int) =~= prefix);
            assert(after.buffer@.subrange(after.ready as int, after.buffer@.len() as int)
                =~= pending.push((class, ch)));
        }
    }

    fn push_back(&mut self, ch: char)
        requires
            old(self).inv(),
        ensures
            final(self).inv(),
            final(self).iter == old(self).iter,
            final(self).tables == old(self).tables,
            final(self).kind == old(self).kind,
            final(self).scratch == old(self).scratch,
            forall|rest: Seq<char>| #[trigger] final(self).owed(rest) == old(self).owed(seq![ch] + rest),
    {
        let class: u8 = canonical_combining_class(self.tables, ch);
        if class == 0 {
            let ready: usize = self.ready;
            let sort = |prior_data: &mut [(u8, char)]|
                requires
                    ready <= old(prior_data)@.len(),
                ensures
                    final(prior_data)@.len() == old(prior_data)@.len(),
                    final(prior_data)@ == old(prior_data)@.subrange(0, ready as int)
                        + sort_by_class(
                        old(prior_data)@.subrange(ready as int, old(prior_data)@.len() as int),
                    ),
                {
                    let (_, pending) = prior_data.split_at_mut(ready);
                    proof {
                        lemma_sort_len(pending@);
                    }
                    sort_by_combining_class(pending);
                };
            self.buffer.mutate_and_push_back((class, ch), sort);
            self.ready = self.buffer.size();
        } else {
            self.buffer.push_back((class, ch));
        }
        proof {
            assert forall|rest: Seq<char>| #[trigger]
                self.owed(rest) == old(self).owed(seq![ch] + rest) by {
                old(self).lemma_push_step(self, ch, rest);
            }
        }
    }

    fn sort_pending(&mut self)
        requires
            old(self).inv(),
        ensures
            final(self).inv(),
            final(self).iter == old(self).iter,
            final(self).tables == old(self).tables,
            final(self).kind == old(self).kind,
            final(self).ready == final(self).buffer@.len(),
            final(self).owed(Seq::<char>::empty()) == old(self).owed(Seq::<char>::empty()),
    {
        let ready: usize = self.ready;
        let sort = |data: &mut [(u8, char)]|
            requires
                ready <= old(data)@.len(),
            ensures
                final(data)@.len() == old(data)@.len(),
                final(data)@ == old(data)@.subrange(0, ready as int) + sort_by_class(
                    old(data)@.subrange(ready as int, old(data)@.len() as int),
                ),
            {
                let (_, pending) = data.split_at_mut(ready);
                proof {
                    lemma_sort_len(pending@);
                }
                sort_by_combining_class(pending);
            };
        self.buffer.mutate_in_place(sort);
        self.ready = self.buffer.size();
        proof {
            let prefix = old(self).buffer@.subrange(0, ready as int);
            let pending = old(self).buffer@.subrange(ready as int, old(self).buffer@.len() as int);
            assert(self.buffer@.subrange(0, self.ready as int) =~= self.buffer@);
            assert(self.buffer@.subrange(self.ready as int, self.buffer@.len() as int)
                =~= Seq::<(u8, char)>::empty());
            assert(chars_of(self.buffer@) =~= chars_of(prefix) + chars_of(sort_by_class(pending)));
            assert(chars_of(Seq::<(u8, char)>::empty()) =~= Seq::<char>::empty());
            assert(self.owed(Seq::<char>::empty()) =~= old(self).owed(Seq::<char>::empty()));
        }
    }

    fn pop_front(&mut self) -> (c: Option<char>)
        requires
            old(self).inv(),
        ensures
            final(self).inv(),
            final(self).iter == old(self).iter,
            final(self).tables == old(self).tables,
            final(self).kind == old(self).kind,
            old(self).ready == 0 ==> c is None && final(self).buffer@ == old(self).buffer@
                && final(self).ready == 0,
            old(self).ready > 0 ==> c is Some && forall|later: Seq<char>|
                seq![c->0] + #[trigger] final(self).owed(later) == old(self).owed(later),
    {
        if self.ready == 0 {
            None
        } else {
            self.ready -= 1;
            let entry = self.buffer.pop_front();
            let c: char = entry.unwrap().1;
            proof {
                assert forall|later: Seq<char>|
                    seq![c] + #[trigger] self.owed(later) == old(self).owed(later) by {
                    let before = old(self).buffer@;
                    assert(self.buffer@.subrange(0, self.ready as int) =~= before.subrange(
                        0,
                        old(self).ready as int,
                    ).skip(1));
                    assert(self.buffer@.subrange(self.ready as int, self.buffer@.len() as int)
                        =~= before.subrange(old(self).ready as int, before.len() as int));
                    assert(seq![c] + self.owed(later) =~= old(self).owed(later));
                }
            }
            Some(c)
        }
    }
}

impl<'a, I: CharStream> CharStream for Decompositions<'a, I> {
    closed spec fn wf(&self) -> bool {
        self.inv()
    }

    closed spec fn remaining(&self) -> Seq<char> {
        self.owed(decompose_all(self.tables, self.kind, self.iter.remaining()))
    }

    fn next(&mut self) -> (c: Option<char>)
        ensures
            old(self).ready_chars().len() > 0 ==> final(self).source() == old(self).source(),
    {
        while self.ready == 0
            invariant_except_break
                self.inv(),
                self.remaining() == old(self).remaining(),
                old(self).ready > 0 ==> self.ready == old(self).ready && self.iter == old(self).iter,
            ensures
                self.inv(),
                self.remaining() == old(self).remaining(),
                self.ready == 0 ==> self.buffer@.len() == 0 && self.iter.remaining().len() == 0,
                old(self).ready > 0 ==> self.iter == old(self).iter,
            decreases self.iter.remaining().len(),
        {
            let ghost before = self.iter.remaining();
            match self.iter.next() {
                Some(ch) => {
                    let ghost later = decompose_all(self.tables, self.kind, self.iter.remaining());
                    if (ch as u32) <= 0x7f {
                        // 7-bit ASCII never decomposes
                        proof {
                            assert(decomposition(self.tables, self.kind, ch) =~= seq![ch]);
                        }
                        self.push_back(ch);
                    } else {
                        self.scratch.clear();
                        match self.kind {
                            DecompositionType::Canonical => {
                                decompose_canonical(self.tables, ch, &mut self.scratch);
                            },
                            DecompositionType::Compatible => {
                                decompose_compatible(self.tables, ch, &mut self.scratch);
                            },
                        }
                        let ghost decomposed = self.scratch@;
                        proof {
                            assert(decomposed =~= decomposition(self.tables, self.kind, ch));
                            assert(decomposed.subrange(0, decomposed.len() as int) =~= decomposed);
                        }
                        let mut j: usize = 0;
                        while j < self.scratch.len()
                            invariant
                                j <= decomposed.len(),
                                self.scratch@ == decomposed,
                                self.inv(),
                                self.iter.remaining() == before.skip(1),
                                later == decompose_all(
                                    self.tables,
                                    self.kind,
                                    self.iter.remaining(),
                                ),
                                self.owed(
                                    decomposed.subrange(j as int, decomposed.len() as int) + later,
                                ) == old(self).remaining(),
                            decreases decomposed.len() - j,
                        {
                            let ghost piece = decomposed.subrange(j as int, decomposed.len() as int);
                            let d: char = self.scratch[j];
                            self.push_back(d);
                            j = j + 1;
                            proof {
                                let shorter = decomposed.subrange(
                                    j as int,
                                    decomposed.len() as int,
                                );
                                assert(seq![d] + (shorter + later) =~= piece + later);
                            }
                        }
                        proof {
                            assert(decomposed.subrange(j as int, decomposed.len() as int) + later
                                =~= later);
                        }
                    }
                },
                None => {
                    proof {
                        assert(decompose_all(self.tables, self.kind, self.iter.remaining())
                            =~= Seq::<char>::empty());
                    }
                    self.sort_pending();
                    break ;
                },
            }
        }
        let ghost later = decompose_all(self.tables, self.kind, self.iter.remaining());
        let c = self.pop_front();
        proof {
            if c is Some {
                let out = old(self).remaining();
                assert(out =~= seq![c->0] + self.owed(later));
                assert(self.owed(later) =~= out.skip(1));
            } else {
                assert(self.buffer@.subrange(0, 0) =~= Seq::<(u8, char)>::empty());
                assert(chars_of(Seq::<(u8, char)>::empty()) =~= Seq::<char>::empty());
                assert(later =~= Seq::<char>::empty());
                assert(self.owed(later) =~= Seq::<char>::empty());
            }
        }
        c
    }
}

} // verus!
