//! The recomposition stage: canonical composition of a decomposed stream.

use crate::decompose::{
    decomposed_form, new_canonical as decompose_canonical_stage,
    new_compatible as decompose_compatible_stage, DecompositionType, Decompositions,
};
use crate::normalize::{compose, composition};
use crate::perfect_hash::{canonical_combining_class, combining_class_of};
use crate::safety::{lemma_marks_monotone, marks_bounded};
use crate::small_vec::{tiny_as_slice, tiny_chars, tiny_clear, tiny_new, tiny_push, TinyChars};
use crate::stream_safe::MAX_NONSTARTERS;
use crate::stream::CharStream;
use crate::tables::Tables;
use vstd::prelude::*;

verus! {

/// COMBINING GRAPHEME JOINER, which the stream-safe process inserts.
pub const COMBINING_GRAPHEME_JOINER: char = '\u{34F}';

/// Whether `c` never composes with anything: a line feed or a combining
/// grapheme joiner. Seeing one ends the run that is being composed.
pub open spec fn is_boundary(c: char) -> bool {
    c == '\n' || c == COMBINING_GRAPHEME_JOINER
}

/// The sequence of at most one character that `c` holds.
pub open spec fn option_seq(c: Option<char>) -> Seq<char> {
    match c {
        Some(k) => seq![k],
        None => Seq::<char>::empty(),
    }
}

/// The canonical composition of a canonically ordered text `input` that
/// follows a run already taken in: `composee` is the starter that the run
/// composes into, `blocked` are the marks behind it that did not compose, and
/// `last_ccc` is the class of the last of them.
///
/// A character composes with the starter if no mark of its own or a higher
/// class stands between them and the pair has a composite. A starter that
/// does not compose, and every boundary character, ends the run.
pub open spec fn recompose(
    tables: &Tables,
    composee: Option<char>,
    blocked: Seq<char>,
    last_ccc: Option<u8>,
    input: Seq<char>,
) -> Seq<char>
    decreases input.len(),
{
    if input.len() == 0 {
        option_seq(composee) + blocked
    } else {
        let ch = input[0];
        let rest = input.skip(1);
        let class = combining_class_of(tables, ch);
        match composee {
            None => {
                if class != 0 || is_boundary(ch) {
                    seq![ch] + recompose(tables, None, Seq::<char>::empty(), None, rest)
                } else {
                    recompose(tables, Some(ch), Seq::<char>::empty(), None, rest)
                }
            },
            Some(k) => {
                if is_boundary(ch) {
                    seq![k] + blocked.push(ch) + recompose(
                        tables,
                        None,
                        Seq::<char>::empty(),
                        None,
                        rest,
                    )
                } else {
                    match composite_in_run(tables, k, last_ccc, ch) {
                        Some(r) => recompose(tables, Some(r), blocked, last_ccc, rest),
                        None => {
                            if class == 0 {
                                seq![k] + blocked + recompose(
                                    tables,
                                    Some(ch),
                                    Seq::<char>::empty(),
                                    None,
                                    rest,
                                )
                            } else {
                                recompose(tables, Some(k), blocked.push(ch), Some(class), rest)
                            }
                        },
                    }
                }
            },
        }
    }
}

/// The composite of the starter `k` and `ch`, unless a mark of the class of
/// `ch` or a higher one stands between them.
pub open spec fn composite_in_run(tables: &Tables, k: char, last_ccc: Option<u8>, ch: char) -> Option<
    char,
> {
    if last_ccc is Some && last_ccc->0 >= combining_class_of(tables, ch) {
        None
    } else {
        composition(tables, k, ch)
    }
}

/// The decomposition of `s` under `kind` followed by canonical composition:
/// Normalization Form C for the canonical kind, Normalization Form KC for the
/// compatible one.
pub open spec fn composed_form(tables: &Tables, kind: DecompositionType, s: Seq<char>) -> Seq<
    char,
> {
    recompose(
        tables,
        None,
        Seq::<char>::empty(),
        None,
        decomposed_form(tables, kind, s),
    )
}

/// Composing never adds a character: what comes out is no longer than what
/// was taken in and what is still to come.
pub proof fn lemma_recompose_no_longer(
    tables: &Tables,
    composee: Option<char>,
    blocked: Seq<char>,
    last_ccc: Option<u8>,
    input: Seq<char>,
)
    ensures
        recompose(tables, composee, blocked, last_ccc, input).len() <= option_seq(composee).len()
            + blocked.len() + input.len(),
    decreases input.len(),
{
    if input.len() > 0 {
        let ch = input[0];
        let rest = input.skip(1);
        let class = combining_class_of(tables, ch);
        let nothing = Seq::<char>::empty();
        lemma_recompose_no_longer(tables, None, nothing, None, rest);
        lemma_recompose_no_longer(tables, Some(ch), nothing, None, rest);
        if composee is Some {
            let k = composee->0;
            lemma_recompose_no_longer(tables, Some(k), blocked.push(ch), Some(class), rest);
            match composite_in_run(tables, k, last_ccc, ch) {
                Some(r) => {
                    lemma_recompose_no_longer(tables, Some(r), blocked, last_ccc, rest);
                },
                None => {},
            }
        }
    }
}

/// A composed form has no more characters than the decomposed form of the
/// same text.
pub proof fn lemma_composed_form_no_longer(tables: &Tables, kind: DecompositionType, s: Seq<char>)
    ensures
        composed_form(tables, kind, s).len() <= decomposed_form(tables, kind, s).len(),
{
    lemma_recompose_no_longer(
        tables,
        None,
        Seq::<char>::empty(),
        None,
        decomposed_form(tables, kind, s),
    );
}

/// What the stage is doing between two calls.
pub enum RecompositionState {
    /// Taking characters in; the buffer holds the blocked marks of the run.
    Composing,
    /// Handing out the buffer from the given index on, then composing again.
    Purging(usize),
    /// The input has ended; handing out the buffer from the given index on.
    Finished(usize),
}

/// External iterator for a string recomposition's characters.
pub struct Recompositions<'a, I> {
    tables: &'a Tables,
    iter: Decompositions<'a, I>,
    state: RecompositionState,
    buffer: TinyChars,
    composee: Option<char>,
    last_ccc: Option<u8>,
}

/// A stage that yields the canonical decomposition of `iter`, recomposed.
pub fn new_canonical<'a, I: CharStream>(tables: &'a Tables, iter: I) -> (stage: Recompositions<
    'a,
    I,
>)
    requires
        tables.wf(),
        iter.wf(),
    ensures
        stage.wf(),
        stage.remaining() == composed_form(tables, DecompositionType::Canonical, iter.remaining()),
        stage.source() == iter,
        marks_bounded(
            tables,
            0,
            decomposed_form(tables, DecompositionType::Canonical, iter.remaining()),
        ) ==> stage.run_bounded(),
{
    let stage = Recompositions {
        tables,
        iter: decompose_canonical_stage(tables, iter),
        state: RecompositionState::Composing,
        buffer: tiny_new(),
        composee: None,
        last_ccc: None,
    };
    assert(stage.iter.remaining() == decomposed_form(
        tables,
        DecompositionType::Canonical,
        iter.remaining(),
    ));
    assert(stage.bound_at(0) ==> stage.run_bounded());
    stage
}

/// A stage that yields the compatibility decomposition of `iter`, recomposed.
pub fn new_compatible<'a, I: CharStream>(tables: &'a Tables, iter: I) -> (stage: Recompositions<
    'a,
    I,
>)
    requires
        tables.wf(),
        iter.wf(),
    ensures
        stage.wf(),
        stage.remaining() == composed_form(tables, DecompositionType::Compatible, iter.remaining()),
        stage.source() == iter,
        marks_bounded(
            tables,
            0,
            decomposed_form(tables, DecompositionType::Compatible, iter.remaining()),
        ) ==> stage.run_bounded(),
{
    let stage = Recompositions {
        tables,
        iter: decompose_compatible_stage(tables, iter),
        state: RecompositionState::Composing,
        buffer: tiny_new(),
        composee: None,
        last_ccc: None,
    };
    assert(stage.iter.remaining() == decomposed_form(
        tables,
        DecompositionType::Compatible,
        iter.remaining(),
    ));
    assert(stage.bound_at(0) ==> stage.run_bounded());
    stage
}

impl<'a, I: CharStream> Recompositions<'a, I> {
    /// The stream that the decomposition under this stage reads.
    pub closed spec fn source(&self) -> I {
        self.iter.source()
    }

    /// The stream that the decomposition under this stage reads.
    pub fn get_ref(&self) -> (iter: &I)
        ensures
            *iter == self.source(),
    {
        self.iter.get_ref()
    }

    /// The characters that the stage holds ready: it hands them out before
    /// it reads its source again.
    pub closed spec fn ready_chars(&self) -> Seq<char> {
        match self.state {
            RecompositionState::Composing => Seq::<char>::empty(),
            RecompositionState::Purging(n) => tiny_chars(self.buffer).skip(n as int),
            RecompositionState::Finished(n) => tiny_chars(self.buffer).skip(n as int),
        }
    }

    /// The number of characters that the stage holds: the starter that it
    /// composes, and the marks behind it that did not compose.
    pub closed spec fn held_len(&self) -> nat {
        option_seq(self.composee).len() + tiny_chars(self.buffer).len()
    }

    /// The number of characters that the stage holds.
    pub fn held(&self) -> (n: usize)
        requires
            self.held_len() <= usize::MAX,
        ensures
            n == self.held_len(),
    {
        let marks: usize = tiny_as_slice(&self.buffer).len();
        match self.composee {
            Some(_) => marks + 1,
            None => marks,
        }
    }

    // Whether the stage holds no more marks than the run of `count`
    // non-starters that the decomposition has come to, and the runs of the
    // decomposition stay within the bound from there on.
    spec fn bound_at(&self, count: nat) -> bool {
        &&& tiny_chars(self.buffer).len() <= count <= MAX_NONSTARTERS
        &&& marks_bounded(self.tables, count, self.iter.remaining())
    }

    /// Whether the stage is within the bound of a stream-safe text: it
    /// holds no more marks than the run of non-starters that the
    /// decomposition has come to, and the runs of non-starters of the
    /// decomposition stay within `MAX_NONSTARTERS` from there on.
    pub closed spec fn run_bounded(&self) -> bool {
        match self.state {
            RecompositionState::Composing => exists|count: nat| self.bound_at(count),
            RecompositionState::Purging(n) => tiny_chars(self.buffer).len() <= MAX_NONSTARTERS + 1
                && marks_bounded(self.tables, 0, self.iter.remaining()),
            RecompositionState::Finished(n) => tiny_chars(self.buffer).len() <= MAX_NONSTARTERS,
        }
    }

    /// Within the bound of a stream-safe text the stage holds no more than
    /// `MAX_NONSTARTERS` and two characters.
    pub proof fn lemma_held_is_bounded(&self)
        requires
            self.wf(),
            self.run_bounded(),
        ensures
            self.held_len() <= MAX_NONSTARTERS + 2,
    {
    }

    // Takes characters in until one can be handed out or the input ends.
    fn compose_next(&mut self) -> (c: Option<char>)
        requires
            old(self).wf(),
            old(self).state is Composing,
        ensures
            final(self).wf(),
            old(self).remaining().len() == 0 ==> c is None && final(self).remaining() == old(self).remaining(),
            old(self).remaining().len() > 0 ==> c == Some(old(self).remaining()[0]) && final(self).remaining() == old(self).remaining().skip(1),
            old(self).run_bounded() ==> final(self).run_bounded(),
    {
        let ghost bounded = self.run_bounded();
        let ghost mut count: nat = if bounded {
            choose|count: nat| self.bound_at(count)
        } else {
            0
        };
        loop
            invariant
                self.wf(),
                self.state is Composing,
                self.remaining() == old(self).remaining(),
                bounded == old(self).run_bounded(),
                bounded ==> self.bound_at(count),
            decreases self.iter.remaining().len(),
        {
            let ghost input = self.iter.remaining();
            let ghost blocked = tiny_chars(self.buffer);
            let ghost out = self.remaining();
            let ch: char = match self.iter.next() {
                Some(ch) => ch,
                None => {
                    self.state = RecompositionState::Finished(0);
                    let k = self.composee;
                    self.composee = None;
                    proof {
                        assert(blocked.skip(0) =~= blocked);
                        if k is Some {
                            assert(out =~= seq![k->0] + blocked);
                            assert(blocked =~= out.skip(1));
                        } else {
                            assert(out =~= Seq::<char>::empty());
                        }
                    }
                    return k;
                },
            };
            let ghost rest = self.iter.remaining();
            let ch_class: u8 = canonical_combining_class(self.tables, ch);
            // The run of non-starters that the decomposition has come to
            // behind `ch`.
            let ghost behind: nat = if ch_class == 0 {
                0
            } else {
                count + 1
            };
            proof {
                if bounded {
                    assert(input[0] == ch && input.skip(1) == rest);
                    assert(marks_bounded(self.tables, behind, rest) && behind <= MAX_NONSTARTERS);
                    lemma_marks_monotone(self.tables, 0, behind, rest);
                }
            }
            let k: char = match self.composee {
                None => {
                    if ch_class != 0 || ch == '\n' || ch == COMBINING_GRAPHEME_JOINER {
                        proof {
                            let after = recompose(
                                self.tables,
                                None,
                                Seq::<char>::empty(),
                                None,
                                rest,
                            );
                            assert(out =~= seq![ch] + after);
                            assert(after =~= out.skip(1));
                            assert(bounded ==> self.bound_at(behind));
                        }
                        return Some(ch);
                    }
                    self.composee = Some(ch);
                    proof {
                        assert(blocked =~= Seq::<char>::empty());
                        assert(self.remaining() == out);
                        count = behind;
                    }
                    continue ;
                },
                Some(k) => k,
            };
            if ch == '\n' || ch == COMBINING_GRAPHEME_JOINER {
                // `ch` never composes: the run ends here, and `ch` leaves
                // right behind it.
                tiny_push(&mut self.buffer, ch);
                self.composee = None;
                self.last_ccc = None;
                self.state = RecompositionState::Purging(0);
                proof {
                    let after = blocked.push(ch) + recompose(
                        self.tables,
                        None,
                        Seq::<char>::empty(),
                        None,
                        rest,
                    );
                    assert(blocked.push(ch).skip(0) =~= blocked.push(ch));
                    assert(out =~= seq![k] + after);
                    assert(after =~= out.skip(1));
                }
                return Some(k);
            }
            let blocked_by_last: bool = match self.last_ccc {
                Some(l_class) => l_class >= ch_class,
                None => false,
            };
            let composite: Option<char> = if blocked_by_last {
                None
            } else {
                compose(self.tables, k, ch)
            };
            match composite {
                Some(r) => {
                    self.composee = Some(r);
                    proof {
                        assert(composite_in_run(self.tables, k, self.last_ccc, ch) == Some(r));
                        assert(self.remaining() == out);
                        count = behind;
                    }
                },
                None => {
                    if ch_class == 0 {
                        // `ch` starts the next run.
                        self.composee = Some(ch);
                        self.last_ccc = None;
                        self.state = RecompositionState::Purging(0);
                        proof {
                            let after = blocked + recompose(
                                self.tables,
                                Some(ch),
                                Seq::<char>::empty(),
                                None,
                                rest,
                            );
                            assert(blocked.skip(0) =~= blocked);
                            assert(out =~= seq![k] + after);
                            assert(after =~= out.skip(1));
                        }
                        return Some(k);
                    }
                    let ghost last = self.last_ccc;
                    tiny_push(&mut self.buffer, ch);
                    self.last_ccc = Some(ch_class);
                    proof {
                        assert(composite_in_run(self.tables, k, last, ch) is None);
                        assert(self.remaining() == out);
                        count = behind;
                    }
                },
            }
        }
    }
}

impl<'a, I: CharStream> CharStream for Recompositions<'a, I> {
    closed spec fn wf(&self) -> bool {
        &&& self.tables.wf()
        &&& self.iter.wf()
        &&& match self.state {
            RecompositionState::Composing => (self.composee is None ==> self.last_ccc is None)
                && (self.last_ccc is None ==> tiny_chars(self.buffer).len() == 0),
            RecompositionState::Purging(n) => n <= tiny_chars(self.buffer).len() && self.last_ccc
                is None,
            RecompositionState::Finished(n) => n <= tiny_chars(self.buffer).len()
                && self.composee is None && self.iter.remaining().len() == 0,
        }
    }

    closed spec fn remaining(&self) -> Seq<char> {
        match self.state {
            RecompositionState::Composing => recompose(
                self.tables,
                self.composee,
                tiny_chars(self.buffer),
                self.last_ccc,
                self.iter.remaining(),
            ),
            RecompositionState::Purging(n) => tiny_chars(self.buffer).skip(n as int) + recompose(
                self.tables,
                self.composee,
                Seq::<char>::empty(),
                None,
                self.iter.remaining(),
            ),
            RecompositionState::Finished(n) => tiny_chars(self.buffer).skip(n as int),
        }
    }

    fn next(&mut self) -> (c: Option<char>)
        ensures
            old(self).ready_chars().len() > 0 ==> final(self).source() == old(self).source(),
            old(self).run_bounded() ==> final(self).run_bounded(),
    {
        match self.state {
            RecompositionState::Composing => self.compose_next(),
            RecompositionState::Purging(next) => {
                let held = tiny_as_slice(&self.buffer);
                if next < held.len() {
                    let c: char = held[next];
                    self.state = RecompositionState::Purging(next + 1);
                    proof {
                        let out = old(self).remaining();
                        assert(self.remaining() =~= out.skip(1));
                    }
                    Some(c)
                } else {
                    tiny_clear(&mut self.buffer);
                    self.state = RecompositionState::Composing;
                    proof {
                        let out = old(self).remaining();
                        assert(self.remaining() =~= out);
                        assert(old(self).run_bounded() ==> self.bound_at(0));
                    }
                    self.compose_next()
                }
            },
            RecompositionState::Finished(next) => {
                let held = tiny_as_slice(&self.buffer);
                if next < held.len() {
                    let c: char = held[next];
                    self.state = RecompositionState::Finished(next + 1);
                    proof {
                        let out = old(self).remaining();
                        assert(self.remaining() =~= out.skip(1));
                    }
                    Some(c)
                } else {
                    tiny_clear(&mut self.buffer);
                    self.state = RecompositionState::Finished(0);
                    proof {
                        assert(self.remaining() =~= old(self).remaining());
                    }
                    None
                }
            },
        }
    }
}

} // verus!
