//! Forward-only character streams, the inputs and outputs of every stage.

use vstd::prelude::*;

verus! {

/// A lazily evaluated, forward-only sequence of characters.
///
/// A stream is described by the characters it has yet to yield. Each call of
/// `next` hands out the first of them; an exhausted stream stays exhausted.
pub trait CharStream {
    /// The stream's own invariant.
    spec fn wf(&self) -> bool;

    /// The characters that the stream has yet to yield, in order.
    spec fn remaining(&self) -> Seq<char>;

    /// Yields the next character, or `None` at the end.
    fn next(&mut self) -> (c: Option<char>)
        requires
            old(self).wf(),
        ensures
            final(self).wf(),
            old(self).remaining().len() == 0 ==> c is None && final(self).remaining() == old(self).remaining(),
            old(self).remaining().len() > 0 ==> c == Some(old(self).remaining()[0]) && final(self).remaining() == old(self).remaining().skip(1),
    ;
}

/// A stream over characters held in memory.
pub struct Chars {
    data: Vec<char>,
    pos: usize,
}

impl Chars {
    /// A stream that yields the characters of `data` in order.
    pub fn new(data: Vec<char>) -> (chars: Chars)
        ensures
            chars.wf(),
            chars.remaining() == data@,
            chars.consumed() == 0,
    {
        let chars = Chars { data, pos: 0 };
        assert(chars.data@.skip(0) =~= chars.data@);
        chars
    }

    /// The number of characters yielded so far.
    pub closed spec fn consumed(&self) -> nat {
        self.pos as nat
    }

    /// The number of characters yielded so far.
    pub fn position(&self) -> (n: usize)
        ensures
            n == self.consumed(),
    {
        self.pos
    }
}

impl CharStream for Chars {
    closed spec fn wf(&self) -> bool {
        self.pos <= self.data@.len()
    }

    closed spec fn remaining(&self) -> Seq<char> {
        self.data@.skip(self.pos as int)
    }

    fn next(&mut self) -> (c: Option<char>) {
        if self.pos < self.data.len() {
            let c = self.data[self.pos];
            self.pos = self.pos + 1;
            assert(self.data@.skip(self.pos as int) =~= old(self).data@.skip(
                old(self).pos as int,
            ).skip(1));
            Some(c)
        } else {
            None
        }
    }
}

/// A stream over characters borrowed from a slice.
pub struct SliceChars<'a> {
    data: &'a [char],
    pos: usize,
}

impl<'a> SliceChars<'a> {
    /// A stream that yields the characters of `data` in order.
    pub fn new(data: &'a [char]) -> (chars: SliceChars<'a>)
        ensures
            chars.wf(),
            chars.remaining() == data@,
            chars.consumed() == 0,
    {
        let chars = SliceChars { data, pos: 0 };
        assert(chars.data@.skip(0) =~= chars.data@);
        chars
    }

    /// The number of characters yielded so far.
    pub closed spec fn consumed(&self) -> nat {
        self.pos as nat
    }

    /// The number of characters yielded so far.
    pub fn position(&self) -> (n: usize)
        ensures
            n == self.consumed(),
    {
        self.pos
    }
}

impl<'a> CharStream for SliceChars<'a> {
    closed spec fn wf(&self) -> bool {
        self.pos <= self.data@.len()
    }

    closed spec fn remaining(&self) -> Seq<char> {
        self.data@.skip(self.pos as int)
    }

    fn next(&mut self) -> (c: Option<char>) {
        if self.pos < self.data.len() {
            let c = self.data[self.pos];
            self.pos = self.pos + 1;
            assert(self.data@.skip(self.pos as int) =~= old(self).data@.skip(
                old(self).pos as int,
            ).skip(1));
            Some(c)
        } else {
            None
        }
    }
}

/// Drains `stream` into a vector.
pub fn collect<I: CharStream>(stream: &mut I) -> (all: Vec<char>)
    requires
        old(stream).wf(),
    ensures
        final(stream).wf(),
        all@ == old(stream).remaining(),
        final(stream).remaining().len() == 0,
{
    let mut all: Vec<char> = Vec::new();
    loop
        invariant
            stream.wf(),
            all@ + stream.remaining() == old(stream).remaining(),
        ensures
            stream.wf(),
            all@ == old(stream).remaining(),
            stream.remaining().len() == 0,
        decreases stream.remaining().len(),
    {
        let ghost before = stream.remaining();
        match stream.next() {
            Some(c) => {
                all.push(c);
                assert(all@ + stream.remaining() =~= old(stream).remaining()) by {
                    assert(before =~= seq![c] + before.skip(1));
                }
            },
            None => {
                assert(all@ =~= all@ + stream.remaining());
                break ;
            },
        }
    }
    all
}

} // verus!
