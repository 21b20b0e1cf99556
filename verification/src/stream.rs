//! Bytes that came in over a connection, read from front to back.

use vstd::prelude::*;

verus! {

/// Why reading failed.
#[derive(Clone, Copy, Debug, PartialEq, Eq, Structural)]
pub enum ReadError {
    /// The connection ended in the middle.
    Ended,
    /// A part is larger than is accepted.
    TooLarge,
    /// Text is not valid UTF-8.
    NotText,
}

/// Bytes at hand, and how many of them have been read.
pub struct Input {
    data: Vec<u8>,
    at: usize,
}

impl Input {
    /// The position lies within the bytes.
    #[verifier::type_invariant]
    spec fn wf(self) -> bool {
        self.at <= self.data@.len()
    }

    /// What is still to be read.
    pub closed spec fn rest(self) -> Seq<u8> {
        self.data@.skip(self.at as int)
    }

    /// How many bytes that have been read are still at hand.
    pub closed spec fn behind(self) -> nat {
        self.at as nat
    }

    /// No bytes yet.
    pub fn new() -> (r: Input)
        ensures
            r.rest() == Seq::<u8>::empty(),
            r.behind() == 0,
    {
        let r = Input { data: Vec::new(), at: 0 };
        assert(r.rest() =~= seq![]);
        r
    }

    /// Puts bytes behind those at hand.
    pub fn feed(&mut self, bytes: &[u8])
        ensures
            final(self).rest() == old(self).rest() + bytes@,
            final(self).behind() == old(self).behind(),
    {
        proof {
            use_type_invariant(&*self);
        }
        let mut whole: Input = Input::new();
        std::mem::swap(self, &mut whole);
        let at: usize = whole.at;
        let mut data: Vec<u8> = whole.data;
        let ghost start = data@;
        let mut i: usize = 0;
        assert(start + bytes@.take(0) =~= start);
        while i < bytes.len()
            invariant
                i <= bytes@.len(),
                data@ == start + bytes@.take(i as int),
            decreases bytes@.len() - i,
        {
            data.push(bytes[i]);
            assert(bytes@.take(i + 1) =~= bytes@.take(i as int).push(bytes@[i as int]));
            assert(data@ =~= start + bytes@.take(i + 1));
            i = i + 1;
        }
        assert(bytes@.take(i as int) =~= bytes@);
        *self = Input { data, at };
        assert(self.rest() =~= old(self).rest() + bytes@);
    }

    /// How many bytes are still to be read.
    pub fn left(&self) -> (r: usize)
        ensures
            r == self.rest().len(),
    {
        proof {
            use_type_invariant(self);
        }
        self.data.len() - self.at
    }

    /// The byte `i` places ahead.
    pub fn peek(&self, i: usize) -> (r: u8)
        requires
            i < self.rest().len(),
        ensures
            r == self.rest()[i as int],
    {
        proof {
            use_type_invariant(self);
        }
        let n: usize = self.data.len();
        self.data[self.at + i]
    }

    /// Passes over `n` bytes.
    pub fn skip(&mut self, n: usize)
        requires
            n <= old(self).rest().len(),
        ensures
            final(self).rest() == old(self).rest().skip(n as int),
            final(self).behind() == old(self).behind() + n,
    {
        proof {
            use_type_invariant(&*self);
        }
        let size: usize = self.data.len();
        self.at = self.at + n;
        assert(self.rest() =~= old(self).rest().skip(n as int));
    }

    /// Reads `n` bytes.
    pub fn take(&mut self, n: usize) -> (r: Vec<u8>)
        requires
            n <= old(self).rest().len(),
        ensures
            r@ == old(self).rest().take(n as int),
            final(self).rest() == old(self).rest().skip(n as int),
            final(self).behind() == old(self).behind() + n,
    {
        let mut out: Vec<u8> = Vec::new();
        let mut i: usize = 0;
        let ghost all = self.rest();
        assert(all.take(0) =~= seq![]);
        while i < n
            invariant
                i <= n,
                n <= all.len(),
                self.rest() == all,
                *self == *old(self),
                out@ == all.take(i as int),
            decreases n - i,
        {
            out.push(self.peek(i));
            assert(all.take(i + 1) =~= all.take(i as int).push(all[i as int]));
            i = i + 1;
        }
        self.skip(n);
        out
    }

    /// Another input with what is still to be read.
    pub fn ahead(&self) -> (r: Input)
        ensures
            r.rest() == self.rest(),
            r.behind() == 0,
    {
        let n: usize = self.left();
        let mut data: Vec<u8> = Vec::new();
        let mut i: usize = 0;
        let ghost all = self.rest();
        assert(all.take(0) =~= seq![]);
        while i < n
            invariant
                i <= n,
                n == all.len(),
                self.rest() == all,
                data@ == all.take(i as int),
            decreases n - i,
        {
            data.push(self.peek(i));
            assert(all.take(i + 1) =~= all.take(i as int).push(all[i as int]));
            i = i + 1;
        }
        let r = Input { data, at: 0 };
        assert(r.rest() =~= all);
        r
    }

    /// Forgets the bytes that have been read.
    pub fn compact(&mut self)
        ensures
            final(self).rest() == old(self).rest(),
            final(self).behind() == 0,
    {
        let next: Input = self.ahead();
        *self = next;
    }
}

} // verus!
