//! The in-memory byte transport that codecs run against.
//!
//! A `Reader` holds the bytes that have arrived so far and a cursor over them;
//! bytes past the cursor are the window a decoder may consume. A reader may be
//! open (more bytes can be fed later) or closed, and may carry a limit that
//! caps how many further bytes it will yield before reporting exhaustion.
//! A `Writer` accumulates written bytes, accepting at most as many as its
//! current allowance; a closed writer refuses every write.

use vstd::prelude::*;

verus! {

/// A transport-level failure.
#[derive(Clone, Copy, Debug, PartialEq, Eq, Structural)]
pub enum TransportError {
    /// The reader ran out of bytes before the decoder was done.
    UnexpectedEof,
    /// The writer refused to accept any further bytes.
    WriteZero,
}

/// Outcome of attempting to read one byte.
pub enum ByteRead {
    /// One byte was consumed.
    Byte(u8),
    /// No byte is ready now; more may arrive later.
    Pending,
    /// The stream is exhausted: closed with no bytes left, or the limit is spent.
    Eof,
}

/// Outcome of attempting to write one byte.
pub enum ByteWrite {
    /// The byte was accepted.
    Accepted,
    /// The writer has no allowance now; more may be granted later.
    Pending,
    /// The writer is closed and accepts nothing.
    Refused,
}

/// An in-memory byte source with explicit readiness and an optional byte limit.
pub struct Reader {
    data: Vec<u8>,
    pos: usize,
    open: bool,
    limit: Option<usize>,
}

impl Reader {
    /// All bytes that have arrived since the reader was created.
    pub closed spec fn stream(self) -> Seq<u8> {
        self.data@
    }

    /// How many bytes have been consumed.
    pub closed spec fn pos(self) -> int {
        self.pos as int
    }

    /// Whether more bytes may still be fed.
    pub closed spec fn is_open(self) -> bool {
        self.open
    }

    /// The remaining byte allowance, if a limit is set.
    pub closed spec fn cap(self) -> Option<int> {
        match self.limit {
            Some(l) => Some(l as int),
            None => None,
        }
    }

    pub open spec fn wf(self) -> bool {
        &&& 0 <= self.pos() <= self.stream().len()
        &&& self.stream().len() <= usize::MAX
        &&& (self.cap() matches Some(l) ==> l >= 0)
    }

    /// The bytes a decoder may consume right now: everything past the cursor,
    /// truncated at the limit.
    pub open spec fn window(self) -> Seq<u8> {
        let tail = self.stream().skip(self.pos());
        match self.cap() {
            Some(l) => if l < tail.len() { tail.take(l) } else { tail },
            None => tail,
        }
    }

    /// Whether a read would report `Eof`: the limit is spent, or the reader is
    /// closed and drained.
    pub open spec fn at_end(self) -> bool {
        self.cap() == Some(0int) || (self.pos() == self.stream().len() && !self.is_open())
    }

    /// A fresh, empty, open reader with no limit.
    pub fn new() -> (r: Reader)
        ensures
            r.wf(),
            r.stream() == Seq::<u8>::empty(),
            r.pos() == 0,
            r.is_open(),
            r.cap() == None::<int>,
    {
        Reader { data: Vec::new(), pos: 0, open: true, limit: None }
    }

    /// A closed reader over a complete byte sequence.
    pub fn from_vec(data: Vec<u8>) -> (r: Reader)
        ensures
            r.wf(),
            r.stream() == data@,
            r.pos() == 0,
            !r.is_open(),
            r.cap() == None::<int>,
    {
        proof {
            vstd::std_specs::vec::axiom_spec_len(&data);
        }
        Reader { data, pos: 0, open: false, limit: None }
    }

    /// Make one more byte available.
    pub fn feed_byte(&mut self, b: u8)
        requires
            old(self).wf(),
            old(self).is_open(),
        ensures
            final(self).wf(),
            final(self).stream() == old(self).stream().push(b),
            final(self).pos() == old(self).pos(),
            final(self).is_open(),
            final(self).cap() == old(self).cap(),
    {
        self.data.push(b);
        proof {
            vstd::std_specs::vec::axiom_spec_len(&self.data);
        }
    }

    /// Declare the stream complete: no more bytes will arrive.
    pub fn close(&mut self)
        requires
            old(self).wf(),
        ensures
            final(self).wf(),
            final(self).stream() == old(self).stream(),
            final(self).pos() == old(self).pos(),
            !final(self).is_open(),
            final(self).cap() == old(self).cap(),
    {
        self.open = false;
    }

    /// How many bytes have been consumed.
    pub fn consumed(&self) -> (p: usize)
        ensures
            p == self.pos(),
    {
        self.pos
    }

    /// The current limit.
    pub fn current_limit(&self) -> (l: Option<usize>)
        ensures
            self.cap() == (match l {
                Some(v) => Some(v as int),
                None => None::<int>,
            }),
    {
        self.limit
    }

    /// Replace the limit.
    pub fn set_limit(&mut self, l: Option<usize>)
        requires
            old(self).wf(),
        ensures
            final(self).wf(),
            final(self).stream() == old(self).stream(),
            final(self).pos() == old(self).pos(),
            final(self).is_open() == old(self).is_open(),
            final(self).cap() == (match l {
                Some(v) => Some(v as int),
                None => None::<int>,
            }),
    {
        self.limit = l;
    }

    /// Attempt to consume one byte.
    pub fn poll_byte(&mut self) -> (r: ByteRead)
        requires
            old(self).wf(),
        ensures
            final(self).wf(),
            final(self).stream() == old(self).stream(),
            final(self).is_open() == old(self).is_open(),
            match r {
                ByteRead::Byte(b) => {
                    &&& old(self).window().len() > 0
                    &&& b == old(self).window()[0]
                    &&& final(self).pos() == old(self).pos() + 1
                    &&& cap_shrunk(*old(self), *final(self), 1)
                },
                ByteRead::Pending => {
                    &&& *final(self) == *old(self)
                    &&& old(self).window().len() == 0
                    &&& !old(self).at_end()
                },
                ByteRead::Eof => {
                    &&& *final(self) == *old(self)
                    &&& old(self).at_end()
                },
            },
    {
        let limit_spent = match self.limit {
            Some(l) => l == 0,
            None => false,
        };
        if limit_spent {
            return ByteRead::Eof;
        }
        if self.pos < self.data.len() {
            let b = self.data[self.pos];
            self.pos = self.pos + 1;
            match self.limit {
                Some(l) => {
                    self.limit = Some(l - 1);
                },
                None => {},
            }
            return ByteRead::Byte(b);
        }
        if self.open {
            ByteRead::Pending
        } else {
            ByteRead::Eof
        }
    }
}

/// The limit, if one is set, went down by exactly `n`.
pub open spec fn cap_shrunk(r0: Reader, r1: Reader, n: int) -> bool {
    match r0.cap() {
        Some(l) => n <= l && r1.cap() == Some(l - n),
        None => r1.cap() == None::<int>,
    }
}

/// Consuming `j` bytes from a reader shifts its window by exactly `j`.
pub proof fn lemma_window_advance(r0: Reader, r1: Reader, j: int)
    requires
        r0.wf(),
        r1.wf(),
        r1.stream() == r0.stream(),
        0 <= j <= r0.window().len(),
        r1.pos() == r0.pos() + j,
        cap_shrunk(r0, r1, j),
    ensures
        r1.window() == r0.window().skip(j),
{
    assert(r1.window() =~= r0.window().skip(j));
}

/// Two readers that differ only in their limit agree on any prefix that lies
/// within both windows.
pub proof fn lemma_window_take(r0: Reader, r1: Reader, n: int)
    requires
        r0.wf(),
        r1.wf(),
        r1.stream() == r0.stream(),
        r1.pos() == r0.pos(),
        0 <= n <= r0.window().len(),
        n <= r1.window().len(),
    ensures
        r0.window().take(n) == r1.window().take(n),
{
    assert(r0.window().take(n) =~= r1.window().take(n));
}

/// An in-memory byte sink with an explicit allowance.
pub struct Writer {
    data: Vec<u8>,
    accept: usize,
    shut: bool,
}

impl Writer {
    /// All bytes written so far.
    pub closed spec fn written(self) -> Seq<u8> {
        self.data@
    }

    /// How many more bytes the writer accepts right now.
    pub closed spec fn accept_n(self) -> int {
        self.accept as int
    }

    /// Whether the writer refuses every write.
    pub closed spec fn is_shut(self) -> bool {
        self.shut
    }

    pub open spec fn wf(self) -> bool {
        &&& 0 <= self.accept_n() <= usize::MAX
        &&& self.written().len() <= usize::MAX
    }

    /// A fresh writer with no allowance.
    pub fn new() -> (w: Writer)
        ensures
            w.wf(),
            w.written() == Seq::<u8>::empty(),
            w.accept_n() == 0,
            !w.is_shut(),
    {
        Writer { data: Vec::new(), accept: 0, shut: false }
    }

    /// Grant an allowance of `n` more bytes.
    pub fn allow(&mut self, n: usize)
        requires
            old(self).wf(),
            old(self).accept_n() + n <= usize::MAX,
        ensures
            final(self).wf(),
            final(self).written() == old(self).written(),
            final(self).accept_n() == old(self).accept_n() + n,
            final(self).is_shut() == old(self).is_shut(),
    {
        self.accept = self.accept + n;
    }

    /// Refuse all further writes.
    pub fn close(&mut self)
        requires
            old(self).wf(),
        ensures
            final(self).wf(),
            final(self).written() == old(self).written(),
            final(self).accept_n() == old(self).accept_n(),
            final(self).is_shut(),
    {
        self.shut = true;
    }

    /// Attempt to write one byte.
    pub fn push_byte(&mut self, b: u8) -> (r: ByteWrite)
        requires
            old(self).wf(),
        ensures
            final(self).wf(),
            final(self).is_shut() == old(self).is_shut(),
            match r {
                ByteWrite::Accepted => {
                    &&& !old(self).is_shut()
                    &&& old(self).accept_n() > 0
                    &&& final(self).written() == old(self).written().push(b)
                    &&& final(self).accept_n() == old(self).accept_n() - 1
                },
                ByteWrite::Pending => {
                    &&& *final(self) == *old(self)
                    &&& old(self).accept_n() == 0
                    &&& !old(self).is_shut()
                },
                ByteWrite::Refused => {
                    &&& *final(self) == *old(self)
                    &&& old(self).is_shut()
                },
            },
    {
        if self.shut {
            return ByteWrite::Refused;
        }
        if self.accept == 0 {
            return ByteWrite::Pending;
        }
        self.data.push(b);
        self.accept = self.accept - 1;
        proof {
            vstd::std_specs::vec::axiom_spec_len(&self.data);
        }
        ByteWrite::Accepted
    }

    /// How many more bytes the writer accepts right now.
    pub fn allowance(&self) -> (n: usize)
        ensures
            n == self.accept_n(),
    {
        self.accept
    }

    /// How many bytes have been written.
    pub fn len(&self) -> (n: usize)
        ensures
            n == self.written().len(),
    {
        self.data.len()
    }

    /// The byte at position `i` of what was written.
    pub fn byte_at(&self, i: usize) -> (b: u8)
        requires
            i < self.written().len(),
        ensures
            b == self.written()[i as int],
    {
        self.data[i]
    }

    /// Hand the written bytes out.
    pub fn into_vec(self) -> (v: Vec<u8>)
        ensures
            v@ == self.written(),
    {
        self.data
    }
}

} // verus!
