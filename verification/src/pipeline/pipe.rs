//! Pipes: bounded queues of bytes with two ends.
use crate::pipeline::process::WriteResult;
use vstd::prelude::*;

verus! {

/// How many bytes a pipe between two stages holds.
pub const PIPEBUFFER_STREAMING_CAPACITY: usize = 1;

/// A pipe.
pub struct Pipe {
    data: Vec<u8>,
    /// What stands before this was read.
    start: usize,
    capacity: usize,
    read_closed: bool,
    write_closed: bool,
    /// All that was read.
    taken: Ghost<Seq<u8>>,
}

/// The smaller number.
pub open spec fn least(a: int, b: int) -> int {
    if a < b {
        a
    } else {
        b
    }
}

impl Pipe {
    /// No more was read than was written.
    #[verifier::type_invariant]
    spec fn reads_what_was_written(self) -> bool {
        self.start <= self.data@.len()
    }

    /// The bytes that wait to be read.
    pub closed spec fn contents(self) -> Seq<u8> {
        self.data@.skip(self.start as int)
    }

    /// All that was read.
    pub closed spec fn taken(self) -> Seq<u8> {
        self.taken@
    }

    /// All that was written: what was read and what waits.
    pub open spec fn written(self) -> Seq<u8> {
        self.taken() + self.contents()
    }

    /// How many bytes the pipe takes before it is full.
    pub closed spec fn capacity(self) -> nat {
        self.capacity as nat
    }

    /// Whether nobody reads the pipe any more.
    pub closed spec fn read_closed(self) -> bool {
        self.read_closed
    }

    /// Whether nobody writes the pipe any more.
    pub closed spec fn write_closed(self) -> bool {
        self.write_closed
    }

    /// An empty pipe.
    pub fn new(capacity: usize) -> (r: Pipe)
        ensures
            r.contents() == Seq::<u8>::empty(),
            r.taken() == Seq::<u8>::empty(),
            r.capacity() == capacity,
            !r.read_closed(),
            !r.write_closed(),
    {
        let data: Vec<u8> = Vec::new();
        assert(data@.skip(0) =~= Seq::<u8>::empty());
        Pipe {
            data,
            start: 0,
            capacity,
            read_closed: false,
            write_closed: false,
            taken: Ghost(Seq::empty()),
        }
    }

    /// A pipe with bytes in it that nobody writes any more.
    pub fn filled(data: Vec<u8>) -> (r: Pipe)
        ensures
            r.contents() == data@,
            r.taken() == Seq::<u8>::empty(),
            r.capacity() == data@.len(),
            !r.read_closed(),
            r.write_closed(),
    {
        assert(data@.skip(0) =~= data@);
        let capacity: usize = data.len();
        Pipe {
            data,
            start: 0,
            capacity,
            read_closed: false,
            write_closed: true,
            taken: Ghost(Seq::empty()),
        }
    }

    /// How many bytes wait.
    pub fn len(&self) -> (r: usize)
        ensures
            r == self.contents().len(),
    {
        proof {
            use_type_invariant(self);
        }
        self.data.len() - self.start
    }

    /// Whether nobody writes the pipe any more.
    pub fn is_write_closed(&self) -> (r: bool)
        ensures
            r == self.write_closed(),
    {
        self.write_closed
    }

    /// Writes as many bytes as there is room for.
    pub fn write(&mut self, bytes: &[u8]) -> (r: WriteResult)
        ensures
            final(self).capacity() == old(self).capacity(),
            final(self).read_closed() == old(self).read_closed(),
            final(self).write_closed() == old(self).write_closed(),
            final(self).taken() == old(self).taken(),
            old(self).contents().len() <= old(self).capacity() ==> final(self).contents().len()
                <= final(self).capacity(),
            if old(self).read_closed() {
                r is BrokenPipe && final(self).contents() == old(self).contents()
            } else {
                let room = if old(self).contents().len() < old(self).capacity() {
                    old(self).capacity() - old(self).contents().len()
                } else {
                    0
                };
                let n = least(bytes@.len() as int, room);
                &&& final(self).contents() == old(self).contents() + bytes@.take(n)
                &&& r == if n == bytes@.len() {
                    WriteResult::Written(n as usize)
                } else {
                    WriteResult::WouldBlock(n as usize)
                }
            },
    {
        proof {
            use_type_invariant(&*self);
        }
        if self.read_closed {
            return WriteResult::BrokenPipe;
        }
        let waiting: usize = self.data.len() - self.start;
        let room: usize = if waiting < self.capacity {
            self.capacity - waiting
        } else {
            0
        };
        let n: usize = if bytes.len() < room {
            bytes.len()
        } else {
            room
        };
        let mut data = vstd::slice::slice_to_vec(
            vstd::slice::slice_subrange(self.data.as_slice(), self.start, self.data.len()),
        );
        assert(data@ =~= self.contents());
        data.extend_from_slice(vstd::slice::slice_subrange(bytes, 0, n));
        proof {
            assert(bytes@.subrange(0, n as int) =~= bytes@.take(n as int));
            assert(data@ =~= self.contents() + bytes@.take(n as int));
            assert(data@.skip(0) =~= data@);
        }
        *self = Pipe {
            data,
            start: 0,
            capacity: self.capacity,
            read_closed: self.read_closed,
            write_closed: self.write_closed,
            taken: self.taken,
        };
        if n == bytes.len() {
            WriteResult::Written(n)
        } else {
            WriteResult::WouldBlock(n)
        }
    }

    /// Reads up to so many bytes.
    pub fn read(&mut self, max: usize) -> (r: Vec<u8>)
        ensures
            final(self).capacity() == old(self).capacity(),
            final(self).read_closed() == old(self).read_closed(),
            final(self).write_closed() == old(self).write_closed(),
            r@.len() == least(max as int, old(self).contents().len() as int),
            r@ == old(self).contents().take(r@.len() as int),
            final(self).contents() == old(self).contents().skip(r@.len() as int),
            r@ + final(self).contents() == old(self).contents(),
            final(self).taken() == old(self).taken() + r@,
            final(self).written() == old(self).written(),
    {
        proof {
            use_type_invariant(&*self);
        }
        let waiting: usize = self.data.len() - self.start;
        let n: usize = if max < waiting {
            max
        } else {
            waiting
        };
        let out = vstd::slice::slice_to_vec(
            vstd::slice::slice_subrange(self.data.as_slice(), self.start, self.start + n),
        );
        proof {
            let c = self.contents();
            assert(out@ =~= c.take(n as int));
            assert(self.data@.skip(self.start + n) =~= c.skip(n as int));
            assert(c.take(n as int) + c.skip(n as int) =~= c);
        }
        let ghost before = self.written();
        self.start = self.start + n;
        proof {
            self.taken@ = self.taken@ + out@;
            assert(self.written() =~= before);
        }
        out
    }

    /// The reader is gone.
    pub fn close_read(&mut self)
        ensures
            final(self).read_closed(),
            final(self).contents() == old(self).contents(),
            final(self).taken() == old(self).taken(),
            final(self).capacity() == old(self).capacity(),
            final(self).write_closed() == old(self).write_closed(),
    {
        proof {
            use_type_invariant(&*self);
        }
        self.read_closed = true;
    }

    /// The writer is gone.
    pub fn close_write(&mut self)
        ensures
            final(self).write_closed(),
            final(self).contents() == old(self).contents(),
            final(self).taken() == old(self).taken(),
            final(self).capacity() == old(self).capacity(),
            final(self).read_closed() == old(self).read_closed(),
    {
        proof {
            use_type_invariant(&*self);
        }
        self.write_closed = true;
    }
}

} // verus!
