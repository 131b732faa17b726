//! Commands that the host runs for the shell.
use crate::commands::resolve::not_found_line;
use crate::views::rows;
use vstd::prelude::*;
use vstd::utf8::encode_utf8;

verus! {

/// What a command that the host ran gave back.
#[derive(Debug)]
pub struct ExternalCommandResult {
    /// Data written to the standard output.
    pub stdout: Vec<u8>,
    /// Data written to the standard error.
    pub stderr: Vec<u8>,
    /// Exit code, zero for success.
    pub status: i32,
}

/// Why a read gave no bytes although the input has not ended.
#[derive(Clone, Copy, Debug, PartialEq, Eq, Structural)]
pub enum ReadFault {
    /// Nothing is there yet.
    WouldBlock,
    /// The source is broken.
    Failed,
}

/// A source of bytes: what its reads give, one after the other, and what they give after that.
#[derive(Debug)]
pub struct ChunkReader {
    pub chunks: Vec<Vec<u8>>,
    pub fault: Option<ReadFault>,
}

/// The standard input of a command that the host runs.
#[derive(Debug)]
pub struct ExternalCommandStdin {
    reader: ChunkReader,
    at: usize,
    position: usize,
}

/// The chunks that are left once `n` bytes of the first were read.
pub open spec fn after_read(chunks: Seq<Seq<u8>>, n: int) -> Seq<Seq<u8>> {
    if n >= chunks[0].len() {
        chunks.drop_first()
    } else {
        chunks.update(0, chunks[0].skip(n))
    }
}

impl ExternalCommandStdin {
    #[verifier::type_invariant]
    spec fn in_range(self) -> bool {
        &&& self.at <= self.reader.chunks@.len()
        &&& self.at < self.reader.chunks@.len() ==> self.position
            <= self.reader.chunks@[self.at as int]@.len()
        &&& self.at == self.reader.chunks@.len() ==> self.position == 0
    }

    /// The chunks that are still to be read, the first of them without what was read of it.
    pub closed spec fn remaining(self) -> Seq<Seq<u8>> {
        let left = rows(self.reader.chunks@).skip(self.at as int);
        if left.len() == 0 {
            left
        } else {
            left.update(0, left[0].skip(self.position as int))
        }
    }

    /// What reading gives once no chunk is left: the end of the input or a fault.
    pub closed spec fn fault(self) -> Option<ReadFault> {
        self.reader.fault
    }

    /// An input of the given bytes.
    pub fn from_bytes(data: &[u8]) -> (r: ExternalCommandStdin)
        ensures
            r.remaining() == seq![data@],
            r.fault() is None,
    {
        let mut chunks: Vec<Vec<u8>> = Vec::new();
        chunks.push(vstd::slice::slice_to_vec(data));
        let r = ExternalCommandStdin {
            reader: ChunkReader { chunks, fault: None },
            at: 0,
            position: 0,
        };
        assert(data@.skip(0) =~= data@);
        assert(r.remaining() =~= seq![data@]);
        r
    }

    /// An input that is read from a source.
    pub fn from_reader(reader: ChunkReader) -> (r: ExternalCommandStdin)
        ensures
            r.remaining() == rows(reader.chunks@),
            r.fault() == reader.fault,
    {
        let r = ExternalCommandStdin { reader, at: 0, position: 0 };
        proof {
            let all = rows(reader.chunks@);
            if all.len() > 0 {
                assert(all[0].skip(0) =~= all[0]);
            }
            assert(r.remaining() =~= all);
        }
        r
    }

    /// Reads the next bytes into a buffer and returns how many there were: what the next
    /// chunk of the source holds, as far as the buffer has room.
    pub fn read_chunk(&mut self, buf: &mut [u8]) -> (r: Result<usize, ReadFault>)
        ensures
            final(buf)@.len() == old(buf)@.len(),
            final(self).fault() == old(self).fault(),
            old(self).remaining().len() == 0 ==> {
                &&& r == match old(self).fault() {
                    Some(f) => Err::<usize, ReadFault>(f),
                    None => Ok(0usize),
                }
                &&& final(buf)@ == old(buf)@
                &&& final(self).remaining() == old(self).remaining()
            },
            old(self).remaining().len() > 0 ==> {
                &&& r is Ok
                &&& r->Ok_0 == if old(self).remaining()[0].len() < old(buf)@.len() {
                    old(self).remaining()[0].len()
                } else {
                    old(buf)@.len()
                }
                &&& final(buf)@ == old(self).remaining()[0].take(r->Ok_0 as int) + old(buf)@.skip(
                    r->Ok_0 as int,
                )
                &&& final(self).remaining() == after_read(old(self).remaining(), r->Ok_0 as int)
            },
            r matches Ok(n) ==> final(buf)@.take(n as int) + final(self).remaining().flatten()
                == old(self).remaining().flatten(),
    {
        proof {
            use_type_invariant(&*self);
        }
        if self.at == self.reader.chunks.len() {
            assert(buf@.take(0) + self.remaining().flatten() =~= self.remaining().flatten());
            return match self.reader.fault {
                Some(f) => Err(f),
                None => Ok(0),
            };
        }
        let ghost rem = self.remaining();
        let ghost room = buf@;
        let ghost first = rem[0];
        let chunk = &self.reader.chunks[self.at];
        assert(rows(self.reader.chunks@)[self.at as int] == chunk@);
        assert(first =~= chunk@.skip(self.position as int));
        let start: usize = self.position;
        let left: usize = chunk.len() - start;
        let n: usize = if left < buf.len() {
            left
        } else {
            buf.len()
        };
        let mut i: usize = 0;
        assert(buf@ =~= first.take(0) + room.skip(0));
        while i < n
            invariant
                i <= n,
                n <= room.len(),
                n <= first.len(),
                first == chunk@.skip(start as int),
                start + n <= chunk@.len(),
                chunk@.len() == chunk.len(),
                buf@ == first.take(i as int) + room.skip(i as int),
            decreases n - i,
        {
            let b: u8 = chunk[start + i];
            buf[i] = b;
            assert(b == first[i as int]);
            assert(buf@ =~= first.take(i + 1) + room.skip(i + 1));
            i = i + 1;
        }
        if n == left {
            self.position = 0;
            self.at = self.at + 1;
        } else {
            self.position = start + n;
        }
        proof {
            let all = rows(self.reader.chunks@);
            if n == left {
                let next = all.skip(self.at as int);
                if next.len() > 0 {
                    assert(next[0].skip(0) =~= next[0]);
                }
                assert(self.remaining() =~= rem.drop_first());
                assert(first.take(n as int) =~= first);
            } else {
                assert(chunk@.skip(start + n) =~= first.skip(n as int));
                assert(self.remaining() =~= rem.update(0, first.skip(n as int)));
                assert(self.remaining().drop_first() =~= rem.drop_first());
                assert(first =~= first.take(n as int) + first.skip(n as int));
                assert((first.take(n as int) + first.skip(n as int)) + rem.drop_first().flatten()
                    =~= first.take(n as int) + (first.skip(n as int) + rem.drop_first().flatten()));
            }
            assert(buf@.take(n as int) =~= first.take(n as int));
            assert(rem.flatten() == first + rem.drop_first().flatten());
        }
        Ok(n)
    }
}

/// Whether a result is that of a command: the host's, or that there is no such command.
pub open spec fn is_answer(
    name: Seq<char>,
    answer: Option<ExternalCommandResult>,
    r: ExternalCommandResult,
) -> bool {
    match answer {
        Some(a) => r == a,
        None => r.stdout@.len() == 0 && r.stderr@ == encode_utf8(
            "wasmsh: "@ + name + ": command not found\n"@,
        ) && r.status == 127,
    }
}

/// What a command that the host was asked to run comes to: its answer, or where the host does not
/// know it a report and the status 127.
pub fn external_answer(name: &str, answer: Option<ExternalCommandResult>) -> (r:
    ExternalCommandResult)
    ensures
        is_answer(name@, answer, r),
{
    match answer {
        Some(a) => a,
        None => ExternalCommandResult {
            stdout: Vec::new(),
            stderr: not_found_line(name).as_str().as_bytes_vec(),
            status: 127,
        },
    }
}

} // verus!
