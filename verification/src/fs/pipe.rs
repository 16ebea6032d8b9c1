//! Pipes: what one process writes, another one reads, in the same order.
use super::file::File;
use vstd::prelude::*;

verus! {

/// How many bytes a pipe holds.
pub const RING_BUFFER_SIZE: usize = 32;

/// Whether the positions for reading and writing are the same because the buffer is full
/// or because it is empty.
#[derive(Copy, Clone, PartialEq, Eq, Structural)]
pub enum RingBufferStatus {
    Full,
    Empty,
    Normal,
}

/// The buffer of a pipe.
pub struct PipeRingBuffer {
    arr: [u8; RING_BUFFER_SIZE],
    head: usize,
    tail: usize,
    status: RingBufferStatus,
    write_end: bool,
}

/// How many bytes there are from `head` on.
spec fn held(head: int, tail: int, status: RingBufferStatus) -> int {
    if status == RingBufferStatus::Empty {
        0
    } else if tail > head {
        tail - head
    } else {
        tail + RING_BUFFER_SIZE - head
    }
}

impl View for PipeRingBuffer {
    type V = Seq<u8>;

    /// The bytes that were written and not read yet, the first one first.
    closed spec fn view(&self) -> Seq<u8> {
        Seq::new(
            held(self.head as int, self.tail as int, self.status) as nat,
            |i: int| self.arr@[(self.head + i) % 32],
        )
    }
}

impl PipeRingBuffer {
    /// The positions are in the buffer, and are the same exactly if it is full or empty.
    pub closed spec fn wf(&self) -> bool {
        &&& self.head < RING_BUFFER_SIZE
        &&& self.tail < RING_BUFFER_SIZE
        &&& self.status == RingBufferStatus::Normal <==> self.head != self.tail
    }

    /// The write end was made.
    pub closed spec fn has_write_end(&self) -> bool {
        self.write_end
    }

    /// A buffer with nothing in it.
    pub fn new() -> (r: Self)
        ensures
            r.wf(),
            r@ == Seq::<u8>::empty(),
            !r.has_write_end(),
    {
        let r: PipeRingBuffer = PipeRingBuffer {
            arr: [0u8; RING_BUFFER_SIZE],
            head: 0,
            tail: 0,
            status: RingBufferStatus::Empty,
            write_end: false,
        };
        assert(r@ =~= Seq::<u8>::empty());
        r
    }

    /// The write end was made.
    pub fn set_write_end(&mut self)
        requires
            old(self).wf(),
        ensures
            final(self).wf(),
            final(self)@ == old(self)@,
            final(self).has_write_end(),
    {
        self.write_end = true;
        assert(self@ =~= old(self)@);
    }

    /// Append a byte.
    pub fn write_byte(&mut self, byte: u8)
        requires
            old(self).wf(),
            old(self)@.len() < RING_BUFFER_SIZE,
        ensures
            final(self).wf(),
            final(self)@ == old(self)@.push(byte),
            final(self).has_write_end() == old(self).has_write_end(),
    {
        let ghost c = self@;
        let ghost n = held(self.head as int, self.tail as int, self.status);
        let ghost h = self.head as int;
        let ghost old_arr = self.arr@;
        self.status = RingBufferStatus::Normal;
        self.arr[self.tail] = byte;
        self.tail = (self.tail + 1) % RING_BUFFER_SIZE;
        if self.tail == self.head {
            self.status = RingBufferStatus::Full;
        }
        proof {
            assert(c.len() == n);
            assert(old(self).tail == (h + n) % 32);
            assert(held(self.head as int, self.tail as int, self.status) == n + 1);
            assert forall|i: int| 0 <= i < n implies self@[i] == c[i] by {
                assert((h + i) % 32 != (h + n) % 32);
                assert(self.arr@[(h + i) % 32] == old_arr[(h + i) % 32]);
            }
            assert(self@ =~= c.push(byte));
        }
    }

    /// Take the first byte.
    pub fn read_byte(&mut self) -> (r: u8)
        requires
            old(self).wf(),
            old(self)@.len() > 0,
        ensures
            final(self).wf(),
            r == old(self)@[0],
            final(self)@ == old(self)@.subrange(1, old(self)@.len() as int),
            final(self).has_write_end() == old(self).has_write_end(),
    {
        let ghost c = self@;
        let ghost n = held(self.head as int, self.tail as int, self.status);
        let ghost h = self.head as int;
        self.status = RingBufferStatus::Normal;
        let r: u8 = self.arr[self.head];
        self.head = (self.head + 1) % RING_BUFFER_SIZE;
        if self.head == self.tail {
            self.status = RingBufferStatus::Empty;
        }
        proof {
            assert(held(self.head as int, self.tail as int, self.status) == n - 1);
            assert(h % 32 == h);
            assert forall|i: int| 0 <= i < n - 1 implies self@[i] == c[i + 1] by {
                assert((self.head + i) % 32 == (h + (i + 1)) % 32);
            }
            assert(self@ =~= c.subrange(1, c.len() as int));
        }
        r
    }

    /// How many bytes can be read.
    pub fn available_read(&self) -> (r: usize)
        requires
            self.wf(),
        ensures
            r == self@.len(),
    {
        if self.status == RingBufferStatus::Empty {
            0
        } else if self.tail > self.head {
            self.tail - self.head
        } else {
            self.tail + RING_BUFFER_SIZE - self.head
        }
    }

    /// How many bytes can be written.
    pub fn available_write(&self) -> (r: usize)
        requires
            self.wf(),
        ensures
            r == RING_BUFFER_SIZE - self@.len(),
    {
        if self.status == RingBufferStatus::Full {
            0
        } else {
            RING_BUFFER_SIZE - self.available_read()
        }
    }

    /// Whether the write end was closed: it was made, and nobody holds it any more.
    pub fn all_write_ends_closed(&self, held: bool) -> (r: bool)
        requires
            self.has_write_end(),
        ensures
            r == !held,
    {
        !held
    }

    /// A buffer never holds more than fits.
    pub proof fn law_capacity(&self)
        requires
            self.wf(),
        ensures
            self@.len() <= RING_BUFFER_SIZE,
    {
    }
}

/// IPC pipe: one of the two ends of the buffer with the given number.
#[derive(Copy, Clone, PartialEq, Eq, Debug, Structural)]
pub struct Pipe {
    pub readable: bool,
    pub writable: bool,
    pub buffer: usize,
}

impl File for Pipe {
    open spec fn can_read(&self) -> bool {
        self.readable
    }

    open spec fn can_write(&self) -> bool {
        self.writable
    }

    fn readable(&self) -> (r: bool) {
        self.readable
    }

    fn writable(&self) -> (r: bool) {
        self.writable
    }
}

/// What a process that reads from or writes to a pipe does next.
#[derive(Copy, Clone, PartialEq, Eq, Debug, Structural)]
pub enum PipeStep {
    /// It is done, with so many bytes.
    Done(usize),
    /// It has to wait, and try again.
    Wait,
}

/// How many bytes a reader gets: all that it wants, or all that there are.
pub open spec fn moved(have: int, want: int) -> int {
    if have < want {
        have
    } else {
        want
    }
}

impl Pipe {
    /// create readable pipe
    pub fn read_end_with_buffer(buffer: usize) -> (r: Self)
        ensures
            r == (Pipe { readable: true, writable: false, buffer }),
    {
        Pipe { readable: true, writable: false, buffer }
    }

    /// create writable pipe
    pub fn write_end_with_buffer(buffer: usize) -> (r: Self)
        ensures
            r == (Pipe { readable: false, writable: true, buffer }),
    {
        Pipe { readable: false, writable: true, buffer }
    }

    /// One round of a read that wants `want` bytes: append what the buffer has, as far as
    /// it is wanted, to what was read before. The read is done if it has all that it
    /// wants, or if the buffer is empty and nobody can write to it any more: `held` says
    /// whether some process holds the write end. A read of no bytes is done as soon as the
    /// buffer has some.
    pub fn read(
        &self,
        ring_buffer: &mut PipeRingBuffer,
        buf: &mut Vec<u8>,
        want: usize,
        held: bool,
    ) -> (r: PipeStep)
        requires
            self.readable,
            old(ring_buffer).wf(),
            old(ring_buffer).has_write_end(),
            old(buf)@.len() <= want,
        ensures
            final(ring_buffer).wf(),
            final(ring_buffer).has_write_end() == old(ring_buffer).has_write_end(),
            ({
                let c = old(ring_buffer)@;
                let n = moved(c.len() as int, want - old(buf)@.len());
                &&& final(buf)@ == old(buf)@ + c.take(n)
                &&& final(ring_buffer)@ == c.skip(n)
                &&& r == if c.len() > 0 && final(buf)@.len() == want {
                    PipeStep::Done(want)
                } else if !held {
                    PipeStep::Done(final(buf)@.len() as usize)
                } else {
                    PipeStep::Wait
                }
            }),
    {
        let ghost c = ring_buffer@;
        let ghost b0 = buf@;
        let loop_read: usize = ring_buffer.available_read();
        let mut i: usize = 0;
        assert(c.skip(0) =~= c);
        assert(b0 + c.take(0) =~= b0);
        while i < loop_read && buf.len() < want
            invariant
                i <= loop_read,
                loop_read == c.len(),
                ring_buffer.wf(),
                ring_buffer.has_write_end() == old(ring_buffer).has_write_end(),
                buf@ == b0 + c.take(i as int),
                buf@.len() <= want,
                ring_buffer@ == c.skip(i as int),
            decreases loop_read - i,
        {
            let byte: u8 = ring_buffer.read_byte();
            buf.push(byte);
            proof {
                assert(b0 + c.take(i + 1) =~= (b0 + c.take(i as int)).push(c[i as int]));
                assert(c.skip(i + 1) =~= c.skip(i as int).subrange(1, c.len() - i));
            }
            i += 1;
        }
        if loop_read > 0 && buf.len() == want {
            PipeStep::Done(want)
        } else if ring_buffer.all_write_ends_closed(held) {
            PipeStep::Done(buf.len())
        } else {
            PipeStep::Wait
        }
    }

    /// One round of a write: append to the buffer what fits of the data from `from` on. The
    /// write is done if all of the data was written. A write of no bytes is done as soon
    /// as there is room.
    pub fn write(&self, ring_buffer: &mut PipeRingBuffer, data: &[u8], from: usize) -> (r: (
        usize,
        PipeStep,
    ))
        requires
            self.writable,
            old(ring_buffer).wf(),
            from <= data@.len(),
        ensures
            final(ring_buffer).wf(),
            final(ring_buffer).has_write_end() == old(ring_buffer).has_write_end(),
            ({
                let c = old(ring_buffer)@;
                let n = moved(RING_BUFFER_SIZE - c.len(), data@.len() - from);
                &&& r.0 == from + n
                &&& final(ring_buffer)@ == c + data@.subrange(from as int, from + n)
                &&& r.1 == if c.len() < RING_BUFFER_SIZE && r.0 == data@.len() {
                    PipeStep::Done(data@.len() as usize)
                } else {
                    PipeStep::Wait
                }
            }),
    {
        let ghost c = ring_buffer@;
        let loop_write: usize = ring_buffer.available_write();
        let len: usize = data.len();
        let mut i: usize = 0;
        assert(c + data@.subrange(from as int, from as int) =~= c);
        while i < loop_write && from + i < len
            invariant
                i <= loop_write,
                loop_write == RING_BUFFER_SIZE - c.len(),
                len == data@.len(),
                from + i <= len,
                ring_buffer.wf(),
                ring_buffer.has_write_end() == old(ring_buffer).has_write_end(),
                ring_buffer@ == c + data@.subrange(from as int, from + i),
            decreases loop_write - i,
        {
            ring_buffer.write_byte(data[from + i]);
            proof {
                assert(c + data@.subrange(from as int, from + i + 1) =~= (c + data@.subrange(
                    from as int,
                    from + i,
                )).push(data@[from + i]));
            }
            i += 1;
        }
        if loop_write > 0 && from + i == len {
            (from + i, PipeStep::Done(len))
        } else {
            (from + i, PipeStep::Wait)
        }
    }
}

/// Return (read_end, write_end) of a new pipe with the given buffer number, and its buffer.
pub fn make_pipe(buffer: usize) -> (r: (Pipe, Pipe, PipeRingBuffer))
    ensures
        r.0 == (Pipe { readable: true, writable: false, buffer }),
        r.1 == (Pipe { readable: false, writable: true, buffer }),
        r.2.wf(),
        r.2@ == Seq::<u8>::empty(),
        r.2.has_write_end(),
{
    let mut ring_buffer: PipeRingBuffer = PipeRingBuffer::new();
    let read_end: Pipe = Pipe::read_end_with_buffer(buffer);
    let write_end: Pipe = Pipe::write_end_with_buffer(buffer);
    ring_buffer.set_write_end();
    (read_end, write_end, ring_buffer)
}

/// A round of writing the data from `from` on, or one of reading up to so many bytes.
pub enum PipeOp {
    Write { data: Seq<u8>, from: int },
    Read { want: int },
}

impl PipeOp {
    /// The write starts within its data, and the read does not want a negative number.
    pub open spec fn wf(self) -> bool {
        match self {
            PipeOp::Write { data, from } => 0 <= from <= data.len(),
            PipeOp::Read { want } => 0 <= want,
        }
    }

    /// The bytes that the round puts into a buffer with the contents `c`.
    pub open spec fn put(self, c: Seq<u8>) -> Seq<u8> {
        match self {
            PipeOp::Write { data, from } => data.subrange(
                from,
                from + moved(RING_BUFFER_SIZE - c.len(), data.len() - from),
            ),
            PipeOp::Read { want } => Seq::empty(),
        }
    }

    /// The bytes that the round takes out of a buffer with the contents `c`.
    pub open spec fn got(self, c: Seq<u8>) -> Seq<u8> {
        match self {
            PipeOp::Write { data, from } => Seq::empty(),
            PipeOp::Read { want } => c.take(moved(c.len() as int, want)),
        }
    }
}

/// The contents of a buffer after the first `n` rounds.
pub open spec fn contents_after(c: Seq<u8>, ops: Seq<PipeOp>, n: int) -> Seq<u8>
    decreases n,
{
    if n <= 0 {
        c
    } else {
        let b = contents_after(c, ops, n - 1);
        b.skip(ops[n - 1].got(b).len() as int) + ops[n - 1].put(b)
    }
}

/// All that the first `n` rounds put into the buffer.
pub open spec fn all_put(c: Seq<u8>, ops: Seq<PipeOp>, n: int) -> Seq<u8>
    decreases n,
{
    if n <= 0 {
        Seq::empty()
    } else {
        all_put(c, ops, n - 1) + ops[n - 1].put(contents_after(c, ops, n - 1))
    }
}

/// All that the first `n` rounds took out of the buffer.
pub open spec fn all_got(c: Seq<u8>, ops: Seq<PipeOp>, n: int) -> Seq<u8>
    decreases n,
{
    if n <= 0 {
        Seq::empty()
    } else {
        all_got(c, ops, n - 1) + ops[n - 1].got(contents_after(c, ops, n - 1))
    }
}

/// What comes out of a pipe is what went in, in the same order: whatever the rounds of
/// writing and reading are, the bytes that were read and those that are left are those that
/// were there at first and those that were written.
pub proof fn law_fifo(c: Seq<u8>, ops: Seq<PipeOp>, n: int)
    requires
        c.len() <= RING_BUFFER_SIZE,
        0 <= n <= ops.len(),
        forall|i: int| 0 <= i < n ==> (#[trigger] ops[i]).wf(),
    ensures
        all_got(c, ops, n) + contents_after(c, ops, n) == c + all_put(c, ops, n),
        contents_after(c, ops, n).len() <= RING_BUFFER_SIZE,
    decreases n,
{
    if n > 0 {
        law_fifo(c, ops, n - 1);
        let b = contents_after(c, ops, n - 1);
        let op = ops[n - 1];
        assert(op.wf());
        let g = all_got(c, ops, n - 1);
        assert(op.got(b) =~= b.take(op.got(b).len() as int));
        assert(g + op.got(b) + (b.skip(op.got(b).len() as int) + op.put(b)) =~= (g + b) + op.put(b));
        assert((c + all_put(c, ops, n - 1)) + op.put(b) =~= c + all_put(c, ops, n));
    } else {
        assert(all_got(c, ops, n) + contents_after(c, ops, n) =~= c + all_put(c, ops, n));
    }
}

/// A round of a pipe moves all that is wanted or all that there is, and no more.
pub proof fn law_moved(have: int, want: int)
    ensures
        moved(have, want) <= have,
        moved(have, want) <= want,
        moved(have, want) == have || moved(have, want) == want,
{
}

} // verus!
