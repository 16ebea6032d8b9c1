//! What the system calls on descriptors come to.
use super::file_laws::{law_new_descriptor, law_pipe_made};
use super::fs::{
    can_read, can_write, close_done, dup_done, handle, pipe_done, piped, read_done, with_fd,
    write_done, write_fd, FileStep,
};
use crate::easy_fs::bytes::{le64_bytes, lemma_le64_of_bytes};
use crate::fs::file::joined;
use crate::fs::pipe::Pipe;
use crate::mm::frame_allocator::MemoryModel;
use crate::mm::owner::{all_framed, law_no_alias, trampoline_outside};
use crate::mm::space::SpaceModel;
use crate::mm::user::{
    law_user_read_after_write, lemma_page_pieces, page_pieces, range_reachable, user_byte,
    user_bytes, user_word, with_bytes,
};
use crate::task::current::law_current_reads_back;
use crate::task::kernel::{lemma_current, lemma_same_index, same_pids, KernelModel};
use crate::task::task::{first_free, lemma_first_free, FileHandle};
use vstd::prelude::*;

verus! {

/// A descriptor that was closed leads to nothing, and all others lead where they led. One that
/// led to nothing cannot be closed, and nothing changes.
#[verifier::spinoff_prover]
#[verifier::rlimit(60)]
pub proof fn law_close(k: KernelModel, k2: KernelModel, fd: usize, r: isize, other: usize)
    requires
        k.wf(),
        k.runs(),
        close_done(k, k2, fd, r),
    ensures
        r == 0 || r == -1,
        r == 0 <==> handle(k, fd) is Some,
        r == -1 ==> k2 == k,
        handle(k2, fd) is None,
        other != fd ==> handle(k2, other) == handle(k, other),
        k2.tasks[k.at()].fds.len() == k.task().fds.len(),
{
    lemma_current(k);
    assert(same_pids(k.tasks, k2.tasks));
    lemma_same_index(k.tasks, k2.tasks, k.current->0, 0);
}

/// A copy of a descriptor is the smallest number that led to nothing. It leads where the
/// descriptor leads, and all others lead where they led. One that leads to nothing cannot be
/// copied, and nothing changes.
#[verifier::spinoff_prover]
#[verifier::rlimit(60)]
pub proof fn law_dup(k: KernelModel, k2: KernelModel, fd: usize, r: isize, other: usize)
    requires
        k.wf(),
        k.runs(),
        k.task().fds.len() < isize::MAX,
        dup_done(k, k2, fd, r),
    ensures
        r == -1 <==> handle(k, fd) is None,
        r == -1 ==> k2 == k,
        r != -1 ==> {
            &&& r >= 0
            &&& handle(k, r as usize) is None
            &&& handle(k2, r as usize) == handle(k, fd)
            &&& other < r ==> handle(k, other) is Some
            &&& other != r ==> handle(k2, other) == handle(k, other)
        },
{
    lemma_current(k);
    lemma_first_free(k.task().fds, 0);
    if handle(k, fd) is Some {
        law_new_descriptor(k.task().fds, handle(k, fd)->0);
    }
    assert(same_pids(k.tasks, k2.tasks));
    lemma_same_index(k.tasks, k2.tasks, k.current->0, 0);
}

/// A new pipe is empty. The process finds the descriptor of its read end at the address that
/// it gave, and that of its write end eight bytes behind.
#[verifier::spinoff_prover]
#[verifier::rlimit(60)]
pub proof fn law_pipe_call(k: KernelModel, k2: KernelModel, pipe: usize)
    requires
        k.wf(),
        k.runs(),
        k.task().fds.len() + 1 < usize::MAX,
        k.pipes.len() < usize::MAX,
        pipe + 16 <= usize::MAX,
        range_reachable(k.task().space, k.machine.mem, pipe as int, 16),
        pipe_done(k, k2, pipe),
    ensures
        ({
            let s = k.task().space;
            let r = user_word(s, k2.machine.mem, pipe as int);
            let w = user_word(s, k2.machine.mem, pipe + 8);
            let b = k.pipes.len();
            &&& r < w
            &&& handle(k, r) is None && handle(k, w) is None
            &&& handle(k2, r) matches Some(FileHandle::Pipe(p)) && p.buffer == b && p.readable
                && !p.writable
            &&& handle(k2, w) matches Some(FileHandle::Pipe(p)) && p.buffer == b && p.writable
                && !p.readable
            &&& k2.pipes.len() == b + 1
            &&& k2.pipes[b as int]@.len() == 0
            &&& forall|i: int| 0 <= i < b ==> #[trigger] k2.pipes[i] == k.pipes[i]
        }),
{
    let ring = k2.pipes[k.pipes.len() as int];
    let k1 = piped(k, ring);
    law_pipe_made(k, ring);
    lemma_pipe_memory(k, k2, pipe);
    assert(handle(k2, user_word(k.task().space, k2.machine.mem, pipe as int)) == handle(
        k1,
        first_free(k.task().fds, 0) as usize,
    ));
    assert(handle(k2, user_word(k.task().space, k2.machine.mem, pipe + 8)) == handle(
        k1,
        write_fd(k) as usize,
    ));
}

/// What the call for a pipe leaves in the memory of the process.
#[verifier::spinoff_prover]
#[verifier::rlimit(60)]
proof fn lemma_pipe_memory(k: KernelModel, k2: KernelModel, pipe: usize)
    requires
        k.wf(),
        k.runs(),
        k.task().fds.len() + 1 < usize::MAX,
        range_reachable(k.task().space, k.machine.mem, pipe as int, 16),
        pipe_done(k, k2, pipe),
    ensures
        ({
            let s = k.task().space;
            let k1 = piped(k, k2.pipes[k.pipes.len() as int]);
            &&& user_word(s, k2.machine.mem, pipe as int) == first_free(k.task().fds, 0)
            &&& user_word(s, k2.machine.mem, pipe + 8) == write_fd(k)
            &&& k2.tasks == k1.tasks
            &&& k2.current == k1.current
            &&& k2.pipes == k1.pipes
        }),
{
    let ring = k2.pipes[k.pipes.len() as int];
    let k1 = piped(k, ring);
    let fds = k.task().fds;
    let p = Pipe { readable: true, writable: false, buffer: k.pipes.len() as usize };
    lemma_current(k);
    lemma_first_free(fds, 0);
    law_new_descriptor(fds, FileHandle::Pipe(p));
    lemma_first_free(with_fd(fds, FileHandle::Pipe(p)), 0);
    assert(same_pids(k.tasks, k1.tasks));
    lemma_same_index(k.tasks, k1.tasks, k.current->0, 0);
    assert(k1.task().space == k.task().space);
    lemma_two_words(
        k.task().space,
        k.machine.mem,
        pipe as int,
        first_free(fds, 0) as u64,
        write_fd(k) as u64,
    );
}

/// Two numbers that were written one behind the other are read back.
#[verifier::spinoff_prover]
#[verifier::rlimit(60)]
proof fn lemma_two_words(s: SpaceModel, m: MemoryModel, v: int, x: u64, y: u64)
    requires
        m.wf(),
        s.wf(m),
        all_framed(s),
        trampoline_outside(s, m),
        range_reachable(s, m, v, 16),
    ensures
        ({
            let m1 = with_bytes(s, m, v, le64_bytes(x));
            let m2 = with_bytes(s, m1, v + 8, le64_bytes(y));
            user_word(s, m2, v) == x as usize && user_word(s, m2, v + 8) == y as usize
        }),
{
    let a = le64_bytes(x);
    let b = le64_bytes(y);
    lemma_written_behind(s, m, v, a, b);
    let m2 = with_bytes(s, m, v, a + b);
    law_no_alias(s, m, v, 16);
    law_user_read_after_write(s, m, v, a + b);
    let all = user_bytes(s, m2, v, 16);
    assert(all == a + b);
    assert(user_bytes(s, m2, v, 8) =~= a) by {
        assert forall|i: int| 0 <= i < 8 implies user_byte(s, m2, v + i) == a[i] by {
            assert(all[i] == a[i]);
        }
    }
    assert(user_bytes(s, m2, v + 8, 8) =~= b) by {
        assert forall|i: int| 0 <= i < 8 implies user_byte(s, m2, v + 8 + i) == b[i] by {
            assert(all[8 + i] == b[i]);
        }
    }
    lemma_le64_of_bytes(x);
    lemma_le64_of_bytes(y);
}

/// Writing one piece and another right behind it is writing both.
proof fn lemma_written_behind(s: SpaceModel, m: MemoryModel, v: int, a: Seq<u8>, b: Seq<u8>)
    ensures
        with_bytes(s, with_bytes(s, m, v, a), v + a.len(), b) == with_bytes(s, m, v, a + b),
    decreases b.len(),
{
    if b.len() > 0 {
        lemma_written_behind(s, m, v, a, b.drop_last());
        assert((a + b).drop_last() =~= a + b.drop_last());
        assert((a + b).last() == b.last());
    } else {
        assert(a + b =~= a);
    }
}

/// Reading or writing through a descriptor that leads to nothing, or to something that cannot
/// be read or written, is refused with -1, and nothing changes.
pub proof fn law_refused(
    k: KernelModel,
    k2: KernelModel,
    d: Seq<Seq<u8>>,
    d2: Seq<Seq<u8>>,
    fd: usize,
    buf: usize,
    len: usize,
    done: usize,
    c: usize,
    r: FileStep,
)
    ensures
        write_done(k, k2, d, d2, fd, buf, len, done, r) && (handle(k, fd) is None || !can_write(
            k,
            handle(k, fd)->0,
        )) ==> r == FileStep::Done((-1int) as isize) && k2 == k && d2 == d,
        read_done(k, k2, d, fd, buf, len, done, c, r) && (handle(k, fd) is None || !can_read(
            k,
            handle(k, fd)->0,
        )) ==> r == FileStep::Done((-1int) as isize) && k2 == k,
{
}

/// A read from the console waits as long as nothing was typed. Then the process finds the byte
/// that was typed in its buffer, and has read one byte.
pub proof fn law_console_read(
    k: KernelModel,
    k2: KernelModel,
    d: Seq<Seq<u8>>,
    fd: usize,
    buf: usize,
    done: usize,
    c: usize,
    r: FileStep,
)
    requires
        k.wf(),
        k.runs(),
        handle(k, fd) == Some(FileHandle::Stdin),
        range_reachable(k.task().space, k.machine.mem, buf as int, 1),
        c < 256,
        read_done(k, k2, d, fd, buf, 1, done, c, r),
    ensures
        c == 0 ==> r == FileStep::Wait(0) && k2 == k,
        c != 0 ==> r == FileStep::Done(1) && user_byte(
            k.task().space,
            k2.machine.mem,
            buf as int,
        ) == c,
{
    let s = k.task().space;
    if c != 0 {
        law_current_reads_back(k, buf as int, seq![(c % 256) as u8]);
        assert(user_bytes(s, k2.machine.mem, buf as int, 1)[0] == (c % 256) as u8);
    }
}

/// A write to the console prints the bytes of the buffer, in order and all of them, and changes
/// nothing.
pub proof fn law_console_write(
    k: KernelModel,
    k2: KernelModel,
    d: Seq<Seq<u8>>,
    d2: Seq<Seq<u8>>,
    fd: usize,
    buf: usize,
    len: usize,
    done: usize,
    r: FileStep,
)
    requires
        handle(k, fd) == Some(FileHandle::Stdout),
        write_done(k, k2, d, d2, fd, buf, len, done, r),
    ensures
        k2 == k,
        d2 == d,
        r matches FileStep::Print(v, n) && n == len && exists|p: Seq<Seq<u8>>|
            {
                &&& #[trigger] joined(p, p.len() as int) == user_bytes(
                    k.task().space,
                    k.machine.mem,
                    buf as int,
                    len as int,
                )
                &&& v@.len() == p.len()
                &&& forall|i: int|
                    0 <= i < p.len() ==> (#[trigger] v@[i])@ == vstd::utf8::decode_utf8(p[i])
            },
{
    let p = page_pieces(k.task().space, k.machine.mem, buf as int, len as int);
    lemma_page_pieces(k.task().space, k.machine.mem, buf as int, len as int);
    assert(joined(p, p.len() as int) == user_bytes(
        k.task().space,
        k.machine.mem,
        buf as int,
        len as int,
    ));
}

} // verus!
