//! What holds of files, pipes and descriptors over several operations.
use super::fs::{
    bytes_read, can_read, can_write, end_held, handle, holds_end, inode_read, inode_written, is_end,
    open_done, pipe_read, pipe_read_step, pipe_write_step, pipe_written, piped, with_fd, write_fd,
    FileStep,
};
use crate::easy_fs::disk::{file, inode, live, same_file};
use crate::easy_fs::layout::{padded_name, DiskInodeType, EntryModel};
use crate::easy_fs::tree::{entries, find_from, lemma_find_from, name_of};
use crate::fs::inode::{law_access, opened, OSInode, OpenFlags};
use crate::fs::pipe::{Pipe, PipeRingBuffer, RING_BUFFER_SIZE};
use crate::mm::address::VA_SPACE;
use crate::mm::owner::law_no_alias;
use crate::mm::user::{law_user_read_after_write, range_reachable, user_bytes};
use crate::task::kernel::{lemma_current, lemma_same_index, same_pids, KernelModel};
use crate::task::task::{first_free, lemma_first_free, FileHandle, TaskModel};
use vstd::prelude::*;

verus! {

/// A new descriptor is the smallest number that leads to nothing. It leads to what it was made
/// for, and all others lead to what they led to.
pub proof fn law_new_descriptor(fds: Seq<Option<FileHandle>>, h: FileHandle)
    ensures
        ({
            let n = first_free(fds, 0);
            let fds2 = with_fd(fds, h);
            &&& 0 <= n <= fds.len()
            &&& forall|j: int| 0 <= j < n ==> (#[trigger] fds[j]) is Some
            &&& n < fds.len() ==> fds[n] is None
            &&& fds2.len() == if n < fds.len() {
                fds.len()
            } else {
                fds.len() + 1
            }
            &&& fds2[n] == Some(h)
            &&& forall|j: int| 0 <= j < fds.len() && j != n ==> #[trigger] fds2[j] == fds[j]
        }),
{
    lemma_first_free(fds, 0);
}

/// Changing the descriptors of the current process changes nothing else.
pub proof fn law_descriptors_only(k: KernelModel, fds: Seq<Option<FileHandle>>)
    requires
        k.wf(),
        k.runs(),
    ensures
        ({
            let k2 = k.with_fds(fds);
            &&& k2 == (KernelModel { tasks: k2.tasks, ..k })
            &&& k2.tasks.len() == k.tasks.len()
            &&& k2.at() == k.at()
            &&& k2.task() == (TaskModel { fds, ..k.task() })
            &&& forall|j: int|
                0 <= j < k.tasks.len() && j != k.at() ==> #[trigger] k2.tasks[j] == k.tasks[j]
            &&& forall|fd: usize|
                #[trigger] handle(k2, fd) == if fd < fds.len() {
                    fds[fd as int]
                } else {
                    None
                }
        }),
{
    let k2 = k.with_fds(fds);
    lemma_current(k);
    assert(same_pids(k.tasks, k2.tasks));
    lemma_same_index(k.tasks, k2.tasks, k.current->0, 0);
}

/// A copy of a descriptor leads to the same thing, so that offsets and ends of pipes are
/// shared, and closing one of the two leaves the other.
#[verifier::spinoff_prover]
#[verifier::rlimit(60)]
pub proof fn law_dup_and_close(k: KernelModel, fd: usize, h: FileHandle)
    requires
        k.wf(),
        k.runs(),
        handle(k, fd) == Some(h),
        k.task().fds.len() < usize::MAX,
    ensures
        ({
            let n = first_free(k.task().fds, 0) as usize;
            let k2 = k.with_fds(with_fd(k.task().fds, h));
            let left = k2.with_fds(k2.task().fds.update(fd as int, None));
            let undone = k2.with_fds(k2.task().fds.update(n as int, None));
            &&& n != fd
            &&& handle(k, n) is None
            &&& handle(k2, n) == Some(h)
            &&& forall|e: usize| e != n ==> #[trigger] handle(k2, e) == handle(k, e)
            &&& left.task().fds[n as int] == Some(h)
            &&& left.task().fds[fd as int] is None
            &&& undone.task().fds[fd as int] == Some(h)
            &&& undone.task().fds[n as int] is None
        }),
{
    let fds = k.task().fds;
    law_new_descriptor(fds, h);
    let k2 = k.with_fds(with_fd(fds, h));
    law_descriptors_only(k, with_fd(fds, h));
    lemma_current(k);
    let n = first_free(fds, 0);
    let a = k2.task().fds.update(fd as int, None);
    let b = k2.task().fds.update(n, None);
    assert(same_pids(k2.tasks, k2.with_fds(a).tasks));
    lemma_same_index(k2.tasks, k2.with_fds(a).tasks, k.current->0, 0);
    assert(same_pids(k2.tasks, k2.with_fds(b).tasks));
    lemma_same_index(k2.tasks, k2.with_fds(b).tasks, k.current->0, 0);
}

/// Opening a file by name. The first entry with the name is the one. With the creating flag
/// (bit 9) or the truncating flag (bit 10) the file is empty then, and without them nothing
/// changes. If no entry has the name, the creating flag makes a new empty file with it, and
/// without that flag nothing is opened and nothing changes. All other files keep their bytes.
#[verifier::spinoff_prover]
#[verifier::rlimit(60)]
pub proof fn law_open_by_name(
    d: Seq<Seq<u8>>,
    d2: Seq<Seq<u8>>,
    name: Seq<u8>,
    flags: OpenFlags,
    r: Option<int>,
)
    requires
        opened(d, d2, name, flags, r),
    ensures
        ({
            let es = entries(d, 0);
            let create = flags.bits & 0x200 == 0x200;
            let truncate = flags.bits & 0x400 == 0x400;
            &&& forall|i: int|
                0 <= i < es.len() && name_of(#[trigger] es[i]) == name && (forall|j: int|
                    0 <= j < i ==> name_of(#[trigger] es[j]) != name) ==> {
                    let id = es[i].inode_id as int;
                    &&& r == Some(id)
                    &&& create || truncate ==> file(d2, id) == Seq::<u8>::empty()
                    &&& !create && !truncate ==> d2 == d
                    &&& forall|j: int|
                        j != id && live(d, j) ==> #[trigger] file(d2, j) == file(d, j) && inode(
                            d2,
                            j,
                        ) == inode(d, j) && live(d2, j)
                }
            &&& (forall|i: int| 0 <= i < es.len() ==> name_of(#[trigger] es[i]) != name) ==> {
                &&& !create ==> r is None && d2 == d
                &&& create ==> {
                    &&& r is Some
                    &&& !live(d, r->0)
                    &&& file(d2, r->0) == Seq::<u8>::empty()
                    &&& inode(d2, r->0).kind == DiskInodeType::File
                    &&& inode(d2, r->0).nlink == 1
                    &&& entries(d2, 0) == es.push(
                        EntryModel { name: padded_name(name), inode_id: r->0 as u32 },
                    )
                    &&& forall|j: int|
                        j != 0 && live(d, j) ==> #[trigger] file(d2, j) == file(d, j) && inode(
                            d2,
                            j,
                        ) == inode(d, j) && live(d2, j)
                }
            }
        }),
{
    let es = entries(d, 0);
    lemma_find_from(es, name, 0);
    let f = find_from(es, name, 0);
    if f < es.len() {
        let id = es[f].inode_id as int;
        assert forall|i: int|
            0 <= i < es.len() && name_of(#[trigger] es[i]) == name && (forall|j: int|
                0 <= j < i ==> name_of(#[trigger] es[j]) != name) implies i == f by {
            if f < i {
                assert(name_of(es[f]) != name);
            }
        }
        if d2 != d {
            assert forall|j: int| j != id && live(d, j) implies #[trigger] file(d2, j) == file(d, j)
                && inode(d2, j) == inode(d, j) && live(d2, j) by {
                assert(same_file(d, d2, j));
            }
        }
    } else {
        if d2 != d {
            assert forall|j: int| j != 0 && live(d, j) implies #[trigger] file(d2, j) == file(d, j)
                && inode(d2, j) == inode(d, j) && live(d2, j) by {
                assert(same_file(d, d2, j));
            }
        }
    }
}

/// A file that was opened: its descriptor is the smallest free one, and leads to a file that
/// stands at its start. It can be written exactly if some flag was given, and read exactly if
/// it was not opened for writing only (bit 0).
#[verifier::spinoff_prover]
#[verifier::rlimit(60)]
pub proof fn law_open_descriptor(
    k: KernelModel,
    k2: KernelModel,
    flags: u32,
    id: int,
    r: isize,
)
    requires
        k.wf(),
        k.runs(),
        k.task().fds.len() < isize::MAX,
        k.inodes.len() < usize::MAX,
        open_done(k, k2, flags, Some(id), r),
    ensures
        r >= 0,
        handle(k, r as usize) is None,
        forall|fd: usize| fd < r ==> (#[trigger] handle(k, fd)) is Some,
        forall|fd: usize| fd != r ==> #[trigger] handle(k2, fd) == handle(k, fd),
        handle(k2, r as usize) matches Some(FileHandle::Inode(n)) && {
            let f = k2.inodes[n as int];
            &&& n == k.inodes.len()
            &&& k2.inodes == k.inodes.push(f)
            &&& f.inode.id() == id
            &&& f.offset == 0
        },
        can_write(k2, handle(k2, r as usize)->0) <==> flags != 0,
        can_read(k2, handle(k2, r as usize)->0) <==> flags & 1 == 0,
        forall|j: int|
            0 <= j < k.tasks.len() && j != k.at() ==> #[trigger] k2.tasks[j] == k.tasks[j],
{
    let fds = k.task().fds;
    let n = k.inodes.len();
    let h = FileHandle::Inode(n as usize);
    law_new_descriptor(fds, h);
    law_access(OpenFlags { bits: flags });
    lemma_current(k);
    assert(same_pids(k.tasks, k2.tasks));
    lemma_same_index(k.tasks, k2.tasks, k.current->0, 0);
    assert(k2.task().fds == with_fd(fds, h));
}

/// What leads to the input of the console can be read and not written, and what leads to its
/// output can be written and not read. What leads to a file or to an end of a pipe can be read
/// and written as that was opened.
pub proof fn law_access_of_handles(k: KernelModel, n: usize, p: Pipe)
    ensures
        can_read(k, FileHandle::Inode(n)) == k.inodes[n as int].readable,
        can_write(k, FileHandle::Inode(n)) == k.inodes[n as int].writable,
        can_read(k, FileHandle::Pipe(p)) == p.readable,
        can_write(k, FileHandle::Pipe(p)) == p.writable,
        can_read(k, FileHandle::Stdin) && !can_write(k, FileHandle::Stdin),
        can_write(k, FileHandle::Stdout) && !can_read(k, FileHandle::Stdout),
{
}

/// A write to an open file puts the bytes at its offset, which moves behind them. Bytes before
/// and behind them stay, a gap before them reads as zero, and the file is as long as need be.
/// All other files and all other offsets stay as they are.
#[verifier::spinoff_prover]
#[verifier::rlimit(60)]
pub proof fn law_file_written(
    k: KernelModel,
    k2: KernelModel,
    d: Seq<Seq<u8>>,
    d2: Seq<Seq<u8>>,
    n: int,
    data: Seq<u8>,
)
    requires
        0 <= n < k.inodes.len(),
        k.inodes[n].offset + data.len() <= usize::MAX,
        data.len() > 0,
        inode_written(k, k2, d, d2, n, data),
    ensures
        ({
            let f = k.inodes[n];
            let f2 = k2.inodes[n];
            let a = file(d, f.inode.id());
            let b = file(d2, f.inode.id());
            let off = f.offset as int;
            &&& f2 == (OSInode { offset: f2.offset, ..f })
            &&& f2.offset == off + data.len()
            &&& b.len() == if off + data.len() > a.len() {
                off + data.len()
            } else {
                a.len() as int
            }
            &&& b.subrange(off, off + data.len()) == data
            &&& forall|i: int| 0 <= i < off && i < a.len() ==> #[trigger] b[i] == a[i]
            &&& forall|i: int| off + data.len() <= i < a.len() ==> #[trigger] b[i] == a[i]
            &&& forall|i: int| a.len() <= i < off ==> #[trigger] b[i] == 0
            &&& forall|j: int|
                0 <= j < k.inodes.len() && j != n ==> #[trigger] k2.inodes[j] == k.inodes[j]
            &&& k2 == (KernelModel { inodes: k2.inodes, ..k })
            &&& forall|j: int|
                j != f.inode.id() && live(d, j) ==> #[trigger] file(d2, j) == file(d, j)
        }),
{
    let f = k.inodes[n];
    let b = file(d2, f.inode.id());
    assert(b.subrange(f.offset as int, f.offset + data.len()) =~= data);
    assert forall|j: int| j != f.inode.id() && live(d, j) implies #[trigger] file(d2, j) == file(
        d,
        j,
    ) by {
        assert(same_file(d, d2, j));
    }
}

/// A read of an open file gets the bytes from its offset on: as many as it wants, or all that
/// are left. They are in the memory of the process then, and the offset is behind them.
#[verifier::spinoff_prover]
#[verifier::rlimit(60)]
pub proof fn law_file_read(k: KernelModel, d: Seq<Seq<u8>>, n: int, buf: usize, len: usize)
    requires
        k.wf(),
        k.runs(),
        0 <= n < k.inodes.len(),
        len <= VA_SPACE,
        k.inodes[n].offset + len <= usize::MAX,
        range_reachable(k.task().space, k.machine.mem, buf as int, len as int),
    ensures
        ({
            let f = k.inodes[n];
            let a = file(d, f.inode.id());
            let got = bytes_read(f, d, len);
            let k2 = inode_read(k, n, got, buf);
            &&& got.len() == if f.offset >= a.len() {
                0
            } else if f.offset + len <= a.len() {
                len as int
            } else {
                a.len() - f.offset
            }
            &&& forall|i: int| 0 <= i < got.len() ==> #[trigger] got[i] == a[f.offset + i]
            &&& user_bytes(k2.task().space, k2.machine.mem, buf as int, got.len() as int) == got
            &&& k2.inodes[n] == (OSInode { offset: (f.offset + got.len()) as usize, ..f })
            &&& forall|j: int|
                0 <= j < k.inodes.len() && j != n ==> #[trigger] k2.inodes[j] == k.inodes[j]
            &&& k2.tasks == k.tasks
            &&& k2.pipes == k.pipes
        }),
{
    let got = bytes_read(k.inodes[n], d, len);
    lemma_current(k);
    assert(range_reachable(k.task().space, k.machine.mem, buf as int, got.len() as int));
    law_no_alias(k.task().space, k.machine.mem, buf as int, got.len() as int);
    law_user_read_after_write(k.task().space, k.machine.mem, buf as int, got);
}

/// A new pipe: the two smallest free descriptors lead to its two ends. The first can be read
/// and not written, the second written and not read, and both lead to a buffer that no
/// descriptor led to before.
#[verifier::spinoff_prover]
#[verifier::rlimit(60)]
pub proof fn law_pipe_made(k: KernelModel, ring: PipeRingBuffer)
    requires
        k.wf(),
        k.runs(),
        k.task().fds.len() + 1 < usize::MAX,
        k.pipes.len() < usize::MAX,
    ensures
        ({
            let k2 = piped(k, ring);
            let r = first_free(k.task().fds, 0) as usize;
            let w = write_fd(k) as usize;
            let b = k.pipes.len();
            &&& r < w
            &&& k2.pipes == k.pipes.push(ring)
            &&& handle(k, r) is None && handle(k, w) is None
            &&& forall|fd: usize| fd < w && fd != r ==> (#[trigger] handle(k, fd)) is Some
            &&& handle(k2, r) matches Some(FileHandle::Pipe(p)) && p.buffer == b && p.readable
                && !p.writable
            &&& handle(k2, w) matches Some(FileHandle::Pipe(p)) && p.buffer == b && p.writable
                && !p.readable
            &&& forall|fd: usize|
                fd != r && fd != w ==> #[trigger] handle(k2, fd) == handle(k, fd)
            &&& forall|j: int|
                0 <= j < k.tasks.len() && j != k.at() ==> #[trigger] k2.tasks[j] == k.tasks[j]
        }),
{
    let fds = k.task().fds;
    let b = k.pipes.len() as usize;
    let hr = FileHandle::Pipe(Pipe { readable: true, writable: false, buffer: b });
    let hw = FileHandle::Pipe(Pipe { readable: false, writable: true, buffer: b });
    law_new_descriptor(fds, hr);
    let fds1 = with_fd(fds, hr);
    law_new_descriptor(fds1, hw);
    let r = first_free(fds, 0);
    let w = first_free(fds1, 0);
    lemma_current(k);
    let k2 = piped(k, ring);
    assert(same_pids(k.tasks, k2.tasks));
    lemma_same_index(k.tasks, k2.tasks, k.current->0, 0);
    assert(k2.task().fds == with_fd(fds1, hw));
    assert(r != w);
    if w < r {
        assert(fds1[w] == fds[w]);
    }
    assert forall|fd: usize| fd < w && fd != r implies (#[trigger] handle(k, fd)) is Some by {
        assert(fds1[fd as int] is Some);
        assert(fd < fds.len());
        assert(fds1[fd as int] == fds[fd as int]);
    }
    assert(handle(k, w as usize) is None) by {
        if w < fds.len() {
            assert(fds1[w] == fds[w]);
        }
    }
}

/// A round of writing to a pipe puts the next bytes behind those that are in it: all that are
/// left, or as many as there is room for. It is done exactly if all were written and there was
/// room at all, and else it waits with so many done.
#[verifier::spinoff_prover]
#[verifier::rlimit(60)]
pub proof fn law_pipe_write(
    k: KernelModel,
    k2: KernelModel,
    b: int,
    data: Seq<u8>,
    done: int,
)
    requires
        0 <= b < k.pipes.len(),
        k.pipes[b]@.len() <= RING_BUFFER_SIZE,
        0 <= done <= data.len() <= isize::MAX,
        pipe_written(k, k2, b, data, done),
    ensures
        ({
            let c = k.pipes[b]@;
            let c2 = k2.pipes[b]@;
            let n = c2.len() - c.len();
            let step = pipe_write_step(c, data.len() as int, done);
            &&& 0 <= n <= data.len() - done
            &&& c2.len() <= RING_BUFFER_SIZE
            &&& n == data.len() - done || c2.len() == RING_BUFFER_SIZE
            &&& c2 == c + data.subrange(done, done + n)
            &&& step == if c.len() < RING_BUFFER_SIZE && done + n == data.len() {
                FileStep::Done(data.len() as isize)
            } else {
                FileStep::Wait((done + n) as usize)
            }
            &&& k2 == (KernelModel { pipes: k2.pipes, ..k })
            &&& forall|j: int|
                0 <= j < k.pipes.len() && j != b ==> #[trigger] k2.pipes[j] == k.pipes[j]
        }),
{
}

/// A round of reading from a pipe takes the first bytes that are in it: as many as are wanted,
/// or all that there are, and puts them behind those of earlier rounds. It is done if it has
/// all that it wants, or if nobody can write any more, and else it waits.
#[verifier::spinoff_prover]
#[verifier::rlimit(60)]
pub proof fn law_pipe_read(
    k: KernelModel,
    b: int,
    ring: PipeRingBuffer,
    buf: usize,
    len: usize,
    done: usize,
    held: bool,
)
    requires
        k.wf(),
        k.runs(),
        0 <= b < k.pipes.len(),
        done <= len <= isize::MAX,
        len <= VA_SPACE,
        range_reachable(k.task().space, k.machine.mem, buf as int, len as int),
    ensures
        ({
            let c = k.pipes[b]@;
            let n = if c.len() < len - done {
                c.len() as int
            } else {
                len - done
            };
            let k2 = pipe_read(k, b, ring, buf, len, done);
            let step = pipe_read_step(c, len as int, done as int, held);
            &&& user_bytes(k2.task().space, k2.machine.mem, buf + done, n) == c.take(n)
            &&& k2.tasks == k.tasks
            &&& k2.pipes == k.pipes.update(b, ring)
            &&& step == if (c.len() > 0 && done + n == len) || !held {
                FileStep::Done((done + n) as isize)
            } else {
                FileStep::Wait((done + n) as usize)
            }
        }),
{
    let c = k.pipes[b]@;
    let n = if c.len() < len - done {
        c.len() as int
    } else {
        len - done
    };
    let data = c.take(n);
    lemma_current(k);
    assert(range_reachable(k.task().space, k.machine.mem, buf + done, n));
    law_no_alias(k.task().space, k.machine.mem, buf + done, n);
    law_user_read_after_write(k.task().space, k.machine.mem, buf + done, data);
}

/// A pipe can still be written exactly if some descriptor of some process leads to its write
/// end. Those that lead to the read end, to another pipe or to another file do not count.
pub proof fn law_write_end_held(ts: Seq<TaskModel>, b: usize)
    ensures
        end_held(ts, b) <==> exists|i: int, fd: int|
            0 <= i < ts.len() && 0 <= fd < ts[i].fds.len() && ((
            #[trigger] ts[i].fds[fd]) matches Some(FileHandle::Pipe(p)) && p.writable && p.buffer
                == b),
{
    if end_held(ts, b) {
        let i = choose|i: int| 0 <= i < ts.len() && holds_end((#[trigger] ts[i]).fds, b);
        let fd = choose|fd: int| 0 <= fd < ts[i].fds.len() && is_end(#[trigger] ts[i].fds[fd], b);
        assert(is_end(ts[i].fds[fd], b));
    }
    if exists|i: int, fd: int|
        0 <= i < ts.len() && 0 <= fd < ts[i].fds.len() && ((
        #[trigger] ts[i].fds[fd]) matches Some(FileHandle::Pipe(p)) && p.writable && p.buffer
            == b) {
        let (i, fd) = choose|i: int, fd: int|
            0 <= i < ts.len() && 0 <= fd < ts[i].fds.len() && ((
            #[trigger] ts[i].fds[fd]) matches Some(FileHandle::Pipe(p)) && p.writable && p.buffer
                == b);
        assert(is_end(ts[i].fds[fd], b));
        assert(holds_end(ts[i].fds, b));
    }
}

} // verus!
