//! File and filesystem-related syscalls
use super::process::{file_named, path_read};
use crate::easy_fs::block_dev::BlockDevice;
use crate::easy_fs::bytes::{le64_bytes, Record};
use crate::easy_fs::disk::{file, inode, inode_exists, live, others_same};
use crate::easy_fs::efs::EasyFileSystem;
use crate::easy_fs::layout::{transfer_len, DIRENT_SZ, NAME_LENGTH_LIMIT};
use crate::easy_fs::tree::{entries, find_from, lemma_find_from, tree_ok};
use crate::easy_fs::vfs::room;
use crate::fs::file::{lemma_joined_len, File, UserBuffer};
use crate::fs::inode::{
    access_of, has_flags, law_read_pieces, open_file, opened, written, OSInode, OpenFlags,
    ALL_FLAGS, CREATE,
};
use crate::fs::pipe::{make_pipe, moved, Pipe, PipeRingBuffer, PipeStep, RING_BUFFER_SIZE};
use crate::fs::stdio::{Stdin, Stdout};
use crate::mm::frame_allocator::MemoryModel;
use crate::mm::owner::lemma_holds;
use crate::mm::user::{
    lemma_pieces_nonempty, lemma_with_bytes, page_pieces, range_reachable, reachable, read_user,
    string_at, translated_byte_buffer, translated_str, user_bytes,
};
use crate::task::current::write_current;
use crate::task::kernel::{
    fds_ok, files_ok, handle_ok, lemma_current, lemma_same_index, lemma_unchanged, lemma_update,
    mem_ok, same_pids, Kernel, KernelModel,
};
use crate::task::lifecycle::exited;
use crate::task::table::models;
use crate::task::task::{
    first_free, lemma_first_free, with_room, FileHandle, TaskControlBlock, TaskModel,
};
use vstd::prelude::*;
use vstd::utf8::{decode_utf8, encode_utf8, valid_utf8};

verus! {

/// What comes of a system call on a file.
pub enum FileStep {
    /// It is done, with this result.
    Done(isize),
    /// It is done, with this result, when the strings were printed.
    Print(Vec<String>, isize),
    /// It has to wait, and to try again with so many bytes done.
    Wait(usize),
}

/// What a descriptor of the current process leads to.
pub open spec fn handle(k: KernelModel, fd: usize) -> Option<FileHandle> {
    if fd < k.task().fds.len() {
        k.task().fds[fd as int]
    } else {
        None
    }
}

/// What the descriptor leads to can be written.
pub open spec fn can_write(k: KernelModel, h: FileHandle) -> bool {
    match h {
        FileHandle::Stdin => false,
        FileHandle::Stdout => true,
        FileHandle::Inode(n) => k.inodes[n as int].writable,
        FileHandle::Pipe(p) => p.writable,
    }
}

/// What the descriptor leads to can be read.
pub open spec fn can_read(k: KernelModel, h: FileHandle) -> bool {
    match h {
        FileHandle::Stdin => true,
        FileHandle::Stdout => false,
        FileHandle::Inode(n) => k.inodes[n as int].readable,
        FileHandle::Pipe(p) => p.readable,
    }
}

/// The open files are files of the file system.
pub open spec fn inodes_on<D: BlockDevice>(inodes: Seq<OSInode>, fs: &EasyFileSystem<D>) -> bool {
    forall|n: int|
        0 <= n < inodes.len() ==> (#[trigger] inodes[n]).inode.on(fs) && inodes[n].inode.id() != 0
}

/// Some descriptor of the process leads to the write end of the pipe.
pub open spec fn holds_end(fds: Seq<Option<FileHandle>>, b: usize) -> bool {
    exists|fd: int| 0 <= fd < fds.len() && is_end(#[trigger] fds[fd], b)
}

/// The descriptor leads to the write end of the pipe.
pub open spec fn is_end(h: Option<FileHandle>, b: usize) -> bool {
    match h {
        Some(FileHandle::Pipe(p)) => p.writable && p.buffer == b,
        _ => false,
    }
}

/// Some process holds the write end of the pipe.
pub open spec fn end_held(ts: Seq<TaskModel>, b: usize) -> bool {
    exists|i: int| 0 <= i < ts.len() && holds_end((#[trigger] ts[i]).fds, b)
}

/// Whether some process holds the write end of the pipe.
fn write_end_held(tasks: &Vec<TaskControlBlock>, b: usize) -> (r: bool)
    ensures
        r == end_held(models(tasks@), b),
{
    let ghost ts = models(tasks@);
    let mut i: usize = 0;
    while i < tasks.len()
        invariant
            i <= tasks@.len(),
            ts == models(tasks@),
            forall|j: int| 0 <= j < i ==> !holds_end((#[trigger] ts[j]).fds, b),
        decreases tasks@.len() - i,
    {
        let fds: &Vec<Option<FileHandle>> = &tasks[i].inner.fd_table;
        assert(ts[i as int].fds == fds@);
        let mut fd: usize = 0;
        while fd < fds.len()
            invariant
                fd <= fds@.len(),
                i < ts.len(),
                ts == models(tasks@),
                ts[i as int].fds == fds@,
                forall|e: int| 0 <= e < fd ==> !is_end(#[trigger] fds@[e], b),
            decreases fds@.len() - fd,
        {
            if let Some(FileHandle::Pipe(p)) = fds[fd] {
                if p.writable && p.buffer == b {
                    assert(is_end(fds@[fd as int], b));
                    assert(holds_end(ts[i as int].fds, b));
                    return true;
                }
            }
            fd += 1;
        }
        i += 1;
    }
    false
}

/// Changing open files and pipes keeps the kernel consistent.
proof fn lemma_files(k: KernelModel, k2: KernelModel)
    requires
        k.wf(),
        k2 == (KernelModel { inodes: k2.inodes, pipes: k2.pipes, ..k }),
        k2.inodes.len() >= k.inodes.len(),
        k2.pipes.len() >= k.pipes.len(),
        forall|b: int|
            0 <= b < k2.pipes.len() ==> (#[trigger] k2.pipes[b]).wf() && k2.pipes[b].has_write_end(),
    ensures
        k2.wf(),
{
    assert(mem_ok(k2)) by {
        reveal(mem_ok);
    }
    reveal(files_ok);
    assert forall|i: int| 0 <= i < k2.tasks.len() implies fds_ok(
        (#[trigger] k2.tasks[i]).fds,
        k2.inodes.len() as int,
        k2.pipes.len() as int,
    ) by {
        assert(fds_ok(k.tasks[i].fds, k.inodes.len() as int, k.pipes.len() as int));
        assert forall|fd: int| 0 <= fd < k2.tasks[i].fds.len() implies handle_ok(
            #[trigger] k2.tasks[i].fds[fd],
            k2.inodes.len() as int,
            k2.pipes.len() as int,
        ) by {
            assert(handle_ok(
                k.tasks[i].fds[fd],
                k.inodes.len() as int,
                k.pipes.len() as int,
            ));
        }
    }
}

/// The pipes of a consistent kernel are well formed.
proof fn lemma_pipes(k: KernelModel)
    requires
        k.wf(),
    ensures
        forall|b: int|
            0 <= b < k.pipes.len() ==> (#[trigger] k.pipes[b]).wf() && k.pipes[b].has_write_end(),
{
    reveal(files_ok);
}

/// Changing descriptors keeps the kernel consistent.
proof fn lemma_with_fds(k: KernelModel, fds: Seq<Option<FileHandle>>)
    requires
        k.wf(),
        k.runs(),
        fds_ok(fds, k.inodes.len() as int, k.pipes.len() as int),
    ensures
        k.with_fds(fds).wf(),
        k.with_fds(fds).runs(),
        k.with_fds(fds).at() == k.at(),
        k.with_fds(fds).task() == (TaskModel { fds, ..k.task() }),
{
    lemma_current(k);
    lemma_holds(k.task().space, k.machine.mem);
    lemma_unchanged(k.task().space, k.machine.mem);
    let k2 = k.with_fds(fds);
    lemma_update(k, k2, k.at());
    assert(same_pids(k.tasks, k2.tasks));
    lemma_same_index(k.tasks, k2.tasks, k.current->0, 0);
}

impl KernelModel {
    /// The kernel after the descriptors of the current process changed.
    pub open spec fn with_fds(self, fds: Seq<Option<FileHandle>>) -> KernelModel {
        self.with_task(TaskModel { fds, ..self.task() })
    }
}

/// An open file was written: its offset moved, and the file has the bytes.
pub open spec fn inode_written(
    k: KernelModel,
    k2: KernelModel,
    d: Seq<Seq<u8>>,
    d2: Seq<Seq<u8>>,
    n: int,
    data: Seq<u8>,
) -> bool {
    let f = k.inodes[n];
    let id = f.inode.id();
    &&& k2 == (KernelModel {
        inodes: k.inodes.update(n, OSInode { offset: (f.offset + data.len()) as usize, ..f }),
        ..k
    })
    &&& others_same(d, d2, id)
    &&& file(d2, id) == if data.len() == 0 {
        file(d, id)
    } else {
        written(file(d, id), f.offset as int, data)
    }
}

/// Bytes were put into a pipe: as many as fit of the data from `done` on.
pub open spec fn pipe_written(
    k: KernelModel,
    k2: KernelModel,
    b: int,
    data: Seq<u8>,
    done: int,
) -> bool {
    let c = k.pipes[b]@;
    let n = moved(RING_BUFFER_SIZE - c.len(), data.len() - done);
    &&& k2 == (KernelModel { pipes: k.pipes.update(b, k2.pipes[b]), ..k })
    &&& k2.pipes[b]@ == c + data.subrange(done, done + n)
}

/// How a round of writing to a pipe ends.
pub open spec fn pipe_write_step(c: Seq<u8>, len: int, done: int) -> FileStep {
    let n = moved(RING_BUFFER_SIZE - c.len(), len - done);
    if c.len() < RING_BUFFER_SIZE && done + n == len {
        FileStep::Done(len as isize)
    } else {
        FileStep::Wait((done + n) as usize)
    }
}

/// The buffer of a system call lies in the memory of the current process.
pub open spec fn buffer_ok(k: KernelModel, buf: usize, len: usize) -> bool {
    &&& buf + len <= usize::MAX
    &&& len <= isize::MAX
    &&& range_reachable(k.task().space, k.machine.mem, buf as int, len as int)
}

/// The bytes of a buffer of the current process.
pub open spec fn buffer_of(k: KernelModel, buf: usize, len: usize) -> Seq<u8> {
    user_bytes(k.task().space, k.machine.mem, buf as int, len as int)
}

/// Data can be written to an open file: it does not become too large, and there is room on
/// the disk.
pub open spec fn can_append(f: OSInode, d: Seq<Seq<u8>>, len: usize) -> bool {
    let end = f.offset + len;
    &&& end <= u32::MAX
    &&& len > 0 && end >= file(d, f.inode.id()).len() ==> room(d, f.inode.id(), end)
}

/// Write a buffer of the current process to an open file.
fn write_inode<D: BlockDevice>(
    n: usize,
    buf: usize,
    len: usize,
    k: &mut Kernel,
    fs: &mut EasyFileSystem<D>,
) -> (r: isize)
    requires
        old(k)@.wf(),
        old(k)@.runs(),
        old(fs).wf(),
        tree_ok(old(fs)@),
        inodes_on(old(k)@.inodes, old(fs)),
        n < old(k)@.inodes.len(),
        buffer_ok(old(k)@, buf, len),
        can_append(old(k)@.inodes[n as int], old(fs)@, len),
    ensures
        final(k)@.wf(),
        final(fs).wf(),
        tree_ok(final(fs)@),
        final(fs).same_layout(old(fs)),
        inodes_on(final(k)@.inodes, final(fs)),
        r == len,
        inode_written(
            old(k)@,
            final(k)@,
            old(fs)@,
            final(fs)@,
            n as int,
            buffer_of(old(k)@, buf, len),
        ),
{
    let ghost o = k@;
    let ghost fs0 = *fs;
    proof {
        lemma_current(o);
    }
    let at: usize = k.current_index();
    let ub: UserBuffer = translated_byte_buffer(
        &k.tasks[at].inner.memory_set,
        buf,
        len,
        &k.machine.mem,
    );
    proof {
        lemma_joined_len(ub@, ub@.len() as int);
        if len == 0 {
            assert(ub@.len() == 0);
        }
        assert(o.inodes[n as int].inode.on(&fs0));
    }
    let written: usize = k.inodes[n].write(&ub, fs);
    proof {
        lemma_pipes(o);
        lemma_files(o, k@);
        assert(k@.inodes =~= o.inodes.update(n as int, k@.inodes[n as int]));
        assert forall|j: int| 0 <= j < k@.inodes.len() implies (
        #[trigger] k@.inodes[j]).inode.on(fs) && k@.inodes[j].inode.id() != 0 by {
            assert(o.inodes[j].inode.on(&fs0) && o.inodes[j].inode.id() != 0);
            assert(k@.inodes[j].inode == o.inodes[j].inode);
            if o.inodes[j].inode.id() != o.inodes[n as int].inode.id() {
                assert(live(fs@, o.inodes[j].inode.id()));
            }
        }
    }
    written as isize
}

/// One round of writing a buffer of the current process to a pipe.
fn write_pipe(p: Pipe, buf: usize, len: usize, done: usize, k: &mut Kernel) -> (r: FileStep)
    requires
        old(k)@.wf(),
        old(k)@.runs(),
        p.writable,
        p.buffer < old(k)@.pipes.len(),
        buffer_ok(old(k)@, buf, len),
        done <= len,
    ensures
        final(k)@.wf(),
        pipe_written(
            old(k)@,
            final(k)@,
            p.buffer as int,
            buffer_of(old(k)@, buf, len),
            done as int,
        ),
        r == pipe_write_step(old(k)@.pipes[p.buffer as int]@, len as int, done as int),
{
    let ghost o = k@;
    proof {
        lemma_current(o);
        lemma_pipes(o);
    }
    let at: usize = k.current_index();
    let data: Vec<u8> = read_user(&k.tasks[at].inner.memory_set, buf, len, &k.machine.mem);
    let (pos, step) = p.write(&mut k.pipes[p.buffer], data.as_slice(), done);
    proof {
        assert(k@.pipes =~= o.pipes.update(p.buffer as int, k@.pipes[p.buffer as int]));
        assert forall|b: int| 0 <= b < k@.pipes.len() implies (#[trigger] k@.pipes[b]).wf()
            && k@.pipes[b].has_write_end() by {
            assert(o.pipes[b].wf() && o.pipes[b].has_write_end());
        }
        lemma_files(o, k@);
    }
    match step {
        PipeStep::Done(n) => FileStep::Done(n as isize),
        PipeStep::Wait => FileStep::Wait(pos),
    }
}

/// What a round of writing to a descriptor comes to.
pub open spec fn write_done(
    k: KernelModel,
    k2: KernelModel,
    d: Seq<Seq<u8>>,
    d2: Seq<Seq<u8>>,
    fd: usize,
    buf: usize,
    len: usize,
    done: usize,
    r: FileStep,
) -> bool {
    match handle(k, fd) {
        Some(h) if can_write(k, h) => match h {
            FileHandle::Stdin => false,
            FileHandle::Stdout => {
                let p = page_pieces(
                    k.task().space,
                    k.machine.mem,
                    buf as int,
                    len as int,
                );
                &&& k2 == k
                &&& d2 == d
                &&& r matches FileStep::Print(v, n)
                &&& n == len
                &&& v@.len() == p.len()
                &&& forall|i: int|
                    0 <= i < p.len() ==> (#[trigger] v@[i])@ == decode_utf8(p[i])
            },
            FileHandle::Inode(n) => {
                &&& r == FileStep::Done(len as isize)
                &&& inode_written(
                    k,
                    k2,
                    d,
                    d2,
                    n as int,
                    buffer_of(k, buf, len),
                )
            },
            FileHandle::Pipe(p) => {
                &&& d2 == d
                &&& r == pipe_write_step(
                    k.pipes[p.buffer as int]@,
                    len as int,
                    done as int,
                )
                &&& pipe_written(
                    k,
                    k2,
                    p.buffer as int,
                    buffer_of(k, buf, len),
                    done as int,
                )
            },
        },
        _ => r == FileStep::Done((-1int) as isize) && k2 == k && d2 == d,
    }
}

/// Write a buffer of the current process to what a descriptor leads to. Return -1 if it
/// leads to nothing that can be written. `done` says how much was written by earlier rounds
/// of the call.
pub fn sys_write<D: BlockDevice>(
    fd: usize,
    buf: usize,
    len: usize,
    done: usize,
    k: &mut Kernel,
    fs: &mut EasyFileSystem<D>,
) -> (r: FileStep)
    requires
        old(k)@.wf(),
        old(k)@.runs(),
        old(fs).wf(),
        tree_ok(old(fs)@),
        inodes_on(old(k)@.inodes, old(fs)),
        match handle(old(k)@, fd) {
            Some(h) => can_write(old(k)@, h) ==> {
                &&& buffer_ok(old(k)@, buf, len)
                &&& match h {
                    FileHandle::Stdin => true,
                    FileHandle::Stdout => {
                        let p = page_pieces(
                            old(k)@.task().space,
                            old(k)@.machine.mem,
                            buf as int,
                            len as int,
                        );
                        forall|i: int| 0 <= i < p.len() ==> valid_utf8(#[trigger] p[i])
                    },
                    FileHandle::Inode(n) => can_append(
                        old(k)@.inodes[n as int],
                        old(fs)@,
                        len,
                    ),
                    FileHandle::Pipe(_) => done <= len,
                }
            },
            None => true,
        },
    ensures
        final(k)@.wf(),
        final(fs).wf(),
        tree_ok(final(fs)@),
        final(fs).same_layout(old(fs)),
        inodes_on(final(k)@.inodes, final(fs)),
        write_done(old(k)@, final(k)@, old(fs)@, final(fs)@, fd, buf, len, done, r),
{
    let ghost o = k@;
    proof {
        lemma_current(o);
    }
    let at: usize = k.current_index();
    if fd >= k.tasks[at].inner.fd_table.len() {
        return FileStep::Done(-1);
    }
    proof {
        assert(handle_ok(
            o.task().fds[fd as int],
            o.inodes.len() as int,
            o.pipes.len() as int,
        ));
    }
    match k.tasks[at].inner.fd_table[fd] {
        Some(FileHandle::Stdin) => FileStep::Done(-1),
        Some(FileHandle::Stdout) => {
            let ub: UserBuffer = translated_byte_buffer(
                &k.tasks[at].inner.memory_set,
                buf,
                len,
                &k.machine.mem,
            );
            proof {
                lemma_joined_len(ub@, ub@.len() as int);
            }
            let (strings, n) = Stdout.write(&ub);
            FileStep::Print(strings, n as isize)
        },
        Some(FileHandle::Inode(n)) => {
            if !k.inodes[n].writable() {
                return FileStep::Done(-1);
            }
            FileStep::Done(write_inode(n, buf, len, k, fs))
        },
        Some(FileHandle::Pipe(p)) => {
            if !p.writable() {
                return FileStep::Done(-1);
            }
            write_pipe(p, buf, len, done, k)
        },
        None => FileStep::Done(-1),
    }
}

/// The bytes that a read of an open file gets.
pub open spec fn bytes_read(f: OSInode, d: Seq<Seq<u8>>, len: usize) -> Seq<u8> {
    let bytes = file(d, f.inode.id());
    let n = transfer_len(f.offset as int, len as int, bytes.len() as int);
    if n > 0 {
        bytes.subrange(f.offset as int, f.offset + n)
    } else {
        Seq::empty()
    }
}

/// An open file was read: its offset moved, and the bytes are in the memory of the current
/// process.
pub open spec fn inode_read(k: KernelModel, n: int, got: Seq<u8>, buf: usize) -> KernelModel {
    let f = k.inodes[n];
    (KernelModel {
        inodes: k.inodes.update(n, OSInode { offset: (f.offset + got.len()) as usize, ..f }),
        ..k
    }).with_user_bytes(buf as int, got)
}

/// Bytes were taken from a pipe, as many as there are and are wanted, and are in the memory
/// of the current process. `ring` is what the pipe has become.
pub open spec fn pipe_read(
    k: KernelModel,
    b: int,
    ring: PipeRingBuffer,
    buf: usize,
    len: usize,
    done: usize,
) -> KernelModel {
    let c = k.pipes[b]@;
    let n = moved(c.len() as int, len - done);
    (KernelModel { pipes: k.pipes.update(b, ring), ..k }).with_user_bytes(
        buf + done,
        c.take(n),
    )
}

/// How a round of reading from a pipe ends.
pub open spec fn pipe_read_step(c: Seq<u8>, len: int, done: int, held: bool) -> FileStep {
    let n = moved(c.len() as int, len - done);
    if c.len() > 0 && done + n == len {
        FileStep::Done(len as isize)
    } else if !held {
        FileStep::Done((done + n) as isize)
    } else {
        FileStep::Wait((done + n) as usize)
    }
}

/// Read from an open file into a buffer of the current process.
fn read_inode<D: BlockDevice>(
    n: usize,
    buf: usize,
    len: usize,
    k: &mut Kernel,
    fs: &mut EasyFileSystem<D>,
) -> (r: isize)
    requires
        old(k)@.wf(),
        old(k)@.runs(),
        old(fs).wf(),
        inodes_on(old(k)@.inodes, old(fs)),
        n < old(k)@.inodes.len(),
        buffer_ok(old(k)@, buf, len),
        ({
            let f = old(k)@.inodes[n as int];
            f.offset + len + file(old(fs)@, f.inode.id()).len() <= usize::MAX
        }),
    ensures
        final(k)@.wf(),
        final(fs).wf(),
        final(fs)@ == old(fs)@,
        final(fs).same_layout(old(fs)),
        inodes_on(final(k)@.inodes, final(fs)),
        ({
            let got = bytes_read(old(k)@.inodes[n as int], old(fs)@, len);
            &&& r == got.len()
            &&& final(k)@ == inode_read(old(k)@, n as int, got, buf)
        }),
{
    let ghost o = k@;
    let ghost fs0 = *fs;
    let ghost f = o.inodes[n as int];
    let ghost got = bytes_read(f, fs@, len);
    proof {
        lemma_current(o);
    }
    let at: usize = k.current_index();
    let mut ub: UserBuffer = translated_byte_buffer(
        &k.tasks[at].inner.memory_set,
        buf,
        len,
        &k.machine.mem,
    );
    let ghost b0 = ub@;
    proof {
        lemma_joined_len(b0, b0.len() as int);
        assert forall|i: int| 0 <= i < b0.len() implies (#[trigger] b0[i]).len() > 0 by {
            lemma_pieces_nonempty(o.task().space, o.machine.mem, buf as int, len as int, i);
        }
        law_read_pieces(file(fs@, f.inode.id()), f.offset as int, b0, 0);
        assert(o.inodes[n as int].inode.on(&fs0));
    }
    let count: usize = k.inodes[n].read(&mut ub, fs);
    let data: Vec<u8> = ub.bytes();
    let ghost k1 = k@;
    proof {
        lemma_pipes(o);
        lemma_files(o, k1);
        assert(k1.inodes =~= o.inodes.update(n as int, k1.inodes[n as int]));
        assert(data@.take(count as int) =~= got);
        assert forall|v: int| buf <= v < buf + count implies #[trigger] reachable(
            k1.task().space,
            k1.machine.mem,
            v,
        ) by {
            assert(reachable(o.task().space, o.machine.mem, v));
        }
    }
    let part: &[u8] = vstd::slice::slice_subrange(data.as_slice(), 0, count);
    assert(part@ =~= got);
    write_current(k, buf, part);
    proof {
        assert forall|j: int| 0 <= j < k@.inodes.len() implies (
        #[trigger] k@.inodes[j]).inode.on(fs) && k@.inodes[j].inode.id() != 0 by {
            assert(o.inodes[j].inode.on(&fs0) && o.inodes[j].inode.id() != 0);
            assert(k@.inodes[j].inode == o.inodes[j].inode);
        }
    }
    count as isize
}

/// One round of reading from a pipe into a buffer of the current process.
fn read_pipe(p: Pipe, buf: usize, len: usize, done: usize, k: &mut Kernel) -> (r: FileStep)
    requires
        old(k)@.wf(),
        old(k)@.runs(),
        p.readable,
        p.buffer < old(k)@.pipes.len(),
        buffer_ok(old(k)@, buf, len),
        done <= len,
    ensures
        final(k)@.wf(),
        final(k)@ == pipe_read(
            old(k)@,
            p.buffer as int,
            final(k)@.pipes[p.buffer as int],
            buf,
            len,
            done,
        ),
        ({
            let c = old(k)@.pipes[p.buffer as int]@;
            &&& final(k)@.pipes[p.buffer as int]@ == c.skip(moved(c.len() as int, len - done))
            &&& r == pipe_read_step(
                c,
                len as int,
                done as int,
                end_held(old(k)@.tasks, p.buffer),
            )
        }),
{
    let ghost o = k@;
    let ghost c = o.pipes[p.buffer as int]@;
    let ghost n = moved(c.len() as int, len - done);
    proof {
        lemma_current(o);
        lemma_pipes(o);
    }
    let at: usize = k.current_index();
    let held: bool = write_end_held(&k.tasks, p.buffer);
    assert forall|v: int| buf <= v < buf + done implies #[trigger] reachable(
        o.task().space,
        o.machine.mem,
        v,
    ) by {}
    let mut data: Vec<u8> = read_user(&k.tasks[at].inner.memory_set, buf, done, &k.machine.mem);
    let ghost d0 = data@;
    let step: PipeStep = p.read(&mut k.pipes[p.buffer], &mut data, len, held);
    let ghost k1 = k@;
    proof {
        assert(k1.pipes =~= o.pipes.update(p.buffer as int, k1.pipes[p.buffer as int]));
        assert forall|b: int| 0 <= b < k1.pipes.len() implies (#[trigger] k1.pipes[b]).wf()
            && k1.pipes[b].has_write_end() by {
            assert(o.pipes[b].wf() && o.pipes[b].has_write_end());
        }
        lemma_files(o, k1);
        assert forall|v: int| buf + done <= v < buf + done + n implies #[trigger] reachable(
            k1.task().space,
            k1.machine.mem,
            v,
        ) by {
            assert(reachable(o.task().space, o.machine.mem, v));
        }
    }
    let count: usize = data.len();
    let part: &[u8] = vstd::slice::slice_subrange(data.as_slice(), done, count);
    assert(part@ =~= c.take(n));
    write_current(k, buf + done, part);
    match step {
        PipeStep::Done(n) => FileStep::Done(n as isize),
        PipeStep::Wait => FileStep::Wait(count),
    }
}

/// What a round of reading from a descriptor comes to.
pub open spec fn read_done(
    k: KernelModel,
    k2: KernelModel,
    d: Seq<Seq<u8>>,
    fd: usize,
    buf: usize,
    len: usize,
    done: usize,
    c: usize,
    r: FileStep,
) -> bool {
    match handle(k, fd) {
        Some(h) if can_read(k, h) => match h {
            FileHandle::Stdin => if c == 0 {
                r == FileStep::Wait(0) && k2 == k
            } else {
                &&& r == FileStep::Done(1)
                &&& k2 == k.with_user_bytes(buf as int, seq![(c % 256) as u8])
            },
            FileHandle::Stdout => false,
            FileHandle::Inode(n) => {
                let got = bytes_read(k.inodes[n as int], d, len);
                &&& r == FileStep::Done(got.len() as isize)
                &&& k2 == inode_read(k, n as int, got, buf)
            },
            FileHandle::Pipe(p) => {
                let b = p.buffer as int;
                let bytes = k.pipes[b]@;
                &&& k2 == pipe_read(k, b, k2.pipes[b], buf, len, done)
                &&& k2.pipes[b]@ == bytes.skip(moved(bytes.len() as int, len - done))
                &&& r == pipe_read_step(
                    bytes,
                    len as int,
                    done as int,
                    end_held(k.tasks, p.buffer),
                )
            },
        },
        _ => r == FileStep::Done((-1int) as isize) && k2 == k,
    }
}

/// Read from what a descriptor leads to into a buffer of the current process. Return -1 if
/// it leads to nothing that can be read. `done` says how much was read by earlier rounds of
/// the call, and `c` is what the console gives, or zero.
pub fn sys_read<D: BlockDevice>(
    fd: usize,
    buf: usize,
    len: usize,
    done: usize,
    c: usize,
    k: &mut Kernel,
    fs: &mut EasyFileSystem<D>,
) -> (r: FileStep)
    requires
        old(k)@.wf(),
        old(k)@.runs(),
        old(fs).wf(),
        tree_ok(old(fs)@),
        inodes_on(old(k)@.inodes, old(fs)),
        match handle(old(k)@, fd) {
            Some(h) => can_read(old(k)@, h) ==> {
                &&& buffer_ok(old(k)@, buf, len)
                &&& match h {
                    FileHandle::Stdin => len == 1,
                    FileHandle::Stdout => true,
                    FileHandle::Inode(n) => {
                        let f = old(k)@.inodes[n as int];
                        f.offset + len + file(old(fs)@, f.inode.id()).len() <= usize::MAX
                    },
                    FileHandle::Pipe(_) => done <= len,
                }
            },
            None => true,
        },
    ensures
        final(k)@.wf(),
        final(fs).wf(),
        tree_ok(final(fs)@),
        final(fs)@ == old(fs)@,
        final(fs).same_layout(old(fs)),
        inodes_on(final(k)@.inodes, final(fs)),
        read_done(old(k)@, final(k)@, old(fs)@, fd, buf, len, done, c, r),
{
    let ghost o = k@;
    proof {
        lemma_current(o);
    }
    let at: usize = k.current_index();
    if fd >= k.tasks[at].inner.fd_table.len() {
        return FileStep::Done(-1);
    }
    proof {
        assert(handle_ok(
            o.task().fds[fd as int],
            o.inodes.len() as int,
            o.pipes.len() as int,
        ));
    }
    match k.tasks[at].inner.fd_table[fd] {
        Some(FileHandle::Stdin) => {
            match Stdin.read(c) {
                Some(ch) => {
                    let mut byte: Vec<u8> = Vec::new();
                    byte.push(ch);
                    assert(byte@ =~= seq![(c % 256) as u8]);
                    write_current(k, buf, byte.as_slice());
                    FileStep::Done(1)
                },
                None => FileStep::Wait(0),
            }
        },
        Some(FileHandle::Stdout) => FileStep::Done(-1),
        Some(FileHandle::Inode(n)) => {
            if !k.inodes[n].readable() {
                return FileStep::Done(-1);
            }
            FileStep::Done(read_inode(n, buf, len, k, fs))
        },
        Some(FileHandle::Pipe(p)) => {
            if !p.readable() {
                return FileStep::Done(-1);
            }
            read_pipe(p, buf, len, done, k)
        },
        None => FileStep::Done(-1),
    }
}

/// The descriptors after one more was taken.
pub open spec fn with_fd(fds: Seq<Option<FileHandle>>, h: FileHandle) -> Seq<Option<FileHandle>> {
    with_room(fds).update(first_free(fds, 0), Some(h))
}

/// The descriptors lead to something if they did and the new one does.
proof fn lemma_with_fd(fds: Seq<Option<FileHandle>>, h: FileHandle, inodes: int, pipes: int)
    requires
        fds_ok(fds, inodes, pipes),
        handle_ok(Some(h), inodes, pipes),
    ensures
        fds_ok(with_fd(fds, h), inodes, pipes),
        first_free(fds, 0) < with_room(fds).len(),
{
    lemma_first_free(fds, 0);
    let fds2 = with_fd(fds, h);
    assert forall|fd: int| 0 <= fd < fds2.len() implies handle_ok(
        #[trigger] fds2[fd],
        inodes,
        pipes,
    ) by {
        if fd < fds.len() && fd != first_free(fds, 0) {
            assert(handle_ok(fds[fd], inodes, pipes));
        }
    }
}

impl Kernel {
    /// Give the current process a descriptor that leads to a file, and return it.
    fn install(&mut self, h: FileHandle) -> (r: usize)
        requires
            old(self)@.wf(),
            old(self)@.runs(),
            handle_ok(
                Some(h),
                old(self)@.inodes.len() as int,
                old(self)@.pipes.len() as int,
            ),
        ensures
            final(self)@.wf(),
            r == first_free(old(self)@.task().fds, 0),
            final(self)@ == old(self)@.with_fds(with_fd(old(self)@.task().fds, h)),
            final(self)@.runs(),
            final(self)@.at() == old(self)@.at(),
            final(self)@.task() == (TaskModel {
                fds: with_fd(old(self)@.task().fds, h),
                ..old(self)@.task()
            }),
    {
        let ghost o = self@;
        proof {
            lemma_current(o);
            lemma_with_fd(o.task().fds, h, o.inodes.len() as int, o.pipes.len() as int);
            lemma_with_fds(o, with_fd(o.task().fds, h));
        }
        let at: usize = self.current_index();
        let fd: usize = self.tasks[at].inner.alloc_fd();
        self.tasks[at].inner.fd_table.set(fd, Some(h));
        proof {
            assert(self@.tasks =~= o.with_fds(with_fd(o.task().fds, h)).tasks);
        }
        fd
    }
}

/// The current process has a descriptor for the file that was opened, if there is one.
pub open spec fn open_done(
    k: KernelModel,
    k2: KernelModel,
    flags: u32,
    id: Option<int>,
    r: isize,
) -> bool {
    match id {
        Some(id) => {
            let n = k.inodes.len();
            let f = k2.inodes[n as int];
            &&& r == first_free(k.task().fds, 0) as isize
            &&& k2 == (KernelModel { inodes: k.inodes.push(f), ..k }).with_fds(
                with_fd(k.task().fds, FileHandle::Inode(n as usize)),
            )
            &&& f.inode.id() == id
            &&& f.offset == 0
            &&& (f.readable, f.writable) == access_of(OpenFlags { bits: flags })
        },
        None => r == -1 && k2 == k,
    }
}

/// Open a file of the file system for the current process. Return the descriptor, or -1 if
/// there is no such file and none is to be created.
pub fn sys_open<D: BlockDevice>(
    path: usize,
    flags: u32,
    k: &mut Kernel,
    fs: &mut EasyFileSystem<D>,
) -> (r: isize)
    requires
        old(k)@.wf(),
        old(k)@.runs(),
        old(fs).wf(),
        tree_ok(old(fs)@),
        inodes_on(old(k)@.inodes, old(fs)),
        old(k)@.inodes.len() < usize::MAX,
        flags & !ALL_FLAGS == 0,
        exists|n: int| string_at(old(k)@.task().space, old(k)@.machine.mem, path as int, n),
        forall|name: Seq<char>|
            path_read(old(k)@, path, name) && has_flags(OpenFlags { bits: flags }, CREATE)
                && file_named(old(fs)@, #[trigger] encode_utf8(name)) is None ==> {
                &&& encode_utf8(name).len() <= NAME_LENGTH_LIMIT
                &&& room(old(fs)@, 0, file(old(fs)@, 0).len() + DIRENT_SZ)
                &&& exists|j: int| #[trigger] inode_exists(old(fs)@, j) && !live(old(fs)@, j)
            },
    ensures
        final(k)@.wf(),
        final(fs).wf(),
        tree_ok(final(fs)@),
        final(fs).same_layout(old(fs)),
        inodes_on(final(k)@.inodes, final(fs)),
        exists|name: Seq<char>, id: Option<int>|
            path_read(old(k)@, path, name) && #[trigger] opened(
                old(fs)@,
                final(fs)@,
                encode_utf8(name),
                OpenFlags { bits: flags },
                id,
            ) && open_done(old(k)@, final(k)@, flags, id, r),
{
    let ghost o = k@;
    let ghost fs0 = *fs;
    let ghost d = fs@;
    proof {
        lemma_current(o);
    }
    let at: usize = k.current_index();
    let path: String = translated_str(&k.tasks[at].inner.memory_set, path, &k.machine.mem);
    let ghost name = encode_utf8(path@);
    let open_flags: OpenFlags = OpenFlags::from_bits(flags).unwrap();
    proof {
        lemma_find_from(entries(d, 0), name, 0);
    }
    match open_file(path.as_str(), open_flags, fs) {
        Some(inode) => {
            let ghost f = inode;
            let n: usize = k.inodes.len();
            proof {
                lemma_open_keeps(o.inodes, f, &fs0, fs, name, open_flags);
            }
            k.inodes.push(inode);
            let ghost k1 = k@;
            proof {
                lemma_pipes(o);
                lemma_files(o, k1);
                assert(k1.inodes =~= o.inodes.push(f));
            }
            let fd: usize = k.install(FileHandle::Inode(n));
            proof {
                assert(opened(d, fs@, name, open_flags, Some(f.inode.id())));
            }
            fd as isize
        },
        None => {
            proof {
                assert(opened(d, fs@, name, open_flags, None));
                assert(fs@ == d);
            }
            -1
        },
    }
}

/// Opening a file leaves the open files what they are, and gives one more.
proof fn lemma_open_keeps<D: BlockDevice>(
    inodes: Seq<OSInode>,
    f: OSInode,
    fs0: &EasyFileSystem<D>,
    fs: &EasyFileSystem<D>,
    name: Seq<u8>,
    flags: OpenFlags,
)
    requires
        tree_ok(fs0@),
        inodes_on(inodes, fs0),
        fs.same_layout(fs0),
        opened(fs0@, fs@, name, flags, Some(f.inode.id())),
        f.inode.on(fs),
    ensures
        inodes_on(inodes.push(f), fs),
{
    let d = fs0@;
    let d2 = fs@;
    let id = f.inode.id();
    let es = entries(d, 0);
    let i = find_from(es, name, 0);
    lemma_find_from(es, name, 0);
    if i < es.len() {
        assert(inode(d, es[i].inode_id as int).kind != inode(d, 0).kind);
    }
    assert(id != 0);
    assert forall|j: int| 0 <= j < inodes.push(f).len() implies (
    #[trigger] inodes.push(f)[j]).inode.on(fs) && inodes.push(f)[j].inode.id() != 0 by {
        if j < inodes.len() {
            assert(inodes[j].inode.on(fs0) && inodes[j].inode.id() != 0);
            let x = inodes[j].inode.id();
            assert(live(d, x));
            if x != id {
                assert(live(d2, x) <==> live(d, x));
            }
        }
    }
}

/// What closing a descriptor comes to.
pub open spec fn close_done(k: KernelModel, k2: KernelModel, fd: usize, r: isize) -> bool {
    if handle(k, fd) is None {
        r == -1 && k2 == k
    } else {
        r == 0 && k2 == k.with_fds(k.task().fds.update(fd as int, None))
    }
}

/// Close a descriptor of the current process. Return -1 if it leads to nothing.
pub fn sys_close(fd: usize, k: &mut Kernel) -> (r: isize)
    requires
        old(k)@.wf(),
        old(k)@.runs(),
    ensures
        final(k)@.wf(),
        close_done(old(k)@, final(k)@, fd, r),
{
    let ghost o = k@;
    proof {
        lemma_current(o);
    }
    let at: usize = k.current_index();
    if fd >= k.tasks[at].inner.fd_table.len() {
        return -1;
    }
    if k.tasks[at].inner.fd_table[fd].is_none() {
        return -1;
    }
    k.tasks[at].inner.fd_table.set(fd, None);
    proof {
        let fds = o.task().fds.update(fd as int, None);
        assert forall|e: int| 0 <= e < fds.len() implies handle_ok(
            #[trigger] fds[e],
            o.inodes.len() as int,
            o.pipes.len() as int,
        ) by {
            if e != fd {
                assert(handle_ok(
                    o.task().fds[e],
                    o.inodes.len() as int,
                    o.pipes.len() as int,
                ));
            }
        }
        lemma_with_fds(o, fds);
        assert(k@.tasks =~= o.with_fds(fds).tasks);
    }
    0
}

/// A pipe was made, and the current process has a descriptor for each of its ends.
pub open spec fn piped(k: KernelModel, ring: PipeRingBuffer) -> KernelModel {
    let b = k.pipes.len() as usize;
    let r = FileHandle::Pipe(Pipe { readable: true, writable: false, buffer: b });
    let w = FileHandle::Pipe(Pipe { readable: false, writable: true, buffer: b });
    (KernelModel { pipes: k.pipes.push(ring), ..k }).with_fds(
        with_fd(with_fd(k.task().fds, r), w),
    )
}

/// The descriptor of the write end of a new pipe.
pub open spec fn write_fd(k: KernelModel) -> int {
    let b = k.pipes.len() as usize;
    let r = FileHandle::Pipe(Pipe { readable: true, writable: false, buffer: b });
    first_free(with_fd(k.task().fds, r), 0)
}

/// A pipe was made, and its descriptors are in the memory of the current process.
pub open spec fn pipe_done(k: KernelModel, k2: KernelModel, pipe: usize) -> bool {
    let ring = k2.pipes[k.pipes.len() as int];
    &&& ring@ == Seq::<u8>::empty()
    &&& k2 == piped(k, ring).with_user_bytes(
        pipe as int,
        le64_bytes(first_free(k.task().fds, 0) as u64),
    ).with_user_bytes(pipe + 8, le64_bytes(write_fd(k) as u64))
}

/// Make a pipe, and store the descriptors of its read end and its write end.
pub fn sys_pipe(pipe: usize, k: &mut Kernel) -> (r: isize)
    requires
        old(k)@.wf(),
        old(k)@.runs(),
        old(k)@.pipes.len() < usize::MAX,
        pipe % 8 == 0,
        pipe + 16 <= usize::MAX,
        range_reachable(old(k)@.task().space, old(k)@.machine.mem, pipe as int, 16),
    ensures
        final(k)@.wf(),
        r == 0,
        pipe_done(old(k)@, final(k)@, pipe),
{
    let ghost o = k@;
    proof {
        lemma_current(o);
        lemma_pipes(o);
    }
    let b: usize = k.pipes.len();
    let (pipe_read, pipe_write, ring) = make_pipe(b);
    k.pipes.push(ring);
    let ghost k1 = k@;
    proof {
        assert(k1.pipes =~= o.pipes.push(ring));
        assert forall|i: int| 0 <= i < k1.pipes.len() implies (#[trigger] k1.pipes[i]).wf()
            && k1.pipes[i].has_write_end() by {
            if i < o.pipes.len() {
                assert(o.pipes[i].wf() && o.pipes[i].has_write_end());
            }
        }
        lemma_files(o, k1);
    }
    let read_fd: usize = k.install(FileHandle::Pipe(pipe_read));
    let write_fd: usize = k.install(FileHandle::Pipe(pipe_write));
    let ghost k2 = k@;
    proof {
        assert(k2.tasks =~= piped(o, ring).tasks);
        assert(k2 == piped(o, ring));
        lemma_current(k2);
        assert(k2.task().space == o.task().space);
        assert forall|v: int| pipe <= v < pipe + 16 implies #[trigger] reachable(
            k2.task().space,
            k2.machine.mem,
            v,
        ) by {
            assert(reachable(o.task().space, o.machine.mem, v));
        }
    }
    let read_bytes: Vec<u8> = (read_fd as u64).to_bytes();
    write_current(k, pipe, read_bytes.as_slice());
    let ghost k3 = k@;
    proof {
        lemma_with_bytes(k2.task().space, k2.machine.mem, pipe as int, read_bytes@);
        assert(k3.task() == k2.task());
        assert forall|v: int| pipe + 8 <= v < pipe + 16 implies #[trigger] reachable(
            k3.task().space,
            k3.machine.mem,
            v,
        ) by {
            assert(reachable(k2.task().space, k2.machine.mem, v));
        }
    }
    let write_bytes: Vec<u8> = (write_fd as u64).to_bytes();
    write_current(k, pipe + 8, write_bytes.as_slice());
    0
}

/// What making another descriptor comes to.
pub open spec fn dup_done(k: KernelModel, k2: KernelModel, fd: usize, r: isize) -> bool {
    match handle(k, fd) {
        None => r == -1 && k2 == k,
        Some(h) => {
            &&& r == first_free(k.task().fds, 0) as isize
            &&& k2 == k.with_fds(with_fd(k.task().fds, h))
        },
    }
}

/// Make another descriptor that leads to what a descriptor of the current process leads to.
/// Return it, or -1 if the descriptor leads to nothing.
pub fn sys_dup(fd: usize, k: &mut Kernel) -> (r: isize)
    requires
        old(k)@.wf(),
        old(k)@.runs(),
    ensures
        final(k)@.wf(),
        dup_done(old(k)@, final(k)@, fd, r),
{
    let ghost o = k@;
    proof {
        lemma_current(o);
    }
    let at: usize = k.current_index();
    if fd >= k.tasks[at].inner.fd_table.len() {
        return -1;
    }
    match k.tasks[at].inner.fd_table[fd] {
        None => -1,
        Some(h) => {
            proof {
                assert(handle_ok(
                    o.task().fds[fd as int],
                    o.inodes.len() as int,
                    o.pipes.len() as int,
                ));
            }
            let new_fd: usize = k.install(h);
            new_fd as isize
        },
    }
}

/// The status of a file cannot be asked for.
pub fn sys_fstat(_fd: usize, _st: usize) -> (r: isize)
    ensures
        r == -1,
{
    -1
}

/// A process cannot make links.
pub fn sys_linkat(_old_name: usize, _new_name: usize) -> (r: isize)
    ensures
        r == -1,
{
    -1
}

/// A process cannot remove links.
pub fn sys_unlinkat(_name: usize) -> (r: isize)
    ensures
        r == -1,
{
    -1
}

/// A descriptor other than `fd` of the current process, of this process or of another, leads
/// to the write end of the pipe.
pub open spec fn held_elsewhere(k: KernelModel, fd: int, b: usize) -> bool {
    exists|i: int, e: int|
        0 <= i < k.tasks.len() && 0 <= e < k.tasks[i].fds.len() && !(i == k.at() && e == fd)
            && is_end(#[trigger] k.tasks[i].fds[e], b)
}

/// The write end of a pipe is closed exactly when its last holder drops it: after the current
/// process closed a descriptor, the end is held if and only if some other descriptor leads to
/// it. A reader of the pipe that wants more bytes than the buffer has is done with those as
/// soon as that is so, and waits otherwise.
pub proof fn law_write_end_closed(
    k: KernelModel,
    fd: usize,
    b: usize,
    c: Seq<u8>,
    len: int,
    done: int,
)
    requires
        k.wf(),
        k.runs(),
        handle(k, fd) is Some,
        0 <= done,
        c.len() < len - done,
    ensures
        ({
            let k2 = k.with_fds(k.task().fds.update(fd as int, None));
            let held = end_held(k2.tasks, b);
            &&& held == held_elsewhere(k, fd as int, b)
            &&& pipe_read_step(c, len, done, held) == if held {
                FileStep::Wait((done + c.len()) as usize)
            } else {
                FileStep::Done((done + c.len()) as isize)
            }
        }),
{
    lemma_current(k);
    let fds = k.task().fds.update(fd as int, None);
    let k2 = k.with_fds(fds);
    if end_held(k2.tasks, b) {
        let i = choose|i: int|
            0 <= i < k2.tasks.len() && holds_end((#[trigger] k2.tasks[i]).fds, b);
        let e = choose|e: int|
            0 <= e < k2.tasks[i].fds.len() && is_end(#[trigger] k2.tasks[i].fds[e], b);
        assert(is_end(k.tasks[i].fds[e], b));
    }
    if held_elsewhere(k, fd as int, b) {
        let (i, e) = choose|i: int, e: int|
            0 <= i < k.tasks.len() && 0 <= e < k.tasks[i].fds.len() && !(i == k.at() && e == fd)
                && is_end(#[trigger] k.tasks[i].fds[e], b);
        assert(is_end(k2.tasks[i].fds[e], b));
        assert(holds_end(k2.tasks[i].fds, b));
    }
}

/// A process that exits drops every write end that it holds: after that a write end is held
/// if and only if another process holds it.
pub proof fn law_exit_drops_ends(k: KernelModel, exit_code: i32, m2: MemoryModel, b: usize)
    requires
        k.wf(),
        k.runs(),
    ensures
        end_held(exited(k, exit_code, m2).tasks, b) <==> exists|i: int|
            0 <= i < k.tasks.len() && i != k.at() && holds_end((#[trigger] k.tasks[i]).fds, b),
{
    lemma_current(k);
    let ts = exited(k, exit_code, m2).tasks;
    assert forall|i: int| 0 <= i < k.tasks.len() && i != k.at() implies (#[trigger] ts[i]).fds
        == k.tasks[i].fds by {}
    if exists|i: int|
        0 <= i < k.tasks.len() && i != k.at() && holds_end((#[trigger] k.tasks[i]).fds, b) {
        let i = choose|i: int|
            0 <= i < k.tasks.len() && i != k.at() && holds_end((#[trigger] k.tasks[i]).fds, b);
        assert(holds_end(ts[i].fds, b));
    }
    if end_held(ts, b) {
        let i = choose|i: int| 0 <= i < ts.len() && holds_end((#[trigger] ts[i]).fds, b);
        assert(i != k.at());
        assert(holds_end(k.tasks[i].fds, b));
    }
}

} // verus!
