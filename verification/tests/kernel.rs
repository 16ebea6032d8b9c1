use rcore::config::{KERNEL_STACK_SIZE, MEMORY_END, PAGE_SIZE, TRAMPOLINE, TRAP_CONTEXT_BASE};
use rcore::easy_fs::block_dev::{BlockDevice, BLOCK_SZ};
use rcore::easy_fs::efs::EasyFileSystem;
use rcore::mm::plan::KernelLayout;
use rcore::mm::user::{read_user, read_user_word, translated_str};
use rcore::pack::pack_app;
use rcore::syscall::fs::{
    sys_close, sys_dup, sys_fstat, sys_linkat, sys_open, sys_pipe, sys_read, sys_unlinkat, sys_write,
    FileStep,
};
use rcore::syscall::process::{
    sys_exec, sys_exit, sys_fork, sys_get_time, sys_getpid, sys_kill, sys_mmap, sys_munmap, sys_sbrk,
    sys_set_priority, sys_sigaction, sys_sigprocmask, sys_sigreturn, sys_spawn, sys_waitpid, sys_yield,
};
use rcore::task::current::{
    check_signals_error_of_current, current_add_signal, current_trap_cx, set_current_trap_cx,
    write_current,
};
use rcore::task::id::{kernel_stack_position, pid_alloc, RecycleAllocator};
use rcore::task::kernel::Kernel;
use rcore::task::lifecycle::add_initproc;
use rcore::task::machine::Machine;
use rcore::task::sched::{current_task, current_user_token, run_tasks};
use rcore::task::signal::{SignalFlags, SIGFPE, SIGSEGV, SIGUSR1};
use rcore::task::task::{FileHandle, TaskStatus};
use rcore::trap::handler::{
    check_signals, finish_syscall, trap_handler, trap_return, SignalOutcome, TrapAction, TrapCause,
};

struct RamDisk {
    blocks: Vec<[u8; BLOCK_SZ]>,
}

impl BlockDevice for RamDisk {
    fn read_block(&self, block_id: usize, buf: &mut [u8]) {
        buf.copy_from_slice(&self.blocks[block_id]);
    }

    fn write_block(&mut self, block_id: usize, buf: &[u8]) {
        self.blocks[block_id].copy_from_slice(buf);
    }
}

type Fs = EasyFileSystem<RamDisk>;

const BASE: usize = 0x10000;
const HANDLER: usize = 0x80201000;
const RESTORE: usize = 0x80200800;

/// A program with two pages that can be read, written and run.
fn program(data: &[u8], entry: u64) -> Vec<u8> {
    let mut v: Vec<u8> = vec![0x7f, b'E', b'L', b'F', 2, 1, 1, 0, 0, 0, 0, 0, 0, 0, 0, 0];
    v.extend_from_slice(&2u16.to_le_bytes());
    v.extend_from_slice(&243u16.to_le_bytes());
    v.extend_from_slice(&1u32.to_le_bytes());
    v.extend_from_slice(&entry.to_le_bytes());
    v.extend_from_slice(&64u64.to_le_bytes());
    v.extend_from_slice(&0u64.to_le_bytes());
    v.extend_from_slice(&0u32.to_le_bytes());
    for x in [64u16, 56, 1, 64, 0, 0] {
        v.extend_from_slice(&x.to_le_bytes());
    }
    v.extend_from_slice(&1u32.to_le_bytes());
    v.extend_from_slice(&7u32.to_le_bytes());
    for x in [120u64, BASE as u64, BASE as u64, data.len() as u64, 8192, 4096] {
        v.extend_from_slice(&x.to_le_bytes());
    }
    v.extend_from_slice(data);
    v
}

/// A kernel on which the first process runs.
fn boot() -> (Kernel, Fs) {
    let l = KernelLayout {
        stext: 0x80200000,
        etext: 0x80203000,
        srodata: 0x80203000,
        erodata: 0x80205000,
        sdata: 0x80205000,
        edata: 0x80207000,
        sbss_with_stack: 0x80207000,
        ebss: 0x80209000,
        ekernel: MEMORY_END - 256 * PAGE_SIZE,
        strampoline: 0x80202000,
    };
    let mut k = Kernel::new(Machine::new(&l, HANDLER, RESTORE));
    let disk = RamDisk { blocks: vec![[0u8; BLOCK_SZ]; 8192] };
    let mut fs = EasyFileSystem::create(disk, 4096, 1);
    pack_app("ch7b_initproc", &program(b"init", 0x10010), &mut fs);
    pack_app("hello", &program(b"hello program", 0x10020), &mut fs);
    add_initproc(0x120, &mut k, &mut fs);
    assert_eq!(run_tasks(&mut k), Some(0));
    (k, fs)
}

/// The bytes of the current process.
fn memory(k: &Kernel, v: usize, n: usize) -> Vec<u8> {
    read_user(&k.tasks[at(k)].inner.memory_set, v, n, &k.machine.mem)
}

fn at(k: &Kernel) -> usize {
    let pid = current_task(k).unwrap();
    k.tasks.iter().position(|t| t.getpid() == pid).unwrap()
}

fn done(step: FileStep) -> isize {
    match step {
        FileStep::Done(n) => n,
        _ => panic!("not done"),
    }
}

/// The current process makes way for the next one.
fn switch(k: &mut Kernel) -> usize {
    sys_yield(k);
    run_tasks(k).unwrap()
}

#[test]
fn the_first_process_starts_at_its_entry() {
    let (k, _) = boot();
    assert_eq!(sys_getpid(&k), 0);
    let cx = current_trap_cx(&k);
    assert_eq!(cx.sepc, 0x10010);
    assert_eq!(cx.x[2], 0x10000 + 0x2000 + 0x1000 + 0x2000);
    assert_eq!(cx.sstatus, 0x20);
    assert_eq!(cx.trap_handler, HANDLER);
    assert_eq!(cx.kernel_satp, k.machine.kernel_space.token());
    assert_eq!(cx.kernel_sp, TRAMPOLINE);
    let t = &k.tasks[0];
    assert_eq!(t.inner.task_status, TaskStatus::Running);
    assert_eq!(t.inner.task_cx.ra, RESTORE);
    assert_eq!(t.inner.task_cx.sp, TRAMPOLINE);
    assert_eq!(
        t.inner.fd_table,
        vec![Some(FileHandle::Stdin), Some(FileHandle::Stdout), Some(FileHandle::Stdout)]
    );
    assert_eq!(current_user_token(&k), t.get_user_token());
    assert_eq!(memory(&k, BASE, 5), b"init\0".to_vec());
    let (cx_ptr, satp, va) = trap_return(0x80202000, 0x80202040, &k);
    assert_eq!((cx_ptr, satp, va), (TRAP_CONTEXT_BASE, current_user_token(&k), TRAMPOLINE + 0x40));
}

#[test]
fn a_child_is_a_copy_that_returns_zero() {
    let (mut k, _) = boot();
    write_current(&mut k, BASE, b"mine");
    let child = sys_fork(&mut k);
    assert_eq!(child, 1);
    finish_syscall(child, &mut k);
    assert_eq!(current_trap_cx(&k).x[10], 1);
    write_current(&mut k, BASE, b"more");
    assert_eq!(switch(&mut k), 1);
    assert_eq!(sys_getpid(&k), 1);
    assert_eq!(current_trap_cx(&k).x[10], 0);
    assert_eq!(current_trap_cx(&k).sepc, 0x10010);
    assert_eq!(current_trap_cx(&k).kernel_sp, TRAMPOLINE - KERNEL_STACK_SIZE - PAGE_SIZE);
    assert_eq!(memory(&k, BASE, 4), b"mine".to_vec());
    assert_eq!(k.tasks[1].inner.parent, Some(0));
    assert_eq!(k.tasks[0].inner.children, vec![1]);
    assert_ne!(k.tasks[0].get_user_token(), k.tasks[1].get_user_token());
}

#[test]
fn an_exited_child_is_waited_for_once() {
    let (mut k, _) = boot();
    assert_eq!(sys_waitpid(-1, 0, &mut k), -1);
    sys_fork(&mut k);
    assert_eq!(sys_waitpid(-1, 0, &mut k), -2);
    assert_eq!(sys_waitpid(1, BASE, &mut k), -2);
    assert_eq!(sys_waitpid(7, BASE, &mut k), -1);
    assert_eq!(switch(&mut k), 1);
    sys_exit(-5, &mut k);
    assert_eq!(run_tasks(&mut k), Some(0));
    assert!(k.tasks[1].inner.is_zombie());
    assert_eq!(sys_waitpid(-1, BASE + 0x100, &mut k), 1);
    assert_eq!(memory(&k, BASE + 0x100, 4), (-5i32).to_le_bytes().to_vec());
    assert_eq!(k.tasks.len(), 1);
    assert_eq!(sys_waitpid(-1, BASE, &mut k), -1);
    // the number is free again
    assert_eq!(sys_fork(&mut k), 1);
}

#[test]
fn children_go_to_the_first_process() {
    let (mut k, _) = boot();
    sys_fork(&mut k);
    assert_eq!(switch(&mut k), 1);
    assert_eq!(sys_fork(&mut k), 2);
    sys_exit(0, &mut k);
    let grandchild = k.tasks.iter().find(|t| t.getpid() == 2).unwrap();
    assert_eq!(grandchild.inner.parent, Some(0));
    assert_eq!(k.tasks[0].inner.children, vec![1, 2]);
}

#[test]
fn all_memory_comes_back() {
    let (mut k, mut fs) = boot();
    // each child takes more than two hundredths of the frames
    for i in 0..100 {
        let pid = sys_fork(&mut k);
        while current_task(&k) != Some(pid as usize) {
            switch(&mut k);
        }
        write_current(&mut k, BASE, b"hello\0\0\0\0\0\0\0\0\0\0\0");
        assert_eq!(sys_exec(BASE, BASE + 8, 0, &mut k, &mut fs), 0);
        sys_exit(i, &mut k);
        assert_eq!(run_tasks(&mut k), Some(0));
        assert_eq!(sys_waitpid(pid, BASE, &mut k), pid);
    }
    assert_eq!(k.tasks.len(), 1);
}

#[test]
fn the_process_that_went_least_far_runs() {
    let (mut k, _) = boot();
    sys_fork(&mut k);
    k.tasks[1].inner.pass = 2 * k.tasks[0].inner.pass;
    let mut ran = [0, 0];
    for _ in 0..300 {
        ran[switch(&mut k)] += 1;
    }
    assert!(ran[0] >= 199 && ran[0] <= 201);
    assert_eq!(ran[0] + ran[1], 300);
}

#[test]
fn nothing_runs_when_nothing_is_ready() {
    let (mut k, _) = boot();
    let pid = current_task(&k);
    k.processor.take_current();
    assert_eq!(pid, Some(0));
    assert_eq!(current_task(&k), None);
    assert_eq!(run_tasks(&mut k), None);
    assert_eq!(sys_sigprocmask(1, &mut k), -1);
    assert_eq!(sys_sigreturn(&mut k), -1);
}

#[test]
fn a_program_gets_its_arguments() {
    let (mut k, mut fs) = boot();
    write_current(&mut k, BASE, b"hello\0");
    write_current(&mut k, BASE + 0x40, b"one\0");
    write_current(&mut k, BASE + 0x50, b"second\0");
    write_current(&mut k, BASE + 0x80, &(BASE + 0x40).to_le_bytes());
    write_current(&mut k, BASE + 0x88, &(BASE + 0x50).to_le_bytes());
    write_current(&mut k, BASE + 0x90, &0usize.to_le_bytes());
    assert_eq!(sys_exec(BASE, BASE + 0x80, 0x20, &mut k, &mut fs), 2);
    let cx = current_trap_cx(&k);
    assert_eq!(cx.sepc, 0x10020);
    assert_eq!(cx.x[10], 2);
    let top = 0x10000 + 0x2000 + 0x1000 + 0x2000;
    assert_eq!(cx.x[11], top - 24);
    assert_eq!(cx.x[2] % 8, 0);
    let space = &k.tasks[0].inner.memory_set;
    let mem = &k.machine.mem;
    let first = read_user_word(space, cx.x[11], mem);
    let second = read_user_word(space, cx.x[11] + 8, mem);
    assert_eq!(first, top - 24 - 4);
    assert_eq!(second, top - 24 - 4 - 7);
    assert_eq!(cx.x[2], (second / 8) * 8);
    assert_eq!(read_user_word(space, cx.x[11] + 16, mem), 0);
    assert_eq!(translated_str(space, first, mem), "one");
    assert_eq!(translated_str(space, second, mem), "second");
    assert_eq!(memory(&k, BASE, 13), b"hello program".to_vec());
}

#[test]
fn an_unknown_program_is_not_run() {
    let (mut k, mut fs) = boot();
    write_current(&mut k, BASE, b"nothing\0");
    write_current(&mut k, BASE + 8, &0usize.to_le_bytes());
    assert_eq!(sys_exec(BASE, BASE + 8, 0, &mut k, &mut fs), -1);
    assert_eq!(memory(&k, BASE, 7), b"nothing".to_vec());
}

#[test]
fn the_heap_grows_and_shrinks() {
    let (mut k, _) = boot();
    let top = 0x15000;
    assert_eq!(sys_sbrk(0, &mut k), top);
    assert_eq!(sys_sbrk(5000, &mut k), top);
    write_current(&mut k, top as usize + 4990, b"heap");
    assert_eq!(memory(&k, top as usize + 4990, 4), b"heap".to_vec());
    assert_eq!(sys_sbrk(-1000, &mut k), top + 5000);
    assert_eq!(sys_sbrk(-4001, &mut k), -1);
    assert_eq!(sys_sbrk(-4000, &mut k), top + 4000);
    assert_eq!(sys_sbrk(0, &mut k), top);
}

#[test]
fn the_break_comes_back() {
    let (mut k, _) = boot();
    let top = 0x15000;
    assert_eq!(sys_sbrk(100, &mut k), top);
    write_current(&mut k, top as usize, b"kept");
    for n in [1, 4096, 10000] {
        assert_eq!(sys_sbrk(n, &mut k), top + 100);
        assert_eq!(sys_sbrk(-n, &mut k), top + 100 + n as isize);
        assert_eq!(sys_sbrk(0, &mut k), top + 100);
        assert_eq!(memory(&k, top as usize, 4), b"kept".to_vec());
    }
    // down and up again, the page is a cleared one
    assert_eq!(sys_sbrk(-100, &mut k), top + 100);
    assert_eq!(sys_sbrk(100, &mut k), top);
    assert_eq!(sys_sbrk(0, &mut k), top + 100);
    assert_eq!(memory(&k, top as usize, 4), vec![0; 4]);
}

#[test]
fn the_break_outlives_a_new_program() {
    let (mut k, mut fs) = boot();
    let top = 0x15000;
    assert_eq!(sys_sbrk(4096, &mut k), top);
    write_current(&mut k, BASE, b"hello\0\0\0\0\0\0\0\0\0\0\0");
    assert_eq!(sys_exec(BASE, BASE + 8, 0, &mut k, &mut fs), 0);
    // the new heap is empty, and grows from its bottom up to the new break
    assert_eq!(sys_sbrk(10, &mut k), top + 4096);
    write_current(&mut k, top as usize, b"bottom");
    assert_eq!(memory(&k, top as usize + 4096, 4), vec![0; 4]);
}

#[test]
fn a_kill_ends_a_process_that_has_other_signals() {
    let (mut k, _) = boot();
    sys_fork(&mut k);
    assert_eq!(sys_kill(1, 1, &mut k), 0);
    assert_eq!(sys_kill(1, 9, &mut k), 0);
    assert_eq!(switch(&mut k), 1);
    assert_eq!(check_signals(&mut k), SignalOutcome::Exit);
    assert_eq!(k.tasks[1].inner.exit_code, -9);
}

#[test]
fn files_are_opened_written_and_read() {
    let (mut k, mut fs) = boot();
    write_current(&mut k, BASE, b"note\0");
    assert_eq!(sys_open(BASE, 0, &mut k, &mut fs), -1);
    assert_eq!(sys_open(BASE, 0x201, &mut k, &mut fs), 3);
    write_current(&mut k, BASE + 0xffc, b"over the page");
    assert_eq!(done(sys_write(3, BASE + 0xffc, 13, 0, &mut k, &mut fs)), 13);
    assert_eq!(done(sys_read(3, BASE, 4, 0, 0, &mut k, &mut fs)), -1);
    assert_eq!(sys_close(3, &mut k), 0);
    assert_eq!(sys_close(3, &mut k), -1);
    assert_eq!(sys_open(BASE, 0, &mut k, &mut fs), 3);
    assert_eq!(done(sys_write(3, BASE, 4, 0, &mut k, &mut fs)), -1);
    assert_eq!(done(sys_read(3, BASE + 0x100, 8, 0, 0, &mut k, &mut fs)), 8);
    assert_eq!(memory(&k, BASE + 0x100, 9), b"over the\0".to_vec());
    assert_eq!(sys_dup(3, &mut k), 4);
    assert_eq!(done(sys_read(4, BASE + 0x100, 100, 0, 0, &mut k, &mut fs)), 5);
    assert_eq!(memory(&k, BASE + 0x100, 5), b" page".to_vec());
    assert_eq!(done(sys_read(3, BASE + 0x100, 100, 0, 0, &mut k, &mut fs)), 0);
    // opened for truncation, the file is empty
    assert_eq!(sys_open(BASE, 0x402, &mut k, &mut fs), 5);
    assert_eq!(done(sys_read(5, BASE + 0x100, 100, 0, 0, &mut k, &mut fs)), 0);
    assert_eq!(sys_dup(9, &mut k), -1);
    assert_eq!(done(sys_write(9, BASE, 1, 0, &mut k, &mut fs)), -1);
    assert_eq!(done(sys_read(9, BASE, 1, 0, 0, &mut k, &mut fs)), -1);
}

#[test]
fn a_free_descriptor_is_used_again() {
    let (mut k, _) = boot();
    assert_eq!(sys_dup(1, &mut k), 3);
    assert_eq!(sys_dup(1, &mut k), 4);
    assert_eq!(sys_close(0, &mut k), 0);
    assert_eq!(sys_dup(1, &mut k), 0);
    assert_eq!(sys_dup(1, &mut k), 5);
}

#[test]
fn output_is_printed_page_by_page() {
    let (mut k, mut fs) = boot();
    write_current(&mut k, BASE + 0xffe, "abcd\u{e9}".as_bytes());
    match sys_write(1, BASE + 0xffe, 6, 0, &mut k, &mut fs) {
        FileStep::Print(v, n) => {
            assert_eq!(v, vec!["ab".to_string(), "cd\u{e9}".to_string()]);
            assert_eq!(n, 6);
        }
        _ => panic!("nothing printed"),
    }
    assert_eq!(done(sys_write(0, BASE, 1, 0, &mut k, &mut fs)), -1);
}

#[test]
fn a_character_is_read_when_there_is_one() {
    let (mut k, mut fs) = boot();
    assert!(matches!(sys_read(0, BASE, 1, 0, 0, &mut k, &mut fs), FileStep::Wait(0)));
    assert_eq!(done(sys_read(0, BASE, 1, 0, 0x71, &mut k, &mut fs)), 1);
    assert_eq!(memory(&k, BASE, 1), b"q".to_vec());
    assert_eq!(done(sys_read(1, BASE, 1, 0, 0x71, &mut k, &mut fs)), -1);
}

#[test]
fn a_pipe_hands_bytes_on_in_order() {
    let (mut k, mut fs) = boot();
    assert_eq!(sys_pipe(BASE, &mut k), 0);
    assert_eq!(memory(&k, BASE, 16), [3u64.to_le_bytes(), 4u64.to_le_bytes()].concat());
    let data: Vec<u8> = (1..=40).collect();
    write_current(&mut k, BASE + 0x100, &data);
    // 32 bytes fit
    assert!(matches!(sys_write(4, BASE + 0x100, 40, 0, &mut k, &mut fs), FileStep::Wait(32)));
    assert_eq!(done(sys_read(3, BASE + 0x200, 10, 0, 0, &mut k, &mut fs)), 10);
    assert_eq!(memory(&k, BASE + 0x200, 10), data[..10].to_vec());
    assert_eq!(done(sys_write(4, BASE + 0x100, 40, 32, &mut k, &mut fs)), 40);
    assert!(matches!(sys_read(3, BASE + 0x200, 50, 0, 0, &mut k, &mut fs), FileStep::Wait(30)));
    assert_eq!(memory(&k, BASE + 0x200, 30), data[10..].to_vec());
    assert_eq!(sys_close(4, &mut k), 0);
    // no write end is left
    assert_eq!(done(sys_read(3, BASE + 0x200, 50, 30, 0, &mut k, &mut fs)), 30);
}

#[test]
fn a_child_holds_the_write_end_too() {
    let (mut k, mut fs) = boot();
    sys_pipe(BASE, &mut k);
    sys_fork(&mut k);
    sys_close(4, &mut k);
    assert!(matches!(sys_read(3, BASE, 4, 0, 0, &mut k, &mut fs), FileStep::Wait(0)));
    assert_eq!(switch(&mut k), 1);
    write_current(&mut k, BASE, b"ping");
    assert_eq!(done(sys_write(4, BASE, 4, 0, &mut k, &mut fs)), 4);
    sys_exit(0, &mut k);
    assert_eq!(run_tasks(&mut k), Some(0));
    assert_eq!(done(sys_read(3, BASE, 4, 0, 0, &mut k, &mut fs)), 4);
    assert_eq!(memory(&k, BASE, 4), b"ping".to_vec());
}

#[test]
fn the_last_holder_closes_the_write_end() {
    let (mut k, mut fs) = boot();
    sys_pipe(BASE, &mut k);
    assert_eq!(sys_dup(4, &mut k), 5);
    write_current(&mut k, BASE, b"left");
    assert_eq!(done(sys_write(5, BASE, 4, 0, &mut k, &mut fs)), 4);
    sys_fork(&mut k);
    let wants_more =
        |k: &mut Kernel, fs: &mut Fs| matches!(sys_read(3, BASE, 8, 4, 0, k, fs), FileStep::Wait(_));
    assert!(matches!(sys_read(3, BASE, 8, 0, 0, &mut k, &mut fs), FileStep::Wait(4)));
    assert_eq!(sys_close(4, &mut k), 0);
    assert!(wants_more(&mut k, &mut fs));
    assert_eq!(sys_close(5, &mut k), 0);
    // the child holds it twice
    assert!(wants_more(&mut k, &mut fs));
    assert_eq!(switch(&mut k), 1);
    assert_eq!(sys_close(5, &mut k), 0);
    assert!(wants_more(&mut k, &mut fs));
    sys_exit(0, &mut k);
    assert_eq!(run_tasks(&mut k), Some(0));
    assert_eq!(done(sys_read(3, BASE, 8, 4, 0, &mut k, &mut fs)), 4);
}

#[test]
fn a_system_call_moves_on_and_keeps_registers() {
    let (mut k, _) = boot();
    let mut cx = current_trap_cx(&k);
    cx.set_x(17, 64);
    cx.set_x(10, 1);
    cx.set_x(11, 2);
    cx.set_x(12, 3);
    cx.set_x(13, 4);
    cx.set_x(20, 99);
    set_current_trap_cx(&mut k, &cx);
    match trap_handler(TrapCause::UserEnvCall, &mut k) {
        TrapAction::Syscall(id, args) => {
            assert_eq!(id, 64);
            assert_eq!(args, [1, 2, 3, 4]);
        }
        _ => panic!("no system call"),
    }
    finish_syscall(-1, &mut k);
    let after = current_trap_cx(&k);
    assert_eq!(after.sepc, cx.sepc + 4);
    assert_eq!(after.x[10], usize::MAX);
    assert_eq!(after.x[20], 99);
}

#[test]
fn the_timer_lets_others_run() {
    let (mut k, _) = boot();
    sys_fork(&mut k);
    assert!(matches!(trap_handler(TrapCause::SupervisorTimer, &mut k), TrapAction::Preempt(0)));
    assert_eq!(run_tasks(&mut k), Some(1));
}

#[test]
fn a_fault_ends_the_process() {
    let (mut k, _) = boot();
    sys_fork(&mut k);
    assert_eq!(switch(&mut k), 1);
    assert_eq!(check_signals_error_of_current(&k), None);
    assert!(matches!(trap_handler(TrapCause::LoadPageFault, &mut k), TrapAction::Continue));
    assert_eq!(k.tasks[1].inner.signal.signals, SignalFlags { bits: SIGSEGV });
    assert_eq!(
        check_signals_error_of_current(&k),
        Some((-11, "Segmentation Fault, SIGSEGV=11"))
    );
    assert_eq!(check_signals(&mut k), SignalOutcome::Exit);
    assert_eq!(run_tasks(&mut k), Some(0));
    assert_eq!(sys_waitpid(1, BASE, &mut k), 1);
    assert_eq!(memory(&k, BASE, 4), (-11i32).to_le_bytes().to_vec());
}

#[test]
fn an_illegal_instruction_ends_the_process() {
    let (mut k, _) = boot();
    sys_fork(&mut k);
    assert_eq!(switch(&mut k), 1);
    trap_handler(TrapCause::IllegalInstruction, &mut k);
    assert_eq!(
        check_signals_error_of_current(&k),
        Some((-4, "Illegal Instruction, SIGILL=4"))
    );
    assert_eq!(check_signals(&mut k), SignalOutcome::Exit);
    assert_eq!(k.tasks[1].inner.exit_code, -4);
}

#[test]
fn each_error_has_its_text() {
    let text = |bits: u32| SignalFlags { bits }.check_error();
    assert_eq!(text(4), Some((-2, "Killed, SIGINT=2")));
    assert_eq!(text(0x10), Some((-4, "Illegal Instruction, SIGILL=4")));
    assert_eq!(text(0x40), Some((-6, "Aborted, SIGABRT=6")));
    assert_eq!(text(SIGFPE), Some((-8, "Erroneous Arithmetic Operation, SIGFPE=8")));
    assert_eq!(text(0x200), Some((-9, "Killed, SIGKILL=9")));
    assert_eq!(text(SIGSEGV), Some((-11, "Segmentation Fault, SIGSEGV=11")));
    assert_eq!(text(SIGUSR1), None);
}

#[test]
fn a_handler_runs_and_returns() {
    let (mut k, _) = boot();
    let action = BASE + 0x100;
    let old = BASE + 0x200;
    write_current(&mut k, action, &0x12340usize.to_le_bytes());
    write_current(&mut k, action + 8, &0x800u32.to_le_bytes());
    assert_eq!(sys_sigaction(10, action, old, &mut k), 0);
    assert_eq!(memory(&k, old, 12), [&0usize.to_le_bytes()[..], &40u32.to_le_bytes()[..]].concat());
    assert_eq!(sys_sigaction(10, action, old, &mut k), 0);
    assert_eq!(
        memory(&k, old, 12),
        [&0x12340usize.to_le_bytes()[..], &0x800u32.to_le_bytes()[..]].concat()
    );
    let mut cx = current_trap_cx(&k);
    cx.set_x(10, 77);
    set_current_trap_cx(&mut k, &cx);
    assert_eq!(sys_kill(0, 10, &mut k), 0);
    assert_eq!(sys_kill(0, 10, &mut k), -1);
    assert_eq!(check_signals(&mut k), SignalOutcome::Return);
    let started = current_trap_cx(&k);
    assert_eq!(started.sepc, 0x12340);
    assert_eq!(started.x[10], 10);
    assert_eq!(started.x[2], cx.x[2]);
    assert_eq!(k.tasks[0].inner.signal.handling_sig, 10);
    // the handler masks 11, so it waits
    current_add_signal(&mut k, SignalFlags { bits: SIGUSR1 });
    assert_eq!(sys_sigreturn(&mut k), 77);
    assert_eq!(k.tasks[0].inner.signal.handling_sig, -1);
    assert_eq!(current_trap_cx(&k).sepc, cx.sepc);
    assert_eq!(current_trap_cx(&k).x[10], 77);
}

#[test]
fn some_actions_cannot_be_set() {
    let (mut k, _) = boot();
    assert_eq!(sys_sigaction(9, BASE, BASE, &mut k), -1);
    assert_eq!(sys_sigaction(19, BASE, BASE, &mut k), -1);
    assert_eq!(sys_sigaction(10, 0, BASE, &mut k), -1);
    assert_eq!(sys_sigaction(10, BASE, 0, &mut k), -1);
    assert_eq!(sys_sigaction(-1, BASE, BASE, &mut k), -1);
    assert_eq!(sys_sigaction(32, BASE, BASE, &mut k), -1);
    assert_eq!(sys_kill(5, 9, &mut k), -1);
    assert_eq!(sys_kill(5, 99, &mut k), -1);
}

#[test]
fn a_signal_that_is_none_is_refused() {
    let (mut k, _) = boot();
    sys_fork(&mut k);
    for signum in [32, 99, -1, i32::MIN, i32::MAX] {
        assert_eq!(sys_kill(1, signum, &mut k), -1);
        assert_eq!(k.tasks[1].inner.signal.signals, SignalFlags { bits: 0 });
    }
    assert_eq!(sys_kill(1, 31, &mut k), 0);
    assert_eq!(k.tasks[1].inner.signal.signals, SignalFlags { bits: 1 << 31 });
}

#[test]
fn the_saved_action_restores_the_table() {
    let (mut k, _) = boot();
    let before: Vec<(usize, u32)> = actions(&k);
    write_current(&mut k, BASE, &0x12340usize.to_le_bytes());
    write_current(&mut k, BASE + 8, &0x800u32.to_le_bytes());
    assert_eq!(sys_sigaction(10, BASE, BASE + 0x100, &mut k), 0);
    assert_ne!(actions(&k), before);
    assert_eq!(actions(&k)[10], (0x12340, 0x800));
    assert_eq!(sys_sigaction(10, BASE + 0x100, BASE + 0x10c + 4, &mut k), 0);
    assert_eq!(actions(&k), before);
    assert_eq!(memory(&k, BASE + 0x110, 12), memory(&k, BASE, 12));
}

/// The actions of the current process, each by its handler and its mask.
fn actions(k: &Kernel) -> Vec<(usize, u32)> {
    let table = &k.tasks[at(k)].inner.signal.signal_actions.table;
    (0..table.len()).map(|i| (table[i].handler, table[i].mask.bits)).collect()
}

#[test]
fn a_masked_signal_waits() {
    let (mut k, _) = boot();
    write_current(&mut k, BASE, &0x12340usize.to_le_bytes());
    sys_sigaction(10, BASE, BASE + 0x100, &mut k);
    assert_eq!(sys_sigprocmask(SIGUSR1, &mut k), 0);
    sys_kill(0, 10, &mut k);
    let before = current_trap_cx(&k).sepc;
    assert_eq!(check_signals(&mut k), SignalOutcome::Return);
    assert_eq!(current_trap_cx(&k).sepc, before);
    assert_eq!(sys_sigprocmask(0, &mut k), SIGUSR1 as isize);
    check_signals(&mut k);
    assert_eq!(current_trap_cx(&k).sepc, 0x12340);
}

#[test]
fn a_stopped_process_waits_until_it_may_go_on() {
    let (mut k, _) = boot();
    sys_fork(&mut k);
    assert_eq!(switch(&mut k), 1);
    assert_eq!(sys_kill(1, 19, &mut k), 0);
    assert_eq!(check_signals(&mut k), SignalOutcome::Wait);
    assert_eq!(run_tasks(&mut k), Some(0));
    assert_eq!(switch(&mut k), 1);
    assert_eq!(check_signals(&mut k), SignalOutcome::Wait);
    assert_eq!(run_tasks(&mut k), Some(0));
    assert_eq!(sys_kill(1, 18, &mut k), 0);
    assert_eq!(switch(&mut k), 1);
    assert_eq!(check_signals(&mut k), SignalOutcome::Return);
}

#[test]
fn a_killed_process_ends() {
    let (mut k, _) = boot();
    sys_fork(&mut k);
    assert_eq!(sys_kill(1, 9, &mut k), 0);
    assert_eq!(switch(&mut k), 1);
    assert_eq!(check_signals(&mut k), SignalOutcome::Exit);
    assert!(k.tasks[1].inner.signal.killed);
    assert_eq!(run_tasks(&mut k), Some(0));
    assert_eq!(sys_kill(1, 9, &mut k), -1);
    assert_eq!(sys_waitpid(1, BASE, &mut k), 1);
    assert_eq!(memory(&k, BASE, 4), (-9i32).to_le_bytes().to_vec());
}

#[test]
fn some_calls_are_not_supported() {
    assert_eq!(sys_get_time(BASE, 0), -1);
    assert_eq!(sys_mmap(BASE, 1, 1), -1);
    assert_eq!(sys_munmap(BASE, 1), -1);
    assert_eq!(sys_spawn(BASE), -1);
    assert_eq!(sys_set_priority(3), -1);
    assert_eq!(sys_fstat(0, BASE), -1);
    assert_eq!(sys_linkat(BASE, BASE), -1);
    assert_eq!(sys_unlinkat(BASE), -1);
}

#[test]
fn numbers_are_recycled() {
    let mut ids = RecycleAllocator::new();
    let p0 = pid_alloc(&mut ids);
    let p1 = pid_alloc(&mut ids);
    let p2 = pid_alloc(&mut ids);
    assert_eq!((p0.0, p1.0, p2.0), (0, 1, 2));
    p1.release(&mut ids);
    assert_eq!(ids.allocate(), 1);
    ids.dealloc(0);
    ids.dealloc(2);
    assert_eq!(ids.allocate(), 2);
    assert_eq!(ids.allocate(), 0);
    assert_eq!(ids.allocate(), 3);
}

#[test]
fn kernel_stacks_lie_apart() {
    assert_eq!(kernel_stack_position(0), (TRAMPOLINE - 8192, TRAMPOLINE));
    assert_eq!(kernel_stack_position(1), (TRAMPOLINE - 12288 - 8192, TRAMPOLINE - 12288));
    let (k, _) = boot();
    assert_eq!(k.tasks[0].kernel_stack.get_top(), TRAMPOLINE);
}

#[test]
fn a_value_lies_on_top_of_a_kernel_stack() {
    let (mut k, _) = boot();
    let stack = &k.tasks[0].kernel_stack;
    let at = stack.push_on_top(b"value", &k.machine.kernel_space, &mut k.machine.mem);
    assert_eq!(at, TRAMPOLINE - 5);
    assert_eq!(read_user(&k.machine.kernel_space, at, 5, &k.machine.mem), b"value".to_vec());
    let at = stack.push_on_top(b"XY", &k.machine.kernel_space, &mut k.machine.mem);
    assert_eq!(at, TRAMPOLINE - 2);
    assert_eq!(read_user(&k.machine.kernel_space, at - 3, 5, &k.machine.mem), b"valXY".to_vec());
}
