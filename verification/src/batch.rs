//! batch subsystem: programs that run one after the other, each at the same address.
use crate::config::{KERNEL_STACK_SIZE, USER_STACK_SIZE};
use crate::easy_fs::bytes::{le64, le64_bytes, lemma_le64_of_bytes, Record};
use crate::trap::context::SSTATUS_SPP;
use vstd::prelude::*;

verus! {

/// The largest number of programs.
pub const MAX_APP_NUM: usize = 16;

/// Where a program runs.
pub const APP_BASE_ADDRESS: usize = 0x80400000;

/// How many bytes there are for a program.
pub const APP_SIZE_LIMIT: usize = 0x20000;

/// The number of words of the trap context of a program.
pub const APP_WORDS: usize = 34;

/// The trap context of a program of the batch. The program works in the address space of the
/// kernel, so there is no page table in it to go back to.
#[derive(Copy, Clone)]
pub struct AppContext {
    /// general regs[0..31]
    pub x: [usize; 32],
    /// CSR sstatus
    pub sstatus: usize,
    /// CSR sepc
    pub sepc: usize,
}

/// The values in an [`AppContext`].
#[verifier::ext_equal]
pub struct AppCxModel {
    pub x: Seq<usize>,
    pub sstatus: usize,
    pub sepc: usize,
}

impl View for AppContext {
    type V = AppCxModel;

    open spec fn view(&self) -> AppCxModel {
        AppCxModel { x: self.x@, sstatus: self.sstatus, sepc: self.sepc }
    }
}

impl AppCxModel {
    /// The words of the context in the order in which they lie in memory.
    pub open spec fn word(self, i: int) -> usize {
        if i < 32 {
            self.x[i]
        } else if i == 32 {
            self.sstatus
        } else {
            self.sepc
        }
    }

    /// The bytes of the context.
    pub open spec fn bytes(self) -> Seq<u8> {
        Seq::new(272, |k: int| le64_bytes(self.word(k / 8) as u64)[k % 8])
    }
}

/// The context with which a program starts, as a value: in user mode, at its entry point, with
/// its stack pointer set and zero in the other registers.
pub open spec fn first_context(entry: usize, sp: usize, sstatus: usize) -> AppCxModel {
    AppCxModel {
        x: Seq::new(32, |i: int| 0usize).update(2, sp),
        sstatus: sstatus & !SSTATUS_SPP,
        sepc: entry,
    }
}

impl AppContext {
    /// set stack pointer to x_2 reg (sp)
    pub fn set_sp(&mut self, sp: usize)
        ensures
            final(self)@ == (AppCxModel { x: old(self)@.x.update(2, sp), ..old(self)@ }),
    {
        self.x[2] = sp;
        assert(self@.x =~= old(self)@.x.update(2, sp));
    }

    /// init app context. `sstatus` is the value of the CSR.
    pub fn app_init_context(entry: usize, sp: usize, sstatus: usize) -> (r: Self)
        ensures
            r@ == first_context(entry, sp, sstatus),
    {
        let mut cx: AppContext = AppContext {
            x: [0usize; 32],
            sstatus: sstatus & !SSTATUS_SPP,
            sepc: entry,
        };
        assert(cx@.x =~= Seq::new(32, |i: int| 0usize));
        cx.set_sp(sp);
        cx
    }

    /// The word at an index.
    fn word(&self, i: usize) -> (r: usize)
        requires
            i < APP_WORDS,
        ensures
            r == self@.word(i as int),
    {
        if i < 32 {
            self.x[i]
        } else if i == 32 {
            self.sstatus
        } else {
            self.sepc
        }
    }
}

/// The stack that the kernel works on: its bytes, and the address at which they lie.
pub struct KernelStack {
    pub base: usize,
    pub data: Vec<u8>,
}

/// The stack that a program works on, by the address at which it lies.
pub struct UserStack {
    pub base: usize,
}

impl KernelStack {
    /// The stack lies in memory as a whole.
    pub open spec fn wf(&self) -> bool {
        &&& self.data@.len() == KERNEL_STACK_SIZE
        &&& self.base + KERNEL_STACK_SIZE <= usize::MAX
    }

    /// The top of the stack when nothing is on it.
    pub fn get_sp(&self) -> (r: usize)
        requires
            self.wf(),
        ensures
            r == self.base + KERNEL_STACK_SIZE,
    {
        self.base + KERNEL_STACK_SIZE
    }

    /// Put a trap context on the empty stack, and return its address.
    pub fn push_context(&mut self, cx: &AppContext) -> (r: usize)
        requires
            old(self).wf(),
        ensures
            final(self).wf(),
            final(self).base == old(self).base,
            r + 272 == old(self).base + KERNEL_STACK_SIZE,
            final(self).data@ == old(self).data@.take(KERNEL_STACK_SIZE - 272) + cx@.bytes(),
    {
        let ghost d = self.data@;
        let start: usize = KERNEL_STACK_SIZE - 8 * APP_WORDS;
        let mut i: usize = 0;
        while i < APP_WORDS
            invariant
                i <= APP_WORDS,
                start == KERNEL_STACK_SIZE - 272,
                d.len() == KERNEL_STACK_SIZE,
                self.data@ == d.take(start as int) + cx@.bytes().take(8 * i) + d.skip(
                    start + 8 * i,
                ),
                self.base == old(self).base,
            decreases APP_WORDS - i,
        {
            let w: u64 = cx.word(i) as u64;
            let bytes: Vec<u8> = w.to_bytes();
            let mut j: usize = 0;
            while j < 8
                invariant
                    j <= 8,
                    i < APP_WORDS,
                    start == KERNEL_STACK_SIZE - 272,
                    d.len() == KERNEL_STACK_SIZE,
                    bytes@ == le64_bytes(cx@.word(i as int) as u64),
                    bytes@.len() == 8,
                    self.data@ == d.take(start as int) + cx@.bytes().take(8 * i + j) + d.skip(
                        start + 8 * i + j,
                    ),
                    self.base == old(self).base,
                decreases 8 - j,
            {
                let at: usize = start + 8 * i + j;
                self.data.set(at, bytes[j]);
                proof {
                    let k = 8 * i + j;
                    assert(k / 8 == i && k % 8 == j);
                    assert(cx@.bytes()[k] == bytes@[j as int]);
                    assert(self.data@ =~= d.take(start as int) + cx@.bytes().take(k + 1) + d.skip(
                        start + k + 1,
                    ));
                }
                j += 1;
            }
            i += 1;
        }
        assert(self.data@ =~= d.take(start as int) + cx@.bytes());
        self.get_sp() - 8 * APP_WORDS
    }
}

impl UserStack {
    /// The top of the stack when nothing is on it.
    pub fn get_sp(&self) -> (r: usize)
        requires
            self.base + USER_STACK_SIZE <= usize::MAX,
        ensures
            r == self.base + USER_STACK_SIZE,
    {
        self.base + USER_STACK_SIZE
    }
}

/// The programs of a batch: where each of them starts in memory, and which is next.
pub struct AppManager {
    num_app: usize,
    current_app: usize,
    app_start: [usize; 17],
}

/// The values of an [`AppManager`].
#[verifier::ext_equal]
pub struct BatchModel {
    /// The addresses at which the programs start, and the one at which the last ends.
    pub starts: Seq<usize>,
    /// The number of programs that were started.
    pub current: int,
}

impl BatchModel {
    /// The number of programs.
    pub open spec fn count(self) -> int {
        self.starts.len() - 1
    }

    /// The programs lie one behind the other, and each fits into the memory for it.
    pub open spec fn fits(self, i: int) -> bool {
        0 <= self.starts[i + 1] - self.starts[i] <= APP_SIZE_LIMIT
    }
}

impl View for AppManager {
    type V = BatchModel;

    closed spec fn view(&self) -> BatchModel {
        BatchModel {
            starts: self.app_start@.take(self.num_app + 1),
            current: self.current_app as int,
        }
    }
}

/// The table of programs that is linked to the kernel: their number, then the addresses at
/// which they start, then the one at which the last ends.
pub open spec fn app_table_ok(table: Seq<usize>) -> bool {
    &&& table.len() > 0
    &&& table[0] <= MAX_APP_NUM
    &&& table.len() >= table[0] + 2
}

impl AppManager {
    /// There are no more programs than fit into the table.
    pub closed spec fn wf(&self) -> bool {
        self.num_app <= MAX_APP_NUM
    }

    /// A batch with the programs of a table.
    pub fn new(table: &[usize]) -> (r: Self)
        requires
            app_table_ok(table@),
        ensures
            r.wf(),
            r@.starts == table@.subrange(1, table@[0] + 2),
            r@.current == 0,
    {
        let len: usize = table.len();
        let num_app: usize = table[0];
        let mut app_start: [usize; 17] = [0usize; 17];
        let mut i: usize = 0;
        while i <= num_app
            invariant
                i <= num_app + 1,
                num_app <= MAX_APP_NUM,
                num_app == table@[0],
                len == table@.len(),
                len >= num_app + 2,
                forall|k: int| 0 <= k < i ==> #[trigger] app_start@[k] == table@[k + 1],
            decreases num_app + 1 - i,
        {
            app_start[i] = table[i + 1];
            i += 1;
        }
        let r: AppManager = AppManager { num_app, current_app: 0, app_start };
        assert(r@.starts =~= table@.subrange(1, table@[0] + 2));
        r
    }

    /// The number of programs, and where each of them lies.
    pub fn app_info(&self) -> (r: Vec<(usize, usize)>)
        requires
            self.wf(),
        ensures
            r@.len() == self@.count(),
            forall|i: int|
                0 <= i < r@.len() ==> #[trigger] r@[i] == (self@.starts[i], self@.starts[i + 1]),
    {
        let mut v: Vec<(usize, usize)> = Vec::new();
        let mut i: usize = 0;
        while i < self.num_app
            invariant
                i <= self.num_app,
                self.num_app <= MAX_APP_NUM,
                v@.len() == i,
                self@.starts == self.app_start@.take(self.num_app + 1),
                forall|k: int|
                    0 <= k < i ==> #[trigger] v@[k] == (self@.starts[k], self@.starts[k + 1]),
            decreases self.num_app - i,
        {
            v.push((self.app_start[i], self.app_start[i + 1]));
            i += 1;
        }
        v
    }

    /// The bytes of the memory of a program when it was loaded: those of the program, and
    /// zero bytes behind them. `None` if there is no such program, as all have run.
    /// `app_src` is the memory at which the program lies.
    pub fn load_app(&self, app_id: usize, app_src: &[u8]) -> (r: Option<Vec<u8>>)
        requires
            self.wf(),
            app_id < self@.count() ==> self@.fits(app_id as int) && app_src@.len()
                == self@.starts[app_id + 1] - self@.starts[app_id as int],
        ensures
            match r {
                Some(v) => {
                    &&& app_id < self@.count()
                    &&& v@ == Seq::new(
                        APP_SIZE_LIMIT as nat,
                        |i: int|
                            if i < app_src@.len() {
                                app_src@[i]
                            } else {
                                0u8
                            },
                    )
                },
                None => app_id >= self@.count(),
            },
    {
        if app_id >= self.num_app {
            return None;
        }
        let len: usize = app_src.len();
        let mut v: Vec<u8> = Vec::new();
        let mut i: usize = 0;
        while i < APP_SIZE_LIMIT
            invariant
                i <= APP_SIZE_LIMIT,
                len == app_src@.len(),
                v@.len() == i,
                forall|k: int|
                    0 <= k < i ==> #[trigger] v@[k] == if k < app_src@.len() {
                        app_src@[k]
                    } else {
                        0u8
                    },
            decreases APP_SIZE_LIMIT - i,
        {
            if i < len {
                v.push(app_src[i]);
            } else {
                v.push(0);
            }
            i += 1;
        }
        assert(v@ =~= Seq::new(
            APP_SIZE_LIMIT as nat,
            |i: int|
                if i < app_src@.len() {
                    app_src@[i]
                } else {
                    0u8
                },
        ));
        Some(v)
    }

    /// The program that is next.
    pub fn get_current_app(&self) -> (r: usize)
        ensures
            r == self@.current,
    {
        self.current_app
    }

    /// Go on to the next program.
    pub fn move_to_next_app(&mut self)
        requires
            old(self).wf(),
            old(self)@.current < usize::MAX,
        ensures
            final(self).wf(),
            final(self)@ == (BatchModel { current: old(self)@.current + 1, ..old(self)@ }),
    {
        self.current_app += 1;
        assert(self@.starts =~= old(self)@.starts);
    }
}

/// run next app: what its memory holds, and the address of the trap context that lies on
/// the kernel stack, with which it starts. There is none when all have run. `app_src` are
/// the bytes of the program, and `sstatus` is the value of the CSR.
pub fn run_next_app(
    app_manager: &mut AppManager,
    app_src: &[u8],
    kernel_stack: &mut KernelStack,
    user_stack: &UserStack,
    sstatus: usize,
) -> (r: Option<(Vec<u8>, usize)>)
    requires
        old(app_manager).wf(),
        old(app_manager)@.current < old(app_manager)@.count() ==> {
            &&& old(app_manager)@.fits(old(app_manager)@.current)
            &&& app_src@.len() == old(app_manager)@.starts[old(app_manager)@.current + 1]
                - old(app_manager)@.starts[old(app_manager)@.current]
        },
        old(kernel_stack).wf(),
        user_stack.base + USER_STACK_SIZE <= usize::MAX,
    ensures
        final(app_manager).wf(),
        final(kernel_stack).wf(),
        final(kernel_stack).base == old(kernel_stack).base,
        match r {
            Some((v, cx_addr)) => {
                &&& old(app_manager)@.current < old(app_manager)@.count()
                &&& v@.len() == APP_SIZE_LIMIT
                &&& v@.take(app_src@.len() as int) == app_src@
                &&& forall|i: int| app_src@.len() <= i < v@.len() ==> v@[i] == 0
                &&& final(app_manager)@ == (BatchModel {
                    current: old(app_manager)@.current + 1,
                    ..old(app_manager)@
                })
                &&& cx_addr + 272 == old(kernel_stack).base + KERNEL_STACK_SIZE
                &&& final(kernel_stack).data@ == old(kernel_stack).data@.take(
                    KERNEL_STACK_SIZE - 272,
                ) + first_context(
                    APP_BASE_ADDRESS,
                    (user_stack.base + USER_STACK_SIZE) as usize,
                    sstatus,
                ).bytes()
            },
            None => {
                &&& old(app_manager)@.current >= old(app_manager)@.count()
                &&& final(app_manager)@ == old(app_manager)@
                &&& final(kernel_stack).data@ == old(kernel_stack).data@
            },
        },
{
    let current_app: usize = app_manager.get_current_app();
    match app_manager.load_app(current_app, app_src) {
        Some(loaded) => {
            app_manager.move_to_next_app();
            assert(loaded@.take(app_src@.len() as int) =~= app_src@);
            let cx: AppContext = AppContext::app_init_context(
                APP_BASE_ADDRESS,
                user_stack.get_sp(),
                sstatus,
            );
            let cx_addr: usize = kernel_stack.push_context(&cx);
            Some((loaded, cx_addr))
        },
        None => None,
    }
}

/// A program starts in user mode at its entry point, with its stack pointer in register 2 and
/// zero in the others. The other bits of the status are those that the CPU had.
pub proof fn law_first_app_context(entry: usize, sp: usize, sstatus: usize, i: int)
    requires
        0 <= i < 32,
    ensures
        ({
            let cx = first_context(entry, sp, sstatus);
            &&& cx.x.len() == 32
            &&& cx.x[i] == if i == 2 {
                sp
            } else {
                0
            }
            &&& cx.sepc == entry
            &&& cx.sstatus & 0x100 == 0
            &&& cx.sstatus | 0x100 == sstatus | 0x100
        }),
{
    assert((sstatus & !0x100usize) & 0x100 == 0 && (sstatus & !0x100usize) | 0x100 == sstatus
        | 0x100) by (bit_vector);
}

/// How the context of a program lies in memory: the 32 registers in order, eight bytes each,
/// then the status and then the program counter.
#[verifier::spinoff_prover]
#[verifier::rlimit(60)]
pub proof fn law_app_frame(cx: AppCxModel, i: int)
    requires
        0 <= i < 32,
    ensures
        cx.bytes().len() == 272,
        le64(cx.bytes(), 8 * i) == cx.x[i],
        le64(cx.bytes(), 256) == cx.sstatus,
        le64(cx.bytes(), 264) == cx.sepc,
{
    lemma_app_word(cx, i);
    lemma_app_word(cx, 32);
    lemma_app_word(cx, 33);
}

/// Each word is read back from its place.
#[verifier::spinoff_prover]
#[verifier::rlimit(60)]
proof fn lemma_app_word(cx: AppCxModel, i: int)
    requires
        0 <= i < 34,
    ensures
        le64(cx.bytes(), 8 * i) == cx.word(i),
{
    let b = cx.bytes();
    let w = cx.word(i) as u64;
    lemma_le64_of_bytes(w);
    let p = b.subrange(8 * i, 8 * i + 8);
    assert forall|j: int| 0 <= j < 8 implies p[j] == le64_bytes(w)[j] by {
        assert((8 * i + j) / 8 == i && (8 * i + j) % 8 == j);
    }
    assert(p =~= le64_bytes(w));
    assert(p[0] == b[8 * i] && p[1] == b[8 * i + 1] && p[2] == b[8 * i + 2] && p[3] == b[8 * i
        + 3] && p[4] == b[8 * i + 4] && p[5] == b[8 * i + 5] && p[6] == b[8 * i + 6] && p[7] == b[8
        * i + 7]);
    assert(le64(p, 0) == le64(b, 8 * i));
}

} // verus!
