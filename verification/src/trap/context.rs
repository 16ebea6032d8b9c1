//! Implementation of [`TrapContext`]: what is saved of a process when it traps.
use crate::config::PAGE_SIZE;
use crate::easy_fs::bytes::{le64, le64_bytes, lemma_le64_of_bytes, Record};
use crate::mm::address::PhysPageNum;
use crate::mm::frame_allocator::FrameMemory;
use vstd::prelude::*;

verus! {

/// The number of words of a trap context.
pub const TRAP_WORDS: usize = 37;

/// The bit of `sstatus` that says whether a trap came from supervisor mode.
pub const SSTATUS_SPP: usize = 0x100;

/// Trap Context
#[derive(Copy, Clone)]
pub struct TrapContext {
    /// general regs[0..31]
    pub x: [usize; 32],
    /// CSR sstatus
    pub sstatus: usize,
    /// CSR sepc
    pub sepc: usize,
    /// the page table of the kernel
    pub kernel_satp: usize,
    /// the top of the kernel stack of the process
    pub kernel_sp: usize,
    /// where the trap handler is
    pub trap_handler: usize,
}

/// The values in a trap context.
#[verifier::ext_equal]
pub struct TrapModel {
    pub x: Seq<usize>,
    pub sstatus: usize,
    pub sepc: usize,
    pub kernel_satp: usize,
    pub kernel_sp: usize,
    pub trap_handler: usize,
}

impl View for TrapContext {
    type V = TrapModel;

    open spec fn view(&self) -> TrapModel {
        TrapModel {
            x: self.x@,
            sstatus: self.sstatus,
            sepc: self.sepc,
            kernel_satp: self.kernel_satp,
            kernel_sp: self.kernel_sp,
            trap_handler: self.trap_handler,
        }
    }
}

impl TrapModel {
    /// The words of a trap context in the order in which they lie in memory.
    pub open spec fn word(self, i: int) -> usize {
        if i < 32 {
            self.x[i]
        } else if i == 32 {
            self.sstatus
        } else if i == 33 {
            self.sepc
        } else if i == 34 {
            self.kernel_satp
        } else if i == 35 {
            self.kernel_sp
        } else {
            self.trap_handler
        }
    }

    /// The context after a register was set.
    pub open spec fn with_x(self, i: int, v: usize) -> TrapModel {
        TrapModel { x: self.x.update(i, v), ..self }
    }
}

/// The bytes of a trap context.
pub open spec fn context_bytes(cx: TrapModel) -> Seq<u8> {
    Seq::new(296, |k: int| le64_bytes(cx.word(k / 8) as u64)[k % 8])
}

/// A page with a trap context at its start.
pub open spec fn with_context(page: Seq<u8>, cx: TrapModel) -> Seq<u8> {
    Seq::new(
        PAGE_SIZE as nat,
        |k: int|
            if k < 296 {
                le64_bytes(cx.word(k / 8) as u64)[k % 8]
            } else {
                page[k]
            },
    )
}

/// The word at an index of a page.
pub open spec fn page_word(page: Seq<u8>, i: int) -> usize {
    le64(page.subrange(8 * i, 8 * i + 8), 0) as usize
}

/// The trap context at the start of a page.
pub open spec fn context_in(page: Seq<u8>) -> TrapModel {
    TrapModel {
        x: Seq::new(32, |i: int| page_word(page, i)),
        sstatus: page_word(page, 32),
        sepc: page_word(page, 33),
        kernel_satp: page_word(page, 34),
        kernel_sp: page_word(page, 35),
        trap_handler: page_word(page, 36),
    }
}

/// The trap context that was put into a page is the one that is in it.
pub proof fn law_context_kept(page: Seq<u8>, cx: TrapModel)
    requires
        cx.x.len() == 32,
    ensures
        context_in(with_context(page, cx)) == cx,
{
    let p = with_context(page, cx);
    assert forall|i: int| 0 <= i < 37 implies #[trigger] page_word(p, i) == cx.word(i) by {
        let w = cx.word(i) as u64;
        lemma_le64_of_bytes(w);
        assert(p.subrange(8 * i, 8 * i + 8) =~= le64_bytes(w));
    }
    assert(context_in(p).x =~= cx.x) by {
        assert forall|i: int| 0 <= i < 32 implies context_in(p).x[i] == cx.x[i] by {
            assert(page_word(p, i) == cx.word(i));
        }
    }
    assert(page_word(p, 32) == cx.word(32));
    assert(page_word(p, 33) == cx.word(33));
    assert(page_word(p, 34) == cx.word(34));
    assert(page_word(p, 35) == cx.word(35));
    assert(page_word(p, 36) == cx.word(36));
}

/// The trap context with which a process starts, as a value.
pub open spec fn initial_context(
    entry: usize,
    sp: usize,
    kernel_satp: usize,
    kernel_sp: usize,
    trap_handler: usize,
    sstatus: usize,
) -> TrapModel {
    TrapModel {
        x: Seq::new(32, |i: int| 0usize).update(2, sp),
        sstatus: sstatus & !SSTATUS_SPP,
        sepc: entry,
        kernel_satp,
        kernel_sp,
        trap_handler,
    }
}

impl TrapContext {
    /// set stack pointer to x_2 reg (sp)
    pub fn set_sp(&mut self, sp: usize)
        ensures
            final(self)@ == old(self)@.with_x(2, sp),
    {
        self.x[2] = sp;
        assert(self@.x =~= old(self)@.x.update(2, sp));
    }

    /// Set a register.
    pub fn set_x(&mut self, i: usize, v: usize)
        requires
            i < 32,
        ensures
            final(self)@ == old(self)@.with_x(i as int, v),
    {
        self.x[i] = v;
        assert(self@.x =~= old(self)@.x.update(i as int, v));
    }

    /// init app context: the process starts in user mode at its entry point, with its
    /// stack pointer set. `sstatus` is the value of the CSR when the process is made.
    pub fn app_init_context(
        entry: usize,
        sp: usize,
        kernel_satp: usize,
        kernel_sp: usize,
        trap_handler: usize,
        sstatus: usize,
    ) -> (r: Self)
        ensures
            r@ == initial_context(entry, sp, kernel_satp, kernel_sp, trap_handler, sstatus),
    {
        let mut cx: TrapContext = TrapContext {
            x: [0usize; 32],
            sstatus: sstatus & !SSTATUS_SPP,
            sepc: entry,
            kernel_satp,
            kernel_sp,
            trap_handler,
        };
        assert(cx@.x =~= Seq::new(32, |i: int| 0usize));
        cx.set_sp(sp);
        cx
    }

    /// The word at an index.
    fn word(&self, i: usize) -> (r: usize)
        requires
            i < TRAP_WORDS,
        ensures
            r == self@.word(i as int),
    {
        if i < 32 {
            self.x[i]
        } else if i == 32 {
            self.sstatus
        } else if i == 33 {
            self.sepc
        } else if i == 34 {
            self.kernel_satp
        } else if i == 35 {
            self.kernel_sp
        } else {
            self.trap_handler
        }
    }

    /// The bytes of the context, in the order in which they lie in memory.
    pub fn to_bytes(&self) -> (r: Vec<u8>)
        ensures
            r@ == context_bytes(self@),
    {
        let mut data: Vec<u8> = Vec::new();
        let mut i: usize = 0;
        while i < TRAP_WORDS
            invariant
                i <= TRAP_WORDS,
                data@.len() == 8 * i,
                forall|k: int|
                    0 <= k < 8 * i ==> #[trigger] data@[k] == le64_bytes(
                        self@.word(k / 8) as u64,
                    )[k % 8],
            decreases TRAP_WORDS - i,
        {
            let w: u64 = self.word(i) as u64;
            let bytes: Vec<u8> = w.to_bytes();
            let ghost d0 = data@;
            let mut j: usize = 0;
            while j < 8
                invariant
                    j <= 8,
                    bytes@.len() == 8,
                    data@ == d0 + bytes@.take(j as int),
                decreases 8 - j,
            {
                data.push(bytes[j]);
                assert(d0 + bytes@.take(j + 1) =~= (d0 + bytes@.take(j as int)).push(
                    bytes@[j as int],
                ));
                j += 1;
            }
            assert(bytes@.take(8) =~= bytes@);
            i += 1;
        }
        assert(data@ =~= context_bytes(self@));
        data
    }

    /// Put the context at the start of a frame.
    pub fn store(&self, ppn: PhysPageNum, mem: &mut FrameMemory)
        requires
            old(mem)@.wf(),
            old(mem)@.in_use(ppn.0 as int),
        ensures
            final(mem)@.wf(),
            final(mem)@ == old(mem)@.with_page(
                ppn.0 as int,
                with_context(old(mem)@.page(ppn.0 as int), self@),
            ),
    {
        let ghost page = mem@.page(ppn.0 as int);
        proof {
            assert(mem@.pages[ppn.0 - mem@.start].len() == PAGE_SIZE);
        }
        let data: Vec<u8> = self.to_bytes();
        mem.write_bytes(ppn, 0, data.as_slice(), 0, 296);
        proof {
            let p2 = page.subrange(0, 0) + data@.subrange(0, 296) + page.subrange(
                296,
                PAGE_SIZE as int,
            );
            assert(p2 =~= with_context(page, self@));
        }
    }

    /// Take the context from the start of a frame.
    pub fn load(ppn: PhysPageNum, mem: &FrameMemory) -> (r: Self)
        requires
            mem@.wf(),
            mem@.in_use(ppn.0 as int),
        ensures
            r@ == context_in(mem@.page(ppn.0 as int)),
    {
        let page: &Vec<u8> = mem.get_bytes_array(ppn);
        let mut x: [usize; 32] = [0usize; 32];
        let mut i: usize = 0;
        while i < 32
            invariant
                i <= 32,
                page@.len() == PAGE_SIZE,
                forall|k: int| 0 <= k < i ==> #[trigger] x@[k] == page_word(page@, k),
            decreases 32 - i,
        {
            x[i] = word_at(page, i);
            i += 1;
        }
        let r: TrapContext = TrapContext {
            x,
            sstatus: word_at(page, 32),
            sepc: word_at(page, 33),
            kernel_satp: word_at(page, 34),
            kernel_sp: word_at(page, 35),
            trap_handler: word_at(page, 36),
        };
        assert(r@.x =~= context_in(page@).x);
        r
    }
}

/// The word at an index of a page.
fn word_at(page: &Vec<u8>, i: usize) -> (r: usize)
    requires
        page@.len() == PAGE_SIZE,
        i < TRAP_WORDS,
    ensures
        r == page_word(page@, i as int),
{
    let w: u64 = u64::from_bytes(vstd::slice::slice_subrange(page.as_slice(), 8 * i, 8 * i + 8));
    w as usize
}

/// How a trap context lies in its page: the 32 registers in order, eight bytes each, then the
/// status, the program counter, the page table of the kernel, the kernel stack and the trap
/// handler. What is behind it in the page stays.
#[verifier::spinoff_prover]
#[verifier::rlimit(60)]
pub proof fn law_context_layout(page: Seq<u8>, cx: TrapModel, i: int, k: int)
    requires
        page.len() == 4096,
        0 <= i < 32,
        296 <= k < 4096,
    ensures
        context_in(page).x.len() == 32,
        context_in(page).x[i] == le64(page, 8 * i) as usize,
        context_in(page).sstatus == le64(page, 256) as usize,
        context_in(page).sepc == le64(page, 264) as usize,
        context_in(page).kernel_satp == le64(page, 272) as usize,
        context_in(page).kernel_sp == le64(page, 280) as usize,
        context_in(page).trap_handler == le64(page, 288) as usize,
        with_context(page, cx).len() == 4096,
        with_context(page, cx)[k] == page[k],
{
    assert forall|j: int| 0 <= j < 37 implies #[trigger] page_word(page, j) == le64(
        page,
        8 * j,
    ) as usize by {
        let p = page.subrange(8 * j, 8 * j + 8);
        assert forall|b: int| 0 <= b < 8 implies p[b] == page[8 * j + b] by {}
    }
}

} // verus!
