//! The memory of a process, as the kernel reads and writes it by virtual addresses.
use super::address::{low, PhysPageNum, VirtAddr, VA_SPACE};
use super::frame_allocator::{FrameMemory, MemoryModel};
use super::memory_set::MemorySet;
use super::space::SpaceModel;
use crate::config::PAGE_SIZE;
use crate::easy_fs::bytes::{le64, le64_bytes, Record};
use crate::fs::file::{joined, pieces, UserBuffer};
use vstd::prelude::*;

verus! {

/// The page of an address.
pub open spec fn page_of(v: int) -> usize {
    (low(v as usize, VA_SPACE) / PAGE_SIZE) as usize
}

/// The frame of an address.
pub open spec fn frame_of(s: SpaceModel, v: int) -> int {
    s.table[page_of(v)].ppn.0 as int
}

/// The address is one of the machine, and is mapped to a frame that is in use.
pub open spec fn reachable(s: SpaceModel, m: MemoryModel, v: int) -> bool {
    &&& 0 <= v <= usize::MAX
    &&& s.table.contains_key(page_of(v))
    &&& m.in_use(frame_of(s, v))
}

/// So many addresses from `v` on are mapped.
pub open spec fn range_reachable(s: SpaceModel, m: MemoryModel, v: int, n: int) -> bool {
    forall|k: int| v <= k < v + n ==> #[trigger] reachable(s, m, k)
}

/// The byte at an address.
pub open spec fn user_byte(s: SpaceModel, m: MemoryModel, v: int) -> u8 {
    m.page(frame_of(s, v))[v % PAGE_SIZE as int]
}

/// The `n` bytes from an address on.
pub open spec fn user_bytes(s: SpaceModel, m: MemoryModel, v: int, n: int) -> Seq<u8> {
    Seq::new(n as nat, |i: int| user_byte(s, m, v + i))
}

/// The memory after the byte at an address was written.
pub open spec fn with_byte(s: SpaceModel, m: MemoryModel, v: int, b: u8) -> MemoryModel {
    m.with_page(frame_of(s, v), m.page(frame_of(s, v)).update(v % PAGE_SIZE as int, b))
}

/// The memory after bytes were written from an address on, one after the other.
pub open spec fn with_bytes(s: SpaceModel, m: MemoryModel, v: int, data: Seq<u8>) -> MemoryModel
    decreases data.len(),
{
    if data.len() == 0 {
        m
    } else {
        with_byte(s, with_bytes(s, m, v, data.drop_last()), v + data.len() - 1, data.last())
    }
}

/// The pieces of a range of addresses that lie in one page each.
pub open spec fn page_pieces(s: SpaceModel, m: MemoryModel, v: int, n: int) -> Seq<Seq<u8>>
    decreases n,
{
    if n <= 0 {
        Seq::empty()
    } else {
        let len = piece_len(v, n);
        seq![user_bytes(s, m, v, len)] + page_pieces(s, m, v + len, n - len)
    }
}

/// How many of `n` bytes from an address on lie in its page.
pub open spec fn piece_len(v: int, n: int) -> int {
    if n < PAGE_SIZE - v % PAGE_SIZE as int {
        n
    } else {
        PAGE_SIZE - v % PAGE_SIZE as int
    }
}

/// Writing keeps which frames are in use, and the size of every page.
pub proof fn lemma_with_bytes(s: SpaceModel, m: MemoryModel, v: int, data: Seq<u8>)
    requires
        m.wf(),
        range_reachable(s, m, v, data.len() as int),
    ensures
        with_bytes(s, m, v, data).wf(),
        with_bytes(s, m, v, data).frames == m.frames,
        with_bytes(s, m, v, data).start == m.start,
        with_bytes(s, m, v, data).pages.len() == m.pages.len(),
        forall|p: int| #[trigger] with_bytes(s, m, v, data).in_use(p) == m.in_use(p),
        forall|p: int|
            m.in_use(p) && (forall|k: int|
                v <= k < v + data.len() ==> #[trigger] frame_of(s, k) != p)
                ==> #[trigger] with_bytes(s, m, v, data).page(p) == m.page(p),
    decreases data.len(),
{
    if data.len() > 0 {
        let d = data.drop_last();
        assert(range_reachable(s, m, v, d.len() as int));
        lemma_with_bytes(s, m, v, d);
        let m1 = with_bytes(s, m, v, d);
        let a = v + data.len() - 1;
        assert(reachable(s, m, a));
        assert(m1.in_use(frame_of(s, a)));
        let m2 = with_byte(s, m1, a, data.last());
        assert forall|i: int| 0 <= i < m2.pages.len() implies (#[trigger] m2.pages[i]).len()
            == PAGE_SIZE by {
            assert(m1.pages[i].len() == PAGE_SIZE);
        }
        assert forall|p: int|
            m.in_use(p) && (forall|k: int|
                v <= k < v + data.len() ==> #[trigger] frame_of(s, k) != p) implies
            #[trigger] with_bytes(s, m, v, data).page(p) == m.page(p) by {
            assert(frame_of(s, a) != p);
            assert(m1.page(p) == m.page(p));
        }
    }
}

/// Two addresses lie at the same place of memory only if they are the same, as far as the
/// address space gives different pages different frames.
pub open spec fn no_alias(s: SpaceModel, v: int, n: int) -> bool {
    forall|i: int, j: int|
        v <= i < j < v + n && i % PAGE_SIZE as int == j % PAGE_SIZE as int ==> #[trigger] frame_of(
            s,
            i,
        ) != #[trigger] frame_of(s, j)
}

/// What was written to the memory of a process is what is read from it.
pub proof fn law_user_read_after_write(s: SpaceModel, m: MemoryModel, v: int, data: Seq<u8>)
    requires
        m.wf(),
        range_reachable(s, m, v, data.len() as int),
        no_alias(s, v, data.len() as int),
    ensures
        user_bytes(s, with_bytes(s, m, v, data), v, data.len() as int) == data,
    decreases data.len(),
{
    let m2 = with_bytes(s, m, v, data);
    if data.len() > 0 {
        let d = data.drop_last();
        assert(range_reachable(s, m, v, d.len() as int));
        law_user_read_after_write(s, m, v, d);
        lemma_with_bytes(s, m, v, d);
        let m1 = with_bytes(s, m, v, d);
        let a = v + data.len() - 1;
        assert(reachable(s, m, a));
        assert(m1.in_use(frame_of(s, a)));
        assert(m1.page(frame_of(s, a)).len() == PAGE_SIZE) by {
            assert(m1.pages[frame_of(s, a) - m1.start].len() == PAGE_SIZE);
        }
        assert forall|i: int| 0 <= i < data.len() implies user_byte(s, m2, v + i) == data[i] by {
            if i < d.len() {
                assert(user_bytes(s, m1, v, d.len() as int)[i] == d[i]);
                assert(reachable(s, m, v + i));
                assert(m1.in_use(frame_of(s, v + i)));
                if (v + i) % PAGE_SIZE as int == a % PAGE_SIZE as int {
                    assert(frame_of(s, v + i) != frame_of(s, a));
                }
            }
        }
    }
    assert(user_bytes(s, m2, v, data.len() as int) =~= data);
}

/// Writing leaves the bytes at other addresses as they are.
pub proof fn lemma_bytes_elsewhere(
    s: SpaceModel,
    m: MemoryModel,
    v: int,
    data: Seq<u8>,
    w: int,
    lo: int,
    n: int,
)
    requires
        m.wf(),
        range_reachable(s, m, lo, n),
        no_alias(s, lo, n),
        lo <= v,
        v + data.len() <= lo + n,
        lo <= w < lo + n,
        w < v || v + data.len() <= w,
    ensures
        user_byte(s, with_bytes(s, m, v, data), w) == user_byte(s, m, w),
    decreases data.len(),
{
    if data.len() > 0 {
        let d = data.drop_last();
        let a = v + data.len() - 1;
        assert forall|k: int| v <= k < v + data.len() implies #[trigger] reachable(s, m, k) by {}
        lemma_bytes_elsewhere(s, m, v, d, w, lo, n);
        lemma_with_bytes(s, m, v, d);
        let m1 = with_bytes(s, m, v, d);
        assert(reachable(s, m, a) && reachable(s, m, w));
        assert(m1.in_use(frame_of(s, a)) && m1.in_use(frame_of(s, w)));
        assert(m1.pages[frame_of(s, a) - m1.start].len() == PAGE_SIZE);
        if w % PAGE_SIZE as int == a % PAGE_SIZE as int {
            assert(frame_of(s, w) != frame_of(s, a));
        }
    }
}

/// The page offset of an address does not depend on its upper bits.
proof fn lemma_offset(v: usize)
    ensures
        low(v, VA_SPACE) % PAGE_SIZE == v % PAGE_SIZE,
{
}

/// Read the byte at an address.
pub fn read_user_byte(space: &MemorySet, v: usize, mem: &FrameMemory) -> (r: u8)
    requires
        mem@.wf(),
        reachable(space@, mem@, v as int),
    ensures
        r == user_byte(space@, mem@, v as int),
{
    let va: VirtAddr = VirtAddr::from(v);
    let ppn: PhysPageNum = space.translate(va.floor()).unwrap().ppn();
    proof {
        lemma_offset(v);
    }
    mem.get_bytes_array(ppn)[va.page_offset()]
}

/// Write the byte at an address.
pub fn write_user_byte(space: &MemorySet, v: usize, byte: u8, mem: &mut FrameMemory)
    requires
        old(mem)@.wf(),
        reachable(space@, old(mem)@, v as int),
    ensures
        final(mem)@.wf(),
        final(mem)@ == with_byte(space@, old(mem)@, v as int, byte),
{
    let va: VirtAddr = VirtAddr::from(v);
    let ppn: PhysPageNum = space.translate(va.floor()).unwrap().ppn();
    proof {
        lemma_offset(v);
    }
    mem.write_byte(ppn, va.page_offset(), byte);
}

/// Read the `n` bytes from an address on.
pub fn read_user(space: &MemorySet, v: usize, n: usize, mem: &FrameMemory) -> (r: Vec<u8>)
    requires
        mem@.wf(),
        v + n <= usize::MAX,
        range_reachable(space@, mem@, v as int, n as int),
    ensures
        r@ == user_bytes(space@, mem@, v as int, n as int),
{
    let mut r: Vec<u8> = Vec::new();
    let mut i: usize = 0;
    while i < n
        invariant
            i <= n,
            mem@.wf(),
            v + n <= usize::MAX,
            range_reachable(space@, mem@, v as int, n as int),
            r@ == user_bytes(space@, mem@, v as int, i as int),
        decreases n - i,
    {
        assert(reachable(space@, mem@, v + i));
        r.push(read_user_byte(space, v + i, mem));
        i += 1;
        assert(r@ =~= user_bytes(space@, mem@, v as int, i as int));
    }
    r
}

/// Write bytes from an address on.
pub fn write_user(space: &MemorySet, v: usize, data: &[u8], mem: &mut FrameMemory)
    requires
        old(mem)@.wf(),
        v + data@.len() <= usize::MAX,
        range_reachable(space@, old(mem)@, v as int, data@.len() as int),
    ensures
        final(mem)@.wf(),
        final(mem)@ == with_bytes(space@, old(mem)@, v as int, data@),
{
    let n: usize = data.len();
    let ghost m = mem@;
    let mut i: usize = 0;
    assert(data@.take(0) =~= Seq::<u8>::empty());
    while i < n
        invariant
            i <= n,
            n == data@.len(),
            m.wf(),
            mem@.wf(),
            v + n <= usize::MAX,
            range_reachable(space@, m, v as int, n as int),
            mem@ == with_bytes(space@, m, v as int, data@.take(i as int)),
        decreases n - i,
    {
        proof {
            let d = data@.take(i as int);
            assert(range_reachable(space@, m, v as int, d.len() as int));
            lemma_with_bytes(space@, m, v as int, d);
            assert(reachable(space@, m, v + i));
            assert(mem@.in_use(frame_of(space@, v + i)));
            assert(data@.take(i + 1).drop_last() =~= d);
        }
        write_user_byte(space, v + i, data[i], mem);
        i += 1;
    }
    assert(data@.take(n as int) =~= data@);
}

/// Read the machine word at an address, as `translated_ref` gives it.
pub fn read_user_word(space: &MemorySet, v: usize, mem: &FrameMemory) -> (r: usize)
    requires
        mem@.wf(),
        v + 8 <= usize::MAX,
        range_reachable(space@, mem@, v as int, 8),
    ensures
        r == user_word(space@, mem@, v as int),
{
    let bytes: Vec<u8> = read_user(space, v, 8, mem);
    let word: u64 = u64::from_bytes(bytes.as_slice());
    word as usize
}

/// The machine word at an address.
pub open spec fn user_word(s: SpaceModel, m: MemoryModel, v: int) -> usize {
    le64(user_bytes(s, m, v, 8), 0) as usize
}

/// Write the machine word at an address.
pub fn write_user_word(space: &MemorySet, v: usize, word: usize, mem: &mut FrameMemory)
    requires
        old(mem)@.wf(),
        v + 8 <= usize::MAX,
        range_reachable(space@, old(mem)@, v as int, 8),
    ensures
        final(mem)@.wf(),
        final(mem)@ == with_bytes(space@, old(mem)@, v as int, le64_bytes(word as u64)),
{
    let w: u64 = word as u64;
    let bytes: Vec<u8> = w.to_bytes();
    write_user(space, v, bytes.as_slice(), mem);
}

/// The pieces of a range of addresses, one behind the other, are the bytes of the range.
pub proof fn lemma_page_pieces(s: SpaceModel, m: MemoryModel, v: int, n: int)
    requires
        0 <= v,
        0 <= n,
    ensures
        joined(page_pieces(s, m, v, n), page_pieces(s, m, v, n).len() as int) == user_bytes(
            s,
            m,
            v,
            n,
        ),
    decreases n,
{
    let p = page_pieces(s, m, v, n);
    if n > 0 {
        let len = piece_len(v, n);
        lemma_page_pieces(s, m, v + len, n - len);
        let rest = page_pieces(s, m, v + len, n - len);
        lemma_joined_front(user_bytes(s, m, v, len), rest, rest.len() as int);
        assert(user_bytes(s, m, v, len) + user_bytes(s, m, v + len, n - len) =~= user_bytes(
            s,
            m,
            v,
            n,
        ));
    } else {
        assert(user_bytes(s, m, v, n) =~= Seq::<u8>::empty());
    }
}

/// No piece of a range of addresses is empty.
pub proof fn lemma_pieces_nonempty(s: SpaceModel, m: MemoryModel, v: int, n: int, i: int)
    requires
        0 <= v,
        0 <= i < page_pieces(s, m, v, n).len(),
    ensures
        page_pieces(s, m, v, n)[i].len() > 0,
    decreases n,
{
    if n > 0 {
        let len = piece_len(v, n);
        if i > 0 {
            lemma_pieces_nonempty(s, m, v + len, n - len, i - 1);
        }
    }
}

/// Joining pieces starts with the first one.
proof fn lemma_joined_front(first: Seq<u8>, rest: Seq<Seq<u8>>, n: int)
    requires
        0 <= n <= rest.len(),
    ensures
        joined(seq![first] + rest, n + 1) == first + joined(rest, n),
    decreases n,
{
    let all = seq![first] + rest;
    if n > 0 {
        lemma_joined_front(first, rest, n - 1);
        assert(all[n] == rest[n - 1]);
        assert(first + joined(rest, n - 1) + rest[n - 1] =~= first + (joined(rest, n - 1) + rest[n
            - 1]));
    } else {
        assert(joined(all, 0) + all[0] =~= first + joined(rest, 0));
    }
}

/// Take a buffer out of the memory of a process, in the pieces that lie in one page each.
pub fn translated_byte_buffer(
    space: &MemorySet,
    ptr: usize,
    len: usize,
    mem: &FrameMemory,
) -> (r: UserBuffer)
    requires
        mem@.wf(),
        ptr + len <= usize::MAX,
        range_reachable(space@, mem@, ptr as int, len as int),
    ensures
        r@ == page_pieces(space@, mem@, ptr as int, len as int),
        joined(r@, r@.len() as int) == user_bytes(space@, mem@, ptr as int, len as int),
{
    let mut v: Vec<Vec<u8>> = Vec::new();
    let mut start: usize = ptr;
    let end: usize = ptr + len;
    let ghost all = page_pieces(space@, mem@, ptr as int, len as int);
    assert(pieces(v@) + all =~= all);
    while start < end
        invariant
            ptr <= start <= end,
            end == ptr + len,
            mem@.wf(),
            range_reachable(space@, mem@, ptr as int, len as int),
            pieces(v@) + page_pieces(space@, mem@, start as int, end - start) == all,
        decreases end - start,
    {
        let room: usize = PAGE_SIZE - start % PAGE_SIZE;
        let n: usize = if end - start < room {
            end - start
        } else {
            room
        };
        assert forall|k: int| start <= k < start + n implies #[trigger] reachable(
            space@,
            mem@,
            k,
        ) by {}
        let piece: Vec<u8> = read_user(space, start, n, mem);
        let ghost v0 = pieces(v@);
        let ghost rest = page_pieces(space@, mem@, start + n, end - start - n);
        v.push(piece);
        proof {
            assert(n == piece_len(start as int, end - start));
            assert(pieces(v@) =~= v0.push(piece@));
            assert(v0 + (seq![piece@] + rest) =~= v0.push(piece@) + rest);
        }
        start += n;
    }
    assert(pieces(v@) =~= all);
    proof {
        lemma_page_pieces(space@, mem@, ptr as int, len as int);
    }
    UserBuffer::new(v)
}

/// There are `n` bytes that are not zero from an address on, and then a zero byte.
pub open spec fn string_at(s: SpaceModel, m: MemoryModel, v: int, n: int) -> bool {
    &&& 0 <= n
    &&& range_reachable(s, m, v, n + 1)
    &&& forall|k: int| v <= k < v + n ==> #[trigger] user_byte(s, m, k) != 0
    &&& user_byte(s, m, v + n) == 0
}

/// The string whose characters have the numbers of the bytes.
pub open spec fn latin(bytes: Seq<u8>) -> Seq<char> {
    Seq::new(bytes.len(), |i: int| bytes[i] as char)
}

/// `String::push` appends a character to a string.
#[verifier::external_body]
pub(crate) fn push_char(s: &mut String, c: char)
    ensures
        final(s)@ == old(s)@.push(c),
{
    s.push(c);
}

/// Load a string from the memory of a process, up to its zero byte.
pub fn translated_str(space: &MemorySet, ptr: usize, mem: &FrameMemory) -> (r: String)
    requires
        mem@.wf(),
        exists|n: int| string_at(space@, mem@, ptr as int, n),
    ensures
        forall|n: int| #[trigger]
            string_at(space@, mem@, ptr as int, n) ==> r@ == latin(
                user_bytes(space@, mem@, ptr as int, n),
            ),
{
    let ghost n = choose|n: int| string_at(space@, mem@, ptr as int, n);
    let mut string: String = String::new();
    let mut va: usize = ptr;
    assert(string@ =~= latin(user_bytes(space@, mem@, ptr as int, 0)));
    loop
        invariant
            mem@.wf(),
            string_at(space@, mem@, ptr as int, n),
            ptr <= va <= ptr + n,
            string@ == latin(user_bytes(space@, mem@, ptr as int, va - ptr)),
        ensures
            va == ptr + n,
        decreases ptr + n - va,
    {
        assert(reachable(space@, mem@, va as int));
        let ch: u8 = read_user_byte(space, va, mem);
        if ch == 0 {
            break;
        }
        assert(va < ptr + n);
        assert(reachable(space@, mem@, va + 1));
        push_char(&mut string, ch as char);
        va += 1;
        assert(string@ =~= latin(user_bytes(space@, mem@, ptr as int, va - ptr)));
    }
    proof {
        assert forall|k: int| #[trigger] string_at(space@, mem@, ptr as int, k) implies k == n by {
            if k < n {
                assert(user_byte(space@, mem@, ptr + k) != 0);
            } else if n < k {
                assert(user_byte(space@, mem@, ptr + n) != 0);
            }
        }
    }
    string
}

} // verus!
