//! Executable files in the ELF format, as far as a loader has to know them.
use crate::easy_fs::bytes::{le32, le64};
use vstd::prelude::*;
use xmas_elf::ElfFile;
use xmas_elf::program::Type;

verus! {

/// The little-endian `u16` at byte `off` of `b`.
pub open spec fn le16(b: Seq<u8>, off: int) -> u16 {
    (b[off] + 256 * b[off + 1]) as u16
}

/// The file is one of the 64-bit class.
pub open spec fn is_64(b: Seq<u8>) -> bool {
    b[4] == 2
}

/// The file starts with the magic number and says which class it is of.
pub open spec fn has_elf_ident(b: Seq<u8>) -> bool {
    &&& b.len() >= 16
    &&& b[0] == 0x7f && b[1] == 0x45 && b[2] == 0x4c && b[3] == 0x46
    &&& b[4] == 1 || b[4] == 2
}

/// The file is long enough for the header that its first bytes announce.
pub open spec fn header_complete(b: Seq<u8>) -> bool {
    has_elf_ident(b) ==> b.len() >= if is_64(b) {
        64int
    } else {
        52
    }
}

/// What a loader reads of the header of an executable file.
#[derive(Copy, Clone, Debug)]
pub struct ElfHeader {
    /// Where the program starts.
    pub entry_point: u64,
    /// How many program headers there are.
    pub ph_count: u16,
}

/// The header of an executable file.
#[verifier::opaque]
pub open spec fn header_of(b: Seq<u8>) -> ElfHeader {
    if is_64(b) {
        ElfHeader { entry_point: le64(b, 24), ph_count: le16(b, 56) }
    } else {
        ElfHeader { entry_point: le32(b, 24) as u64, ph_count: le16(b, 44) }
    }
}

/// Where the program headers start.
pub open spec fn ph_offset(b: Seq<u8>) -> int {
    if is_64(b) {
        le64(b, 32) as int
    } else {
        le32(b, 28) as int
    }
}

/// How many bytes there are from one program header to the next.
pub open spec fn ph_entry_size(b: Seq<u8>) -> int {
    if is_64(b) {
        le16(b, 54) as int
    } else {
        le16(b, 42) as int
    }
}

/// Where the program header with the given index starts.
pub open spec fn ph_start(b: Seq<u8>, i: int) -> int {
    ph_offset(b) + i * ph_entry_size(b)
}

/// The file has program headers, and one with the given index.
pub open spec fn has_ph(b: Seq<u8>, i: int) -> bool {
    i < header_of(b).ph_count && ph_offset(b) > 0 && ph_entry_size(b) > 0
}

/// The program header lies in the file as a whole, at an address that its fields can be
/// read at.
pub open spec fn ph_complete(b: Seq<u8>, i: int) -> bool {
    &&& ph_entry_size(b) >= if is_64(b) {
        56int
    } else {
        32
    }
    &&& ph_start(b, i) + ph_entry_size(b) <= b.len()
    &&& ph_start(b, i) % (if is_64(b) {
        8int
    } else {
        4
    }) == 0
}

/// What a program header is for.
#[derive(Copy, Clone, PartialEq, Eq, Debug, Structural)]
pub enum SegmentKind {
    /// A piece of the file to be loaded.
    Load,
    /// Something else that is known.
    Other,
    /// Something unknown.
    Invalid,
}

/// What a type number stands for.
pub open spec fn kind_of(t: u32) -> SegmentKind {
    if t == 1 {
        SegmentKind::Load
    } else if t <= 7 || 0x6000_0000 <= t <= 0x7fff_ffff {
        SegmentKind::Other
    } else {
        SegmentKind::Invalid
    }
}

/// What a loader reads of a program header.
#[derive(Copy, Clone, Debug)]
pub struct Segment {
    pub kind: SegmentKind,
    pub virtual_addr: u64,
    pub mem_size: u64,
    pub offset: u64,
    pub file_size: u64,
    pub is_read: bool,
    pub is_write: bool,
    pub is_execute: bool,
}

/// The program header with the given index.
#[verifier::opaque]
pub open spec fn segment_of(b: Seq<u8>, i: int) -> Segment {
    let p = ph_start(b, i);
    let flags = if is_64(b) {
        le32(b, p + 4)
    } else {
        le32(b, p + 24)
    };
    Segment {
        kind: kind_of(le32(b, p)),
        offset: if is_64(b) {
            le64(b, p + 8)
        } else {
            le32(b, p + 4) as u64
        },
        virtual_addr: if is_64(b) {
            le64(b, p + 16)
        } else {
            le32(b, p + 8) as u64
        },
        file_size: if is_64(b) {
            le64(b, p + 32)
        } else {
            le32(b, p + 16) as u64
        },
        mem_size: if is_64(b) {
            le64(b, p + 40)
        } else {
            le32(b, p + 20) as u64
        },
        is_read: flags & 4 == 4,
        is_write: flags & 2 == 2,
        is_execute: flags & 1 == 1,
    }
}

/// `xmas_elf::ElfFile::new`, and of the header that it finds `entry_point` and `ph_count`.
///
/// It is an error if the file has not the magic number or is of no known class. A file
/// that ends within its header makes `ElfFile::new` panic, so it is left out. The fields
/// are taken as a little-endian machine has them. `ElfFile::new` reads them in place,
/// which takes an address divisible by eight: it is given a copy that starts at one.
#[verifier::external_body]
pub(crate) fn elf_header(data: &[u8]) -> (r: Option<ElfHeader>)
    requires
        header_complete(data@),
    ensures
        r == if has_elf_ident(data@) {
            Some(header_of(data@))
        } else {
            None
        },
{
    let mut copy: Vec<u8> = Vec::with_capacity(data.len() + 8);
    let start: usize = copy.as_ptr().align_offset(8);
    copy.resize(start, 0);
    copy.extend_from_slice(data);
    let elf = ElfFile::new(&copy[start..]).ok()?;
    Some(ElfHeader {
        entry_point: elf.header.pt2.entry_point(),
        ph_count: elf.header.pt2.ph_count(),
    })
}

/// `xmas_elf::ElfFile::program_header`, and of the program header that it finds the
/// fields.
///
/// It is an error if there is no such program header. One that does not lie in the file,
/// or is too short, or starts at an address that does not fit its fields makes the
/// function panic, so it is left out. The fields are taken as a little-endian machine has
/// them.
#[verifier::external_body]
pub(crate) fn elf_program_header(data: &[u8], i: u16) -> (r: Option<Segment>)
    requires
        has_elf_ident(data@),
        header_complete(data@),
        has_ph(data@, i as int) ==> ph_complete(data@, i as int),
    ensures
        r == if has_ph(data@, i as int) {
            Some(segment_of(data@, i as int))
        } else {
            None
        },
{
    let mut copy: Vec<u8> = Vec::with_capacity(data.len() + 8);
    let start: usize = copy.as_ptr().align_offset(8);
    copy.resize(start, 0);
    copy.extend_from_slice(data);
    let ph = ElfFile::new(&copy[start..]).ok()?.program_header(i).ok()?;
    let kind = match ph.get_type() {
        Ok(Type::Load) => SegmentKind::Load,
        Ok(_) => SegmentKind::Other,
        Err(_) => SegmentKind::Invalid,
    };
    let f = ph.flags();
    Some(Segment { kind, virtual_addr: ph.virtual_addr(), mem_size: ph.mem_size(),
        offset: ph.offset(), file_size: ph.file_size(),
        is_read: f.is_read(), is_write: f.is_write(), is_execute: f.is_execute() })
}

} // verus!
