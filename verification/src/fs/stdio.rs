//! The console.
use super::file::{pieces_len, File, UserBuffer};
use crate::easy_fs::layout::str_from_utf8;
use vstd::prelude::*;
use vstd::utf8::{decode_utf8, valid_utf8};

verus! {

/// stdin file for getting chars from console
#[derive(Copy, Clone, PartialEq, Eq, Debug, Structural)]
pub struct Stdin;

/// stdout file for putting chars to console
#[derive(Copy, Clone, PartialEq, Eq, Debug, Structural)]
pub struct Stdout;

impl File for Stdin {
    open spec fn can_read(&self) -> bool {
        true
    }

    open spec fn can_write(&self) -> bool {
        false
    }

    fn readable(&self) -> (r: bool) {
        true
    }

    fn writable(&self) -> (r: bool) {
        false
    }
}

impl Stdin {
    /// One round of a read of one byte: what the console gave. Zero means that nothing was
    /// typed yet, so that the reader has to wait and try again.
    pub fn read(&self, c: usize) -> (r: Option<u8>)
        ensures
            r == if c == 0 {
                None
            } else {
                Some((c % 256) as u8)
            },
    {
        if c == 0 {
            None
        } else {
            assert(c as u8 == c % 256) by (bit_vector);
            Some(c as u8)
        }
    }
}

impl File for Stdout {
    open spec fn can_read(&self) -> bool {
        false
    }

    open spec fn can_write(&self) -> bool {
        true
    }

    fn readable(&self) -> (r: bool) {
        false
    }

    fn writable(&self) -> (r: bool) {
        true
    }
}

impl Stdout {
    /// What has to be printed for a buffer, piece by piece, and how many bytes that are.
    pub fn write(&self, user_buf: &UserBuffer) -> (r: (Vec<String>, usize))
        requires
            pieces_len(user_buf@, user_buf@.len() as int) <= usize::MAX,
            forall|i: int| 0 <= i < user_buf@.len() ==> valid_utf8(#[trigger] user_buf@[i]),
        ensures
            r.0@.len() == user_buf@.len(),
            forall|i: int|
                0 <= i < user_buf@.len() ==> (#[trigger] r.0@[i])@ == decode_utf8(user_buf@[i]),
            r.1 == pieces_len(user_buf@, user_buf@.len() as int),
    {
        let mut v: Vec<String> = Vec::new();
        let mut i: usize = 0;
        while i < user_buf.buffers.len()
            invariant
                i <= user_buf.buffers@.len(),
                user_buf@ == super::file::pieces(user_buf.buffers@),
                v@.len() == i,
                forall|k: int| 0 <= k < user_buf@.len() ==> valid_utf8(#[trigger] user_buf@[k]),
                forall|k: int|
                    0 <= k < i ==> (#[trigger] v@[k])@ == decode_utf8(user_buf@[k]),
            decreases user_buf.buffers@.len() - i,
        {
            assert(user_buf@[i as int] == user_buf.buffers@[i as int]@);
            let s: &str = str_from_utf8(user_buf.buffers[i].as_slice()).unwrap();
            v.push(s.to_owned());
            i += 1;
        }
        (v, user_buf.len())
    }
}

} // verus!
