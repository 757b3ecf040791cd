//! Files: whole-object byte buffers.

use crate::encoding::copy_bytes;
use vstd::prelude::*;

verus! {

/// A file. Its stored form is its bytes, unchanged.
#[derive(Debug, Clone, PartialEq, Eq)]
pub struct File {
    data: Vec<u8>,
}

impl View for File {
    type V = Seq<u8>;

    closed spec fn view(&self) -> Seq<u8> {
        self.data@
    }
}

/// The stored form of a file with the bytes `data`: the bytes themselves.
pub open spec fn file_bytes(data: Seq<u8>) -> Seq<u8> {
    data
}

impl File {
    /// The empty file.
    pub fn new() -> (r: File)
        ensures
            r@ == Seq::<u8>::empty(),
    {
        File { data: Vec::new() }
    }

    /// The file whose stored form is `buf`. Reading back what
    /// [`to_vec`](File::to_vec) wrote for a file yields that file.
    pub fn from_vec(buf: Vec<u8>) -> (r: File)
        ensures
            file_bytes(r@) == buf@,
            forall|f: File| #[trigger] file_bytes(f@) == buf@ ==> r@ == f@,
    {
        File { data: buf }
    }

    /// The stored form of this file.
    pub fn to_vec(&self) -> (r: Vec<u8>)
        ensures
            r@ == file_bytes(self@),
    {
        copy_bytes(&self.data)
    }

    /// The bytes of this file.
    pub fn data(&self) -> (r: Vec<u8>)
        ensures
            r@ == self@,
    {
        copy_bytes(&self.data)
    }

    /// Replaces the bytes of this file.
    pub fn write(&mut self, data: Vec<u8>)
        ensures
            final(self)@ == data@,
    {
        self.data = data;
    }
}

} // verus!
