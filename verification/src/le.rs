//! Little-endian integers in byte buffers.

use vstd::prelude::*;
use vstd::bytes::*;
use crate::errors::{IoError, IoErrorKind};

verus! {

pub open spec fn le16(x: u16) -> Seq<u8> {
    spec_u16_to_le_bytes(x)
}

pub open spec fn le32(x: u32) -> Seq<u8> {
    spec_u32_to_le_bytes(x)
}

pub open spec fn le64(x: u64) -> Seq<u8> {
    spec_u64_to_le_bytes(x)
}

/// The `u16` stored little-endian at `at`.
pub open spec fn u16_at(s: Seq<u8>, at: int) -> u16 {
    spec_u16_from_le_bytes(s.subrange(at, at + 2))
}

pub open spec fn u32_at(s: Seq<u8>, at: int) -> u32 {
    spec_u32_from_le_bytes(s.subrange(at, at + 4))
}

pub open spec fn u64_at(s: Seq<u8>, at: int) -> u64 {
    spec_u64_from_le_bytes(s.subrange(at, at + 8))
}

/// Encodings have their size and decode back.
pub proof fn lemma_le_roundtrip()
    ensures
        forall|x: u16| #[trigger] le16(x).len() == 2 && u16_at(le16(x), 0) == x,
        forall|x: u32| #[trigger] le32(x).len() == 4 && u32_at(le32(x), 0) == x,
        forall|x: u64| #[trigger] le64(x).len() == 8 && u64_at(le64(x), 0) == x,
{
    lemma_auto_spec_u16_to_from_le_bytes();
    lemma_auto_spec_u32_to_from_le_bytes();
    lemma_auto_spec_u64_to_from_le_bytes();
    assert forall|x: u16| #[trigger] le16(x).len() == 2 && u16_at(le16(x), 0) == x by {
        assert(le16(x).subrange(0, 2) =~= le16(x));
    }
    assert forall|x: u32| #[trigger] le32(x).len() == 4 && u32_at(le32(x), 0) == x by {
        assert(le32(x).subrange(0, 4) =~= le32(x));
    }
    assert forall|x: u64| #[trigger] le64(x).len() == 8 && u64_at(le64(x), 0) == x by {
        assert(le64(x).subrange(0, 8) =~= le64(x));
    }
}

/// Little-endian integer writes onto a growing byte buffer.
pub trait WriteLeExt {
    spec fn written(&self) -> Seq<u8>;

    fn write_u8(&mut self, v: u8)
        ensures
            final(self).written() == old(self).written().push(v),
    ;

    fn write_u16_le(&mut self, v: u16)
        ensures
            final(self).written() == old(self).written() + le16(v),
    ;

    fn write_u32_le(&mut self, v: u32)
        ensures
            final(self).written() == old(self).written() + le32(v),
    ;

    fn write_u64_le(&mut self, v: u64)
        ensures
            final(self).written() == old(self).written() + le64(v),
    ;
}

impl WriteLeExt for Vec<u8> {
    open spec fn written(&self) -> Seq<u8> {
        self@
    }

    fn write_u8(&mut self, v: u8) {
        self.push(v);
    }

    fn write_u16_le(&mut self, v: u16) {
        let mut b = u16_to_le_bytes(v);
        self.append(&mut b);
    }

    fn write_u32_le(&mut self, v: u32) {
        let mut b = u32_to_le_bytes(v);
        self.append(&mut b);
    }

    fn write_u64_le(&mut self, v: u64) {
        let mut b = u64_to_le_bytes(v);
        self.append(&mut b);
    }
}

/// Appends a byte slice.
pub fn write_all(out: &mut Vec<u8>, bytes: &[u8])
    ensures
        final(out)@ == old(out)@ + bytes@,
{
    let mut i: usize = 0;
    let ghost start = out@;
    while i < bytes.len()
        invariant
            i <= bytes@.len(),
            out@ == start + bytes@.subrange(0, i as int),
        decreases bytes@.len() - i,
    {
        out.push(bytes[i]);
        proof {
            assert(bytes@.subrange(0, i + 1) =~= bytes@.subrange(0, i as int).push(bytes@[i as int]));
        }
        i += 1;
    }
    assert(bytes@.subrange(0, bytes@.len() as int) =~= bytes@);
}

/// A cursor over a byte slice.
pub struct ByteReader<'a> {
    data: &'a [u8],
    pos: usize,
}

impl<'a> ByteReader<'a> {
    pub closed spec fn data(&self) -> Seq<u8> {
        self.data@
    }

    pub closed spec fn pos(&self) -> int {
        self.pos as int
    }

    /// The bytes not read yet.
    pub open spec fn rest(&self) -> Seq<u8> {
        self.data().subrange(self.pos(), self.data().len() as int)
    }

    pub open spec fn wf(&self) -> bool {
        0 <= self.pos() <= self.data().len()
    }

    pub fn new(data: &'a [u8]) -> (r: ByteReader<'a>)
        ensures
            r.wf(),
            r.data() == data@,
            r.pos() == 0,
            r.rest() == data@,
    {
        let r = ByteReader { data, pos: 0 };
        assert(r.rest() =~= data@);
        r
    }

    pub fn position(&self) -> (p: usize)
        ensures
            p == self.pos(),
    {
        self.pos
    }

    pub fn remaining(&self) -> (n: usize)
        requires
            self.wf(),
        ensures
            n == self.rest().len(),
    {
        self.data.len() - self.pos
    }

    pub fn is_at_end(&self) -> (b: bool)
        requires
            self.wf(),
        ensures
            b == (self.rest().len() == 0),
    {
        self.pos >= self.data.len()
    }

    /// The bytes read since position `start`.
    pub fn since(&self, start: usize) -> (b: &'a [u8])
        requires
            self.wf(),
            start <= self.pos(),
        ensures
            b@ == self.data().subrange(start as int, self.pos()),
    {
        &self.data[start..self.pos]
    }

    /// Takes the next `n` bytes, or fails with `UnexpectedEof` when fewer remain.
    pub fn read_bytes(&mut self, n: usize) -> (r: Result<&'a [u8], IoError>)
        requires
            old(self).wf(),
        ensures
            final(self).wf(),
            final(self).data() == old(self).data(),
            n <= old(self).rest().len() ==> r is Ok && r->Ok_0@ == old(self).rest().subrange(
                0,
                n as int,
            ) && final(self).pos() == old(self).pos() + n && final(self).rest()
                == old(self).rest().subrange(n as int, old(self).rest().len() as int),
            n > old(self).rest().len() ==> r is Err && r->Err_0.kind == IoErrorKind::UnexpectedEof
                && final(self).pos() == old(self).pos(),
    {
        if n > self.data.len() - self.pos {
            return Err(IoError::new(IoErrorKind::UnexpectedEof, "failed to fill whole buffer"));
        }
        let s = &self.data[self.pos..self.pos + n];
        let ghost old_rest = self.rest();
        self.pos = self.pos + n;
        assert(s@ =~= old_rest.subrange(0, n as int));
        assert(self.rest() =~= old_rest.subrange(n as int, old_rest.len() as int));
        Ok(s)
    }
}

/// Little-endian integer reads from a byte cursor.
pub trait ReadLeExt {
    spec fn unread(&self) -> Seq<u8>;

    spec fn ok(&self) -> bool;

    fn read_u16_le(&mut self) -> (r: Result<u16, IoError>)
        requires
            old(self).ok(),
        ensures
            final(self).ok(),
            old(self).unread().len() >= 2 ==> r == Ok::<u16, IoError>(u16_at(old(self).unread(), 0))
                && final(self).unread() == old(self).unread().subrange(2, old(self).unread().len() as int),
            old(self).unread().len() < 2 ==> r is Err && r->Err_0.kind == IoErrorKind::UnexpectedEof,
    ;

    fn read_u32_le(&mut self) -> (r: Result<u32, IoError>)
        requires
            old(self).ok(),
        ensures
            final(self).ok(),
            old(self).unread().len() >= 4 ==> r == Ok::<u32, IoError>(u32_at(old(self).unread(), 0))
                && final(self).unread() == old(self).unread().subrange(4, old(self).unread().len() as int),
            old(self).unread().len() < 4 ==> r is Err && r->Err_0.kind == IoErrorKind::UnexpectedEof,
    ;

    fn read_u64_le(&mut self) -> (r: Result<u64, IoError>)
        requires
            old(self).ok(),
        ensures
            final(self).ok(),
            old(self).unread().len() >= 8 ==> r == Ok::<u64, IoError>(u64_at(old(self).unread(), 0))
                && final(self).unread() == old(self).unread().subrange(8, old(self).unread().len() as int),
            old(self).unread().len() < 8 ==> r is Err && r->Err_0.kind == IoErrorKind::UnexpectedEof,
    ;
}

impl<'a> ReadLeExt for ByteReader<'a> {
    open spec fn unread(&self) -> Seq<u8> {
        self.rest()
    }

    open spec fn ok(&self) -> bool {
        self.wf()
    }

    fn read_u16_le(&mut self) -> (r: Result<u16, IoError>)
        ensures
            final(self).data() == old(self).data(),
            r is Ok ==> final(self).pos() == old(self).pos() + 2,
            r is Err ==> final(self).pos() == old(self).pos(),
    {
        let b = self.read_bytes(2)?;
        Ok(u16_from_le_bytes(b))
    }

    fn read_u32_le(&mut self) -> (r: Result<u32, IoError>)
        ensures
            final(self).data() == old(self).data(),
            r is Ok ==> final(self).pos() == old(self).pos() + 4,
            r is Err ==> final(self).pos() == old(self).pos(),
    {
        let b = self.read_bytes(4)?;
        Ok(u32_from_le_bytes(b))
    }

    fn read_u64_le(&mut self) -> (r: Result<u64, IoError>)
        ensures
            final(self).data() == old(self).data(),
            r is Ok ==> final(self).pos() == old(self).pos() + 8,
            r is Err ==> final(self).pos() == old(self).pos(),
    {
        let b = self.read_bytes(8)?;
        Ok(u64_from_le_bytes(b))
    }
}

} // verus!
