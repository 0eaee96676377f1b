//! A cursor over the bytes of a file held in memory: seeks, exact reads and
//! reads of fixed-width integers in a byte order that the caller names.

use vstd::prelude::*;
use vstd::slice::slice_subrange;
use vstd::slice::slice_to_vec;
use crate::byteorder::{decode_u16, decode_u32, decode_u64, u16_at, u32_at, u64_at};
use crate::error::{eof_error, seek_error, Error, IOErrorWrapper, IoErrorKind};

verus! {

/// The bytes of a file and a read position in them. The position may lie
/// beyond the last byte: a seek there succeeds, and the next read fails.
#[derive(Debug)]
pub struct ByteReader {
    data: Vec<u8>,
    pos: u64,
}

impl ByteReader {
    /// The bytes of the file.
    pub closed spec fn bytes(&self) -> Seq<u8> {
        self.data@
    }

    /// The index of the next byte that a read returns.
    pub closed spec fn position(&self) -> u64 {
        self.pos
    }

    /// Whether `count` more bytes can be read from the current position.
    pub open spec fn can_read(&self, count: int) -> bool {
        self.position() + count <= self.bytes().len()
    }

    /// A reader over `data`, positioned at its first byte.
    pub fn new(data: Vec<u8>) -> (reader: ByteReader)
        ensures
            reader.bytes() == data@,
            reader.position() == 0,
    {
        ByteReader { data, pos: 0 }
    }

    /// The number of bytes in the file.
    pub fn len(&self) -> (n: usize)
        ensures
            n == self.bytes().len(),
    {
        self.data.len()
    }

    /// The current position.
    pub fn stream_position(&self) -> (pos: u64)
        ensures
            pos == self.position(),
    {
        self.pos
    }

    /// Moves to `offset`, counted from the start of the file. Any offset is
    /// accepted.
    pub fn seek_start(&mut self, offset: u64) -> (pos: u64)
        ensures
            pos == offset,
            final(self).position() == offset,
            final(self).bytes() == old(self).bytes(),
    {
        self.pos = offset;
        offset
    }

    /// Moves by `delta` from the current position. A target below zero or
    /// above `u64::MAX` is refused and leaves the position where it was.
    pub fn seek_current(&mut self, delta: i64) -> (r: Result<u64, Error>)
        ensures
            final(self).bytes() == old(self).bytes(),
            match r {
                Ok(pos) => pos == old(self).position() + delta && final(self).position() == pos,
                Err(e) => !(0 <= old(self).position() + delta <= u64::MAX) && e@ == seek_error()
                    && final(self).position() == old(self).position(),
            },
    {
        match self.pos.checked_add_signed(delta) {
            Some(target) => {
                self.pos = target;
                Ok(target)
            },
            None => Err(Error::IOError(IOErrorWrapper(IoErrorKind::InvalidInput))),
        }
    }

    /// Reads the next `count` bytes. Where fewer are left the read fails and
    /// the position stays where it was.
    pub fn read_exact(&mut self, count: u64) -> (r: Result<Vec<u8>, Error>)
        ensures
            final(self).bytes() == old(self).bytes(),
            match r {
                Ok(buf) => old(self).can_read(count as int) && buf@ == old(self).bytes().subrange(
                    old(self).position() as int,
                    old(self).position() + count,
                ) && final(self).position() == old(self).position() + count,
                Err(e) => !old(self).can_read(count as int) && e@ == eof_error() && final(
                    self).position() == old(self).position(),
            },
    {
        let len: u64 = self.data.len() as u64;
        if self.pos > len || count > len - self.pos {
            return Err(Error::IOError(IOErrorWrapper(IoErrorKind::UnexpectedEof)));
        }
        let start: usize = self.pos as usize;
        let end: usize = (self.pos + count) as usize;
        let buf = slice_to_vec(slice_subrange(self.data.as_slice(), start, end));
        self.pos = self.pos + count;
        Ok(buf)
    }

    /// Reads one byte.
    pub fn read_u8(&mut self) -> (r: Result<u8, Error>)
        ensures
            final(self).bytes() == old(self).bytes(),
            match r {
                Ok(v) => old(self).can_read(1) && v == old(self).bytes()[old(
                    self).position() as int] && final(self).position() == old(self).position()
                    + 1,
                Err(e) => !old(self).can_read(1) && e@ == eof_error() && final(self).position()
                    == old(self).position(),
            },
    {
        let len: u64 = self.data.len() as u64;
        if self.pos >= len {
            return Err(Error::IOError(IOErrorWrapper(IoErrorKind::UnexpectedEof)));
        }
        let v: u8 = self.data[self.pos as usize];
        self.pos = self.pos + 1;
        Ok(v)
    }

    /// Reads a 16-bit integer in the given byte order.
    pub fn read_u16(&mut self, big_endian: bool) -> (r: Result<u16, Error>)
        ensures
            final(self).bytes() == old(self).bytes(),
            match r {
                Ok(v) => old(self).can_read(2) && v == u16_at(
                    old(self).bytes(),
                    old(self).position() as int,
                    big_endian,
                ) && final(self).position() == old(self).position() + 2,
                Err(e) => !old(self).can_read(2) && e@ == eof_error() && final(self).position()
                    == old(self).position(),
            },
    {
        let len: u64 = self.data.len() as u64;
        if self.pos > len || 2 > len - self.pos {
            return Err(Error::IOError(IOErrorWrapper(IoErrorKind::UnexpectedEof)));
        }
        let v: u16 = decode_u16(self.data.as_slice(), self.pos as usize, big_endian);
        self.pos = self.pos + 2;
        Ok(v)
    }

    /// Reads a 32-bit integer in the given byte order.
    pub fn read_u32(&mut self, big_endian: bool) -> (r: Result<u32, Error>)
        ensures
            final(self).bytes() == old(self).bytes(),
            match r {
                Ok(v) => old(self).can_read(4) && v == u32_at(
                    old(self).bytes(),
                    old(self).position() as int,
                    big_endian,
                ) && final(self).position() == old(self).position() + 4,
                Err(e) => !old(self).can_read(4) && e@ == eof_error() && final(self).position()
                    == old(self).position(),
            },
    {
        let len: u64 = self.data.len() as u64;
        if self.pos > len || 4 > len - self.pos {
            return Err(Error::IOError(IOErrorWrapper(IoErrorKind::UnexpectedEof)));
        }
        let v: u32 = decode_u32(self.data.as_slice(), self.pos as usize, big_endian);
        self.pos = self.pos + 4;
        Ok(v)
    }

    /// Reads a 64-bit integer in the given byte order.
    pub fn read_u64(&mut self, big_endian: bool) -> (r: Result<u64, Error>)
        ensures
            final(self).bytes() == old(self).bytes(),
            match r {
                Ok(v) => old(self).can_read(8) && v == u64_at(
                    old(self).bytes(),
                    old(self).position() as int,
                    big_endian,
                ) && final(self).position() == old(self).position() + 8,
                Err(e) => !old(self).can_read(8) && e@ == eof_error() && final(self).position()
                    == old(self).position(),
            },
    {
        let len: u64 = self.data.len() as u64;
        if self.pos > len || 8 > len - self.pos {
            return Err(Error::IOError(IOErrorWrapper(IoErrorKind::UnexpectedEof)));
        }
        let v: u64 = decode_u64(self.data.as_slice(), self.pos as usize, big_endian);
        self.pos = self.pos + 8;
        Ok(v)
    }
}

} // verus!
