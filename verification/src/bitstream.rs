//! In-memory bitstream framing: little-endian integer and byte reads over a
//! buffer, and the matching writer.  File and network transport stay outside
//! the library; callers hand complete buffers in and take them back out.

use vstd::prelude::*;
use crate::error::CodecError;

verus! {

/// Sequential reader over a byte buffer.
pub struct BitstreamReader {
    data: Vec<u8>,
    pos: usize,
}

impl BitstreamReader {
    /// The bytes being read.
    pub closed spec fn spec_data(self) -> Seq<u8> {
        self.data@
    }

    /// The read cursor.
    pub closed spec fn spec_pos(self) -> int {
        self.pos as int
    }

    /// Reader invariant: the cursor is inside or just past the buffer.
    pub closed spec fn wf(self) -> bool {
        self.pos <= self.data@.len()
    }

    /// A reader at the start of a buffer.
    pub fn new(data: Vec<u8>) -> (r: BitstreamReader)
        ensures
            r.wf(),
            r.spec_data() == data@,
            r.spec_pos() == 0,
    {
        BitstreamReader { data, pos: 0 }
    }

    /// Read one byte; fails at the end of the buffer.
    pub fn read_u8(&mut self) -> (r: Result<u8, CodecError>)
        requires
            old(self).wf(),
        ensures
            final(self).wf(),
            final(self).spec_data() == old(self).spec_data(),
            match r {
                Ok(b) => {
                    &&& old(self).spec_pos() + 1 <= old(self).spec_data().len()
                    &&& b == old(self).spec_data()[old(self).spec_pos()]
                    &&& final(self).spec_pos() == old(self).spec_pos() + 1
                },
                Err(e) => {
                    &&& old(self).spec_pos() == old(self).spec_data().len()
                    &&& e is Io
                    &&& final(self).spec_pos() == old(self).spec_pos()
                },
            },
    {
        if self.pos >= self.data.len() {
            return Err(CodecError::Io(String::new()));
        }
        let b = self.data[self.pos];
        self.pos = self.pos + 1;
        Ok(b)
    }

    /// Read a little-endian 16-bit integer.
    pub fn read_u16(&mut self) -> (r: Result<u16, CodecError>)
        requires
            old(self).wf(),
        ensures
            final(self).wf(),
            final(self).spec_data() == old(self).spec_data(),
            match r {
                Ok(v) => {
                    &&& old(self).spec_pos() + 2 <= old(self).spec_data().len()
                    &&& v == vstd::bytes::spec_u16_from_le_bytes(
                        old(self).spec_data().subrange(
                            old(self).spec_pos(),
                            old(self).spec_pos() + 2,
                        ),
                    )
                    &&& final(self).spec_pos() == old(self).spec_pos() + 2
                },
                Err(e) => {
                    &&& old(self).spec_data().len() < old(self).spec_pos() + 2
                    &&& e is Io
                    &&& final(self).spec_pos() == old(self).spec_pos()
                },
            },
    {
        if self.data.len() - self.pos < 2 {
            return Err(CodecError::Io(String::new()));
        }
        let v = vstd::bytes::u16_from_le_bytes(
            vstd::slice::slice_subrange(self.data.as_slice(), self.pos, self.pos + 2),
        );
        self.pos = self.pos + 2;
        Ok(v)
    }

    /// Read a little-endian 32-bit integer.
    pub fn read_u32(&mut self) -> (r: Result<u32, CodecError>)
        requires
            old(self).wf(),
        ensures
            final(self).wf(),
            final(self).spec_data() == old(self).spec_data(),
            match r {
                Ok(v) => {
                    &&& old(self).spec_pos() + 4 <= old(self).spec_data().len()
                    &&& v == vstd::bytes::spec_u32_from_le_bytes(
                        old(self).spec_data().subrange(
                            old(self).spec_pos(),
                            old(self).spec_pos() + 4,
                        ),
                    )
                    &&& final(self).spec_pos() == old(self).spec_pos() + 4
                },
                Err(e) => {
                    &&& old(self).spec_data().len() < old(self).spec_pos() + 4
                    &&& e is Io
                    &&& final(self).spec_pos() == old(self).spec_pos()
                },
            },
    {
        if self.data.len() - self.pos < 4 {
            return Err(CodecError::Io(String::new()));
        }
        let v = vstd::bytes::u32_from_le_bytes(
            vstd::slice::slice_subrange(self.data.as_slice(), self.pos, self.pos + 4),
        );
        self.pos = self.pos + 4;
        Ok(v)
    }

    /// Read an exact number of bytes.
    pub fn read_bytes(&mut self, len: usize) -> (r: Result<Vec<u8>, CodecError>)
        requires
            old(self).wf(),
        ensures
            final(self).wf(),
            final(self).spec_data() == old(self).spec_data(),
            match r {
                Ok(bytes) => {
                    &&& old(self).spec_pos() + len <= old(self).spec_data().len()
                    &&& bytes@.len() == len
                    &&& bytes@ == old(self).spec_data().subrange(
                        old(self).spec_pos(),
                        old(self).spec_pos() + len,
                    )
                    &&& final(self).spec_pos() == old(self).spec_pos() + len
                },
                Err(e) => {
                    &&& old(self).spec_data().len() < old(self).spec_pos() + len
                    &&& e is Io
                    &&& final(self).spec_pos() == old(self).spec_pos()
                },
            },
    {
        if self.data.len() - self.pos < len {
            return Err(CodecError::Io(String::new()));
        }
        let bytes = vstd::slice::slice_to_vec(
            vstd::slice::slice_subrange(self.data.as_slice(), self.pos, self.pos + len),
        );
        self.pos = self.pos + len;
        Ok(bytes)
    }
}

/// Sequential writer into a byte buffer.
pub struct BitstreamWriter {
    out: Vec<u8>,
}

impl BitstreamWriter {
    /// The bytes written so far.
    pub closed spec fn spec_out(self) -> Seq<u8> {
        self.out@
    }

    /// A writer over an empty buffer.
    pub fn new() -> (r: BitstreamWriter)
        ensures
            r.spec_out() == Seq::<u8>::empty(),
    {
        let w = BitstreamWriter { out: Vec::new() };
        proof {
            assert(w.spec_out() =~= Seq::<u8>::empty());
        }
        w
    }

    /// Append one byte.
    pub fn write_u8(&mut self, value: u8) -> (r: Result<(), CodecError>)
        ensures
            r is Ok,
            final(self).spec_out() == old(self).spec_out().push(value),
    {
        self.out.push(value);
        Ok(())
    }

    /// Append a little-endian 16-bit integer.
    pub fn write_u16(&mut self, value: u16) -> (r: Result<(), CodecError>)
        ensures
            r is Ok,
            final(self).spec_out() == old(self).spec_out() + vstd::bytes::spec_u16_to_le_bytes(
                value,
            ),
    {
        let mut b = vstd::bytes::u16_to_le_bytes(value);
        self.out.append(&mut b);
        Ok(())
    }

    /// Append a little-endian 32-bit integer.
    pub fn write_u32(&mut self, value: u32) -> (r: Result<(), CodecError>)
        ensures
            r is Ok,
            final(self).spec_out() == old(self).spec_out() + vstd::bytes::spec_u32_to_le_bytes(
                value,
            ),
    {
        let mut b = vstd::bytes::u32_to_le_bytes(value);
        self.out.append(&mut b);
        Ok(())
    }

    /// Append a byte slice.
    pub fn write_bytes(&mut self, buf: &[u8]) -> (r: Result<(), CodecError>)
        ensures
            r is Ok,
            final(self).spec_out() == old(self).spec_out() + buf@,
    {
        let mut b = vstd::slice::slice_to_vec(buf);
        self.out.append(&mut b);
        Ok(())
    }

    /// Flush the writer; buffered writers have nothing pending.
    pub fn flush(&mut self) -> (r: Result<(), CodecError>)
        ensures
            r is Ok,
            final(self).spec_out() == old(self).spec_out(),
    {
        Ok(())
    }

    /// Take the written bytes out.
    pub fn into_bytes(self) -> (r: Vec<u8>)
        ensures
            r@ == self.spec_out(),
    {
        self.out
    }
}

} // verus!
