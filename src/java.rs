//! A reader for streams written by Java's `DataOutput`: big-endian integers
//! and length-prefixed modified UTF-8 text.

use vstd::prelude::*;
use vstd::utf8::{decode_utf8, valid_utf8};

verus! {

/// The value of two bytes read as a big-endian unsigned integer.
pub open spec fn be_u16(b: Seq<u8>, p: int) -> int {
    b[p] as int * 0x100 + b[p + 1] as int
}

/// The value of four bytes read as a big-endian unsigned integer.
pub open spec fn be_u32(b: Seq<u8>, p: int) -> int {
    be_u16(b, p) * 0x1_0000 + be_u16(b, p + 2)
}

/// The value of four bytes read as a big-endian two's complement integer.
pub open spec fn be_i32(b: Seq<u8>, p: int) -> int {
    let u = be_u32(b, p);
    if u < 0x8000_0000 { u } else { u - 0x1_0000_0000 }
}

/// The value of eight bytes read as a big-endian unsigned integer.
pub open spec fn be_u64(b: Seq<u8>, p: int) -> int {
    be_u32(b, p) * 0x1_0000_0000 + be_u32(b, p + 4)
}

/// The value of eight bytes read as a big-endian two's complement integer.
pub open spec fn be_i64(b: Seq<u8>, p: int) -> int {
    let u = be_u64(b, p);
    if u < 0x8000_0000_0000_0000 { u } else { u - 0x1_0000_0000_0000_0000 }
}

/// The value of one byte read as a two's complement integer.
pub open spec fn signed_byte(b: u8) -> int {
    if b < 0x80 { b as int } else { b as int - 0x100 }
}

/// What the text of a field decodes to: UTF-8 where the bytes are valid
/// UTF-8, else Java's modified UTF-8.
pub open spec fn modified_utf8(b: Seq<u8>) -> Option<Seq<char>> {
    if valid_utf8(b) {
        Some(decode_utf8(b))
    } else {
        java_text_of(b)
    }
}

/// What `cesu8::from_java_cesu8` decodes a byte sequence to, if anything.
pub uninterp spec fn java_text_of(b: Seq<u8>) -> Option<Seq<char>>;

/// Relies on `std::str::from_utf8`: it accepts exactly the valid UTF-8
/// sequences, and the text is what they encode.
#[verifier::external_body]
fn utf8_text(b: &[u8]) -> (r: Option<String>)
    ensures
        match r {
            Some(s) => valid_utf8(b@) && s@ == decode_utf8(b@),
            None => !valid_utf8(b@),
        },
{
    std::str::from_utf8(b).ok().map(|s| s.to_string())
}

/// Relies on `cesu8::from_java_cesu8` to decode Java's modified UTF-8
/// (CESU-8 surrogate pairs, and NUL written as two bytes).
#[verifier::external_body]
fn java_text(b: &[u8]) -> (r: Option<String>)
    ensures
        match r {
            Some(s) => java_text_of(b@) == Some(s@),
            None => java_text_of(b@) is None,
        },
{
    cesu8::from_java_cesu8(b).ok().map(|s| s.into_owned())
}

/// Why a read from a `DataInput` failed.
#[derive(Clone, Copy, Debug, PartialEq, Eq, Structural)]
pub enum InputError {
    /// The input ended before the value was complete.
    Truncated,
    /// The bytes are neither UTF-8 nor modified UTF-8.
    InvalidText,
}

/// A cursor over the bytes of a `DataOutput` stream.
pub struct DataInput<'a> {
    inner: &'a [u8],
    pos: usize,
}

impl<'a> DataInput<'a> {
    /// The whole input.
    pub closed spec fn bytes(&self) -> Seq<u8> {
        self.inner@
    }

    /// The offset of the next byte to be read.
    pub closed spec fn pos(&self) -> int {
        self.pos as int
    }

    /// The number of bytes left to read.
    pub open spec fn left(&self) -> int {
        self.bytes().len() - self.pos()
    }

    pub open spec fn wf(&self) -> bool {
        0 <= self.pos() <= self.bytes().len()
    }

    pub fn new(inner: &'a [u8]) -> (r: Self)
        ensures
            r.wf(),
            r.bytes() == inner@,
            r.pos() == 0,
    {
        DataInput { inner, pos: 0 }
    }

    pub fn position(&self) -> (r: usize)
        requires
            self.wf(),
        ensures
            r == self.pos(),
            r <= self.bytes().len(),
    {
        self.pos
    }

    /// Reads one byte as a signed integer.
    pub fn read_byte(&mut self) -> (r: Result<i8, InputError>)
        requires
            old(self).wf(),
        ensures
            final(self).wf(),
            final(self).bytes() == old(self).bytes(),
            match r {
                Ok(v) => old(self).left() >= 1 && v as int == signed_byte(
                    old(self).bytes()[old(self).pos()],
                ) && final(self).pos() == old(self).pos() + 1,
                Err(e) => old(self).left() < 1 && e == InputError::Truncated && final(self).pos()
                    == old(self).pos(),
            },
    {
        if self.inner.len() - self.pos < 1 {
            return Err(InputError::Truncated);
        }
        let b = self.inner[self.pos];
        self.pos = self.pos + 1;
        if b < 0x80 {
            Ok(b as i8)
        } else {
            Ok((b as i16 - 0x100) as i8)
        }
    }

    /// Reads one byte as an unsigned integer.
    pub fn read_unsigned_byte(&mut self) -> (r: Result<u8, InputError>)
        requires
            old(self).wf(),
        ensures
            final(self).wf(),
            final(self).bytes() == old(self).bytes(),
            match r {
                Ok(v) => old(self).left() >= 1 && v == old(self).bytes()[old(self).pos()]
                    && final(self).pos() == old(self).pos() + 1,
                Err(e) => old(self).left() < 1 && e == InputError::Truncated && final(self).pos()
                    == old(self).pos(),
            },
    {
        if self.inner.len() - self.pos < 1 {
            return Err(InputError::Truncated);
        }
        let b = self.inner[self.pos];
        self.pos = self.pos + 1;
        Ok(b)
    }

    /// Reads two bytes as a big-endian unsigned integer.
    pub fn read_unsigned_short(&mut self) -> (r: Result<u16, InputError>)
        requires
            old(self).wf(),
        ensures
            final(self).wf(),
            final(self).bytes() == old(self).bytes(),
            match r {
                Ok(v) => old(self).left() >= 2 && v as int == be_u16(
                    old(self).bytes(),
                    old(self).pos(),
                ) && final(self).pos() == old(self).pos() + 2,
                Err(e) => old(self).left() < 2 && e == InputError::Truncated && final(self).pos()
                    == old(self).pos(),
            },
    {
        if self.inner.len() - self.pos < 2 {
            return Err(InputError::Truncated);
        }
        let b0 = self.inner[self.pos] as u16;
        let b1 = self.inner[self.pos + 1] as u16;
        self.pos = self.pos + 2;
        Ok(b0 * 0x100 + b1)
    }

    fn read_u32(&mut self) -> (r: Result<u32, InputError>)
        requires
            old(self).wf(),
        ensures
            final(self).wf(),
            final(self).bytes() == old(self).bytes(),
            match r {
                Ok(v) => old(self).left() >= 4 && v as int == be_u32(
                    old(self).bytes(),
                    old(self).pos(),
                ) && final(self).pos() == old(self).pos() + 4,
                Err(e) => old(self).left() < 4 && e == InputError::Truncated && final(self).pos()
                    == old(self).pos(),
            },
    {
        if self.inner.len() - self.pos < 4 {
            return Err(InputError::Truncated);
        }
        let p = self.pos;
        let hi = self.inner[p] as u32 * 0x100 + self.inner[p + 1] as u32;
        let lo = self.inner[p + 2] as u32 * 0x100 + self.inner[p + 3] as u32;
        self.pos = p + 4;
        Ok(hi * 0x1_0000 + lo)
    }

    /// Reads four bytes as a big-endian two's complement integer.
    pub fn read_int(&mut self) -> (r: Result<i32, InputError>)
        requires
            old(self).wf(),
        ensures
            final(self).wf(),
            final(self).bytes() == old(self).bytes(),
            match r {
                Ok(v) => old(self).left() >= 4 && v as int == be_i32(
                    old(self).bytes(),
                    old(self).pos(),
                ) && final(self).pos() == old(self).pos() + 4,
                Err(e) => old(self).left() < 4 && e == InputError::Truncated && final(self).pos()
                    == old(self).pos(),
            },
    {
        let u = self.read_u32()?;
        if u < 0x8000_0000 {
            Ok(u as i32)
        } else {
            Ok((u - 0x8000_0000) as i32 - 0x7fff_ffff - 1)
        }
    }

    /// Reads eight bytes as a big-endian two's complement integer.
    pub fn read_long(&mut self) -> (r: Result<i64, InputError>)
        requires
            old(self).wf(),
        ensures
            final(self).wf(),
            final(self).bytes() == old(self).bytes(),
            match r {
                Ok(v) => old(self).left() >= 8 && v as int == be_i64(
                    old(self).bytes(),
                    old(self).pos(),
                ) && final(self).pos() == old(self).pos() + 8,
                Err(e) => old(self).left() < 8 && e == InputError::Truncated && final(self).pos()
                    == old(self).pos(),
            },
    {
        if self.inner.len() - self.pos < 8 {
            return Err(InputError::Truncated);
        }
        let hi = self.read_u32()? as u64;
        let lo = self.read_u32()? as u64;
        let u = hi * 0x1_0000_0000 + lo;
        if u < 0x8000_0000_0000_0000 {
            Ok(u as i64)
        } else {
            Ok((u - 0x8000_0000_0000_0000) as i64 - 0x7fff_ffff_ffff_ffff - 1)
        }
    }

    /// Reads `len` bytes of text, as UTF-8 where they are valid UTF-8 and
    /// else as Java's modified UTF-8.
    pub fn read_utf8(&mut self, len: usize) -> (r: Result<String, InputError>)
        requires
            old(self).wf(),
        ensures
            final(self).wf(),
            final(self).bytes() == old(self).bytes(),
            old(self).left() < len ==> r == Err::<String, InputError>(InputError::Truncated),
            old(self).left() >= len ==> {
                let raw = old(self).bytes().subrange(old(self).pos(), old(self).pos() + len);
                &&& final(self).pos() == old(self).pos() + len
                &&& match r {
                    Ok(s) => modified_utf8(raw) == Some(s@),
                    Err(e) => modified_utf8(raw) is None && e == InputError::InvalidText,
                }
            },
    {
        if self.inner.len() - self.pos < len {
            return Err(InputError::Truncated);
        }
        let raw = vstd::slice::slice_subrange(self.inner, self.pos, self.pos + len);
        self.pos = self.pos + len;
        match utf8_text(raw) {
            Some(s) => Ok(s),
            None => match java_text(raw) {
                Some(s) => Ok(s),
                None => Err(InputError::InvalidText),
            },
        }
    }

    /// Whether every byte has been read.
    pub fn check_eof(&self) -> (r: bool)
        requires
            self.wf(),
        ensures
            r == (self.left() == 0),
    {
        self.pos == self.inner.len()
    }
}

} // verus!
