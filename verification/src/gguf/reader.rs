//! Cursor over bytes in memory.
//!
//! All numbers are little-endian. A read past the end returns an error and
//! never panics.

use crate::gguf::error;
use crate::gguf::error::{Error, ErrorView};
use vstd::prelude::*;
use vstd::utf8::*;

verus! {

/// A value or an error, and the position after the read.
pub type Read<T> = (Result<T, ErrorView>, nat);

/// The unsigned number that little-endian bytes stand for.
pub open spec fn le_value(bytes: Seq<u8>) -> nat
    decreases bytes.len(),
{
    if bytes.len() == 0 {
        0
    } else {
        bytes[0] as nat + 256 * le_value(bytes.drop_first())
    }
}

/// The `n` little-endian bytes of a number.
pub open spec fn le_bytes(v: nat, n: nat) -> Seq<u8>
    decreases n,
{
    if n == 0 {
        Seq::empty()
    } else {
        seq![(v % 256) as u8] + le_bytes(v / 256, (n - 1) as nat)
    }
}

/// A number that fits its bytes is read back from them.
pub proof fn law_le_round_trip(v: nat, n: nat)
    requires
        v < vstd::arithmetic::power::pow(256, n),
    ensures
        le_bytes(v, n).len() == n,
        le_value(le_bytes(v, n)) == v,
    decreases n,
{
    vstd::arithmetic::power::lemma_pow0(256);
    if n > 0 {
        let rest = (n - 1) as nat;
        vstd::arithmetic::power::lemma_pow_adds(256, 1, rest);
        vstd::arithmetic::power::lemma_pow1(256);
        law_le_round_trip(v / 256, rest);
        assert(le_bytes(v, n).drop_first() =~= le_bytes(v / 256, rest));
    }
}

/// `n` bytes at a position.
pub open spec fn bytes_at(data: Seq<u8>, at: nat, n: nat) -> Read<Seq<u8>> {
    if at + n <= data.len() {
        (Ok(data.subrange(at as int, (at + n) as int)), at + n)
    } else {
        (Err(ErrorView::Truncated { pos: at, need: n, have: (data.len() - at) as nat }), at)
    }
}

/// The unsigned number in the `n` bytes at a position.
pub open spec fn unsigned_at(data: Seq<u8>, at: nat, n: nat) -> Read<nat> {
    match bytes_at(data, at, n) {
        (Ok(bytes), next) => (Ok(le_value(bytes)), next),
        (Err(e), next) => (Err(e), next),
    }
}

/// The number that `half * 2` values encode as two's complement.
pub open spec fn twos_complement(v: nat, half: nat) -> int {
    if v < half {
        v as int
    } else {
        v - 2 * half
    }
}

/// An unsigned byte.
pub open spec fn u8_at(data: Seq<u8>, at: nat) -> Read<u8> {
    match unsigned_at(data, at, 1) {
        (Ok(v), next) => (Ok(v as u8), next),
        (Err(e), next) => (Err(e), next),
    }
}

/// A signed byte.
pub open spec fn i8_at(data: Seq<u8>, at: nat) -> Read<i8> {
    match unsigned_at(data, at, 1) {
        (Ok(v), next) => (Ok(twos_complement(v, 0x80) as i8), next),
        (Err(e), next) => (Err(e), next),
    }
}

/// An unsigned number of two bytes.
pub open spec fn u16_at(data: Seq<u8>, at: nat) -> Read<u16> {
    match unsigned_at(data, at, 2) {
        (Ok(v), next) => (Ok(v as u16), next),
        (Err(e), next) => (Err(e), next),
    }
}

/// A signed number of two bytes.
pub open spec fn i16_at(data: Seq<u8>, at: nat) -> Read<i16> {
    match unsigned_at(data, at, 2) {
        (Ok(v), next) => (Ok(twos_complement(v, 0x8000) as i16), next),
        (Err(e), next) => (Err(e), next),
    }
}

/// An unsigned number of four bytes, or the bits of a single-precision number.
pub open spec fn u32_at(data: Seq<u8>, at: nat) -> Read<u32> {
    match unsigned_at(data, at, 4) {
        (Ok(v), next) => (Ok(v as u32), next),
        (Err(e), next) => (Err(e), next),
    }
}

/// A signed number of four bytes.
pub open spec fn i32_at(data: Seq<u8>, at: nat) -> Read<i32> {
    match unsigned_at(data, at, 4) {
        (Ok(v), next) => (Ok(twos_complement(v, 0x8000_0000) as i32), next),
        (Err(e), next) => (Err(e), next),
    }
}

/// An unsigned number of eight bytes, or the bits of a double-precision number.
pub open spec fn u64_at(data: Seq<u8>, at: nat) -> Read<u64> {
    match unsigned_at(data, at, 8) {
        (Ok(v), next) => (Ok(v as u64), next),
        (Err(e), next) => (Err(e), next),
    }
}

/// A signed number of eight bytes.
pub open spec fn i64_at(data: Seq<u8>, at: nat) -> Read<i64> {
    match unsigned_at(data, at, 8) {
        (Ok(v), next) => (Ok(twos_complement(v, 0x8000_0000_0000_0000) as i64), next),
        (Err(e), next) => (Err(e), next),
    }
}

/// A boolean: a byte that is 0 or 1.
pub open spec fn bool_at(data: Seq<u8>, at: nat) -> Read<bool> {
    match u8_at(data, at) {
        (Ok(b), next) => (
            if b == 0 {
                Ok(false)
            } else if b == 1 {
                Ok(true)
            } else {
                Err(ErrorView::InvalidBool(b))
            },
            next,
        ),
        (Err(e), next) => (Err(e), next),
    }
}

/// A string: its length in bytes as eight bytes, and its UTF-8 bytes.
pub open spec fn str_at(data: Seq<u8>, at: nat) -> Read<Seq<char>> {
    match u64_at(data, at) {
        (Ok(len), start) => match bytes_at(data, start, len as nat) {
            (Ok(bytes), next) => (
                if valid_utf8(bytes) {
                    Ok(decode_utf8(bytes))
                } else {
                    Err(ErrorView::InvalidUtf8(at))
                },
                next,
            ),
            (Err(e), next) => (Err(e), next),
        },
        (Err(e), next) => (Err(e), next),
    }
}

/// Reads bytes as text: `std::str::from_utf8`. Either the bytes are valid UTF-8
/// and the text has them, or the result is how many bytes the longest valid
/// prefix has, as `Utf8Error::valid_up_to` reports it.
#[verifier::external_body]
pub(crate) fn text_of(bytes: &[u8]) -> (r: Result<&str, usize>)
    ensures
        match r {
            Ok(s) => valid_utf8(bytes@) && s@ == decode_utf8(bytes@),
            Err(n) => !valid_utf8(bytes@) && n <= bytes@.len() && valid_utf8(
                bytes@.subrange(0, n as int),
            ) && forall|m: int|
                n < m <= bytes@.len() ==> !valid_utf8(#[trigger] bytes@.subrange(0, m)),
        },
{
    match std::str::from_utf8(bytes) {
        Ok(s) => Ok(s),
        Err(e) => Err(e.valid_up_to()),
    }
}

/// Little-endian values of the lengths that are read.
proof fn lemma_le_value(bytes: Seq<u8>)
    requires
        bytes.len() <= 8,
    ensures
        bytes.len() == 1 ==> le_value(bytes) == bytes[0],
        bytes.len() == 2 ==> le_value(bytes) == bytes[0] + 0x100 * bytes[1],
        bytes.len() == 4 ==> le_value(bytes) == bytes[0] + 0x100 * bytes[1] + 0x1_0000 * bytes[2]
            + 0x100_0000 * bytes[3],
        bytes.len() == 8 ==> le_value(bytes) == bytes[0] + 0x100 * bytes[1] + 0x1_0000 * bytes[2]
            + 0x100_0000 * bytes[3] + 0x1_0000_0000 * bytes[4] + 0x100_0000_0000 * bytes[5]
            + 0x1_0000_0000_0000 * bytes[6] + 0x100_0000_0000_0000 * bytes[7],
{
    reveal_with_fuel(le_value, 9);
}

/// What is read fits the integers that it is read into.
proof fn lemma_unsigned_fits(data: Seq<u8>, at: nat)
    ensures
        unsigned_at(data, at, 4).0 matches Ok(v) ==> v <= u32::MAX,
        unsigned_at(data, at, 8).0 matches Ok(v) ==> v <= u64::MAX,
{
    if at + 4 <= data.len() {
        lemma_le_value(data.subrange(at as int, (at + 4) as int));
    }
    if at + 8 <= data.len() {
        lemma_le_value(data.subrange(at as int, (at + 8) as int));
    }
}

/// A position-tracking cursor over bytes.
pub struct Reader<'a> {
    data: &'a [u8],
    pos: u64,
}

impl<'a> Reader<'a> {
    /// The bytes that are read.
    pub closed spec fn bytes(&self) -> Seq<u8> {
        self.data@
    }

    /// The position of the next read.
    pub closed spec fn at(&self) -> nat {
        self.pos as nat
    }

    /// The position is inside the bytes or at their end.
    pub open spec fn wf(&self) -> bool {
        self.at() <= self.bytes().len() <= usize::MAX
    }

    /// Whether a read went from `before` to `self` and returned what `expected`
    /// says.
    pub open spec fn has_read<T: View>(
        &self,
        before: &Self,
        result: Result<T, Error>,
        expected: Read<T::V>,
    ) -> bool {
        &&& self.wf()
        &&& self.bytes() == before.bytes()
        &&& self.at() == expected.1
        &&& error::seen(result) == expected.0
    }

    /// Create a new reader positioned at the start of `data`.
    pub fn new(data: &'a [u8]) -> (r: Self)
        ensures
            r.wf(),
            r.bytes() == data@,
            r.at() == 0,
    {
        let len: usize = data.len();
        Reader { data, pos: 0 }
    }

    /// Current read position, in bytes from the start.
    pub fn pos(&self) -> (p: u64)
        ensures
            p == self.at(),
    {
        self.pos
    }

    /// Number of bytes from the current position to the end.
    pub fn remaining(&self) -> (n: u64)
        requires
            self.wf(),
        ensures
            n == self.bytes().len() - self.at(),
    {
        self.data.len() as u64 - self.pos
    }

    /// Move the cursor to the offset `pos`, which may be the end.
    pub fn seek(&mut self, pos: u64) -> (r: Result<(), Error>)
        requires
            old(self).wf(),
        ensures
            final(self).wf(),
            final(self).bytes() == old(self).bytes(),
            pos <= old(self).bytes().len() ==> r is Ok && final(self).at() == pos,
            pos > old(self).bytes().len() ==> final(self).at() == old(self).at() && r is Err && r->Err_0@
                == (ErrorView::Truncated {
                pos: old(self).at(),
                need: (pos - old(self).at()) as nat,
                have: (old(self).bytes().len() - old(self).at()) as nat,
            }),
    {
        if pos > self.data.len() as u64 {
            return Err(Error::Truncated {
                pos: self.pos,
                need: pos - self.pos,
                have: self.remaining(),
            });
        }
        self.pos = pos;
        Ok(())
    }

    /// Read `n` bytes.
    pub fn read_bytes(&mut self, n: u64) -> (r: Result<&'a [u8], Error>)
        requires
            old(self).wf(),
        ensures
            final(self).has_read(old(self), r, bytes_at(old(self).bytes(), old(self).at(), n as nat)),
    {
        let have: u64 = self.remaining();
        if n > have {
            return Err(Error::Truncated { pos: self.pos, need: n, have });
        }
        let start: u64 = self.pos;
        let end: u64 = start + n;
        self.pos = end;
        Ok(vstd::slice::slice_subrange(self.data, start as usize, end as usize))
    }

    /// Advance the cursor by `n` bytes.
    pub fn skip(&mut self, n: u64) -> (r: Result<(), Error>)
        requires
            old(self).wf(),
        ensures
            final(self).wf(),
            final(self).bytes() == old(self).bytes(),
            final(self).at() == bytes_at(old(self).bytes(), old(self).at(), n as nat).1,
            match bytes_at(old(self).bytes(), old(self).at(), n as nat).0 {
                Ok(_) => r is Ok,
                Err(e) => r is Err && r->Err_0@ == e,
            },
    {
        match self.read_bytes(n) {
            Ok(_) => Ok(()),
            Err(e) => Err(e),
        }
    }

    /// Read a single unsigned byte.
    pub fn read_u8(&mut self) -> (r: Result<u8, Error>)
        requires
            old(self).wf(),
        ensures
            final(self).has_read(old(self), r, u8_at(old(self).bytes(), old(self).at())),
    {
        match self.read_bytes(1) {
            Ok(b) => {
                proof {
                    lemma_le_value(b@);
                }
                Ok(b[0])
            },
            Err(e) => Err(e),
        }
    }

    /// Read a signed byte.
    pub fn read_i8(&mut self) -> (r: Result<i8, Error>)
        requires
            old(self).wf(),
        ensures
            final(self).has_read(old(self), r, i8_at(old(self).bytes(), old(self).at())),
    {
        match self.read_bytes(1) {
            Ok(b) => {
                proof {
                    lemma_le_value(b@);
                }
                let v: u8 = b[0];
                if v < 0x80 {
                    Ok(v as i8)
                } else {
                    Ok((v as i16 - 0x100) as i8)
                }
            },
            Err(e) => Err(e),
        }
    }

    /// Read a little-endian `u16`.
    pub fn read_u16_le(&mut self) -> (r: Result<u16, Error>)
        requires
            old(self).wf(),
        ensures
            final(self).has_read(old(self), r, u16_at(old(self).bytes(), old(self).at())),
    {
        match self.read_bytes(2) {
            Ok(b) => {
                proof {
                    lemma_le_value(b@);
                }
                Ok(b[0] as u16 + 0x100 * b[1] as u16)
            },
            Err(e) => Err(e),
        }
    }

    /// Read a little-endian `i16`.
    pub fn read_i16_le(&mut self) -> (r: Result<i16, Error>)
        requires
            old(self).wf(),
        ensures
            final(self).has_read(old(self), r, i16_at(old(self).bytes(), old(self).at())),
    {
        match self.read_bytes(2) {
            Ok(b) => {
                proof {
                    lemma_le_value(b@);
                }
                let v: i32 = b[0] as i32 + 0x100 * b[1] as i32;
                if v < 0x8000 {
                    Ok(v as i16)
                } else {
                    Ok((v - 0x1_0000) as i16)
                }
            },
            Err(e) => Err(e),
        }
    }

    /// Read a little-endian `u32`.
    pub fn read_u32_le(&mut self) -> (r: Result<u32, Error>)
        requires
            old(self).wf(),
        ensures
            final(self).has_read(old(self), r, u32_at(old(self).bytes(), old(self).at())),
    {
        match self.read_bytes(4) {
            Ok(b) => {
                proof {
                    lemma_le_value(b@);
                }
                Ok(b[0] as u32 + 0x100 * b[1] as u32 + 0x1_0000 * b[2] as u32 + 0x100_0000 * b[3] as u32)
            },
            Err(e) => Err(e),
        }
    }

    /// Read a little-endian `i32`.
    pub fn read_i32_le(&mut self) -> (r: Result<i32, Error>)
        requires
            old(self).wf(),
        ensures
            final(self).has_read(old(self), r, i32_at(old(self).bytes(), old(self).at())),
    {
        proof {
            lemma_unsigned_fits(self.bytes(), self.at());
        }
        match self.read_u32_le() {
            Ok(v) => if v < 0x8000_0000 {
                Ok(v as i32)
            } else {
                Ok((v as i64 - 0x1_0000_0000) as i32)
            },
            Err(e) => Err(e),
        }
    }

    /// Read the bits of a little-endian single-precision number.
    pub fn read_f32_le(&mut self) -> (r: Result<u32, Error>)
        requires
            old(self).wf(),
        ensures
            final(self).has_read(old(self), r, u32_at(old(self).bytes(), old(self).at())),
    {
        self.read_u32_le()
    }

    /// Read a little-endian `u64`.
    pub fn read_u64_le(&mut self) -> (r: Result<u64, Error>)
        requires
            old(self).wf(),
        ensures
            final(self).has_read(old(self), r, u64_at(old(self).bytes(), old(self).at())),
    {
        match self.read_bytes(8) {
            Ok(b) => {
                proof {
                    lemma_le_value(b@);
                }
                let low: u64 = b[0] as u64 + 0x100 * b[1] as u64 + 0x1_0000 * b[2] as u64 + 0x100_0000
                    * b[3] as u64;
                let high: u64 = b[4] as u64 + 0x100 * b[5] as u64 + 0x1_0000 * b[6] as u64 + 0x100_0000
                    * b[7] as u64;
                Ok(low + 0x1_0000_0000 * high)
            },
            Err(e) => Err(e),
        }
    }

    /// Read a little-endian `i64`.
    pub fn read_i64_le(&mut self) -> (r: Result<i64, Error>)
        requires
            old(self).wf(),
        ensures
            final(self).has_read(old(self), r, i64_at(old(self).bytes(), old(self).at())),
    {
        proof {
            lemma_unsigned_fits(self.bytes(), self.at());
        }
        match self.read_u64_le() {
            Ok(v) => if v < 0x8000_0000_0000_0000 {
                Ok(v as i64)
            } else {
                Ok((v as i128 - 0x1_0000_0000_0000_0000) as i64)
            },
            Err(e) => Err(e),
        }
    }

    /// Read the bits of a little-endian double-precision number.
    pub fn read_f64_le(&mut self) -> (r: Result<u64, Error>)
        requires
            old(self).wf(),
        ensures
            final(self).has_read(old(self), r, u64_at(old(self).bytes(), old(self).at())),
    {
        self.read_u64_le()
    }

    /// Read a boolean: exactly 0 or 1, any other byte is an error.
    pub fn read_bool(&mut self) -> (r: Result<bool, Error>)
        requires
            old(self).wf(),
        ensures
            final(self).has_read(old(self), r, bool_at(old(self).bytes(), old(self).at())),
    {
        match self.read_u8() {
            Ok(b) => if b == 0 {
                Ok(false)
            } else if b == 1 {
                Ok(true)
            } else {
                Err(Error::InvalidBool(b))
            },
            Err(e) => Err(e),
        }
    }

    /// Read a length-prefixed UTF-8 string.
    pub fn read_str(&mut self) -> (r: Result<&'a str, Error>)
        requires
            old(self).wf(),
        ensures
            final(self).has_read(old(self), r, str_at(old(self).bytes(), old(self).at())),
    {
        let start: u64 = self.pos;
        match self.read_u64_le() {
            Ok(len) => match self.read_bytes(len) {
                Ok(bytes) => match text_of(bytes) {
                    Ok(text) => Ok(text),
                    Err(_) => Err(Error::InvalidUtf8(start)),
                },
                Err(e) => Err(e),
            },
            Err(e) => Err(e),
        }
    }
}

} // verus!
