use vstd::prelude::*;

use crate::error::GifParsingError;

verus! {

/// True when every byte of `s` is an ASCII code point.
pub open spec fn all_ascii(s: Seq<u8>) -> bool {
    forall|i: int| 0 <= i < s.len() ==> s[i] < 0x80
}

/// The characters spelled by a sequence of ASCII bytes.
pub open spec fn chars_of_bytes(s: Seq<u8>) -> Seq<char> {
    Seq::new(s.len(), |i: int| s[i] as char)
}

/// Whether a read of `n` bytes at `pos` stays inside `data`.
pub open spec fn can_read(data: Seq<u8>, pos: nat, n: nat) -> bool {
    pos + n <= data.len()
}

/// The `n` bytes of `data` starting at `pos`.
pub open spec fn read_window(data: Seq<u8>, pos: nat, n: nat) -> Seq<u8> {
    data.subrange(pos as int, pos as int + n as int)
}

/// The little-endian 16-bit integer stored at `pos` in `data`.
pub open spec fn le_u16(data: Seq<u8>, pos: nat) -> u16 {
    (data[pos as int] + data[pos as int + 1] * 0x100) as u16
}

/// Errors triggered when reading a string from a GIF buffer.
#[derive(Debug)]
pub enum GifReaderStringError {
    /// The requested bytes are not ASCII text.
    FromUtf8Error,
    /// The requested bytes extend past the end of the GIF buffer.
    IOError,
}

/// Positioned access to the bytes of a GIF data stream.
///
/// Every read of `n` bytes advances the position by `n`, whether or
/// not it succeeds: a read past the end of the data fails with an I/O
/// error but bumps the position counter all the same (pinned at the
/// machine's limit if that addition overflows).  The underlying byte
/// sequence never changes.
pub trait GifRead: Sized {
    /// The whole underlying byte sequence.
    spec fn bytes(&self) -> Seq<u8>;

    /// The current read position.
    spec fn pos(&self) -> nat;

    /// Read the next `nb_bytes` bytes as an ASCII string.
    fn read_str(&mut self, nb_bytes: usize) -> (r: Result<String, GifReaderStringError>)
        requires
            old(self).pos() <= old(self).bytes().len(),
        ensures
            final(self).bytes() == old(self).bytes(),
            match r {
                Ok(s) => {
                    &&& can_read(old(self).bytes(), old(self).pos(), nb_bytes as nat)
                    &&& all_ascii(read_window(old(self).bytes(), old(self).pos(), nb_bytes as nat))
                    &&& s@ == chars_of_bytes(
                        read_window(old(self).bytes(), old(self).pos(), nb_bytes as nat),
                    )
                    &&& final(self).pos() == old(self).pos() + nb_bytes
                    &&& final(self).pos() <= final(self).bytes().len()
                },
                Err(GifReaderStringError::FromUtf8Error) => {
                    &&& can_read(old(self).bytes(), old(self).pos(), nb_bytes as nat)
                    &&& !all_ascii(read_window(old(self).bytes(), old(self).pos(), nb_bytes as nat))
                    &&& final(self).pos() == old(self).pos() + nb_bytes
                    &&& final(self).pos() <= final(self).bytes().len()
                },
                Err(GifReaderStringError::IOError) => {
                    &&& !can_read(old(self).bytes(), old(self).pos(), nb_bytes as nat)
                    &&& (old(self).pos() + nb_bytes <= usize::MAX ==> final(self).pos() == old(
                        self,
                    ).pos() + nb_bytes)
                },
            },
    ;

    /// Read the next two bytes as a little-endian u16.
    fn read_u16(&mut self) -> (r: Result<u16, GifParsingError>)
        requires
            old(self).pos() <= old(self).bytes().len(),
        ensures
            final(self).bytes() == old(self).bytes(),
            match r {
                Ok(v) => {
                    &&& can_read(old(self).bytes(), old(self).pos(), 2)
                    &&& v == le_u16(old(self).bytes(), old(self).pos())
                    &&& final(self).pos() == old(self).pos() + 2
                    &&& final(self).pos() <= final(self).bytes().len()
                },
                Err(e) => {
                    &&& e == GifParsingError::IOError
                    &&& !can_read(old(self).bytes(), old(self).pos(), 2)
                    &&& (old(self).pos() + 2 <= usize::MAX ==> final(self).pos() == old(
                        self,
                    ).pos() + 2)
                },
            },
    ;

    /// Read the next byte.
    fn read_u8(&mut self) -> (r: Result<u8, GifParsingError>)
        requires
            old(self).pos() <= old(self).bytes().len(),
        ensures
            final(self).bytes() == old(self).bytes(),
            match r {
                Ok(v) => {
                    &&& can_read(old(self).bytes(), old(self).pos(), 1)
                    &&& v == old(self).bytes()[old(self).pos() as int]
                    &&& final(self).pos() == old(self).pos() + 1
                    &&& final(self).pos() <= final(self).bytes().len()
                },
                Err(e) => {
                    &&& e == GifParsingError::IOError
                    &&& !can_read(old(self).bytes(), old(self).pos(), 1)
                    &&& (old(self).pos() + 1 <= usize::MAX ==> final(self).pos() == old(
                        self,
                    ).pos() + 1)
                },
            },
    ;

    /// Read the next `nb_bytes` bytes.
    fn read_bytes(&mut self, nb_bytes: usize) -> (r: Result<Vec<u8>, GifParsingError>)
        requires
            old(self).pos() <= old(self).bytes().len(),
        ensures
            final(self).bytes() == old(self).bytes(),
            match r {
                Ok(v) => {
                    &&& can_read(old(self).bytes(), old(self).pos(), nb_bytes as nat)
                    &&& v@ == read_window(old(self).bytes(), old(self).pos(), nb_bytes as nat)
                    &&& final(self).pos() == old(self).pos() + nb_bytes
                    &&& final(self).pos() <= final(self).bytes().len()
                },
                Err(e) => {
                    &&& e == GifParsingError::IOError
                    &&& !can_read(old(self).bytes(), old(self).pos(), nb_bytes as nat)
                    &&& (old(self).pos() + nb_bytes <= usize::MAX ==> final(self).pos() == old(
                        self,
                    ).pos() + nb_bytes)
                },
            },
    ;

    /// Skip over the next `nb_bytes` bytes without materializing them.
    fn skip_bytes(&mut self, nb_bytes: usize) -> (r: Result<(), GifParsingError>)
        requires
            old(self).pos() <= old(self).bytes().len(),
        ensures
            final(self).bytes() == old(self).bytes(),
            match r {
                Ok(_) => {
                    &&& can_read(old(self).bytes(), old(self).pos(), nb_bytes as nat)
                    &&& final(self).pos() == old(self).pos() + nb_bytes
                    &&& final(self).pos() <= final(self).bytes().len()
                },
                Err(e) => {
                    &&& e == GifParsingError::IOError
                    &&& !can_read(old(self).bytes(), old(self).pos(), nb_bytes as nat)
                    &&& (old(self).pos() + nb_bytes <= usize::MAX ==> final(self).pos() == old(
                        self,
                    ).pos() + nb_bytes)
                },
            },
    ;

    /// The current cursor position, as a count of consumed bytes.
    fn get_pos(&self) -> (r: usize)
        ensures
            r == self.pos(),
    ;
}

/// A `GifRead` over a GIF buffer held in memory.
pub struct GifReader {
    /// The GIF data.
    data: Vec<u8>,
    /// Current position in the GIF data.
    pos: usize,
}

impl GifReader {
    /// Create a new GifReader over the full contents of a GIF buffer.
    pub fn new(data: Vec<u8>) -> (r: GifReader)
        ensures
            r.bytes() == data@,
            r.pos() == 0,
    {
        GifReader { data, pos: 0 }
    }

    /// Bump the position counter by a read's length, whether or not
    /// the read succeeded, pinning it at the machine's limit when the
    /// addition overflows.
    fn advance(&mut self, nb_bytes: usize)
        ensures
            final(self).data == old(self).data,
            old(self).pos + nb_bytes <= usize::MAX ==> final(self).pos == old(self).pos
                + nb_bytes,
    {
        if nb_bytes <= usize::MAX - self.pos {
            self.pos = self.pos + nb_bytes;
        } else {
            self.pos = usize::MAX;
        }
    }
}

/// Relies on `String::push`: it appends exactly the given character.
#[verifier::external_body]
fn push_char(s: &mut String, c: char)
    ensures
        final(s)@ == old(s)@.push(c),
{
    s.push(c);
}

impl GifRead for GifReader {
    closed spec fn bytes(&self) -> Seq<u8> {
        self.data@
    }

    closed spec fn pos(&self) -> nat {
        self.pos as nat
    }

    fn read_str(&mut self, nb_bytes: usize) -> (r: Result<String, GifReaderStringError>) {
        if nb_bytes > self.data.len() || self.pos > self.data.len() - nb_bytes {
            self.advance(nb_bytes);
            return Err(GifReaderStringError::IOError);
        }
        let end = self.pos + nb_bytes;
        let mut i = self.pos;
        let mut s = String::new();
        while i < end
            invariant
                self.data == old(self).data,
                self.pos == old(self).pos,
                self.pos <= i <= end,
                end == self.pos + nb_bytes,
                end <= self.data.len(),
                all_ascii(self.data@.subrange(self.pos as int, i as int)),
                s@ == chars_of_bytes(self.data@.subrange(self.pos as int, i as int)),
            decreases end - i,
        {
            let b = self.data[i];
            if b >= 0x80 {
                proof {
                    let w = read_window(old(self).bytes(), old(self).pos(), nb_bytes as nat);
                    assert(w[i - old(self).pos()] == self.data@[i as int]);
                    assert(!all_ascii(w));
                }
                self.pos = end;
                return Err(GifReaderStringError::FromUtf8Error);
            }
            push_char(&mut s, b as char);
            i += 1;
            proof {
                assert(all_ascii(self.data@.subrange(self.pos as int, i as int)));
                assert(s@ =~= chars_of_bytes(self.data@.subrange(self.pos as int, i as int)));
            }
        }
        self.pos = end;
        Ok(s)
    }

    fn read_u16(&mut self) -> (r: Result<u16, GifParsingError>) {
        if 2 > self.data.len() || self.pos > self.data.len() - 2 {
            self.advance(2);
            return Err(GifParsingError::IOError);
        }
        let b0 = self.data[self.pos];
        let b1 = self.data[self.pos + 1];
        self.pos = self.pos + 2;
        Ok(b0 as u16 + b1 as u16 * 0x100)
    }

    fn read_u8(&mut self) -> (r: Result<u8, GifParsingError>) {
        if self.pos >= self.data.len() {
            self.advance(1);
            return Err(GifParsingError::IOError);
        }
        let b = self.data[self.pos];
        self.pos = self.pos + 1;
        Ok(b)
    }

    fn read_bytes(&mut self, nb_bytes: usize) -> (r: Result<Vec<u8>, GifParsingError>) {
        if nb_bytes > self.data.len() || self.pos > self.data.len() - nb_bytes {
            self.advance(nb_bytes);
            return Err(GifParsingError::IOError);
        }
        let end = self.pos + nb_bytes;
        let mut i = self.pos;
        let mut v: Vec<u8> = Vec::new();
        while i < end
            invariant
                self.data == old(self).data,
                self.pos == old(self).pos,
                self.pos <= i <= end,
                end == self.pos + nb_bytes,
                end <= self.data.len(),
                v@ == self.data@.subrange(self.pos as int, i as int),
            decreases end - i,
        {
            v.push(self.data[i]);
            i += 1;
            proof {
                assert(v@ =~= self.data@.subrange(self.pos as int, i as int));
            }
        }
        self.pos = end;
        Ok(v)
    }

    fn skip_bytes(&mut self, nb_bytes: usize) -> (r: Result<(), GifParsingError>) {
        if nb_bytes > self.data.len() || self.pos > self.data.len() - nb_bytes {
            self.advance(nb_bytes);
            return Err(GifParsingError::IOError);
        }
        self.pos = self.pos + nb_bytes;
        Ok(())
    }

    fn get_pos(&self) -> (r: usize) {
        self.pos
    }
}

} // verus!
