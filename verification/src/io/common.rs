//! In-memory byte streams: the source that the decoders read from, and the
//! errors that reading can end in.

use byteorder::ReadBytesExt;
use vstd::prelude::*;
use vstd::utf8::{encode_utf8, valid_utf8};

verus! {

/// How a read can fail. Each is final for the call that reports it.
#[derive(Clone, Copy, Debug, PartialEq, Eq, Structural)]
pub enum CodecError {
    /// The stream ended before the bytes that were needed.
    Truncated,
    /// A token would produce more bytes than the caller declared.
    Overflow,
    /// The stream decoded to the declared length, but its checksum trailer
    /// does not match what was decoded.
    MalformedStream,
}

/// A cursor over a borrowed byte slice.
pub struct ByteReader<'a> {
    data: &'a [u8],
    pos: usize,
}

/// Reads the byte at `pos` with `byteorder::ReadBytesExt::read_u8`, applied to
/// the rest of the slice from `pos` on. That method fills a one-byte buffer
/// with `read_exact`, which on a slice hands out its first byte, or fails when
/// the slice is empty; the failure becomes `None`.
#[verifier::external_body]
fn slice_read_u8(data: &[u8], pos: usize) -> (r: Option<u8>)
    requires
        pos <= data@.len(),
    ensures
        r == (if pos < data@.len() {
            Some(data@[pos as int])
        } else {
            None
        }),
{
    let mut rest: &[u8] = &data[pos..];
    rest.read_u8().ok()
}

impl<'a> ByteReader<'a> {
    #[verifier::type_invariant]
    spec fn inv(self) -> bool {
        self.pos <= self.data@.len()
    }

    /// All the bytes of the slice, read or not.
    pub closed spec fn source(self) -> Seq<u8> {
        self.data@
    }

    /// The bytes not yet read.
    pub closed spec fn remaining(self) -> Seq<u8> {
        self.data@.skip(self.pos as int)
    }

    /// A reader positioned at the start of `data`.
    pub fn new(data: &'a [u8]) -> (r: Self)
        ensures
            r.source() == data@,
            r.remaining() == data@,
    {
        ByteReader { data, pos: 0 }
    }

    /// How many bytes have been read so far: what is left is the source
    /// without that many bytes.
    pub fn position(&self) -> (p: usize)
        ensures
            p <= self.source().len(),
            self.remaining() == self.source().skip(p as int),
    {
        proof {
            use_type_invariant(self);
        }
        self.pos
    }
}

/// A source of bytes that is read front to back.
pub trait ByteSource {
    /// The bytes not yet read.
    spec fn unread(&self) -> Seq<u8>;

    /// Reads one byte, or reports `Truncated` at the end of the stream and
    /// leaves the source where it was.
    fn read_u8(&mut self) -> (r: Result<u8, CodecError>)
        ensures
            match r {
                Ok(b) => old(self).unread().len() > 0 && b == old(self).unread()[0]
                    && final(self).unread() == old(self).unread().skip(1),
                Err(e) => e == CodecError::Truncated && old(self).unread().len() == 0
                    && final(self).unread() == old(self).unread(),
            },
    ;
}

impl<'a> ByteSource for ByteReader<'a> {
    open spec fn unread(&self) -> Seq<u8> {
        self.remaining()
    }

    fn read_u8(&mut self) -> (r: Result<u8, CodecError>)
        ensures
            final(self).source() == old(self).source(),
    {
        proof {
            use_type_invariant(&*self);
        }
        let len = self.data.len();
        match slice_read_u8(self.data, self.pos) {
            Some(b) => {
                assert(self.pos < len);
                self.pos = self.pos + 1;
                assert(self.data@.skip(self.pos as int) =~= old(self).data@.skip(
                    old(self).pos as int,
                ).skip(1));
                Ok(b)
            },
            None => Err(CodecError::Truncated),
        }
    }
}

/// A sink of bytes that is written front to back.
pub trait ByteSink {
    /// The bytes written so far.
    spec fn written(&self) -> Seq<u8>;

    /// Appends `bytes`.
    fn write_all(&mut self, bytes: &[u8])
        ensures
            final(self).written() == old(self).written() + bytes@,
    ;
}

impl ByteSink for Vec<u8> {
    open spec fn written(&self) -> Seq<u8> {
        self@
    }

    fn write_all(&mut self, bytes: &[u8]) {
        let mut i: usize = 0;
        while i < bytes.len()
            invariant
                i <= bytes@.len(),
                self@ == old(self)@ + bytes@.take(i as int),
            decreases bytes@.len() - i,
        {
            self.push(bytes[i]);
            assert(bytes@.take(i + 1) =~= bytes@.take(i as int).push(bytes@[i as int]));
            i += 1;
        }
        assert(bytes@.take(i as int) =~= bytes@);
    }
}

/// The bytes of the string at the front of `s`: those before the first zero
/// byte, or all of `s` where it holds none.
pub open spec fn cstring_bytes(s: Seq<u8>) -> Seq<u8>
    decreases s.len(),
{
    if s.len() == 0 || s[0] == 0 {
        Seq::empty()
    } else {
        seq![s[0]] + cstring_bytes(s.skip(1))
    }
}

/// How many bytes of `s` the string at its front takes: its bytes and the
/// zero byte that ends it, where there is one.
pub open spec fn cstring_span(s: Seq<u8>) -> nat
    decreases s.len(),
{
    if s.len() == 0 {
        0
    } else if s[0] == 0 {
        1
    } else {
        1 + cstring_span(s.skip(1))
    }
}

/// Converts bytes to a string with `String::from_utf8`, which gives the
/// string that holds exactly these bytes, or fails where they are not valid
/// UTF-8; the failure becomes `None`.
#[verifier::external_body]
fn string_from_utf8(bytes: Vec<u8>) -> (r: Option<String>)
    ensures
        match r {
            Some(s) => valid_utf8(bytes@) && encode_utf8(s@) == bytes@,
            None => !valid_utf8(bytes@),
        },
{
    String::from_utf8(bytes).ok()
}

/// Reading strings from a byte source.
pub trait CommonReadExt: ByteSource {
    /// Reads a string that a zero byte, or the end of the source, ends. The
    /// zero byte is taken from the source and is no part of the string.
    fn read_cstring(&mut self) -> (r: String)
        requires
            valid_utf8(cstring_bytes(old(self).unread())),
        ensures
            encode_utf8(r@) == cstring_bytes(old(self).unread()),
            final(self).unread() == old(self).unread().skip(
                cstring_span(old(self).unread()) as int,
            ),
    ;
}

impl<'a> CommonReadExt for ByteReader<'a> {
    fn read_cstring(&mut self) -> (r: String)
        ensures
            final(self).source() == old(self).source(),
    {
        let ghost s0 = self.unread();
        let mut bytes: Vec<u8> = Vec::new();
        proof {
            assert(s0.skip(0) =~= s0);
            assert(bytes@ + cstring_bytes(s0) =~= cstring_bytes(s0));
        }
        loop
            invariant_except_break
                self.unread() == s0.skip(bytes@.len() as int),
                bytes@.len() + cstring_span(self.unread()) == cstring_span(s0),
            invariant
                s0 == old(self).unread(),
                self.source() == old(self).source(),
                bytes@.len() <= s0.len(),
                bytes@ + cstring_bytes(s0.skip(bytes@.len() as int)) == cstring_bytes(s0),
                valid_utf8(cstring_bytes(s0)),
            ensures
                bytes@ == cstring_bytes(s0),
                self.unread() == s0.skip(cstring_span(s0) as int),
            decreases s0.len() - bytes@.len(),
        {
            let ghost at = bytes@.len() as int;
            let ghost head = bytes@;
            match self.read_u8() {
                Ok(b) => {
                    proof {
                        assert(s0.skip(at).skip(1) =~= s0.skip(at + 1));
                    }
                    if b == 0 {
                        proof {
                            assert(bytes@ + Seq::<u8>::empty() =~= bytes@);
                        }
                        break ;
                    }
                    bytes.push(b);
                    proof {
                        assert(bytes@ + cstring_bytes(s0.skip(at + 1)) =~= head + (seq![b]
                            + cstring_bytes(s0.skip(at + 1))));
                    }
                },
                Err(_) => {
                    proof {
                        assert(bytes@ + Seq::<u8>::empty() =~= bytes@);
                    }
                    break ;
                },
            }
        }
        match string_from_utf8(bytes) {
            Some(s) => s,
            None => {
                // The caller has promised valid UTF-8.
                assert(false);
                String::new()
            },
        }
    }
}

/// Writing strings to a byte sink.
pub trait CommonWriteExt: ByteSink {
    /// Appends the bytes of a string and the zero byte that ends it.
    fn write_rv_string(&mut self, str: &[u8])
        ensures
            final(self).written() == old(self).written() + str@ + seq![0u8],
    ;
}

impl CommonWriteExt for Vec<u8> {
    fn write_rv_string(&mut self, str: &[u8]) {
        self.write_all(str);
        let end: [u8; 1] = [0];
        self.write_all(end.as_slice());
        assert(end@ =~= seq![0u8]);
    }
}

} // verus!
