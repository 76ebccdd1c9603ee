use vstd::prelude::*;
use vstd::string::StringSliceAdditionalSpecFns;

verus! {

/// Error raised while building a request frame.
#[derive(Clone, Copy, PartialEq, Eq, Structural, Debug)]
pub enum ParseError {
    /// A string payload too long for its length-prefixed encoding, whose
    /// length field is a signed 32-bit integer.
    StringTooLong,
}

#[verifier::external_type_specification]
#[verifier::external_body]
pub struct ExBytesMut(bytes::BytesMut);

/// The bytes a `bytes::BytesMut` buffer holds, in order.
pub uninterp spec fn buf_contents(b: bytes::BytesMut) -> Seq<u8>;

/// The four bytes of `n` in big-endian order.
pub open spec fn be_bytes_of_u32(n: u32) -> Seq<u8> {
    seq![
        ((n as int / 0x1000000) % 0x100) as u8,
        ((n as int / 0x10000) % 0x100) as u8,
        ((n as int / 0x100) % 0x100) as u8,
        ((n as int) % 0x100) as u8,
    ]
}

/// Relies on bytes::BufMut::put_u32 for BytesMut: appends the four bytes of
/// `n` in big-endian order, growing the buffer as needed. It panics only
/// when the grown buffer would pass the allocation bound, which the
/// precondition rules out.
#[verifier::external_body]
pub fn buf_put_u32(b: &mut bytes::BytesMut, n: u32)
    requires
        buf_contents(*old(b)).len() + 4 <= isize::MAX as int,
    ensures
        buf_contents(*final(b)) == buf_contents(*old(b)) + be_bytes_of_u32(n),
{
    bytes::BufMut::put_u32(b, n);
}

/// Relies on bytes::BufMut::put_slice for BytesMut: appends the slice,
/// growing the buffer as needed. It panics only when the grown buffer would
/// pass the allocation bound, which the precondition rules out.
#[verifier::external_body]
pub fn buf_put_slice(b: &mut bytes::BytesMut, src: &[u8])
    requires
        buf_contents(*old(b)).len() + src@.len() <= isize::MAX as int,
    ensures
        buf_contents(*final(b)) == buf_contents(*old(b)) + src@,
{
    bytes::BufMut::put_slice(b, src);
}

/// Append `v` to `buf` as a long string: a signed 32-bit big-endian byte
/// length followed by the UTF-8 bytes. A string whose encoding is longer
/// than the length field can carry is rejected and the buffer left
/// untouched.
pub fn write_long_string(v: &str, buf: &mut bytes::BytesMut) -> (r: Result<(), ParseError>)
    requires
        buf_contents(*old(buf)).len() + 4 + v.spec_bytes().len() <= isize::MAX as int,
    ensures
        v.spec_bytes().len() <= i32::MAX as int ==> r is Ok && buf_contents(*final(buf))
            == buf_contents(*old(buf)) + be_bytes_of_u32(v.spec_bytes().len() as u32)
            + v.spec_bytes(),
        v.spec_bytes().len() > i32::MAX as int ==> r is Err && buf_contents(*final(buf))
            == buf_contents(*old(buf)),
{
    let raw: &[u8] = v.as_bytes();
    let len = raw.len();
    if len > 0x7fff_ffff {
        return Err(ParseError::StringTooLong);
    }
    buf_put_u32(buf, len as u32);
    buf_put_slice(buf, raw);
    Ok(())
}

/// A request asking the cluster to prepare a query for later execution. Its
/// frame body is the query text as one length-prefixed long string.
pub struct Prepare<'a> {
    pub query: &'a str,
}

impl<'a> Prepare<'a> {
    /// Serialize the request body into `buf`: the query as a long string.
    pub fn serialize(&self, buf: &mut bytes::BytesMut) -> (r: Result<(), ParseError>)
        requires
            buf_contents(*old(buf)).len() + 4 + self.query.spec_bytes().len() <= isize::MAX as int,
        ensures
            self.query.spec_bytes().len() <= i32::MAX as int ==> r is Ok && buf_contents(
                *final(buf),
            ) == buf_contents(*old(buf)) + be_bytes_of_u32(self.query.spec_bytes().len() as u32)
                + self.query.spec_bytes(),
            self.query.spec_bytes().len() > i32::MAX as int ==> r is Err && buf_contents(
                *final(buf),
            ) == buf_contents(*old(buf)),
    {
        match write_long_string(self.query, buf) {
            Ok(()) => Ok(()),
            Err(e) => Err(e),
        }
    }
}

} // verus!
