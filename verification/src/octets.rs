//! The shared byte strings of the `bytes` crate, which carry payloads, and the
//! bytes that were read ahead of a stream.
use vstd::prelude::*;

verus! {

/// `bytes::Bytes`, a byte string whose copies share their memory.
#[verifier::external_type_specification]
#[verifier::external_body]
pub struct ExBytes(bytes::Bytes);

/// `bytes::BytesMut`, a byte string that can grow.
#[verifier::external_type_specification]
#[verifier::external_body]
pub struct ExBytesMut(bytes::BytesMut);

/// The bytes that a `bytes::Bytes` holds.
pub uninterp spec fn content(b: bytes::Bytes) -> Seq<u8>;

/// The bytes that a `bytes::BytesMut` holds.
pub uninterp spec fn content_mut(b: bytes::BytesMut) -> Seq<u8>;

/// `Bytes::new`: an empty byte string.
#[verifier::external_body]
pub(crate) fn bytes_new() -> (b: bytes::Bytes)
    ensures
        content(b) == Seq::<u8>::empty(),
{
    bytes::Bytes::new()
}

/// `Bytes::copy_from_slice`: a byte string that holds a copy of `data`.
#[verifier::external_body]
pub(crate) fn bytes_copy(data: &[u8]) -> (b: bytes::Bytes)
    ensures
        content(b) == data@,
{
    bytes::Bytes::copy_from_slice(data)
}

/// `Bytes::len`: the number of bytes held.
#[verifier::external_body]
pub(crate) fn bytes_len(b: &bytes::Bytes) -> (n: usize)
    ensures
        n == content(*b).len(),
{
    b.len()
}

/// `Bytes::is_empty`: no byte is held.
#[verifier::external_body]
pub(crate) fn bytes_is_empty(b: &bytes::Bytes) -> (r: bool)
    ensures
        r == (content(*b).len() == 0),
{
    b.is_empty()
}

/// `Bytes` dereferenced: the bytes held, as a slice.
#[verifier::external_body]
pub(crate) fn bytes_slice(b: &bytes::Bytes) -> (s: &[u8])
    ensures
        s@ == content(*b),
{
    b
}

/// `Buf::advance` on `Bytes`: the first `cnt` bytes are dropped. It panics
/// where there are fewer.
#[verifier::external_body]
pub(crate) fn bytes_advance(b: &mut bytes::Bytes, cnt: usize)
    requires
        cnt <= content(*old(b)).len(),
    ensures
        content(*final(b)) == content(*old(b)).subrange(
            cnt as int,
            content(*old(b)).len() as int,
        ),
{
    bytes::Buf::advance(b, cnt)
}

/// `BytesMut::with_capacity`: an empty byte string. It panics where the
/// capacity is more than a buffer can have.
#[verifier::external_body]
pub(crate) fn bytes_mut_with_capacity(capacity: usize) -> (b: bytes::BytesMut)
    requires
        capacity <= isize::MAX,
    ensures
        content_mut(b) == Seq::<u8>::empty(),
{
    bytes::BytesMut::with_capacity(capacity)
}

/// `BytesMut::extend_from_slice`: the bytes of `data` are added at the end. It
/// panics where there would be more than a buffer can have.
#[verifier::external_body]
pub(crate) fn bytes_mut_extend(b: &mut bytes::BytesMut, data: &[u8])
    requires
        content_mut(*old(b)).len() + data@.len() <= isize::MAX,
    ensures
        content_mut(*final(b)) == content_mut(*old(b)) + data@,
{
    b.extend_from_slice(data)
}

/// `BytesMut::freeze`: the same bytes, which can no longer grow.
#[verifier::external_body]
pub(crate) fn bytes_mut_freeze(b: bytes::BytesMut) -> (r: bytes::Bytes)
    ensures
        content(r) == content_mut(b),
{
    b.freeze()
}

/// The bytes that were read from a stream to see what it carries, and that
/// later reads get first.
pub struct SniffedPrefix {
    pub prefix: bytes::Bytes,
}

impl SniffedPrefix {
    /// The bytes still to be given back.
    pub open spec fn held(self) -> Seq<u8> {
        content(self.prefix)
    }

    /// Nothing was read ahead.
    pub fn new() -> (p: Self)
        ensures
            p.held() == Seq::<u8>::empty(),
    {
        SniffedPrefix { prefix: bytes_new() }
    }

    /// Gives bytes back, behind those given back before.
    pub fn prepend(&mut self, data: bytes::Bytes)
        requires
            old(self).held().len() + content(data).len() <= isize::MAX,
        ensures
            final(self).held() == old(self).held() + content(data),
    {
        if bytes_is_empty(&data) {
            assert(self.held() + content(data) =~= self.held());
            return;
        }
        if bytes_is_empty(&self.prefix) {
            assert(self.held() + content(data) =~= content(data));
            self.prefix = data;
        } else {
            let mut buf = bytes_mut_with_capacity(bytes_len(&self.prefix) + bytes_len(&data));
            assert(Seq::<u8>::empty() + self.held() =~= self.held());
            bytes_mut_extend(&mut buf, bytes_slice(&self.prefix));
            bytes_mut_extend(&mut buf, bytes_slice(&data));
            self.prefix = bytes_mut_freeze(buf);
        }
    }

    /// The next bytes for a reader with room for `room`, or `None` once all
    /// have been read and the reader has to turn to the stream itself.
    pub fn poll_read(&mut self, room: usize) -> (r: Option<Vec<u8>>)
        ensures
            if old(self).held().len() == 0 {
                r is None && final(self).held() == old(self).held()
            } else {
                let n = if old(self).held().len() < room {
                    old(self).held().len() as int
                } else {
                    room as int
                };
                &&& r is Some
                &&& r->0@ == old(self).held().subrange(0, n)
                &&& final(self).held() == old(self).held().subrange(
                    n,
                    old(self).held().len() as int,
                )
            },
    {
        if bytes_is_empty(&self.prefix) {
            return None;
        }
        let len: usize = bytes_len(&self.prefix);
        let amt: usize = if len < room {
            len
        } else {
            room
        };
        let out: Vec<u8> = crate::wire::sub_vec(bytes_slice(&self.prefix), 0, amt);
        bytes_advance(&mut self.prefix, amt);
        Some(out)
    }
}

/// What a reader gets and what is left are together what was held: reading
/// loses and adds nothing.
pub proof fn law_read_then_rest(held: Seq<u8>, n: int)
    requires
        0 <= n <= held.len(),
    ensures
        held.subrange(0, n) + held.subrange(n, held.len() as int) == held,
{
    assert(held.subrange(0, n) + held.subrange(n, held.len() as int) =~= held);
}

} // verus!
