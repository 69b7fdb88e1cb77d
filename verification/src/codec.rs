//! Length-prefixed frame codec.
//!
//! A frame on the wire is a 4-byte big-endian unsigned length `L` followed
//! by `L` bytes of payload. The encoder produces exactly that byte string;
//! the decoder accumulates bytes and drains as many complete frames as
//! possible, silently skipping zero-length frames and reporting frames
//! whose announced length exceeds a caller-chosen limit.

use vstd::prelude::*;

verus! {

/// Largest payload the agent accepts for a data frame: 1 MiB.
pub const MAX_FRAME_LEN: usize = 1048576;

/// Largest payload the agent accepts for the registration frame: 64 KiB.
pub const MAX_REGISTRATION_LEN: usize = 65536;

/// The four bytes of `n` in big-endian order.
pub open spec fn be32(n: u32) -> Seq<u8> {
    seq![
        (n / 0x1000000) as u8,
        ((n / 0x10000) % 256) as u8,
        ((n / 256) % 256) as u8,
        (n % 256) as u8,
    ]
}

/// The value announced by a 4-byte big-endian header.
pub open spec fn be32_val(b: Seq<u8>) -> int
    recommends
        b.len() >= 4,
{
    b[0] * 0x1000000 + b[1] * 0x10000 + b[2] * 256 + b[3]
}

/// The wire encoding of one frame: header plus payload.
pub open spec fn frame_bytes(payload: Seq<u8>) -> Seq<u8> {
    be32(payload.len() as u32) + payload
}

/// Reading back the four header bytes of `n` yields `n`.
pub proof fn lemma_be32_round_trip(n: u32)
    ensures
        be32_val(be32(n)) == n,
{
    assert((n / 0x1000000) * 0x1000000 + ((n / 0x10000) % 256) * 0x10000 + ((n / 256) % 256)
        * 256 + n % 256 == n) by (bit_vector);
}

/// Encode one frame: 4-byte big-endian length, then the payload.
pub fn encode_frame(payload: &Vec<u8>) -> (r: Vec<u8>)
    requires
        payload@.len() <= u32::MAX,
    ensures
        r@ == frame_bytes(payload@),
{
    let n: u32 = payload.len() as u32;
    let mut r: Vec<u8> = Vec::new();
    r.push((n / 0x1000000) as u8);
    r.push((n / 0x10000 % 256) as u8);
    r.push((n / 256 % 256) as u8);
    r.push((n % 256) as u8);
    let mut i: usize = 0;
    while i < payload.len()
        invariant
            i <= payload@.len(),
            r@ == be32(payload@.len() as u32) + payload@.take(i as int),
        decreases payload@.len() - i,
    {
        r.push(payload[i]);
        i = i + 1;
        proof {
            assert(payload@.take(i as int) == payload@.take(i - 1) + seq![payload@[i - 1]]);
        }
    }
    proof {
        assert(payload@.take(payload@.len() as int) == payload@);
    }
    r
}

/// A frame whose announced length exceeds the caller's limit: a fatal
/// protocol error on the agent side.
#[derive(Debug, PartialEq, Eq, Structural, Clone, Copy)]
pub enum FrameError {
    TooLarge,
}

/// What remains of a byte stream after skipping every leading
/// zero-length frame (a 4-byte header announcing length 0).
pub open spec fn drop_zero_frames(b: Seq<u8>) -> Seq<u8>
    decreases b.len(),
{
    if b.len() >= 4 && be32_val(b) == 0 {
        drop_zero_frames(b.skip(4))
    } else {
        b
    }
}

/// Accumulates bytes from the socket and drains complete frames.
pub struct FrameDecoder {
    buf: Vec<u8>,
}

impl View for FrameDecoder {
    type V = Seq<u8>;

    closed spec fn view(&self) -> Seq<u8> {
        self.buf@
    }
}

impl FrameDecoder {
    pub fn new() -> (r: FrameDecoder)
        ensures
            r@ =~= Seq::<u8>::empty(),
    {
        FrameDecoder { buf: Vec::new() }
    }

    /// Forget everything buffered, as the proxy does when its socket to
    /// the agent is dropped or replaced.
    pub fn clear(&mut self)
        ensures
            final(self)@ =~= Seq::<u8>::empty(),
    {
        self.buf.clear();
    }

    /// Append bytes read from the socket.
    pub fn push_bytes(&mut self, data: &Vec<u8>)
        ensures
            final(self)@ == old(self)@ + data@,
    {
        let mut i: usize = 0;
        let n = data.len();
        while i < n
            invariant
                n == data@.len(),
                0 <= i <= n,
                self@ =~= old(self)@ + data@.take(i as int),
            decreases n - i,
        {
            self.buf.push(data[i]);
            proof {
                assert(self@ =~= old(self)@ + data@.take(i + 1));
            }
            i = i + 1;
        }
        proof {
            assert(data@.take(n as int) =~= data@);
        }
    }

    /// Drain the next complete frame, if one is buffered.
    ///
    /// Zero-length frames are skipped silently. A header announcing more
    /// than `max_len` bytes is a protocol error; the agent closes the
    /// connection on it. `Ok(None)` means more bytes are needed.
    pub fn next_frame(&mut self, max_len: usize) -> (r: Result<Option<Vec<u8>>, FrameError>)
        ensures
            ({
                let c = drop_zero_frames(old(self)@);
                &&& c.len() < 4 ==> r == Ok::<Option<Vec<u8>>, FrameError>(None) && final(self)@
                    == c
                &&& c.len() >= 4 && be32_val(c) > max_len ==> r == Err::<
                    Option<Vec<u8>>,
                    FrameError,
                >(FrameError::TooLarge) && final(self)@ == c
                &&& c.len() >= 4 && be32_val(c) <= max_len && c.len() < 4 + be32_val(c) ==> r
                    == Ok::<Option<Vec<u8>>, FrameError>(None) && final(self)@ == c
                &&& c.len() >= 4 && be32_val(c) <= max_len && c.len() >= 4 + be32_val(c) ==> (
                r matches Ok(Some(p)) && p@ == c.subrange(4, 4 + be32_val(c)) && final(self)@
                    == c.skip(4 + be32_val(c)))
            }),
    {
        let ghost c = drop_zero_frames(old(self)@);
        loop
            invariant
                c == drop_zero_frames(old(self)@),
                drop_zero_frames(self@) == c,
            ensures
                self@ == c,
                self@.len() >= 4 && be32_val(self@) != 0,
            decreases self@.len(),
        {
            if self.buf.len() < 4 {
                proof {
                    assert(drop_zero_frames(self@) == self@);
                }
                return Ok(None);
            }
            let len: usize = (self.buf[0] as usize) * 0x1000000 + (self.buf[1] as usize) * 0x10000
                + (self.buf[2] as usize) * 256 + (self.buf[3] as usize);
            assert(len == be32_val(self@));
            if len == 0 {
                let ghost before = self@;
                self.buf = tail_from(&self.buf, 4);
                proof {
                    assert(drop_zero_frames(before) == drop_zero_frames(before.skip(4)));
                }
            } else {
                proof {
                    assert(drop_zero_frames(self@) == self@);
                }
                break;
            }
        }
        let len: usize = (self.buf[0] as usize) * 0x1000000 + (self.buf[1] as usize) * 0x10000 + (
        self.buf[2] as usize) * 256 + (self.buf[3] as usize);
        if len > max_len {
            return Err(FrameError::TooLarge);
        }
        if self.buf.len() - 4 < len {
            return Ok(None);
        }
        let payload = copy_range(&self.buf, 4, 4 + len);
        self.buf = tail_from(&self.buf, 4 + len);
        Ok(Some(payload))
    }
}

/// The bytes of `v` from `start` (inclusive) to `end` (exclusive).
pub fn copy_range(v: &Vec<u8>, start: usize, end: usize) -> (r: Vec<u8>)
    requires
        start <= end <= v@.len(),
    ensures
        r@ == v@.subrange(start as int, end as int),
{
    let mut r: Vec<u8> = Vec::new();
    let mut i: usize = start;
    while i < end
        invariant
            start <= i <= end <= v@.len(),
            r@ =~= v@.subrange(start as int, i as int),
        decreases end - i,
    {
        r.push(v[i]);
        proof {
            assert(r@ =~= v@.subrange(start as int, i + 1));
        }
        i = i + 1;
    }
    r
}

/// The bytes of `v` from `start` to the end.
pub fn tail_from(v: &Vec<u8>, start: usize) -> (r: Vec<u8>)
    requires
        start <= v@.len(),
    ensures
        r@ == v@.skip(start as int),
{
    let r = copy_range(v, start, v.len());
    proof {
        assert(v@.subrange(start as int, v@.len() as int) =~= v@.skip(start as int));
    }
    r
}

/// Round-trip identity of the codec: a frame encoded from any payload of
/// `1` to [`MAX_FRAME_LEN`] bytes, arriving possibly followed by further
/// bytes, is decoded back to exactly that payload, leaving the rest.
pub proof fn lemma_frame_round_trip(payload: Seq<u8>, rest: Seq<u8>)
    requires
        1 <= payload.len() <= MAX_FRAME_LEN,
    ensures
        ({
            let b = frame_bytes(payload) + rest;
            &&& drop_zero_frames(b) == b
            &&& b.len() >= 4
            &&& be32_val(b) == payload.len()
            &&& b.len() >= 4 + payload.len()
            &&& b.subrange(4, 4 + payload.len() as int) == payload
            &&& b.skip(4 + payload.len() as int) == rest
        }),
{
    let n = payload.len() as u32;
    let h = be32(n);
    let fb = h + payload;
    let b = fb + rest;
    assert(b == frame_bytes(payload) + rest);
    lemma_be32_round_trip(n);
    assert(h.len() == 4);
    assert(fb[0] == h[0] && fb[1] == h[1] && fb[2] == h[2] && fb[3] == h[3]);
    assert(b[0] == fb[0] && b[1] == fb[1] && b[2] == fb[2] && b[3] == fb[3]);
    assert(be32_val(b) == be32_val(h));
    assert(be32_val(b) == payload.len());
    assert(b.subrange(4, 4 + payload.len() as int) =~= payload);
    assert(b.skip(4 + payload.len() as int) =~= rest);
}

} // verus!
