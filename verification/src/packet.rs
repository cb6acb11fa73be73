//! MySQL packet framing: 3-byte little-endian length + 1-byte sequence + payload.
use vstd::prelude::*;
use crate::error::ProtocolError;
use crate::lenenc::{append_bytes, from_le3, le3};

verus! {

/// Largest payload that one packet frame carries.
pub const MAX_PACKET_SIZE: usize = 16_777_215;

/// The frame of `payload` with sequence id `seq`.
pub open spec fn frame(seq: u8, payload: Seq<u8>) -> Seq<u8> {
    le3(payload.len() as u32) + seq![seq] + payload
}

/// Payload length announced by a frame header.
pub open spec fn header_len(buf: Seq<u8>) -> int {
    from_le3(buf[0], buf[1], buf[2]) as int
}

/// Splitting the first complete frame off `buf`: sequence id, payload, and the bytes after it.
pub open spec fn split_frame(buf: Seq<u8>) -> Option<(u8, Seq<u8>, Seq<u8>)> {
    if buf.len() < 4 || buf.len() < 4 + header_len(buf) {
        None
    } else {
        let n = header_len(buf);
        Some((buf[3], buf.subrange(4, 4 + n), buf.subrange(4 + n, buf.len() as int)))
    }
}

/// A framed packet: sequence id and payload.
#[derive(Debug, Clone, PartialEq, Eq)]
pub struct Packet {
    pub sequence: u8,
    pub payload: Vec<u8>,
}

impl Packet {
    /// A packet with the given sequence id and payload.
    pub fn new(sequence: u8, payload: Vec<u8>) -> (r: Self)
        ensures
            r.sequence == sequence,
            r.payload@ == payload@,
    {
        Packet { sequence, payload }
    }

    /// Decodes one frame at the start of `buf` into its sequence id and payload.
    pub fn decode(buf: &[u8]) -> (r: Result<(u8, Vec<u8>), ProtocolError>)
        ensures
            match split_frame(buf@) {
                Some((s, p, _)) => r matches Ok((s2, p2)) && s2 == s && p2@ == p,
                None => r matches Err(ProtocolError::InvalidLength(n)) && n == buf@.len(),
            },
    {
        if buf.len() < 4 {
            return Err(ProtocolError::InvalidLength(buf.len()));
        }
        let len = ((buf[0] as u32) | ((buf[1] as u32) << 8) | ((buf[2] as u32) << 16)) as usize;
        if buf.len() - 4 < len {
            return Err(ProtocolError::InvalidLength(buf.len()));
        }
        let sequence = buf[3];
        let payload = vstd::slice::slice_to_vec(vstd::slice::slice_subrange(buf, 4, 4 + len));
        Ok((sequence, payload))
    }
}

/// Encodes MySQL packets.
pub struct PacketWriter;

impl PacketWriter {
    /// Frames `payload` with sequence id `sequence`.
    pub fn encode(sequence: u8, payload: &[u8]) -> (r: Vec<u8>)
        requires
            payload@.len() <= MAX_PACKET_SIZE,
        ensures
            r@ == frame(sequence, payload@),
    {
        let len = payload.len();
        let mut buf: Vec<u8> = Vec::with_capacity(4 + len);
        buf.push((len & 0xFF) as u8);
        buf.push(((len >> 8) & 0xFF) as u8);
        buf.push(((len >> 16) & 0xFF) as u8);
        buf.push(sequence);
        proof {
            let l = len as u32;
            assert((len & 0xFF) as u8 == (l & 0xff) as u8 && ((len >> 8) & 0xFF) as u8 == ((l
                >> 8) & 0xff) as u8 && ((len >> 16) & 0xFF) as u8 == ((l >> 16) & 0xff) as u8)
                by (bit_vector)
                requires
                    len <= 16_777_215,
                    l == len as u32,
            ;
            assert(buf@ =~= le3(payload@.len() as u32) + seq![sequence]);
        }
        append_bytes(&mut buf, payload);
        buf
    }
}

/// Reading back a frame gives its sequence id and payload, whatever follows it.
pub proof fn lemma_frame_roundtrip(seq: u8, payload: Seq<u8>, rest: Seq<u8>)
    requires
        payload.len() <= MAX_PACKET_SIZE,
    ensures
        split_frame(frame(seq, payload) + rest) == Some((seq, payload, rest)),
{
    let b = frame(seq, payload) + rest;
    let n = payload.len() as u32;
    assert(n < 16777216 ==> ((n & 0xff) as u8) as u32 | ((((n >> 8) & 0xff) as u8) as u32) << 8
        | ((((n >> 16) & 0xff) as u8) as u32) << 16 == n) by (bit_vector);
    assert(header_len(b) == payload.len());
    assert(b.subrange(4, (4 + payload.len()) as int) =~= payload);
    assert(b.subrange((4 + payload.len()) as int, b.len() as int) =~= rest);
}

/// Incremental reader of frames from a byte stream.
#[derive(Debug)]
pub struct PacketReader {
    buffer: Vec<u8>,
}

impl View for PacketReader {
    type V = Seq<u8>;

    /// The bytes received and not yet handed out as packets.
    closed spec fn view(&self) -> Seq<u8> {
        self.buffer@
    }
}

impl PacketReader {
    /// A reader with nothing buffered.
    pub fn new() -> (r: Self)
        ensures
            r@ == Seq::<u8>::empty(),
    {
        PacketReader { buffer: Vec::new() }
    }

    /// Buffers `data`.
    pub fn push(&mut self, data: &[u8])
        ensures
            final(self)@ == old(self)@ + data@,
    {
        append_bytes(&mut self.buffer, data);
    }

    /// Takes the first complete frame out of the buffer, or `None` while it is incomplete.
    pub fn next_packet(&mut self) -> (r: Result<Option<Packet>, ProtocolError>)
        ensures
            r is Ok,
            match split_frame(old(self)@) {
                None => r == Ok::<Option<Packet>, ProtocolError>(None) && final(self)@ == old(self)@,
                Some((s, p, rest)) => r matches Ok(Some(pkt)) && pkt.sequence == s && pkt.payload@
                    == p && final(self)@ == rest,
            },
    {
        if self.buffer.len() < 4 {
            return Ok(None);
        }
        let b0 = self.buffer[0];
        let b1 = self.buffer[1];
        let b2 = self.buffer[2];
        let len32 = (b0 as u32) | ((b1 as u32) << 8) | ((b2 as u32) << 16);
        proof {
            assert((b0 as u32) | ((b1 as u32) << 8) | ((b2 as u32) << 16) <= 16_777_215)
                by (bit_vector);
        }
        let len = len32 as usize;
        if len > MAX_PACKET_SIZE {
            return Err(ProtocolError::PacketTooLarge);
        }
        if self.buffer.len() - 4 < len {
            return Ok(None);
        }
        let sequence = self.buffer[3];
        let payload = vstd::slice::slice_to_vec(
            vstd::slice::slice_subrange(self.buffer.as_slice(), 4, 4 + len),
        );
        let rest = vstd::slice::slice_to_vec(
            vstd::slice::slice_subrange(self.buffer.as_slice(), 4 + len, self.buffer.len()),
        );
        self.buffer = rest;
        Ok(Some(Packet { sequence, payload }))
    }
}

} // verus!
