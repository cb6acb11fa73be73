//! Little-endian fixed-width integers and MySQL length-encoded integers and strings.
use vstd::prelude::*;
use vstd::utf8::encode_utf8;

verus! {

/// Two-byte little-endian encoding of `n`.
pub open spec fn le2(n: u16) -> Seq<u8> {
    seq![(n & 0xff) as u8, (n >> 8) as u8]
}

/// Three-byte little-endian encoding of the low 24 bits of `n`.
pub open spec fn le3(n: u32) -> Seq<u8> {
    seq![(n & 0xff) as u8, ((n >> 8) & 0xff) as u8, ((n >> 16) & 0xff) as u8]
}

/// Four-byte little-endian encoding of `n`.
pub open spec fn le4(n: u32) -> Seq<u8> {
    seq![(n & 0xff) as u8, ((n >> 8) & 0xff) as u8, ((n >> 16) & 0xff) as u8, (n >> 24) as u8]
}

/// Eight-byte little-endian encoding of `n`.
pub open spec fn le8(n: u64) -> Seq<u8> {
    seq![
        (n & 0xff) as u8,
        ((n >> 8) & 0xff) as u8,
        ((n >> 16) & 0xff) as u8,
        ((n >> 24) & 0xff) as u8,
        ((n >> 32) & 0xff) as u8,
        ((n >> 40) & 0xff) as u8,
        ((n >> 48) & 0xff) as u8,
        (n >> 56) as u8,
    ]
}

/// The integer that two little-endian bytes denote.
pub open spec fn from_le2(b0: u8, b1: u8) -> u16 {
    (b0 as u16) | ((b1 as u16) << 8)
}

/// The integer that three little-endian bytes denote.
pub open spec fn from_le3(b0: u8, b1: u8, b2: u8) -> u32 {
    (b0 as u32) | ((b1 as u32) << 8) | ((b2 as u32) << 16)
}

/// The integer that four little-endian bytes denote.
pub open spec fn from_le4(b0: u8, b1: u8, b2: u8, b3: u8) -> u32 {
    (b0 as u32) | ((b1 as u32) << 8) | ((b2 as u32) << 16) | ((b3 as u32) << 24)
}

/// The integer that eight little-endian bytes, given as a sequence, denote.
pub open spec fn from_le8(s: Seq<u8>) -> u64 {
    (s[0] as u64) | ((s[1] as u64) << 8) | ((s[2] as u64) << 16) | ((s[3] as u64) << 24) | ((
    s[4] as u64) << 32) | ((s[5] as u64) << 40) | ((s[6] as u64) << 48) | ((s[7] as u64) << 56)
}

/// MySQL length-encoded integer (`int<lenenc>`).
pub open spec fn lenenc_int(n: u64) -> Seq<u8> {
    if n < 251 {
        seq![n as u8]
    } else if n < 65536 {
        seq![0xFCu8] + le2(n as u16)
    } else if n < 16777216 {
        seq![0xFDu8] + le3(n as u32)
    } else {
        seq![0xFEu8] + le8(n)
    }
}

/// Length-encoded string: its byte length as `int<lenenc>`, then the bytes.
pub open spec fn lenenc_bytes(b: Seq<u8>) -> Seq<u8> {
    lenenc_int(b.len() as u64) + b
}

/// Number of bytes that a length-encoded integer whose first byte is `first` occupies.
pub open spec fn lenenc_width(first: u8) -> int {
    if first <= 250 {
        1
    } else if first == 0xFC {
        3
    } else if first == 0xFD {
        4
    } else if first == 0xFE {
        9
    } else {
        1
    }
}

/// Reading an `int<lenenc>` at the start of `s`: the value and the number of bytes it takes,
/// or `None` when `s` is empty, starts with `0xFB`/`0xFF`, or is too short.
pub open spec fn parse_lenenc(s: Seq<u8>) -> Option<(u64, int)> {
    if s.len() == 0 {
        None
    } else if s[0] <= 250 {
        Some((s[0] as u64, 1))
    } else if s[0] == 0xFC {
        if s.len() < 3 {
            None
        } else {
            Some((from_le2(s[1], s[2]) as u64, 3))
        }
    } else if s[0] == 0xFD {
        if s.len() < 4 {
            None
        } else {
            Some((from_le3(s[1], s[2], s[3]) as u64, 4))
        }
    } else if s[0] == 0xFE {
        if s.len() < 9 {
            None
        } else {
            Some((from_le8(s.subrange(1, 9)), 9))
        }
    } else {
        None
    }
}

/// Reading a length-encoded string at the start of `s`: the bytes and the total length consumed.
pub open spec fn parse_lenenc_bytes(s: Seq<u8>) -> Option<(Seq<u8>, int)> {
    match parse_lenenc(s) {
        None => None,
        Some((n, h)) => if h + n <= s.len() {
            Some((s.subrange(h, h + n), h + n))
        } else {
            None
        },
    }
}

proof fn lemma_le2_roundtrip(n: u16)
    ensures
        from_le2(le2(n)[0], le2(n)[1]) == n,
{
    let b0 = (n & 0xff) as u8;
    let b1 = (n >> 8) as u8;
    assert(((n & 0xff) as u8) as u16 | (((n >> 8) as u8) as u16) << 8 == n) by (bit_vector);
}

proof fn lemma_le3_roundtrip(n: u32)
    requires
        n < 16777216,
    ensures
        from_le3(le3(n)[0], le3(n)[1], le3(n)[2]) == n,
{
    assert(n < 16777216 ==> ((n & 0xff) as u8) as u32 | ((((n >> 8) & 0xff) as u8) as u32) << 8
        | ((((n >> 16) & 0xff) as u8) as u32) << 16 == n) by (bit_vector);
}

proof fn lemma_le8_roundtrip(n: u64)
    ensures
        from_le8(le8(n)) == n,
{
    let s = le8(n);
    assert(((n & 0xff) as u8) as u64 | ((((n >> 8) & 0xff) as u8) as u64) << 8 | ((((n >> 16)
        & 0xff) as u8) as u64) << 16 | ((((n >> 24) & 0xff) as u8) as u64) << 24 | ((((n >> 32)
        & 0xff) as u8) as u64) << 32 | ((((n >> 40) & 0xff) as u8) as u64) << 40 | ((((n >> 48)
        & 0xff) as u8) as u64) << 48 | (((n >> 56) as u8) as u64) << 56 == n) by (bit_vector);
}

/// Reading back a written length-encoded integer gives the integer and the exact width,
/// whatever bytes follow it.
pub proof fn lemma_lenenc_roundtrip(n: u64, rest: Seq<u8>)
    ensures
        parse_lenenc(lenenc_int(n) + rest) == Some((n, lenenc_int(n).len() as int)),
        lenenc_int(n).len() == lenenc_width(lenenc_int(n)[0]),
{
    let s = lenenc_int(n) + rest;
    if n < 251 {
    } else if n < 65536 {
        lemma_le2_roundtrip(n as u16);
        assert(s[1] == le2(n as u16)[0] && s[2] == le2(n as u16)[1]);
    } else if n < 16777216 {
        lemma_le3_roundtrip(n as u32);
        assert(s[1] == le3(n as u32)[0] && s[2] == le3(n as u32)[1] && s[3] == le3(
            n as u32,
        )[2]);
    } else {
        lemma_le8_roundtrip(n);
        assert(s.subrange(1, 9) =~= le8(n));
    }
}

/// Reading back a written length-encoded string gives the string and its total width.
pub proof fn lemma_lenenc_bytes_roundtrip(b: Seq<u8>, rest: Seq<u8>)
    requires
        b.len() <= u64::MAX,
    ensures
        parse_lenenc_bytes(lenenc_bytes(b) + rest) == Some((b, lenenc_bytes(b).len() as int)),
{
    let h = lenenc_int(b.len() as u64);
    lemma_lenenc_roundtrip(b.len() as u64, b + rest);
    assert(lenenc_bytes(b) + rest =~= h + (b + rest));
    assert((h + (b + rest)).subrange(h.len() as int, (h.len() + b.len()) as int) =~= b);
}

/// Appends `bytes` to `buf`.
pub fn append_bytes(buf: &mut Vec<u8>, bytes: &[u8])
    ensures
        final(buf)@ == old(buf)@ + bytes@,
{
    let mut i: usize = 0;
    while i < bytes.len()
        invariant
            i <= bytes@.len(),
            buf@ == old(buf)@ + bytes@.subrange(0, i as int),
        decreases bytes@.len() - i,
    {
        buf.push(bytes[i]);
        i = i + 1;
        proof {
            assert(buf@ =~= old(buf)@ + bytes@.subrange(0, i as int));
        }
    }
    proof {
        assert(bytes@.subrange(0, i as int) =~= bytes@);
    }
}

/// Appends the two-byte little-endian form of `n`.
pub fn push_le2(buf: &mut Vec<u8>, n: u16)
    ensures
        final(buf)@ == old(buf)@ + le2(n),
{
    buf.push((n & 0xff) as u8);
    buf.push((n >> 8) as u8);
    proof {
        assert(final(buf)@ =~= old(buf)@ + le2(n));
    }
}

/// Appends the four-byte little-endian form of `n`.
pub fn push_le4(buf: &mut Vec<u8>, n: u32)
    ensures
        final(buf)@ == old(buf)@ + le4(n),
{
    buf.push((n & 0xff) as u8);
    buf.push(((n >> 8) & 0xff) as u8);
    buf.push(((n >> 16) & 0xff) as u8);
    buf.push((n >> 24) as u8);
    proof {
        assert(final(buf)@ =~= old(buf)@ + le4(n));
    }
}

/// Appends the eight-byte little-endian form of `n`.
pub fn push_le8(buf: &mut Vec<u8>, n: u64)
    ensures
        final(buf)@ == old(buf)@ + le8(n),
{
    buf.push((n & 0xff) as u8);
    buf.push(((n >> 8) & 0xff) as u8);
    buf.push(((n >> 16) & 0xff) as u8);
    buf.push(((n >> 24) & 0xff) as u8);
    buf.push(((n >> 32) & 0xff) as u8);
    buf.push(((n >> 40) & 0xff) as u8);
    buf.push(((n >> 48) & 0xff) as u8);
    buf.push((n >> 56) as u8);
    proof {
        assert(final(buf)@ =~= old(buf)@ + le8(n));
    }
}

/// Appends `n` as a length-encoded integer.
pub fn write_lenenc_int(buf: &mut Vec<u8>, n: u64)
    ensures
        final(buf)@ == old(buf)@ + lenenc_int(n),
{
    if n < 251 {
        buf.push(n as u8);
        proof {
            assert(final(buf)@ =~= old(buf)@ + lenenc_int(n));
        }
    } else if n < 65_536 {
        buf.push(0xFC);
        push_le2(buf, n as u16);
        proof {
            assert(final(buf)@ =~= old(buf)@ + lenenc_int(n));
        }
    } else if n < 16_777_216 {
        let m = n as u32;
        buf.push(0xFD);
        buf.push((m & 0xff) as u8);
        buf.push(((m >> 8) & 0xff) as u8);
        buf.push(((m >> 16) & 0xff) as u8);
        proof {
            assert(final(buf)@ =~= old(buf)@ + lenenc_int(n));
        }
    } else {
        buf.push(0xFE);
        push_le8(buf, n);
        proof {
            assert(final(buf)@ =~= old(buf)@ + lenenc_int(n));
        }
    }
}

/// Appends `bytes` as a length-encoded string.
pub fn write_lenenc_bytes(buf: &mut Vec<u8>, bytes: &[u8])
    ensures
        final(buf)@ == old(buf)@ + lenenc_bytes(bytes@),
{
    write_lenenc_int(buf, bytes.len() as u64);
    append_bytes(buf, bytes);
    proof {
        assert(final(buf)@ =~= old(buf)@ + lenenc_bytes(bytes@));
    }
}

/// Appends the UTF-8 bytes of `s` as a length-encoded string.
pub fn write_lenenc_str(buf: &mut Vec<u8>, s: &str)
    ensures
        final(buf)@ == old(buf)@ + lenenc_bytes(encode_utf8(s@)),
{
    write_lenenc_bytes(buf, s.as_bytes());
}

/// Reads the two-byte little-endian integer at `pos`.
pub fn read_le2(buf: &[u8], pos: usize) -> (r: u16)
    requires
        pos + 2 <= buf@.len(),
    ensures
        r == from_le2(buf@[pos as int], buf@[pos + 1]),
{
    (buf[pos] as u16) | ((buf[pos + 1] as u16) << 8)
}

/// Reads the four-byte little-endian integer at `pos`.
pub fn read_le4(buf: &[u8], pos: usize) -> (r: u32)
    requires
        pos + 4 <= buf@.len(),
    ensures
        r == from_le4(buf@[pos as int], buf@[pos + 1], buf@[pos + 2], buf@[pos + 3]),
{
    (buf[pos] as u32) | ((buf[pos + 1] as u32) << 8) | ((buf[pos + 2] as u32) << 16) | ((buf[pos
        + 3] as u32) << 24)
}

/// Reads the eight-byte little-endian integer at `pos`.
pub fn read_le8(buf: &[u8], pos: usize) -> (r: u64)
    requires
        pos + 8 <= buf@.len(),
    ensures
        r == from_le8(buf@.subrange(pos as int, pos + 8)),
{
    let ghost s = buf@.subrange(pos as int, pos + 8);
    assert(s[0] == buf@[pos as int] && s[1] == buf@[pos + 1] && s[2] == buf@[pos + 2] && s[3]
        == buf@[pos + 3] && s[4] == buf@[pos + 4] && s[5] == buf@[pos + 5] && s[6] == buf@[pos
        + 6] && s[7] == buf@[pos + 7]);
    (buf[pos] as u64) | ((buf[pos + 1] as u64) << 8) | ((buf[pos + 2] as u64) << 16) | ((buf[pos
        + 3] as u64) << 24) | ((buf[pos + 4] as u64) << 32) | ((buf[pos + 5] as u64) << 40) | ((
    buf[pos + 6] as u64) << 48) | ((buf[pos + 7] as u64) << 56)
}

/// Reads an `int<lenenc>` starting at `pos`: the value and the number of bytes it takes.
pub fn lenenc_at(buf: &[u8], pos: usize) -> (r: Option<(u64, usize)>)
    requires
        pos <= buf@.len(),
    ensures
        match parse_lenenc(buf@.subrange(pos as int, buf@.len() as int)) {
            None => r is None,
            Some((v, w)) => r == Some((v, w as usize)),
        },
{
    let ghost s = buf@.subrange(pos as int, buf@.len() as int);
    if pos >= buf.len() {
        return None;
    }
    let first = buf[pos];
    if first <= 250 {
        Some((first as u64, 1))
    } else if first == 0xFC {
        if buf.len() - pos < 3 {
            return None;
        }
        Some((read_le2(buf, pos + 1) as u64, 3))
    } else if first == 0xFD {
        if buf.len() - pos < 4 {
            return None;
        }
        let v = (buf[pos + 1] as u32) | ((buf[pos + 2] as u32) << 8) | ((buf[pos + 3] as u32)
            << 16);
        Some((v as u64, 4))
    } else if first == 0xFE {
        if buf.len() - pos < 9 {
            return None;
        }
        let v = read_le8(buf, pos + 1);
        proof {
            assert(s.subrange(1, 9) =~= buf@.subrange(pos + 1, pos + 9));
        }
        Some((v, 9))
    } else {
        None
    }
}

} // verus!
