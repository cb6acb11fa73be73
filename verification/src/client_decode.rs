//! Client-side decoding of server responses.
use vstd::prelude::*;
use crate::binary::{decode_binary_resultset_row, decode_row_panics, decode_row_spec};
use crate::lenenc::{from_le2, lenenc_at, lenenc_width, parse_lenenc, read_le2};
use crate::text::{owned, spec_utf8_lossy, utf8_decode_lossy};

verus! {

/// Decoded server response to a `COM_QUERY`.
#[derive(Debug, Clone, PartialEq, Eq)]
pub enum QueryResponse {
    OkPacket { affected_rows: u64 },
    ErrPacket { code: u16, message: String },
    Rows { columns: Vec<String>, rows: Vec<Vec<String>> },
}

/// An OK packet used as a resultset trailer: `0x00`, two length-encoded integers, status and
/// warnings, then (when session tracking is on) optionally one length-encoded integer, and
/// nothing else.
pub open spec fn ok_as_eof_spec(p: Seq<u8>, session_track: bool) -> bool {
    p.len() > 0 && p[0] == 0x00 && match parse_lenenc(p.subrange(1, p.len() as int)) {
        None => false,
        Some((_, w1)) => match parse_lenenc(p.subrange(1 + w1, p.len() as int)) {
            None => false,
            Some((_, w2)) => {
                let pos = 1 + w1 + w2 + 4;
                pos <= p.len() && (if session_track && pos < p.len() {
                    match parse_lenenc(p.subrange(pos, p.len() as int)) {
                        None => false,
                        Some((_, w3)) => pos + w3 == p.len(),
                    }
                } else {
                    pos == p.len()
                })
            },
        },
    }
}

/// Whether `packet` ends a resultset: a legacy EOF (`0xFE`, shorter than 8 bytes), or, when
/// `deprecate_eof` is negotiated, an OK-as-EOF trailer.
pub open spec fn terminator_spec(packet: Seq<u8>, deprecate_eof: bool, session_track: bool) -> bool {
    packet.len() > 0 && ((packet[0] == 0xFE && packet.len() < 8) || (deprecate_eof
        && ok_as_eof_spec(packet, session_track)))
}

fn is_ok_as_eof_packet(packet: &[u8], session_track: bool) -> (r: bool)
    ensures
        r == ok_as_eof_spec(packet@, session_track),
{
    let ghost p = packet@;
    if packet.len() == 0 || packet[0] != 0x00 {
        return false;
    }
    let w1 = match lenenc_at(packet, 1) {
        None => {
            return false;
        },
        Some((_, w)) => w,
    };
    let w2 = match lenenc_at(packet, 1 + w1) {
        None => {
            return false;
        },
        Some((_, w)) => w,
    };
    let pos = 1 + w1 + w2;
    if packet.len() - pos < 4 {
        return false;
    }
    let pos = pos + 4;
    if session_track && pos < packet.len() {
        match lenenc_at(packet, pos) {
            None => false,
            Some((_, w3)) => pos + w3 == packet.len(),
        }
    } else {
        pos == packet.len()
    }
}

/// Resultset terminator with explicit OK-as-EOF and session-track negotiation.
pub fn is_resultset_terminator_with_caps(packet: &[u8], deprecate_eof: bool, session_track: bool) -> (r:
    bool)
    ensures
        r == terminator_spec(packet@, deprecate_eof, session_track),
{
    if packet.len() == 0 {
        return false;
    }
    if packet[0] == 0xFE && packet.len() < 8 {
        return true;
    }
    deprecate_eof && is_ok_as_eof_packet(packet, session_track)
}

/// Resultset terminator; with `deprecate_eof` also OK-as-EOF trailers (session tracking
/// assumed negotiated with it).
pub fn is_resultset_terminator_for_client(packet: &[u8], deprecate_eof: bool) -> (r: bool)
    ensures
        r == terminator_spec(packet@, deprecate_eof, deprecate_eof),
{
    is_resultset_terminator_with_caps(packet, deprecate_eof, deprecate_eof)
}

/// Legacy EOF resultset terminator.
pub fn is_resultset_terminator(packet: &[u8]) -> (r: bool)
    ensures
        r == terminator_spec(packet@, false, false),
{
    is_resultset_terminator_for_client(packet, false)
}

/// Whether `read_lenenc_int` at `pos` panics: a multi-byte header runs past the payload.
pub open spec fn lenenc_read_panics(p: Seq<u8>, pos: int) -> bool {
    0 <= pos < p.len() && p[pos] >= 0xFC && p[pos] <= 0xFE && p.len() - pos < lenenc_width(p[pos])
}

/// `read_lenenc_int` at `pos`: the value (`0` past the end or for `0xFB`/`0xFF`) and the new
/// position.
pub open spec fn lenenc_read(p: Seq<u8>, pos: int) -> (u64, int) {
    if pos < 0 || pos >= p.len() {
        (0, pos)
    } else {
        match parse_lenenc(p.subrange(pos, p.len() as int)) {
            Some((v, w)) => (v, pos + w),
            None => (0, pos + 1),
        }
    }
}

/// Reads a length-encoded integer at `*pos` and advances `*pos` past it.
pub fn read_lenenc_int(payload: &[u8], pos: &mut usize) -> (r: u64)
    requires
        !lenenc_read_panics(payload@, *old(pos) as int),
    ensures
        r == lenenc_read(payload@, *old(pos) as int).0,
        *final(pos) as int == lenenc_read(payload@, *old(pos) as int).1,
{
    let ghost p0 = *pos as int;
    if *pos >= payload.len() {
        return 0;
    }
    match lenenc_at(payload, *pos) {
        Some((v, w)) => {
            *pos = *pos + w;
            v
        },
        None => {
            *pos = *pos + 1;
            0
        },
    }
}

/// Whether `read_lenenc_string` at `pos` panics: its header does, or the end position overflows.
pub open spec fn lenenc_str_panics(p: Seq<u8>, pos: int) -> bool {
    lenenc_read_panics(p, pos) || lenenc_read(p, pos).1 + lenenc_read(p, pos).0 > usize::MAX
}

/// `read_lenenc_string` at `pos`: the text and the new position, or `None` (position after the
/// header) when the string runs past the payload.
pub open spec fn lenenc_str_read(p: Seq<u8>, pos: int) -> (Option<Seq<char>>, int) {
    let (n, q) = lenenc_read(p, pos);
    if q + n > p.len() {
        (None, q)
    } else {
        (Some(spec_utf8_lossy(p.subrange(q, q + n))), q + n)
    }
}

/// Reads a length-encoded string at `*pos` (invalid UTF-8 replaced) and advances `*pos`.
pub fn read_lenenc_string(payload: &[u8], pos: &mut usize) -> (r: Option<String>)
    requires
        !lenenc_str_panics(payload@, *old(pos) as int),
    ensures
        r matches Some(s) ==> lenenc_str_read(payload@, *old(pos) as int).0 == Some(s@),
        r is None ==> lenenc_str_read(payload@, *old(pos) as int).0 is None,
        *final(pos) as int == lenenc_str_read(payload@, *old(pos) as int).1,
{
    let len = read_lenenc_int(payload, pos) as usize;
    if *pos + len > payload.len() {
        return None;
    }
    let body = vstd::slice::slice_subrange(payload, *pos, *pos + len);
    let s = utf8_decode_lossy(body);
    *pos = *pos + len;
    Some(s)
}

/// Reading `k` length-encoded strings from `pos`: the last one read and the end position, or
/// `None` when one runs past the payload.
pub open spec fn read_strs(p: Seq<u8>, pos: int, k: nat) -> Option<(Seq<char>, int)>
    decreases k,
{
    if k == 0 {
        Some((Seq::empty(), pos))
    } else {
        match lenenc_str_read(p, pos) {
            (None, _) => None,
            (Some(s), q) => if k == 1 {
                Some((s, q))
            } else {
                read_strs(p, q, (k - 1) as nat)
            },
        }
    }
}

/// Whether reading `k` length-encoded strings from `pos` panics.
pub open spec fn read_strs_panics(p: Seq<u8>, pos: int, k: nat) -> bool
    decreases k,
{
    if k == 0 {
        false
    } else if lenenc_str_panics(p, pos) {
        true
    } else {
        match lenenc_str_read(p, pos) {
            (None, _) => false,
            (Some(_), q) => read_strs_panics(p, q, (k - 1) as nat),
        }
    }
}

fn read_n_strings(payload: &[u8], pos: usize, k: usize) -> (r: Option<(String, usize)>)
    requires
        pos <= payload@.len(),
        !read_strs_panics(payload@, pos as int, k as nat),
    ensures
        match read_strs(payload@, pos as int, k as nat) {
            None => r is None,
            Some((s, q)) => r matches Some((s2, q2)) && s2@ == s && q2 == q,
        },
    decreases k,
{
    if k == 0 {
        return Some((String::new(), pos));
    }
    let mut p = pos;
    match read_lenenc_string(payload, &mut p) {
        None => None,
        Some(s) => {
            if k == 1 {
                Some((s, p))
            } else {
                if p > payload.len() {
                    return None;
                }
                read_n_strings(payload, p, k - 1)
            }
        },
    }
}

/// The column name (fifth field) of a ColumnDefinition41 payload.
pub fn column_name_from_definition(payload: &[u8]) -> (r: Option<String>)
    requires
        !read_strs_panics(payload@, 0, 5),
    ensures
        match read_strs(payload@, 0, 5) {
            None => r is None,
            Some((s, _)) => r matches Some(s2) && s2@ == s,
        },
{
    match read_n_strings(payload, 0, 5) {
        None => None,
        Some((s, _)) => Some(s),
    }
}

/// The wire type byte of a ColumnDefinition41 payload: after six strings, the `0x0c` length
/// marker, charset and column length.
pub open spec fn column_type_spec(p: Seq<u8>) -> Option<u8> {
    match read_strs(p, 0, 6) {
        None => None,
        Some((_, q)) => if 0 <= q < p.len() && p[q] == 0x0c && q + 7 < p.len() {
            Some(p[q + 7])
        } else {
            None
        },
    }
}

/// Extracts the MySQL column type byte from a ColumnDefinition41 payload.
pub fn mysql_type_from_column_definition(payload: &[u8]) -> (r: Option<u8>)
    requires
        !read_strs_panics(payload@, 0, 6),
    ensures
        r == column_type_spec(payload@),
{
    match read_n_strings(payload, 0, 6) {
        None => None,
        Some((_, q)) => {
            if q >= payload.len() || payload[q] != 0x0c {
                return None;
            }
            if payload.len() - q <= 7 {
                return None;
            }
            Some(payload[q + 7])
        },
    }
}

/// Column names and wire types from resultset column definition packets; `None` when any
/// definition does not decode.
pub fn decode_column_definitions(defs: &[Vec<u8>]) -> (r: Option<(Vec<String>, Vec<u8>)>)
    requires
        forall|i: int|
            0 <= i < defs@.len() ==> !read_strs_panics((#[trigger] defs@[i])@, 0, 5)
                && !read_strs_panics(defs@[i]@, 0, 6),
    ensures
        r is Some <==> forall|i: int|
            0 <= i < defs@.len() ==> read_strs((#[trigger] defs@[i])@, 0, 5) is Some
                && column_type_spec(defs@[i]@) is Some,
        r matches Some((cols, tys)) ==> cols@.len() == defs@.len() && tys@.len() == defs@.len()
            && forall|i: int|
            0 <= i < defs@.len() ==> (read_strs((#[trigger] defs@[i])@, 0, 5) matches Some((s, _)) && s
                == cols@[i]@) && column_type_spec(defs@[i]@) == Some(tys@[i]),
{
    let mut columns: Vec<String> = Vec::new();
    let mut types: Vec<u8> = Vec::new();
    let mut i: usize = 0;
    while i < defs.len()
        invariant
            i <= defs@.len(),
            columns@.len() == i,
            types@.len() == i,
            forall|j: int|
                0 <= j < defs@.len() ==> !read_strs_panics((#[trigger] defs@[j])@, 0, 5)
                    && !read_strs_panics(defs@[j]@, 0, 6),
            forall|j: int|
                0 <= j < i ==> (read_strs((#[trigger] defs@[j])@, 0, 5) matches Some((s, _)) && s
                    == columns@[j]@) && column_type_spec(defs@[j]@) == Some(types@[j]),
        decreases defs@.len() - i,
    {
        let name = match column_name_from_definition(defs[i].as_slice()) {
            Some(n) => n,
            None => {
                return None;
            },
        };
        let ty = match mysql_type_from_column_definition(defs[i].as_slice()) {
            Some(t) => t,
            None => {
                return None;
            },
        };
        columns.push(name);
        types.push(ty);
        i = i + 1;
    }
    Some((columns, types))
}

/// Decodes a binary `COM_STMT_EXECUTE` result row.
pub fn decode_binary_row(col_types: &[u8], payload: &[u8]) -> (r: Option<Vec<String>>)
    requires
        !decode_row_panics(col_types@, payload@),
    ensures
        match decode_row_spec(col_types@, payload@) {
            None => r is None,
            Some(cells) => r matches Some(out) && out@.map_values(|s: String| s@) == cells,
        },
{
    decode_binary_resultset_row(col_types, payload)
}

/// Decoding a text row from `pos`: each cell is `0xFB` (NULL, read as the empty string) or a
/// length-encoded string; `None` when a string runs past the payload.
pub open spec fn text_cells(p: Seq<u8>, pos: int) -> Option<Seq<Seq<char>>>
    decreases p.len() - pos,
{
    if pos < 0 || pos >= p.len() {
        Some(Seq::empty())
    } else if p[pos] == 0xFB {
        match text_cells(p, pos + 1) {
            Some(rest) => Some(seq![Seq::<char>::empty()] + rest),
            None => None,
        }
    } else {
        match lenenc_str_read(p, pos) {
            (None, _) => None,
            (Some(s), q) => if q <= pos {
                None
            } else {
                match text_cells(p, q) {
                    Some(rest) => Some(seq![s] + rest),
                    None => None,
                }
            },
        }
    }
}

/// Whether decoding a text row from `pos` panics.
pub open spec fn text_cells_panic(p: Seq<u8>, pos: int) -> bool
    decreases p.len() - pos,
{
    if pos < 0 || pos >= p.len() {
        false
    } else if p[pos] == 0xFB {
        text_cells_panic(p, pos + 1)
    } else if lenenc_str_panics(p, pos) {
        true
    } else {
        match lenenc_str_read(p, pos) {
            (None, _) => false,
            (Some(_), q) => if q <= pos {
                false
            } else {
                text_cells_panic(p, q)
            },
        }
    }
}

proof fn lemma_str_read_advances(p: Seq<u8>, pos: int)
    requires
        0 <= pos < p.len(),
    ensures
        lenenc_str_read(p, pos).1 > pos,
{
}

/// Decodes a text resultset row packet.
pub fn decode_text_row(payload: &[u8]) -> (r: Option<Vec<String>>)
    requires
        !text_cells_panic(payload@, 0),
    ensures
        match text_cells(payload@, 0) {
            None => r is None,
            Some(cells) => r matches Some(out) && out@.map_values(|s: String| s@) == cells,
        },
{
    let mut pos: usize = 0;
    let mut values: Vec<String> = Vec::new();
    while pos < payload.len()
        invariant
            pos <= payload@.len(),
            !text_cells_panic(payload@, pos as int),
            text_cells(payload@, 0) == match text_cells(payload@, pos as int) {
                Some(rest) => Some(values@.map_values(|s: String| s@) + rest),
                None => None,
            },
        decreases payload@.len() - pos,
    {
        let ghost prev = values@.map_values(|s: String| s@);
        let ghost p0 = pos as int;
        if payload[pos] == 0xFB {
            pos = pos + 1;
            values.push(String::new());
            proof {
                assert(values@.map_values(|s: String| s@) =~= prev.push(Seq::<char>::empty()));
                match text_cells(payload@, pos as int) {
                    Some(rest) => {
                        assert(prev + (seq![Seq::<char>::empty()] + rest) =~= prev.push(
                            Seq::<char>::empty(),
                        ) + rest);
                    },
                    None => {},
                }
            }
        } else {
            proof {
                lemma_str_read_advances(payload@, p0);
            }
            match read_lenenc_string(payload, &mut pos) {
                None => {
                    return None;
                },
                Some(s) => {
                    values.push(s);
                    proof {
                        assert(values@.map_values(|s: String| s@) =~= prev.push(s@));
                        match text_cells(payload@, pos as int) {
                            Some(rest) => {
                                assert(prev + (seq![s@] + rest) =~= prev.push(s@) + rest);
                            },
                            None => {},
                        }
                    }
                },
            }
        }
    }
    proof {
        assert(values@.map_values(|s: String| s@) + Seq::<Seq<char>>::empty() =~= values@.map_values(
            |s: String| s@,
        ));
    }
    Some(values)
}

/// Parses the first payload of a query response: OK (affected rows), ERR (code and the rest as
/// text), or the start of a resultset (its column count read and dropped).
pub fn classify_query_payload(payload: &[u8]) -> (r: Result<QueryResponse, String>)
    requires
        payload@.len() > 0 && payload@[0] != 0xFF ==> !lenenc_read_panics(
            payload@,
            if payload@[0] == 0x00 {
                1
            } else {
                0
            },
        ),
    ensures
        payload@.len() == 0 ==> (r matches Err(m) && m@ == "empty response"@),
        payload@.len() > 0 && payload@[0] == 0x00 ==> (r matches Ok(
            QueryResponse::OkPacket { affected_rows },
        ) && affected_rows == lenenc_read(payload@, 1).0),
        payload@.len() > 0 && payload@[0] == 0xFF && payload@.len() < 3 ==> (r matches Err(m)
            && m@ == "truncated ERR packet"@),
        payload@.len() >= 3 && payload@[0] == 0xFF ==> (r matches Ok(
            QueryResponse::ErrPacket { code, message },
        ) && code == from_le2(payload@[1], payload@[2]) && message@ == spec_utf8_lossy(
            payload@.subrange(3, payload@.len() as int),
        )),
        payload@.len() > 0 && payload@[0] != 0x00 && payload@[0] != 0xFF ==> (r matches Ok(
            QueryResponse::Rows { columns, rows },
        ) && columns@.len() == 0 && rows@.len() == 0),
{
    if payload.len() == 0 {
        return Err(owned("empty response"));
    }
    if payload[0] == 0x00 {
        let mut pos: usize = 1;
        let affected_rows = read_lenenc_int(payload, &mut pos);
        Ok(QueryResponse::OkPacket { affected_rows })
    } else if payload[0] == 0xFF {
        if payload.len() < 3 {
            return Err(owned("truncated ERR packet"));
        }
        let code = read_le2(payload, 1);
        let message = utf8_decode_lossy(vstd::slice::slice_subrange(payload, 3, payload.len()));
        Ok(QueryResponse::ErrPacket { code, message })
    } else {
        let mut pos: usize = 0;
        let _col_count = read_lenenc_int(payload, &mut pos);
        Ok(QueryResponse::Rows { columns: Vec::new(), rows: Vec::new() })
    }
}

} // verus!
