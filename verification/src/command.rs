//! MySQL command-phase client commands.
use vstd::prelude::*;
use vstd::utf8::{decode_utf8, encode_utf8, valid_utf8};
use crate::binary::{bitmap_len, null_bit, MYSQL_TYPE_LONGLONG, MYSQL_TYPE_STRING, MYSQL_TYPE_VAR_STRING};
use crate::error::ProtocolError;
use crate::lenenc::{append_bytes, from_le4, lenenc_at, parse_lenenc, read_le4};
use crate::text::{str_chars, string_from_chars, utf8_decode};

verus! {

pub const COM_QUIT: u8 = 0x01;
pub const COM_QUERY: u8 = 0x03;
pub const COM_STMT_PREPARE: u8 = 0x16;
pub const COM_STMT_EXECUTE: u8 = 0x17;
pub const COM_STMT_CLOSE: u8 = 0x19;

/// WL#12542: query attributes on `COM_QUERY` when negotiated.
pub const CLIENT_QUERY_ATTRIBUTES: u32 = 0x0800_0000;

/// WL#7766: OK packet instead of EOF at the end of resultsets.
pub const CLIENT_DEPRECATE_EOF: u32 = 0x0100_0000;

/// WL#6257: session state changes in OK packets.
pub const CLIENT_SESSION_TRACK: u32 = 0x0080_0000;

/// Server capability flags advertised during the handshake (SSL left out).
pub const SERVER_CAPABILITIES: u32 = (0x000F_F7DF & !0x0000_0800) | CLIENT_QUERY_ATTRIBUTES
    | CLIENT_DEPRECATE_EOF;


/// Largest plausible query-attribute count; larger values are read as raw SQL.
const MAX_QUERY_ATTR_PARAM_COUNT: u64 = 32;

/// Parsed client command.
#[derive(Debug, Clone, PartialEq, Eq)]
pub enum ClientCommand {
    Quit,
    Query(String),
    StmtPrepare(String),
    StmtExecute { stmt_id: u32, payload: Vec<u8> },
    StmtClose { stmt_id: u32 },
    Unknown(u8),
}

/// True when client and server both advertise query attributes.
pub fn query_attributes_negotiated(client_caps: u32, server_caps: u32) -> (r: bool)
    ensures
        r == (client_caps & server_caps & CLIENT_QUERY_ATTRIBUTES != 0),
{
    client_caps & server_caps & CLIENT_QUERY_ATTRIBUTES != 0
}

/// True when resultsets should end with OK instead of legacy EOF.
pub fn deprecate_eof_negotiated(client_caps: u32, server_caps: u32) -> (r: bool)
    ensures
        r == (client_caps & server_caps & CLIENT_DEPRECATE_EOF != 0),
{
    client_caps & server_caps & CLIENT_DEPRECATE_EOF != 0
}

/// True when OK packets include session-state-change info.
pub fn session_track_negotiated(client_caps: u32, server_caps: u32) -> (r: bool)
    ensures
        r == (client_caps & server_caps & CLIENT_SESSION_TRACK != 0),
{
    client_caps & server_caps & CLIENT_SESSION_TRACK != 0
}

/// `COM_QUERY` with the query-attributes preamble `param_count = 0, set_count = 1`.
pub fn encode_com_query_with_attributes(sql: &str) -> (r: Vec<u8>)
    ensures
        r@ == seq![COM_QUERY, 0x00u8, 0x01u8] + encode_utf8(sql@),
{
    let mut p: Vec<u8> = Vec::new();
    p.push(COM_QUERY);
    p.push(0x00);
    p.push(0x01);
    append_bytes(&mut p, sql.as_bytes());
    proof {
        assert(p@ =~= seq![COM_QUERY, 0x00u8, 0x01u8] + encode_utf8(sql@));
    }
    p
}

/// Reading the `k` (type, name) entries of the attribute block from `pos`: the low type bytes
/// and the end position, or `None` when the block is cut short.
pub open spec fn scan_attr_names(body: Seq<u8>, pos: int, k: nat) -> Option<(Seq<u8>, int)>
    decreases k,
{
    if k == 0 {
        Some((Seq::empty(), pos))
    } else if body.len() < pos + 2 {
        None
    } else {
        match parse_lenenc(body.subrange(pos + 2, body.len() as int)) {
            None => None,
            Some((n, w)) => {
                let p2 = pos + 2 + w;
                if body.len() < p2 + n {
                    None
                } else {
                    match scan_attr_names(body, p2 + n, (k - 1) as nat) {
                        Some((tys, e)) => Some((seq![body[pos]] + tys, e)),
                        None => None,
                    }
                }
            },
        }
    }
}

/// Where scanning attribute names overflows a position (and panics).
pub open spec fn scan_attr_names_panics(body: Seq<u8>, pos: int, k: nat) -> bool
    decreases k,
{
    if k == 0 || body.len() < pos + 2 {
        false
    } else {
        match parse_lenenc(body.subrange(pos + 2, body.len() as int)) {
            None => false,
            Some((n, w)) => {
                let p2 = pos + 2 + w;
                if p2 + n > usize::MAX {
                    true
                } else if body.len() < p2 + n {
                    false
                } else {
                    scan_attr_names_panics(body, p2 + n, (k - 1) as nat)
                }
            },
        }
    }
}

/// End of one binary attribute value of low type byte `ty` at `pos`, `None` when it is cut
/// short or of an unsupported type.
pub open spec fn skip_value_spec(body: Seq<u8>, pos: int, ty: u8) -> Option<int> {
    if ty == MYSQL_TYPE_LONGLONG {
        if body.len() < pos + 8 {
            None
        } else {
            Some(pos + 8)
        }
    } else if ty == MYSQL_TYPE_VAR_STRING || ty == MYSQL_TYPE_STRING {
        if pos >= body.len() {
            None
        } else {
            match parse_lenenc(body.subrange(pos, body.len() as int)) {
                None => None,
                Some((n, h)) => if body.len() < pos + h + n {
                    None
                } else {
                    Some(pos + h + n)
                },
            }
        }
    } else {
        None
    }
}

/// Where skipping one attribute value overflows a position.
pub open spec fn skip_value_panics(body: Seq<u8>, pos: int, ty: u8) -> bool {
    (ty == MYSQL_TYPE_VAR_STRING || ty == MYSQL_TYPE_STRING) && pos < body.len() && match parse_lenenc(
        body.subrange(pos, body.len() as int),
    ) {
        None => false,
        Some((n, h)) => pos + h + n > usize::MAX,
    }
}

/// Skipping the non-NULL attribute values of entries `i..` from `pos`.
pub open spec fn skip_values(body: Seq<u8>, bitmap: Seq<u8>, tys: Seq<u8>, i: int, pos: int) -> Option<int>
    decreases tys.len() - i,
{
    if i < 0 || i >= tys.len() {
        Some(pos)
    } else if null_bit(bitmap, i) {
        skip_values(body, bitmap, tys, i + 1, pos)
    } else {
        match skip_value_spec(body, pos, tys[i]) {
            None => None,
            Some(q) => skip_values(body, bitmap, tys, i + 1, q),
        }
    }
}

/// Where skipping attribute values panics.
pub open spec fn skip_values_panics(body: Seq<u8>, bitmap: Seq<u8>, tys: Seq<u8>, i: int, pos: int) -> bool
    decreases tys.len() - i,
{
    if i < 0 || i >= tys.len() {
        false
    } else if null_bit(bitmap, i) {
        skip_values_panics(body, bitmap, tys, i + 1, pos)
    } else if skip_value_panics(body, pos, tys[i]) {
        true
    } else {
        match skip_value_spec(body, pos, tys[i]) {
            None => false,
            Some(q) => skip_values_panics(body, bitmap, tys, i + 1, q),
        }
    }
}

/// Offset where SQL starts after a WL#12542 attribute block, `None` when the block is invalid.
pub open spec fn skip_attrs_spec(body: Seq<u8>) -> Option<int> {
    match parse_lenenc(body) {
        None => None,
        Some((pc, w1)) => match parse_lenenc(body.subrange(w1, body.len() as int)) {
            None => None,
            Some((psc, w2)) => {
                let pos = w1 + w2;
                if pc == 0 {
                    if psc > 1 {
                        Some(w1)
                    } else {
                        Some(pos)
                    }
                } else {
                    let bl = bitmap_len(pc as int);
                    if body.len() < pos + bl + 1 || body[pos + bl] != 1 {
                        None
                    } else {
                        match scan_attr_names(body, pos + bl + 1, pc as nat) {
                            None => None,
                            Some((tys, e)) => skip_values(
                                body,
                                body.subrange(pos, pos + bl),
                                tys,
                                0,
                                e,
                            ),
                        }
                    }
                }
            },
        },
    }
}

/// Where skipping the attribute block (of at most 32 entries) panics.
pub open spec fn skip_attrs_panics(body: Seq<u8>) -> bool {
    match parse_lenenc(body) {
        None => false,
        Some((pc, w1)) => match parse_lenenc(body.subrange(w1, body.len() as int)) {
            None => false,
            Some((psc, w2)) => {
                let pos = w1 + w2;
                let bl = bitmap_len(pc as int);
                pc != 0 && pc <= 32 && !(body.len() < pos + bl + 1 || body[pos + bl] != 1) && (
                scan_attr_names_panics(body, pos + bl + 1, pc as nat) || match scan_attr_names(
                    body,
                    pos + bl + 1,
                    pc as nat,
                ) {
                    None => false,
                    Some((tys, e)) => skip_values_panics(
                        body,
                        body.subrange(pos, pos + bl),
                        tys,
                        0,
                        e,
                    ),
                })
            },
        },
    }
}

/// Where the SQL text of a `COM_QUERY` body starts.
pub open spec fn sql_start_spec(body: Seq<u8>, client_caps: u32, server_caps: u32) -> int {
    if client_caps & server_caps & CLIENT_QUERY_ATTRIBUTES == 0 || body.len() == 0 {
        0
    } else {
        match parse_lenenc(body) {
            None => 0,
            Some((pc, _)) => if pc > 32 {
                0
            } else {
                match skip_attrs_spec(body) {
                    Some(p) => p,
                    None => 0,
                }
            },
        }
    }
}

/// `s` without trailing NUL characters.
pub open spec fn trim_nul_end(s: Seq<char>) -> Seq<char>
    decreases s.len(),
{
    if s.len() > 0 && s.last() == '\0' {
        trim_nul_end(s.drop_last())
    } else {
        s
    }
}

fn scan_names(body: &[u8], pos: usize, k: u64) -> (r: Option<(Vec<u8>, usize)>)
    requires
        pos <= body@.len(),
        !scan_attr_names_panics(body@, pos as int, k as nat),
    ensures
        match scan_attr_names(body@, pos as int, k as nat) {
            None => r is None,
            Some((tys, e)) => r matches Some((v, e2)) && v@ == tys && e2 == e,
        },
    decreases k,
{
    if k == 0 {
        return Some((Vec::new(), pos));
    }
    if body.len() - pos < 2 {
        return None;
    }
    let ty = body[pos];
    match lenenc_at(body, pos + 2) {
        None => None,
        Some((n, w)) => {
            let p2 = pos + 2 + w;
            if n > (usize::MAX - p2) as u64 {
                return None;
            }
            let nu = n as usize;
            if body.len() < p2 + nu {
                return None;
            }
            match scan_names(body, p2 + nu, k - 1) {
                None => None,
                Some((tys, e)) => {
                    let mut v: Vec<u8> = Vec::new();
                    v.push(ty);
                    let mut j: usize = 0;
                    while j < tys.len()
                        invariant
                            j <= tys@.len(),
                            v@ == seq![ty] + tys@.subrange(0, j as int),
                        decreases tys@.len() - j,
                    {
                        v.push(tys[j]);
                        j = j + 1;
                        proof {
                            assert(v@ =~= seq![ty] + tys@.subrange(0, j as int));
                        }
                    }
                    proof {
                        assert(tys@.subrange(0, j as int) =~= tys@);
                    }
                    Some((v, e))
                },
            }
        },
    }
}

fn test_null(bitmap: &[u8], i: usize) -> (r: bool)
    requires
        i / 8 < bitmap@.len(),
    ensures
        r == null_bit(bitmap@, i as int),
{
    let byte = bitmap[i / 8];
    let mut v = byte;
    let mut k = i % 8;
    while k > 0
        invariant
            k <= i % 8,
            crate::binary::bit_of(byte as int, (i % 8) as nat) == crate::binary::bit_of(
                v as int,
                k as nat,
            ),
        decreases k,
    {
        v = v / 2;
        k = k - 1;
    }
    v % 2 == 1
}

fn skip_value(body: &[u8], pos: usize, ty: u8) -> (r: Option<usize>)
    requires
        pos <= body@.len(),
        !skip_value_panics(body@, pos as int, ty),
    ensures
        skip_value_spec(body@, pos as int, ty) matches Some(q) ==> pos <= q <= body@.len(),
        r matches Some(x) ==> skip_value_spec(body@, pos as int, ty) == Some(x as int),
        match skip_value_spec(body@, pos as int, ty) {
            None => r is None,
            Some(q) => r == Some(q as usize),
        },
{
    if ty == MYSQL_TYPE_LONGLONG {
        if body.len() - pos < 8 {
            return None;
        }
        Some(pos + 8)
    } else if ty == MYSQL_TYPE_VAR_STRING || ty == MYSQL_TYPE_STRING {
        if pos >= body.len() {
            return None;
        }
        match lenenc_at(body, pos) {
            None => None,
            Some((n, h)) => {
                let nu = n as usize;
                if body.len() < pos + h + nu {
                    return None;
                }
                Some(pos + h + nu)
            },
        }
    } else {
        None
    }
}

proof fn lemma_scan_bounds(body: Seq<u8>, pos: int, k: nat)
    requires
        0 <= pos <= body.len(),
    ensures
        scan_attr_names(body, pos, k) matches Some((tys, e)) ==> tys.len() == k && pos <= e
            <= body.len(),
    decreases k,
{
    if k > 0 && body.len() >= pos + 2 {
        match parse_lenenc(body.subrange(pos + 2, body.len() as int)) {
            None => {},
            Some((n, w)) => {
                let p2 = pos + 2 + w;
                if body.len() >= p2 + n {
                    lemma_scan_bounds(body, p2 + n, (k - 1) as nat);
                }
            },
        }
    }
}

proof fn lemma_skip_values_bound(body: Seq<u8>, bitmap: Seq<u8>, tys: Seq<u8>, i: int, pos: int)
    requires
        0 <= pos <= body.len(),
    ensures
        skip_values(body, bitmap, tys, i, pos) matches Some(q) ==> pos <= q <= body.len(),
    decreases tys.len() - i,
{
    if 0 <= i < tys.len() {
        if null_bit(bitmap, i) {
            lemma_skip_values_bound(body, bitmap, tys, i + 1, pos);
        } else {
            match skip_value_spec(body, pos, tys[i]) {
                None => {},
                Some(q) => {
                    lemma_skip_values_bound(body, bitmap, tys, i + 1, q);
                },
            }
        }
    }
}

proof fn lemma_sql_start_bound(body: Seq<u8>, client_caps: u32, server_caps: u32)
    ensures
        0 <= sql_start_spec(body, client_caps, server_caps) <= body.len(),
{
    match parse_lenenc(body) {
        None => {},
        Some((pc, w1)) => match parse_lenenc(body.subrange(w1, body.len() as int)) {
            None => {},
            Some((psc, w2)) => {
                let pos = w1 + w2;
                let bl = bitmap_len(pc as int);
                if pc != 0 && !(body.len() < pos + bl + 1 || body[pos + bl] != 1) {
                    lemma_scan_bounds(body, pos + bl + 1, pc as nat);
                    match scan_attr_names(body, pos + bl + 1, pc as nat) {
                        None => {},
                        Some((tys, e)) => {
                            lemma_skip_values_bound(body, body.subrange(pos, pos + bl), tys, 0, e);
                        },
                    }
                }
            },
        },
    }
}

fn skip_all_values(body: &[u8], bitmap: &[u8], tys: &Vec<u8>, e: usize) -> (r: Option<usize>)
    requires
        e <= body@.len(),
        bitmap@.len() == bitmap_len(tys@.len() as int),
        !skip_values_panics(body@, bitmap@, tys@, 0, e as int),
    ensures
        match skip_values(body@, bitmap@, tys@, 0, e as int) {
            None => r is None,
            Some(q) => r == Some(q as usize),
        },
{
    let mut p = e;
    let mut i: usize = 0;
    while i < tys.len()
        invariant
            i <= tys@.len(),
            bitmap@.len() == bitmap_len(tys@.len() as int),
            p <= body@.len(),
            !skip_values_panics(body@, bitmap@, tys@, i as int, p as int),
            skip_values(body@, bitmap@, tys@, 0, e as int) == skip_values(
                body@,
                bitmap@,
                tys@,
                i as int,
                p as int,
            ),
        decreases tys@.len() - i,
    {
        let ghost p0 = p as int;
        let nb = test_null(bitmap, i);
        proof {
            assert(nb == null_bit(bitmap@, i as int));
        }
        if !nb {
            match skip_value(body, p, tys[i]) {
                None => {
                    return None;
                },
                Some(q) => {
                    p = q;
                },
            }
            proof {
                assert(skip_value_spec(body@, p0, tys@[i as int]) == Some(p as int));
                assert(skip_values(body@, bitmap@, tys@, i as int, p0) == skip_values(
                    body@,
                    bitmap@,
                    tys@,
                    i + 1,
                    p as int,
                ));
            }
        } else {
            proof {
                assert(skip_values(body@, bitmap@, tys@, i as int, p0) == skip_values(
                    body@,
                    bitmap@,
                    tys@,
                    i + 1,
                    p as int,
                ));
            }
        }
        i = i + 1;
    }
    Some(p)
}

fn skip_com_query_attributes(body: &[u8]) -> (r: Option<usize>)
    requires
        !skip_attrs_panics(body@),
        parse_lenenc(body@) matches Some((pc, _)) && pc <= 32,
    ensures
        match skip_attrs_spec(body@) {
            None => r is None,
            Some(p) => r == Some(p as usize),
        },
{
    proof {
        assert(body@.subrange(0, body@.len() as int) =~= body@);
    }
    let (pc, w1) = match lenenc_at(body, 0) {
        None => {
            return None;
        },
        Some(x) => x,
    };
    let (psc, w2) = match lenenc_at(body, w1) {
        None => {
            return None;
        },
        Some(x) => x,
    };
    let pos = w1 + w2;
    if pc == 0 {
        if psc > 1 {
            return Some(w1);
        }
        return Some(pos);
    }
    let pcu = pc as usize;
    let bl = pcu / 8 + if pcu % 8 == 0 {
        0
    } else {
        1
    };
    if body.len() - pos < bl + 1 {
        return None;
    }
    let bitmap = vstd::slice::slice_subrange(body, pos, pos + bl);
    if body[pos + bl] != 1 {
        return None;
    }
    proof {
        lemma_scan_bounds(body@, (pos + bl + 1) as int, pc as nat);
    }
    let (tys, e) = match scan_names(body, pos + bl + 1, pc) {
        None => {
            return None;
        },
        Some(x) => x,
    };
    skip_all_values(body, bitmap, &tys, e)
}

fn com_query_sql_start(body: &[u8], client_caps: u32, server_caps: u32) -> (r: usize)
    requires
        !skip_attrs_panics(body@),
    ensures
        r == sql_start_spec(body@, client_caps, server_caps),
{
    if !query_attributes_negotiated(client_caps, server_caps) {
        return 0;
    }
    if body.len() == 0 {
        return 0;
    }
    proof {
        assert(body@.subrange(0, body@.len() as int) =~= body@);
        lemma_sql_start_bound(body@, client_caps, server_caps);
    }
    match lenenc_at(body, 0) {
        None => 0,
        Some((pc, _)) => {
            if pc > MAX_QUERY_ATTR_PARAM_COUNT {
                return 0;
            }
            match skip_com_query_attributes(body) {
                Some(start) => start,
                None => 0,
            }
        },
    }
}

/// Text of `bytes` with trailing NULs dropped, or the invalid-packet error when not UTF-8.
pub open spec fn sql_text_spec(bytes: Seq<u8>) -> Option<Seq<char>> {
    if valid_utf8(bytes) {
        Some(trim_nul_end(decode_utf8(bytes)))
    } else {
        None
    }
}

fn sql_text(bytes: &[u8]) -> (r: Result<String, ProtocolError>)
    ensures
        match sql_text_spec(bytes@) {
            None => r matches Err(e) && e is InvalidPacket,
            Some(t) => r matches Ok(s) && s@ == t,
        },
{
    match utf8_decode(bytes) {
        None => Err(ProtocolError::invalid_packet()),
        Some(s) => {
            let v = str_chars(s.as_str());
            let mut n = v.len();
            proof {
                assert(v@.subrange(0, n as int) =~= v@);
            }
            while n > 0 && v[n - 1] == '\0'
                invariant
                    n <= v@.len(),
                    trim_nul_end(v@) == trim_nul_end(v@.subrange(0, n as int)),
                decreases n,
            {
                proof {
                    assert(v@.subrange(0, n as int).drop_last() =~= v@.subrange(0, n - 1));
                }
                n = n - 1;
            }
            proof {
                assert(v@.subrange(0, v@.len() as int) =~= v@);
            }
            let t = crate::text::sub_chars(&v, 0, n);
            Ok(string_from_chars(t.as_slice()))
        },
    }
}

/// What `parse_command_with_server_caps` reads from a payload, given the server capabilities.
pub open spec fn command_spec(p: Seq<u8>, client_caps: u32, server_caps: u32, r: Result<
    ClientCommand,
    ProtocolError,
>) -> bool {
    if p.len() == 0 {
        r matches Err(e) && e is InvalidPacket
    } else if p[0] == COM_QUIT {
        r matches Ok(ClientCommand::Quit)
    } else if p[0] == COM_QUERY {
        let body = p.subrange(1, p.len() as int);
        let start = sql_start_spec(body, client_caps, server_caps);
        match sql_text_spec(body.subrange(start, body.len() as int)) {
            None => r matches Err(e) && e is InvalidPacket,
            Some(t) => r matches Ok(ClientCommand::Query(s)) && s@ == t,
        }
    } else if p[0] == COM_STMT_PREPARE {
        match sql_text_spec(p.subrange(1, p.len() as int)) {
            None => r matches Err(e) && e is InvalidPacket,
            Some(t) => r matches Ok(ClientCommand::StmtPrepare(s)) && s@ == t,
        }
    } else if p[0] == COM_STMT_EXECUTE {
        if p.len() < 5 {
            r matches Err(e) && e is InvalidPacket
        } else {
            r matches Ok(ClientCommand::StmtExecute { stmt_id, payload }) && stmt_id == from_le4(
                p[1],
                p[2],
                p[3],
                p[4],
            ) && payload@ == p
        }
    } else if p[0] == COM_STMT_CLOSE {
        if p.len() < 5 {
            r matches Err(e) && e is InvalidPacket
        } else {
            r matches Ok(ClientCommand::StmtClose { stmt_id }) && stmt_id == from_le4(
                p[1],
                p[2],
                p[3],
                p[4],
            )
        }
    } else {
        r matches Ok(ClientCommand::Unknown(c)) && c == p[0]
    }
}

/// Where parsing a command panics: a query-attribute length overflows a position.
pub open spec fn command_panics(p: Seq<u8>) -> bool {
    p.len() > 0 && p[0] == COM_QUERY && skip_attrs_panics(p.subrange(1, p.len() as int))
}

/// Parses a `COM_*` payload against an explicit server capability mask.
pub fn parse_command_with_server_caps(payload: &[u8], client_caps: u32, server_caps: u32) -> (r:
    Result<ClientCommand, ProtocolError>)
    requires
        !command_panics(payload@),
    ensures
        command_spec(payload@, client_caps, server_caps, r),
{
    if payload.len() == 0 {
        return Err(ProtocolError::invalid_packet());
    }
    let code = payload[0];
    if code == COM_QUIT {
        Ok(ClientCommand::Quit)
    } else if code == COM_QUERY {
        let body = vstd::slice::slice_subrange(payload, 1, payload.len());
        let sql_start = com_query_sql_start(body, client_caps, server_caps);
        proof {
            lemma_sql_start_bound(body@, client_caps, server_caps);
        }
        let text = vstd::slice::slice_subrange(body, sql_start, body.len());
        match sql_text(text) {
            Ok(sql) => Ok(ClientCommand::Query(sql)),
            Err(e) => Err(e),
        }
    } else if code == COM_STMT_PREPARE {
        let text = vstd::slice::slice_subrange(payload, 1, payload.len());
        match sql_text(text) {
            Ok(sql) => Ok(ClientCommand::StmtPrepare(sql)),
            Err(e) => Err(e),
        }
    } else if code == COM_STMT_EXECUTE {
        if payload.len() < 5 {
            return Err(ProtocolError::invalid_packet());
        }
        let stmt_id = read_le4(payload, 1);
        Ok(ClientCommand::StmtExecute { stmt_id, payload: vstd::slice::slice_to_vec(payload) })
    } else if code == COM_STMT_CLOSE {
        if payload.len() < 5 {
            return Err(ProtocolError::invalid_packet());
        }
        let stmt_id = read_le4(payload, 1);
        Ok(ClientCommand::StmtClose { stmt_id })
    } else {
        Ok(ClientCommand::Unknown(code))
    }
}

/// Parses a `COM_*` payload against this server's capabilities.
pub fn parse_command(payload: &[u8], client_caps: u32) -> (r: Result<ClientCommand, ProtocolError>)
    requires
        !command_panics(payload@),
    ensures
        command_spec(payload@, client_caps, SERVER_CAPABILITIES, r),
{
    parse_command_with_server_caps(payload, client_caps, SERVER_CAPABILITIES)
}

} // verus!
