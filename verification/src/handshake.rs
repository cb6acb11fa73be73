//! MySQL connection-phase handshake (protocol version 10).
use vstd::prelude::*;
use vstd::utf8::{decode_utf8, encode_utf8, valid_utf8};
use crate::command::SERVER_CAPABILITIES;
use crate::error::ProtocolError;
use crate::lenenc::{
    append_bytes, from_le4, le2, le4, lenenc_at, lenenc_bytes, lenenc_int, parse_lenenc,
    parse_lenenc_bytes, push_le2, lemma_lenenc_bytes_roundtrip, lemma_lenenc_roundtrip,
    push_le4, read_le4, write_lenenc_bytes, write_lenenc_int, write_lenenc_str,
};
use crate::response::{bytes_of, err_payload, ok_payload, SERVER_STATUS_AUTOCOMMIT};
use crate::auth::{CachingSha2RsaKeys, AUTH_PLUGIN_CACHING_SHA2};
use crate::text::{lemma_encode_no_zero, no_nul, owned, str_eq, utf8_decode};

verus! {

pub const CLIENT_PROTOCOL_41: u32 = 0x0000_0200;
pub const CLIENT_PLUGIN_AUTH: u32 = 0x0008_0000;
pub const CLIENT_SECURE_CONNECTION: u32 = 0x0000_8000;
pub const CLIENT_PLUGIN_AUTH_LENENC: u32 = 0x0020_0000;
pub const CLIENT_SSL: u32 = 0x0000_0800;
pub const CLIENT_CONNECT_ATTRS: u32 = 0x0010_0000;
pub const CLIENT_CONNECT_WITH_DB: u32 = 0x0000_0008;


/// Credentials checked during the handshake.
#[derive(Debug, Clone, PartialEq, Eq)]
pub struct AuthCredentials {
    pub username: String,
    pub password: String,
}

/// Established session metadata after a successful handshake.
#[derive(Debug, Clone, PartialEq, Eq)]
pub struct HandshakeSession {
    pub connection_id: u32,
    pub username: String,
    pub database: Option<String>,
    pub client_capabilities: u32,
}

/// Initial Handshake v10 packet (server to client).
#[derive(Debug, Clone, PartialEq, Eq)]
pub struct InitialHandshake {
    pub connection_id: u32,
    pub scramble: [u8; 20],
    pub server_version: String,
    pub auth_plugin_name: String,
}

/// OK packet payload (without framing).
pub fn encode_ok_payload() -> (r: Vec<u8>)
    ensures
        r@ == ok_payload(0, 0),
{
    encode_ok_for_client(0)
}

/// OK packet for a client: no session-state trailer, whatever the capabilities.
pub fn encode_ok_for_client(client_caps: u32) -> (r: Vec<u8>)
    ensures
        r@ == ok_payload(0, 0),
{
    let mut payload: Vec<u8> = Vec::new();
    payload.push(0x00);
    write_lenenc_int(&mut payload, 0);
    write_lenenc_int(&mut payload, 0);
    push_le2(&mut payload, SERVER_STATUS_AUTOCOMMIT);
    push_le2(&mut payload, 0);
    proof {
        assert(payload@ =~= ok_payload(0, 0));
    }
    payload
}

/// ERR packet payload.
pub fn encode_err_payload(code: u16, message: &str) -> (r: Vec<u8>)
    ensures
        r@ == err_payload(code, bytes_of(message@)),
{
    let mut payload: Vec<u8> = Vec::new();
    payload.push(0xFF);
    push_le2(&mut payload, code);
    payload.push(0x23);
    let state: [u8; 5] = [0x48, 0x59, 0x30, 0x30, 0x30];
    append_bytes(&mut payload, &state);
    append_bytes(&mut payload, message.as_bytes());
    proof {
        assert(payload@ =~= err_payload(code, bytes_of(message@)));
    }
    payload
}

/// The scramble sent to connection `connection_id`: byte `i` is
/// `id_byte[i % 4] ^ (31 * i mod 256) ^ 0x5A`.
pub open spec fn scramble_spec(connection_id: u32) -> Seq<u8> {
    Seq::new(
        20,
        |i: int| (le4(connection_id)[i % 4] ^ (((31 * i) % 256) as u8)) ^ 0x5Au8,
    )
}

/// The server scramble derived from the connection id.
pub fn make_scramble(connection_id: u32) -> (r: [u8; 20])
    ensures
        r@ == scramble_spec(connection_id),
{
    let mut seed: Vec<u8> = Vec::new();
    push_le4(&mut seed, connection_id);
    let mut s = [0u8; 20];
    let mut i: usize = 0;
    while i < 20
        invariant
            i <= 20,
            seed@ == le4(connection_id),
            forall|j: int| 0 <= j < i ==> s@[j] == scramble_spec(connection_id)[j],
        decreases 20 - i,
    {
        let m: u8 = ((31 * i) % 256) as u8;
        s[i] = (seed[i % 4] ^ m) ^ 0x5A;
        i = i + 1;
    }
    proof {
        assert(s@ =~= scramble_spec(connection_id));
    }
    s
}

/// Index of the first NUL byte at or after `pos`.
pub open spec fn nul_index(buf: Seq<u8>, pos: int) -> Option<int>
    decreases buf.len() - pos,
{
    if pos < 0 || pos >= buf.len() {
        None
    } else if buf[pos] == 0 {
        Some(pos)
    } else {
        nul_index(buf, pos + 1)
    }
}

/// Reading a NUL-terminated string at `pos`: the text and the position after the NUL, or
/// `Err` with where the position is left (end of buffer when there is no NUL, the NUL when
/// the bytes are not UTF-8).
pub open spec fn null_str(buf: Seq<u8>, pos: int) -> Result<(Seq<char>, int), int> {
    match nul_index(buf, pos) {
        None => Err(if pos < buf.len() {
            buf.len() as int
        } else {
            pos
        }),
        Some(k) => if valid_utf8(buf.subrange(pos, k)) {
            Ok((decode_utf8(buf.subrange(pos, k)), k + 1))
        } else {
            Err(k)
        },
    }
}

/// Reading NUL-terminated bytes at `pos`: the bytes and the position after the NUL.
pub open spec fn null_bytes(buf: Seq<u8>, pos: int) -> Option<(Seq<u8>, int)> {
    match nul_index(buf, pos) {
        None => None,
        Some(k) => Some((buf.subrange(pos, k), k + 1)),
    }
}

proof fn lemma_nul_index_bounds(buf: Seq<u8>, pos: int)
    ensures
        nul_index(buf, pos) matches Some(k) ==> 0 <= pos <= k < buf.len() && buf[k] == 0 && forall|
            j: int,
        |
            pos <= j < k ==> buf[j] != 0,
        nul_index(buf, pos) is None && 0 <= pos ==> forall|j: int|
            pos <= j < buf.len() ==> buf[j] != 0,
    decreases buf.len() - pos,
{
    if 0 <= pos < buf.len() && buf[pos] != 0 {
        lemma_nul_index_bounds(buf, pos + 1);
    }
}

fn find_nul(buf: &[u8], pos: usize) -> (r: usize)
    ensures
        match nul_index(buf@, pos as int) {
            Some(k) => r == k,
            None => r == (if pos < buf@.len() {
                buf@.len() as int
            } else {
                pos as int
            }),
        },
{
    let mut p = pos;
    while p < buf.len() && buf[p] != 0
        invariant
            pos <= p,
            pos < buf@.len() ==> p <= buf@.len(),
            pos >= buf@.len() ==> p == pos,
            nul_index(buf@, pos as int) == nul_index(buf@, p as int),
        decreases buf@.len() - p,
    {
        p = p + 1;
    }
    p
}

/// Reads a NUL-terminated UTF-8 string at `*pos`.
pub fn read_null_string(buf: &[u8], pos: &mut usize) -> (r: Result<String, ProtocolError>)
    ensures
        match null_str(buf@, *old(pos) as int) {
            Ok((s, q)) => r matches Ok(t) && t@ == s && *final(pos) == q,
            Err(q) => r matches Err(e) && e is InvalidPacket && *final(pos) == q,
        },
{
    let start = *pos;
    let k = find_nul(buf, start);
    *pos = k;
    proof {
        lemma_nul_index_bounds(buf@, start as int);
    }
    if k >= buf.len() {
        return Err(ProtocolError::invalid_packet());
    }
    match utf8_decode(vstd::slice::slice_subrange(buf, start, k)) {
        None => Err(ProtocolError::invalid_packet()),
        Some(s) => {
            *pos = k + 1;
            Ok(s)
        },
    }
}

/// Reads NUL-terminated bytes at `*pos`.
pub fn read_null_terminated_bytes(buf: &[u8], pos: &mut usize) -> (r: Result<
    Vec<u8>,
    ProtocolError,
>)
    ensures
        match null_bytes(buf@, *old(pos) as int) {
            Some((b, q)) => r matches Ok(v) && v@ == b && *final(pos) == q,
            None => r matches Err(e) && e is InvalidPacket,
        },
{
    let start = *pos;
    let k = find_nul(buf, start);
    *pos = k;
    proof {
        lemma_nul_index_bounds(buf@, start as int);
    }
    if k >= buf.len() {
        return Err(ProtocolError::invalid_packet());
    }
    let bytes = vstd::slice::slice_to_vec(vstd::slice::slice_subrange(buf, start, k));
    *pos = k + 1;
    Ok(bytes)
}

/// Low and high halves of the advertised capabilities.
pub open spec fn caps_low() -> u16 {
    (SERVER_CAPABILITIES & 0xFFFF) as u16
}

pub open spec fn caps_high() -> u16 {
    (SERVER_CAPABILITIES >> 16) as u16
}

/// The fixed-width fields between the server version and the auth plugin name: connection
/// id, first scramble part, filler, capabilities, charset, status, auth data length, reserved
/// zeros and the second scramble part (43 bytes).
#[verifier::opaque]
pub open spec fn handshake_fixed_fields(connection_id: u32, scramble: Seq<u8>) -> Seq<u8> {
    le4(connection_id) + scramble.subrange(0, 8) + seq![0u8] + le2(caps_low()) + seq![255u8]
        + le2(SERVER_STATUS_AUTOCOMMIT) + le2(caps_high()) + seq![21u8] + Seq::new(
        10,
        |i: int| 0u8,
    ) + scramble.subrange(8, 20)
}

/// Initial Handshake v10 payload.
pub open spec fn initial_handshake_spec(
    connection_id: u32,
    scramble: Seq<u8>,
    server_version: Seq<char>,
    auth_plugin_name: Seq<char>,
) -> Seq<u8> {
    seq![10u8] + encode_utf8(server_version) + seq![0u8] + handshake_fixed_fields(
        connection_id,
        scramble,
    ) + seq![0u8] + encode_utf8(auth_plugin_name) + seq![0u8]
}

/// Decoding an Initial Handshake payload: (connection id, scramble, server version, auth
/// plugin name), or `Err(true)` when it is not protocol 10, `Err(false)` when malformed.
pub open spec fn decode_initial_spec(p: Seq<u8>) -> Result<
    (u32, Seq<u8>, Seq<char>, Seq<char>),
    bool,
> {
    if p.len() == 0 || p[0] != 10 {
        Err(true)
    } else {
        match null_str(p, 1) {
            Err(_) => Err(false),
            Ok((ver, pos)) => if p.len() < pos + 31 {
                Err(false)
            } else {
                let auth_len = p[pos + 20];
                let part2: int = if auth_len as int - 8 > 13 {
                    auth_len as int - 8
                } else {
                    13
                };
                if p.len() < pos + 31 + part2 {
                    Err(false)
                } else {
                    match null_str(p, pos + 31 + part2) {
                        Err(_) => Err(false),
                        Ok((plugin, _)) => Ok(
                            (
                                from_le4(p[pos], p[pos + 1], p[pos + 2], p[pos + 3]),
                                p.subrange(pos + 4, pos + 12) + p.subrange(pos + 31, pos + 43),
                                ver,
                                plugin,
                            ),
                        ),
                    }
                }
            },
        }
    }
}

impl InitialHandshake {
    /// Encodes the handshake payload (without packet framing).
    pub fn encode_payload(&self) -> (r: Vec<u8>)
        ensures
            r@ == initial_handshake_spec(
                self.connection_id,
                self.scramble@,
                self.server_version@,
                self.auth_plugin_name@,
            ),
    {
        let mut payload: Vec<u8> = Vec::new();
        payload.push(10);
        append_bytes(&mut payload, self.server_version.as_str().as_bytes());
        payload.push(0);
        push_le4(&mut payload, self.connection_id);
        let mut i: usize = 0;
        let ghost h1 = payload@;
        while i < 8
            invariant
                i <= 8,
                payload@ == h1 + self.scramble@.subrange(0, i as int),
            decreases 8 - i,
        {
            payload.push(self.scramble[i]);
            i = i + 1;
            proof {
                assert(payload@ =~= h1 + self.scramble@.subrange(0, i as int));
            }
        }
        payload.push(0);
        let caps = SERVER_CAPABILITIES;
        push_le2(&mut payload, (caps & 0xFFFF) as u16);
        payload.push(255);
        push_le2(&mut payload, SERVER_STATUS_AUTOCOMMIT);
        push_le2(&mut payload, (caps >> 16) as u16);
        payload.push(21);
        let zeros: [u8; 10] = [0u8; 10];
        append_bytes(&mut payload, &zeros);
        let ghost h2 = payload@;
        let mut j: usize = 8;
        while j < 20
            invariant
                8 <= j <= 20,
                payload@ == h2 + self.scramble@.subrange(8, j as int),
            decreases 20 - j,
        {
            payload.push(self.scramble[j]);
            j = j + 1;
            proof {
                assert(payload@ =~= h2 + self.scramble@.subrange(8, j as int));
            }
        }
        payload.push(0);
        append_bytes(&mut payload, self.auth_plugin_name.as_str().as_bytes());
        payload.push(0);
        proof {
            assert(zeros@ =~= Seq::new(10, |i: int| 0u8));
            reveal(handshake_fixed_fields);
            assert(payload@ =~= initial_handshake_spec(
                self.connection_id,
                self.scramble@,
                self.server_version@,
                self.auth_plugin_name@,
            ));
        }
        payload
    }

    /// Decodes an Initial Handshake payload.
    pub fn decode_payload(payload: &[u8]) -> (r: Result<Self, ProtocolError>)
        ensures
            match decode_initial_spec(payload@) {
                Ok((id, scr, ver, plugin)) => r matches Ok(h) && h.connection_id == id
                    && h.scramble@ == scr && h.server_version@ == ver && h.auth_plugin_name@
                    == plugin,
                Err(true) => r matches Err(e) && e is HandshakeFailed,
                Err(false) => r matches Err(e) && e is InvalidPacket,
            },
    {
        if payload.len() == 0 || payload[0] != 10 {
            return Err(ProtocolError::handshake_failed());
        }
        let mut pos: usize = 1;
        let server_version = match read_null_string(payload, &mut pos) {
            Ok(s) => s,
            Err(e) => {
                return Err(e);
            },
        };
        if payload.len() < 31 || payload.len() - 31 < pos {
            return Err(ProtocolError::invalid_packet());
        }
        let connection_id = read_le4(payload, pos);
        let mut scramble = [0u8; 20];
        let mut i: usize = 0;
        while i < 8
            invariant
                i <= 8,
                pos + 31 <= payload@.len() <= usize::MAX,
                forall|j: int| 0 <= j < i ==> scramble@[j] == payload@[pos + 4 + j],
            decreases 8 - i,
        {
            scramble[i] = payload[pos + 4 + i];
            i = i + 1;
        }
        let auth_len = payload[pos + 20];
        let part2_len: usize = if auth_len >= 8 && (auth_len - 8) as usize > 13 {
            (auth_len - 8) as usize
        } else {
            13
        };
        let p2 = pos + 31;
        if payload.len() - p2 < part2_len {
            return Err(ProtocolError::invalid_packet());
        }
        let mut j: usize = 0;
        while j < 12
            invariant
                j <= 12,
                p2 + 13 <= payload@.len() <= usize::MAX,
                forall|k: int| 0 <= k < 8 ==> scramble@[k] == payload@[pos + 4 + k],
                forall|k: int| 8 <= k < 8 + j ==> scramble@[k] == payload@[p2 + k - 8],
            decreases 12 - j,
        {
            scramble[8 + j] = payload[p2 + j];
            j = j + 1;
        }
        let mut q = p2 + part2_len;
        let auth_plugin_name = match read_null_string(payload, &mut q) {
            Ok(s) => s,
            Err(_) => {
                return Err(ProtocolError::invalid_packet());
            },
        };
        proof {
            assert(scramble@ =~= payload@.subrange(pos + 4, pos + 12) + payload@.subrange(
                pos + 31,
                pos + 43,
            ));
        }
        Ok(InitialHandshake { connection_id, scramble, server_version, auth_plugin_name })
    }
}

proof fn lemma_null_str_of(s: Seq<char>, rest: Seq<u8>, pre: Seq<u8>)
    requires
        no_nul(s),
    ensures
        null_str(pre + encode_utf8(s) + seq![0u8] + rest, pre.len() as int) == Ok::<
            (Seq<char>, int),
            int,
        >((s, pre.len() as int + encode_utf8(s).len() as int + 1)),
{
    let b = encode_utf8(s);
    let buf = pre + b + seq![0u8] + rest;
    lemma_encode_no_zero(s);
    let k: int = pre.len() as int + b.len() as int;
    lemma_nul_at(buf, pre.len() as int, k);
    assert(buf.subrange(pre.len() as int, k) =~= b);
    vstd::utf8::encode_utf8_valid_utf8(s);
    vstd::utf8::encode_utf8_decode_utf8(s);
}

proof fn lemma_nul_at(buf: Seq<u8>, pos: int, k: int)
    requires
        0 <= pos <= k < buf.len(),
        buf[k] == 0,
        forall|j: int| pos <= j < k ==> buf[j] != 0,
    ensures
        nul_index(buf, pos) == Some(k),
    decreases k - pos,
{
    if pos < k {
        lemma_nul_at(buf, pos + 1, k);
    }
}

proof fn lemma_fixed_fields(connection_id: u32, scramble: Seq<u8>)
    requires
        scramble.len() == 20,
    ensures
        handshake_fixed_fields(connection_id, scramble).len() == 43,
        handshake_fixed_fields(connection_id, scramble)[20] == 21u8,
        ({
            let m = handshake_fixed_fields(connection_id, scramble);
            &&& from_le4(m[0], m[1], m[2], m[3]) == connection_id
            &&& m.subrange(4, 12) + m.subrange(31, 43) == scramble
        }),
{
    let m = handshake_fixed_fields(connection_id, scramble);
    reveal(handshake_fixed_fields);
    lemma_le4_back(connection_id);
    assert(m.subrange(4, 12) =~= scramble.subrange(0, 8));
    assert(m.subrange(31, 43) =~= scramble.subrange(8, 20));
    assert(scramble.subrange(0, 8) + scramble.subrange(8, 20) =~= scramble);
}

/// Decoding an encoded Initial Handshake gives back its fields, when neither string holds a
/// NUL character.
pub proof fn lemma_initial_handshake_roundtrip(
    connection_id: u32,
    scramble: Seq<u8>,
    server_version: Seq<char>,
    auth_plugin_name: Seq<char>,
)
    requires
        scramble.len() == 20,
        no_nul(server_version),
        no_nul(auth_plugin_name),
    ensures
        decode_initial_spec(
            initial_handshake_spec(connection_id, scramble, server_version, auth_plugin_name),
        ) == Ok::<(u32, Seq<u8>, Seq<char>, Seq<char>), bool>(
            (connection_id, scramble, server_version, auth_plugin_name),
        ),
{
    let p = initial_handshake_spec(connection_id, scramble, server_version, auth_plugin_name);
    let v = encode_utf8(server_version);
    let a = encode_utf8(auth_plugin_name);
    let m = handshake_fixed_fields(connection_id, scramble);
    lemma_fixed_fields(connection_id, scramble);
    let head = seq![10u8] + v + seq![0u8];
    let pos: int = head.len() as int;
    assert(p =~= seq![10u8] + v + seq![0u8] + (m + seq![0u8] + a + seq![0u8]));
    lemma_null_str_of(server_version, m + seq![0u8] + a + seq![0u8], seq![10u8]);
    assert(pos == 2 + v.len());
    assert forall|k: int| 0 <= k < 43 implies p[pos + k] == m[k] by {
        assert(p[pos + k] == (head + m)[pos + k]);
    }
    let pre2 = head + m + seq![0u8];
    assert(p =~= pre2 + a + seq![0u8] + Seq::<u8>::empty());
    lemma_null_str_of(auth_plugin_name, Seq::<u8>::empty(), pre2);
    assert(pre2.len() == pos + 44);
    assert(p.subrange(pos + 4, pos + 12) =~= m.subrange(4, 12));
    assert(p.subrange(pos + 31, pos + 43) =~= m.subrange(31, 43));
}

proof fn lemma_le4_back(n: u32)
    ensures
        from_le4(le4(n)[0], le4(n)[1], le4(n)[2], le4(n)[3]) == n,
{
    assert(((n & 0xff) as u8) as u32 | ((((n >> 8) & 0xff) as u8) as u32) << 8 | ((((n >> 16)
        & 0xff) as u8) as u32) << 16 | (((n >> 24) as u8) as u32) << 24 == n) by (bit_vector);
}


/// Client Handshake Response payload.
#[derive(Debug, PartialEq, Eq)]
pub struct HandshakeResponse {
    pub capabilities: u32,
    pub username: String,
    pub auth_response: Vec<u8>,
    pub database: Option<String>,
    pub auth_plugin: Option<String>,
    pub connect_attributes: Vec<(String, String)>,
}

/// The text of an optional string.
pub open spec fn opt_text(s: Option<String>) -> Option<Seq<char>> {
    match s {
        Some(t) => Some(t@),
        None => None,
    }
}

/// Capabilities, user name, auth response, database, auth plugin and connect attributes.
pub type ResponseView = (
    u32,
    Seq<char>,
    Seq<u8>,
    Option<Seq<char>>,
    Option<Seq<char>>,
    Seq<(Seq<char>, Seq<char>)>,
);

impl View for HandshakeResponse {
    type V = ResponseView;

    open spec fn view(&self) -> ResponseView {
        (
            self.capabilities,
            self.username@,
            self.auth_response@,
            opt_text(self.database),
            opt_text(self.auth_plugin),
            Seq::new(
                self.connect_attributes@.len(),
                |i: int| (self.connect_attributes@[i].0@, self.connect_attributes@[i].1@),
            ),
        )
    }
}

/// The auth-response field as the capabilities frame it.
pub open spec fn auth_field_bytes(caps: u32, auth: Seq<u8>) -> Seq<u8> {
    if caps & CLIENT_PLUGIN_AUTH_LENENC != 0 {
        lenenc_int(auth.len() as u64) + auth
    } else if caps & CLIENT_SECURE_CONNECTION != 0 {
        seq![(auth.len() % 256) as u8] + auth
    } else {
        auth + seq![0u8]
    }
}

/// A NUL-terminated string written when `flag` holds and the string is present.
pub open spec fn opt_cstr(flag: bool, s: Option<Seq<char>>) -> Seq<u8> {
    match s {
        Some(t) => if flag {
            encode_utf8(t) + seq![0u8]
        } else {
            Seq::empty()
        },
        None => Seq::empty(),
    }
}

/// Connect attributes as consecutive length-encoded key and value strings.
pub open spec fn attrs_blob(a: Seq<(Seq<char>, Seq<char>)>) -> Seq<u8>
    decreases a.len(),
{
    if a.len() == 0 {
        Seq::empty()
    } else {
        attrs_blob(a.drop_last()) + lenenc_bytes(encode_utf8(a.last().0)) + lenenc_bytes(
            encode_utf8(a.last().1),
        )
    }
}

/// Handshake Response payload.
pub open spec fn encode_response_spec(r: ResponseView) -> Seq<u8> {
    let (caps, user, auth, db, plugin, attrs) = r;
    le4(caps) + le4(16777215) + seq![255u8] + Seq::new(23, |i: int| 0u8) + encode_utf8(user)
        + seq![0u8] + auth_field_bytes(caps, auth) + opt_cstr(caps & CLIENT_CONNECT_WITH_DB != 0, db)
        + opt_cstr(caps & CLIENT_PLUGIN_AUTH != 0, plugin) + if caps & CLIENT_CONNECT_ATTRS != 0
        && attrs.len() > 0 {
        lenenc_bytes(attrs_blob(attrs))
    } else {
        Seq::empty()
    }
}

/// A length-encoded byte string at `pos`: the bytes and the position after them.
pub open spec fn lenenc_bytes_at(p: Seq<u8>, pos: int) -> Option<(Seq<u8>, int)> {
    if pos < 0 || pos > p.len() {
        None
    } else {
        match parse_lenenc_bytes(p.subrange(pos, p.len() as int)) {
            None => None,
            Some((b, n)) => Some((b, pos + n)),
        }
    }
}

/// Whether the end position of a length-encoded string at `pos` is past `usize::MAX`.
pub open spec fn lenenc_len_overflows(p: Seq<u8>, pos: int) -> bool {
    0 <= pos <= p.len() && match parse_lenenc(p.subrange(pos, p.len() as int)) {
        Some((n, h)) => pos + h + n > usize::MAX,
        None => false,
    }
}

/// A length-encoded UTF-8 string at `pos`: the text and the position after it.
pub open spec fn lenenc_text_at(p: Seq<u8>, pos: int) -> Option<(Seq<char>, int)> {
    match lenenc_bytes_at(p, pos) {
        None => None,
        Some((b, q)) => if valid_utf8(b) {
            Some((decode_utf8(b), q))
        } else {
            None
        },
    }
}

/// Key/value pairs read from `pos` while the position is before `end`.
pub open spec fn attrs_from(p: Seq<u8>, pos: int, end: int) -> Option<
    Seq<(Seq<char>, Seq<char>)>,
>
    decreases end - pos,
{
    if pos >= end {
        Some(Seq::empty())
    } else {
        match lenenc_text_at(p, pos) {
            None => None,
            Some((k, q1)) => match lenenc_text_at(p, q1) {
                None => None,
                Some((v, q2)) => if q2 >= end {
                    Some(seq![(k, v)])
                } else if q2 <= pos {
                    None
                } else {
                    match attrs_from(p, q2, end) {
                        None => None,
                        Some(rest) => Some(seq![(k, v)] + rest),
                    }
                },
            },
        }
    }
}

/// Whether reading the key/value pairs from `pos` to `end` overflows a position.
pub open spec fn attrs_overflow(p: Seq<u8>, pos: int, end: int) -> bool
    decreases end - pos,
{
    if pos >= end {
        false
    } else if lenenc_len_overflows(p, pos) {
        true
    } else {
        match lenenc_text_at(p, pos) {
            None => false,
            Some((k, q1)) => if lenenc_len_overflows(p, q1) {
                true
            } else {
                match lenenc_text_at(p, q1) {
                    None => false,
                    Some((v, q2)) => if q2 >= end || q2 <= pos {
                        false
                    } else {
                        attrs_overflow(p, q2, end)
                    },
                }
            },
        }
    }
}

/// The connect-attributes block at `pos`; any malformed block reads as no attributes.
pub open spec fn connect_attrs_spec(p: Seq<u8>, pos: int) -> Seq<(Seq<char>, Seq<char>)> {
    match parse_lenenc(p.subrange(pos, p.len() as int)) {
        None => Seq::empty(),
        Some((bl, h)) => if p.len() < pos + h + bl {
            Seq::empty()
        } else {
            match attrs_from(p, pos + h, pos + h + bl) {
                None => Seq::empty(),
                Some(a) => a,
            }
        },
    }
}

/// Whether reading the connect-attributes block at `pos` overflows a position.
pub open spec fn connect_attrs_overflow(p: Seq<u8>, pos: int) -> bool {
    match parse_lenenc(p.subrange(pos, p.len() as int)) {
        None => false,
        Some((bl, h)) => pos + h + bl > usize::MAX || (p.len() >= pos + h + bl && attrs_overflow(
            p,
            pos + h,
            pos + h + bl,
        )),
    }
}

/// The auth-response field at `pos`: the bytes and the position after them.
pub open spec fn auth_field_at(p: Seq<u8>, pos: int, caps: u32) -> Option<(Seq<u8>, int)> {
    if caps & CLIENT_PLUGIN_AUTH_LENENC != 0 {
        lenenc_bytes_at(p, pos)
    } else if caps & CLIENT_SECURE_CONNECTION != 0 {
        if pos >= p.len() {
            None
        } else if p.len() < pos + 1 + p[pos] {
            None
        } else {
            Some((p.subrange(pos + 1, pos + 1 + p[pos]), pos + 1 + p[pos]))
        }
    } else {
        null_bytes(p, pos)
    }
}

/// An optional NUL-terminated string at `pos`, read when `flag` holds and bytes remain: the
/// string (absent when unreadable) and the position after it.
pub open spec fn opt_str_at(p: Seq<u8>, pos: int, flag: bool) -> (Option<Seq<char>>, int) {
    if flag && pos < p.len() {
        match null_str(p, pos) {
            Ok((s, q)) => (Some(s), q),
            Err(q) => (None, q),
        }
    } else {
        (None, pos)
    }
}

/// The fields before the connect attributes, and the position where those start.
pub open spec fn response_head(p: Seq<u8>) -> Option<
    (u32, Seq<char>, Seq<u8>, Option<Seq<char>>, Option<Seq<char>>, int),
> {
    if p.len() < 32 {
        None
    } else {
        let caps = from_le4(p[0], p[1], p[2], p[3]);
        match null_str(p, 32) {
            Err(_) => None,
            Ok((user, pos)) => match auth_field_at(p, pos, caps) {
                None => None,
                Some((auth, pos2)) => {
                    let (db, pos3) = opt_str_at(p, pos2, caps & CLIENT_CONNECT_WITH_DB != 0);
                    let (plugin, pos4) = opt_str_at(p, pos3, caps & CLIENT_PLUGIN_AUTH != 0);
                    let db2 = match db {
                        Some(s) => if s.len() == 0 {
                            None
                        } else {
                            Some(s)
                        },
                        None => None,
                    };
                    Some((caps, user, auth, db2, plugin, pos4))
                },
            },
        }
    }
}

/// Decoding a Handshake Response payload (`None` when malformed).
pub open spec fn decode_response_spec(p: Seq<u8>) -> Option<ResponseView> {
    match response_head(p) {
        None => None,
        Some((caps, user, auth, db, plugin, pos)) => Some(
            (
                caps,
                user,
                auth,
                db,
                plugin,
                if caps & CLIENT_CONNECT_ATTRS != 0 && pos < p.len() {
                    connect_attrs_spec(p, pos)
                } else {
                    Seq::empty()
                },
            ),
        ),
    }
}

/// Whether decoding a Handshake Response payload overflows a position (a length-encoded
/// length past `usize::MAX`).
pub open spec fn response_overflows(p: Seq<u8>) -> bool {
    p.len() >= 32 && match null_str(p, 32) {
        Err(_) => false,
        Ok((user, pos)) => {
            let caps = from_le4(p[0], p[1], p[2], p[3]);
            if caps & CLIENT_PLUGIN_AUTH_LENENC != 0 && lenenc_len_overflows(p, pos) {
                true
            } else {
                match response_head(p) {
                    None => false,
                    Some((_, _, _, _, _, pos4)) => caps & CLIENT_CONNECT_ATTRS != 0 && pos4
                        < p.len() && connect_attrs_overflow(p, pos4),
                }
            }
        },
    }
}


/// One key/value pair as written in the attributes block.
pub open spec fn attr_pair_bytes(k: Seq<char>, v: Seq<char>) -> Seq<u8> {
    lenenc_bytes(encode_utf8(k)) + lenenc_bytes(encode_utf8(v))
}

/// Every key and value, and the whole attributes block, fit a length-encoded length.
pub open spec fn attrs_fit(a: Seq<(Seq<char>, Seq<char>)>) -> bool {
    &&& forall|i: int|
        0 <= i < a.len() ==> encode_utf8(#[trigger] a[i].0).len() <= u64::MAX && encode_utf8(
            a[i].1,
        ).len() <= u64::MAX
    &&& attrs_blob(a).len() <= u64::MAX
}

proof fn lemma_attrs_blob_front(a: Seq<(Seq<char>, Seq<char>)>)
    requires
        a.len() > 0,
    ensures
        attrs_blob(a) == attr_pair_bytes(a[0].0, a[0].1) + attrs_blob(a.drop_first()),
    decreases a.len(),
{
    if a.len() == 1 {
        assert(a.drop_last() =~= Seq::<(Seq<char>, Seq<char>)>::empty());
        assert(a.drop_first() =~= Seq::<(Seq<char>, Seq<char>)>::empty());
        assert(attrs_blob(a) =~= attr_pair_bytes(a[0].0, a[0].1) + attrs_blob(a.drop_first()));
    } else {
        lemma_attrs_blob_front(a.drop_last());
        assert(a.drop_last().drop_first() =~= a.drop_first().drop_last());
        assert(a.drop_first().last() == a.last());
        assert(attrs_blob(a) =~= attr_pair_bytes(a[0].0, a[0].1) + attrs_blob(a.drop_first()));
    }
}

proof fn lemma_attrs_blob_len(a: Seq<(Seq<char>, Seq<char>)>)
    ensures
        a.len() > 0 ==> attrs_blob(a).len() > 0,
    decreases a.len(),
{
    if a.len() > 0 {
        lemma_attrs_blob_len(a.drop_last());
    }
}

proof fn lemma_lenenc_text_of(p: Seq<u8>, pos: int, t: Seq<char>, rest: Seq<u8>)
    requires
        0 <= pos <= p.len(),
        encode_utf8(t).len() <= u64::MAX,
        p.subrange(pos, p.len() as int) == lenenc_bytes(encode_utf8(t)) + rest,
    ensures
        lenenc_text_at(p, pos) == Some((t, pos + lenenc_bytes(encode_utf8(t)).len())),
{
    lemma_lenenc_bytes_roundtrip(encode_utf8(t), rest);
    vstd::utf8::encode_utf8_valid_utf8(t);
    vstd::utf8::encode_utf8_decode_utf8(t);
}

/// Whether `w` stands in `p` at `pos`.
pub open spec fn window(p: Seq<u8>, pos: int, w: Seq<u8>) -> bool {
    0 <= pos && pos + w.len() <= p.len() && p.subrange(pos, pos + w.len()) == w
}

proof fn lemma_window_rest(p: Seq<u8>, pos: int, w: Seq<u8>)
    requires
        window(p, pos, w),
    ensures
        p.subrange(pos, p.len() as int) == w + p.subrange(pos + w.len(), p.len() as int),
{
    assert(p.subrange(pos, p.len() as int) =~= w + p.subrange(pos + w.len(), p.len() as int));
}

proof fn lemma_window_split(p: Seq<u8>, pos: int, x: Seq<u8>, y: Seq<u8>)
    requires
        window(p, pos, x + y),
    ensures
        window(p, pos, x),
        window(p, pos + x.len(), y),
{
    let whole = p.subrange(pos, pos + (x + y).len());
    assert(p.subrange(pos, pos + x.len()) =~= whole.subrange(0, x.len() as int));
    assert((x + y).subrange(0, x.len() as int) =~= x);
    assert(p.subrange(pos + x.len(), pos + x.len() + y.len()) =~= whole.subrange(
        x.len() as int,
        (x.len() + y.len()) as int,
    ));
    assert((x + y).subrange(x.len() as int, (x.len() + y.len()) as int) =~= y);
}

/// Reading the key/value pairs of a written attributes block gives them back.
#[verifier::spinoff_prover]
#[verifier::rlimit(40)]
proof fn lemma_attrs_from_blob(p: Seq<u8>, pos: int, a: Seq<(Seq<char>, Seq<char>)>)
    requires
        window(p, pos, attrs_blob(a)),
        attrs_fit(a),
    ensures
        attrs_from(p, pos, pos + attrs_blob(a).len()) == Some(a),
    decreases a.len(),
{
    if a.len() == 0 {
        assert(a =~= Seq::<(Seq<char>, Seq<char>)>::empty());
    } else {
        lemma_attrs_blob_front(a);
        let k = a[0].0;
        let v = a[0].1;
        let ek = lenenc_bytes(encode_utf8(k));
        let ev = lenenc_bytes(encode_utf8(v));
        let tail = a.drop_first();
        let tb = attrs_blob(tail);
        assert(encode_utf8(a[0].0).len() <= u64::MAX && encode_utf8(a[0].1).len() <= u64::MAX);
        lemma_window_split(p, pos, ek + ev, tb);
        lemma_window_split(p, pos, ek, ev);
        lemma_window_rest(p, pos, ek);
        lemma_lenenc_text_of(p, pos, k, p.subrange(pos + ek.len(), p.len() as int));
        lemma_window_rest(p, pos + ek.len(), ev);
        lemma_lenenc_text_of(p, pos + ek.len(), v, p.subrange(pos + ek.len() + ev.len(), p.len() as int));
        if tail.len() == 0 {
            assert(a =~= seq![(k, v)]);
        } else {
            lemma_attrs_blob_len(tail);
            assert forall|i: int| 0 <= i < tail.len() implies encode_utf8(#[trigger] tail[i].0).len()
                <= u64::MAX && encode_utf8(tail[i].1).len() <= u64::MAX by {
                assert(tail[i] == a[i + 1]);
            }
            lemma_attrs_from_blob(p, pos + (ek + ev).len(), tail);
            assert(a =~= seq![(k, v)] + tail);
        }
    }
}

proof fn lemma_cstr_at(p: Seq<u8>, pos: int, t: Seq<char>)
    requires
        window(p, pos, encode_utf8(t) + seq![0u8]),
        no_nul(t),
    ensures
        null_str(p, pos) == Ok::<(Seq<char>, int), int>((t, pos + encode_utf8(t).len() + 1)),
{
    let w = encode_utf8(t) + seq![0u8];
    let pre = p.take(pos);
    let rest = p.skip(pos + w.len());
    assert(p =~= pre + w + rest) by {
        assert forall|i: int| pos <= i < pos + w.len() implies p[i] == w[i - pos] by {
            assert(p.subrange(pos, pos + w.len())[i - pos] == p[i]);
        }
    }
    assert(pre + w + rest =~= pre + encode_utf8(t) + seq![0u8] + rest);
    lemma_null_str_of(t, rest, pre);
}

/// A Handshake Response that reads back as written: no NUL in the user name, database or
/// plugin; an auth response that its framing can carry (under 256 bytes behind a one-byte
/// length, free of NUL when NUL-terminated); a non-empty database exactly when
/// `CONNECT_WITH_DB` is set, a plugin exactly when `PLUGIN_AUTH` is set, attributes only with
/// `CONNECT_ATTRS`; every length within a length-encoded integer.
pub open spec fn response_well_formed(r: ResponseView) -> bool {
    let (caps, user, auth, db, plugin, attrs) = r;
    &&& no_nul(user)
    &&& auth.len() <= u64::MAX
    &&& (caps & CLIENT_PLUGIN_AUTH_LENENC == 0 && caps & CLIENT_SECURE_CONNECTION != 0
        ==> auth.len() < 256)
    &&& (caps & CLIENT_PLUGIN_AUTH_LENENC == 0 && caps & CLIENT_SECURE_CONNECTION == 0
        ==> forall|i: int| 0 <= i < auth.len() ==> auth[i] != 0)
    &&& (caps & CLIENT_CONNECT_WITH_DB != 0 <==> db is Some)
    &&& (db matches Some(d) ==> d.len() > 0 && no_nul(d))
    &&& (caps & CLIENT_PLUGIN_AUTH != 0 <==> plugin is Some)
    &&& (plugin matches Some(t) ==> no_nul(t))
    &&& (caps & CLIENT_CONNECT_ATTRS == 0 ==> attrs.len() == 0)
    &&& attrs_fit(attrs)
}

proof fn lemma_auth_field_back(p: Seq<u8>, pos: int, caps: u32, auth: Seq<u8>)
    requires
        window(p, pos, auth_field_bytes(caps, auth)),
        auth.len() <= u64::MAX,
        caps & CLIENT_PLUGIN_AUTH_LENENC == 0 && caps & CLIENT_SECURE_CONNECTION != 0
            ==> auth.len() < 256,
        caps & CLIENT_PLUGIN_AUTH_LENENC == 0 && caps & CLIENT_SECURE_CONNECTION == 0
            ==> forall|i: int| 0 <= i < auth.len() ==> auth[i] != 0,
    ensures
        auth_field_at(p, pos, caps) == Some((auth, pos + auth_field_bytes(caps, auth).len())),
{
    let f = auth_field_bytes(caps, auth);
    if caps & CLIENT_PLUGIN_AUTH_LENENC != 0 {
        lemma_window_rest(p, pos, f);
        lemma_lenenc_bytes_roundtrip(auth, p.subrange(pos + f.len(), p.len() as int));
    } else if caps & CLIENT_SECURE_CONNECTION != 0 {
        assert(p[pos] == f[0]);
        assert(p.subrange(pos + 1, pos + 1 + p[pos]) =~= auth) by {
            assert forall|j: int| 0 <= j < auth.len() implies p[pos + 1 + j] == auth[j] by {
                assert(p[pos + 1 + j] == f[1 + j]);
            }
        }
    } else {
        assert forall|j: int| pos <= j < pos + auth.len() implies p[j] != 0 by {
            assert(p[j] == f[j - pos]);
        }
        assert(p[pos + auth.len()] == f[auth.len() as int]);
        lemma_nul_at(p, pos, pos + auth.len());
        assert(p.subrange(pos, pos + auth.len()) =~= auth) by {
            assert forall|j: int| 0 <= j < auth.len() implies p[pos + j] == auth[j] by {
                assert(p[pos + j] == f[j]);
            }
        }
    }
}

proof fn lemma_opt_cstr_back(p: Seq<u8>, pos: int, flag: bool, s: Option<Seq<char>>)
    requires
        window(p, pos, opt_cstr(flag, s)),
        flag <==> s is Some,
        s matches Some(t) ==> no_nul(t),
    ensures
        flag ==> opt_str_at(p, pos, flag) == (s, pos + opt_cstr(flag, s).len()),
        !flag ==> opt_str_at(p, pos, flag) == (s, pos),
{
    if let Some(t) = s {
        lemma_cstr_at(p, pos, t);
    }
}

proof fn lemma_attrs_back(p: Seq<u8>, pos: int, caps: u32, attrs: Seq<(Seq<char>, Seq<char>)>)
    requires
        caps & CLIENT_CONNECT_ATTRS == 0 ==> attrs.len() == 0,
        attrs_fit(attrs),
        0 <= pos <= p.len(),
        p.subrange(pos, p.len() as int) == (if caps & CLIENT_CONNECT_ATTRS != 0 && attrs.len() > 0 {
            lenenc_bytes(attrs_blob(attrs))
        } else {
            Seq::empty()
        }),
    ensures
        (if caps & CLIENT_CONNECT_ATTRS != 0 && pos < p.len() {
            connect_attrs_spec(p, pos)
        } else {
            Seq::empty()
        }) == attrs,
{
    if caps & CLIENT_CONNECT_ATTRS != 0 && attrs.len() > 0 {
        let blob = attrs_blob(attrs);
        lemma_attrs_blob_len(attrs);
        lemma_lenenc_roundtrip(blob.len() as u64, blob);
        let h = lenenc_int(blob.len() as u64).len();
        assert(p.subrange(pos + h, pos + h + blob.len()) =~= blob) by {
            assert(p.subrange(pos + h, pos + h + blob.len()) =~= p.subrange(pos, p.len() as int).subrange(
                h as int,
                (h + blob.len()) as int,
            ));
        }
        lemma_attrs_from_blob(p, pos + h, attrs);
    } else {
        assert(attrs =~= Seq::<(Seq<char>, Seq<char>)>::empty());
    }
}

/// A length-encoded string that reads whole ends inside the payload, so it cannot overflow.
proof fn lemma_read_no_overflow(p: Seq<u8>, pos: int)
    requires
        lenenc_bytes_at(p, pos) is Some,
        p.len() <= usize::MAX,
    ensures
        !lenenc_len_overflows(p, pos),
{
}

/// Reading a written attributes block overflows no position.
#[verifier::spinoff_prover]
#[verifier::rlimit(40)]
proof fn lemma_attrs_no_overflow(p: Seq<u8>, pos: int, a: Seq<(Seq<char>, Seq<char>)>)
    requires
        window(p, pos, attrs_blob(a)),
        attrs_fit(a),
        p.len() <= usize::MAX,
    ensures
        !attrs_overflow(p, pos, pos + attrs_blob(a).len()),
    decreases a.len(),
{
    if a.len() > 0 {
        lemma_attrs_blob_front(a);
        let k = a[0].0;
        let v = a[0].1;
        let ek = lenenc_bytes(encode_utf8(k));
        let ev = lenenc_bytes(encode_utf8(v));
        let tail = a.drop_first();
        let tb = attrs_blob(tail);
        assert(encode_utf8(a[0].0).len() <= u64::MAX && encode_utf8(a[0].1).len() <= u64::MAX);
        lemma_window_split(p, pos, ek + ev, tb);
        lemma_window_split(p, pos, ek, ev);
        lemma_window_rest(p, pos, ek);
        lemma_lenenc_text_of(p, pos, k, p.subrange(pos + ek.len(), p.len() as int));
        lemma_read_no_overflow(p, pos);
        lemma_window_rest(p, pos + ek.len(), ev);
        lemma_lenenc_text_of(p, pos + ek.len(), v, p.subrange(pos + ek.len() + ev.len(), p.len() as int));
        lemma_read_no_overflow(p, pos + ek.len());
        if tail.len() > 0 {
            lemma_attrs_blob_len(tail);
            assert forall|i: int| 0 <= i < tail.len() implies encode_utf8(#[trigger] tail[i].0).len()
                <= u64::MAX && encode_utf8(tail[i].1).len() <= u64::MAX by {
                assert(tail[i] == a[i + 1]);
            }
            lemma_attrs_no_overflow(p, pos + (ek + ev).len(), tail);
        } else {
            assert(tb.len() == 0);
        }
    }
}

/// A written connect-attributes block at the end of a payload reads without an overflow.
proof fn lemma_attrs_block_no_overflow(p: Seq<u8>, pos: int, attrs: Seq<(Seq<char>, Seq<char>)>)
    requires
        0 <= pos <= p.len(),
        p.len() <= usize::MAX,
        attrs.len() > 0,
        attrs_fit(attrs),
        p.subrange(pos, p.len() as int) == lenenc_bytes(attrs_blob(attrs)),
    ensures
        !connect_attrs_overflow(p, pos),
{
    let blob = attrs_blob(attrs);
    let t = p.subrange(pos, p.len() as int);
    lemma_attrs_blob_len(attrs);
    lemma_lenenc_roundtrip(blob.len() as u64, blob);
    let h = lenenc_int(blob.len() as u64).len();
    assert(t =~= lenenc_int(blob.len() as u64) + blob);
    assert(p.len() == pos + h + blob.len());
    assert(window(p, pos + h, blob)) by {
        assert(p.subrange(pos + h, pos + h + blob.len()) =~= t.subrange(h as int, (h + blob.len()) as int));
        assert(t.subrange(h as int, (h + blob.len()) as int) =~= blob);
    }
    lemma_attrs_no_overflow(p, pos + h, attrs);
}

/// An encoded well-formed Handshake Response whose length is a `usize` reads without a
/// position overflow, so `decode_payload` accepts it.
#[verifier::spinoff_prover]
#[verifier::rlimit(40)]
proof fn lemma_encoded_response_no_overflow(r: ResponseView)
    requires
        response_well_formed(r),
        encode_response_spec(r).len() <= usize::MAX,
    ensures
        !response_overflows(encode_response_spec(r)),
{
    let (caps, user, auth, db, plugin, attrs) = r;
    let p = encode_response_spec(r);
    let head = le4(caps) + le4(16777215) + seq![255u8] + Seq::new(23, |i: int| 0u8);
    let u = encode_utf8(user) + seq![0u8];
    let f = auth_field_bytes(caps, auth);
    let d = opt_cstr(caps & CLIENT_CONNECT_WITH_DB != 0, db);
    let pl = opt_cstr(caps & CLIENT_PLUGIN_AUTH != 0, plugin);
    let t = if caps & CLIENT_CONNECT_ATTRS != 0 && attrs.len() > 0 {
        lenenc_bytes(attrs_blob(attrs))
    } else {
        Seq::empty()
    };
    assert(p =~= head + u + f + d + pl + t);
    let pos1: int = (32 + u.len()) as int;
    let pos2: int = pos1 + f.len();
    let pos3: int = pos2 + d.len();
    let pos4: int = pos3 + pl.len();
    assert(head.len() == 32);
    assert(window(p, 32, u)) by {
        assert(p.subrange(32, (32 + u.len()) as int) =~= u);
    }
    assert(window(p, pos1, f)) by {
        assert(p.subrange(pos1, pos1 + f.len()) =~= f);
    }
    assert(window(p, pos2, d)) by {
        assert(p.subrange(pos2, pos2 + d.len()) =~= d);
    }
    assert(window(p, pos3, pl)) by {
        assert(p.subrange(pos3, pos3 + pl.len()) =~= pl);
    }
    assert(p.subrange(pos4, p.len() as int) =~= t);
    assert(p[0] == le4(caps)[0] && p[1] == le4(caps)[1] && p[2] == le4(caps)[2] && p[3] == le4(
        caps,
    )[3]);
    lemma_le4_back(caps);
    lemma_cstr_at(p, 32, user);
    lemma_auth_field_back(p, pos1, caps, auth);
    lemma_opt_cstr_back(p, pos2, caps & CLIENT_CONNECT_WITH_DB != 0, db);
    lemma_opt_cstr_back(p, pos3, caps & CLIENT_PLUGIN_AUTH != 0, plugin);
    if caps & CLIENT_PLUGIN_AUTH_LENENC != 0 {
        lemma_read_no_overflow(p, pos1);
    }
    if caps & CLIENT_CONNECT_ATTRS != 0 && attrs.len() > 0 {
        lemma_attrs_block_no_overflow(p, pos4, attrs);
    }
}

/// Decoding an encoded Handshake Response gives it back, when it is well formed.
#[verifier::spinoff_prover]
#[verifier::rlimit(40)]
pub proof fn lemma_handshake_response_roundtrip(r: ResponseView)
    requires
        response_well_formed(r),
    ensures
        decode_response_spec(encode_response_spec(r)) == Some(r),
        encode_response_spec(r).len() <= usize::MAX ==> !response_overflows(encode_response_spec(r)),
{
    let (caps, user, auth, db, plugin, attrs) = r;
    let p = encode_response_spec(r);
    let head = le4(caps) + le4(16777215) + seq![255u8] + Seq::new(23, |i: int| 0u8);
    let u = encode_utf8(user) + seq![0u8];
    let f = auth_field_bytes(caps, auth);
    let d = opt_cstr(caps & CLIENT_CONNECT_WITH_DB != 0, db);
    let pl = opt_cstr(caps & CLIENT_PLUGIN_AUTH != 0, plugin);
    let t = if caps & CLIENT_CONNECT_ATTRS != 0 && attrs.len() > 0 {
        lenenc_bytes(attrs_blob(attrs))
    } else {
        Seq::empty()
    };
    assert(p =~= head + u + f + d + pl + t);
    let pos1: int = (32 + u.len()) as int;
    let pos2: int = pos1 + f.len();
    let pos3: int = pos2 + d.len();
    let pos4: int = pos3 + pl.len();
    assert(head.len() == 32);
    assert(window(p, 32, u)) by {
        assert(p.subrange(32, (32 + u.len()) as int) =~= u);
    }
    assert(window(p, pos1, f)) by {
        assert(p.subrange(pos1, pos1 + f.len()) =~= f);
    }
    assert(window(p, pos2, d)) by {
        assert(p.subrange(pos2, pos2 + d.len()) =~= d);
    }
    assert(window(p, pos3, pl)) by {
        assert(p.subrange(pos3, pos3 + pl.len()) =~= pl);
    }
    assert(p.subrange(pos4, p.len() as int) =~= t);
    assert(p[0] == le4(caps)[0] && p[1] == le4(caps)[1] && p[2] == le4(caps)[2] && p[3] == le4(
        caps,
    )[3]);
    lemma_le4_back(caps);
    lemma_cstr_at(p, 32, user);
    lemma_auth_field_back(p, pos1, caps, auth);
    lemma_opt_cstr_back(p, pos2, caps & CLIENT_CONNECT_WITH_DB != 0, db);
    lemma_opt_cstr_back(p, pos3, caps & CLIENT_PLUGIN_AUTH != 0, plugin);
    lemma_attrs_back(p, pos4, caps, attrs);
    if p.len() <= usize::MAX {
        lemma_encoded_response_no_overflow(r);
    }
}

/// The text of each key/value pair.
pub open spec fn attr_pairs_view(v: Seq<(String, String)>) -> Seq<(Seq<char>, Seq<char>)> {
    Seq::new(v.len(), |i: int| (v[i].0@, v[i].1@))
}

/// Reads a length-encoded byte string at `*pos`.
fn read_lenenc_bytes(buf: &[u8], pos: &mut usize) -> (r: Option<Vec<u8>>)
    requires
        *old(pos) <= buf@.len(),
        !lenenc_len_overflows(buf@, *old(pos) as int),
    ensures
        match lenenc_bytes_at(buf@, *old(pos) as int) {
            None => r is None,
            Some((b, q)) => r matches Some(v) && v@ == b && *final(pos) == q,
        },
{
    let ghost s = buf@.subrange(*pos as int, buf@.len() as int);
    match lenenc_at(buf, *pos) {
        None => None,
        Some((n, h)) => {
            let start = *pos + h;
            if ((buf.len() - start) as u64) < n {
                return None;
            }
            let end = start + n as usize;
            proof {
                assert(s.subrange(h as int, h + n) =~= buf@.subrange(start as int, end as int));
            }
            let bytes = vstd::slice::slice_to_vec(vstd::slice::slice_subrange(buf, start, end));
            *pos = end;
            Some(bytes)
        },
    }
}

/// Reads a length-encoded UTF-8 string at `*pos`.
fn read_lenenc_text(buf: &[u8], pos: &mut usize) -> (r: Option<String>)
    requires
        *old(pos) <= buf@.len(),
        !lenenc_len_overflows(buf@, *old(pos) as int),
    ensures
        match lenenc_text_at(buf@, *old(pos) as int) {
            None => r is None,
            Some((t, q)) => r matches Some(s) && s@ == t && *final(pos) == q,
        },
{
    match read_lenenc_bytes(buf, pos) {
        None => None,
        Some(b) => utf8_decode(b.as_slice()),
    }
}

/// The connect-attributes block at `pos`; a malformed block gives no attributes.
/// Whether the end of a length-encoded string at `pos` is past `usize::MAX`.
fn lenenc_overflows_at(buf: &[u8], pos: usize) -> (r: bool)
    requires
        pos <= buf@.len(),
    ensures
        r == lenenc_len_overflows(buf@, pos as int),
{
    match lenenc_at(buf, pos) {
        None => false,
        Some((n, h)) => {
            let room = usize::MAX - pos;
            h > room || n > (room - h) as u64
        },
    }
}

/// Whether reading key/value pairs from `pos` to `end` overflows a position.
fn attrs_overflow_check(buf: &[u8], pos: usize, end: usize) -> (r: bool)
    requires
        pos <= buf@.len(),
        end <= buf@.len(),
    ensures
        r == attrs_overflow(buf@, pos as int, end as int),
{
    let mut p = pos;
    while p < end
        invariant
            p <= buf@.len(),
            end <= buf@.len(),
            attrs_overflow(buf@, pos as int, end as int) == attrs_overflow(buf@, p as int, end as int),
        decreases end - p,
    {
        if lenenc_overflows_at(buf, p) {
            return true;
        }
        let mut q = p;
        match read_lenenc_text(buf, &mut q) {
            None => {
                return false;
            },
            Some(_) => {},
        }
        if q > buf.len() {
            return false;
        }
        if lenenc_overflows_at(buf, q) {
            return true;
        }
        match read_lenenc_text(buf, &mut q) {
            None => {
                return false;
            },
            Some(_) => {},
        }
        if q >= end || q <= p {
            return false;
        }
        p = q;
    }
    false
}

fn connect_attributes_at(buf: &[u8], pos: usize) -> (r: Vec<(String, String)>)
    requires
        pos <= buf@.len(),
        !connect_attrs_overflow(buf@, pos as int),
    ensures
        attr_pairs_view(r@) == connect_attrs_spec(buf@, pos as int),
{
    let mut attrs: Vec<(String, String)> = Vec::new();
    let (bl, h) = match lenenc_at(buf, pos) {
        None => {
            proof {
                assert(attr_pairs_view(attrs@) =~= Seq::empty());
            }
            return attrs;
        },
        Some(x) => x,
    };
    let start = pos + h;
    if ((buf.len() - start) as u64) < bl {
        proof {
            assert(attr_pairs_view(attrs@) =~= Seq::empty());
        }
        return attrs;
    }
    let end = start + bl as usize;
    let ghost b = buf@;
    let mut p = start;
    proof {
        assert(attr_pairs_view(attrs@) + Seq::empty() =~= Seq::<(Seq<char>, Seq<char>)>::empty());
    }
    while p < end
        invariant
            start <= p,
            end <= b.len() <= usize::MAX,
            b == buf@,
            start == pos + h,
            end == pos + h + bl,
            parse_lenenc(b.subrange(pos as int, b.len() as int)) == Some((bl, h as int)),
            !attrs_overflow(b, p as int, end as int),
            match attrs_from(b, p as int, end as int) {
                None => attrs_from(b, start as int, end as int) is None,
                Some(rest) => attrs_from(b, start as int, end as int) == Some(
                    attr_pairs_view(attrs@) + rest,
                ),
            },
        decreases end - p,
    {
        let ghost a0 = attr_pairs_view(attrs@);
        let mut q = p;
        let key = match read_lenenc_text(buf, &mut q) {
            None => {
                let e: Vec<(String, String)> = Vec::new();
                proof {
                    assert(attr_pairs_view(e@) =~= Seq::empty());
                }
                return e;
            },
            Some(k) => k,
        };
        let q1 = q;
        let value = match read_lenenc_text(buf, &mut q) {
            None => {
                let e: Vec<(String, String)> = Vec::new();
                proof {
                    assert(attr_pairs_view(e@) =~= Seq::empty());
                }
                return e;
            },
            Some(v) => v,
        };
        if q <= p {
            let e: Vec<(String, String)> = Vec::new();
            proof {
                assert(attr_pairs_view(e@) =~= Seq::empty());
            }
            return e;
        }
        attrs.push((key, value));
        proof {
            assert(attr_pairs_view(attrs@) =~= a0 + seq![(key@, value@)]);
            if q >= end {
                assert(attrs_from(b, q as int, end as int) == Some(Seq::<(Seq<char>, Seq<char>)>::empty()));
                assert(a0 + seq![(key@, value@)] + Seq::empty() =~= a0 + seq![(key@, value@)]);
            } else {
                match attrs_from(b, q as int, end as int) {
                    None => {},
                    Some(rest) => {
                        assert(a0 + (seq![(key@, value@)] + rest) =~= a0 + seq![(key@, value@)]
                            + rest);
                    },
                }
            }
        }
        p = if q > end {
            end
        } else {
            q
        };
    }
    proof {
        assert(attrs_from(b, p as int, end as int) == Some(Seq::<(Seq<char>, Seq<char>)>::empty()));
        assert(attr_pairs_view(attrs@) + Seq::empty() =~= attr_pairs_view(attrs@));
    }
    attrs
}


impl HandshakeResponse {
    /// Encodes the response payload (without packet framing).
    pub fn encode_payload(&self) -> (r: Vec<u8>)
        ensures
            r@ == encode_response_spec(self@),
    {
        let caps = self.capabilities;
        let mut payload: Vec<u8> = Vec::new();
        push_le4(&mut payload, caps);
        push_le4(&mut payload, 16777215);
        payload.push(255);
        let zeros: [u8; 23] = [0u8; 23];
        append_bytes(&mut payload, &zeros);
        append_bytes(&mut payload, self.username.as_str().as_bytes());
        payload.push(0);
        proof {
            assert(zeros@ =~= Seq::new(23, |i: int| 0u8));
        }
        let ghost h1 = payload@;
        push_auth_field(&mut payload, caps, self.auth_response.as_slice());
        let ghost h2 = payload@;
        push_opt_cstr(&mut payload, caps & CLIENT_CONNECT_WITH_DB != 0, &self.database);
        let ghost h3 = payload@;
        push_opt_cstr(&mut payload, caps & CLIENT_PLUGIN_AUTH != 0, &self.auth_plugin);
        let ghost h4 = payload@;
        let ghost pairs = attr_pairs_view(self.connect_attributes@);
        if caps & CLIENT_CONNECT_ATTRS != 0 && self.connect_attributes.len() > 0 {
            let attrs = attrs_blob_of(&self.connect_attributes);
            write_lenenc_bytes(&mut payload, attrs.as_slice());
        }
        proof {
            let tail = if caps & CLIENT_CONNECT_ATTRS != 0 && pairs.len() > 0 {
                lenenc_bytes(attrs_blob(pairs))
            } else {
                Seq::empty()
            };
            assert(payload@ =~= h4 + tail);
            assert(self@.5 == pairs);
        }
        payload
    }

    /// Whether decoding this payload would need a position past `usize::MAX` (a length-encoded
    /// length too large to add to a position), which `decode_payload` does not accept.
    pub fn payload_overflows(payload: &[u8]) -> (r: bool)
        ensures
            r == response_overflows(payload@),
    {
        if payload.len() < 32 {
            return false;
        }
        let mut pos: usize = 32;
        match read_null_string(payload, &mut pos) {
            Err(_) => {
                return false;
            },
            Ok(_) => {},
        }
        proof {
            lemma_null_str_pos(payload@, 32);
        }
        let caps = read_le4(payload, 0);
        if caps & CLIENT_PLUGIN_AUTH_LENENC != 0 && lenenc_overflows_at(payload, pos) {
            return true;
        }
        if caps & CLIENT_PLUGIN_AUTH_LENENC != 0 {
            match read_lenenc_bytes(payload, &mut pos) {
                None => {
                    return false;
                },
                Some(_) => {},
            }
        } else if caps & CLIENT_SECURE_CONNECTION != 0 {
            if pos >= payload.len() {
                return false;
            }
            let len = payload[pos] as usize;
            if payload.len() - (pos + 1) < len {
                return false;
            }
            pos = pos + 1 + len;
        } else {
            match read_null_terminated_bytes(payload, &mut pos) {
                Err(_) => {
                    return false;
                },
                Ok(_) => {},
            }
        }
        if caps & CLIENT_CONNECT_WITH_DB != 0 && pos < payload.len() {
            let _ = read_null_string(payload, &mut pos);
        }
        proof {
            lemma_null_str_pos(payload@, pos as int);
        }
        if caps & CLIENT_PLUGIN_AUTH != 0 && pos < payload.len() {
            let _ = read_null_string(payload, &mut pos);
        }
        proof {
            lemma_null_str_pos(payload@, pos as int);
        }
        if !(caps & CLIENT_CONNECT_ATTRS != 0 && pos < payload.len()) {
            return false;
        }
        match lenenc_at(payload, pos) {
            None => false,
            Some((bl, h)) => {
                let room = usize::MAX - pos;
                if h > room || bl > (room - h) as u64 {
                    return true;
                }
                let start = pos + h;
                let end = start + bl as usize;
                if end > payload.len() {
                    return false;
                }
                attrs_overflow_check(payload, start, end)
            },
        }
    }

    /// Decodes a client Handshake Response payload.
    pub fn decode_payload(payload: &[u8]) -> (r: Result<Self, ProtocolError>)
        requires
            !response_overflows(payload@),
        ensures
            match decode_response_spec(payload@) {
                Some(v) => r matches Ok(x) && x@ == v,
                None => r matches Err(e) && e is InvalidPacket,
            },
    {
        if payload.len() < 32 {
            return Err(ProtocolError::invalid_packet());
        }
        let capabilities = read_le4(payload, 0);
        let mut pos: usize = 32;
        let username = match read_null_string(payload, &mut pos) {
            Ok(s) => s,
            Err(e) => {
                return Err(e);
            },
        };
        proof {
            lemma_null_str_pos(payload@, 32);
        }
        let auth_response: Vec<u8> = if capabilities & CLIENT_PLUGIN_AUTH_LENENC != 0 {
            match read_lenenc_bytes(payload, &mut pos) {
                Some(b) => b,
                None => {
                    return Err(ProtocolError::invalid_packet());
                },
            }
        } else if capabilities & CLIENT_SECURE_CONNECTION != 0 {
            if pos >= payload.len() {
                return Err(ProtocolError::invalid_packet());
            }
            let len = payload[pos] as usize;
            pos = pos + 1;
            if payload.len() - pos < len {
                return Err(ProtocolError::invalid_packet());
            }
            let bytes = vstd::slice::slice_to_vec(
                vstd::slice::slice_subrange(payload, pos, pos + len),
            );
            pos = pos + len;
            bytes
        } else {
            match read_null_terminated_bytes(payload, &mut pos) {
                Ok(b) => b,
                Err(e) => {
                    return Err(e);
                },
            }
        };
        let mut database: Option<String> = None;
        if capabilities & CLIENT_CONNECT_WITH_DB != 0 && pos < payload.len() {
            match read_null_string(payload, &mut pos) {
                Ok(s) => {
                    if !s.as_str().is_empty() {
                        database = Some(s);
                    }
                },
                Err(_) => {},
            }
        }
        let mut auth_plugin: Option<String> = None;
        if capabilities & CLIENT_PLUGIN_AUTH != 0 && pos < payload.len() {
            match read_null_string(payload, &mut pos) {
                Ok(s) => {
                    auth_plugin = Some(s);
                },
                Err(_) => {},
            }
        }
        let connect_attributes: Vec<(String, String)> = if capabilities & CLIENT_CONNECT_ATTRS
            != 0 && pos < payload.len() {
            connect_attributes_at(payload, pos)
        } else {
            Vec::new()
        };
        let r = HandshakeResponse {
            capabilities,
            username,
            auth_response,
            database,
            auth_plugin,
            connect_attributes,
        };
        proof {
            if !(capabilities & CLIENT_CONNECT_ATTRS != 0 && pos < payload.len()) {
                assert(attr_pairs_view(r.connect_attributes@) =~= Seq::empty());
            }
            assert(r@.5 =~= attr_pairs_view(r.connect_attributes@));
        }
        Ok(r)
    }
}

fn push_auth_field(payload: &mut Vec<u8>, caps: u32, auth: &[u8])
    ensures
        final(payload)@ == old(payload)@ + auth_field_bytes(caps, auth@),
{
    if caps & CLIENT_PLUGIN_AUTH_LENENC != 0 {
        write_lenenc_int(payload, auth.len() as u64);
        append_bytes(payload, auth);
    } else if caps & CLIENT_SECURE_CONNECTION != 0 {
        payload.push((auth.len() % 256) as u8);
        append_bytes(payload, auth);
    } else {
        append_bytes(payload, auth);
        payload.push(0);
    }
    proof {
        assert(final(payload)@ =~= old(payload)@ + auth_field_bytes(caps, auth@));
    }
}

fn push_opt_cstr(payload: &mut Vec<u8>, flag: bool, s: &Option<String>)
    ensures
        final(payload)@ == old(payload)@ + opt_cstr(flag, opt_text(*s)),
{
    if flag {
        match s {
            Some(t) => {
                append_bytes(payload, t.as_str().as_bytes());
                payload.push(0);
            },
            None => {},
        }
    }
    proof {
        assert(final(payload)@ =~= old(payload)@ + opt_cstr(flag, opt_text(*s)));
    }
}

fn attrs_blob_of(attrs: &Vec<(String, String)>) -> (r: Vec<u8>)
    ensures
        r@ == attrs_blob(attr_pairs_view(attrs@)),
{
    let ghost pairs = attr_pairs_view(attrs@);
    let mut out: Vec<u8> = Vec::new();
    let mut i: usize = 0;
    proof {
        assert(pairs.take(0) =~= Seq::<(Seq<char>, Seq<char>)>::empty());
    }
    while i < attrs.len()
        invariant
            i <= attrs@.len(),
            pairs == attr_pairs_view(attrs@),
            out@ == attrs_blob(pairs.take(i as int)),
        decreases attrs@.len() - i,
    {
        let pair = &attrs[i];
        write_lenenc_str(&mut out, pair.0.as_str());
        write_lenenc_str(&mut out, pair.1.as_str());
        proof {
            assert(pairs.take(i + 1).drop_last() =~= pairs.take(i as int));
            assert(pairs.take(i + 1).last() == pairs[i as int]);
        }
        i = i + 1;
    }
    proof {
        assert(pairs.take(i as int) =~= pairs);
    }
    out
}

proof fn lemma_null_str_pos(buf: Seq<u8>, pos: int)
    requires
        0 <= pos,
    ensures
        null_str(buf, pos) matches Ok((s, q)) ==> pos < q <= buf.len(),
        null_str(buf, pos) matches Err(q) ==> q <= buf.len() || q == pos,
{
    lemma_nul_index_bounds(buf, pos);
}


/// Server-side handshake configuration.
#[derive(Debug)]
pub struct HandshakeConfig {
    pub server_version: String,
    pub auth_plugin: String,
    /// When present, the password of this user is verified.
    pub auth_credentials: Option<AuthCredentials>,
    /// RSA keys for the `caching_sha2_password` full-auth path.
    pub caching_sha2_rsa: Option<CachingSha2RsaKeys>,
}

impl Default for HandshakeConfig {
    fn default() -> (r: Self)
        ensures
            r.server_version@ == "8.0.33-rusql"@,
            r.auth_plugin@ == AUTH_PLUGIN_CACHING_SHA2@,
            r.auth_credentials is None,
            r.caching_sha2_rsa is None,
    {
        HandshakeConfig {
            server_version: owned("8.0.33-rusql"),
            auth_plugin: owned(AUTH_PLUGIN_CACHING_SHA2),
            auth_credentials: None,
            caching_sha2_rsa: None,
        }
    }
}

impl HandshakeConfig {
    /// Whether RSA keys are owed: password verification is on, the plugin is
    /// `caching_sha2_password`, and there are no keys yet.
    pub open spec fn needs_rsa_keys(&self) -> bool {
        &&& self.auth_credentials is Some
        &&& self.auth_plugin@ == AUTH_PLUGIN_CACHING_SHA2@
        &&& self.caching_sha2_rsa is None
    }

    /// Generates RSA keys when they are owed (a failed generation leaves none); any other
    /// configuration is left as it is.
    pub fn ensure_caching_sha2_rsa(&mut self)
        ensures
            final(self).server_version == old(self).server_version,
            final(self).auth_plugin == old(self).auth_plugin,
            final(self).auth_credentials == old(self).auth_credentials,
            !old(self).needs_rsa_keys() ==> final(self).caching_sha2_rsa == old(
                self,
            ).caching_sha2_rsa,
    {
        if self.auth_credentials.is_some() && str_eq(
            self.auth_plugin.as_str(),
            AUTH_PLUGIN_CACHING_SHA2,
        ) && self.caching_sha2_rsa.is_none() {
            self.caching_sha2_rsa = match CachingSha2RsaKeys::generate() {
                Ok(k) => Some(k),
                Err(_) => None,
            };
        }
    }
}

} // verus!
