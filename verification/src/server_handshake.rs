//! The server side of the connection phase as a state machine: each step takes the packet the
//! client sent and gives the packets to write and what to wait for next.
use vstd::prelude::*;
use crate::auth::{
    all_zero, auth_more_data_fast_auth_ok, auth_more_data_full_auth_required,
    auth_more_data_public_key, caching_sha2_ok, descramble_spec, is_empty_password_auth, public_pem_of, rsa_plaintext_of,
    is_public_key_request, native_ok, verify_auth_with_fallback, verify_caching_sha2_fast,
    AUTH_MORE_DATA_TAG, AUTH_PLUGIN_CACHING_SHA2, AUTH_PLUGIN_NATIVE, CACHING_SHA2_FAST_AUTH_OK,
    CACHING_SHA2_FULL_AUTH, CACHING_SHA2_PUBLIC_KEY_REQUEST,
};
use crate::error::ProtocolError;
use crate::handshake::{
    decode_response_spec, encode_err_payload, encode_ok_for_client, initial_handshake_spec,
    make_scramble, opt_text, response_overflows, scramble_spec, HandshakeConfig, HandshakeResponse,
    HandshakeSession, InitialHandshake, ResponseView, CLIENT_PROTOCOL_41, CLIENT_SSL,
};
use crate::messages::{lookup_spec, protocol_access_denied, protocol_unsupported_auth, MessageCatalog};
use crate::response::{bytes_of, err_payload, ok_payload};
use crate::text::{owned, spec_utf8_lossy, str_eq, utf8_decode_lossy};
use crate::types::find_char_from;

verus! {

/// A packet for the server to write. A failed write of a `best_effort` packet is ignored
/// (the handshake fails either way); any other failed write ends the handshake with
/// `InvalidPacket`.
pub struct OutPacket {
    pub seq: u8,
    pub payload: Vec<u8>,
    pub best_effort: bool,
}

/// What the server waits for.
pub enum Awaiting {
    /// The client's Handshake Response.
    Response,
    /// The client's packet after "full authentication required".
    ClientStep { response: HandshakeResponse },
    /// The client's RSA-encrypted password.
    Encrypted { response: HandshakeResponse },
}

/// What follows a step.
pub enum Next {
    /// Read the next client packet, which must carry sequence id `seq`.
    Read { seq: u8, awaiting: Awaiting },
    /// The handshake is over.
    Finished(Result<HandshakeSession, ProtocolError>),
}

/// The packets to write, in order, then what follows.
pub struct Step {
    pub writes: Vec<OutPacket>,
    pub next: Next,
}

/// A packet to write as plain values.
pub type OutView = (u8, Seq<u8>, bool);

/// The packets of a step as plain values.
pub open spec fn writes_view(v: Seq<OutPacket>) -> Seq<OutView> {
    Seq::new(v.len(), |i: int| (v[i].seq, v[i].payload@, v[i].best_effort))
}

/// How a step ends, as plain values.
pub enum EndView {
    ReadClientStep(ResponseView),
    ReadEncrypted(ResponseView),
    /// Connection id, user name, database and client capabilities.
    Session(u32, Seq<char>, Option<Seq<char>>, u32),
    HandshakeFailed,
    InvalidPacket,
    Message(Seq<char>),
}

/// Whether `n` is the end `e`.
pub open spec fn next_is(n: Next, e: EndView) -> bool {
    match e {
        EndView::ReadClientStep(v) => n matches Next::Read { seq, awaiting: Awaiting::ClientStep { response } }
            && seq == 3 && response@ == v,
        EndView::ReadEncrypted(v) => n matches Next::Read { seq, awaiting: Awaiting::Encrypted { response } }
            && seq == 5 && response@ == v,
        EndView::Session(id, user, db, caps) => n matches Next::Finished(Ok(s)) && s.connection_id
            == id && s.username@ == user && opt_text(s.database) == db && s.client_capabilities
            == caps,
        EndView::HandshakeFailed => n matches Next::Finished(Err(ProtocolError::HandshakeFailed)),
        EndView::InvalidPacket => n matches Next::Finished(Err(ProtocolError::InvalidPacket)),
        EndView::Message(m) => n matches Next::Finished(Err(ProtocolError::Message(t))) && t@ == m,
    }
}

/// Whether `s` is the step `(writes, end)`.
pub open spec fn step_is(s: Step, w: Seq<OutView>, e: EndView) -> bool {
    writes_view(s.writes@) == w && next_is(s.next, e)
}

/// The OK packet at `seq`.
pub open spec fn ok_out(seq: u8) -> OutView {
    (seq, ok_payload(0, 0), false)
}

/// The "access denied" error (1045) at `seq`.
pub open spec fn deny_out(cat: MessageCatalog, seq: u8) -> OutView {
    (seq, err_payload(1045, bytes_of(lookup_spec(cat@, "protocol.access_denied"@))), true)
}

/// "Fast authentication succeeded" at `seq`.
pub open spec fn fast_ok_out(seq: u8) -> OutView {
    (seq, seq![AUTH_MORE_DATA_TAG, CACHING_SHA2_FAST_AUTH_OK], false)
}

/// The handshake plain values of a session: the response's user, database and capabilities.
pub open spec fn session_end(id: u32, r: ResponseView) -> EndView {
    EndView::Session(id, r.1, r.3, r.0)
}

/// The credentials a configuration verifies, as plain values.
pub open spec fn creds_view(config: HandshakeConfig) -> Option<(Seq<char>, Seq<char>)> {
    match config.auth_credentials {
        Some(c) => Some((c.username@, c.password@)),
        None => None,
    }
}

/// Starts the handshake: the Initial Handshake at sequence 0, then the client's response at
/// sequence 1.
pub fn handshake_start(config: &HandshakeConfig, connection_id: u32) -> (r: (InitialHandshake, Step))
    ensures
        r.0.connection_id == connection_id,
        r.0.scramble@ == scramble_spec(connection_id),
        r.0.server_version@ == config.server_version@,
        r.0.auth_plugin_name@ == config.auth_plugin@,
        writes_view(r.1.writes@) == seq![
            (
                0u8,
                initial_handshake_spec(
                    connection_id,
                    scramble_spec(connection_id),
                    config.server_version@,
                    config.auth_plugin@,
                ),
                false,
            ),
        ],
        r.1.next matches Next::Read { seq, awaiting: Awaiting::Response } && seq == 1,
{
    let handshake = InitialHandshake {
        connection_id,
        scramble: make_scramble(connection_id),
        server_version: owned(config.server_version.as_str()),
        auth_plugin_name: owned(config.auth_plugin.as_str()),
    };
    let payload = handshake.encode_payload();
    let mut writes: Vec<OutPacket> = Vec::new();
    writes.push(OutPacket { seq: 0, payload, best_effort: false });
    proof {
        assert(writes_view(writes@) =~= seq![
            (
                0u8,
                initial_handshake_spec(
                    connection_id,
                    scramble_spec(connection_id),
                    config.server_version@,
                    config.auth_plugin@,
                ),
                false,
            ),
        ]);
    }
    (handshake, Step { writes, next: Next::Read { seq: 1, awaiting: Awaiting::Response } })
}

/// The first `caching_sha2_password` step for a user with credentials: an empty password with
/// an empty response, or a matching fast-auth scramble, succeed; any other 32-byte response is
/// refused; otherwise full authentication is requested (which needs the RSA keys).
pub open spec fn caching_first_spec(
    cat: MessageCatalog,
    has_rsa: bool,
    password: Seq<char>,
    scramble: Seq<u8>,
    id: u32,
    r: ResponseView,
) -> (Seq<OutView>, EndView) {
    if password.len() == 0 && all_zero(r.2) {
        (seq![ok_out(2)], session_end(id, r))
    } else if caching_sha2_ok(password, scramble, r.2) {
        (seq![fast_ok_out(2), ok_out(3)], session_end(id, r))
    } else if r.2.len() == 32 {
        (seq![deny_out(cat, 2)], EndView::Message(lookup_spec(cat@, "protocol.access_denied"@)))
    } else if !has_rsa {
        (Seq::empty(), EndView::Message("caching_sha2 RSA keys not configured"@))
    } else {
        (
            seq![(2u8, seq![AUTH_MORE_DATA_TAG, CACHING_SHA2_FULL_AUTH], false)],
            EndView::ReadClientStep(r),
        )
    }
}

/// Answering the client's Handshake Response (sequence 1): the 4.1 protocol is required; an
/// unknown plugin other than the configured one is refused (error 1251); with credentials,
/// the user name must match and the response must verify for the plugin in use; without
/// credentials every user is let in (`caching_sha2_password` answering a non-empty response
/// with "fast auth OK" first).
pub open spec fn response_step_spec(
    cat: MessageCatalog,
    config_plugin: Seq<char>,
    creds: Option<(Seq<char>, Seq<char>)>,
    has_rsa: bool,
    id: u32,
    scramble: Seq<u8>,
    seq: u8,
    payload: Seq<u8>,
) -> (Seq<OutView>, EndView) {
    if seq != 1 {
        (Seq::empty(), EndView::HandshakeFailed)
    } else {
        match decode_response_spec(payload) {
            None => (Seq::empty(), EndView::InvalidPacket),
            Some(r) => {
                let caps = r.0;
                let unsupported = lookup_spec(cat@, "protocol.unsupported_auth"@);
                let denied = lookup_spec(cat@, "protocol.access_denied"@);
                if caps & CLIENT_PROTOCOL_41 == 0 {
                    (Seq::empty(), EndView::HandshakeFailed)
                } else if (r.4 matches Some(p) && p != config_plugin && p != AUTH_PLUGIN_NATIVE@ && p
                    != AUTH_PLUGIN_CACHING_SHA2@) {
                    (
                        seq![(2u8, err_payload(1251, bytes_of(unsupported)), true)],
                        EndView::Message(unsupported),
                    )
                } else {
                    match creds {
                        Some((user, password)) => if r.1 != user {
                            (seq![deny_out(cat, 2)], EndView::Message(denied))
                        } else if (match r.4 {
                            Some(p) => p,
                            None => config_plugin,
                        }) == AUTH_PLUGIN_CACHING_SHA2@ {
                            caching_first_spec(cat, has_rsa, password, scramble, id, r)
                        } else if caching_sha2_ok(password, scramble, r.2) || native_ok(
                            password,
                            scramble,
                            r.2,
                        ) {
                            (seq![ok_out(2)], session_end(id, r))
                        } else {
                            (seq![deny_out(cat, 2)], EndView::Message(denied))
                        },
                        None => if config_plugin == AUTH_PLUGIN_CACHING_SHA2@ && !all_zero(r.2) {
                            (seq![fast_ok_out(2), ok_out(3)], session_end(id, r))
                        } else {
                            (seq![ok_out(2)], session_end(id, r))
                        },
                    }
                }
            },
        }
    }
}

/// A step that refuses access at `seq`.
fn deny_step(cat: &MessageCatalog, seq: u8) -> (r: Step)
    ensures
        step_is(r, seq![deny_out(*cat, seq)], EndView::Message(lookup_spec(cat@, "protocol.access_denied"@))),
{
    let msg = protocol_access_denied(cat);
    let payload = encode_err_payload(1045, msg.as_str());
    let mut writes: Vec<OutPacket> = Vec::new();
    writes.push(OutPacket { seq, payload, best_effort: true });
    proof {
        assert(writes_view(writes@) =~= seq![deny_out(*cat, seq)]);
    }
    Step { writes, next: Next::Finished(Err(ProtocolError::Message(msg))) }
}

/// The session of a verified response.
fn session_of(id: u32, response: HandshakeResponse) -> (r: HandshakeSession)
    ensures
        r.connection_id == id,
        r.username@ == response.username@,
        opt_text(r.database) == opt_text(response.database),
        r.client_capabilities == response.capabilities,
{
    HandshakeSession {
        connection_id: id,
        username: response.username,
        database: response.database,
        client_capabilities: response.capabilities,
    }
}

/// A step that lets the client in: the given packets, then the session.
fn accept_step(fast_first: bool, id: u32, response: HandshakeResponse) -> (r: Step)
    ensures
        step_is(
            r,
            if fast_first {
                seq![fast_ok_out(2), ok_out(3)]
            } else {
                seq![ok_out(2)]
            },
            session_end(id, response@),
        ),
{
    let mut writes: Vec<OutPacket> = Vec::new();
    if fast_first {
        writes.push(OutPacket { seq: 2, payload: auth_more_data_fast_auth_ok(), best_effort: false });
        writes.push(OutPacket { seq: 3, payload: encode_ok_for_client(response.capabilities), best_effort: false });
        proof {
            assert(writes_view(writes@) =~= seq![fast_ok_out(2), ok_out(3)]);
        }
    } else {
        writes.push(OutPacket { seq: 2, payload: encode_ok_for_client(response.capabilities), best_effort: false });
        proof {
            assert(writes_view(writes@) =~= seq![ok_out(2)]);
        }
    }
    Step { writes, next: Next::Finished(Ok(session_of(id, response))) }
}

/// Answers the client's Handshake Response received with sequence id `seq`.
pub fn on_response(
    cat: &MessageCatalog,
    config: &HandshakeConfig,
    handshake: &InitialHandshake,
    seq: u8,
    payload: &[u8],
) -> (r: Step)
    requires
        !response_overflows(payload@),
    ensures
        ({
            let (w, e) = response_step_spec(
                *cat,
                config.auth_plugin@,
                creds_view(*config),
                config.caching_sha2_rsa is Some,
                handshake.connection_id,
                handshake.scramble@,
                seq,
                payload@,
            );
            step_is(r, w, e)
        }),
{
    let id = handshake.connection_id;
    if seq != 1 {
        let writes: Vec<OutPacket> = Vec::new();
        proof {
            assert(writes_view(writes@) =~= Seq::<OutView>::empty());
        }
        return Step { writes, next: Next::Finished(Err(ProtocolError::handshake_failed())) };
    }
    let response = match HandshakeResponse::decode_payload(payload) {
        Ok(r) => r,
        Err(e) => {
            let writes: Vec<OutPacket> = Vec::new();
            proof {
                assert(writes_view(writes@) =~= Seq::<OutView>::empty());
            }
            return Step { writes, next: Next::Finished(Err(e)) };
        },
    };
    if response.capabilities & CLIENT_PROTOCOL_41 == 0 {
        let writes: Vec<OutPacket> = Vec::new();
        proof {
            assert(writes_view(writes@) =~= Seq::<OutView>::empty());
        }
        return Step { writes, next: Next::Finished(Err(ProtocolError::handshake_failed())) };
    }
    match &response.auth_plugin {
        Some(p) => {
            if !str_eq(p.as_str(), config.auth_plugin.as_str()) && !str_eq(p.as_str(), AUTH_PLUGIN_NATIVE)
                && !str_eq(p.as_str(), AUTH_PLUGIN_CACHING_SHA2) {
                let msg = protocol_unsupported_auth(cat);
                let payload = encode_err_payload(1251, msg.as_str());
                let mut writes: Vec<OutPacket> = Vec::new();
                writes.push(OutPacket { seq: 2, payload, best_effort: true });
                proof {
                    assert(writes_view(writes@) =~= seq![
                        (2u8, err_payload(1251, bytes_of(lookup_spec(cat@, "protocol.unsupported_auth"@))), true),
                    ]);
                }
                return Step { writes, next: Next::Finished(Err(ProtocolError::Message(msg))) };
            }
        },
        None => {},
    }
    match &config.auth_credentials {
        Some(creds) => {
            if !str_eq(response.username.as_str(), creds.username.as_str()) {
                return deny_step(cat, 2);
            }
            let caching = match &response.auth_plugin {
                Some(p) => str_eq(p.as_str(), AUTH_PLUGIN_CACHING_SHA2),
                None => str_eq(config.auth_plugin.as_str(), AUTH_PLUGIN_CACHING_SHA2),
            };
            if caching {
                if crate::text::str_chars(creds.password.as_str()).len() == 0 && is_empty_password_auth(response.auth_response.as_slice()) {
                    return accept_step(false, id, response);
                }
                if verify_caching_sha2_fast(creds.password.as_str(), &handshake.scramble, response.auth_response.as_slice()) {
                    return accept_step(true, id, response);
                }
                if response.auth_response.len() == 32 {
                    return deny_step(cat, 2);
                }
                if config.caching_sha2_rsa.is_none() {
                    let writes: Vec<OutPacket> = Vec::new();
                    proof {
                        assert(writes_view(writes@) =~= Seq::<OutView>::empty());
                    }
                    return Step {
                        writes,
                        next: Next::Finished(Err(ProtocolError::Message(owned("caching_sha2 RSA keys not configured")))),
                    };
                }
                let mut writes: Vec<OutPacket> = Vec::new();
                writes.push(OutPacket { seq: 2, payload: auth_more_data_full_auth_required(), best_effort: false });
                proof {
                    assert(writes_view(writes@) =~= seq![(2u8, seq![AUTH_MORE_DATA_TAG, CACHING_SHA2_FULL_AUTH], false)]);
                }
                return Step { writes, next: Next::Read { seq: 3, awaiting: Awaiting::ClientStep { response } } };
            }
            if !verify_auth_with_fallback(
                creds.password.as_str(),
                &handshake.scramble,
                response.auth_response.as_slice(),
                match &response.auth_plugin {
                    Some(p) => Some(p.as_str()),
                    None => None,
                },
            ) {
                return deny_step(cat, 2);
            }
            accept_step(false, id, response)
        },
        None => {
            if str_eq(config.auth_plugin.as_str(), AUTH_PLUGIN_CACHING_SHA2) {
                let empty = is_empty_password_auth(response.auth_response.as_slice());
                accept_step(!empty, id, response)
            } else {
                accept_step(false, id, response)
            }
        },
    }
}


/// The OK packet at `seq`, then the session.
fn ok_step(seq: u8, id: u32, response: HandshakeResponse) -> (r: Step)
    ensures
        step_is(r, seq![ok_out(seq)], session_end(id, response@)),
{
    let mut writes: Vec<OutPacket> = Vec::new();
    writes.push(OutPacket { seq, payload: encode_ok_for_client(response.capabilities), best_effort: false });
    proof {
        assert(writes_view(writes@) =~= seq![ok_out(seq)]);
    }
    Step { writes, next: Next::Finished(Ok(session_of(id, response))) }
}

/// The end of the first NUL of `p` (its length when there is none).
pub open spec fn nul_end(p: Seq<u8>) -> int {
    match crate::handshake::nul_index(p, 0) {
        Some(k) => k,
        None => p.len() as int,
    }
}

/// A password sent in clear over TLS: the bytes before the first NUL, decoded leniently.
pub open spec fn plaintext_spec(p: Seq<u8>) -> Seq<char> {
    spec_utf8_lossy(p.take(nul_end(p)))
}

/// The password a client sent in clear.
fn plaintext_password_from_payload(payload: &[u8]) -> (r: String)
    ensures
        r@ == plaintext_spec(payload@),
{
    let mut end: usize = 0;
    while end < payload.len() && payload[end] != 0
        invariant
            end <= payload@.len(),
            crate::handshake::nul_index(payload@, 0) == crate::handshake::nul_index(payload@, end as int),
        decreases payload@.len() - end,
    {
        end = end + 1;
    }
    let head = vstd::slice::slice_subrange(payload, 0, end);
    proof {
        assert(head@ =~= payload@.take(nul_end(payload@)));
    }
    utf8_decode_lossy(head)
}

/// Answering the client's packet after "full authentication required" (sequence 3): a
/// public-key request gets the server's public key (then the encrypted password is awaited);
/// over TLS the password may come in clear; anything else is refused.
pub fn on_client_step(
    cat: &MessageCatalog,
    config: &HandshakeConfig,
    handshake: &InitialHandshake,
    response: HandshakeResponse,
    seq: u8,
    payload: &[u8],
) -> (r: Step)
    requires
        config.auth_credentials is Some,
        config.caching_sha2_rsa is Some,
    ensures
        seq != 3 ==> step_is(r, Seq::empty(), EndView::HandshakeFailed),
        seq == 3 && payload@ == seq![CACHING_SHA2_PUBLIC_KEY_REQUEST] ==> (r.writes@.len() == 1
            && r.writes@[0].seq == 4 && !r.writes@[0].best_effort && public_pem_of(
            config.caching_sha2_rsa->0.key(),
        ) == Some(r.writes@[0].payload@.drop_first()) && r.writes@[0].payload@.len() >= 1
            && r.writes@[0].payload@[0] == AUTH_MORE_DATA_TAG && next_is(r.next, EndView::ReadEncrypted(response@))),
        seq == 3 && payload@ != seq![CACHING_SHA2_PUBLIC_KEY_REQUEST] ==> (if response.capabilities
            & CLIENT_SSL != 0 && plaintext_spec(payload@) == config.auth_credentials->0.password@ {
            step_is(r, seq![ok_out(4)], session_end(handshake.connection_id, response@))
        } else {
            step_is(r, seq![deny_out(*cat, 4)], EndView::Message(lookup_spec(cat@, "protocol.access_denied"@)))
        }),
{
    if seq != 3 {
        let writes: Vec<OutPacket> = Vec::new();
        proof {
            assert(writes_view(writes@) =~= Seq::<OutView>::empty());
        }
        return Step { writes, next: Next::Finished(Err(ProtocolError::handshake_failed())) };
    }
    let keys = match &config.caching_sha2_rsa {
        Some(k) => k,
        None => {
            return deny_step(cat, 4);
        },
    };
    let password = match &config.auth_credentials {
        Some(c) => &c.password,
        None => {
            return deny_step(cat, 4);
        },
    };
    if is_public_key_request(payload) {
        let pem = keys.public_key_pem();
        let packet = auth_more_data_public_key(pem.as_slice());
        proof {
            assert(packet@.drop_first() =~= pem@);
        }
        let mut writes: Vec<OutPacket> = Vec::new();
        writes.push(OutPacket { seq: 4, payload: packet, best_effort: false });
        return Step { writes, next: Next::Read { seq: 5, awaiting: Awaiting::Encrypted { response } } };
    }
    if response.capabilities & CLIENT_SSL != 0 {
        let plain = plaintext_password_from_payload(payload);
        if str_eq(plain.as_str(), password.as_str()) {
            return ok_step(4, handshake.connection_id, response);
        }
    }
    deny_step(cat, 4)
}

/// Answering the client's RSA-encrypted password (sequence 5): the client is let in only when
/// the decrypted, unscrambled password is the configured one.
pub fn on_encrypted(
    cat: &MessageCatalog,
    config: &HandshakeConfig,
    handshake: &InitialHandshake,
    response: HandshakeResponse,
    seq: u8,
    payload: &[u8],
) -> (r: Step)
    requires
        config.auth_credentials is Some,
        config.caching_sha2_rsa is Some,
    ensures
        seq != 5 ==> step_is(r, Seq::empty(), EndView::HandshakeFailed),
        seq == 5 ==> if (match rsa_plaintext_of(config.caching_sha2_rsa->0.key(), payload@) {
            Some(p) => descramble_spec(p, handshake.scramble@) == config.auth_credentials->0.password@,
            None => false,
        }) {
            step_is(r, seq![ok_out(6)], session_end(handshake.connection_id, response@))
        } else {
            step_is(r, seq![deny_out(*cat, 6)], EndView::Message(lookup_spec(cat@, "protocol.access_denied"@)))
        },
{
    if seq != 5 {
        let writes: Vec<OutPacket> = Vec::new();
        proof {
            assert(writes_view(writes@) =~= Seq::<OutView>::empty());
        }
        return Step { writes, next: Next::Finished(Err(ProtocolError::handshake_failed())) };
    }
    let keys = match &config.caching_sha2_rsa {
        Some(k) => k,
        None => {
            return deny_step(cat, 6);
        },
    };
    let password = match &config.auth_credentials {
        Some(c) => &c.password,
        None => {
            return deny_step(cat, 6);
        },
    };
    match keys.decrypt_password(payload, &handshake.scramble) {
        Ok(p) => {
            if str_eq(p.as_str(), password.as_str()) {
                return ok_step(6, handshake.connection_id, response);
            }
            deny_step(cat, 6)
        },
        Err(_) => deny_step(cat, 6),
    }
}

} // verus!
