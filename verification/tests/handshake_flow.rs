use rusql::auth::{caching_sha2_fast_scramble, native_password_scramble, AUTH_PLUGIN_NATIVE};
use rusql::error::ProtocolError;
use rusql::handshake::{
    AuthCredentials, HandshakeConfig, HandshakeResponse, CLIENT_PLUGIN_AUTH, CLIENT_PROTOCOL_41,
    CLIENT_SECURE_CONNECTION,
};
use rusql::messages::MessageCatalog;
use rusql::server_handshake::{handshake_start, on_client_step, on_response, Awaiting, Next};

fn response(user: &str, auth: Vec<u8>, plugin: Option<&str>) -> Vec<u8> {
    HandshakeResponse {
        capabilities: CLIENT_PROTOCOL_41 | CLIENT_SECURE_CONNECTION | CLIENT_PLUGIN_AUTH,
        username: user.into(),
        auth_response: auth,
        database: None,
        auth_plugin: plugin.map(str::to_string),
        connect_attributes: vec![],
    }
    .encode_payload()
}

fn catalog() -> MessageCatalog {
    let mut cat = MessageCatalog::new();
    cat.insert("protocol.access_denied", "Access denied");
    cat.insert("protocol.unsupported_auth", "Unsupported auth plugin");
    cat
}

#[test]
fn start_sends_the_initial_handshake() {
    let config = HandshakeConfig::default();
    let (hs, step) = handshake_start(&config, 7);
    assert_eq!(hs.connection_id, 7);
    assert_eq!(step.writes.len(), 1);
    assert_eq!(step.writes[0].seq, 0);
    assert_eq!(step.writes[0].payload, hs.encode_payload());
    assert!(matches!(step.next, Next::Read { seq: 1, awaiting: Awaiting::Response }));
}

#[test]
fn no_credentials_lets_everyone_in() {
    let cat = catalog();
    let config = HandshakeConfig::default();
    let (hs, _) = handshake_start(&config, 1);
    let step = on_response(&cat, &config, &hs, 1, &response("bob", vec![], None));
    assert_eq!(step.writes.len(), 1);
    assert_eq!(step.writes[0].seq, 2);
    assert_eq!(step.writes[0].payload[0], 0x00);
    match step.next {
        Next::Finished(Ok(s)) => {
            assert_eq!(s.username, "bob");
            assert_eq!(s.connection_id, 1);
        }
        _ => panic!("expected a session"),
    }
    let step = on_response(&cat, &config, &hs, 1, &response("bob", vec![1; 32], None));
    assert_eq!(step.writes.len(), 2);
    assert_eq!(step.writes[0].payload, vec![0x01, 0x03]);
    assert_eq!(step.writes[1].seq, 3);
}

#[test]
fn wrong_sequence_or_plugin_fails() {
    let cat = catalog();
    let config = HandshakeConfig::default();
    let (hs, _) = handshake_start(&config, 1);
    let step = on_response(&cat, &config, &hs, 2, &response("bob", vec![], None));
    assert!(step.writes.is_empty());
    assert!(matches!(step.next, Next::Finished(Err(ProtocolError::HandshakeFailed))));
    let step = on_response(&cat, &config, &hs, 1, &response("bob", vec![], Some("sha256_password")));
    assert_eq!(step.writes.len(), 1);
    assert!(step.writes[0].best_effort);
    assert_eq!(&step.writes[0].payload[..3], &[0xFF, 0xE3, 0x04]);
    match step.next {
        Next::Finished(Err(ProtocolError::Message(m))) => assert_eq!(m, "Unsupported auth plugin"),
        _ => panic!("expected refusal"),
    }
    let step = on_response(&cat, &config, &hs, 1, &[0u8; 10]);
    assert!(matches!(step.next, Next::Finished(Err(ProtocolError::InvalidPacket))));
}

#[test]
fn native_password_verified() {
    let cat = catalog();
    let mut config = HandshakeConfig::default();
    config.auth_plugin = AUTH_PLUGIN_NATIVE.into();
    config.auth_credentials = Some(AuthCredentials { username: "app".into(), password: "pw".into() });
    let (hs, _) = handshake_start(&config, 3);
    let good = native_password_scramble("pw", &hs.scramble).to_vec();
    let step = on_response(&cat, &config, &hs, 1, &response("app", good, Some(AUTH_PLUGIN_NATIVE)));
    assert!(matches!(step.next, Next::Finished(Ok(_))));
    let step = on_response(&cat, &config, &hs, 1, &response("app", vec![7; 20], Some(AUTH_PLUGIN_NATIVE)));
    assert_eq!(step.writes[0].payload[..3], [0xFF, 0x15, 0x04]);
    assert!(matches!(step.next, Next::Finished(Err(ProtocolError::Message(_)))));
    let step = on_response(&cat, &config, &hs, 1, &response("eve", vec![], Some(AUTH_PLUGIN_NATIVE)));
    assert!(matches!(step.next, Next::Finished(Err(ProtocolError::Message(_)))));
}

#[test]
fn caching_sha2_fast_and_full_paths() {
    let cat = catalog();
    let mut config = HandshakeConfig::default();
    config.auth_credentials = Some(AuthCredentials { username: "app".into(), password: "pw".into() });
    let (hs, _) = handshake_start(&config, 4);
    let fast = caching_sha2_fast_scramble("pw", &hs.scramble).to_vec();
    let step = on_response(&cat, &config, &hs, 1, &response("app", fast, None));
    assert_eq!(step.writes.len(), 2);
    assert!(matches!(step.next, Next::Finished(Ok(_))));
    let step = on_response(&cat, &config, &hs, 1, &response("app", vec![9; 32], None));
    assert!(matches!(step.next, Next::Finished(Err(ProtocolError::Message(_)))));
    let step = on_response(&cat, &config, &hs, 1, &response("app", vec![9; 5], None));
    match step.next {
        Next::Finished(Err(ProtocolError::Message(m))) => {
            assert_eq!(m, "caching_sha2 RSA keys not configured")
        }
        _ => panic!("expected the missing-keys error"),
    }
}

#[test]
fn client_step_over_tls_takes_clear_password() {
    let cat = catalog();
    let mut config = HandshakeConfig::default();
    config.auth_credentials = Some(AuthCredentials { username: "app".into(), password: "pw".into() });
    config.caching_sha2_rsa = Some(rusql::auth::CachingSha2RsaKeys::generate().unwrap());
    let (hs, _) = handshake_start(&config, 5);
    let resp = HandshakeResponse {
        capabilities: CLIENT_PROTOCOL_41 | CLIENT_SECURE_CONNECTION | rusql::handshake::CLIENT_SSL,
        username: "app".into(),
        auth_response: vec![1, 2, 3],
        database: None,
        auth_plugin: None,
        connect_attributes: vec![],
    };
    let step = on_response(&cat, &config, &hs, 1, &resp.encode_payload());
    assert_eq!(step.writes[0].payload, vec![0x01, 0x04]);
    let response = match step.next {
        Next::Read { seq: 3, awaiting: Awaiting::ClientStep { response } } => response,
        _ => panic!("expected full authentication"),
    };
    let step = on_client_step(&cat, &config, &hs, response, 3, b"pw\0");
    assert_eq!(step.writes[0].seq, 4);
    assert!(matches!(step.next, Next::Finished(Ok(_))));
}
