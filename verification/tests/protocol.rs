use rusql::auth::{
    auth_more_data_fast_auth_ok, auth_more_data_full_auth_required, auth_more_data_public_key,
    caching_sha2_fast_scramble, descramble_password, encrypt_password_rsa,
    is_empty_password_auth, is_public_key_request, native_password_scramble, scramble_password,
    verify_auth_response, verify_auth_with_fallback, verify_caching_sha2_fast,
    verify_native_password, CachingSha2RsaKeys, AUTH_PLUGIN_CACHING_SHA2, AUTH_PLUGIN_NATIVE,
};
use rusql::binary::{
    binary_resultset_row, binary_row_panics, decode_binary_resultset_row, encode_binary_value,
    mysql_type_for_result_column, mysql_type_from_sql_type, MYSQL_TYPE_DOUBLE, MYSQL_TYPE_LONG,
    MYSQL_TYPE_LONGLONG, MYSQL_TYPE_VAR_STRING,
};
use rusql::client_decode::{
    classify_query_payload, column_name_from_definition, decode_text_row, QueryResponse,
};
use rusql::command::{
    encode_com_query_with_attributes, parse_command, ClientCommand, CLIENT_DEPRECATE_EOF,
    CLIENT_QUERY_ATTRIBUTES, CLIENT_SESSION_TRACK, COM_QUERY, SERVER_CAPABILITIES,
};
use rusql::error::ProtocolError;
use rusql::handshake::{
    encode_err_payload, encode_ok_for_client, encode_ok_payload, make_scramble,
    HandshakeConfig, HandshakeResponse, InitialHandshake, CLIENT_PLUGIN_AUTH,
    CLIENT_PLUGIN_AUTH_LENENC, CLIENT_PROTOCOL_41, CLIENT_SECURE_CONNECTION,
};
use rusql::packet::{Packet, PacketReader, PacketWriter};
use rusql::response::{binary_resultset, ok_packet_full, text_resultset, EOF_MARKER};
use rusql::stmt::{encode_stmt_execute, parse_stmt_execute, stmt_execute_panics_check, stmt_prepare_ok};

const LEGACY_CAPS: u32 = 0x0000_0200 | 0x0008_0000 | 0x0000_8000 | 0x0020_0000;
const MYSQL_CLI_CAPS: u32 = LEGACY_CAPS | CLIENT_QUERY_ATTRIBUTES;

#[test]
fn empty_password_null_byte_auth() {
    let salt = [2u8; 20];
    assert!(verify_caching_sha2_fast("", &salt, &[]));
    assert!(verify_caching_sha2_fast("", &salt, &[0x00]));
    assert!(verify_caching_sha2_fast("", &salt, &[0x00, 0x00]));
}

#[test]
fn roundtrip() {
    let salt = [
        0x1a, 0x2b, 0x3c, 0x4d, 0x5e, 0x6f, 0x70, 0x81, 0x92, 0xa3, 0xb4, 0xc5, 0xd6, 0xe7, 0xf8,
        0x09, 0x1a, 0x2b, 0x3c, 0x4d,
    ];
    let response = caching_sha2_fast_scramble("mysql", &salt);
    assert!(verify_caching_sha2_fast("mysql", &salt, &response));
    assert!(!verify_caching_sha2_fast("wrong", &salt, &response));
}

#[test]
fn caching_sha2_scramble_known_answer() {
    let salt = [
        0x1a, 0x2b, 0x3c, 0x4d, 0x5e, 0x6f, 0x70, 0x81, 0x92, 0xa3, 0xb4, 0xc5, 0xd6, 0xe7, 0xf8,
        0x09, 0x1a, 0x2b, 0x3c, 0x4d,
    ];
    let expected: [u8; 32] = [
        43, 55, 56, 137, 204, 226, 252, 44, 40, 151, 132, 182, 94, 133, 15, 19, 66, 59, 26, 41, 25,
        24, 160, 110, 235, 125, 19, 169, 74, 181, 208, 69,
    ];
    assert_eq!(caching_sha2_fast_scramble("mysql", &salt), expected);
}

#[test]
fn fallback_accepts_native_when_plugin_omitted() {
    let scramble = [7u8; 20];
    let response = native_password_scramble("pw", &scramble);
    assert!(verify_auth_with_fallback("pw", &scramble, &response, None));
}

#[test]
fn fallback_ignores_declared_unknown_plugin() {
    let scramble = [7u8; 20];
    let response = caching_sha2_fast_scramble("pw", &scramble);
    assert!(verify_auth_with_fallback("pw", &scramble, &response, Some("other_plugin")));
    assert!(verify_auth_with_fallback("pw", &scramble, &response, Some(AUTH_PLUGIN_NATIVE)));
    assert!(!verify_auth_with_fallback("pw", &scramble, &[1, 2, 3], Some(AUTH_PLUGIN_NATIVE)));
}

#[test]
fn verify_auth_response_by_plugin() {
    let scramble = [3u8; 20];
    let native = native_password_scramble("pw", &scramble);
    assert!(verify_auth_response("pw", &scramble, &native, AUTH_PLUGIN_NATIVE));
    assert!(!verify_auth_response("pw", &scramble, &native, AUTH_PLUGIN_CACHING_SHA2));
    assert!(!verify_auth_response("pw", &scramble, &native, "sha256_password"));
}

#[test]
fn empty_password_empty_response() {
    let scramble = [1u8; 20];
    assert!(verify_native_password("", &scramble, &[]));
    assert!(!verify_native_password("secret", &scramble, &[]));
}

#[test]
fn roundtrip_scramble() {
    let scramble = [
        0x4a, 0x2b, 0x11, 0x3c, 0x5d, 0x6e, 0x7f, 0x80, 0x91, 0xa2, 0xb3, 0xc4, 0xd5, 0xe6, 0xf7,
        0x08, 0x19, 0x2a, 0x3b, 0x4c,
    ];
    let response = native_password_scramble("hunter2", &scramble);
    assert!(verify_native_password("hunter2", &scramble, &response));
    assert!(!verify_native_password("wrong", &scramble, &response));
}

#[test]
fn native_scramble_known_answer() {
    let scramble = [
        0x4a, 0x2b, 0x11, 0x3c, 0x5d, 0x6e, 0x7f, 0x80, 0x91, 0xa2, 0xb3, 0xc4, 0xd5, 0xe6, 0xf7,
        0x08, 0x19, 0x2a, 0x3b, 0x4c,
    ];
    let expected: [u8; 20] = [
        47, 112, 62, 6, 5, 169, 122, 156, 24, 66, 106, 168, 64, 237, 192, 174, 229, 15, 115, 227,
    ];
    assert_eq!(native_password_scramble("hunter2", &scramble), expected);
}

#[test]
fn empty_password_auth_detection() {
    assert!(is_empty_password_auth(&[]));
    assert!(is_empty_password_auth(&[0, 0, 0]));
    assert!(!is_empty_password_auth(&[0, 1]));
}

#[test]
fn auth_more_data_packets() {
    assert_eq!(auth_more_data_fast_auth_ok(), vec![0x01, 0x03]);
    assert_eq!(auth_more_data_full_auth_required(), vec![0x01, 0x04]);
    assert_eq!(auth_more_data_public_key(b"PEM"), vec![0x01, b'P', b'E', b'M']);
    assert!(is_public_key_request(&[0x02]));
    assert!(!is_public_key_request(&[0x02, 0x00]));
    assert!(!is_public_key_request(&[]));
}

#[test]
fn scramble_and_descramble_password() {
    let scramble = [9u8; 20];
    let scrambled = scramble_password("secret", &scramble);
    assert_eq!(scrambled.len(), 7);
    assert_eq!(scrambled[0], b's' ^ 9);
    assert_eq!(scrambled[6], 9);
    assert_eq!(descramble_password(&scrambled, &scramble), "secret");
}

#[test]
fn rsa_password_roundtrip() {
    let keys = CachingSha2RsaKeys::generate().unwrap();
    let scramble = [9u8; 20];
    let pem = keys.public_key_pem();
    let encrypted = encrypt_password_rsa(&pem, "secret", &scramble).unwrap();
    let decrypted = keys.decrypt_password(&encrypted, &scramble).unwrap();
    assert_eq!(decrypted, "secret");
}

#[test]
fn rsa_keys_pem_and_bad_ciphertext() {
    let keys = CachingSha2RsaKeys::generate().unwrap();
    let pem = String::from_utf8(keys.public_key_pem()).unwrap();
    assert!(pem.starts_with("-----BEGIN PUBLIC KEY-----"));
    assert_eq!(keys.public_key_pem(), pem.as_bytes());
    let scramble = [3u8; 20];
    assert!(keys.decrypt_password(b"not a ciphertext", &scramble).is_err());
    let encrypted = encrypt_password_rsa(pem.as_bytes(), "pw", &scramble).unwrap();
    assert_eq!(keys.decrypt_password(&encrypted, &scramble).unwrap(), "pw");
}

#[test]
fn rsa_rejects_malformed_pem() {
    let scramble = [9u8; 20];
    assert!(encrypt_password_rsa(&[0xFF, 0xFE], "secret", &scramble).is_err());
    assert!(encrypt_password_rsa(b"not a key", "secret", &scramble).is_err());
}

#[test]
fn sql_type_mapping() {
    assert_eq!(mysql_type_from_sql_type("INT"), MYSQL_TYPE_LONG);
    assert_eq!(mysql_type_from_sql_type("VARCHAR(32)"), MYSQL_TYPE_VAR_STRING);
    assert_eq!(mysql_type_for_result_column("1"), MYSQL_TYPE_LONGLONG);
}

#[test]
fn binary_row_int_roundtrip() {
    let types = [MYSQL_TYPE_LONG, MYSQL_TYPE_VAR_STRING];
    let values: Vec<String> = vec!["42".into(), "hi".into()];
    let row = binary_resultset_row(&types, &values).unwrap();
    let decoded = decode_binary_resultset_row(&types, &row).unwrap();
    assert_eq!(decoded, values);
}

#[test]
fn binary_row_null_int() {
    let types = [MYSQL_TYPE_LONG];
    let values = vec![String::new()];
    let row = binary_resultset_row(&types, &values).unwrap();
    let decoded = decode_binary_resultset_row(&types, &row).unwrap();
    assert_eq!(decoded, values);
}

#[test]
fn binary_value_of_float_column_is_not_encoded() {
    assert!(encode_binary_value(MYSQL_TYPE_DOUBLE, "1.5").is_none());
    assert_eq!(encode_binary_value(MYSQL_TYPE_LONG, "7"), Some(vec![7, 0, 0, 0]));
}

#[test]
fn roundtrip_resultset() {
    let packets = text_resultset(&["id".into(), "name".into()], &[vec!["1".into(), "alice".into()]]);
    let first = classify_query_payload(&packets[0]).unwrap();
    let QueryResponse::Rows { columns, rows } = first else {
        panic!("expected partial rows state");
    };
    assert_eq!(columns.len(), 0);
    assert!(rows.is_empty());

    let col0 = column_name_from_definition(&packets[1]).unwrap();
    let col1 = column_name_from_definition(&packets[2]).unwrap();
    assert_eq!(col0, "id");
    assert_eq!(col1, "name");

    let row = decode_text_row(&packets[3]).unwrap();
    assert_eq!(row, vec!["1", "alice"]);
    assert_eq!(packets[4][0], 0xFE);
    assert_eq!(packets.len(), 5);
}

#[test]
fn classify_ok_and_err_payloads() {
    let ok = ok_packet_full(3, 9);
    assert_eq!(classify_query_payload(&ok).unwrap(), QueryResponse::OkPacket { affected_rows: 3 });
    let err = encode_err_payload(1045, "denied");
    assert_eq!(
        classify_query_payload(&err).unwrap(),
        QueryResponse::ErrPacket { code: 1045, message: "#HY000denied".into() }
    );
}

#[test]
fn parse_com_query_legacy() {
    let mut p = vec![COM_QUERY];
    p.extend_from_slice(b"SELECT 1");
    let cmd = parse_command(&p, LEGACY_CAPS).unwrap();
    assert_eq!(cmd, ClientCommand::Query("SELECT 1".into()));
}

#[test]
fn parse_com_query_with_empty_attributes() {
    let p = encode_com_query_with_attributes("UPDATE t SET id = 2 WHERE id = 1");
    let cmd = parse_command(&p, MYSQL_CLI_CAPS).unwrap();
    assert_eq!(cmd, ClientCommand::Query("UPDATE t SET id = 2 WHERE id = 1".into()));
}

#[test]
fn parse_com_query_attributes_not_negotiated_leaves_sql_unchanged() {
    let p = encode_com_query_with_attributes("SELECT 1");
    let cmd = parse_command(&p, LEGACY_CAPS).unwrap();
    assert_eq!(cmd, ClientCommand::Query("\0\x01SELECT 1".into()));
}

#[test]
fn parse_com_query_attributes_only_param_count_byte() {
    let mut p = vec![COM_QUERY, 0x00];
    p.extend_from_slice(b"INSERT INTO t VALUES (1)");
    let cmd = parse_command(&p, MYSQL_CLI_CAPS).unwrap();
    assert_eq!(cmd, ClientCommand::Query("INSERT INTO t VALUES (1)".into()));
}

#[test]
fn parse_com_query_plain_sql_when_attrs_negotiated() {
    let mut p = vec![COM_QUERY];
    p.extend_from_slice(b"SELECT 1");
    let caps = MYSQL_CLI_CAPS | CLIENT_DEPRECATE_EOF | CLIENT_SESSION_TRACK;
    let cmd = parse_command(&p, caps).unwrap();
    assert_eq!(cmd, ClientCommand::Query("SELECT 1".into()));
}

#[test]
fn parse_com_query_wl12542_example_with_one_attribute() {
    let mut body = vec![0x01, 0x01, 0x00, 0x01, 0xFE, 0x00, 0x01, b'a', 0x01, b'1'];
    body.extend_from_slice(b"select @@version_comment limit 1");
    let mut p = vec![COM_QUERY];
    p.extend_from_slice(&body);
    let cmd = parse_command(&p, MYSQL_CLI_CAPS).unwrap();
    assert_eq!(cmd, ClientCommand::Query("select @@version_comment limit 1".into()));
}

#[test]
fn parse_command_edge_cases() {
    assert!(matches!(parse_command(&[], LEGACY_CAPS), Err(ProtocolError::InvalidPacket)));
    assert_eq!(parse_command(&[0x01], LEGACY_CAPS).unwrap(), ClientCommand::Quit);
    assert_eq!(parse_command(&[0x7F], LEGACY_CAPS).unwrap(), ClientCommand::Unknown(0x7F));
}

#[test]
fn initial_handshake_roundtrip_caching_sha2() {
    let hs = InitialHandshake {
        connection_id: 42,
        scramble: make_scramble(42),
        server_version: "8.0.33-rusql".into(),
        auth_plugin_name: AUTH_PLUGIN_CACHING_SHA2.into(),
    };
    let encoded = hs.encode_payload();
    let decoded = InitialHandshake::decode_payload(&encoded).unwrap();
    assert_eq!(decoded.connection_id, 42);
    assert_eq!(decoded.auth_plugin_name, AUTH_PLUGIN_CACHING_SHA2);
}

#[test]
fn initial_handshake_roundtrip_native() {
    let hs = InitialHandshake {
        connection_id: 42,
        scramble: make_scramble(42),
        server_version: "8.0.33-rusql".into(),
        auth_plugin_name: AUTH_PLUGIN_NATIVE.into(),
    };
    let encoded = hs.encode_payload();
    let decoded = InitialHandshake::decode_payload(&encoded).unwrap();
    assert_eq!(decoded.auth_plugin_name, AUTH_PLUGIN_NATIVE);
}

#[test]
fn initial_handshake_roundtrip_keeps_every_field() {
    let hs = InitialHandshake {
        connection_id: 0x0102_0304,
        scramble: make_scramble(7),
        server_version: "8.0.33-rusql".into(),
        auth_plugin_name: AUTH_PLUGIN_NATIVE.into(),
    };
    let decoded = InitialHandshake::decode_payload(&hs.encode_payload()).unwrap();
    assert_eq!(decoded, hs);
}

#[test]
fn initial_handshake_rejects_other_protocols() {
    assert!(matches!(InitialHandshake::decode_payload(&[9, 0]), Err(ProtocolError::HandshakeFailed)));
    assert!(matches!(InitialHandshake::decode_payload(&[10, b'x', 0]), Err(ProtocolError::InvalidPacket)));
}

#[test]
fn handshake_response_roundtrip() {
    let resp = HandshakeResponse {
        capabilities: SERVER_CAPABILITIES,
        username: "root".into(),
        auth_response: vec![0],
        database: None,
        auth_plugin: Some(AUTH_PLUGIN_NATIVE.into()),
        connect_attributes: vec![],
    };
    let encoded = resp.encode_payload();
    let decoded = HandshakeResponse::decode_payload(&encoded).unwrap();
    assert_eq!(decoded.username, "root");
}

#[test]
fn handshake_response_with_database_and_attributes() {
    let caps = CLIENT_PROTOCOL_41
        | CLIENT_PLUGIN_AUTH
        | CLIENT_SECURE_CONNECTION
        | CLIENT_PLUGIN_AUTH_LENENC
        | 0x0000_0008
        | 0x0010_0000;
    let resp = HandshakeResponse {
        capabilities: caps,
        username: "app".into(),
        auth_response: vec![1, 2, 3],
        database: Some("shop".into()),
        auth_plugin: Some(AUTH_PLUGIN_CACHING_SHA2.into()),
        connect_attributes: vec![("_os".into(), "linux".into()), ("program_name".into(), "mysql".into())],
    };
    let decoded = HandshakeResponse::decode_payload(&resp.encode_payload()).unwrap();
    assert_eq!(decoded, resp);
}

#[test]
fn handshake_response_too_short_is_invalid() {
    assert!(matches!(HandshakeResponse::decode_payload(&[0u8; 10]), Err(ProtocolError::InvalidPacket)));
}

#[test]
fn handshake_ok_packet_starts_with_zero() {
    let ok = encode_ok_payload();
    assert_eq!(ok[0], 0x00);
}

#[test]
fn handshake_ok_has_no_empty_session_track_trailer() {
    let caps = CLIENT_SESSION_TRACK | SERVER_CAPABILITIES;
    let ok = encode_ok_for_client(caps);
    assert_eq!(ok.len(), 7, "OK packet bytes: {:02x?}", ok);
}

#[test]
fn handshake_config_default_and_keys() {
    let mut config = HandshakeConfig::default();
    assert_eq!(config.server_version, "8.0.33-rusql");
    assert_eq!(config.auth_plugin, AUTH_PLUGIN_CACHING_SHA2);
    config.ensure_caching_sha2_rsa();
    assert!(config.caching_sha2_rsa.is_none());
}

#[test]
fn err_payload_layout() {
    let p = encode_err_payload(1045, "no");
    assert_eq!(p, vec![0xFF, 0x15, 0x04, b'#', b'H', b'Y', b'0', b'0', b'0', b'n', b'o']);
}

#[test]
fn packet_roundtrip() {
    let payload = b"hello";
    let encoded = PacketWriter::encode(0, payload);
    let (seq, decoded) = Packet::decode(&encoded).unwrap();
    assert_eq!(seq, 0);
    assert_eq!(decoded, payload);
}

#[test]
fn packet_decode_rejects_truncated() {
    assert!(matches!(Packet::decode(&[5, 0, 0]), Err(ProtocolError::InvalidLength(3))));
    assert!(matches!(Packet::decode(&[5, 0, 0, 1, 1]), Err(ProtocolError::InvalidLength(5))));
}

#[test]
fn reader_incremental() {
    let encoded = PacketWriter::encode(1, b"ping");
    let mut reader = PacketReader::new();
    reader.push(&encoded[..2]);
    assert!(reader.next_packet().unwrap().is_none());
    reader.push(&encoded[2..]);
    let pkt = reader.next_packet().unwrap().unwrap();
    assert_eq!(pkt.sequence, 1);
    assert_eq!(pkt.payload, b"ping");
}

#[test]
fn response_ok_packet_starts_with_zero() {
    assert_eq!(ok_packet_full(0, 0)[0], 0x00);
}

#[test]
fn resultset_structure() {
    let packets = text_resultset(&["id".into()], &[vec!["1".into()]]);
    assert_eq!(packets.len(), 4);
    assert_eq!(packets[0][0], 1);
    assert_eq!(packets.last().unwrap()[0], EOF_MARKER);
}

#[test]
fn binary_resultset_structure() {
    let packets = binary_resultset(&["id".into()], &[MYSQL_TYPE_LONG], &[vec!["1".into()]]).unwrap();
    assert_eq!(packets.len(), 4);
    assert_eq!(packets[2][0], 0x00);
    assert_eq!(packets.last().unwrap()[0], EOF_MARKER);
}

#[test]
fn prepare_ok_layout() {
    let p = stmt_prepare_ok(7, 2, 1);
    assert_eq!(p[0], 0);
    assert_eq!(u32::from_le_bytes(p[1..5].try_into().unwrap()), 7);
}

#[test]
fn execute_roundtrip() {
    let payload = encode_stmt_execute(1, &[Some("42".into()), None]);
    let params = parse_stmt_execute(&payload, 2).unwrap();
    assert_eq!(params[0], Some("42".into()));
    assert_eq!(params[1], None);
}

#[test]
fn stmt_execute_roundtrip_without_parameters() {
    let payload = encode_stmt_execute(7, &[]);
    assert_eq!(parse_stmt_execute(&payload, 0).unwrap(), Vec::<Option<String>>::new());
}

#[test]
fn panic_predicates_on_good_and_truncated_input() {
    // A VAR_STRING cell whose length header (0xFE, eight more bytes) is cut short.
    assert!(binary_row_panics(&[MYSQL_TYPE_VAR_STRING], &[0x00, 0x00, 0xFE, 0x01]));
    assert!(!binary_row_panics(&[MYSQL_TYPE_VAR_STRING], &[0x00, 0x00, 0x02, b'h', b'i']));
    let payload = encode_stmt_execute(1, &[Some("42".into()), None]);
    assert!(!stmt_execute_panics_check(&payload, 2));
    assert!(!stmt_execute_panics_check(&[0x03], 1));
}
