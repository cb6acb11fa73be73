//! Authentication plugins of the MySQL wire protocol: `mysql_native_password` and
//! `caching_sha2_password` (fast path and RSA full-auth path).
use rsa::pkcs8::{DecodePrivateKey, DecodePublicKey, EncodePrivateKey, EncodePublicKey, LineEnding};
use rsa::{Oaep, RsaPrivateKey, RsaPublicKey};
use sha1::{Digest, Sha1};
use sha2::Sha256;
use vstd::prelude::*;
use vstd::utf8::{decode_utf8, encode_utf8, valid_utf8};
use crate::handshake::nul_index;
use crate::text::{lemma_encode_no_zero, no_nul, spec_utf8_lossy, str_eq, utf8_decode, utf8_decode_lossy};

verus! {

pub const AUTH_PLUGIN_NATIVE: &'static str = "mysql_native_password";

pub const AUTH_PLUGIN_CACHING_SHA2: &'static str = "caching_sha2_password";

pub const AUTH_MORE_DATA_TAG: u8 = 0x01;

pub const CACHING_SHA2_FAST_AUTH_OK: u8 = 0x03;

pub const CACHING_SHA2_FULL_AUTH: u8 = 0x04;

pub const CACHING_SHA2_PUBLIC_KEY_REQUEST: u8 = 0x02;

/// The SHA-1 digest of `data`.
pub uninterp spec fn sha1_of(data: Seq<u8>) -> Seq<u8>;

/// The SHA-256 digest of `data`.
pub uninterp spec fn sha256_of(data: Seq<u8>) -> Seq<u8>;

/// `sha1::Sha1::digest`: the 20-byte SHA-1 digest of `data`, a function of `data` alone.
#[verifier::external_body]
fn sha1_digest(data: &[u8]) -> (r: [u8; 20])
    ensures
        r@ == sha1_of(data@),
{
    let hash = Sha1::digest(data);
    let mut out = [0u8; 20];
    out.copy_from_slice(&hash);
    out
}

/// `sha2::Sha256::digest`: the 32-byte SHA-256 digest of `data`, a function of `data` alone.
#[verifier::external_body]
fn sha256_digest(data: &[u8]) -> (r: [u8; 32])
    ensures
        r@ == sha256_of(data@),
{
    let hash = Sha256::digest(data);
    let mut out = [0u8; 32];
    out.copy_from_slice(&hash);
    out
}

/// Byte-wise XOR of the first `n` bytes of `a` and `b`.
pub open spec fn xor_prefix(a: Seq<u8>, b: Seq<u8>, n: nat) -> Seq<u8> {
    Seq::new(n, |i: int| a[i] ^ b[i])
}

/// `mysql_native_password` response: `SHA1(pw) XOR SHA1(scramble ++ SHA1(SHA1(pw)))`.
pub open spec fn native_scramble_spec(password: Seq<char>, scramble: Seq<u8>) -> Seq<u8> {
    let stage1 = sha1_of(encode_utf8(password));
    let stage2 = sha1_of(stage1);
    xor_prefix(stage1, sha1_of(scramble + stage2), 20)
}

/// `caching_sha2_password` fast-auth response:
/// `SHA256(pw) XOR SHA256(salt ++ SHA256(SHA256(pw)))`.
pub open spec fn caching_sha2_spec(password: Seq<char>, salt: Seq<u8>) -> Seq<u8> {
    let stage1 = sha256_of(encode_utf8(password));
    let stage2 = sha256_of(stage1);
    xor_prefix(stage1, sha256_of(salt + stage2), 32)
}

fn xor_arrays20(a: &[u8; 20], b: &[u8; 20]) -> (r: [u8; 20])
    ensures
        r@ == xor_prefix(a@, b@, 20),
{
    let mut out = [0u8; 20];
    let mut i: usize = 0;
    while i < 20
        invariant
            i <= 20,
            forall|j: int| 0 <= j < i ==> out@[j] == a@[j] ^ b@[j],
        decreases 20 - i,
    {
        out[i] = a[i] ^ b[i];
        i = i + 1;
    }
    proof {
        assert(out@ =~= xor_prefix(a@, b@, 20));
    }
    out
}

fn xor_arrays32(a: &[u8; 32], b: &[u8; 32]) -> (r: [u8; 32])
    ensures
        r@ == xor_prefix(a@, b@, 32),
{
    let mut out = [0u8; 32];
    let mut i: usize = 0;
    while i < 32
        invariant
            i <= 32,
            forall|j: int| 0 <= j < i ==> out@[j] == a@[j] ^ b@[j],
        decreases 32 - i,
    {
        out[i] = a[i] ^ b[i];
        i = i + 1;
    }
    proof {
        assert(out@ =~= xor_prefix(a@, b@, 32));
    }
    out
}

/// The 20-byte `mysql_native_password` response expected from the client.
pub fn native_password_scramble(password: &str, scramble: &[u8; 20]) -> (r: [u8; 20])
    ensures
        r@ == native_scramble_spec(password@, scramble@),
{
    let stage1 = sha1_digest(password.as_bytes());
    let stage2 = sha1_digest(&stage1);
    let mut input: Vec<u8> = Vec::new();
    let mut i: usize = 0;
    while i < 20
        invariant
            i <= 20,
            input@ == scramble@.take(i as int),
        decreases 20 - i,
    {
        input.push(scramble[i]);
        i = i + 1;
        proof {
            assert(input@ =~= scramble@.take(i as int));
        }
    }
    let mut j: usize = 0;
    while j < 20
        invariant
            j <= 20,
            input@ == scramble@ + stage2@.take(j as int),
        decreases 20 - j,
    {
        input.push(stage2[j]);
        j = j + 1;
        proof {
            assert(input@ =~= scramble@ + stage2@.take(j as int));
        }
    }
    proof {
        assert(scramble@.take(20) =~= scramble@);
        assert(stage2@.take(20) =~= stage2@);
    }
    let stage3 = sha1_digest(input.as_slice());
    xor_arrays20(&stage1, &stage3)
}

/// Whether `auth_response` proves knowledge of `password` under `mysql_native_password`: an
/// empty password takes exactly an empty response, any other the 20-byte scramble.
pub open spec fn native_ok(password: Seq<char>, scramble: Seq<u8>, auth: Seq<u8>) -> bool {
    if password.len() == 0 {
        auth.len() == 0
    } else {
        auth == native_scramble_spec(password, scramble)
    }
}

/// Verifies a `mysql_native_password` response.
pub fn verify_native_password(password: &str, scramble: &[u8; 20], auth_response: &[u8]) -> (r:
    bool)
    ensures
        r == native_ok(password@, scramble@, auth_response@),
{
    if password.is_empty() {
        return auth_response.len() == 0;
    }
    if auth_response.len() != 20 {
        return false;
    }
    let expected = native_password_scramble(password, scramble);
    bytes_equal(auth_response, &expected)
}

/// Whether two byte strings are equal.
fn bytes_equal(a: &[u8], b: &[u8]) -> (r: bool)
    ensures
        r == (a@ == b@),
{
    if a.len() != b.len() {
        return false;
    }
    let mut i: usize = 0;
    while i < a.len()
        invariant
            i <= a@.len() == b@.len(),
            forall|j: int| 0 <= j < i ==> a@[j] == b@[j],
        decreases a@.len() - i,
    {
        if a[i] != b[i] {
            return false;
        }
        i = i + 1;
    }
    proof {
        assert(a@ =~= b@);
    }
    true
}

/// The 32-byte `caching_sha2_password` fast-auth response.
pub fn caching_sha2_fast_scramble(password: &str, salt: &[u8; 20]) -> (r: [u8; 32])
    ensures
        r@ == caching_sha2_spec(password@, salt@),
{
    let stage1 = sha256_digest(password.as_bytes());
    let stage2 = sha256_digest(&stage1);
    let mut message: Vec<u8> = Vec::new();
    let mut i: usize = 0;
    while i < 20
        invariant
            i <= 20,
            message@ == salt@.take(i as int),
        decreases 20 - i,
    {
        message.push(salt[i]);
        i = i + 1;
        proof {
            assert(message@ =~= salt@.take(i as int));
        }
    }
    let mut j: usize = 0;
    while j < 32
        invariant
            j <= 32,
            message@ == salt@ + stage2@.take(j as int),
        decreases 32 - j,
    {
        message.push(stage2[j]);
        j = j + 1;
        proof {
            assert(message@ =~= salt@ + stage2@.take(j as int));
        }
    }
    proof {
        assert(salt@.take(20) =~= salt@);
        assert(stage2@.take(32) =~= stage2@);
    }
    let scramble = sha256_digest(message.as_slice());
    xor_arrays32(&stage1, &scramble)
}

/// No password: an empty response or one of zero bytes only.
pub open spec fn all_zero(auth: Seq<u8>) -> bool {
    forall|i: int| 0 <= i < auth.len() ==> auth[i] == 0
}

/// True when the client sent no password (empty, or all zero bytes as libmysql sends `[0x00]`).
pub fn is_empty_password_auth(auth_response: &[u8]) -> (r: bool)
    ensures
        r == all_zero(auth_response@),
{
    let mut i: usize = 0;
    while i < auth_response.len()
        invariant
            i <= auth_response@.len(),
            forall|j: int| 0 <= j < i ==> auth_response@[j] == 0,
        decreases auth_response@.len() - i,
    {
        if auth_response[i] != 0 {
            return false;
        }
        i = i + 1;
    }
    true
}

/// Whether `auth_response` passes the `caching_sha2_password` fast path: an empty password
/// takes a response of zero bytes, any other the 32-byte scramble.
pub open spec fn caching_sha2_ok(password: Seq<char>, salt: Seq<u8>, auth: Seq<u8>) -> bool {
    if password.len() == 0 {
        all_zero(auth)
    } else {
        auth == caching_sha2_spec(password, salt)
    }
}

/// Verifies a `caching_sha2_password` fast-auth response (no server-side cache).
pub fn verify_caching_sha2_fast(password: &str, salt: &[u8; 20], auth_response: &[u8]) -> (r:
    bool)
    ensures
        r == caching_sha2_ok(password@, salt@, auth_response@),
{
    if password.is_empty() {
        return is_empty_password_auth(auth_response);
    }
    if auth_response.len() != 32 {
        return false;
    }
    let expected = caching_sha2_fast_scramble(password, salt);
    bytes_equal(auth_response, &expected)
}

/// Whether a response passes the named plugin; unknown plugins never pass.
pub open spec fn auth_ok(
    password: Seq<char>,
    scramble: Seq<u8>,
    auth: Seq<u8>,
    plugin: Seq<char>,
) -> bool {
    if plugin == AUTH_PLUGIN_CACHING_SHA2@ {
        caching_sha2_ok(password, scramble, auth)
    } else if plugin == AUTH_PLUGIN_NATIVE@ {
        native_ok(password, scramble, auth)
    } else {
        false
    }
}

proof fn lemma_plugin_names_differ()
    ensures
        AUTH_PLUGIN_NATIVE@ != AUTH_PLUGIN_CACHING_SHA2@,
{
    reveal_strlit("mysql_native_password");
    reveal_strlit("caching_sha2_password");
    assert(AUTH_PLUGIN_NATIVE@[0] != AUTH_PLUGIN_CACHING_SHA2@[0]);
}

/// Verifies a handshake auth response for a supported plugin.
pub fn verify_auth_response(
    password: &str,
    scramble: &[u8; 20],
    auth_response: &[u8],
    plugin: &str,
) -> (r: bool)
    ensures
        r == auth_ok(password@, scramble@, auth_response@, plugin@),
{
    if str_eq(plugin, AUTH_PLUGIN_CACHING_SHA2) {
        verify_caching_sha2_fast(password, scramble, auth_response)
    } else if str_eq(plugin, AUTH_PLUGIN_NATIVE) {
        verify_native_password(password, scramble, auth_response)
    } else {
        false
    }
}

/// Tries the client-declared plugin, then the other supported ones: the response passes when
/// it passes either supported plugin, whatever plugin the client named.
pub fn verify_auth_with_fallback(
    password: &str,
    scramble: &[u8; 20],
    auth_response: &[u8],
    plugin: Option<&str>,
) -> (r: bool)
    ensures
        r == (caching_sha2_ok(password@, scramble@, auth_response@) || native_ok(
            password@,
            scramble@,
            auth_response@,
        )),
{
    proof {
        lemma_plugin_names_differ();
    }
    let mut declared_caching = false;
    let mut declared_native = false;
    match plugin {
        Some(p) => {
            if verify_auth_response(password, scramble, auth_response, p) {
                return true;
            }
            declared_caching = str_eq(p, AUTH_PLUGIN_CACHING_SHA2);
            declared_native = str_eq(p, AUTH_PLUGIN_NATIVE);
        },
        None => {},
    }
    if !declared_caching && verify_auth_response(
        password,
        scramble,
        auth_response,
        AUTH_PLUGIN_CACHING_SHA2,
    ) {
        return true;
    }
    if !declared_native && verify_auth_response(
        password,
        scramble,
        auth_response,
        AUTH_PLUGIN_NATIVE,
    ) {
        return true;
    }
    false
}


/// AuthMoreData: fast authentication succeeded.
pub fn auth_more_data_fast_auth_ok() -> (r: Vec<u8>)
    ensures
        r@ == seq![AUTH_MORE_DATA_TAG, CACHING_SHA2_FAST_AUTH_OK],
{
    vec![AUTH_MORE_DATA_TAG, CACHING_SHA2_FAST_AUTH_OK]
}

/// AuthMoreData: full authentication required.
pub fn auth_more_data_full_auth_required() -> (r: Vec<u8>)
    ensures
        r@ == seq![AUTH_MORE_DATA_TAG, CACHING_SHA2_FULL_AUTH],
{
    vec![AUTH_MORE_DATA_TAG, CACHING_SHA2_FULL_AUTH]
}

/// AuthMoreData carrying the server's public key PEM.
pub fn auth_more_data_public_key(pem: &[u8]) -> (r: Vec<u8>)
    ensures
        r@ == seq![AUTH_MORE_DATA_TAG] + pem@,
{
    let mut p: Vec<u8> = Vec::new();
    p.push(AUTH_MORE_DATA_TAG);
    let mut i: usize = 0;
    while i < pem.len()
        invariant
            i <= pem@.len(),
            p@ == seq![AUTH_MORE_DATA_TAG] + pem@.take(i as int),
        decreases pem@.len() - i,
    {
        p.push(pem[i]);
        i = i + 1;
        proof {
            assert(p@ =~= seq![AUTH_MORE_DATA_TAG] + pem@.take(i as int));
        }
    }
    proof {
        assert(pem@.take(i as int) =~= pem@);
    }
    p
}

/// Whether the client asks for the server's public key (a single `0x02` byte).
pub fn is_public_key_request(payload: &[u8]) -> (r: bool)
    ensures
        r == (payload@ == seq![CACHING_SHA2_PUBLIC_KEY_REQUEST]),
{
    let ok = payload.len() == 1 && payload[0] == CACHING_SHA2_PUBLIC_KEY_REQUEST;
    proof {
        if ok {
            assert(payload@ =~= seq![CACHING_SHA2_PUBLIC_KEY_REQUEST]);
        }
    }
    ok
}

/// XOR of `data` with the scramble repeated.
pub open spec fn xor_cycle(data: Seq<u8>, scramble: Seq<u8>) -> Seq<u8> {
    Seq::new(data.len(), |i: int| data[i] ^ scramble[i % 20])
}

fn xor_cycle_vec(data: &[u8], scramble: &[u8; 20]) -> (r: Vec<u8>)
    ensures
        r@ == xor_cycle(data@, scramble@),
{
    let mut out: Vec<u8> = Vec::new();
    let mut i: usize = 0;
    while i < data.len()
        invariant
            i <= data@.len(),
            out@.len() == i,
            forall|j: int| 0 <= j < i ==> out@[j] == data@[j] ^ scramble@[j % 20],
        decreases data@.len() - i,
    {
        out.push(data[i] ^ scramble[i % 20]);
        i = i + 1;
    }
    proof {
        assert(out@ =~= xor_cycle(data@, scramble@));
    }
    out
}

/// The password's UTF-8 bytes and a terminating NUL, XORed with the scramble repeated.
pub fn scramble_password(password: &str, scramble: &[u8; 20]) -> (r: Vec<u8>)
    ensures
        r@ == xor_cycle(encode_utf8(password@) + seq![0u8], scramble@),
{
    let mut buf: Vec<u8> = Vec::new();
    let bytes = password.as_bytes();
    let mut i: usize = 0;
    while i < bytes.len()
        invariant
            i <= bytes@.len(),
            buf@ == bytes@.take(i as int),
        decreases bytes@.len() - i,
    {
        buf.push(bytes[i]);
        i = i + 1;
        proof {
            assert(buf@ =~= bytes@.take(i as int));
        }
    }
    buf.push(0);
    proof {
        assert(bytes@.take(i as int) =~= bytes@);
    }
    xor_cycle_vec(buf.as_slice(), scramble)
}

/// The bytes before the first NUL (all of them when there is none).
pub open spec fn before_nul(s: Seq<u8>) -> Seq<u8> {
    match nul_index(s, 0) {
        Some(k) => s.take(k),
        None => s,
    }
}

/// Undoing the scramble: the text before the first NUL of the unscrambled bytes (invalid UTF-8
/// replaced).
pub open spec fn descramble_spec(buf: Seq<u8>, scramble: Seq<u8>) -> Seq<char> {
    let t = before_nul(xor_cycle(buf, scramble));
    if valid_utf8(t) {
        decode_utf8(t)
    } else {
        spec_utf8_lossy(t)
    }
}

/// Recovers the password from scrambled bytes.
pub fn descramble_password(buf: &[u8], scramble: &[u8; 20]) -> (r: String)
    ensures
        r@ == descramble_spec(buf@, scramble@),
{
    let out = xor_cycle_vec(buf, scramble);
    let mut end: usize = 0;
    while end < out.len() && out[end] != 0
        invariant
            end <= out@.len(),
            nul_index(out@, 0) == nul_index(out@, end as int),
        decreases out@.len() - end,
    {
        end = end + 1;
    }
    proof {
        if end < out@.len() {
            assert(nul_index(out@, end as int) == Some(end as int));
        } else {
            assert(nul_index(out@, end as int) is None);
            assert(out@.take(end as int) =~= out@);
        }
    }
    utf8_decode_lossy(vstd::slice::slice_subrange(out.as_slice(), 0, end))
}

proof fn lemma_nul_after(s: Seq<u8>, pos: int)
    requires
        0 <= pos <= s.len(),
        forall|j: int| pos <= j < s.len() - 1 ==> s[j] != 0,
        s.len() > 0 && s[s.len() - 1] == 0,
        pos < s.len(),
    ensures
        nul_index(s, pos) == Some(s.len() - 1),
    decreases s.len() - pos,
{
    if pos < s.len() - 1 {
        lemma_nul_after(s, pos + 1);
    }
}

/// Unscrambling with the same scramble gives back any password without a NUL character.
pub proof fn lemma_scramble_roundtrip(password: Seq<char>, scramble: Seq<u8>)
    requires
        scramble.len() == 20,
        no_nul(password),
    ensures
        descramble_spec(xor_cycle(encode_utf8(password) + seq![0u8], scramble), scramble)
            == password,
{
    let b = encode_utf8(password) + seq![0u8];
    let x = xor_cycle(b, scramble);
    assert forall|i: int| 0 <= i < b.len() implies (#[trigger] xor_cycle(x, scramble)[i]) == b[i]
        by {
        let u = b[i];
        let k = scramble[i % 20];
        assert((u ^ k) ^ k == u) by (bit_vector);
    }
    assert(xor_cycle(x, scramble) =~= b);
    lemma_encode_no_zero(password);
    lemma_nul_after(b, 0);
    assert(b.take(b.len() - 1) =~= encode_utf8(password));
    vstd::utf8::encode_utf8_valid_utf8(password);
    vstd::utf8::encode_utf8_decode_utf8(password);
}

/// Declares `rsa::errors::Error`.
#[verifier::external_type_specification]
#[verifier::external_body]
pub struct ExRsaError(rsa::errors::Error);

/// What OAEP/SHA-1 decryption of `ciphertext` gives under the RSA private key whose PKCS#8
/// DER encoding is `key_der`: `None` when the bytes are no such key or the decryption fails.
/// A function of the two byte strings alone (decryption draws no random numbers).
pub uninterp spec fn rsa_plaintext_of(key_der: Seq<u8>, ciphertext: Seq<u8>) -> Option<Seq<u8>>;

/// The PEM (LF line endings) of the public half of the RSA private key whose PKCS#8 DER
/// encoding is `key_der`, as bytes: `None` when the bytes are no such key.
pub uninterp spec fn public_pem_of(key_der: Seq<u8>) -> Option<Seq<u8>>;

/// `rsa::RsaPrivateKey::new` with a thread-local random generator and 2048 bits, the key
/// handed back as its PKCS#8 DER bytes (`EncodePrivateKey::to_pkcs8_der`); or the generation
/// or encoding error. Nothing is promised of which key comes out.
#[verifier::external_body]
fn rsa_generate_private_key_der() -> (r: Result<Vec<u8>, rsa::errors::Error>) {
    let mut rng = rand::thread_rng();
    match RsaPrivateKey::new(&mut rng, 2048) {
        Ok(key) => match key.to_pkcs8_der() {
            Ok(doc) => Ok(doc.as_bytes().to_vec()),
            Err(e) => Err(rsa::errors::Error::Pkcs8(e)),
        },
        Err(e) => Err(e),
    }
}

/// `RsaPrivateKey::decrypt` with OAEP/SHA-1 padding, the key read from its PKCS#8 DER bytes
/// (`DecodePrivateKey::from_pkcs8_der`): the plaintext the name gives, or an error when it
/// gives none.
#[verifier::external_body]
fn rsa_decrypt(key_der: &[u8], ciphertext: &[u8]) -> (r: Result<Vec<u8>, rsa::errors::Error>)
    ensures
        match rsa_plaintext_of(key_der@, ciphertext@) {
            Some(p) => r matches Ok(v) && v@ == p,
            None => r is Err,
        },
{
    match RsaPrivateKey::from_pkcs8_der(key_der) {
        Ok(key) => key.decrypt(Oaep::new::<Sha1>(), ciphertext),
        Err(e) => Err(rsa::errors::Error::Pkcs8(e)),
    }
}

/// `to_public_key_pem` (LF line endings) of the public half of the key read from its PKCS#8
/// DER bytes, as bytes; `None` when the bytes are no key. The encoding of a valid key does not
/// fail (`expect`, as for the caller of the key).
#[verifier::external_body]
fn rsa_public_key_pem(key_der: &[u8]) -> (r: Option<Vec<u8>>)
    ensures
        match public_pem_of(key_der@) {
            Some(p) => r matches Some(v) && v@ == p,
            None => r is None,
        },
{
    match RsaPrivateKey::from_pkcs8_der(key_der) {
        Ok(key) => Some(key.to_public_key().to_public_key_pem(LineEnding::LF).expect("encode public key").into_bytes()),
        Err(_) => None,
    }
}

/// Whether `pem` is a PEM-encoded public key that `rsa::RsaPublicKey::from_public_key_pem`
/// accepts: a function of the text alone.
pub uninterp spec fn public_key_pem_parses(pem: Seq<char>) -> bool;

/// `RsaPublicKey::from_public_key_pem`, then `RsaPublicKey::encrypt` with OAEP/SHA-1 padding
/// and a thread-local random generator. An unreadable key gives the `KeyMalformed` error.
/// The ciphertext is random-padded and not described; what is stated is that the private key
/// whose public PEM is `pem` decrypts it back to `plain`.
#[verifier::external_body]
fn rsa_encrypt(pem: &str, plain: &[u8]) -> (r: Result<Vec<u8>, rsa::errors::Error>)
    ensures
        !public_key_pem_parses(pem@) ==> r is Err,
        r matches Ok(c) ==> forall|der: Seq<u8>|
            #[trigger] public_pem_of(der) == Some(encode_utf8(pem@)) ==> rsa_plaintext_of(der, c@)
                == Some(plain@),
{
    match RsaPublicKey::from_public_key_pem(pem) {
        Ok(key) => {
            let mut rng = rand::thread_rng();
            key.encrypt(&mut rng, Oaep::new::<Sha1>(), plain)
        },
        Err(_) => Err(rsa::errors::Error::Pkcs8(rsa::pkcs8::Error::KeyMalformed)),
    }
}

/// `rsa::errors::Error::Pkcs8(KeyMalformed)`, the error for an unreadable public key.
#[verifier::external_body]
fn rsa_key_malformed() -> (r: rsa::errors::Error) {
    rsa::errors::Error::Pkcs8(rsa::pkcs8::Error::KeyMalformed)
}

/// Server RSA key pair for `caching_sha2_password` full authentication: the private key as
/// its PKCS#8 DER bytes, with the PEM of its public half.
#[derive(Debug)]
pub struct CachingSha2RsaKeys {
    private_der: Vec<u8>,
    public_pem: Vec<u8>,
}

impl CachingSha2RsaKeys {
    /// The kept PEM is that of the key's public half.
    #[verifier::type_invariant]
    spec fn pem_matches(self) -> bool {
        public_pem_of(self.private_der@) == Some(self.public_pem@)
    }

    /// The private key, as its PKCS#8 DER bytes.
    pub closed spec fn key(&self) -> Seq<u8> {
        self.private_der@
    }

    /// Generates a fresh 2048-bit key pair; its public PEM is computed once here.
    pub fn generate() -> (r: Result<Self, rsa::errors::Error>)
        ensures
            r matches Ok(k) ==> public_pem_of(k.key()) is Some,
    {
        let der = match rsa_generate_private_key_der() {
            Ok(d) => d,
            Err(e) => {
                return Err(e);
            },
        };
        match rsa_public_key_pem(der.as_slice()) {
            Some(pem) => Ok(CachingSha2RsaKeys { private_der: der, public_pem: pem }),
            None => Err(rsa_key_malformed()),
        }
    }

    /// The public key as PEM bytes.
    pub fn public_key_pem(&self) -> (r: Vec<u8>)
        ensures
            public_pem_of(self.key()) == Some(r@),
    {
        proof {
            use_type_invariant(self);
        }
        let mut out: Vec<u8> = Vec::new();
        let mut i: usize = 0;
        while i < self.public_pem.len()
            invariant
                i <= self.public_pem@.len(),
                out@ == self.public_pem@.take(i as int),
            decreases self.public_pem@.len() - i,
        {
            out.push(self.public_pem[i]);
            i = i + 1;
            proof {
                assert(out@ =~= self.public_pem@.take(i as int));
            }
        }
        proof {
            assert(self.public_pem@.take(i as int) =~= self.public_pem@);
        }
        out
    }

    /// Decrypts a client's encrypted password and undoes its scramble: the unscrambled text of
    /// the plaintext, or the decryption error.
    pub fn decrypt_password(&self, ciphertext: &[u8], scramble: &[u8; 20]) -> (r: Result<
        String,
        rsa::errors::Error,
    >)
        ensures
            match rsa_plaintext_of(self.key(), ciphertext@) {
                Some(p) => r matches Ok(s) && s@ == descramble_spec(p, scramble@),
                None => r is Err,
            },
    {
        match rsa_decrypt(self.private_der.as_slice(), ciphertext) {
            Ok(plain) => Ok(descramble_password(plain.as_slice(), scramble)),
            Err(e) => Err(e),
        }
    }
}

/// The scrambled password the client encrypts: its UTF-8 bytes and a NUL, each XOR-ed with
/// the scramble.
pub open spec fn scrambled_spec(password: Seq<char>, scramble: Seq<u8>) -> Seq<u8> {
    xor_cycle(encode_utf8(password) + seq![0u8], scramble)
}

/// Encrypts the scrambled password with the server public key (client side): an error when
/// the PEM is not UTF-8 or not a public key; else what the encryption gives (random padding,
/// or its error). What it gives decrypts, under the private key whose public PEM this is, to
/// the scrambled password.
pub fn encrypt_password_rsa(public_key_pem: &[u8], password: &str, scramble: &[u8; 20]) -> (r:
    Result<Vec<u8>, rsa::errors::Error>)
    ensures
        !valid_utf8(public_key_pem@) ==> r is Err,
        valid_utf8(public_key_pem@) && !public_key_pem_parses(decode_utf8(public_key_pem@))
            ==> r is Err,
        r matches Ok(c) ==> forall|der: Seq<u8>|
            #[trigger] public_pem_of(der) == Some(public_key_pem@) ==> rsa_plaintext_of(der, c@)
                == Some(scrambled_spec(password@, scramble@)),
{
    let pem_str = match utf8_decode(public_key_pem) {
        Some(s) => s,
        None => {
            return Err(rsa_key_malformed());
        },
    };
    proof {
        vstd::utf8::decode_utf8_encode_utf8(public_key_pem@);
    }
    let plain = scramble_password(password, scramble);
    rsa_encrypt(pem_str.as_str(), plain.as_slice())
}

/// Decrypting, with the matching private key, what `encrypt_password_rsa` gave for a password
/// without a NUL character gives the password back.
pub proof fn lemma_rsa_password_roundtrip(
    der: Seq<u8>,
    pem: Seq<u8>,
    password: Seq<char>,
    scramble: Seq<u8>,
    ciphertext: Seq<u8>,
)
    requires
        scramble.len() == 20,
        no_nul(password),
        public_pem_of(der) == Some(pem),
        forall|d: Seq<u8>|
            #[trigger] public_pem_of(d) == Some(pem) ==> rsa_plaintext_of(d, ciphertext)
                == Some(scrambled_spec(password, scramble)),
    ensures
        rsa_plaintext_of(der, ciphertext) matches Some(p) && descramble_spec(p, scramble) == password,
{
    assert(public_pem_of(der) == Some(pem));
    lemma_scramble_roundtrip(password, scramble);
}

} // verus!
