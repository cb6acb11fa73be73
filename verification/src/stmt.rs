//! Prepared-statement wire packets (`COM_STMT_*`).
use vstd::prelude::*;
use vstd::utf8::{decode_utf8, encode_utf8, valid_utf8};
use crate::binary::{
    bitmap_bits, bitmap_len, bit_of, bits_cap, null_bit, signed_decimal_le8, MYSQL_TYPE_LONGLONG,
    MYSQL_TYPE_STRING, MYSQL_TYPE_VAR_STRING,
};
use crate::error::ProtocolError;
use crate::lenenc::{
    from_le2, le2, le4, lenenc_at, lenenc_bytes, parse_lenenc, push_le2, push_le4,
    write_lenenc_str,
};
use crate::response::{bytes_of, column_definition_spec, eof_payload};
use crate::text::{i64_to_string, string_from_chars, utf8_decode};

verus! {

pub const COM_STMT_PREPARE: u8 = 0x16;
pub const COM_STMT_EXECUTE: u8 = 0x17;
pub const COM_STMT_CLOSE: u8 = 0x19;

/// `COM_STMT_PREPARE_OK`: status, statement id, column and parameter counts, filler, warnings.
pub open spec fn prepare_ok_spec(stmt_id: u32, num_columns: u16, num_params: u16) -> Seq<u8> {
    seq![0x00u8] + le4(stmt_id) + le2(num_columns) + le2(num_params) + seq![0u8] + le2(0)
}

/// `COM_STMT_PREPARE_OK` payload.
pub fn stmt_prepare_ok(stmt_id: u32, num_columns: u16, num_params: u16) -> (r: Vec<u8>)
    ensures
        r@ == prepare_ok_spec(stmt_id, num_columns, num_params),
{
    let mut p: Vec<u8> = Vec::new();
    p.push(0x00);
    push_le4(&mut p, stmt_id);
    push_le2(&mut p, num_columns);
    push_le2(&mut p, num_params);
    p.push(0);
    push_le2(&mut p, 0);
    proof {
        assert(p@ =~= prepare_ok_spec(stmt_id, num_columns, num_params));
    }
    p
}

/// Column definition packet for prepared-statement metadata (wire type `VAR_STRING`).
pub fn stmt_field_definition(name: &str) -> (r: Vec<u8>)
    ensures
        r@ == column_definition_spec(bytes_of(name@), MYSQL_TYPE_VAR_STRING),
{
    crate::response::stmt_field_definition(name, MYSQL_TYPE_VAR_STRING)
}

/// EOF after prepared-statement definitions.
pub fn stmt_eof_packet() -> (r: Vec<u8>)
    ensures
        r@ == eof_payload(),
{
    crate::response::stmt_eof_packet()
}

/// Upper-case hex digit for `d < 16`.
pub open spec fn hex_digit(d: int) -> char {
    if d < 10 {
        (48 + d) as char
    } else {
        (55 + d) as char
    }
}

/// The message for a parameter of an unsupported wire type `t`.
pub open spec fn unsupported_param_message(t: u8) -> Seq<char> {
    "unsupported prepared param type: 0x"@ + seq![hex_digit(t as int / 16), hex_digit(t as int % 16)]
}

fn hex_char(d: u8) -> (r: char)
    requires
        d < 16,
    ensures
        r == hex_digit(d as int),
{
    let u: u32 = if d < 10 {
        48 + d as u32
    } else {
        55 + d as u32
    };
    crate::text::char_from_ascii_code(u)
}

fn unsupported_param(t: u8) -> (r: ProtocolError)
    ensures
        r matches ProtocolError::Message(m) && m@ == unsupported_param_message(t),
{
    let prefix = crate::text::str_chars("unsupported prepared param type: 0x");
    let mut v = prefix;
    v.push(hex_char(t / 16));
    v.push(hex_char(t % 16));
    proof {
        assert(v@ =~= unsupported_param_message(t));
    }
    ProtocolError::Message(string_from_chars(v.as_slice()))
}

/// Reading one bound parameter of low type byte `ty` at the start of `s`: its text and width;
/// `Err(true)` for an unsupported type, `Err(false)` for a malformed value.
pub open spec fn param_spec(s: Seq<u8>, ty: u8) -> Result<(Seq<char>, int), bool> {
    if ty == MYSQL_TYPE_LONGLONG {
        if s.len() < 8 {
            Err(false)
        } else {
            Ok((signed_decimal_le8(s), 8))
        }
    } else if ty == MYSQL_TYPE_VAR_STRING || ty == MYSQL_TYPE_STRING {
        match parse_lenenc(s) {
            None => Err(false),
            Some((n, h)) => if s.len() < h + n || !valid_utf8(s.subrange(h, h + n)) {
                Err(false)
            } else {
                Ok((decode_utf8(s.subrange(h, h + n)), h + n))
            },
        }
    } else {
        Err(true)
    }
}

/// Where reading one parameter overflows its end position.
pub open spec fn param_panics(s: Seq<u8>, ty: u8) -> bool {
    (ty == MYSQL_TYPE_VAR_STRING || ty == MYSQL_TYPE_STRING) && match parse_lenenc(s) {
        None => false,
        Some((n, h)) => h + n > usize::MAX,
    }
}

fn read_binary_param(buf: &[u8], pos: usize, col_type: u8) -> (r: Result<(String, usize), ProtocolError>)
    requires
        pos <= buf@.len(),
        !param_panics(buf@.subrange(pos as int, buf@.len() as int), col_type),
    ensures
        match param_spec(buf@.subrange(pos as int, buf@.len() as int), col_type) {
            Ok((v, w)) => r matches Ok((s, w2)) && s@ == v && w2 == w && pos + w <= buf@.len(),
            Err(_) => r is Err,
        },
        r matches Ok((_, w)) ==> pos + w <= buf@.len(),
        match param_spec(buf@.subrange(pos as int, buf@.len() as int), col_type) {
            Ok(_) => true,
            Err(true) => r matches Err(ProtocolError::Message(m)) && m@ == unsupported_param_message(
                col_type,
            ),
            Err(false) => r matches Err(e) && e is InvalidPacket,
        },
{
    let ghost s = buf@.subrange(pos as int, buf@.len() as int);
    if col_type == MYSQL_TYPE_LONGLONG {
        if buf.len() - pos < 8 {
            return Err(ProtocolError::invalid_packet());
        }
        let v = crate::binary::read_i64_le(buf, pos);
        proof {
            assert(s.subrange(0, 8) =~= buf@.subrange(pos as int, pos + 8));
        }
        Ok((i64_to_string(v), 8))
    } else if col_type == MYSQL_TYPE_VAR_STRING || col_type == MYSQL_TYPE_STRING {
        match lenenc_at(buf, pos) {
            None => Err(ProtocolError::invalid_packet()),
            Some((len, hlen)) => {
                let lu = len as usize;
                if buf.len() - pos < hlen + lu {
                    return Err(ProtocolError::invalid_packet());
                }
                let body = vstd::slice::slice_subrange(buf, pos + hlen, pos + hlen + lu);
                proof {
                    assert(body@ =~= s.subrange(hlen as int, hlen + lu));
                }
                match utf8_decode(body) {
                    None => Err(ProtocolError::invalid_packet()),
                    Some(t) => Ok((t, hlen + lu)),
                }
            },
        }
    } else {
        Err(unsupported_param(col_type))
    }
}

/// Reading the bound parameters `i..` (types `tys`, NULL bitmap `bitmap`) from `pos`.
pub open spec fn params_from(
    p: Seq<u8>,
    bitmap: Seq<u8>,
    tys: Seq<u8>,
    i: int,
    pos: int,
) -> Result<Seq<Option<Seq<char>>>, (bool, u8)>
    decreases tys.len() - i,
{
    if i < 0 || i >= tys.len() {
        Ok(Seq::empty())
    } else if null_bit(bitmap, i) {
        match params_from(p, bitmap, tys, i + 1, pos) {
            Ok(rest) => Ok(seq![None::<Seq<char>>] + rest),
            Err(e) => Err(e),
        }
    } else {
        match param_spec(p.subrange(pos, p.len() as int), tys[i]) {
            Err(u) => Err((u, tys[i])),
            Ok((v, w)) => match params_from(p, bitmap, tys, i + 1, pos + w) {
                Ok(rest) => Ok(seq![Some(v)] + rest),
                Err(e) => Err(e),
            },
        }
    }
}

/// Where reading the bound parameters `i..` panics.
pub open spec fn params_panic(p: Seq<u8>, bitmap: Seq<u8>, tys: Seq<u8>, i: int, pos: int) -> bool
    decreases tys.len() - i,
{
    if i < 0 || i >= tys.len() {
        false
    } else if null_bit(bitmap, i) {
        params_panic(p, bitmap, tys, i + 1, pos)
    } else if param_panics(p.subrange(pos, p.len() as int), tys[i]) {
        true
    } else {
        match param_spec(p.subrange(pos, p.len() as int), tys[i]) {
            Err(_) => false,
            Ok((v, w)) => params_panic(p, bitmap, tys, i + 1, pos + w),
        }
    }
}

/// The parameter types of an execute payload: the low bytes of the `new_params_bound` type
/// list, or `VAR_STRING` for all when no types are sent.
pub open spec fn param_types(p: Seq<u8>, pos: int, n: int, new_params: bool) -> Seq<u8> {
    if new_params {
        Seq::new(n as nat, |i: int| p[pos + 2 * i])
    } else {
        Seq::new(n as nat, |i: int| MYSQL_TYPE_VAR_STRING)
    }
}

/// Outcome of `parse_stmt_execute`: the parameters, or the error (`(true, t)`: unsupported
/// type `t`; `(false, _)`: malformed packet).
pub open spec fn stmt_execute_spec(p: Seq<u8>, n: int) -> Result<Seq<Option<Seq<char>>>, (bool, u8)> {
    if p.len() == 0 || p[0] != COM_STMT_EXECUTE || p.len() < 10 {
        Err((false, 0))
    } else if n == 0 {
        Ok(Seq::empty())
    } else {
        let bl = bitmap_len(n);
        if p.len() < 10 + bl + 1 {
            Err((false, 0))
        } else {
            let bitmap = p.subrange(10, 10 + bl);
            let np = p[10 + bl] == 1;
            let tpos = 11 + bl;
            if np && p.len() < tpos + 2 * n {
                Err((false, 0))
            } else {
                let start = if np {
                    tpos + 2 * n
                } else {
                    tpos
                };
                params_from(p, bitmap, param_types(p, tpos, n, np), 0, start)
            }
        }
    }
}

/// Where `parse_stmt_execute` panics.
pub open spec fn stmt_execute_panics(p: Seq<u8>, n: int) -> bool {
    let bl = bitmap_len(n);
    let tpos = 11 + bl;
    let np = p.len() >= 11 + bl && p[10 + bl] == 1;
    p.len() >= 11 + bl && p[0] == COM_STMT_EXECUTE && n > 0 && !(np && p.len() < tpos + 2 * n)
        && params_panic(
        p,
        p.subrange(10, 10 + bl),
        param_types(p, tpos, n, np),
        0,
        if np {
            tpos + 2 * n
        } else {
            tpos
        },
    )
}

/// The error value that `stmt_execute_spec` describes.
pub open spec fn stmt_error_matches(e: ProtocolError, k: (bool, u8)) -> bool {
    if k.0 {
        e matches ProtocolError::Message(m) && m@ == unsupported_param_message(k.1)
    } else {
        e is InvalidPacket
    }
}

fn test_null_bit(bitmap: &[u8], i: usize) -> (r: bool)
    requires
        i / 8 < bitmap@.len(),
    ensures
        r == null_bit(bitmap@, i as int),
{
    let byte = bitmap[i / 8];
    let mut v = byte;
    let mut k = i % 8;
    while k > 0
        invariant
            k <= i % 8,
            bit_of(byte as int, (i % 8) as nat) == bit_of(v as int, k as nat),
        decreases k,
    {
        v = v / 2;
        k = k - 1;
    }
    v % 2 == 1
}

fn read_params(payload: &[u8], bitmap: &[u8], tys: &Vec<u8>, start: usize) -> (r: Result<
    Vec<Option<String>>,
    ProtocolError,
>)
    requires
        start <= payload@.len(),
        bitmap@.len() == bitmap_len(tys@.len() as int),
        !params_panic(payload@, bitmap@, tys@, 0, start as int),
    ensures
        match params_from(payload@, bitmap@, tys@, 0, start as int) {
            Ok(vals) => r matches Ok(out) && out@.map_values(|o: Option<String>| opt_view(o))
                == vals,
            Err(k) => r matches Err(e) && stmt_error_matches(e, k),
        },
{
    let mut pos = start;
    let _plen = payload.len();
    let mut out: Vec<Option<String>> = Vec::new();
    let mut i: usize = 0;
    while i < tys.len()
        invariant
            i <= tys@.len(),
            pos <= payload@.len(),
            payload@.len() <= usize::MAX,
            bitmap@.len() == bitmap_len(tys@.len() as int),
            !params_panic(payload@, bitmap@, tys@, i as int, pos as int),
            params_from(payload@, bitmap@, tys@, 0, start as int) == match params_from(
                payload@,
                bitmap@,
                tys@,
                i as int,
                pos as int,
            ) {
                Ok(rest) => Ok(out@.map_values(|o: Option<String>| opt_view(o)) + rest),
                Err(k) => Err(k),
            },
        decreases tys@.len() - i,
    {
        let ghost prev = out@.map_values(|o: Option<String>| opt_view(o));
        if test_null_bit(bitmap, i) {
            out.push(None);
            proof {
                assert(out@.map_values(|o: Option<String>| opt_view(o)) =~= prev.push(None));
                match params_from(payload@, bitmap@, tys@, i + 1, pos as int) {
                    Ok(rest) => {
                        assert(prev + (seq![None::<Seq<char>>] + rest) =~= prev.push(None) + rest);
                    },
                    Err(_) => {},
                }
            }
        } else {
            match read_binary_param(payload, pos, tys[i]) {
                Err(e) => {
                    return Err(e);
                },
                Ok((val, n)) => {
                    let ghost vv = val@;
                    out.push(Some(val));
                    pos = pos + n;
                    proof {
                        assert(out@.map_values(|o: Option<String>| opt_view(o)) =~= prev.push(
                            Some(vv),
                        ));
                        match params_from(payload@, bitmap@, tys@, i + 1, pos as int) {
                            Ok(rest) => {
                                assert(prev + (seq![Some(vv)] + rest) =~= prev.push(Some(vv))
                                    + rest);
                            },
                            Err(_) => {},
                        }
                    }
                },
            }
        }
        i = i + 1;
    }
    proof {
        assert(out@.map_values(|o: Option<String>| opt_view(o)) + Seq::<Option<Seq<char>>>::empty()
            =~= out@.map_values(|o: Option<String>| opt_view(o)));
    }
    Ok(out)
}

/// Whether reading parameter values from `start` would panic (a string length that runs
/// past the largest position).
fn params_panic_check(payload: &[u8], bitmap: &[u8], tys: &Vec<u8>, start: usize) -> (r: bool)
    requires
        start <= payload@.len(),
        bitmap@.len() == bitmap_len(tys@.len() as int),
    ensures
        r == params_panic(payload@, bitmap@, tys@, 0, start as int),
{
    let plen = payload.len();
    proof {
        assert(payload@.len() == plen);
    }
    let mut pos = start;
    let mut i: usize = 0;
    while i < tys.len()
        invariant
            i <= tys@.len(),
            pos <= payload@.len(),
            payload@.len() <= usize::MAX,
            bitmap@.len() == bitmap_len(tys@.len() as int),
            params_panic(payload@, bitmap@, tys@, 0, start as int) == params_panic(payload@, bitmap@, tys@, i as int, pos as int),
        decreases tys@.len() - i,
    {
        if !test_null_bit(bitmap, i) {
            let ty = tys[i];
            if ty == MYSQL_TYPE_VAR_STRING || ty == MYSQL_TYPE_STRING {
                match crate::lenenc::lenenc_at(payload, pos) {
                    Some((n, h)) => {
                        if n as u128 + h as u128 > usize::MAX as u128 {
                            return true;
                        }
                    },
                    None => {},
                }
            }
            match read_binary_param(payload, pos, ty) {
                Err(_) => {
                    return false;
                },
                Ok((_, w)) => {
                    pos = pos + w;
                },
            }
        }
        i = i + 1;
    }
    false
}

/// Whether `parse_stmt_execute` would panic on this payload (a parameter length that runs
/// past the largest position): callers test this before parsing.
pub fn stmt_execute_panics_check(payload: &[u8], param_count: usize) -> (r: bool)
    requires
        param_count <= usize::MAX / 4,
    ensures
        r == stmt_execute_panics(payload@, param_count as int),
{
    if payload.len() == 0 || payload[0] != COM_STMT_EXECUTE || param_count == 0 {
        return false;
    }
    let bl = param_count / 8 + if param_count % 8 == 0 {
        0
    } else {
        1
    };
    if payload.len() < 11 + bl {
        return false;
    }
    let bitmap = vstd::slice::slice_subrange(payload, 10, 10 + bl);
    let np = payload[10 + bl] == 1;
    let tpos = 11 + bl;
    let mut types: Vec<u8> = Vec::new();
    let start: usize;
    if np {
        if payload.len() - tpos < 2 * param_count {
            return false;
        }
        let mut k: usize = 0;
        while k < param_count
            invariant
                k <= param_count,
                param_count <= usize::MAX / 4,
                tpos + 2 * param_count <= payload@.len(),
                payload@.len() <= usize::MAX,
                types@ == Seq::new(k as nat, |i: int| payload@[tpos + 2 * i]),
            decreases param_count - k,
        {
            assert(2 * k < 2 * param_count);
            types.push(payload[tpos + 2 * k]);
            k = k + 1;
            proof {
                assert(types@ =~= Seq::new(k as nat, |i: int| payload@[tpos + 2 * i]));
            }
        }
        start = tpos + 2 * param_count;
    } else {
        let mut k: usize = 0;
        while k < param_count
            invariant
                k <= param_count,
                types@ == Seq::new(k as nat, |i: int| MYSQL_TYPE_VAR_STRING),
            decreases param_count - k,
        {
            types.push(MYSQL_TYPE_VAR_STRING);
            k = k + 1;
            proof {
                assert(types@ =~= Seq::new(k as nat, |i: int| MYSQL_TYPE_VAR_STRING));
            }
        }
        start = tpos;
    }
    proof {
        assert(types@ =~= param_types(payload@, tpos as int, param_count as int, np));
        assert(bitmap@ =~= payload@.subrange(10, 10 + bl));
    }
    params_panic_check(payload, bitmap, &types, start)
}

/// The text of an optional string.
pub open spec fn opt_view(o: Option<String>) -> Option<Seq<char>> {
    match o {
        Some(s) => Some(s@),
        None => None,
    }
}

/// Parses a `COM_STMT_EXECUTE` payload into its bound parameter values (`None` for NULL).
pub fn parse_stmt_execute(payload: &[u8], param_count: usize) -> (r: Result<
    Vec<Option<String>>,
    ProtocolError,
>)
    requires
        param_count <= usize::MAX / 4,
        !stmt_execute_panics(payload@, param_count as int),
    ensures
        match stmt_execute_spec(payload@, param_count as int) {
            Ok(vals) => r matches Ok(out) && out@.map_values(|o: Option<String>| opt_view(o))
                == vals,
            Err(k) => r matches Err(e) && stmt_error_matches(e, k),
        },
{
    if payload.len() == 0 || payload[0] != COM_STMT_EXECUTE {
        return Err(ProtocolError::invalid_packet());
    }
    if payload.len() < 10 {
        return Err(ProtocolError::invalid_packet());
    }
    if param_count == 0 {
        return Ok(Vec::new());
    }
    let bl = param_count / 8 + if param_count % 8 == 0 {
        0
    } else {
        1
    };
    if payload.len() - 10 < bl + 1 {
        return Err(ProtocolError::invalid_packet());
    }
    let bitmap = vstd::slice::slice_subrange(payload, 10, 10 + bl);
    let np = payload[10 + bl] == 1;
    let tpos = 11 + bl;
    let mut types: Vec<u8> = Vec::new();
    let start: usize;
    if np {
        if payload.len() - tpos < 2 * param_count {
            return Err(ProtocolError::invalid_packet());
        }
        let mut k: usize = 0;
        while k < param_count
            invariant
                k <= param_count,
                param_count <= usize::MAX / 4,
                tpos + 2 * param_count <= payload@.len(),
                payload@.len() <= usize::MAX,
                types@ == Seq::new(k as nat, |i: int| payload@[tpos + 2 * i]),
            decreases param_count - k,
        {
            assert(2 * k < 2 * param_count);
            types.push(payload[tpos + 2 * k]);
            k = k + 1;
            proof {
                assert(types@ =~= Seq::new(k as nat, |i: int| payload@[tpos + 2 * i]));
            }
        }
        start = tpos + 2 * param_count;
    } else {
        let mut k: usize = 0;
        while k < param_count
            invariant
                k <= param_count,
                types@ == Seq::new(k as nat, |i: int| MYSQL_TYPE_VAR_STRING),
            decreases param_count - k,
        {
            types.push(MYSQL_TYPE_VAR_STRING);
            k = k + 1;
            proof {
                assert(types@ =~= Seq::new(k as nat, |i: int| MYSQL_TYPE_VAR_STRING));
            }
        }
        start = tpos;
    }
    proof {
        assert(types@ == param_types(payload@, tpos as int, param_count as int, np));
    }
    read_params(payload, bitmap, &types, start)
}

/// NULL flags of a parameter list.
pub open spec fn param_nulls(params: Seq<Option<String>>) -> Seq<bool> {
    params.map_values(|o: Option<String>| o is None)
}

/// The length-encoded values of the non-NULL parameters from index `i` on.
pub open spec fn param_values_from(params: Seq<Option<String>>, i: int) -> Seq<u8>
    decreases params.len() - i,
{
    if i < 0 || i >= params.len() {
        Seq::empty()
    } else {
        (match params[i] {
            Some(s) => lenenc_bytes(encode_utf8(s@)),
            None => Seq::empty(),
        }) + param_values_from(params, i + 1)
    }
}

/// A `COM_STMT_EXECUTE` payload binding `params` as `VAR_STRING` values.
pub open spec fn stmt_execute_payload(stmt_id: u32, params: Seq<Option<String>>) -> Seq<u8> {
    let n = params.len();
    let flags = param_nulls(params);
    seq![COM_STMT_EXECUTE] + le4(stmt_id) + seq![0u8] + le4(1) + Seq::new(
        bitmap_len(n as int) as nat,
        |k: int| bitmap_bits(flags, 8 * k, 8) as u8,
    ) + seq![1u8] + Seq::new(2 * n, |i: int| if i % 2 == 0 {
        MYSQL_TYPE_VAR_STRING
    } else {
        0u8
    }) + param_values_from(params, 0)
}

fn param_bitmap_byte(params: &[Option<String>], k: usize) -> (r: u8)
    requires
        k < bitmap_len(params@.len() as int),
    ensures
        r as nat == bitmap_bits(param_nulls(params@), 8 * k, 8),
{
    let ghost flags = param_nulls(params@);
    let mut acc: u32 = 0;
    let mut t: usize = 8;
    while t > 0
        invariant
            t <= 8,
            k < bitmap_len(params@.len() as int),
            flags == param_nulls(params@),
            acc as nat == bitmap_bits(flags, 8 * k + t, (8 - t) as nat),
            acc < bits_cap((8 - t) as nat),
        decreases t,
    {
        proof {
            crate::binary::lemma_bits_cap_small((8 - t) as nat);
        }
        let idx: u128 = 8 * (k as u128) + (t as u128) - 1;
        let bit: u32 = if idx < params.len() as u128 && params[idx as usize].is_none() {
            1
        } else {
            0
        };
        acc = bit + 2 * acc;
        t = t - 1;
    }
    proof {
        crate::binary::lemma_bits_cap_small(8);
    }
    acc as u8
}

/// Builds a `COM_STMT_EXECUTE` payload whose parameters are all sent as `VAR_STRING`.
pub fn encode_stmt_execute(stmt_id: u32, params: &[Option<String>]) -> (r: Vec<u8>)
    ensures
        r@ == stmt_execute_payload(stmt_id, params@),
{
    let n = params.len();
    let mut p: Vec<u8> = Vec::new();
    p.push(COM_STMT_EXECUTE);
    push_le4(&mut p, stmt_id);
    p.push(0);
    push_le4(&mut p, 1);
    let ghost head = p@;
    let bl = n / 8 + if n % 8 == 0 {
        0
    } else {
        1
    };
    let ghost flags = param_nulls(params@);
    let mut k: usize = 0;
    while k < bl
        invariant
            k <= bl,
            bl == bitmap_len(n as int),
            n == params@.len(),
            flags == param_nulls(params@),
            p@ == head + Seq::new(k as nat, |j: int| bitmap_bits(flags, 8 * j, 8) as u8),
        decreases bl - k,
    {
        let b = param_bitmap_byte(params, k);
        p.push(b);
        k = k + 1;
        proof {
            assert(p@ =~= head + Seq::new(k as nat, |j: int| bitmap_bits(flags, 8 * j, 8) as u8));
        }
    }
    p.push(1);
    let ghost head2 = p@;
    let mut t: usize = 0;
    while t < n
        invariant
            t <= n,
            n == params@.len(),
            p@ == head2 + Seq::new(2 * t as nat, |i: int| if i % 2 == 0 {
                MYSQL_TYPE_VAR_STRING
            } else {
                0u8
            }),
        decreases n - t,
    {
        p.push(MYSQL_TYPE_VAR_STRING);
        p.push(0);
        t = t + 1;
        proof {
            assert(p@ =~= head2 + Seq::new(2 * t as nat, |i: int| if i % 2 == 0 {
                MYSQL_TYPE_VAR_STRING
            } else {
                0u8
            }));
        }
    }
    let ghost head3 = p@;
    let mut i: usize = 0;
    while i < n
        invariant
            i <= n,
            n == params@.len(),
            head3 + param_values_from(params@, 0) == p@ + param_values_from(params@, i as int),
        decreases n - i,
    {
        let ghost before = p@;
        match &params[i] {
            Some(s) => {
                write_lenenc_str(&mut p, s.as_str());
            },
            None => {},
        }
        proof {
            assert(param_values_from(params@, i as int) =~= (match params@[i as int] {
                Some(s) => lenenc_bytes(encode_utf8(s@)),
                None => Seq::empty(),
            }) + param_values_from(params@, i + 1));
            assert(head3 + param_values_from(params@, 0) =~= p@ + param_values_from(
                params@,
                i + 1,
            ));
        }
        i = i + 1;
    }
    proof {
        assert(param_values_from(params@, n as int) =~= Seq::<u8>::empty());
        assert(p@ =~= stmt_execute_payload(stmt_id, params@));
    }
    p
}

} // verus!

verus! {

proof fn lemma_params_roundtrip(
    params: Seq<Option<String>>,
    p: Seq<u8>,
    bitmap: Seq<u8>,
    tys: Seq<u8>,
    i: int,
    pos: int,
)
    requires
        0 <= i <= params.len(),
        tys.len() == params.len(),
        forall|j: int| 0 <= j < tys.len() ==> tys[j] == MYSQL_TYPE_VAR_STRING,
        forall|j: int|
            0 <= j < params.len() ==> (null_bit(bitmap, j) <==> (#[trigger] params[j]) is None),
        forall|j: int|
            0 <= j < params.len() ==> (#[trigger] params[j] matches Some(s) ==> encode_utf8(
                s@,
            ).len() <= u64::MAX),
        0 <= pos <= p.len(),
        p.len() <= usize::MAX,
        p.subrange(pos, p.len() as int) == param_values_from(params, i),
    ensures
        !params_panic(p, bitmap, tys, i, pos),
        params_from(p, bitmap, tys, i, pos) == Ok::<Seq<Option<Seq<char>>>, (bool, u8)>(
            params.subrange(i, params.len() as int).map_values(|o: Option<String>| opt_view(o)),
        ),
    decreases params.len() - i,
{
    if i < params.len() {
        match params[i] {
            None => {
                assert(param_values_from(params, i) =~= param_values_from(params, i + 1));
                lemma_params_roundtrip(params, p, bitmap, tys, i + 1, pos);
                assert(params.subrange(i, params.len() as int).map_values(
                    |o: Option<String>| opt_view(o),
                ) =~= seq![None::<Seq<char>>] + params.subrange(i + 1, params.len() as int).map_values(
                    |o: Option<String>| opt_view(o),
                ));
            },
            Some(s) => {
                let b = encode_utf8(s@);
                let cell = lenenc_bytes(b);
                let more = param_values_from(params, i + 1);
                let sub = p.subrange(pos, p.len() as int);
                assert(sub == cell + more);
                crate::lenenc::lemma_lenenc_bytes_roundtrip(b, more);
                crate::lenenc::lemma_lenenc_roundtrip(b.len() as u64, b + more);
                assert(cell + more =~= crate::lenenc::lenenc_int(b.len() as u64) + (b + more));
                let h = crate::lenenc::lenenc_int(b.len() as u64).len() as int;
                assert(sub.subrange(h, h + b.len()) =~= b);
                vstd::utf8::encode_utf8_valid_utf8(s@);
                vstd::utf8::encode_utf8_decode_utf8(s@);
                assert(param_spec(sub, tys[i]) == Ok::<(Seq<char>, int), bool>((s@, cell.len() as int)));
                assert(sub.subrange(cell.len() as int, sub.len() as int) =~= more);
                assert(p.subrange(pos + cell.len(), p.len() as int) =~= sub.subrange(
                    cell.len() as int,
                    sub.len() as int,
                ));
                lemma_params_roundtrip(params, p, bitmap, tys, i + 1, pos + cell.len());
                assert(params.subrange(i, params.len() as int).map_values(
                    |o: Option<String>| opt_view(o),
                ) =~= seq![Some(s@)] + params.subrange(i + 1, params.len() as int).map_values(
                    |o: Option<String>| opt_view(o),
                ));
            },
        }
    } else {
        assert(params.subrange(i, params.len() as int).map_values(|o: Option<String>| opt_view(o))
            =~= Seq::<Option<Seq<char>>>::empty());
    }
}

/// Parsing an encoded `COM_STMT_EXECUTE` with the same parameter count gives back the
/// parameters (NULLs included), whatever the statement id.
#[verifier::rlimit(50)]
#[verifier::spinoff_prover]
pub proof fn lemma_stmt_execute_roundtrip(stmt_id: u32, params: Seq<Option<String>>)
    requires
        forall|j: int|
            0 <= j < params.len() ==> (#[trigger] params[j] matches Some(s) ==> encode_utf8(
                s@,
            ).len() <= u64::MAX),
        stmt_execute_payload(stmt_id, params).len() <= usize::MAX,
    ensures
        !stmt_execute_panics(stmt_execute_payload(stmt_id, params), params.len() as int),
        stmt_execute_spec(stmt_execute_payload(stmt_id, params), params.len() as int) == Ok::<
            Seq<Option<Seq<char>>>,
            (bool, u8),
        >(params.map_values(|o: Option<String>| opt_view(o))),
{
    let p = stmt_execute_payload(stmt_id, params);
    let n = params.len() as int;
    if n == 0 {
        assert(p[0] == COM_STMT_EXECUTE);
        assert(p.len() >= 10);
        assert(params.map_values(|o: Option<String>| opt_view(o)) =~= Seq::<Option<Seq<char>>>::empty());
    } else {
        let bl = bitmap_len(n);
        let flags = param_nulls(params);
        let bm = Seq::new(bl as nat, |k: int| bitmap_bits(flags, 8 * k, 8) as u8);
        assert(p.subrange(10, 10 + bl) =~= bm);
        assert(p[10 + bl] == 1);
        let tpos = 11 + bl;
        let tys = param_types(p, tpos, n, true);
        assert forall|j: int| 0 <= j < n implies tys[j] == MYSQL_TYPE_VAR_STRING by {
            assert(p[tpos + 2 * j] == MYSQL_TYPE_VAR_STRING);
        }
        assert forall|j: int| 0 <= j < n implies (null_bit(bm, j) <==> (#[trigger] params[j]) is None) by {
            crate::binary::lemma_null_bit(flags, j);
        }
        assert(p.subrange(tpos + 2 * n, p.len() as int) =~= param_values_from(params, 0));
        lemma_params_roundtrip(params, p, bm, tys, 0, tpos + 2 * n);
        assert(params.subrange(0, n) =~= params);
    }
}

} // verus!
