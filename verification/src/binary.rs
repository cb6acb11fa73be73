//! MySQL binary protocol column types and resultset row encoding.
use vstd::prelude::*;
use vstd::utf8::{decode_utf8, encode_utf8, valid_utf8};
use crate::lenenc::{lenenc_int, append_bytes, from_le2, from_le4, from_le8, le2, le4, le8, lenenc_at, lenenc_bytes, lenenc_width, parse_lenenc, push_le2, push_le4, push_le8, read_le2, read_le4, read_le8, write_lenenc_str};
use crate::text::{lemma_parse_signed_decimal, all_digits, i64_to_string, is_digit, parse_in_range, parse_int_in_range, signed_decimal, spec_to_uppercase, spec_utf8_lossy, str_chars, str_eq, string_from_chars, sub_chars, to_uppercase, trim, trim_seq, utf8_decode_lossy};

verus! {

pub const MYSQL_TYPE_DECIMAL: u8 = 0x00;
pub const MYSQL_TYPE_TINY: u8 = 0x01;
pub const MYSQL_TYPE_SHORT: u8 = 0x02;
pub const MYSQL_TYPE_LONG: u8 = 0x03;
pub const MYSQL_TYPE_FLOAT: u8 = 0x04;
pub const MYSQL_TYPE_DOUBLE: u8 = 0x05;
pub const MYSQL_TYPE_NULL: u8 = 0x06;
pub const MYSQL_TYPE_LONGLONG: u8 = 0x08;
pub const MYSQL_TYPE_INT24: u8 = 0x09;
pub const MYSQL_TYPE_YEAR: u8 = 0x0D;
pub const MYSQL_TYPE_VAR_STRING: u8 = 0x0F;
pub const MYSQL_TYPE_STRING: u8 = 0xFE;

/// The text before the first `(` (all of it when there is none).
pub open spec fn before_paren(s: Seq<char>) -> Seq<char>
    decreases s.len(),
{
    if s.len() == 0 {
        s
    } else if s[0] == '(' {
        Seq::empty()
    } else {
        seq![s[0]] + before_paren(s.drop_first())
    }
}

/// The base type name that `mysql_type_from_sql_type` matches on.
pub open spec fn sql_type_base(data_type: Seq<char>) -> Seq<char> {
    trim_seq(before_paren(spec_to_uppercase(trim_seq(data_type))))
}

/// Wire type for an upper-case base SQL type name.
pub open spec fn wire_type_for_base(base: Seq<char>) -> u8 {
    if base == "TINYINT"@ {
        MYSQL_TYPE_TINY
    } else if base == "SMALLINT"@ {
        MYSQL_TYPE_SHORT
    } else if base == "INT"@ || base == "INTEGER"@ || base == "MEDIUMINT"@ {
        MYSQL_TYPE_LONG
    } else if base == "BIGINT"@ {
        MYSQL_TYPE_LONGLONG
    } else if base == "FLOAT"@ {
        MYSQL_TYPE_FLOAT
    } else if base == "DOUBLE"@ {
        MYSQL_TYPE_DOUBLE
    } else {
        MYSQL_TYPE_VAR_STRING
    }
}

fn before_paren_chars(v: &Vec<char>) -> (r: Vec<char>)
    ensures
        r@ == before_paren(v@),
{
    let mut i: usize = 0;
    proof {
        assert(v@.subrange(0, v@.len() as int) =~= v@);
        assert(v@.subrange(0, 0) + before_paren(v@) =~= before_paren(v@));
    }
    while i < v.len() && v[i] != '('
        invariant
            i <= v@.len(),
            forall|j: int| 0 <= j < i ==> v@[j] != '(',
            before_paren(v@) == v@.subrange(0, i as int) + before_paren(
                v@.subrange(i as int, v@.len() as int),
            ),
        decreases v@.len() - i,
    {
        proof {
            let t = v@.subrange(i as int, v@.len() as int);
            assert(t.drop_first() =~= v@.subrange(i + 1, v@.len() as int));
            assert(v@.subrange(0, i + 1) =~= v@.subrange(0, i as int) + seq![t[0]]);
        }
        i = i + 1;
    }
    proof {
        let t = v@.subrange(i as int, v@.len() as int);
        if i < v@.len() {
            assert(t[0] == '(');
        } else {
            assert(t.len() == 0);
        }
        assert(before_paren(v@) =~= v@.subrange(0, i as int));
    }
    sub_chars(v, 0, i)
}

/// Maps a catalog / SQL type name to its MySQL wire column type.
pub fn mysql_type_from_sql_type(data_type: &str) -> (r: u8)
    ensures
        r == wire_type_for_base(sql_type_base(data_type@)),
{
    let t = trim(data_type);
    let upper = to_uppercase(t.as_str());
    let uv = str_chars(upper.as_str());
    let head = before_paren_chars(&uv);
    let hs = string_from_chars(head.as_slice());
    let base = trim(hs.as_str());
    let b = base.as_str();
    if str_eq(b, "TINYINT") {
        MYSQL_TYPE_TINY
    } else if str_eq(b, "SMALLINT") {
        MYSQL_TYPE_SHORT
    } else if str_eq(b, "INT") || str_eq(b, "INTEGER") || str_eq(b, "MEDIUMINT") {
        MYSQL_TYPE_LONG
    } else if str_eq(b, "BIGINT") {
        MYSQL_TYPE_LONGLONG
    } else if str_eq(b, "FLOAT") {
        MYSQL_TYPE_FLOAT
    } else if str_eq(b, "DOUBLE") {
        MYSQL_TYPE_DOUBLE
    } else {
        MYSQL_TYPE_VAR_STRING
    }
}

/// Wire type inferred for a prepared-statement result column: `LONGLONG` when the name is
/// all ASCII digits (the empty name included), else `VAR_STRING`.
pub fn mysql_type_for_result_column(name: &str) -> (r: u8)
    ensures
        r == (if all_digits(name@) {
            MYSQL_TYPE_LONGLONG
        } else {
            MYSQL_TYPE_VAR_STRING
        }),
{
    let v = str_chars(name);
    let mut i: usize = 0;
    while i < v.len()
        invariant
            i <= v@.len(),
            v@ == name@,
            forall|j: int| 0 <= j < i ==> is_digit(#[trigger] v@[j]),
        decreases v@.len() - i,
    {
        if !('0' <= v[i] && v[i] <= '9') {
            return MYSQL_TYPE_VAR_STRING;
        }
        i = i + 1;
    }
    MYSQL_TYPE_LONGLONG
}

/// Whether a cell is SQL NULL in binary rows (the empty string stands for NULL).
pub fn is_sql_null_value(value: &str) -> (r: bool)
    ensures
        r == (value@.len() == 0),
{
    value.is_empty()
}

/// Floating-point wire types, whose cells this library does not encode or decode.
pub open spec fn is_float_type(ty: u8) -> bool {
    ty == MYSQL_TYPE_FLOAT || ty == MYSQL_TYPE_DOUBLE
}

/// Byte width of an integer wire type, `0` for the others.
pub open spec fn int_width(ty: u8) -> int {
    if ty == MYSQL_TYPE_TINY {
        1
    } else if ty == MYSQL_TYPE_SHORT || ty == MYSQL_TYPE_YEAR {
        2
    } else if ty == MYSQL_TYPE_LONG || ty == MYSQL_TYPE_INT24 {
        4
    } else if ty == MYSQL_TYPE_LONGLONG {
        8
    } else {
        0
    }
}

/// `256^w` for the integer widths.
pub open spec fn span(w: int) -> int {
    if w == 1 {
        256
    } else if w == 2 {
        65536
    } else if w == 4 {
        4294967296
    } else {
        18446744073709551616
    }
}

/// The value `str::parse` gives for the integer type of width `w`, or `0` when it fails
/// (the `unwrap_or(0)` of the encoder).
pub open spec fn parse_or_zero(v: Seq<char>, w: int) -> int {
    match parse_in_range(v, -(span(w) / 2), span(w) / 2 - 1) {
        Some(n) => n,
        None => 0,
    }
}

/// Two's-complement bits of `n` in `w` bytes.
pub open spec fn twos(n: int, w: int) -> int {
    if n < 0 {
        n + span(w)
    } else {
        n
    }
}

/// Binary-protocol encoding of one non-NULL cell of a non-floating-point wire type.
pub open spec fn binary_value_spec(ty: u8, v: Seq<char>) -> Seq<u8> {
    let w = int_width(ty);
    let u = twos(parse_or_zero(v, w), w);
    if w == 1 {
        seq![u as u8]
    } else if w == 2 {
        le2(u as u16)
    } else if w == 4 {
        le4(u as u32)
    } else if w == 8 {
        le8(u as u64)
    } else {
        lenenc_bytes(encode_utf8(v))
    }
}

/// Encodes one cell for a binary resultset row; `None` for floating-point wire types.
pub fn encode_binary_value(col_type: u8, value: &str) -> (r: Option<Vec<u8>>)
    ensures
        r is None <==> is_float_type(col_type),
        r matches Some(b) ==> b@ == binary_value_spec(col_type, value@),
{
    if col_type == MYSQL_TYPE_FLOAT || col_type == MYSQL_TYPE_DOUBLE {
        return None;
    }
    let mut buf: Vec<u8> = Vec::new();
    if col_type == MYSQL_TYPE_TINY {
        let n = match parse_int_in_range(value, -128, 127) {
            Some(n) => n,
            None => 0,
        };
        let u: u8 = if n < 0 {
            (n + 256) as u8
        } else {
            n as u8
        };
        buf.push(u);
        proof {
            assert(buf@ =~= binary_value_spec(col_type, value@));
        }
    } else if col_type == MYSQL_TYPE_SHORT || col_type == MYSQL_TYPE_YEAR {
        let n = match parse_int_in_range(value, -32768, 32767) {
            Some(n) => n,
            None => 0,
        };
        let u: u16 = if n < 0 {
            (n + 65536) as u16
        } else {
            n as u16
        };
        push_le2(&mut buf, u);
        proof {
            assert(buf@ =~= binary_value_spec(col_type, value@));
        }
    } else if col_type == MYSQL_TYPE_LONG || col_type == MYSQL_TYPE_INT24 {
        let n = match parse_int_in_range(value, -2147483648, 2147483647) {
            Some(n) => n,
            None => 0,
        };
        let u: u32 = if n < 0 {
            (n + 4294967296) as u32
        } else {
            n as u32
        };
        push_le4(&mut buf, u);
        proof {
            assert(buf@ =~= binary_value_spec(col_type, value@));
        }
    } else if col_type == MYSQL_TYPE_LONGLONG {
        let n = match parse_int_in_range(value, i64::MIN, i64::MAX) {
            Some(n) => n,
            None => 0,
        };
        let u: u64 = if n < 0 {
            ((n + 1) + i64::MAX) as u64 + 9223372036854775808u64
        } else {
            n as u64
        };
        push_le8(&mut buf, u);
        proof {
            assert(buf@ =~= binary_value_spec(col_type, value@));
        }
    } else {
        write_lenenc_str(&mut buf, value);
    }
    Some(buf)
}

/// Which cells of a row are NULL.
pub open spec fn null_flags(values: Seq<String>) -> Seq<bool> {
    values.map_values(|v: String| v@.len() == 0)
}

/// The number formed by `b` flags from `start` on, the flag at `start` being the lowest bit.
pub open spec fn bitmap_bits(flags: Seq<bool>, start: int, b: nat) -> nat
    decreases b,
{
    if b == 0 {
        0
    } else {
        (if 0 <= start < flags.len() && flags[start] {
            1nat
        } else {
            0nat
        }) + 2 * bitmap_bits(flags, start + 1, (b - 1) as nat)
    }
}

/// Number of bitmap bytes for `n` columns.
pub open spec fn bitmap_len(n: int) -> int {
    (n + 7) / 8
}

/// The NULL bitmap of a row: bit `i % 8` of byte `i / 8` is set when column `i` is NULL.
pub open spec fn null_bitmap(flags: Seq<bool>) -> Seq<u8> {
    Seq::new(bitmap_len(flags.len() as int) as nat, |k: int| bitmap_bits(flags, 8 * k, 8) as u8)
}

/// Whether bit `t` of `byte` is set.
pub open spec fn bit_of(byte: int, t: nat) -> bool
    decreases t,
{
    if t == 0 {
        byte % 2 == 1
    } else {
        bit_of(byte / 2, (t - 1) as nat)
    }
}

/// Whether column `i` is marked NULL in `bitmap`.
pub open spec fn null_bit(bitmap: Seq<u8>, i: int) -> bool {
    bit_of(bitmap[i / 8] as int, (i % 8) as nat)
}

/// The encoded non-NULL cells of a row from column `i` on.
pub open spec fn cells_from(types: Seq<u8>, values: Seq<String>, i: int) -> Seq<u8>
    decreases values.len() - i,
{
    if i < 0 || i >= values.len() {
        Seq::empty()
    } else {
        (if values[i]@.len() == 0 {
            Seq::empty()
        } else {
            binary_value_spec(types[i], values[i]@)
        }) + cells_from(types, values, i + 1)
    }
}

/// A binary resultset row: `0x00`, the NULL bitmap, the encoded non-NULL cells.
pub open spec fn binary_row_spec(types: Seq<u8>, values: Seq<String>) -> Seq<u8> {
    seq![0x00u8] + null_bitmap(null_flags(values)) + cells_from(types, values, 0)
}

/// No non-NULL cell of the row has a floating-point wire type.
pub open spec fn no_float_columns(types: Seq<u8>, values: Seq<String>) -> bool {
    forall|i: int|
        0 <= i < values.len() ==> (#[trigger] values[i])@.len() > 0 ==> !is_float_type(types[i])
}

/// `2^b`.
pub open spec fn bits_cap(b: nat) -> nat
    decreases b,
{
    if b == 0 {
        1
    } else {
        2 * bits_cap((b - 1) as nat)
    }
}

proof fn lemma_bitmap_bits_bound(flags: Seq<bool>, start: int, b: nat)
    ensures
        bitmap_bits(flags, start, b) < bits_cap(b),
    decreases b,
{
    if b > 0 {
        lemma_bitmap_bits_bound(flags, start + 1, (b - 1) as nat);
    }
}

pub proof fn lemma_bits_cap_small(k: nat)
    requires
        k <= 8,
    ensures
        bits_cap(k) <= 256,
        k == 8 ==> bits_cap(k) == 256,
{
    reveal_with_fuel(bits_cap, 9);
}

/// Computes bitmap byte `k` for NULL flags of `values`.
fn bitmap_byte(values: &[String], k: usize) -> (r: u8)
    requires
        k < bitmap_len(values@.len() as int),
    ensures
        r == bitmap_bits(null_flags(values@), 8 * k, 8) as u8,
        r as nat == bitmap_bits(null_flags(values@), 8 * k, 8),
{
    let ghost flags = null_flags(values@);
    let mut acc: u32 = 0;
    let mut t: usize = 8;
    while t > 0
        invariant
            t <= 8,
            k < bitmap_len(values@.len() as int),
            flags == null_flags(values@),
            acc as nat == bitmap_bits(flags, 8 * k + t, (8 - t) as nat),
            acc < bits_cap((8 - t) as nat),
        decreases t,
    {
        proof {
            lemma_bits_cap_small((8 - t) as nat);
        }
        let idx: u128 = 8 * (k as u128) + (t as u128) - 1;
        let bit: u32 = if idx < values.len() as u128 && values[idx as usize].as_str().is_empty() {
            1
        } else {
            0
        };
        acc = bit + 2 * acc;
        t = t - 1;
    }
    proof {
        lemma_bits_cap_small(8);
    }
    acc as u8
}

/// Encodes a binary resultset row (`COM_STMT_EXECUTE`, NULL-bitmap offset 0); `None` when a
/// non-NULL cell has a floating-point wire type.
pub fn binary_resultset_row(col_types: &[u8], values: &[String]) -> (r: Option<Vec<u8>>)
    requires
        col_types@.len() == values@.len(),
    ensures
        r is Some <==> no_float_columns(col_types@, values@),
        r matches Some(b) ==> b@ == binary_row_spec(col_types@, values@),
{
    let n = col_types.len();
    let blen = n / 8 + if n % 8 == 0 {
        0
    } else {
        1
    };
    proof {
        assert(blen == bitmap_len(n as int));
    }
    let mut row: Vec<u8> = Vec::new();
    row.push(0x00);
    let mut k: usize = 0;
    while k < blen
        invariant
            k <= blen,
            blen == bitmap_len(values@.len() as int),
            row@ == seq![0x00u8] + null_bitmap(null_flags(values@)).subrange(0, k as int),
        decreases blen - k,
    {
        let b = bitmap_byte(values, k);
        row.push(b);
        k = k + 1;
        proof {
            assert(row@ =~= seq![0x00u8] + null_bitmap(null_flags(values@)).subrange(0, k as int));
        }
    }
    proof {
        assert(null_bitmap(null_flags(values@)).subrange(0, k as int) =~= null_bitmap(
            null_flags(values@),
        ));
    }
    let ghost head = row@;
    let mut i: usize = 0;
    while i < n
        invariant
            i <= n,
            n == values@.len(),
            n == col_types@.len(),
            head == seq![0x00u8] + null_bitmap(null_flags(values@)),
            head + cells_from(col_types@, values@, 0) == row@ + cells_from(
                col_types@,
                values@,
                i as int,
            ),
            forall|j: int|
                0 <= j < i ==> (#[trigger] values@[j])@.len() > 0 ==> !is_float_type(
                    col_types@[j],
                ),
        decreases n - i,
    {
        let ghost before = row@;
        if !is_sql_null_value(values[i].as_str()) {
            match encode_binary_value(col_types[i], values[i].as_str()) {
                Some(cell) => {
                    append_bytes(&mut row, cell.as_slice());
                },
                None => {
                    return None;
                },
            }
        }
        proof {
            assert(cells_from(col_types@, values@, i as int) =~= (if values@[i as int]@.len()
                == 0 {
                Seq::empty()
            } else {
                binary_value_spec(col_types@[i as int], values@[i as int]@)
            }) + cells_from(col_types@, values@, i + 1));
            assert(head + cells_from(col_types@, values@, 0) =~= row@ + cells_from(
                col_types@,
                values@,
                i + 1,
            ));
        }
        i = i + 1;
    }
    proof {
        assert(cells_from(col_types@, values@, n as int) =~= Seq::<u8>::empty());
        assert(row@ =~= binary_row_spec(col_types@, values@));
    }
    Some(row)
}

/// Signed value of `w` little-endian bytes at the start of `s`.
pub open spec fn signed_le(s: Seq<u8>, w: int) -> int {
    let u: int = if w == 1 {
        s[0] as int
    } else if w == 2 {
        from_le2(s[0], s[1]) as int
    } else if w == 4 {
        from_le4(s[0], s[1], s[2], s[3]) as int
    } else {
        from_le8(s.subrange(0, 8)) as int
    };
    if u >= span(w) / 2 {
        u - span(w)
    } else {
        u
    }
}

/// Decoding one non-NULL cell at the start of `s`: its text and width, `None` when `s` is too
/// short or the type is floating-point.
pub open spec fn decode_value_spec(ty: u8, s: Seq<u8>) -> Option<(Seq<char>, int)> {
    let w = int_width(ty);
    if is_float_type(ty) {
        None
    } else if w > 0 {
        if s.len() < w {
            None
        } else {
            Some((signed_decimal(signed_le(s, w)), w))
        }
    } else {
        let h = lenenc_width(s[0]);
        let n: int = match parse_lenenc(s) {
            Some((v, _)) => v as int,
            None => 0,
        };
        if s.len() < h + n {
            None
        } else {
            let b = s.subrange(h, h + n);
            Some((if valid_utf8(b) {
                decode_utf8(b)
            } else {
                spec_utf8_lossy(b)
            }, h + n))
        }
    }
}

/// Where decoding a string cell at the start of `s` panics: no header byte, or a truncated
/// multi-byte length header.
pub open spec fn decode_value_panics(ty: u8, s: Seq<u8>) -> bool {
    int_width(ty) == 0 && !is_float_type(ty) && (s.len() == 0 || (s[0] >= 0xFC && s[0] <= 0xFE
        && s.len() < lenenc_width(s[0])))
}

/// Decoding the cells of columns `i..` at byte offset `pos`, prepended to nothing.
pub open spec fn decode_cells(types: Seq<u8>, bitmap: Seq<u8>, payload: Seq<u8>, i: int, pos: int) -> Option<
    Seq<Seq<char>>,
>
    decreases types.len() - i,
{
    if i < 0 || i >= types.len() {
        Some(Seq::empty())
    } else if null_bit(bitmap, i) {
        match decode_cells(types, bitmap, payload, i + 1, pos) {
            Some(rest) => Some(seq![Seq::<char>::empty()] + rest),
            None => None,
        }
    } else {
        match decode_value_spec(types[i], payload.subrange(pos, payload.len() as int)) {
            None => None,
            Some((v, c)) => match decode_cells(types, bitmap, payload, i + 1, pos + c) {
                Some(rest) => Some(seq![v] + rest),
                None => None,
            },
        }
    }
}

/// Whether decoding the cells of columns `i..` at byte offset `pos` panics.
pub open spec fn decode_cells_panic(
    types: Seq<u8>,
    bitmap: Seq<u8>,
    payload: Seq<u8>,
    i: int,
    pos: int,
) -> bool
    decreases types.len() - i,
{
    if i < 0 || i >= types.len() {
        false
    } else if null_bit(bitmap, i) {
        decode_cells_panic(types, bitmap, payload, i + 1, pos)
    } else if decode_value_panics(types[i], payload.subrange(pos, payload.len() as int)) {
        true
    } else {
        match decode_value_spec(types[i], payload.subrange(pos, payload.len() as int)) {
            None => false,
            Some((v, c)) => decode_cells_panic(types, bitmap, payload, i + 1, pos + c),
        }
    }
}

/// Decoding a binary resultset row into string cells (NULL as the empty string).
pub open spec fn decode_row_spec(types: Seq<u8>, payload: Seq<u8>) -> Option<Seq<Seq<char>>> {
    let bl = bitmap_len(types.len() as int);
    if payload.len() == 0 || payload[0] != 0 || payload.len() < 1 + bl {
        None
    } else {
        decode_cells(types, payload.subrange(1, 1 + bl), payload, 0, 1 + bl)
    }
}

/// Where decoding a binary resultset row panics.
pub open spec fn decode_row_panics(types: Seq<u8>, payload: Seq<u8>) -> bool {
    let bl = bitmap_len(types.len() as int);
    !(payload.len() == 0 || payload[0] != 0 || payload.len() < 1 + bl) && decode_cells_panic(
        types,
        payload.subrange(1, 1 + bl),
        payload,
        0,
        1 + bl,
    )
}

/// Decimal text of the signed value of eight little-endian bytes at the start of `s`.
pub open spec fn signed_decimal_le8(s: Seq<u8>) -> Seq<char> {
    signed_decimal(signed_le(s, 8))
}

/// Reads the signed eight-byte little-endian integer at `pos`.
pub fn read_i64_le(buf: &[u8], pos: usize) -> (r: i64)
    requires
        pos + 8 <= buf@.len(),
    ensures
        r as int == signed_le(buf@.subrange(pos as int, buf@.len() as int), 8),
{
    let u = read_le8(buf, pos);
    proof {
        let s = buf@.subrange(pos as int, buf@.len() as int);
        assert(s.subrange(0, 8) =~= buf@.subrange(pos as int, pos + 8));
    }
    if u >= 9223372036854775808u64 {
        -((18446744073709551615u64 - u) as i64) - 1
    } else {
        u as i64
    }
}

fn test_bit(byte: u8, t: usize) -> (r: bool)
    requires
        t < 8,
    ensures
        r == bit_of(byte as int, t as nat),
{
    let mut v = byte;
    let mut k = t;
    while k > 0
        invariant
            k <= t,
            bit_of(byte as int, t as nat) == bit_of(v as int, k as nat),
        decreases k,
    {
        v = v / 2;
        k = k - 1;
    }
    v % 2 == 1
}

fn u8_signed(b: u8) -> (r: i64)
    ensures
        r == (if b >= 128 {
            b as int - 256
        } else {
            b as int
        }),
{
    if b >= 128 {
        b as i64 - 256
    } else {
        b as i64
    }
}

fn decode_binary_value(col_type: u8, buf: &[u8], pos: usize) -> (r: Option<(String, usize)>)
    requires
        pos <= buf@.len(),
        !decode_value_panics(col_type, buf@.subrange(pos as int, buf@.len() as int)),
    ensures
        match decode_value_spec(col_type, buf@.subrange(pos as int, buf@.len() as int)) {
            None => r is None,
            Some((v, c)) => r matches Some((s, c2)) && s@ == v && c2 == c,
        },
{
    let ghost s = buf@.subrange(pos as int, buf@.len() as int);
    let avail = buf.len() - pos;
    if col_type == MYSQL_TYPE_FLOAT || col_type == MYSQL_TYPE_DOUBLE {
        return None;
    }
    if col_type == MYSQL_TYPE_TINY {
        if avail < 1 {
            return None;
        }
        let v = u8_signed(buf[pos]);
        return Some((i64_to_string(v), 1));
    }
    if col_type == MYSQL_TYPE_SHORT || col_type == MYSQL_TYPE_YEAR {
        if avail < 2 {
            return None;
        }
        let u = read_le2(buf, pos);
        let v: i64 = if u >= 32768 {
            u as i64 - 65536
        } else {
            u as i64
        };
        return Some((i64_to_string(v), 2));
    }
    if col_type == MYSQL_TYPE_LONG || col_type == MYSQL_TYPE_INT24 {
        if avail < 4 {
            return None;
        }
        let u = read_le4(buf, pos);
        let v: i64 = if u >= 2147483648 {
            u as i64 - 4294967296
        } else {
            u as i64
        };
        return Some((i64_to_string(v), 4));
    }
    if col_type == MYSQL_TYPE_LONGLONG {
        if avail < 8 {
            return None;
        }
        let u = read_le8(buf, pos);
        proof {
            assert(s.subrange(0, 8) =~= buf@.subrange(pos as int, pos + 8));
        }
        let v: i64 = if u >= 9223372036854775808u64 {
            -((18446744073709551615u64 - u) as i64) - 1
        } else {
            u as i64
        };
        return Some((i64_to_string(v), 8));
    }
    let first = buf[pos];
    let hlen: usize = if first <= 250 {
        1
    } else if first == 0xFC {
        3
    } else if first == 0xFD {
        4
    } else if first == 0xFE {
        9
    } else {
        1
    };
    let len: u64 = match lenenc_at(buf, pos) {
        Some((v, _)) => v,
        None => 0,
    };
    if (avail as u64) < len || avail - (len as usize) < hlen {
        return None;
    }
    let lu = len as usize;
    let body = vstd::slice::slice_subrange(buf, pos + hlen, pos + hlen + lu);
    proof {
        assert(body@ =~= s.subrange(hlen as int, hlen + lu));
    }
    Some((utf8_decode_lossy(body), hlen + lu))
}

/// Decodes a binary resultset row into string cells (NULL as the empty string); `None` when
/// the row is malformed or holds a floating-point cell.
pub fn decode_binary_resultset_row(col_types: &[u8], payload: &[u8]) -> (r: Option<Vec<String>>)
    requires
        !decode_row_panics(col_types@, payload@),
    ensures
        match decode_row_spec(col_types@, payload@) {
            None => r is None,
            Some(cells) => r matches Some(out) && out@.map_values(|s: String| s@) == cells,
        },
{
    if payload.len() == 0 || payload[0] != 0x00 {
        return None;
    }
    let n = col_types.len();
    let blen = n / 8 + if n % 8 == 0 {
        0
    } else {
        1
    };
    if payload.len() - 1 < blen {
        return None;
    }
    let ghost bitmap = payload@.subrange(1, 1 + blen);
    let ghost start = 1 + blen;
    let mut pos: usize = 1 + blen;
    let mut out: Vec<String> = Vec::new();
    let mut i: usize = 0;
    while i < n
        invariant
            i <= n,
            n == col_types@.len(),
            blen == bitmap_len(n as int),
            1 + blen <= payload@.len(),
            bitmap == payload@.subrange(1, 1 + blen),
            start == 1 + blen,
            pos <= payload@.len(),
            !decode_cells_panic(col_types@, bitmap, payload@, i as int, pos as int),
            decode_cells(col_types@, bitmap, payload@, 0, start) == match decode_cells(
                col_types@,
                bitmap,
                payload@,
                i as int,
                pos as int,
            ) {
                Some(rest) => Some(out@.map_values(|s: String| s@) + rest),
                None => None,
            },
        decreases n - i,
    {
        let byte = payload[1 + i / 8];
        proof {
            assert(bitmap[(i / 8) as int] == byte);
        }
        let is_null = test_bit(byte, i % 8);
        let ghost prev = out@.map_values(|s: String| s@);
        if is_null {
            out.push(String::new());
            proof {
                assert(out@.map_values(|s: String| s@) =~= prev.push(Seq::<char>::empty()));
                match decode_cells(col_types@, bitmap, payload@, i + 1, pos as int) {
                    Some(rest) => {
                        assert(prev + (seq![Seq::<char>::empty()] + rest) =~= prev.push(
                            Seq::<char>::empty(),
                        ) + rest);
                    },
                    None => {},
                }
            }
        } else {
            match decode_binary_value(col_types[i], payload, pos) {
                None => {
                    return None;
                },
                Some((val, consumed)) => {
                    let ghost old_pos = pos;
                    out.push(val);
                    pos = pos + consumed;
                    proof {
                        assert(out@.map_values(|s: String| s@) =~= prev.push(val@));
                        match decode_cells(col_types@, bitmap, payload@, i + 1, pos as int) {
                            Some(rest) => {
                                assert(prev + (seq![val@] + rest) =~= prev.push(val@) + rest);
                            },
                            None => {},
                        }
                    }
                },
            }
        }
        i = i + 1;
    }
    proof {
        assert(out@.map_values(|s: String| s@) + Seq::<Seq<char>>::empty() =~= out@.map_values(
            |s: String| s@,
        ));
    }
    Some(out)
}

/// Whether decoding a cell of type `ty` from the bytes `buf[pos..]` would panic.
fn value_panics(ty: u8, buf: &[u8], pos: usize) -> (r: bool)
    requires
        pos <= buf@.len(),
    ensures
        r == decode_value_panics(ty, buf@.subrange(pos as int, buf@.len() as int)),
{
    let ghost s = buf@.subrange(pos as int, buf@.len() as int);
    let is_int = ty == MYSQL_TYPE_TINY || ty == MYSQL_TYPE_SHORT || ty == MYSQL_TYPE_YEAR || ty
        == MYSQL_TYPE_LONG || ty == MYSQL_TYPE_INT24 || ty == MYSQL_TYPE_LONGLONG;
    if is_int || ty == MYSQL_TYPE_FLOAT || ty == MYSQL_TYPE_DOUBLE {
        return false;
    }
    let avail = buf.len() - pos;
    if avail == 0 {
        return true;
    }
    let b = buf[pos];
    proof {
        assert(s[0] == b);
    }
    let w: usize = if b == 0xFC {
        3
    } else if b == 0xFD {
        4
    } else if b == 0xFE {
        9
    } else {
        1
    };
    b >= 0xFC && b <= 0xFE && avail < w
}

/// Whether `decode_binary_resultset_row` would panic on this row (a length-encoded cell whose
/// header runs past the end): callers test this before decoding.
pub fn binary_row_panics(col_types: &[u8], payload: &[u8]) -> (r: bool)
    ensures
        r == decode_row_panics(col_types@, payload@),
{
    if payload.len() == 0 || payload[0] != 0x00 {
        return false;
    }
    let n = col_types.len();
    let blen = n / 8 + if n % 8 == 0 {
        0
    } else {
        1
    };
    if payload.len() - 1 < blen {
        return false;
    }
    let ghost bitmap = payload@.subrange(1, 1 + blen);
    let mut pos: usize = 1 + blen;
    let mut i: usize = 0;
    while i < n
        invariant
            i <= n,
            n == col_types@.len(),
            blen == bitmap_len(n as int),
            1 + blen <= payload@.len(),
            bitmap == payload@.subrange(1, 1 + blen),
            pos <= payload@.len(),
            decode_row_panics(col_types@, payload@) == decode_cells_panic(col_types@, bitmap, payload@, i as int, pos as int),
        decreases n - i,
    {
        let byte = payload[1 + i / 8];
        proof {
            assert(bitmap[(i / 8) as int] == byte);
        }
        let is_null = test_bit(byte, i % 8);
        if !is_null {
            if value_panics(col_types[i], payload, pos) {
                return true;
            }
            match decode_binary_value(col_types[i], payload, pos) {
                None => {
                    return false;
                },
                Some((_, consumed)) => {
                    pos = pos + consumed;
                },
            }
        }
        i = i + 1;
    }
    false
}

} // verus!

verus! {

/// A cell that comes back unchanged from a binary round trip: NULL, or not floating-point,
/// a length that fits the header, and for integer types the decimal form of an in-range value.
pub open spec fn round_trips(ty: u8, v: Seq<char>) -> bool {
    v.len() == 0 || (!is_float_type(ty) && encode_utf8(v).len() <= u64::MAX && (int_width(ty)
        > 0 ==> exists|n: int|
        -(span(int_width(ty)) / 2) <= n < span(int_width(ty)) / 2 && v == signed_decimal(n)))
}

proof fn lemma_le4_roundtrip(n: u32)
    ensures
        from_le4(le4(n)[0], le4(n)[1], le4(n)[2], le4(n)[3]) == n,
{
    assert(((n & 0xff) as u8) as u32 | ((((n >> 8) & 0xff) as u8) as u32) << 8 | ((((n >> 16)
        & 0xff) as u8) as u32) << 16 | (((n >> 24) as u8) as u32) << 24 == n) by (bit_vector);
}

proof fn lemma_le2_back(n: u16)
    ensures
        from_le2(le2(n)[0], le2(n)[1]) == n,
{
    assert(((n & 0xff) as u8) as u16 | (((n >> 8) as u8) as u16) << 8 == n) by (bit_vector);
}

proof fn lemma_le8_back(n: u64)
    ensures
        from_le8(le8(n)) == n,
{
    assert(((n & 0xff) as u8) as u64 | ((((n >> 8) & 0xff) as u8) as u64) << 8 | ((((n >> 16)
        & 0xff) as u8) as u64) << 16 | ((((n >> 24) & 0xff) as u8) as u64) << 24 | ((((n >> 32)
        & 0xff) as u8) as u64) << 32 | ((((n >> 40) & 0xff) as u8) as u64) << 40 | ((((n >> 48)
        & 0xff) as u8) as u64) << 48 | (((n >> 56) as u8) as u64) << 56 == n) by (bit_vector);
}

proof fn lemma_cell_roundtrip(ty: u8, v: Seq<char>, more: Seq<u8>)
    requires
        v.len() > 0,
        round_trips(ty, v),
    ensures
        !decode_value_panics(ty, binary_value_spec(ty, v) + more),
        decode_value_spec(ty, binary_value_spec(ty, v) + more) == Some(
            (v, binary_value_spec(ty, v).len() as int),
        ),
{
    let w = int_width(ty);
    let cell = binary_value_spec(ty, v);
    let s = cell + more;
    if w > 0 {
        let n = choose|n: int| -(span(w) / 2) <= n < span(w) / 2 && v == signed_decimal(n);
        lemma_parse_signed_decimal(n, -(span(w) / 2), span(w) / 2 - 1);
        assert(parse_or_zero(v, w) == n);
        let u = twos(n, w);
        assert(0 <= u < span(w));
        if w == 1 {
            assert(s[0] == u as u8);
            assert(signed_le(s, w) == n);
        } else if w == 2 {
            lemma_le2_back(u as u16);
            assert(s[0] == le2(u as u16)[0] && s[1] == le2(u as u16)[1]);
            assert(signed_le(s, w) == n);
        } else if w == 4 {
            lemma_le4_roundtrip(u as u32);
            assert(s[0] == le4(u as u32)[0] && s[1] == le4(u as u32)[1] && s[2] == le4(
                u as u32,
            )[2] && s[3] == le4(u as u32)[3]);
            assert(signed_le(s, w) == n);
        } else {
            lemma_le8_back(u as u64);
            assert(s.subrange(0, 8) =~= le8(u as u64));
            assert(signed_le(s, w) == n);
        }
    } else {
        let b = encode_utf8(v);
        crate::lenenc::lemma_lenenc_roundtrip(b.len() as u64, b + more);
        assert(s =~= lenenc_int(b.len() as u64) + (b + more));
        let h = lenenc_int(b.len() as u64).len() as int;
        assert(s.subrange(h, h + b.len()) =~= b);
        vstd::utf8::encode_utf8_valid_utf8(v);
        vstd::utf8::encode_utf8_decode_utf8(v);
    }
}

proof fn lemma_bit_of_bits(flags: Seq<bool>, start: int, b: nat, t: nat)
    requires
        t < b,
    ensures
        bit_of(bitmap_bits(flags, start, b) as int, t) == (0 <= start + t < flags.len() && flags[start
            + t]),
    decreases t,
{
    let x = bitmap_bits(flags, start, b);
    let rest = bitmap_bits(flags, start + 1, (b - 1) as nat);
    assert(x / 2 == rest);
    if t > 0 {
        lemma_bit_of_bits(flags, start + 1, (b - 1) as nat, (t - 1) as nat);
    }
}

pub proof fn lemma_null_bit(flags: Seq<bool>, i: int)
    requires
        0 <= i < flags.len(),
    ensures
        null_bit(null_bitmap(flags), i) == flags[i],
{
    let k = i / 8;
    lemma_bitmap_bits_bound(flags, 8 * k, 8);
    lemma_bits_cap_small(8);
    let x = bitmap_bits(flags, 8 * k, 8);
    assert(null_bitmap(flags)[k] as int == x);
    lemma_bit_of_bits(flags, 8 * k, 8, (i % 8) as nat);
}

proof fn lemma_decode_cells_roundtrip(
    types: Seq<u8>,
    values: Seq<String>,
    payload: Seq<u8>,
    i: int,
    pos: int,
)
    requires
        types.len() == values.len(),
        forall|j: int| 0 <= j < values.len() ==> round_trips(types[j], (#[trigger] values[j])@),
        0 <= i <= values.len(),
        0 <= pos <= payload.len(),
        payload.len() >= 1 + bitmap_len(values.len() as int),
        payload.subrange(1, 1 + bitmap_len(values.len() as int)) == null_bitmap(
            null_flags(values),
        ),
        payload.subrange(pos, payload.len() as int) == cells_from(types, values, i),
    ensures
        !decode_cells_panic(
            types,
            payload.subrange(1, 1 + bitmap_len(values.len() as int)),
            payload,
            i,
            pos,
        ),
        decode_cells(
            types,
            payload.subrange(1, 1 + bitmap_len(values.len() as int)),
            payload,
            i,
            pos,
        ) == Some(values.subrange(i, values.len() as int).map_values(|s: String| s@)),
    decreases values.len() - i,
{
    let bm = payload.subrange(1, 1 + bitmap_len(values.len() as int));
    if i < values.len() {
        lemma_null_bit(null_flags(values), i);
        let v = values[i]@;
        if v.len() == 0 {
            assert(v =~= Seq::<char>::empty());
            assert(cells_from(types, values, i) =~= cells_from(types, values, i + 1));
            lemma_decode_cells_roundtrip(types, values, payload, i + 1, pos);
            assert(values.subrange(i, values.len() as int).map_values(|s: String| s@) =~= seq![
                Seq::<char>::empty(),
            ] + values.subrange(i + 1, values.len() as int).map_values(|s: String| s@));
        } else {
            let cell = binary_value_spec(types[i], v);
            let more = cells_from(types, values, i + 1);
            lemma_cell_roundtrip(types[i], v, more);
            assert(payload.subrange(pos, payload.len() as int) == cell + more);
            let sub = payload.subrange(pos, payload.len() as int);
            assert(sub.subrange(cell.len() as int, sub.len() as int) =~= more);
            assert(payload.subrange(pos + cell.len(), payload.len() as int) =~= sub.subrange(
                cell.len() as int,
                sub.len() as int,
            ));
            lemma_decode_cells_roundtrip(types, values, payload, i + 1, pos + cell.len());
            assert(values.subrange(i, values.len() as int).map_values(|s: String| s@) =~= seq![v]
                + values.subrange(i + 1, values.len() as int).map_values(|s: String| s@));
        }
    } else {
        assert(values.subrange(i, values.len() as int).map_values(|s: String| s@) =~= Seq::<
            Seq<char>,
        >::empty());
    }
}

/// Decoding an encoded binary row gives back its cells, for rows whose cells all round-trip
/// (NULL comes back as the empty string it was written as).
pub proof fn lemma_binary_row_roundtrip(types: Seq<u8>, values: Seq<String>)
    requires
        types.len() == values.len(),
        forall|j: int| 0 <= j < values.len() ==> round_trips(types[j], (#[trigger] values[j])@),
    ensures
        !decode_row_panics(types, binary_row_spec(types, values)),
        decode_row_spec(types, binary_row_spec(types, values)) == Some(
            values.map_values(|s: String| s@),
        ),
{
    let p = binary_row_spec(types, values);
    let bl = bitmap_len(values.len() as int);
    let bm = null_bitmap(null_flags(values));
    assert(bm.len() == bl);
    assert(p.subrange(1, 1 + bl) =~= bm);
    assert(p.subrange(1 + bl, p.len() as int) =~= cells_from(types, values, 0));
    lemma_decode_cells_roundtrip(types, values, p, 0, 1 + bl);
    assert(values.subrange(0, values.len() as int) =~= values);
}

} // verus!
