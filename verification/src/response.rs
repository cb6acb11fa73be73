//! MySQL server response packets: OK, ERR, column definitions, resultsets.
use vstd::prelude::*;
use vstd::utf8::encode_utf8;
use crate::lenenc::{le2, le4, lenenc_bytes, lenenc_int, push_le2, push_le4, write_lenenc_bytes, write_lenenc_int, write_lenenc_str};
use crate::binary::{binary_resultset_row, binary_row_spec, MYSQL_TYPE_VAR_STRING, no_float_columns};

verus! {

/// Status flags sent in OK and EOF packets (`SERVER_STATUS_AUTOCOMMIT`).
pub const SERVER_STATUS_AUTOCOMMIT: u16 = 0x0002;

/// First byte of an EOF packet.
pub const EOF_MARKER: u8 = 0xFE;

/// The UTF-8 bytes of a string's text.
pub open spec fn bytes_of(s: Seq<char>) -> Seq<u8> {
    encode_utf8(s)
}

/// OK packet: header, affected rows, last insert id, autocommit status, no warnings.
pub open spec fn ok_payload(affected_rows: u64, last_insert_id: u64) -> Seq<u8> {
    seq![0x00u8] + lenenc_int(affected_rows) + lenenc_int(last_insert_id) + le2(
        SERVER_STATUS_AUTOCOMMIT,
    ) + le2(0)
}

/// ERR packet: header, error code, SQL state marker `#HY000`, message bytes.
pub open spec fn err_payload(code: u16, message: Seq<u8>) -> Seq<u8> {
    seq![0xFFu8] + le2(code) + seq![0x23u8, 0x48u8, 0x59u8, 0x30u8, 0x30u8, 0x30u8] + message
}

/// EOF packet: marker, no warnings, autocommit status.
pub open spec fn eof_payload() -> Seq<u8> {
    seq![EOF_MARKER] + le2(0) + le2(SERVER_STATUS_AUTOCOMMIT)
}

/// ColumnDefinition41 for a column `name` of wire type `ty` (catalog `def`, utf8mb4 charset).
pub open spec fn column_definition_spec(name: Seq<u8>, ty: u8) -> Seq<u8> {
    lenenc_bytes(seq![0x64u8, 0x65u8, 0x66u8]) + lenenc_bytes(Seq::<u8>::empty()) + lenenc_bytes(
        Seq::<u8>::empty(),
    ) + lenenc_bytes(Seq::<u8>::empty()) + lenenc_bytes(name) + lenenc_bytes(name) + seq![0x0cu8]
        + le2(0x0021) + le4(64) + seq![ty] + le2(0) + seq![0u8, 0u8, 0u8]
}

/// A text resultset row: each value as a length-encoded string.
pub open spec fn text_row_spec(values: Seq<String>) -> Seq<u8>
    decreases values.len(),
{
    if values.len() == 0 {
        Seq::empty()
    } else {
        text_row_spec(values.drop_last()) + lenenc_bytes(bytes_of(values.last()@))
    }
}

/// Appends the length-encoded UTF-8 bytes of `s`.
fn write_str(buf: &mut Vec<u8>, s: &str)
    ensures
        final(buf)@ == old(buf)@ + lenenc_bytes(bytes_of(s@)),
{
    write_lenenc_str(buf, s);
}

/// OK packet with one-byte affected-row and last-insert-id counts.
pub fn ok_packet(affected_rows: u64, last_insert_id: u64) -> (r: Vec<u8>)
    requires
        affected_rows < 251,
        last_insert_id < 251,
    ensures
        r@ == ok_payload(affected_rows, last_insert_id),
{
    ok_packet_full(affected_rows, last_insert_id)
}

/// OK packet with any affected-row and last-insert-id counts.
pub fn ok_packet_full(affected_rows: u64, last_insert_id: u64) -> (r: Vec<u8>)
    ensures
        r@ == ok_payload(affected_rows, last_insert_id),
{
    let mut payload: Vec<u8> = Vec::new();
    payload.push(0x00);
    write_lenenc_int(&mut payload, affected_rows);
    write_lenenc_int(&mut payload, last_insert_id);
    push_le2(&mut payload, SERVER_STATUS_AUTOCOMMIT);
    push_le2(&mut payload, 0);
    proof {
        assert(payload@ =~= ok_payload(affected_rows, last_insert_id));
    }
    payload
}

/// ERR packet with error `code` and `message`.
pub fn err_packet(code: u16, message: &str) -> (r: Vec<u8>)
    ensures
        r@ == err_payload(code, bytes_of(message@)),
{
    crate::handshake::encode_err_payload(code, message)
}

/// Column definition packet.
pub fn column_definition(name: &str, mysql_type: u8) -> (r: Vec<u8>)
    ensures
        r@ == column_definition_spec(bytes_of(name@), mysql_type),
{
    let mut p: Vec<u8> = Vec::new();
    let def: [u8; 3] = [0x64, 0x65, 0x66];
    write_lenenc_bytes(&mut p, &def);
    let empty: [u8; 0] = [];
    write_lenenc_bytes(&mut p, &empty);
    write_lenenc_bytes(&mut p, &empty);
    write_lenenc_bytes(&mut p, &empty);
    write_str(&mut p, name);
    write_str(&mut p, name);
    p.push(0x0c);
    push_le2(&mut p, 0x0021);
    push_le4(&mut p, 64);
    p.push(mysql_type);
    push_le2(&mut p, 0);
    p.push(0);
    p.push(0);
    p.push(0);
    proof {
        assert(def@ =~= seq![0x64u8, 0x65u8, 0x66u8]);
        assert(empty@ =~= Seq::<u8>::empty());
        assert(p@ =~= column_definition_spec(bytes_of(name@), mysql_type));
    }
    p
}

/// A text resultset row.
pub fn text_row(values: &[String]) -> (r: Vec<u8>)
    ensures
        r@ == text_row_spec(values@),
{
    let mut p: Vec<u8> = Vec::new();
    let mut i: usize = 0;
    while i < values.len()
        invariant
            i <= values@.len(),
            p@ == text_row_spec(values@.subrange(0, i as int)),
        decreases values@.len() - i,
    {
        write_str(&mut p, values[i].as_str());
        i = i + 1;
        proof {
            let s = values@.subrange(0, i as int);
            assert(s.drop_last() =~= values@.subrange(0, i - 1));
        }
    }
    proof {
        assert(values@.subrange(0, i as int) =~= values@);
    }
    p
}

/// EOF packet.
pub fn eof_packet() -> (r: Vec<u8>)
    ensures
        r@ == eof_payload(),
{
    let mut p: Vec<u8> = Vec::new();
    p.push(EOF_MARKER);
    push_le2(&mut p, 0);
    push_le2(&mut p, SERVER_STATUS_AUTOCOMMIT);
    proof {
        assert(p@ =~= eof_payload());
    }
    p
}

/// EOF after prepared-statement column/param definitions.
pub fn stmt_eof_packet() -> (r: Vec<u8>)
    ensures
        r@ == eof_payload(),
{
    eof_packet()
}

/// Column definition for `COM_STMT_PREPARE` metadata.
pub fn stmt_field_definition(name: &str, mysql_type: u8) -> (r: Vec<u8>)
    ensures
        r@ == column_definition_spec(bytes_of(name@), mysql_type),
{
    column_definition(name, mysql_type)
}

/// The packets of a resultset: column count, one definition per column (paired with
/// `col_types`), then `row_packet` for each row, then EOF.
pub open spec fn resultset_shape(
    r: Seq<Vec<u8>>,
    columns: Seq<String>,
    col_types: Seq<u8>,
    rows: Seq<Seq<u8>>,
) -> bool {
    let n = if columns.len() <= col_types.len() {
        columns.len()
    } else {
        col_types.len()
    };
    &&& r.len() == 1 + n + rows.len() + 1
    &&& r[0]@ == lenenc_int(columns.len() as u64)
    &&& forall|i: int|
        0 <= i < n ==> (#[trigger] r[1 + i])@ == column_definition_spec(
            bytes_of(columns[i]@),
            col_types[i],
        )
    &&& forall|j: int| 0 <= j < rows.len() ==> (#[trigger] r[1 + n + j])@ == rows[j]
    &&& r[r.len() - 1]@ == eof_payload()
}

fn push_column_definitions(packets: &mut Vec<Vec<u8>>, columns: &[String], col_types: &[u8])
    ensures
        ({
            let n = if columns@.len() <= col_types@.len() {
                columns@.len()
            } else {
                col_types@.len()
            };
            &&& final(packets)@.len() == old(packets)@.len() + n
            &&& forall|k: int|
                0 <= k < old(packets)@.len() ==> final(packets)@[k] == old(packets)@[k]
            &&& forall|i: int|
                0 <= i < n ==> (#[trigger] final(packets)@[old(packets)@.len() + i])@
                    == column_definition_spec(bytes_of(columns@[i]@), col_types@[i])
        }),
{
    let n = if columns.len() <= col_types.len() {
        columns.len()
    } else {
        col_types.len()
    };
    let mut i: usize = 0;
    while i < n
        invariant
            i <= n,
            n <= columns@.len(),
            n <= col_types@.len(),
            packets@.len() == old(packets)@.len() + i,
            forall|k: int| 0 <= k < old(packets)@.len() ==> packets@[k] == old(packets)@[k],
            forall|k: int|
                0 <= k < i ==> (#[trigger] packets@[old(packets)@.len() + k])@
                    == column_definition_spec(bytes_of(columns@[k]@), col_types@[k]),
        decreases n - i,
    {
        packets.push(column_definition(columns[i].as_str(), col_types[i]));
        i = i + 1;
    }
}

/// Payloads of a text resultset whose columns all have wire type `VAR_STRING`.
pub fn text_resultset(columns: &[String], rows: &[Vec<String>]) -> (r: Vec<Vec<u8>>)
    ensures
        resultset_shape(
            r@,
            columns@,
            Seq::new(columns@.len(), |i: int| MYSQL_TYPE_VAR_STRING),
            rows@.map_values(|row: Vec<String>| text_row_spec(row@)),
        ),
{
    let mut types: Vec<u8> = Vec::new();
    let mut k: usize = 0;
    while k < columns.len()
        invariant
            k <= columns@.len(),
            types@ == Seq::new(k as nat, |i: int| MYSQL_TYPE_VAR_STRING),
        decreases columns@.len() - k,
    {
        types.push(MYSQL_TYPE_VAR_STRING);
        k = k + 1;
        proof {
            assert(types@ =~= Seq::new(k as nat, |i: int| MYSQL_TYPE_VAR_STRING));
        }
    }
    let mut packets: Vec<Vec<u8>> = Vec::new();
    let mut col_count: Vec<u8> = Vec::new();
    write_lenenc_int(&mut col_count, columns.len() as u64);
    packets.push(col_count);
    push_column_definitions(&mut packets, columns, types.as_slice());
    let ghost base = packets@.len();
    let ghost shaped = rows@.map_values(|row: Vec<String>| text_row_spec(row@));
    let mut j: usize = 0;
    while j < rows.len()
        invariant
            j <= rows@.len(),
            base == 1 + columns@.len(),
            packets@.len() == base + j,
            packets@[0]@ == lenenc_int(columns@.len() as u64),
            forall|i: int|
                0 <= i < columns@.len() ==> (#[trigger] packets@[1 + i])@
                    == column_definition_spec(bytes_of(columns@[i]@), MYSQL_TYPE_VAR_STRING),
            shaped == rows@.map_values(|row: Vec<String>| text_row_spec(row@)),
            forall|i: int| 0 <= i < j ==> (#[trigger] packets@[base + i])@ == shaped[i],
        decreases rows@.len() - j,
    {
        packets.push(text_row(rows[j].as_slice()));
        j = j + 1;
    }
    packets.push(eof_packet());
    proof {
        let tys = Seq::new(columns@.len(), |i: int| MYSQL_TYPE_VAR_STRING);
        assert(tys =~= types@);
        assert forall|i: int| 0 <= i < columns@.len() implies (#[trigger] packets@[1 + i])@
            == column_definition_spec(bytes_of(columns@[i]@), tys[i]) by {}
    }
    packets
}

/// Payloads of a binary (`COM_STMT_EXECUTE`) resultset; `None` when a non-empty cell has a
/// floating-point wire type, whose encoding this library leaves to its caller.
pub fn binary_resultset(columns: &[String], col_types: &[u8], rows: &[Vec<String>]) -> (r: Option<
    Vec<Vec<u8>>,
>)
    requires
        forall|j: int| 0 <= j < rows@.len() ==> (#[trigger] rows@[j])@.len() == col_types@.len(),
    ensures
        r is Some <==> forall|j: int|
            0 <= j < rows@.len() ==> no_float_columns(col_types@, (#[trigger] rows@[j])@),
        r matches Some(p) ==> resultset_shape(
            p@,
            columns@,
            col_types@,
            rows@.map_values(|row: Vec<String>| binary_row_spec(col_types@, row@)),
        ),
{
    let mut packets: Vec<Vec<u8>> = Vec::new();
    let mut col_count: Vec<u8> = Vec::new();
    write_lenenc_int(&mut col_count, columns.len() as u64);
    packets.push(col_count);
    push_column_definitions(&mut packets, columns, col_types);
    let ghost n = if columns@.len() <= col_types@.len() {
        columns@.len()
    } else {
        col_types@.len()
    };
    let ghost base = packets@.len();
    let ghost shaped = rows@.map_values(|row: Vec<String>| binary_row_spec(col_types@, row@));
    let mut j: usize = 0;
    while j < rows.len()
        invariant
            j <= rows@.len(),
            base == 1 + n,
            n == (if columns@.len() <= col_types@.len() {
                columns@.len()
            } else {
                col_types@.len()
            }),
            packets@.len() == base + j,
            packets@[0]@ == lenenc_int(columns@.len() as u64),
            forall|i: int|
                0 <= i < n ==> (#[trigger] packets@[1 + i])@ == column_definition_spec(
                    bytes_of(columns@[i]@),
                    col_types@[i],
                ),
            shaped == rows@.map_values(|row: Vec<String>| binary_row_spec(col_types@, row@)),
            forall|i: int| 0 <= i < j ==> (#[trigger] packets@[base + i])@ == shaped[i],
            forall|i: int| 0 <= i < j ==> no_float_columns(col_types@, (#[trigger] rows@[i])@),
            forall|i: int| 0 <= i < rows@.len() ==> (#[trigger] rows@[i])@.len() == col_types@.len(),
        decreases rows@.len() - j,
    {
        match binary_resultset_row(col_types, rows[j].as_slice()) {
            Some(row) => packets.push(row),
            None => {
                return None;
            },
        }
        j = j + 1;
    }
    packets.push(eof_packet());
    Some(packets)
}

} // verus!
