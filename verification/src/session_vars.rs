//! `@@` system variables (a documented set of stubs with per-session overlays), `SHOW
//! VARIABLES`, `SET @@…`, `SET NAMES` and `@user` variables.
use vstd::prelude::*;
use vstd::utf8::encode_utf8;
use crate::catalog::{texts, Session};
use crate::messages::{
    lookup_spec, replace_seq, sql_set_global_rejected, sql_set_multi_assign_unsupported,
    sql_unknown_system_variable, sql_variable_is_readonly, sql_wrong_value_for_var, MessageCatalog,
};
use crate::name_map::NameMap;
use crate::results::{is_rows, lemma_rows_view_push, rows_view, ExecError, QueryResult, Row};
use crate::sorting::{stable_order, stable_sort_order, texts_of};
use crate::privileges::join;
use crate::text::{
    ascii_lower_seq, eq_ignore_ascii_case, eq_ignore_case_seq, owned, starts_with,
    starts_with_seq, str_chars, str_eq, string_from_chars, sub_chars, to_ascii_lowercase, trim,
    trim_seq,
};

verus! {

/// The server version, as the handshake and `VERSION()` report it.
pub const SERVER_VERSION: &'static str = "8.0.33-rusql";

/// `@@version_comment`.
pub const VERSION_COMMENT: &'static str = "8.0.33-rusql";

/// `@@sql_mode` (reported, not enforced).
pub const SQL_MODE_STUB: &'static str = "ONLY_FULL_GROUP_BY,STRICT_TRANS_TABLES,NO_ZERO_IN_DATE,NO_ZERO_DATE,ERROR_FOR_DIVISION_BY_ZERO,NO_ENGINE_SUBSTITUTION";

/// `@@collation_connection`.
pub const COLLATION_CONNECTION: &'static str = "utf8mb4_0900_ai_ci";

/// `@@auto_increment_increment` (reported, not honored).
pub const AUTO_INCREMENT_INCREMENT: &'static str = "1";

/// `@@time_zone`.
pub const TIME_ZONE: &'static str = "SYSTEM";

/// `@@system_time_zone`.
pub const SYSTEM_TIME_ZONE: &'static str = "UTC";

/// `@@transaction_isolation` / `@@tx_isolation`.
pub const TRANSACTION_ISOLATION: &'static str = "REPEATABLE-READ";

/// `@@max_allowed_packet`.
pub const MAX_ALLOWED_PACKET: &'static str = "67108864";

/// `@@license`.
pub const LICENSE: &'static str = "GPL";

/// The character set the `character_set_*` variables report.
pub const CHARSET: &'static str = "utf8mb4";

/// The documented default of a variable (by lower-case name), if it is one of the stubs.
pub open spec fn default_var(key: Seq<char>) -> Option<Seq<char>> {
    if key == "version"@ {
        Some(SERVER_VERSION@)
    } else if key == "version_comment"@ {
        Some(VERSION_COMMENT@)
    } else if key == "autocommit"@ {
        Some("1"@)
    } else if key == "sql_mode"@ {
        Some(SQL_MODE_STUB@)
    } else if key == "character_set_client"@ || key == "character_set_connection"@ || key
        == "character_set_results"@ || key == "character_set_server"@ {
        Some(CHARSET@)
    } else if key == "collation_connection"@ {
        Some(COLLATION_CONNECTION@)
    } else if key == "auto_increment_increment"@ {
        Some(AUTO_INCREMENT_INCREMENT@)
    } else if key == "time_zone"@ {
        Some(TIME_ZONE@)
    } else if key == "system_time_zone"@ {
        Some(SYSTEM_TIME_ZONE@)
    } else if key == "transaction_isolation"@ || key == "tx_isolation"@ {
        Some(TRANSACTION_ISOLATION@)
    } else if key == "max_allowed_packet"@ {
        Some(MAX_ALLOWED_PACKET@)
    } else if key == "license"@ {
        Some(LICENSE@)
    } else {
        None
    }
}

/// Error 1193 for an unknown variable, named as written.
pub open spec fn unknown_var_msg(cat: MessageCatalog, name: Seq<char>) -> Seq<char> {
    replace_seq(lookup_spec(cat@, "sql.unknown_system_variable"@), "%{name}"@, name)
}

/// The documented default of `key`, or error 1193 naming `display_name`.
pub fn default_session_var(cat: &MessageCatalog, key: &str, display_name: &str) -> (r: Result<String, ExecError>)
    ensures
        match default_var(key@) {
            Some(v) => r matches Ok(s) && s@ == v,
            None => r matches Err(ExecError::Mysql { code, message }) && code == 1193 && message@
                == unknown_var_msg(*cat, display_name@),
        },
{
    let v = if str_eq(key, "version") {
        SERVER_VERSION
    } else if str_eq(key, "version_comment") {
        VERSION_COMMENT
    } else if str_eq(key, "autocommit") {
        "1"
    } else if str_eq(key, "sql_mode") {
        SQL_MODE_STUB
    } else if str_eq(key, "character_set_client") || str_eq(key, "character_set_connection")
        || str_eq(key, "character_set_results") || str_eq(key, "character_set_server") {
        CHARSET
    } else if str_eq(key, "collation_connection") {
        COLLATION_CONNECTION
    } else if str_eq(key, "auto_increment_increment") {
        AUTO_INCREMENT_INCREMENT
    } else if str_eq(key, "time_zone") {
        TIME_ZONE
    } else if str_eq(key, "system_time_zone") {
        SYSTEM_TIME_ZONE
    } else if str_eq(key, "transaction_isolation") || str_eq(key, "tx_isolation") {
        TRANSACTION_ISOLATION
    } else if str_eq(key, "max_allowed_packet") {
        MAX_ALLOWED_PACKET
    } else if str_eq(key, "license") {
        LICENSE
    } else {
        return Err(
            ExecError::Mysql { code: 1193, message: sql_unknown_system_variable(cat, display_name) },
        );
    };
    Ok(owned(v))
}

/// The texts of a map of strings.
pub open spec fn vars_view(m: Map<Seq<char>, String>) -> Map<Seq<char>, Seq<char>> {
    m.map_values(|s: String| s@)
}

/// The value of a variable: the overlay's under its lower-case name, else its default.
pub open spec fn var_value(name: Seq<char>, overlay: Option<Map<Seq<char>, Seq<char>>>) -> Option<Seq<char>> {
    let key = ascii_lower_seq(name);
    match overlay {
        Some(m) => if m.contains_key(key) {
            Some(m[key])
        } else {
            default_var(key)
        },
        None => default_var(key),
    }
}

/// The overlay as plain values, when there is one.
pub open spec fn overlay_view(overlay: Option<&NameMap<String>>) -> Option<Map<Seq<char>, Seq<char>>> {
    match overlay {
        Some(m) => Some(vars_view(m@)),
        None => None,
    }
}

/// The value of a variable, or error 1193 for an unknown one.
pub fn lookup_session_var(cat: &MessageCatalog, name: &str, overlay: Option<&NameMap<String>>) -> (r: Result<String, ExecError>)
    ensures
        match var_value(name@, overlay_view(overlay)) {
            Some(v) => r matches Ok(s) && s@ == v,
            None => r matches Err(ExecError::Mysql { code, message }) && code == 1193 && message@
                == unknown_var_msg(*cat, name@),
        },
{
    let key = to_ascii_lowercase(name);
    match overlay {
        Some(m) => match m.get(key.as_str()) {
            Some(v) => {
                return Ok(owned(v.as_str()));
            },
            None => {},
        },
        None => {},
    }
    default_session_var(cat, key.as_str(), name)
}

/// `LIKE` matching of bytes: `%` matches any run, `_` any one byte, anything else itself.
pub open spec fn like_spec(name: Seq<u8>, pattern: Seq<u8>) -> bool
    decreases pattern.len(), name.len(),
{
    if pattern.len() == 0 {
        name.len() == 0
    } else if pattern[0] == 37u8 {
        like_spec(name, pattern.drop_first()) || (name.len() > 0 && like_spec(name.drop_first(), pattern))
    } else if pattern[0] == 95u8 {
        name.len() > 0 && like_spec(name.drop_first(), pattern.drop_first())
    } else {
        name.len() > 0 && name[0] == pattern[0] && like_spec(name.drop_first(), pattern.drop_first())
    }
}

/// `LIKE` matching of the bytes of `name` from `i` on against those of `pattern` from `j` on.
fn like_bytes(name: &[u8], i: usize, pattern: &[u8], j: usize) -> (r: bool)
    requires
        i <= name@.len(),
        j <= pattern@.len(),
    ensures
        r == like_spec(name@.skip(i as int), pattern@.skip(j as int)),
    decreases pattern@.len() - j, name@.len() - i,
{
    let ghost n = name@.skip(i as int);
    let ghost p = pattern@.skip(j as int);
    if j == pattern.len() {
        return i == name.len();
    }
    proof {
        assert(p[0] == pattern@[j as int]);
        assert(p.drop_first() =~= pattern@.skip(j + 1));
        if i < name@.len() {
            assert(n[0] == name@[i as int]);
            assert(n.drop_first() =~= name@.skip(i + 1));
        }
    }
    let c = pattern[j];
    if c == 37u8 {
        like_bytes(name, i, pattern, j + 1) || (i < name.len() && like_bytes(name, i + 1, pattern, j))
    } else if c == 95u8 {
        i < name.len() && like_bytes(name, i + 1, pattern, j + 1)
    } else {
        i < name.len() && name[i] == c && like_bytes(name, i + 1, pattern, j + 1)
    }
}

/// `LIKE` matching in any ASCII case.
pub open spec fn like_ci_spec(name: Seq<char>, pattern: Seq<char>) -> bool {
    like_spec(encode_utf8(ascii_lower_seq(name)), encode_utf8(ascii_lower_seq(pattern)))
}

/// Whether `name` matches the `LIKE` pattern in any ASCII case.
pub fn like_ci(name: &str, pattern: &str) -> (r: bool)
    ensures
        r == like_ci_spec(name@, pattern@),
{
    let n = to_ascii_lowercase(name);
    let p = to_ascii_lowercase(pattern);
    let nb = n.as_str().as_bytes();
    let pb = p.as_str().as_bytes();
    proof {
        assert(nb@.skip(0) =~= nb@);
        assert(pb@.skip(0) =~= pb@);
    }
    like_bytes(nb, 0, pb, 0)
}

/// The stub variables `SHOW VARIABLES` lists.
pub open spec fn stub_names() -> Seq<Seq<char>> {
    seq![
        "auto_increment_increment"@,
        "autocommit"@,
        "character_set_client"@,
        "character_set_connection"@,
        "character_set_results"@,
        "character_set_server"@,
        "collation_connection"@,
        "license"@,
        "max_allowed_packet"@,
        "sql_mode"@,
        "system_time_zone"@,
        "time_zone"@,
        "transaction_isolation"@,
        "tx_isolation"@,
        "version"@,
        "version_comment"@,
    ]
}

/// The rows `[name, value]` of the names with a value that match the pattern, in order.
pub open spec fn variable_rows(
    names: Seq<Seq<char>>,
    pattern: Option<Seq<char>>,
    overlay: Option<Map<Seq<char>, Seq<char>>>,
) -> Seq<Seq<Seq<char>>>
    decreases names.len(),
{
    if names.len() == 0 {
        Seq::empty()
    } else {
        let rest = variable_rows(names.drop_last(), pattern, overlay);
        let name = names.last();
        match var_value(name, overlay) {
            None => rest,
            Some(v) => if (match pattern {
                Some(p) => like_ci_spec(name, p),
                None => true,
            }) {
                rest.push(seq![name, v])
            } else {
                rest
            },
        }
    }
}

/// `SHOW [SESSION|GLOBAL] VARIABLES [LIKE pattern]`: the stub variables matching the pattern
/// (all without one), with the session's overlay applied unless `global`, sorted by name.
pub fn show_variables(
    cat: &MessageCatalog,
    pattern: Option<&str>,
    overlay: &NameMap<String>,
    global: bool,
) -> (r: QueryResult)
    ensures
        ({
            let rows = variable_rows(
                stub_names(),
                match pattern {
                    Some(p) => Some(p@),
                    None => None,
                },
                if global {
                    None
                } else {
                    Some(vars_view(overlay@))
                },
            );
            exists|order: Seq<usize>|
                #![trigger order.len()]
                stable_order(Seq::new(rows.len(), |i: int| seq![rows[i][0]]), order) && is_rows(
                    r,
                    seq!["Variable_name"@, "Value"@],
                    Seq::new(rows.len(), |i: int| rows[order[i] as int]),
                )
        }),
{
    let names: [&str; 16] = [
        "auto_increment_increment",
        "autocommit",
        "character_set_client",
        "character_set_connection",
        "character_set_results",
        "character_set_server",
        "collation_connection",
        "license",
        "max_allowed_packet",
        "sql_mode",
        "system_time_zone",
        "time_zone",
        "transaction_isolation",
        "tx_isolation",
        "version",
        "version_comment",
    ];
    let ghost nv = Seq::new(16, |i: int| names@[i]@);
    proof {
        assert(nv =~= stub_names());
    }
    let ghost pv = match pattern {
        Some(p) => Some(p@),
        None => None,
    };
    let ov: Option<&NameMap<String>> = if global {
        None
    } else {
        Some(overlay)
    };
    let ghost ovv = overlay_view(ov);
    let mut rows: Vec<Row> = Vec::new();
    let mut keys: Vec<Vec<String>> = Vec::new();
    let mut i: usize = 0;
    proof {
        assert(nv.take(0) =~= Seq::<Seq<char>>::empty());
    }
    while i < 16
        invariant
            i <= 16,
            nv == Seq::new(16, |i: int| names@[i]@),
            pv == match pattern {
                Some(p) => Some(p@),
                None => None,
            },
            ovv == overlay_view(ov),
            rows_view(rows@) == variable_rows(nv.take(i as int), pv, ovv),
            keys@.len() == rows@.len(),
            forall|k: int| 0 <= k < keys@.len() ==> #[trigger] texts_of(keys@[k]@) == seq![rows_view(rows@)[k][0]],
        decreases 16 - i,
    {
        let name = names[i];
        proof {
            assert(nv.take(i + 1).drop_last() =~= nv.take(i as int));
            assert(nv.take(i + 1).last() == name@);
        }
        match lookup_session_var(cat, name, ov) {
            Err(_) => {},
            Ok(value) => {
                let keep = match pattern {
                    Some(p) => like_ci(name, p),
                    None => true,
                };
                if keep {
                    let mut row: Row = Vec::new();
                    row.push(owned(name));
                    row.push(value);
                    let mut key: Vec<String> = Vec::new();
                    key.push(owned(name));
                    proof {
                        assert(texts(row@) =~= seq![name@, row@[1]@]);
                        assert(texts_of(key@) =~= seq![name@]);
                        lemma_rows_view_push(rows@, row);
                    }
                    rows.push(row);
                    keys.push(key);
                }
            },
        }
        i = i + 1;
    }
    proof {
        assert(nv.take(16) =~= nv);
    }
    let ghost all = variable_rows(stub_names(), pv, ovv);
    let order = stable_sort_order(&keys);
    proof {
        assert(Seq::new(keys@.len(), |k: int| texts_of(keys@[k]@)) =~= Seq::new(
            all.len(),
            |k: int| seq![all[k][0]],
        ));
    }
    let sorted = crate::info_schema::arrange(&rows, &order);
    let mut columns: Vec<String> = Vec::new();
    columns.push(owned("Variable_name"));
    columns.push(owned("Value"));
    proof {
        assert(texts(columns@) =~= seq!["Variable_name"@, "Value"@]);
        assert(order@.len() == all.len());
    }
    QueryResult::Rows { columns, rows: sorted }
}


/// The value expression of a `SET`, as far as the assignment reads it.
#[derive(Debug)]
pub enum SetValue {
    Null,
    /// A number, as written.
    Number(String),
    /// A quoted string.
    Text(String),
    Boolean(bool),
    /// A bare identifier, taken as text.
    Identifier(String),
    /// `-expr`.
    Negated(Box<SetValue>),
    /// Any other expression, as displayed.
    Other(String),
}

/// The text a `SET` value assigns, or (`Err`) the display text of an unsupported expression.
pub open spec fn set_value_spec(v: SetValue) -> Result<Seq<char>, Seq<char>>
    decreases v,
{
    match v {
        SetValue::Null => Ok(Seq::empty()),
        SetValue::Number(n) => Ok(n@),
        SetValue::Text(t) => Ok(t@),
        SetValue::Boolean(b) => Ok(if b { "1"@ } else { "0"@ }),
        SetValue::Identifier(id) => Ok(id@),
        SetValue::Negated(inner) => match set_value_spec(*inner) {
            Ok(t) => Ok("-"@ + t),
            Err(d) => Err(d),
        },
        SetValue::Other(d) => Err(d@),
    }
}

/// Error 1231 for a value a variable does not take.
pub open spec fn wrong_value_msg(cat: MessageCatalog, name: Seq<char>, value: Seq<char>) -> Seq<char> {
    replace_seq(replace_seq(lookup_spec(cat@, "sql.wrong_value_for_var"@), "%{name}"@, name), "%{value}"@, value)
}

/// The text a `SET` value assigns, or error 1231 for an unsupported expression.
fn expr_to_set_value(cat: &MessageCatalog, v: &SetValue) -> (r: Result<String, ExecError>)
    ensures
        match set_value_spec(*v) {
            Ok(t) => r matches Ok(s) && s@ == t,
            Err(d) => r matches Err(ExecError::Mysql { code, message }) && code == 1231 && message@
                == wrong_value_msg(*cat, "SET"@, d),
        },
    decreases v,
{
    match v {
        SetValue::Null => Ok(String::new()),
        SetValue::Number(n) => Ok(owned(n.as_str())),
        SetValue::Text(t) => Ok(owned(t.as_str())),
        SetValue::Boolean(b) => Ok(owned(if *b { "1" } else { "0" })),
        SetValue::Identifier(id) => Ok(owned(id.as_str())),
        SetValue::Negated(inner) => match expr_to_set_value(cat, inner) {
            Ok(t) => {
                let mut out: Vec<char> = Vec::new();
                crate::executor::push_str(&mut out, "-");
                crate::executor::push_str(&mut out, t.as_str());
                Ok(string_from_chars(out.as_slice()))
            },
            Err(e) => Err(e),
        },
        SetValue::Other(d) => Err(
            ExecError::Mysql { code: 1231, message: sql_wrong_value_for_var(cat, "SET", d.as_str()) },
        ),
    }
}

/// The overlay keys a variable is stored under (`transaction_isolation` and `tx_isolation`
/// together).
pub open spec fn overlay_keys_spec(name: Seq<char>) -> Seq<Seq<char>> {
    if name == "transaction_isolation"@ || name == "tx_isolation"@ {
        seq!["transaction_isolation"@, "tx_isolation"@]
    } else {
        seq![name]
    }
}

/// The overlay keys a variable is stored under.
fn overlay_keys(name: &str) -> (r: Vec<String>)
    ensures
        texts(r@) == overlay_keys_spec(name@),
{
    let mut out: Vec<String> = Vec::new();
    if str_eq(name, "transaction_isolation") || str_eq(name, "tx_isolation") {
        out.push(owned("transaction_isolation"));
        out.push(owned("tx_isolation"));
    } else {
        out.push(owned(name));
    }
    proof {
        assert(texts(out@) =~= overlay_keys_spec(name@));
    }
    out
}

/// The stored form of an assignment: `autocommit` takes `0`/`off`/`false`/`no` or
/// `1`/`on`/`true`/`yes` (any ASCII case, trimmed) as `0` or `1`; others are stored as given.
pub open spec fn normalize_spec(name: Seq<char>, raw: Seq<char>) -> Option<Seq<char>> {
    if name == "autocommit"@ {
        let v = ascii_lower_seq(trim_seq(raw));
        if v == "0"@ || v == "off"@ || v == "false"@ || v == "no"@ {
            Some("0"@)
        } else if v == "1"@ || v == "on"@ || v == "true"@ || v == "yes"@ {
            Some("1"@)
        } else {
            None
        }
    } else {
        Some(raw)
    }
}

/// The stored form of an assignment, or error 1231.
fn normalize_assignment(cat: &MessageCatalog, name: &str, raw: &str) -> (r: Result<String, ExecError>)
    ensures
        match normalize_spec(name@, raw@) {
            Some(v) => r matches Ok(s) && s@ == v,
            None => r matches Err(ExecError::Mysql { code, message }) && code == 1231 && message@
                == wrong_value_msg(*cat, name@, raw@),
        },
{
    if str_eq(name, "autocommit") {
        let t = trim(raw);
        let v = to_ascii_lowercase(t.as_str());
        let s = v.as_str();
        if str_eq(s, "0") || str_eq(s, "off") || str_eq(s, "false") || str_eq(s, "no") {
            return Ok(owned("0"));
        }
        if str_eq(s, "1") || str_eq(s, "on") || str_eq(s, "true") || str_eq(s, "yes") {
            return Ok(owned("1"));
        }
        return Err(
            ExecError::Mysql { code: 1231, message: sql_wrong_value_for_var(cat, name, raw) },
        );
    }
    Ok(owned(raw))
}

/// The scope of a system variable reference.
#[derive(Debug, Clone, Copy, PartialEq, Eq, Structural)]
pub enum SysVarScope {
    Session,
    Global,
}

/// `raw` without a leading `@@`, when it has one.
pub open spec fn strip_at_at_spec(raw: Seq<char>) -> Option<Seq<char>> {
    if starts_with_seq(raw, "@@"@) {
        Some(raw.skip(2))
    } else {
        None
    }
}

/// `raw` without a leading `@@`, when it has one.
fn strip_at_at(raw: &str) -> (r: Option<String>)
    ensures
        match strip_at_at_spec(raw@) {
            Some(t) => r matches Some(s) && s@ == t,
            None => r is None,
        },
{
    proof {
        reveal_strlit("@@");
    }
    if !starts_with(raw, "@@") {
        return None;
    }
    let v = str_chars(raw);
    let t = sub_chars(&v, 2, v.len());
    proof {
        assert(t@ =~= raw@.skip(2));
    }
    Some(string_from_chars(t.as_slice()))
}

/// Whether `s` names a scope (`session`, `local` or `global`, any ASCII case).
pub open spec fn is_scope_word(s: Seq<char>) -> bool {
    eq_ignore_case_seq(s, "session"@) || eq_ignore_case_seq(s, "local"@) || eq_ignore_case_seq(
        s,
        "global"@,
    )
}

/// The scope and name of `first` followed by the parts `rest`: a scope word before other parts
/// sets the scope (`global`, else session) and the name is the rest joined by `.`; otherwise
/// the session scope and all parts joined by `.`.
pub open spec fn scope_and_name_spec(first: Seq<char>, rest: Seq<Seq<char>>) -> (SysVarScope, Seq<char>) {
    if rest.len() == 0 {
        (SysVarScope::Session, first)
    } else if is_scope_word(first) {
        (
            if eq_ignore_case_seq(first, "global"@) {
                SysVarScope::Global
            } else {
                SysVarScope::Session
            },
            join(rest, "."@),
        )
    } else {
        (SysVarScope::Session, join(seq![first] + rest, "."@))
    }
}

/// The texts of `parts` from `from` on.
pub open spec fn parts_from(parts: Seq<String>, from: int) -> Seq<Seq<char>> {
    Seq::new((parts.len() - from) as nat, |i: int| parts[from + i]@)
}

/// The texts of `parts` from `from` on, joined by `.`, after `lead` when there is one.
fn join_parts(lead: Option<&str>, parts: &Vec<String>, from: usize) -> (r: String)
    requires
        from <= parts@.len(),
    ensures
        r@ == join(
            match lead {
                Some(l) => seq![l@] + parts_from(parts@, from as int),
                None => parts_from(parts@, from as int),
            },
            "."@,
        ),
{
    let mut v: Vec<String> = Vec::new();
    match lead {
        Some(l) => v.push(owned(l)),
        None => {},
    }
    let ghost base = texts(v@);
    let mut i = from;
    while i < parts.len()
        invariant
            from <= i <= parts@.len(),
            base == match lead {
                Some(l) => seq![l@],
                None => Seq::<Seq<char>>::empty(),
            },
            texts(v@) == base + parts_from(parts@, from as int).take(i - from),
        decreases parts@.len() - i,
    {
        let p = owned(parts[i].as_str());
        proof {
            crate::results::lemma_texts_push(v@, p);
        }
        v.push(p);
        i = i + 1;
        proof {
            assert(texts(v@) =~= base + parts_from(parts@, from as int).take(i - from));
        }
    }
    proof {
        assert(parts_from(parts@, from as int).take(i - from) =~= parts_from(parts@, from as int));
        assert(base + parts_from(parts@, from as int) =~= match lead {
            Some(l) => seq![l@] + parts_from(parts@, from as int),
            None => parts_from(parts@, from as int),
        });
    }
    crate::info_schema::join_texts(&v, ".")
}

/// The scope and name of `first` followed by `parts[from..]`.
fn scope_and_name(first: &str, parts: &Vec<String>, from: usize) -> (r: (SysVarScope, String))
    requires
        from <= parts@.len(),
    ensures
        (r.0, r.1@) == scope_and_name_spec(first@, parts_from(parts@, from as int)),
{
    if from == parts.len() {
        return (SysVarScope::Session, owned(first));
    }
    if eq_ignore_ascii_case(first, "session") || eq_ignore_ascii_case(first, "local")
        || eq_ignore_ascii_case(first, "global") {
        let scope = if eq_ignore_ascii_case(first, "global") {
            SysVarScope::Global
        } else {
            SysVarScope::Session
        };
        return (scope, join_parts(None, parts, from));
    }
    (SysVarScope::Session, join_parts(Some(first), parts, from))
}

/// The target of `SET name = …`: `@@[scope.]name`, `scope.name`, or a plain (dotted) name in
/// the session scope; error 1193 for an empty name.
pub open spec fn set_target_spec(parts: Seq<String>) -> Result<(SysVarScope, Seq<char>), ()> {
    if parts.len() == 0 {
        Err(())
    } else {
        let raw = parts[0]@;
        match strip_at_at_spec(raw) {
            Some(stripped) => Ok(scope_and_name_spec(stripped, parts_from(parts, 1))),
            None => if parts.len() > 1 && is_scope_word(raw) {
                Ok(scope_and_name_spec(raw, parts_from(parts, 1)))
            } else {
                Ok((SysVarScope::Session, join(parts_from(parts, 0), "."@)))
            },
        }
    }
}

/// The target of `SET name = …`.
fn parse_set_target(cat: &MessageCatalog, parts: &Vec<String>) -> (r: Result<(SysVarScope, String), ExecError>)
    ensures
        match set_target_spec(parts@) {
            Ok((sc, n)) => r matches Ok((a, b)) && a == sc && b@ == n,
            Err(_) => r matches Err(ExecError::Mysql { code, message }) && code == 1193 && message@
                == unknown_var_msg(*cat, ""@),
        },
{
    if parts.len() == 0 {
        return Err(ExecError::Mysql { code: 1193, message: sql_unknown_system_variable(cat, "") });
    }
    let raw = parts[0].as_str();
    match strip_at_at(raw) {
        Some(stripped) => {
            return Ok(scope_and_name(stripped.as_str(), parts, 1));
        },
        None => {},
    }
    if parts.len() > 1 && (eq_ignore_ascii_case(raw, "session") || eq_ignore_ascii_case(raw, "local")
        || eq_ignore_ascii_case(raw, "global")) {
        return Ok(scope_and_name(raw, parts, 1));
    }
    Ok((SysVarScope::Session, join_parts(None, parts, 0)))
}


/// Whether `raw` names a user variable: one `@`, not `@@`.
pub open spec fn is_user_var_name(raw: Seq<char>) -> bool {
    starts_with_seq(raw, "@"@) && !starts_with_seq(raw, "@@"@)
}

/// The variables that reject `SET`.
pub open spec fn readonly_var(key: Seq<char>) -> bool {
    key == "license"@ || key == "system_time_zone"@ || key == "version"@ || key
        == "version_comment"@
}

/// Whether `key` is one of the variables that reject `SET`.
fn is_readonly(key: &str) -> (r: bool)
    ensures
        r == readonly_var(key@),
{
    str_eq(key, "license") || str_eq(key, "system_time_zone") || str_eq(key, "version") || str_eq(
        key,
        "version_comment",
    )
}

/// `vars` with `v` stored under each of `keys` in turn.
pub open spec fn store_all(vars: Map<Seq<char>, Seq<char>>, keys: Seq<Seq<char>>, v: Seq<char>) -> Map<Seq<char>, Seq<char>>
    decreases keys.len(),
{
    if keys.len() == 0 {
        vars
    } else {
        store_all(vars, keys.drop_last(), v).insert(keys.last(), v)
    }
}

/// What a `SET` statement comes to: the overlay and user variables after it, or the error it
/// answers (an error number, none for a plain message, and the text).
pub enum SetOutcome {
    Done { vars: Map<Seq<char>, Seq<char>>, users: Map<Seq<char>, Seq<char>> },
    Fails { code: Option<u16>, message: Seq<char> },
}

/// Whether `e` is the error with number `code` (none: a plain message) and text `message`.
pub open spec fn fails_with(e: ExecError, code: Option<u16>, message: Seq<char>) -> bool {
    match e {
        ExecError::Message(m) => code is None && m@ == message,
        ExecError::Mysql { code: c, message: m } => code == Some(c) && m@ == message,
        ExecError::Storage(_) => false,
    }
}

/// The answer to a `SET` form with more than one assignment, or one the server does not take.
pub open spec fn multi_assign_fails(cat: MessageCatalog) -> SetOutcome {
    SetOutcome::Fails { code: None, message: lookup_spec(cat@, "sql.set_multi_assign_unsupported"@) }
}

/// `SET @name = value`: the value's text under the lower-case name, or error 1231.
pub open spec fn user_set_outcome(
    cat: MessageCatalog,
    raw: Seq<char>,
    value: SetValue,
    vars: Map<Seq<char>, Seq<char>>,
    users: Map<Seq<char>, Seq<char>>,
) -> SetOutcome {
    match set_value_spec(value) {
        Ok(t) => SetOutcome::Done { vars, users: users.insert(ascii_lower_seq(raw.skip(1)), t) },
        Err(d) => SetOutcome::Fails { code: Some(1231), message: wrong_value_msg(cat, "SET"@, d) },
    }
}

/// `SET [scope] name = value` on a system variable: error 1193 for an empty or unknown name,
/// 1229 for the global scope, 1238 for a read-only variable, 1231 for a value it does not take;
/// otherwise the stored form under each of its overlay keys.
pub open spec fn sysvar_set_outcome(
    cat: MessageCatalog,
    parts: Seq<String>,
    value: SetValue,
    vars: Map<Seq<char>, Seq<char>>,
    users: Map<Seq<char>, Seq<char>>,
) -> SetOutcome {
    match set_target_spec(parts) {
        Err(_) => SetOutcome::Fails { code: Some(1193), message: unknown_var_msg(cat, ""@) },
        Ok((scope, name)) => {
            let key = ascii_lower_seq(name);
            if scope == SysVarScope::Global {
                SetOutcome::Fails {
                    code: Some(1229),
                    message: replace_seq(
                        lookup_spec(cat@, "sql.set_global_rejected"@),
                        "%{name}"@,
                        name,
                    ),
                }
            } else if default_var(key) is None {
                SetOutcome::Fails { code: Some(1193), message: unknown_var_msg(cat, name) }
            } else if readonly_var(key) {
                SetOutcome::Fails {
                    code: Some(1238),
                    message: replace_seq(
                        lookup_spec(cat@, "sql.variable_is_readonly"@),
                        "%{name}"@,
                        key,
                    ),
                }
            } else {
                match set_value_spec(value) {
                    Err(d) => SetOutcome::Fails {
                        code: Some(1231),
                        message: wrong_value_msg(cat, "SET"@, d),
                    },
                    Ok(raw) => match normalize_spec(key, raw) {
                        None => SetOutcome::Fails {
                            code: Some(1231),
                            message: wrong_value_msg(cat, key, raw),
                        },
                        Some(stored) => SetOutcome::Done {
                            vars: store_all(vars, overlay_keys_spec(key), stored),
                            users,
                        },
                    },
                }
            }
        },
    }
}

/// `SET target = value`: exactly one assignment; a target whose first part is `@name` sets a
/// user variable, any other a system variable.
pub open spec fn set_variable_outcome(
    cat: MessageCatalog,
    variables: Seq<Vec<String>>,
    values: Seq<SetValue>,
    vars: Map<Seq<char>, Seq<char>>,
    users: Map<Seq<char>, Seq<char>>,
) -> SetOutcome {
    if variables.len() != 1 || values.len() != 1 {
        multi_assign_fails(cat)
    } else {
        let parts = variables[0]@;
        if parts.len() > 0 && is_user_var_name(parts[0]@) {
            user_set_outcome(cat, parts[0]@, values[0], vars, users)
        } else {
            sysvar_set_outcome(cat, parts, values[0], vars, users)
        }
    }
}

/// `SET NAMES charset [COLLATE collation]`: the three `character_set_*` variables take the
/// lower-case charset; `collation_connection` takes the collation, or the default collation
/// for `utf8mb4`, and is left alone otherwise.
pub open spec fn set_names_vars(
    vars: Map<Seq<char>, Seq<char>>,
    charset: Seq<char>,
    collation: Option<Seq<char>>,
) -> Map<Seq<char>, Seq<char>> {
    let cs = ascii_lower_seq(charset);
    let v = vars.insert("character_set_client"@, cs).insert("character_set_connection"@, cs).insert(
        "character_set_results"@,
        cs,
    );
    match collation {
        Some(c) => v.insert("collation_connection"@, c),
        None => if cs == CHARSET@ {
            v.insert("collation_connection"@, COLLATION_CONNECTION@)
        } else {
            v
        },
    }
}

/// `SET NAMES DEFAULT`: the connection character variables fall back to their defaults.
pub open spec fn set_names_default_vars(vars: Map<Seq<char>, Seq<char>>) -> Map<Seq<char>, Seq<char>> {
    vars.remove("character_set_client"@).remove("character_set_connection"@).remove(
        "character_set_results"@,
    ).remove("collation_connection"@)
}

/// A `SET` statement, as far as its execution reads it.
#[derive(Debug)]
pub enum SetStatement {
    /// `SET a = x[, b = y …]`: each target as its dotted name parts, and the values.
    Variable { variables: Vec<Vec<String>>, values: Vec<SetValue> },
    /// `SET NAMES charset [COLLATE collation]`.
    Names { charset: String, collation: Option<String> },
    /// `SET NAMES DEFAULT`.
    NamesDefault,
    /// Any other `SET` form.
    Other,
}

/// What `stmt` comes to on a session with the given overlay and user variables.
pub open spec fn set_outcome(
    cat: MessageCatalog,
    stmt: SetStatement,
    vars: Map<Seq<char>, Seq<char>>,
    users: Map<Seq<char>, Seq<char>>,
) -> SetOutcome {
    match stmt {
        SetStatement::Variable { variables, values } => set_variable_outcome(
            cat,
            variables@,
            values@,
            vars,
            users,
        ),
        SetStatement::Names { charset, collation } => SetOutcome::Done {
            vars: set_names_vars(
                vars,
                charset@,
                match collation {
                    Some(c) => Some(c@),
                    None => None,
                },
            ),
            users,
        },
        SetStatement::NamesDefault => SetOutcome::Done {
            vars: set_names_default_vars(vars),
            users,
        },
        SetStatement::Other => multi_assign_fails(cat),
    }
}

/// `a` and `b` agree on everything but the variables.
pub open spec fn same_but_vars(a: Session, b: Session) -> bool {
    &&& a.id == b.id
    &&& a.user == b.user
    &&& a.host == b.host
    &&& a.database == b.database
    &&& a.catalog == b.catalog
    &&& a.process_list == b.process_list
    &&& a.last_insert_id == b.last_insert_id
    &&& a.row_count == b.row_count
    &&& a.found_rows == b.found_rows
    &&& a.sql_calc_found_rows == b.sql_calc_found_rows
}

/// The session after `outcome`, and the result answered for it.
pub open spec fn set_done(
    outcome: SetOutcome,
    before: Session,
    after: Session,
    r: Result<QueryResult, ExecError>,
) -> bool {
    &&& same_but_vars(before, after)
    &&& match outcome {
        SetOutcome::Done { vars, users } => {
            &&& r matches Ok(QueryResult::Affected { rows_affected }) && rows_affected == 0
            &&& vars_view(after.session_vars@) == vars
            &&& vars_view(after.user_vars@) == users
        },
        SetOutcome::Fails { code, message } => {
            &&& r matches Err(e) && fails_with(e, code, message)
            &&& after.session_vars@ == before.session_vars@
            &&& after.user_vars@ == before.user_vars@
        },
    }
}

proof fn lemma_vars_view_insert(m: Map<Seq<char>, String>, k: Seq<char>, s: String)
    ensures
        vars_view(m.insert(k, s)) == vars_view(m).insert(k, s@),
{
    assert(vars_view(m.insert(k, s)) =~= vars_view(m).insert(k, s@));
}

proof fn lemma_vars_view_remove(m: Map<Seq<char>, String>, k: Seq<char>)
    ensures
        vars_view(m.remove(k)) == vars_view(m).remove(k),
{
    assert(vars_view(m.remove(k)) =~= vars_view(m).remove(k));
}

/// `SET @name = value`.
fn apply_user_var_set(cat: &MessageCatalog, session: &mut Session, raw_name: &str, value: &SetValue) -> (r: Result<QueryResult, ExecError>)
    requires
        is_user_var_name(raw_name@),
    ensures
        set_done(
            user_set_outcome(
                *cat,
                raw_name@,
                *value,
                vars_view(old(session).session_vars@),
                vars_view(old(session).user_vars@),
            ),
            *old(session),
            *final(session),
            r,
        ),
{
    proof {
        reveal_strlit("@");
    }
    let v = str_chars(raw_name);
    let rest = sub_chars(&v, 1, v.len());
    let rest_s = string_from_chars(rest.as_slice());
    let key = to_ascii_lowercase(rest_s.as_str());
    proof {
        assert(rest@ =~= raw_name@.skip(1));
    }
    let stored = match expr_to_set_value(cat, value) {
        Ok(t) => t,
        Err(e) => {
            return Err(e);
        },
    };
    proof {
        lemma_vars_view_insert(session.user_vars@, key@, stored);
    }
    session.user_vars.insert(key, stored);
    Ok(QueryResult::Affected { rows_affected: 0 })
}

/// `SET [scope] name = value` on a system variable.
fn apply_sysvar_set(cat: &MessageCatalog, session: &mut Session, parts: &Vec<String>, value: &SetValue) -> (r: Result<QueryResult, ExecError>)
    ensures
        set_done(
            sysvar_set_outcome(
                *cat,
                parts@,
                *value,
                vars_view(old(session).session_vars@),
                vars_view(old(session).user_vars@),
            ),
            *old(session),
            *final(session),
            r,
        ),
{
    let (scope, name) = match parse_set_target(cat, parts) {
        Ok(t) => t,
        Err(e) => {
            return Err(e);
        },
    };
    if scope == SysVarScope::Global {
        return Err(
            ExecError::Mysql { code: 1229, message: sql_set_global_rejected(cat, name.as_str()) },
        );
    }
    let key = to_ascii_lowercase(name.as_str());
    match default_session_var(cat, key.as_str(), name.as_str()) {
        Ok(_) => {},
        Err(e) => {
            return Err(e);
        },
    }
    if is_readonly(key.as_str()) {
        return Err(
            ExecError::Mysql { code: 1238, message: sql_variable_is_readonly(cat, key.as_str()) },
        );
    }
    let raw = match expr_to_set_value(cat, value) {
        Ok(t) => t,
        Err(e) => {
            return Err(e);
        },
    };
    let stored = match normalize_assignment(cat, key.as_str(), raw.as_str()) {
        Ok(t) => t,
        Err(e) => {
            return Err(e);
        },
    };
    let keys = overlay_keys(key.as_str());
    let ghost start = vars_view(session.session_vars@);
    let ghost ks = texts(keys@);
    let mut i: usize = 0;
    while i < keys.len()
        invariant
            i <= keys@.len(),
            ks == texts(keys@),
            same_but_vars(*old(session), *session),
            session.user_vars@ == old(session).user_vars@,
            vars_view(session.session_vars@) == store_all(start, ks.take(i as int), stored@),
        decreases keys@.len() - i,
    {
        let k = owned(keys[i].as_str());
        let sv = stored.clone();
        proof {
            lemma_vars_view_insert(session.session_vars@, k@, sv);
            assert(ks.take(i + 1).drop_last() =~= ks.take(i as int));
            assert(ks.take(i + 1).last() == k@);
        }
        session.session_vars.insert(k, sv);
        i = i + 1;
    }
    proof {
        assert(ks.take(i as int) =~= ks);
    }
    Ok(QueryResult::Affected { rows_affected: 0 })
}

/// `SET target = value` (exactly one assignment).
fn apply_set_variable(
    cat: &MessageCatalog,
    session: &mut Session,
    variables: &Vec<Vec<String>>,
    values: &Vec<SetValue>,
) -> (r: Result<QueryResult, ExecError>)
    ensures
        set_done(
            set_variable_outcome(
                *cat,
                variables@,
                values@,
                vars_view(old(session).session_vars@),
                vars_view(old(session).user_vars@),
            ),
            *old(session),
            *final(session),
            r,
        ),
{
    if variables.len() != 1 || values.len() != 1 {
        return Err(ExecError::Message(sql_set_multi_assign_unsupported(cat)));
    }
    let parts = &variables[0];
    if parts.len() > 0 {
        let raw = parts[0].as_str();
        proof {
            reveal_strlit("@");
            reveal_strlit("@@");
        }
        if starts_with(raw, "@") && !starts_with(raw, "@@") {
            return apply_user_var_set(cat, session, raw, &values[0]);
        }
    }
    apply_sysvar_set(cat, session, parts, &values[0])
}

/// `SET NAMES charset [COLLATE collation]`.
fn apply_set_names(session: &mut Session, charset: &str, collation: Option<&str>) -> (r: Result<QueryResult, ExecError>)
    ensures
        set_done(
            SetOutcome::Done {
                vars: set_names_vars(
                    vars_view(old(session).session_vars@),
                    charset@,
                    match collation {
                        Some(c) => Some(c@),
                        None => None,
                    },
                ),
                users: vars_view(old(session).user_vars@),
            },
            *old(session),
            *final(session),
            r,
        ),
{
    let cs = to_ascii_lowercase(charset);
    let c1 = cs.clone();
    proof {
        lemma_vars_view_insert(session.session_vars@, "character_set_client"@, c1);
    }
    session.session_vars.insert(owned("character_set_client"), c1);
    let c1 = cs.clone();
    proof {
        lemma_vars_view_insert(session.session_vars@, "character_set_connection"@, c1);
    }
    session.session_vars.insert(owned("character_set_connection"), c1);
    let c1 = cs.clone();
    proof {
        lemma_vars_view_insert(session.session_vars@, "character_set_results"@, c1);
    }
    session.session_vars.insert(owned("character_set_results"), c1);
    match collation {
        Some(c) => {
            let cv = owned(c);
            proof {
                lemma_vars_view_insert(session.session_vars@, "collation_connection"@, cv);
            }
            session.session_vars.insert(owned("collation_connection"), cv);
        },
        None => {
            if str_eq(cs.as_str(), CHARSET) {
                let cv = owned(COLLATION_CONNECTION);
                proof {
                    lemma_vars_view_insert(session.session_vars@, "collation_connection"@, cv);
                }
                session.session_vars.insert(owned("collation_connection"), cv);
            }
        },
    }
    Ok(QueryResult::Affected { rows_affected: 0 })
}

/// `SET NAMES DEFAULT`.
fn apply_set_names_default(session: &mut Session) -> (r: Result<QueryResult, ExecError>)
    ensures
        set_done(
            SetOutcome::Done {
                vars: set_names_default_vars(vars_view(old(session).session_vars@)),
                users: vars_view(old(session).user_vars@),
            },
            *old(session),
            *final(session),
            r,
        ),
{
    proof {
        lemma_vars_view_remove(session.session_vars@, "character_set_client"@);
    }
    session.session_vars.remove("character_set_client");
    proof {
        lemma_vars_view_remove(session.session_vars@, "character_set_connection"@);
    }
    session.session_vars.remove("character_set_connection");
    proof {
        lemma_vars_view_remove(session.session_vars@, "character_set_results"@);
    }
    session.session_vars.remove("character_set_results");
    proof {
        lemma_vars_view_remove(session.session_vars@, "collation_connection"@);
    }
    session.session_vars.remove("collation_connection");
    Ok(QueryResult::Affected { rows_affected: 0 })
}

/// Runs `SET @@…` / `SET SESSION …` / `SET NAMES …` / `SET @name …` on the session.
pub fn execute_set_statement(cat: &MessageCatalog, session: &mut Session, stmt: &SetStatement) -> (r: Result<QueryResult, ExecError>)
    ensures
        set_done(
            set_outcome(
                *cat,
                *stmt,
                vars_view(old(session).session_vars@),
                vars_view(old(session).user_vars@),
            ),
            *old(session),
            *final(session),
            r,
        ),
{
    match stmt {
        SetStatement::Variable { variables, values } => apply_set_variable(
            cat,
            session,
            variables,
            values,
        ),
        SetStatement::Names { charset, collation } => {
            let c = match collation {
                Some(c) => Some(c.as_str()),
                None => None,
            };
            apply_set_names(session, charset.as_str(), c)
        },
        SetStatement::NamesDefault => apply_set_names_default(session),
        SetStatement::Other => Err(ExecError::Message(sql_set_multi_assign_unsupported(cat))),
    }
}


/// An expression, as far as a variable reference is read from it.
#[derive(Debug)]
pub enum VarExpr {
    /// A single identifier (`@@version`, `@name`, `col`).
    Identifier(String),
    /// A dotted identifier (`@@session.autocommit`), by its parts.
    CompoundIdentifier(Vec<String>),
    /// Anything else.
    Other,
}

/// Whether an expression refers to a `@@` system variable.
pub open spec fn is_session_var_spec(e: VarExpr) -> bool {
    match e {
        VarExpr::Identifier(id) => starts_with_seq(id@, "@@"@),
        VarExpr::CompoundIdentifier(parts) => parts@.len() > 0 && starts_with_seq(parts@[0]@, "@@"@),
        VarExpr::Other => false,
    }
}

/// True when `expr` is a `@@` / `@@session.` system-variable reference.
pub fn is_session_var_expr(expr: &VarExpr) -> (r: bool)
    ensures
        r == is_session_var_spec(*expr),
{
    match expr {
        VarExpr::Identifier(id) => starts_with(id.as_str(), "@@"),
        VarExpr::CompoundIdentifier(parts) => parts.len() > 0 && starts_with(
            parts[0].as_str(),
            "@@",
        ),
        VarExpr::Other => false,
    }
}

/// The lower-case name of a user variable `@name`, when the expression is one.
pub open spec fn user_var_spec(e: VarExpr) -> Option<Seq<char>> {
    match e {
        VarExpr::Identifier(id) => if is_user_var_name(id@) {
            Some(ascii_lower_seq(id@.skip(1)))
        } else {
            None
        },
        _ => None,
    }
}

/// The lower-case name of a user variable `@name` (not `@@sysvar`).
fn user_var_name(expr: &VarExpr) -> (r: Option<String>)
    ensures
        match user_var_spec(*expr) {
            Some(n) => r matches Some(s) && s@ == n,
            None => r is None,
        },
{
    proof {
        reveal_strlit("@");
    }
    match expr {
        VarExpr::Identifier(id) => {
            let raw = id.as_str();
            if starts_with(raw, "@") && !starts_with(raw, "@@") {
                let v = str_chars(raw);
                let rest = sub_chars(&v, 1, v.len());
                proof {
                    assert(rest@ =~= raw@.skip(1));
                }
                let rest_s = string_from_chars(rest.as_slice());
                Some(to_ascii_lowercase(rest_s.as_str()))
            } else {
                None
            }
        },
        _ => None,
    }
}

/// True when `expr` is a user variable `@name` (not `@@sysvar`).
pub fn is_user_var_expr(expr: &VarExpr) -> (r: bool)
    ensures
        r == user_var_spec(*expr) is Some,
{
    user_var_name(expr).is_some()
}

/// The texts of a list of strings.
pub open spec fn part_texts(parts: Seq<String>) -> Seq<Seq<char>> {
    parts_from(parts, 0)
}

/// The result-set column name of a `@@` reference: the identifier, or the parts joined by `.`.
pub open spec fn output_name_spec(e: VarExpr) -> Option<Seq<char>> {
    if !is_session_var_spec(e) {
        None
    } else {
        match e {
            VarExpr::Identifier(id) => Some(id@),
            VarExpr::CompoundIdentifier(parts) => Some(join(part_texts(parts@), "."@)),
            VarExpr::Other => None,
        }
    }
}

/// Result-set column name for a `@@` reference (`@@version`, `@@session.autocommit`).
pub fn session_var_output_name(expr: &VarExpr) -> (r: Option<String>)
    ensures
        match output_name_spec(*expr) {
            Some(n) => r matches Some(s) && s@ == n,
            None => r is None,
        },
{
    if !is_session_var_expr(expr) {
        return None;
    }
    match expr {
        VarExpr::Identifier(id) => Some(owned(id.as_str())),
        VarExpr::CompoundIdentifier(parts) => Some(join_parts(None, parts, 0)),
        VarExpr::Other => None,
    }
}

/// The scope and name a `@@` reference names: `@@name` is the session's; `@@scope.name` and
/// `@@a.b` go by `scope_and_name_spec`.
pub open spec fn sysvar_ref_spec(e: VarExpr) -> Option<(SysVarScope, Seq<char>)> {
    match e {
        VarExpr::Identifier(id) => match strip_at_at_spec(id@) {
            Some(rest) => Some((SysVarScope::Session, rest)),
            None => None,
        },
        VarExpr::CompoundIdentifier(parts) => sysvar_parts_spec(parts@),
        VarExpr::Other => None,
    }
}

/// The scope and name a dotted `@@` reference names.
pub open spec fn sysvar_parts_spec(parts: Seq<String>) -> Option<(SysVarScope, Seq<char>)> {
    if parts.len() == 0 {
        None
    } else {
        match strip_at_at_spec(parts[0]@) {
            Some(rest) => Some(scope_and_name_spec(rest, parts_from(parts, 1))),
            None => None,
        }
    }
}

/// The scope and name of a dotted `@@` reference.
fn sysvar_ref_from_parts(parts: &Vec<String>) -> (r: Option<(SysVarScope, String)>)
    ensures
        match sysvar_parts_spec(parts@) {
            Some((sc, n)) => r matches Some((a, b)) && a == sc && b@ == n,
            None => r is None,
        },
{
    if parts.len() == 0 {
        return None;
    }
    match strip_at_at(parts[0].as_str()) {
        Some(rest) => Some(scope_and_name(rest.as_str(), parts, 1)),
        None => None,
    }
}

/// The scope and name of a `@@` reference.
fn sysvar_ref(expr: &VarExpr) -> (r: Option<(SysVarScope, String)>)
    ensures
        match sysvar_ref_spec(*expr) {
            Some((sc, n)) => r matches Some((a, b)) && a == sc && b@ == n,
            None => r is None,
        },
{
    match expr {
        VarExpr::Identifier(id) => match strip_at_at(id.as_str()) {
            Some(rest) => Some((SysVarScope::Session, rest)),
            None => None,
        },
        VarExpr::CompoundIdentifier(parts) => sysvar_ref_from_parts(parts),
        VarExpr::Other => None,
    }
}

/// Evaluates a `@@` reference: `Ok(None)` when `expr` is not one; else the variable's value,
/// where `@@global.` reads the defaults and the other scopes read the overlay first; error 1193
/// for an unknown variable.
pub fn eval_session_var(cat: &MessageCatalog, expr: &VarExpr, overlay: Option<&NameMap<String>>) -> (r: Result<Option<String>, ExecError>)
    ensures
        match sysvar_ref_spec(*expr) {
            None => r matches Ok(None),
            Some((scope, name)) => match var_value(
                name,
                if scope == SysVarScope::Global {
                    None
                } else {
                    overlay_view(overlay)
                },
            ) {
                Some(v) => r matches Ok(Some(s)) && s@ == v,
                None => r matches Err(ExecError::Mysql { code, message }) && code == 1193
                    && message@ == unknown_var_msg(*cat, name),
            },
        },
{
    let (scope, name) = match sysvar_ref(expr) {
        Some(t) => t,
        None => {
            return Ok(None);
        },
    };
    let ov = if scope == SysVarScope::Global {
        None
    } else {
        overlay
    };
    match lookup_session_var(cat, name.as_str(), ov) {
        Ok(v) => Ok(Some(v)),
        Err(e) => Err(e),
    }
}

/// Evaluates `@name`: `None` when `expr` is not a user variable; else its value in `overlay`,
/// empty (NULL) when it is unset.
pub fn eval_user_var(expr: &VarExpr, overlay: Option<&NameMap<String>>) -> (r: Option<String>)
    ensures
        match user_var_spec(*expr) {
            None => r is None,
            Some(n) => r matches Some(s) && s@ == match overlay_view(overlay) {
                Some(m) => if m.contains_key(n) {
                    m[n]
                } else {
                    Seq::empty()
                },
                None => Seq::empty(),
            },
        },
{
    let name = match user_var_name(expr) {
        Some(n) => n,
        None => {
            return None;
        },
    };
    match overlay {
        Some(m) => match m.get(name.as_str()) {
            Some(v) => Some(owned(v.as_str())),
            None => Some(String::new()),
        },
        None => Some(String::new()),
    }
}


proof fn lemma_store_all_contains(vars: Map<Seq<char>, Seq<char>>, keys: Seq<Seq<char>>, v: Seq<char>, k: Seq<char>)
    requires
        keys.contains(k),
    ensures
        store_all(vars, keys, v).contains_key(k),
        store_all(vars, keys, v)[k] == v,
    decreases keys.len(),
{
    if keys.last() != k {
        let i = choose|i: int| 0 <= i < keys.len() && keys[i] == k;
        assert(keys.drop_last()[i] == k);
        lemma_store_all_contains(vars, keys.drop_last(), v, k);
    }
}

/// A successful `SET [SESSION] name = value` on a system variable is what the session then
/// reads for that name: the stored form of the value.
pub proof fn lemma_set_then_read(
    cat: MessageCatalog,
    parts: Seq<String>,
    value: SetValue,
    vars: Map<Seq<char>, Seq<char>>,
    users: Map<Seq<char>, Seq<char>>,
)
    requires
        sysvar_set_outcome(cat, parts, value, vars, users) is Done,
    ensures
        set_target_spec(parts) matches Ok((_, name)) && set_value_spec(value) matches Ok(raw)
            && sysvar_set_outcome(cat, parts, value, vars, users) matches SetOutcome::Done {
            vars: after,
            ..
        } && var_value(name, Some(after)) == normalize_spec(ascii_lower_seq(name), raw),
{
    let (scope, name) = set_target_spec(parts)->Ok_0;
    let key = ascii_lower_seq(name);
    let raw = set_value_spec(value)->Ok_0;
    let stored = normalize_spec(key, raw)->Some_0;
    assert(overlay_keys_spec(key).contains(key)) by {
        if key == "transaction_isolation"@ {
            assert(overlay_keys_spec(key)[0] == key);
        } else if key == "tx_isolation"@ {
            assert(overlay_keys_spec(key)[1] == key);
        } else {
            assert(overlay_keys_spec(key)[0] == key);
        }
    }
    lemma_store_all_contains(vars, overlay_keys_spec(key), stored, key);
}

/// After `SET NAMES DEFAULT` the connection character variables read their defaults.
pub proof fn lemma_set_names_default_reads_defaults(vars: Map<Seq<char>, Seq<char>>, name: Seq<char>)
    requires
        ascii_lower_seq(name) == "character_set_client"@ || ascii_lower_seq(name)
            == "character_set_connection"@ || ascii_lower_seq(name) == "character_set_results"@
            || ascii_lower_seq(name) == "collation_connection"@,
    ensures
        var_value(name, Some(set_names_default_vars(vars))) == default_var(ascii_lower_seq(name)),
{
}

} // verus!

