//! `SHOW WARNINGS`, `SHOW ENGINES`, `SHOW CHARACTER SET`, `SHOW STATUS` and the `SHOW CREATE …`
//! and `SHOW … STATUS` listings of databases, users, routines, triggers and events.
use vstd::prelude::*;
use crate::catalog::{named_in, table_key_spec, table_storage_key, texts, Catalog, ColumnDef, IndexMeta, Session, TableMeta};
use crate::info_schema::{arrange, join_texts, lists_values, DEFAULT_CHARSET, DEFAULT_COLLATION};
use crate::results::{is_rows, lemma_rows_view_push, rows_view, QueryResult, Row};
use crate::session_vars::{like_ci, like_ci_spec};
use crate::sorting::{
    lemma_text_irreflexive, lemma_text_total, lemma_text_transitive, sort_strings, stable_order,
    stable_sort_order, text_less, texts_of, texts_sorted,
};
use crate::text::{
    decimal, eq_ignore_ascii_case, eq_ignore_case_seq, owned, starts_with_seq, str_chars, str_eq,
    u64_to_string,
};
use crate::messages::{
    event_not_found, function_not_found, lookup_spec, procedure_not_found, replace_all,
    replace_seq, sql_user_not_found, storage_database_not_found, trigger_not_found,
    MessageCatalog,
};
use crate::privileges::{account_display, find_account, join, PrivilegeStore};
use crate::programs::{program_key_spec, FunctionMeta, ProcedureMeta, TriggerEvent, TriggerMeta, TriggerTiming};
use crate::catalog::EventMeta;
use crate::results::{ExecError, StorageError};
use crate::name_map::NameMap;
use crate::executor::push_str;

verus! {

/// `rows` reordered stably by their keys (one key per row).
pub(crate) fn sorted_by_keys(rows: &Vec<Row>, keys: &Vec<Vec<String>>) -> (r: Vec<Row>)
    requires
        keys@.len() == rows@.len(),
    ensures
        exists|order: Seq<usize>|
            #![trigger order.len()]
            stable_order(Seq::new(keys@.len(), |i: int| texts_of(keys@[i]@)), order)
                && rows_view(r@) == Seq::new(rows@.len(), |i: int| rows_view(rows@)[order[i] as int]),
{
    let order = stable_sort_order(keys);
    proof {
        assert(order@.len() == rows@.len());
    }
    arrange(rows, &order)
}

/// `SHOW WARNINGS`: there are never any.
pub fn show_warnings() -> (r: QueryResult)
    ensures
        is_rows(r, seq!["Level"@, "Code"@, "Message"@], Seq::empty()),
{
    let columns: Vec<String> = vec![owned("Level"), owned("Code"), owned("Message")];
    let rows: Vec<Row> = Vec::new();
    proof {
        assert(texts(columns@) =~= seq!["Level"@, "Code"@, "Message"@]);
        assert(rows_view(rows@) =~= Seq::<Seq<Seq<char>>>::empty());
    }
    QueryResult::Rows { columns, rows }
}

/// A row of texts.
fn text_row(cells: &[&str]) -> (r: Row)
    ensures
        texts(r@) == Seq::new(cells@.len(), |i: int| cells@[i]@),
{
    let mut out: Row = Vec::new();
    let mut i: usize = 0;
    while i < cells.len()
        invariant
            i <= cells@.len(),
            texts(out@) == Seq::new(i as nat, |k: int| cells@[k]@),
        decreases cells@.len() - i,
    {
        let c = owned(cells[i]);
        proof {
            crate::results::lemma_texts_push(out@, c);
        }
        out.push(c);
        proof {
            assert(texts(out@) =~= Seq::new((i + 1) as nat, |k: int| cells@[k]@));
        }
        i = i + 1;
    }
    out
}

/// The columns of `SHOW ENGINES`.
pub open spec fn engine_columns() -> Seq<Seq<char>> {
    seq!["Engine"@, "Support"@, "Comment"@, "Transactions"@, "XA"@, "Savepoints"@]
}

/// The engines `SHOW ENGINES` lists (InnoDB the default).
pub open spec fn engine_rows() -> Seq<Seq<Seq<char>>> {
    seq![
        seq!["InnoDB"@, "DEFAULT"@, "Supports transactions, row-level locking, and foreign keys"@, "YES"@, "YES"@, "YES"@],
        seq!["MEMORY"@, "YES"@, "Hash based, stored in memory, useful for temporary tables"@, "NO"@, "NO"@, "NO"@],
        seq!["MyISAM"@, "YES"@, "MyISAM storage engine"@, "NO"@, "NO"@, "NO"@],
        seq!["PERFORMANCE_SCHEMA"@, "YES"@, "Performance Schema"@, "NO"@, "NO"@, "NO"@],
    ]
}

/// `SHOW ENGINES`.
pub fn show_engines() -> (r: QueryResult)
    ensures
        is_rows(r, engine_columns(), engine_rows()),
{
    let columns = text_row(&["Engine", "Support", "Comment", "Transactions", "XA", "Savepoints"]);
    let r0 = text_row(&["InnoDB", "DEFAULT", "Supports transactions, row-level locking, and foreign keys", "YES", "YES", "YES"]);
    let r1 = text_row(&["MEMORY", "YES", "Hash based, stored in memory, useful for temporary tables", "NO", "NO", "NO"]);
    let r2 = text_row(&["MyISAM", "YES", "MyISAM storage engine", "NO", "NO", "NO"]);
    let r3 = text_row(&["PERFORMANCE_SCHEMA", "YES", "Performance Schema", "NO", "NO", "NO"]);
    let rows: Vec<Row> = vec![r0, r1, r2, r3];
    proof {
        assert(texts(columns@) =~= engine_columns());
        assert(texts(r0@) =~= engine_rows()[0]);
        assert(texts(r1@) =~= engine_rows()[1]);
        assert(texts(r2@) =~= engine_rows()[2]);
        assert(texts(r3@) =~= engine_rows()[3]);
        assert(rows_view(rows@) =~= engine_rows());
    }
    QueryResult::Rows { columns, rows }
}

/// The one character set `SHOW CHARACTER SET` lists.
pub open spec fn charset_row() -> Seq<Seq<char>> {
    seq!["utf8mb4"@, "UTF-8 Unicode"@, DEFAULT_COLLATION@, "4"@]
}

/// `SHOW CHARACTER SET [LIKE pattern]`: `utf8mb4`, when it matches the pattern.
pub fn show_character_set(like: Option<&str>) -> (r: QueryResult)
    ensures
        is_rows(
            r,
            seq!["Charset"@, "Description"@, "Default collation"@, "Maxlen"@],
            if (match like {
                Some(p) => like_ci_spec("utf8mb4"@, p@),
                None => true,
            }) {
                seq![charset_row()]
            } else {
                Seq::empty()
            },
        ),
{
    let columns = text_row(&["Charset", "Description", "Default collation", "Maxlen"]);
    let row = text_row(&["utf8mb4", "UTF-8 Unicode", DEFAULT_COLLATION, "4"]);
    let keep = match like {
        Some(p) => like_ci("utf8mb4", p),
        None => true,
    };
    let mut rows: Vec<Row> = Vec::new();
    proof {
        assert(texts(columns@) =~= seq!["Charset"@, "Description"@, "Default collation"@, "Maxlen"@]);
        assert(texts(row@) =~= charset_row());
    }
    if keep {
        proof {
            lemma_rows_view_push(rows@, row);
        }
        rows.push(row);
        proof {
            assert(rows_view(rows@) =~= seq![charset_row()]);
        }
    } else {
        proof {
            assert(rows_view(rows@) =~= Seq::<Seq<Seq<char>>>::empty());
        }
    }
    QueryResult::Rows { columns, rows }
}

/// The status variables `SHOW STATUS` lists.
pub open spec fn status_names() -> Seq<Seq<char>> {
    seq![
        "Aborted_connects"@,
        "Bytes_received"@,
        "Bytes_sent"@,
        "Connections"@,
        "Open_tables"@,
        "Questions"@,
        "Slow_queries"@,
        "Threads_connected"@,
        "Threads_running"@,
        "Uptime"@,
    ]
}

/// The value of a status variable: `1` for `Connections` and `Threads_running`, the
/// connection count for `Threads_connected`, `0` for the rest.
pub open spec fn status_value(name: Seq<char>, threads_connected: Seq<char>) -> Seq<char> {
    if name == "Connections"@ || name == "Threads_running"@ {
        "1"@
    } else if name == "Threads_connected"@ {
        threads_connected
    } else {
        "0"@
    }
}

/// The value of a status variable.
fn stub_value(name: &str, threads_connected: &str) -> (r: String)
    ensures
        r@ == status_value(name@, threads_connected@),
{
    if str_eq(name, "Connections") || str_eq(name, "Threads_running") {
        owned("1")
    } else if str_eq(name, "Threads_connected") {
        owned(threads_connected)
    } else {
        owned("0")
    }
}

/// `Threads_connected`: the registry's connection count, `1` without a registry.
pub open spec fn threads_connected_spec(session: Session) -> Seq<char> {
    match session.process_list {
        Some(reg) => decimal(reg@.dom().len()),
        None => "1"@,
    }
}

/// `Threads_connected` of the session.
fn threads_connected(session: &Session) -> (r: String)
    ensures
        r@ == threads_connected_spec(*session),
{
    match &session.process_list {
        Some(reg) => u64_to_string(reg.connection_count()),
        None => owned("1"),
    }
}

/// The rows `[name, value]` of the status variables matching the pattern, in order.
pub open spec fn status_rows(names: Seq<Seq<char>>, pattern: Option<Seq<char>>, tc: Seq<char>) -> Seq<Seq<Seq<char>>>
    decreases names.len(),
{
    if names.len() == 0 {
        Seq::empty()
    } else {
        let rest = status_rows(names.drop_last(), pattern, tc);
        let name = names.last();
        if (match pattern {
            Some(p) => like_ci_spec(name, p),
            None => true,
        }) {
            rest.push(seq![name, status_value(name, tc)])
        } else {
            rest
        }
    }
}

/// `SHOW [SESSION|GLOBAL] STATUS [LIKE pattern]`: the stub status variables matching the
/// pattern, sorted by name.
pub fn show_status(pattern: Option<&str>, session: &Session) -> (r: QueryResult)
    ensures
        ({
            let rows = status_rows(
                status_names(),
                match pattern {
                    Some(p) => Some(p@),
                    None => None,
                },
                threads_connected_spec(*session),
            );
            exists|order: Seq<usize>|
                #![trigger order.len()]
                stable_order(Seq::new(rows.len(), |i: int| seq![rows[i][0]]), order) && is_rows(
                    r,
                    seq!["Variable_name"@, "Value"@],
                    Seq::new(rows.len(), |i: int| rows[order[i] as int]),
                )
        }),
{
    let names: [&str; 10] = [
        "Aborted_connects",
        "Bytes_received",
        "Bytes_sent",
        "Connections",
        "Open_tables",
        "Questions",
        "Slow_queries",
        "Threads_connected",
        "Threads_running",
        "Uptime",
    ];
    let ghost nv = Seq::new(10, |i: int| names@[i]@);
    proof {
        assert(nv =~= status_names());
    }
    let ghost pv = match pattern {
        Some(p) => Some(p@),
        None => None,
    };
    let tc = threads_connected(session);
    let mut rows: Vec<Row> = Vec::new();
    let mut keys: Vec<Vec<String>> = Vec::new();
    let mut i: usize = 0;
    proof {
        assert(nv.take(0) =~= Seq::<Seq<char>>::empty());
    }
    while i < 10
        invariant
            i <= 10,
            nv == Seq::new(10, |i: int| names@[i]@),
            pv == match pattern {
                Some(p) => Some(p@),
                None => None,
            },
            rows_view(rows@) == status_rows(nv.take(i as int), pv, tc@),
            keys@.len() == rows@.len(),
            forall|k: int| 0 <= k < keys@.len() ==> #[trigger] texts_of(keys@[k]@) == seq![rows_view(rows@)[k][0]],
        decreases 10 - i,
    {
        let name = names[i];
        proof {
            assert(nv.take(i + 1).drop_last() =~= nv.take(i as int));
            assert(nv.take(i + 1).last() == name@);
        }
        let keep = match pattern {
            Some(p) => like_ci(name, p),
            None => true,
        };
        if keep {
            let mut row: Row = Vec::new();
            row.push(owned(name));
            row.push(stub_value(name, tc.as_str()));
            let mut key: Vec<String> = Vec::new();
            key.push(owned(name));
            proof {
                assert(texts(row@) =~= seq![name@, row@[1]@]);
                assert(texts_of(key@) =~= seq![name@]);
                lemma_rows_view_push(rows@, row);
            }
            rows.push(row);
            keys.push(key);
        }
        i = i + 1;
    }
    proof {
        assert(nv.take(10) =~= nv);
    }
    let ghost all = status_rows(status_names(), pv, tc@);
    let sorted = sorted_by_keys(&rows, &keys);
    proof {
        assert(Seq::new(keys@.len(), |k: int| texts_of(keys@[k]@)) =~= Seq::new(
            all.len(),
            |k: int| seq![all[k][0]],
        ));
    }
    let columns = text_row(&["Variable_name", "Value"]);
    proof {
        assert(texts(columns@) =~= seq!["Variable_name"@, "Value"@]);
    }
    QueryResult::Rows { columns, rows: sorted }
}


/// `s` with each backquote doubled, as inside a quoted identifier.
pub open spec fn quote_ident(s: Seq<char>) -> Seq<char> {
    replace_seq(s, "`"@, "``"@)
}

/// Error 1049 for an unknown database.
pub open spec fn unknown_db_msg(cat: MessageCatalog, db: Seq<char>) -> Seq<char> {
    replace_seq(lookup_spec(cat@, "storage.database_not_found"@), "%{name}"@, db)
}

/// Whether `name` is among `databases` (exactly).
fn has_database(databases: &Vec<String>, name: &str) -> (r: bool)
    ensures
        r == texts(databases@).contains(name@),
{
    let mut i: usize = 0;
    while i < databases.len()
        invariant
            i <= databases@.len(),
            forall|j: int| 0 <= j < i ==> databases@[j]@ != name@,
        decreases databases@.len() - i,
    {
        if str_eq(databases[i].as_str(), name) {
            proof {
                assert(texts(databases@)[i as int] == name@);
            }
            return true;
        }
        i = i + 1;
    }
    proof {
        if texts(databases@).contains(name@) {
            let j = choose|j: int| 0 <= j < texts(databases@).len() && texts(databases@)[j] == name@;
            assert(databases@[j]@ == name@);
        }
    }
    false
}

/// The statement `SHOW CREATE DATABASE` reports.
pub open spec fn create_database_ddl(db: Seq<char>, charset: Seq<char>, collation: Seq<char>) -> Seq<char> {
    "CREATE DATABASE `"@ + quote_ident(db) + "` /*!40100 DEFAULT CHARACTER SET "@ + charset
        + " COLLATE "@ + collation + " */"@
}

/// The statement for `db` with the recorded character set and collation, or the defaults.
pub open spec fn create_database_text(db: Seq<char>, charset_collation: Option<(String, String)>) -> Seq<char> {
    match charset_collation {
        Some((cs, co)) => create_database_ddl(db, cs@, co@),
        None => create_database_ddl(db, DEFAULT_CHARSET@, DEFAULT_COLLATION@),
    }
}

/// `SHOW CREATE DATABASE db`, given the databases that exist and the character set and
/// collation recorded for `db` (the defaults when none are): error 1049 for an unknown
/// database.
pub fn show_create_database(
    cat: &MessageCatalog,
    databases: &Vec<String>,
    charset_collation: Option<(String, String)>,
    database: &str,
) -> (r: Result<QueryResult, ExecError>)
    ensures
        if !texts(databases@).contains(database@) {
            r matches Err(ExecError::Mysql { code, message }) && code == 1049 && message@
                == unknown_db_msg(*cat, database@)
        } else {
            r matches Ok(q) && is_rows(
            q,
            seq!["Database"@, "Create Database"@],
            seq![
                seq![database@, create_database_text(database@, charset_collation)],
            ],
        )
        },
{
    if !has_database(databases, database) {
        return Err(
            ExecError::Mysql { code: 1049, message: storage_database_not_found(cat, database) },
        );
    }
    let ghost given = charset_collation;
    let (charset, collation) = match charset_collation {
        Some((cs, co)) => (cs, co),
        None => (owned(DEFAULT_CHARSET), owned(DEFAULT_COLLATION)),
    };
    proof {
        match given {
            Some((cs, co)) => {
                assert(charset@ == cs@ && collation@ == co@);
            },
            None => {},
        }
    }
    let ident = replace_all(database, "`", "``");
    let mut out: Vec<char> = Vec::new();
    push_str(&mut out, "CREATE DATABASE `");
    push_str(&mut out, ident.as_str());
    push_str(&mut out, "` /*!40100 DEFAULT CHARACTER SET ");
    push_str(&mut out, charset.as_str());
    push_str(&mut out, " COLLATE ");
    push_str(&mut out, collation.as_str());
    push_str(&mut out, " */");
    proof {
        assert(out@ =~= create_database_ddl(database@, charset@, collation@));
    }
    let ddl = crate::text::string_from_chars(out.as_slice());
    let columns = text_row(&["Database", "Create Database"]);
    let row: Row = vec![owned(database), ddl];
    let rows: Vec<Row> = vec![row];
    proof {
        assert(texts(columns@) =~= seq!["Database"@, "Create Database"@]);
        assert(texts(row@) =~= seq![row@[0]@, row@[1]@]);
        assert(rows_view(rows@) =~= seq![texts(row@)]);
        assert(row@[0]@ == database@);
        assert(texts(row@) == seq![database@, ddl@]);
        assert(ddl@ == create_database_text(database@, given));
    }
    let q = QueryResult::Rows { columns, rows };
    proof {
        assert(is_rows(q, seq!["Database"@, "Create Database"@], seq![seq![database@, ddl@]]));
        assert(texts(databases@).contains(database@));
    }
    Ok(q)
}

/// The columns of `SHOW EVENTS`.
pub open spec fn event_list_columns() -> Seq<Seq<char>> {
    seq![
        "Db"@,
        "Name"@,
        "Definer"@,
        "Time zone"@,
        "Type"@,
        "Execute at"@,
        "Interval value"@,
        "Interval field"@,
        "Starts"@,
        "Ends"@,
        "Status"@,
        "Originator"@,
        "character_set_client"@,
        "collation_connection"@,
        "Database Collation"@,
    ]
}

/// The database a `SHOW … [FROM db]` reads: the named one, else the session's.
pub open spec fn db_or_current(database: Option<&str>, session: Session) -> Seq<char> {
    match database {
        Some(d) => d@,
        None => session.database@,
    }
}

/// `SHOW EVENTS [FROM db] [LIKE pattern]`: error 1049 for an unknown database, else no rows
/// (the listing is not kept).
pub fn show_events(
    cat: &MessageCatalog,
    databases: &Vec<String>,
    session: &Session,
    database: Option<&str>,
    like: Option<&str>,
) -> (r: Result<QueryResult, ExecError>)
    ensures
        if !texts(databases@).contains(db_or_current(database, *session)) {
            r matches Err(ExecError::Mysql { code, message }) && code == 1049 && message@
                == unknown_db_msg(*cat, db_or_current(database, *session))
        } else {
            r matches Ok(q) && is_rows(q, event_list_columns(), Seq::empty())
        },
{
    let db = match database {
        Some(d) => d,
        None => session.database.as_str(),
    };
    if !has_database(databases, db) {
        return Err(ExecError::Mysql { code: 1049, message: storage_database_not_found(cat, db) });
    }
    let columns = text_row(
        &[
            "Db",
            "Name",
            "Definer",
            "Time zone",
            "Type",
            "Execute at",
            "Interval value",
            "Interval field",
            "Starts",
            "Ends",
            "Status",
            "Originator",
            "character_set_client",
            "collation_connection",
            "Database Collation",
        ],
    );
    let rows: Vec<Row> = Vec::new();
    proof {
        assert(texts(columns@) =~= event_list_columns());
        assert(rows_view(rows@) =~= Seq::<Seq<Seq<char>>>::empty());
    }
    Ok(QueryResult::Rows { columns, rows })
}

/// The statement `SHOW CREATE USER` reports.
pub open spec fn create_user_ddl_spec(user: Seq<char>, host: Seq<char>, plugin: Seq<char>) -> Seq<char> {
    "CREATE USER `"@ + quote_ident(user) + "`@`"@ + quote_ident(host) + "` IDENTIFIED WITH '"@
        + replace_seq(plugin, "'"@, "''"@) + "'"@
}

/// The statement `SHOW CREATE USER` reports.
fn create_user_ddl(user: &str, host: &str, plugin: &str) -> (r: String)
    ensures
        r@ == create_user_ddl_spec(user@, host@, plugin@),
{
    let u = replace_all(user, "`", "``");
    let h = replace_all(host, "`", "``");
    let p = replace_all(plugin, "'", "''");
    let mut out: Vec<char> = Vec::new();
    push_str(&mut out, "CREATE USER `");
    push_str(&mut out, u.as_str());
    push_str(&mut out, "`@`");
    push_str(&mut out, h.as_str());
    push_str(&mut out, "` IDENTIFIED WITH '");
    push_str(&mut out, p.as_str());
    push_str(&mut out, "'");
    crate::text::string_from_chars(out.as_slice())
}

/// `SHOW CREATE USER user@host`: the account's statement, in a column named after the
/// account; error 3162 when there is no such account.
pub fn show_create_user(cat: &MessageCatalog, store: &PrivilegeStore, user: &str, host: &str) -> (r: Result<QueryResult, ExecError>)
    ensures
        match find_account(store@.1, user@, host@, 0) {
            None => r matches Err(ExecError::Mysql { code, message }) && code == 3162 && message@
                == replace_seq(
                lookup_spec(cat@, "sql.user_not_found"@),
                "%{account}"@,
                account_display(user@, host@),
            ),
            Some(k) => r matches Ok(q) && is_rows(
                q,
                seq!["CREATE USER for "@ + user@ + "@"@ + host@],
                seq![seq![create_user_ddl_spec(store@.1[k].0, store@.1[k].1, store@.1[k].2)]],
            ),
        },
{
    let account = match store.get_account(user, host) {
        Some(a) => a,
        None => {
            let shown = crate::privileges::Account::new(user, host).display();
            return Err(
                ExecError::Mysql { code: 3162, message: sql_user_not_found(cat, shown.as_str()) },
            );
        },
    };
    let mut col: Vec<char> = Vec::new();
    push_str(&mut col, "CREATE USER for ");
    push_str(&mut col, user);
    push_str(&mut col, "@");
    push_str(&mut col, host);
    let column = crate::text::string_from_chars(col.as_slice());
    let ddl = create_user_ddl(account.user.as_str(), account.host.as_str(), account.auth_plugin.as_str());
    let columns: Vec<String> = vec![column];
    let row: Row = vec![ddl];
    let rows: Vec<Row> = vec![row];
    proof {
        assert(texts(columns@) =~= seq![columns@[0]@]);
        assert(texts(row@) =~= seq![row@[0]@]);
        assert(rows_view(rows@) =~= seq![texts(row@)]);
    }
    Ok(QueryResult::Rows { columns, rows })
}


/// Whether a schema and name are `schema` and `name`, both in any ASCII case.
pub open spec fn ci_named(s: Seq<char>, n: Seq<char>, schema: Seq<char>, name: Seq<char>) -> bool {
    eq_ignore_case_seq(s, schema) && eq_ignore_case_seq(n, name)
}

/// The function `schema.name`, else the first whose schema and name match in any ASCII case.
fn find_function<'a>(session: &'a Session, schema: &str, name: &str) -> (r: Option<&'a FunctionMeta>)
    ensures
            r matches Some(m) ==> ci_named(m.schema@, m.name@, schema@, name@) && exists|k: Seq<char>|
                #[trigger] session.catalog.functions_view().contains_key(k) && session.catalog.functions_view()[k] == *m,
            r is None ==> forall|k: Seq<char>| #[trigger] session.catalog.functions_view().contains_key(k) ==> !ci_named(
                session.catalog.functions_view()[k].schema@,
                session.catalog.functions_view()[k].name@,
                schema@,
                name@,
            ),
{
    match session.catalog.get_function(schema, name) {
        Some(m) => {
            return Some(m);
        },
        None => {},
    }
    let all = session.catalog.iter_functions();
    let ghost ks = choose|ks: Seq<Seq<char>>| #![auto] ks.no_duplicates() && ks.to_set() == session.catalog.functions_view().dom()
        && ks.len() == all@.len() && forall|i: int| 0 <= i < all@.len() ==> *all@[i] == session.catalog.functions_view()[ks[i]];
    let mut i: usize = 0;
    while i < all.len()
        invariant
            i <= all@.len(),
            ks.to_set() == session.catalog.functions_view().dom(),
            ks.len() == all@.len(),
            forall|j: int| 0 <= j < all@.len() ==> *all@[j] == session.catalog.functions_view()[ks[j]],
            forall|j: int| 0 <= j < i ==> !ci_named(all@[j].schema@, all@[j].name@, schema@, name@),
        decreases all@.len() - i,
    {
        let m = all[i];
        if eq_ignore_ascii_case(m.schema.as_str(), schema) && eq_ignore_ascii_case(m.name.as_str(), name) {
            proof {
                assert(ks.to_set().contains(ks[i as int]));
                assert(session.catalog.functions_view().contains_key(ks[i as int]));
            }
            return Some(m);
        }
        i = i + 1;
    }
    proof {
        assert forall|k: Seq<char>| #[trigger] session.catalog.functions_view().contains_key(k) implies !ci_named(
            session.catalog.functions_view()[k].schema@,
            session.catalog.functions_view()[k].name@,
            schema@,
            name@,
        ) by {
            assert(ks.to_set().contains(k));
            let j = choose|j: int| 0 <= j < ks.len() && ks[j] == k;
            assert(*all@[j] == session.catalog.functions_view()[k]);
        }
    }
    None
}

/// The procedure `schema.name`, else the first whose schema and name match in any ASCII case.
fn find_procedure<'a>(session: &'a Session, schema: &str, name: &str) -> (r: Option<&'a ProcedureMeta>)
    ensures
            r matches Some(m) ==> (session.catalog.procedures_view().contains_key(program_key_spec(schema@, name@))
                && *m == session.catalog.procedures_view()[program_key_spec(schema@, name@)]) || (ci_named(
                m.schema@,
                m.name@,
                schema@,
                name@,
            ) && exists|k: Seq<char>|
                #[trigger] session.catalog.procedures_view().contains_key(k) && session.catalog.procedures_view()[k] == *m),
            r is None ==> !session.catalog.procedures_view().contains_key(program_key_spec(schema@, name@))
                && forall|k: Seq<char>| #[trigger] session.catalog.procedures_view().contains_key(k) ==> !ci_named(
                session.catalog.procedures_view()[k].schema@,
                session.catalog.procedures_view()[k].name@,
                schema@,
                name@,
            ),
{
    match session.catalog.get_procedure(schema, name) {
        Some(m) => {
            return Some(m);
        },
        None => {},
    }
    let all = session.catalog.iter_procedures();
    let ghost ks = choose|ks: Seq<Seq<char>>| #![auto] ks.no_duplicates() && ks.to_set() == session.catalog.procedures_view().dom()
        && ks.len() == all@.len() && forall|i: int| 0 <= i < all@.len() ==> *all@[i] == session.catalog.procedures_view()[ks[i]];
    let mut i: usize = 0;
    while i < all.len()
        invariant
            i <= all@.len(),
            ks.to_set() == session.catalog.procedures_view().dom(),
            ks.len() == all@.len(),
            forall|j: int| 0 <= j < all@.len() ==> *all@[j] == session.catalog.procedures_view()[ks[j]],
            forall|j: int| 0 <= j < i ==> !ci_named(all@[j].schema@, all@[j].name@, schema@, name@),
        decreases all@.len() - i,
    {
        let m = all[i];
        if eq_ignore_ascii_case(m.schema.as_str(), schema) && eq_ignore_ascii_case(m.name.as_str(), name) {
            proof {
                assert(ks.to_set().contains(ks[i as int]));
                assert(session.catalog.procedures_view().contains_key(ks[i as int]));
            }
            return Some(m);
        }
        i = i + 1;
    }
    proof {
        assert forall|k: Seq<char>| #[trigger] session.catalog.procedures_view().contains_key(k) implies !ci_named(
            session.catalog.procedures_view()[k].schema@,
            session.catalog.procedures_view()[k].name@,
            schema@,
            name@,
        ) by {
            assert(ks.to_set().contains(k));
            let j = choose|j: int| 0 <= j < ks.len() && ks[j] == k;
            assert(*all@[j] == session.catalog.procedures_view()[k]);
        }
    }
    None
}

/// The trigger `schema.name`, else the first whose schema and name match in any ASCII case.
fn find_trigger<'a>(session: &'a Session, schema: &str, name: &str) -> (r: Option<&'a TriggerMeta>)
    ensures
            r matches Some(m) ==> (session.catalog.triggers_view().contains_key(program_key_spec(schema@, name@))
                && *m == session.catalog.triggers_view()[program_key_spec(schema@, name@)]) || (ci_named(
                m.schema@,
                m.name@,
                schema@,
                name@,
            ) && exists|k: Seq<char>|
                #[trigger] session.catalog.triggers_view().contains_key(k) && session.catalog.triggers_view()[k] == *m),
            r is None ==> !session.catalog.triggers_view().contains_key(program_key_spec(schema@, name@))
                && forall|k: Seq<char>| #[trigger] session.catalog.triggers_view().contains_key(k) ==> !ci_named(
                session.catalog.triggers_view()[k].schema@,
                session.catalog.triggers_view()[k].name@,
                schema@,
                name@,
            ),
{
    match session.catalog.get_trigger(schema, name) {
        Some(m) => {
            return Some(m);
        },
        None => {},
    }
    let all = session.catalog.iter_triggers();
    let ghost ks = choose|ks: Seq<Seq<char>>| #![auto] ks.no_duplicates() && ks.to_set() == session.catalog.triggers_view().dom()
        && ks.len() == all@.len() && forall|i: int| 0 <= i < all@.len() ==> *all@[i] == session.catalog.triggers_view()[ks[i]];
    let mut i: usize = 0;
    while i < all.len()
        invariant
            i <= all@.len(),
            ks.to_set() == session.catalog.triggers_view().dom(),
            ks.len() == all@.len(),
            forall|j: int| 0 <= j < all@.len() ==> *all@[j] == session.catalog.triggers_view()[ks[j]],
            forall|j: int| 0 <= j < i ==> !ci_named(all@[j].schema@, all@[j].name@, schema@, name@),
        decreases all@.len() - i,
    {
        let m = all[i];
        if eq_ignore_ascii_case(m.schema.as_str(), schema) && eq_ignore_ascii_case(m.name.as_str(), name) {
            proof {
                assert(ks.to_set().contains(ks[i as int]));
                assert(session.catalog.triggers_view().contains_key(ks[i as int]));
            }
            return Some(m);
        }
        i = i + 1;
    }
    proof {
        assert forall|k: Seq<char>| #[trigger] session.catalog.triggers_view().contains_key(k) implies !ci_named(
            session.catalog.triggers_view()[k].schema@,
            session.catalog.triggers_view()[k].name@,
            schema@,
            name@,
        ) by {
            assert(ks.to_set().contains(k));
            let j = choose|j: int| 0 <= j < ks.len() && ks[j] == k;
            assert(*all@[j] == session.catalog.triggers_view()[k]);
        }
    }
    None
}

/// The event `schema.name`, else the first whose schema and name match in any ASCII case.
fn find_event<'a>(session: &'a Session, schema: &str, name: &str) -> (r: Option<&'a EventMeta>)
    ensures
            r matches Some(m) ==> ci_named(m.schema@, m.name@, schema@, name@) && exists|k: Seq<char>|
                #[trigger] session.catalog.events_view().contains_key(k) && session.catalog.events_view()[k] == *m,
            r is None ==> forall|k: Seq<char>| #[trigger] session.catalog.events_view().contains_key(k) ==> !ci_named(
                session.catalog.events_view()[k].schema@,
                session.catalog.events_view()[k].name@,
                schema@,
                name@,
            ),
{
    match session.catalog.get_event(schema, name) {
        Some(m) => {
            return Some(m);
        },
        None => {},
    }
    let all = session.catalog.iter_events();
    let ghost ks = choose|ks: Seq<Seq<char>>| #![auto] ks.no_duplicates() && ks.to_set() == session.catalog.events_view().dom()
        && ks.len() == all@.len() && forall|i: int| 0 <= i < all@.len() ==> *all@[i] == session.catalog.events_view()[ks[i]];
    let mut i: usize = 0;
    while i < all.len()
        invariant
            i <= all@.len(),
            ks.to_set() == session.catalog.events_view().dom(),
            ks.len() == all@.len(),
            forall|j: int| 0 <= j < all@.len() ==> *all@[j] == session.catalog.events_view()[ks[j]],
            forall|j: int| 0 <= j < i ==> !ci_named(all@[j].schema@, all@[j].name@, schema@, name@),
        decreases all@.len() - i,
    {
        let m = all[i];
        if eq_ignore_ascii_case(m.schema.as_str(), schema) && eq_ignore_ascii_case(m.name.as_str(), name) {
            proof {
                assert(ks.to_set().contains(ks[i as int]));
                assert(session.catalog.events_view().contains_key(ks[i as int]));
            }
            return Some(m);
        }
        i = i + 1;
    }
    proof {
        assert forall|k: Seq<char>| #[trigger] session.catalog.events_view().contains_key(k) implies !ci_named(
            session.catalog.events_view()[k].schema@,
            session.catalog.events_view()[k].name@,
            schema@,
            name@,
        ) by {
            assert(ks.to_set().contains(k));
            let j = choose|j: int| 0 <= j < ks.len() && ks[j] == k;
            assert(*all@[j] == session.catalog.events_view()[k]);
        }
    }
    None
}


/// Whether some `kind` of the catalog is `schema.name` by key, or matches in any ASCII case.
pub open spec fn function_found(c: Catalog, schema: Seq<char>, name: Seq<char>) -> bool {
    exists|k: Seq<char>| #[trigger] c.functions_view().contains_key(k) && ci_named(
        c.functions_view()[k].schema@,
        c.functions_view()[k].name@,
        schema,
        name,
    )
}

/// Whether `m` is a function of the catalog that matches `schema.name` in any ASCII case.
pub open spec fn function_candidate(c: Catalog, schema: Seq<char>, name: Seq<char>, m: FunctionMeta) -> bool {
    ci_named(m.schema@, m.name@, schema, name) && exists|k: Seq<char>|
        #[trigger] c.functions_view().contains_key(k) && c.functions_view()[k] == m
}

/// Whether the catalog has the procedure `schema.name`, or one that matches in any ASCII case.
pub open spec fn procedure_found(c: Catalog, schema: Seq<char>, name: Seq<char>) -> bool {
    c.procedures_view().contains_key(program_key_spec(schema, name)) || exists|k: Seq<char>|
        #[trigger] c.procedures_view().contains_key(k) && ci_named(
            c.procedures_view()[k].schema@,
            c.procedures_view()[k].name@,
            schema,
            name,
        )
}

/// Whether `m` is the procedure `schema.name`, or one that matches in any ASCII case.
pub open spec fn procedure_candidate(c: Catalog, schema: Seq<char>, name: Seq<char>, m: ProcedureMeta) -> bool {
    (c.procedures_view().contains_key(program_key_spec(schema, name)) && m
        == c.procedures_view()[program_key_spec(schema, name)]) || (ci_named(
        m.schema@,
        m.name@,
        schema,
        name,
    ) && exists|k: Seq<char>| #[trigger] c.procedures_view().contains_key(k) && c.procedures_view()[k] == m)
}

/// Whether the catalog has the trigger `schema.name`, or one that matches in any ASCII case.
pub open spec fn trigger_found(c: Catalog, schema: Seq<char>, name: Seq<char>) -> bool {
    c.triggers_view().contains_key(program_key_spec(schema, name)) || exists|k: Seq<char>|
        #[trigger] c.triggers_view().contains_key(k) && ci_named(
            c.triggers_view()[k].schema@,
            c.triggers_view()[k].name@,
            schema,
            name,
        )
}

/// Whether `m` is the trigger `schema.name`, or one that matches in any ASCII case.
pub open spec fn trigger_candidate(c: Catalog, schema: Seq<char>, name: Seq<char>, m: TriggerMeta) -> bool {
    (c.triggers_view().contains_key(program_key_spec(schema, name)) && m == c.triggers_view()[program_key_spec(
        schema,
        name,
    )]) || (ci_named(m.schema@, m.name@, schema, name) && exists|k: Seq<char>|
        #[trigger] c.triggers_view().contains_key(k) && c.triggers_view()[k] == m)
}

/// Whether the catalog has an event that matches `schema.name` in any ASCII case.
pub open spec fn event_found(c: Catalog, schema: Seq<char>, name: Seq<char>) -> bool {
    exists|k: Seq<char>| #[trigger] c.events_view().contains_key(k) && ci_named(
        c.events_view()[k].schema@,
        c.events_view()[k].name@,
        schema,
        name,
    )
}

/// Whether `m` is an event of the catalog that matches `schema.name` in any ASCII case.
pub open spec fn event_candidate(c: Catalog, schema: Seq<char>, name: Seq<char>, m: EventMeta) -> bool {
    ci_named(m.schema@, m.name@, schema, name) && exists|k: Seq<char>|
        #[trigger] c.events_view().contains_key(k) && c.events_view()[k] == m
}

/// The statement `SHOW CREATE FUNCTION` reports.
pub open spec fn function_ddl(m: FunctionMeta) -> Seq<char> {
    "CREATE FUNCTION `"@ + quote_ident(m.name@) + "`() RETURNS "@ + m.return_type@
        + " BEGIN RETURN "@ + m.return_expr@ + "; END"@
}

/// The statement `SHOW CREATE FUNCTION` reports.
fn create_function_ddl(m: &FunctionMeta) -> (r: String)
    ensures
        r@ == function_ddl(*m),
{
    let name = replace_all(m.name.as_str(), "`", "``");
    let mut out: Vec<char> = Vec::new();
    push_str(&mut out, "CREATE FUNCTION `");
    push_str(&mut out, name.as_str());
    push_str(&mut out, "`() RETURNS ");
    push_str(&mut out, m.return_type.as_str());
    push_str(&mut out, " BEGIN RETURN ");
    push_str(&mut out, m.return_expr.as_str());
    push_str(&mut out, "; END");
    crate::text::string_from_chars(out.as_slice())
}

/// The statement `SHOW CREATE PROCEDURE` reports: the statements joined by `; ` inside
/// `BEGIN … END`.
pub open spec fn procedure_ddl(m: ProcedureMeta) -> Seq<char> {
    "CREATE PROCEDURE `"@ + quote_ident(m.name@) + "`() BEGIN"@ + (if m.body@.len() == 0 {
        Seq::empty()
    } else {
        " "@ + join(texts(m.body@), "; "@) + ";"@
    }) + " END"@
}

/// The statement `SHOW CREATE PROCEDURE` reports.
fn create_procedure_ddl(m: &ProcedureMeta) -> (r: String)
    ensures
        r@ == procedure_ddl(*m),
{
    let name = replace_all(m.name.as_str(), "`", "``");
    let mut out: Vec<char> = Vec::new();
    push_str(&mut out, "CREATE PROCEDURE `");
    push_str(&mut out, name.as_str());
    push_str(&mut out, "`() BEGIN");
    if m.body.len() > 0 {
        let joined = join_texts(&m.body, "; ");
        push_str(&mut out, " ");
        push_str(&mut out, joined.as_str());
        push_str(&mut out, ";");
    }
    push_str(&mut out, " END");
    proof {
        assert(out@ =~= procedure_ddl(*m));
    }
    crate::text::string_from_chars(out.as_slice())
}

/// `INSERT`, `UPDATE` or `DELETE`.
pub open spec fn event_word(e: TriggerEvent) -> Seq<char> {
    match e {
        TriggerEvent::Insert => "INSERT"@,
        TriggerEvent::Update => "UPDATE"@,
        TriggerEvent::Delete => "DELETE"@,
    }
}

/// `BEFORE` or `AFTER`.
pub open spec fn timing_word(t: TriggerTiming) -> Seq<char> {
    match t {
        TriggerTiming::Before => "BEFORE"@,
        TriggerTiming::After => "AFTER"@,
    }
}

/// The name of a trigger event.
fn event_name(event: TriggerEvent) -> (r: &'static str)
    ensures
        r@ == event_word(event),
{
    match event {
        TriggerEvent::Insert => "INSERT",
        TriggerEvent::Update => "UPDATE",
        TriggerEvent::Delete => "DELETE",
    }
}

/// The name of a trigger timing.
fn timing_name(timing: TriggerTiming) -> (r: &'static str)
    ensures
        r@ == timing_word(timing),
{
    match timing {
        TriggerTiming::Before => "BEFORE",
        TriggerTiming::After => "AFTER",
    }
}

/// A trigger's body as written: one statement alone, else `BEGIN s1; s2 END`.
pub open spec fn body_text(body: Seq<Seq<char>>) -> Seq<char> {
    if body.len() == 1 {
        body[0]
    } else {
        "BEGIN "@ + join(body, "; "@) + " END"@
    }
}

/// A trigger's body as written.
fn reconstruct_body(body: &Vec<String>) -> (r: String)
    ensures
        r@ == body_text(texts(body@)),
{
    if body.len() == 1 {
        owned(body[0].as_str())
    } else {
        let joined = join_texts(body, "; ");
        let mut out: Vec<char> = Vec::new();
        push_str(&mut out, "BEGIN ");
        push_str(&mut out, joined.as_str());
        push_str(&mut out, " END");
        crate::text::string_from_chars(out.as_slice())
    }
}

/// The statement `SHOW CREATE TRIGGER` reports.
pub open spec fn trigger_ddl(m: TriggerMeta) -> Seq<char> {
    "CREATE TRIGGER `"@ + quote_ident(m.name@) + "` "@ + timing_word(m.timing) + " "@ + event_word(
        m.event,
    ) + " ON `"@ + quote_ident(m.table@) + "` FOR EACH ROW "@ + body_text(texts(m.body@))
}

/// The statement `SHOW CREATE TRIGGER` reports.
fn original_statement(m: &TriggerMeta) -> (r: String)
    ensures
        r@ == trigger_ddl(*m),
{
    let name = replace_all(m.name.as_str(), "`", "``");
    let table = replace_all(m.table.as_str(), "`", "``");
    let body = reconstruct_body(&m.body);
    let mut out: Vec<char> = Vec::new();
    push_str(&mut out, "CREATE TRIGGER `");
    push_str(&mut out, name.as_str());
    push_str(&mut out, "` ");
    push_str(&mut out, timing_name(m.timing));
    push_str(&mut out, " ");
    push_str(&mut out, event_name(m.event));
    push_str(&mut out, " ON `");
    push_str(&mut out, table.as_str());
    push_str(&mut out, "` FOR EACH ROW ");
    push_str(&mut out, body.as_str());
    crate::text::string_from_chars(out.as_slice())
}

/// An optional text, or `default`.
pub open spec fn text_or(v: Option<String>, default: Seq<char>) -> Seq<char> {
    match v {
        Some(s) => s@,
        None => default,
    }
}

/// An event's schedule: `EVERY n field [STARTS '…'] [ENDS '…']` when it recurs, else
/// `AT '…'`.
pub open spec fn schedule_text(m: EventMeta) -> Seq<char> {
    if eq_ignore_case_seq(m.schedule_type@, "RECURRING"@) {
        "EVERY "@ + text_or(m.interval_value, "1"@) + " "@ + text_or(m.interval_field, "HOUR"@) + (
        match m.starts {
            Some(st) => " STARTS '"@ + st@ + "'"@,
            None => Seq::empty(),
        }) + (match m.ends {
            Some(en) => " ENDS '"@ + en@ + "'"@,
            None => Seq::empty(),
        })
    } else {
        "AT '"@ + text_or(m.execute_at, ""@) + "'"@
    }
}

/// The statement `SHOW CREATE EVENT` reports.
pub open spec fn event_ddl(m: EventMeta) -> Seq<char> {
    "CREATE EVENT `"@ + quote_ident(m.name@) + "` ON SCHEDULE "@ + schedule_text(m) + " DO "@
        + m.body@
}

/// Appends an optional text, or `default`.
fn push_opt(out: &mut Vec<char>, v: &Option<String>, default: &str)
    ensures
        final(out)@ == old(out)@ + text_or(*v, default@),
{
    match v {
        Some(s) => push_str(out, s.as_str()),
        None => push_str(out, default),
    }
}

/// The statement `SHOW CREATE EVENT` reports.
fn create_event_ddl(m: &EventMeta) -> (r: String)
    ensures
        r@ == event_ddl(*m),
{
    let name = replace_all(m.name.as_str(), "`", "``");
    let mut sched: Vec<char> = Vec::new();
    if eq_ignore_ascii_case(m.schedule_type.as_str(), "RECURRING") {
        push_str(&mut sched, "EVERY ");
        push_opt(&mut sched, &m.interval_value, "1");
        push_str(&mut sched, " ");
        push_opt(&mut sched, &m.interval_field, "HOUR");
        let mut tail_s: Vec<char> = Vec::new();
        match &m.starts {
            Some(st) => {
                push_str(&mut tail_s, " STARTS '");
                push_str(&mut tail_s, st.as_str());
                push_str(&mut tail_s, "'");
            },
            None => {},
        }
        let mut tail_e: Vec<char> = Vec::new();
        match &m.ends {
            Some(en) => {
                push_str(&mut tail_e, " ENDS '");
                push_str(&mut tail_e, en.as_str());
                push_str(&mut tail_e, "'");
            },
            None => {},
        }
        proof {
            assert(tail_s@ =~= match m.starts {
                Some(st) => " STARTS '"@ + st@ + "'"@,
                None => Seq::<char>::empty(),
            });
            assert(tail_e@ =~= match m.ends {
                Some(en) => " ENDS '"@ + en@ + "'"@,
                None => Seq::<char>::empty(),
            });
        }
        push_str(&mut sched, crate::text::string_from_chars(tail_s.as_slice()).as_str());
        push_str(&mut sched, crate::text::string_from_chars(tail_e.as_slice()).as_str());
    } else {
        push_str(&mut sched, "AT '");
        push_opt(&mut sched, &m.execute_at, "");
        push_str(&mut sched, "'");
    }
    proof {
        assert(sched@ =~= schedule_text(*m));
    }
    let mut out: Vec<char> = Vec::new();
    push_str(&mut out, "CREATE EVENT `");
    push_str(&mut out, name.as_str());
    push_str(&mut out, "` ON SCHEDULE ");
    push_str(&mut out, crate::text::string_from_chars(sched.as_slice()).as_str());
    push_str(&mut out, " DO ");
    push_str(&mut out, m.body.as_str());
    crate::text::string_from_chars(out.as_slice())
}


/// The columns of `SHOW CREATE FUNCTION`.
pub open spec fn function_create_columns() -> Seq<Seq<char>> {
    seq!["Function"@, "sql_mode"@, "Create Function"@, "character_set_client"@, "collation_connection"@, "Database Collation"@]
}

/// The row `SHOW CREATE FUNCTION` reports for `m`.
pub open spec fn function_create_row(m: FunctionMeta) -> Seq<Seq<char>> {
    seq![m.name@, Seq::empty(), function_ddl(m), DEFAULT_CHARSET@, DEFAULT_COLLATION@, DEFAULT_COLLATION@]
}

/// `SHOW CREATE FUNCTION [db.]name` (the named function, else one matching in any ASCII case): error 1305 when there is none.
pub fn show_create_function(cat: &MessageCatalog, session: &Session, database: Option<&str>, name: &str) -> (r: Result<QueryResult, ExecError>)
    ensures
        r is Ok <==> function_found(session.catalog, db_or_current(database, *session), name@),
        r is Ok ==> exists|m: FunctionMeta| function_candidate(session.catalog, db_or_current(database, *session), name@, m)
            && (r matches Ok(q) && is_rows(q, function_create_columns(), seq![function_create_row(m)])),
        r is Err ==> (r matches Err(ExecError::Mysql { code, message }) && code == 1305 && message@
            == replace_seq(lookup_spec(cat@, "programs.function_not_found"@), "%{name}"@, name@)),
{
    let db = match database {
        Some(d) => d,
        None => session.database.as_str(),
    };
    let m = match find_function(session, db, name) {
        Some(m) => m,
        None => {
            return Err(ExecError::Mysql { code: 1305, message: function_not_found(cat, name) });
        },
    };
    let columns = text_row(&["Function", "sql_mode", "Create Function", "character_set_client", "collation_connection", "Database Collation"]);
    let row: Row = vec![
        owned(m.name.as_str()),
        String::new(),
        create_function_ddl(m),
        owned(DEFAULT_CHARSET),
        owned(DEFAULT_COLLATION),
        owned(DEFAULT_COLLATION),
    ];
    let rows: Vec<Row> = vec![row];
    proof {
        assert(texts(columns@) =~= function_create_columns());
        assert(texts(row@) =~= function_create_row(*m));
        assert(rows_view(rows@) =~= seq![function_create_row(*m)]);
        assert(function_candidate(session.catalog, db_or_current(database, *session), name@, *m));
    }
    let q = QueryResult::Rows { columns, rows };
    proof {
        assert(is_rows(q, function_create_columns(), seq![function_create_row(*m)]));
    }
    Ok(q)
}

/// The columns of `SHOW CREATE PROCEDURE`.
pub open spec fn procedure_create_columns() -> Seq<Seq<char>> {
    seq!["Procedure"@, "sql_mode"@, "Create Procedure"@, "character_set_client"@, "collation_connection"@, "Database Collation"@]
}

/// The row `SHOW CREATE PROCEDURE` reports for `m`.
pub open spec fn procedure_create_row(m: ProcedureMeta) -> Seq<Seq<char>> {
    seq![m.name@, Seq::empty(), procedure_ddl(m), DEFAULT_CHARSET@, DEFAULT_COLLATION@, DEFAULT_COLLATION@]
}

/// `SHOW CREATE PROCEDURE [db.]name` (the procedure `db.name`, else one matching in any ASCII case): error 1305 when there is none.
pub fn show_create_procedure(cat: &MessageCatalog, session: &Session, database: Option<&str>, name: &str) -> (r: Result<QueryResult, ExecError>)
    ensures
        r is Ok <==> procedure_found(session.catalog, db_or_current(database, *session), name@),
        r is Ok ==> exists|m: ProcedureMeta| procedure_candidate(session.catalog, db_or_current(database, *session), name@, m)
            && (r matches Ok(q) && is_rows(q, procedure_create_columns(), seq![procedure_create_row(m)])),
        r is Err ==> (r matches Err(ExecError::Mysql { code, message }) && code == 1305 && message@
            == replace_seq(lookup_spec(cat@, "programs.procedure_not_found"@), "%{name}"@, name@)),
{
    let db = match database {
        Some(d) => d,
        None => session.database.as_str(),
    };
    let m = match find_procedure(session, db, name) {
        Some(m) => m,
        None => {
            return Err(ExecError::Mysql { code: 1305, message: procedure_not_found(cat, name) });
        },
    };
    let columns = text_row(&["Procedure", "sql_mode", "Create Procedure", "character_set_client", "collation_connection", "Database Collation"]);
    let row: Row = vec![
        owned(m.name.as_str()),
        String::new(),
        create_procedure_ddl(m),
        owned(DEFAULT_CHARSET),
        owned(DEFAULT_COLLATION),
        owned(DEFAULT_COLLATION),
    ];
    let rows: Vec<Row> = vec![row];
    proof {
        assert(texts(columns@) =~= procedure_create_columns());
        assert(texts(row@) =~= procedure_create_row(*m));
        assert(rows_view(rows@) =~= seq![procedure_create_row(*m)]);
        assert(procedure_candidate(session.catalog, db_or_current(database, *session), name@, *m));
    }
    let q = QueryResult::Rows { columns, rows };
    proof {
        assert(is_rows(q, procedure_create_columns(), seq![procedure_create_row(*m)]));
    }
    Ok(q)
}

/// The columns of `SHOW CREATE TRIGGER`.
pub open spec fn trigger_create_columns() -> Seq<Seq<char>> {
    seq!["Trigger"@, "sql_mode"@, "SQL Original Statement"@, "character_set_client"@, "collation_connection"@, "Database Collation"@, "Created"@]
}

/// The row `SHOW CREATE TRIGGER` reports for `m`.
pub open spec fn trigger_create_row(m: TriggerMeta) -> Seq<Seq<char>> {
    seq![m.name@, Seq::empty(), trigger_ddl(m), DEFAULT_CHARSET@, DEFAULT_COLLATION@, DEFAULT_COLLATION@, Seq::empty()]
}

/// `SHOW CREATE TRIGGER [db.]name` (the trigger `db.name`, else one matching in any ASCII case): error 1360 when there is none.
pub fn show_create_trigger(cat: &MessageCatalog, session: &Session, database: Option<&str>, name: &str) -> (r: Result<QueryResult, ExecError>)
    ensures
        r is Ok <==> trigger_found(session.catalog, db_or_current(database, *session), name@),
        r is Ok ==> exists|m: TriggerMeta| trigger_candidate(session.catalog, db_or_current(database, *session), name@, m)
            && (r matches Ok(q) && is_rows(q, trigger_create_columns(), seq![trigger_create_row(m)])),
        r is Err ==> (r matches Err(ExecError::Mysql { code, message }) && code == 1360 && message@
            == replace_seq(lookup_spec(cat@, "programs.trigger_not_found"@), "%{name}"@, name@)),
{
    let db = match database {
        Some(d) => d,
        None => session.database.as_str(),
    };
    let m = match find_trigger(session, db, name) {
        Some(m) => m,
        None => {
            return Err(ExecError::Mysql { code: 1360, message: trigger_not_found(cat, name) });
        },
    };
    let columns = text_row(&["Trigger", "sql_mode", "SQL Original Statement", "character_set_client", "collation_connection", "Database Collation", "Created"]);
    let row: Row = vec![
        owned(m.name.as_str()),
        String::new(),
        original_statement(m),
        owned(DEFAULT_CHARSET),
        owned(DEFAULT_COLLATION),
        owned(DEFAULT_COLLATION),
        String::new(),
    ];
    let rows: Vec<Row> = vec![row];
    proof {
        assert(texts(columns@) =~= trigger_create_columns());
        assert(texts(row@) =~= trigger_create_row(*m));
        assert(rows_view(rows@) =~= seq![trigger_create_row(*m)]);
        assert(trigger_candidate(session.catalog, db_or_current(database, *session), name@, *m));
    }
    let q = QueryResult::Rows { columns, rows };
    proof {
        assert(is_rows(q, trigger_create_columns(), seq![trigger_create_row(*m)]));
    }
    Ok(q)
}

/// The columns of `SHOW CREATE EVENT`.
pub open spec fn event_create_columns() -> Seq<Seq<char>> {
    seq!["Event"@, "sql_mode"@, "time_zone"@, "Create Event"@, "character_set_client"@, "collation_connection"@, "Database Collation"@]
}

/// The row `SHOW CREATE EVENT` reports for `m`.
pub open spec fn event_create_row(m: EventMeta) -> Seq<Seq<char>> {
    seq![m.name@, Seq::empty(), "SYSTEM"@, event_ddl(m), DEFAULT_CHARSET@, DEFAULT_COLLATION@, DEFAULT_COLLATION@]
}

/// `SHOW CREATE EVENT [db.]name` (an event matching in any ASCII case): error 1539 when there is none.
pub fn show_create_event(cat: &MessageCatalog, session: &Session, database: Option<&str>, name: &str) -> (r: Result<QueryResult, ExecError>)
    ensures
        r is Ok <==> event_found(session.catalog, db_or_current(database, *session), name@),
        r is Ok ==> exists|m: EventMeta| event_candidate(session.catalog, db_or_current(database, *session), name@, m)
            && (r matches Ok(q) && is_rows(q, event_create_columns(), seq![event_create_row(m)])),
        r is Err ==> (r matches Err(ExecError::Mysql { code, message }) && code == 1539 && message@
            == replace_seq(lookup_spec(cat@, "programs.event_not_found"@), "%{name}"@, name@)),
{
    let db = match database {
        Some(d) => d,
        None => session.database.as_str(),
    };
    let m = match find_event(session, db, name) {
        Some(m) => m,
        None => {
            return Err(ExecError::Mysql { code: 1539, message: event_not_found(cat, name) });
        },
    };
    let columns = text_row(&["Event", "sql_mode", "time_zone", "Create Event", "character_set_client", "collation_connection", "Database Collation"]);
    let row: Row = vec![
        owned(m.name.as_str()),
        String::new(),
        owned("SYSTEM"),
        create_event_ddl(m),
        owned(DEFAULT_CHARSET),
        owned(DEFAULT_COLLATION),
        owned(DEFAULT_COLLATION),
    ];
    let rows: Vec<Row> = vec![row];
    proof {
        assert(texts(columns@) =~= event_create_columns());
        assert(texts(row@) =~= event_create_row(*m));
        assert(rows_view(rows@) =~= seq![event_create_row(*m)]);
        assert(event_candidate(session.catalog, db_or_current(database, *session), name@, *m));
    }
    let q = QueryResult::Rows { columns, rows };
    proof {
        assert(is_rows(q, event_create_columns(), seq![event_create_row(*m)]));
    }
    Ok(q)
}


/// The columns of `SHOW FUNCTION STATUS` and `SHOW PROCEDURE STATUS`.
pub open spec fn routine_status_columns() -> Seq<Seq<char>> {
    seq![
        "Db"@,
        "Name"@,
        "Type"@,
        "Definer"@,
        "Modified"@,
        "Created"@,
        "Security_type"@,
        "Comment"@,
        "character_set_client"@,
        "collation_connection"@,
        "Database Collation"@,
    ]
}

/// The status row of a routine.
pub open spec fn routine_status_row(schema: Seq<char>, name: Seq<char>, kind: Seq<char>) -> Seq<Seq<char>> {
    seq![
        schema,
        name,
        kind,
        "root@%"@,
        ""@,
        ""@,
        "DEFINER"@,
        ""@,
        DEFAULT_CHARSET@,
        DEFAULT_COLLATION@,
        DEFAULT_COLLATION@,
    ]
}

/// Whether `name` matches the optional pattern.
pub open spec fn like_opt(name: Seq<char>, pattern: Option<Seq<char>>) -> bool {
    match pattern {
        Some(p) => like_ci_spec(name, p),
        None => true,
    }
}

/// The status rows of the routines `(schema, name)` whose name matches the pattern, in order.
pub open spec fn routine_rows(items: Seq<(Seq<char>, Seq<char>)>, pattern: Option<Seq<char>>, kind: Seq<char>) -> Seq<Seq<Seq<char>>>
    decreases items.len(),
{
    if items.len() == 0 {
        Seq::empty()
    } else {
        let rest = routine_rows(items.drop_last(), pattern, kind);
        if like_opt(items.last().1, pattern) {
            rest.push(routine_status_row(items.last().0, items.last().1, kind))
        } else {
            rest
        }
    }
}

/// Whether `rows` are `listed` sorted stably by their first two cells.
pub open spec fn sorted_listing(listed: Seq<Seq<Seq<char>>>, rows: Seq<Seq<Seq<char>>>, key_cells: int) -> bool {
    exists|order: Seq<usize>|
        #![trigger order.len()]
        stable_order(Seq::new(listed.len(), |i: int| listed[i].take(key_cells)), order) && rows
            == Seq::new(listed.len(), |i: int| listed[order[i] as int])
}

/// The optional pattern as plain values.
pub open spec fn pattern_view(like: Option<&str>) -> Option<Seq<char>> {
    match like {
        Some(p) => Some(p@),
        None => None,
    }
}

/// The texts of `(schema, name)` pairs.
pub open spec fn item_texts(items: Seq<(&str, &str)>) -> Seq<(Seq<char>, Seq<char>)> {
    Seq::new(items.len(), |i: int| (items[i].0@, items[i].1@))
}

/// The `(schema, name)` of each function.
pub open spec fn function_items(fs: Seq<FunctionMeta>) -> Seq<(Seq<char>, Seq<char>)> {
    Seq::new(fs.len(), |i: int| (fs[i].schema@, fs[i].name@))
}

/// The `(schema, name)` of each procedure.
pub open spec fn procedure_items(ps: Seq<ProcedureMeta>) -> Seq<(Seq<char>, Seq<char>)> {
    Seq::new(ps.len(), |i: int| (ps[i].schema@, ps[i].name@))
}

/// The status rows of the routines `(schema, name)`, filtered and sorted.
fn routine_listing(items: &Vec<(&str, &str)>, like: Option<&str>, kind: &str) -> (r: QueryResult)
    ensures
        r matches QueryResult::Rows { columns, rows } && texts(columns@) == routine_status_columns()
            && sorted_listing(
            routine_rows(item_texts(items@), pattern_view(like), kind@),
            rows_view(rows@),
            2,
        ),
{
    let ghost its = item_texts(items@);
    let mut rows: Vec<Row> = Vec::new();
    let mut keys: Vec<Vec<String>> = Vec::new();
    let mut i: usize = 0;
    proof {
        assert(its.take(0) =~= Seq::<(Seq<char>, Seq<char>)>::empty());
    }
    while i < items.len()
        invariant
            i <= items@.len(),
            its == item_texts(items@),
            rows_view(rows@) == routine_rows(its.take(i as int), pattern_view(like), kind@),
            keys@.len() == rows@.len(),
            forall|k: int| 0 <= k < keys@.len() ==> #[trigger] texts_of(keys@[k]@) == rows_view(rows@)[k].take(2),
        decreases items@.len() - i,
    {
        let (schema, name) = items[i];
        proof {
            assert(its.take(i + 1).drop_last() =~= its.take(i as int));
            assert(its.take(i + 1).last() == (schema@, name@));
        }
        let keep = match like {
            Some(p) => like_ci(name, p),
            None => true,
        };
        if keep {
            let row = text_row(
                &[
                    schema,
                    name,
                    kind,
                    "root@%",
                    "",
                    "",
                    "DEFINER",
                    "",
                    DEFAULT_CHARSET,
                    DEFAULT_COLLATION,
                    DEFAULT_COLLATION,
                ],
            );
            let key: Vec<String> = vec![owned(schema), owned(name)];
            proof {
                assert(texts(row@) =~= routine_status_row(schema@, name@, kind@));
                assert(texts_of(key@) =~= texts(row@).take(2));
                lemma_rows_view_push(rows@, row);
            }
            rows.push(row);
            keys.push(key);
        }
        i = i + 1;
    }
    proof {
        assert(its.take(i as int) =~= its);
    }
    let ghost listed = routine_rows(its, pattern_view(like), kind@);
    let sorted = sorted_by_keys(&rows, &keys);
    proof {
        assert(Seq::new(keys@.len(), |k: int| texts_of(keys@[k]@)) =~= Seq::new(
            listed.len(),
            |k: int| listed[k].take(2),
        ));
        assert(sorted_listing(listed, rows_view(sorted@), 2));
    }
    let ghost w = rows_view(sorted@);
    let columns = text_row(
        &[
            "Db",
            "Name",
            "Type",
            "Definer",
            "Modified",
            "Created",
            "Security_type",
            "Comment",
            "character_set_client",
            "collation_connection",
            "Database Collation",
        ],
    );
    let q = QueryResult::Rows { columns, rows: sorted };
    proof {
        assert(texts(columns@) =~= routine_status_columns());
        assert(is_rows(q, routine_status_columns(), w));
        assert(sorted_listing(routine_rows(item_texts(items@), pattern_view(like), kind@), w, 2));
    }
    q
}

/// `SHOW FUNCTION STATUS [LIKE pattern]`: the functions whose name matches, sorted by schema
/// and name.
pub fn show_function_status(session: &Session, like: Option<&str>) -> (r: QueryResult)
    ensures
        exists|fs: Seq<FunctionMeta>|
            #![trigger fs.len()]
            lists_values(session.catalog.functions_view(), fs) && (r matches QueryResult::Rows {
                columns,
                rows,
            } && texts(columns@) == routine_status_columns() && sorted_listing(
                routine_rows(function_items(fs), pattern_view(like), "FUNCTION"@),
                rows_view(rows@),
                2,
            )),
{
    let all = session.catalog.iter_functions();
    let ghost fs = Seq::new(all@.len(), |i: int| *all@[i]);
    let mut items: Vec<(&str, &str)> = Vec::new();
    let mut i: usize = 0;
    while i < all.len()
        invariant
            i <= all@.len(),
            items@.len() == i,
            forall|k: int| 0 <= k < i ==> (#[trigger] items@[k]).0@ == all@[k].schema@,
            forall|k: int| 0 <= k < i ==> (#[trigger] items@[k]).1@ == all@[k].name@,
        decreases all@.len() - i,
    {
        let f = all[i];
        items.push((f.schema.as_str(), f.name.as_str()));
        i = i + 1;
    }
    let r = routine_listing(&items, like, "FUNCTION");
    proof {
        assert(item_texts(items@) =~= function_items(fs));
        let ks = choose|ks: Seq<Seq<char>>|
            #![auto]
            ks.no_duplicates() && ks.to_set() == session.catalog.functions_view().dom() && ks.len()
                == all@.len() && forall|i: int|
                0 <= i < all@.len() ==> *all@[i] == session.catalog.functions_view()[ks[i]];
        assert(ks.len() == fs.len());
        assert(lists_values(session.catalog.functions_view(), fs));
        assert(fs.len() == fs.len());
    }
    r
}

/// `SHOW PROCEDURE STATUS [LIKE pattern]`: the procedures whose name matches, sorted by schema
/// and name.
pub fn show_procedure_status(session: &Session, like: Option<&str>) -> (r: QueryResult)
    ensures
        exists|ps: Seq<ProcedureMeta>|
            #![trigger ps.len()]
            lists_values(session.catalog.procedures_view(), ps) && (r matches QueryResult::Rows {
                columns,
                rows,
            } && texts(columns@) == routine_status_columns() && sorted_listing(
                routine_rows(procedure_items(ps), pattern_view(like), "PROCEDURE"@),
                rows_view(rows@),
                2,
            )),
{
    let all = session.catalog.iter_procedures();
    let ghost ps = Seq::new(all@.len(), |i: int| *all@[i]);
    let mut items: Vec<(&str, &str)> = Vec::new();
    let mut i: usize = 0;
    while i < all.len()
        invariant
            i <= all@.len(),
            items@.len() == i,
            forall|k: int| 0 <= k < i ==> (#[trigger] items@[k]).0@ == all@[k].schema@,
            forall|k: int| 0 <= k < i ==> (#[trigger] items@[k]).1@ == all@[k].name@,
        decreases all@.len() - i,
    {
        let p = all[i];
        items.push((p.schema.as_str(), p.name.as_str()));
        i = i + 1;
    }
    let r = routine_listing(&items, like, "PROCEDURE");
    proof {
        assert(item_texts(items@) =~= procedure_items(ps));
        let ks = choose|ks: Seq<Seq<char>>|
            #![auto]
            ks.no_duplicates() && ks.to_set() == session.catalog.procedures_view().dom() && ks.len()
                == all@.len() && forall|i: int|
                0 <= i < all@.len() ==> *all@[i] == session.catalog.procedures_view()[ks[i]];
        assert(ks.len() == ps.len());
        assert(lists_values(session.catalog.procedures_view(), ps));
        assert(ps.len() == ps.len());
    }
    r
}


/// The columns of `SHOW TRIGGERS`.
pub open spec fn trigger_list_columns() -> Seq<Seq<char>> {
    seq![
        "Trigger"@,
        "Event"@,
        "Table"@,
        "Statement"@,
        "Timing"@,
        "Created"@,
        "sql_mode"@,
        "Definer"@,
        "character_set_client"@,
        "collation_connection"@,
        "Database Collation"@,
    ]
}

/// The `SHOW TRIGGERS` row of a trigger; the key it sorts by is its table, then its name.
pub open spec fn trigger_list_row(t: TriggerMeta) -> Seq<Seq<char>> {
    seq![
        t.name@,
        event_word(t.event),
        t.table@,
        join(texts(t.body@), "; "@),
        timing_word(t.timing),
        ""@,
        ""@,
        "root@%"@,
        DEFAULT_CHARSET@,
        DEFAULT_COLLATION@,
        DEFAULT_COLLATION@,
    ]
}

/// The rows of the triggers of schema `db` whose name matches the pattern, in order.
pub open spec fn trigger_rows(ts: Seq<TriggerMeta>, db: Seq<char>, pattern: Option<Seq<char>>) -> Seq<Seq<Seq<char>>>
    decreases ts.len(),
{
    if ts.len() == 0 {
        Seq::empty()
    } else {
        let rest = trigger_rows(ts.drop_last(), db, pattern);
        let t = ts.last();
        if t.schema@ == db && like_opt(t.name@, pattern) {
            rest.push(trigger_list_row(t))
        } else {
            rest
        }
    }
}

/// Whether `rows` are `listed` sorted stably by table, then name.
pub open spec fn sorted_by_table(listed: Seq<Seq<Seq<char>>>, rows: Seq<Seq<Seq<char>>>) -> bool {
    exists|order: Seq<usize>|
        #![trigger order.len()]
        stable_order(Seq::new(listed.len(), |i: int| seq![listed[i][2], listed[i][0]]), order)
            && rows == Seq::new(listed.len(), |i: int| listed[order[i] as int])
}

/// `SHOW TRIGGERS [FROM db] [LIKE pattern]`: error 1049 for an unknown database, else the
/// triggers of the database whose name matches, sorted by table and name.
pub fn show_triggers(
    cat: &MessageCatalog,
    databases: &Vec<String>,
    session: &Session,
    database: Option<&str>,
    like: Option<&str>,
) -> (r: Result<QueryResult, ExecError>)
    ensures
        if !texts(databases@).contains(db_or_current(database, *session)) {
            r matches Err(ExecError::Mysql { code, message }) && code == 1049 && message@
                == unknown_db_msg(*cat, db_or_current(database, *session))
        } else {
            exists|ts: Seq<TriggerMeta>|
                #![trigger ts.len()]
                lists_values(session.catalog.triggers_view(), ts) && (r matches Ok(
                    QueryResult::Rows { columns, rows },
                ) && texts(columns@) == trigger_list_columns() && sorted_by_table(
                    trigger_rows(ts, db_or_current(database, *session), pattern_view(like)),
                    rows_view(rows@),
                ))
        },
{
    let db = match database {
        Some(d) => d,
        None => session.database.as_str(),
    };
    if !has_database(databases, db) {
        return Err(ExecError::Mysql { code: 1049, message: storage_database_not_found(cat, db) });
    }
    let all = session.catalog.iter_triggers();
    let ghost ts = Seq::new(all@.len(), |i: int| *all@[i]);
    let mut rows: Vec<Row> = Vec::new();
    let mut keys: Vec<Vec<String>> = Vec::new();
    let mut i: usize = 0;
    proof {
        assert(ts.take(0) =~= Seq::<TriggerMeta>::empty());
    }
    while i < all.len()
        invariant
            i <= all@.len(),
            ts == Seq::new(all@.len(), |i: int| *all@[i]),
            rows_view(rows@) == trigger_rows(ts.take(i as int), db@, pattern_view(like)),
            keys@.len() == rows@.len(),
            forall|k: int| 0 <= k < keys@.len() ==> #[trigger] texts_of(keys@[k]@) == seq![
                rows_view(rows@)[k][2],
                rows_view(rows@)[k][0],
            ],
        decreases all@.len() - i,
    {
        let t = all[i];
        proof {
            assert(ts.take(i + 1).drop_last() =~= ts.take(i as int));
            assert(ts.take(i + 1).last() == *t);
        }
        let keep = str_eq(t.schema.as_str(), db) && match like {
            Some(p) => like_ci(t.name.as_str(), p),
            None => true,
        };
        if keep {
            let body = join_texts(&t.body, "; ");
            let row: Row = vec![
                owned(t.name.as_str()),
                owned(event_name(t.event)),
                owned(t.table.as_str()),
                body,
                owned(timing_name(t.timing)),
                owned(""),
                owned(""),
                owned("root@%"),
                owned(DEFAULT_CHARSET),
                owned(DEFAULT_COLLATION),
                owned(DEFAULT_COLLATION),
            ];
            let key: Vec<String> = vec![owned(t.table.as_str()), owned(t.name.as_str())];
            proof {
                assert(texts(row@) =~= trigger_list_row(*t));
                assert(texts_of(key@) =~= seq![texts(row@)[2], texts(row@)[0]]);
                lemma_rows_view_push(rows@, row);
            }
            rows.push(row);
            keys.push(key);
        }
        i = i + 1;
    }
    proof {
        assert(ts.take(i as int) =~= ts);
    }
    let ghost listed = trigger_rows(ts, db@, pattern_view(like));
    let sorted = sorted_by_keys(&rows, &keys);
    proof {
        assert(Seq::new(keys@.len(), |k: int| texts_of(keys@[k]@)) =~= Seq::new(
            listed.len(),
            |k: int| seq![listed[k][2], listed[k][0]],
        ));
        assert(sorted_by_table(listed, rows_view(sorted@)));
    }
    let columns = text_row(
        &[
            "Trigger",
            "Event",
            "Table",
            "Statement",
            "Timing",
            "Created",
            "sql_mode",
            "Definer",
            "character_set_client",
            "collation_connection",
            "Database Collation",
        ],
    );
    proof {
        assert(texts(columns@) =~= trigger_list_columns());
        let ks = choose|ks: Seq<Seq<char>>|
            #![auto]
            ks.no_duplicates() && ks.to_set() == session.catalog.triggers_view().dom() && ks.len()
                == all@.len() && forall|i: int|
                0 <= i < all@.len() ==> *all@[i] == session.catalog.triggers_view()[ks[i]];
        assert(ks.len() == ts.len());
        assert(lists_values(session.catalog.triggers_view(), ts));
        assert(ts.len() == ts.len());
    }
    Ok(QueryResult::Rows { columns, rows: sorted })
}


/// The position of the last `.` in `v`, if any.
pub open spec fn last_dot(v: Seq<char>) -> Option<int>
    decreases v.len(),
{
    if v.len() == 0 {
        None
    } else if v.last() == '.' {
        Some(v.len() - 1)
    } else {
        last_dot(v.drop_last())
    }
}

/// A view's name without its schema: what follows its last `.`.
pub open spec fn view_short(v: Seq<char>) -> Seq<char> {
    match last_dot(v) {
        Some(i) => v.skip(i + 1),
        None => v,
    }
}

/// Whether the view key `v` belongs to `db`: an undotted key for the default schema, else a
/// key beginning with `db.`.
pub open spec fn view_in_db(v: Seq<char>, db: Seq<char>) -> bool {
    if db == crate::catalog::DEFAULT_SCHEMA@ {
        last_dot(v) is None
    } else {
        starts_with_seq(v, db + "."@)
    }
}

/// The name under which view key `v` of `db` is listed: its short name, or, where `whole_rest`
/// holds and `db` is not the default schema, all that follows `db.`.
pub open spec fn view_entry(v: Seq<char>, db: Seq<char>, whole_rest: bool) -> Seq<char> {
    if whole_rest && db != crate::catalog::DEFAULT_SCHEMA@ {
        v.skip(db.len() + 1int)
    } else {
        view_short(v)
    }
}

/// The tables of `db` together with the listed names of its views.
pub open spec fn listed_names(tables: Seq<Seq<char>>, views: Set<Seq<char>>, db: Seq<char>, whole_rest: bool) -> Set<Seq<char>> {
    tables.to_set().union(Set::new(|n: Seq<char>| exists|v: Seq<char>| #[trigger] views.contains(v) && view_in_db(v, db) && view_entry(v, db, whole_rest) == n))
}

/// The names `SHOW TABLES` / `SHOW TABLE STATUS` list for `db`: its tables and the short
/// names of its views.
pub open spec fn show_table_names(tables: Seq<Seq<char>>, views: Set<Seq<char>>, db: Seq<char>) -> Set<Seq<char>> {
    listed_names(tables, views, db, false)
}

/// The names `information_schema.TABLES` lists for `db`: its tables and, for each of its views,
/// what follows the `db.` prefix of the view's key.
pub open spec fn info_table_names(tables: Seq<Seq<char>>, views: Set<Seq<char>>, db: Seq<char>) -> Set<Seq<char>> {
    listed_names(tables, views, db, true)
}

/// Whether a list of texts is in strictly increasing code-point order.
pub open spec fn strictly_sorted(s: Seq<Seq<char>>) -> bool {
    forall|i: int, j: int| 0 <= i < j < s.len() ==> text_less(#[trigger] s[i], #[trigger] s[j])
}

/// The position of the last `.` in `v`.
fn find_last_dot(v: &Vec<char>) -> (r: Option<usize>)
    ensures
        match last_dot(v@) {
            Some(i) => r matches Some(x) && x == i && x < v@.len(),
            None => r is None,
        },
{
    let mut k = v.len();
    proof {
        assert(v@.take(k as int) =~= v@);
    }
    while k > 0
        invariant
            k <= v@.len(),
            last_dot(v@) == last_dot(v@.take(k as int)),
        decreases k,
    {
        proof {
            assert(v@.take(k as int).drop_last() =~= v@.take(k - 1));
        }
        if v[k - 1] == '.' {
            proof {
                assert(v@.take(k as int).last() == '.');
            }
            return Some(k - 1);
        }
        k = k - 1;
    }
    None
}

proof fn lemma_push_to_set(s: Seq<Seq<char>>, x: Seq<char>)
    ensures
        s.push(x).to_set() == s.to_set().insert(x),
{
    assert forall|n: Seq<char>| #[trigger] s.push(x).to_set().contains(n) <==> s.to_set().insert(x).contains(n) by {
        if s.push(x).to_set().contains(n) && n != x {
            let j = choose|j: int| 0 <= j < s.push(x).len() && s.push(x)[j] == n;
            assert(s[j] == n);
        }
        if s.to_set().contains(n) {
            let j = choose|j: int| 0 <= j < s.len() && s[j] == n;
            assert(s.push(x)[j] == n);
        }
        if n == x {
            assert(s.push(x)[s.len() as int] == n);
        }
    }
    assert(s.push(x).to_set() =~= s.to_set().insert(x));
}

/// Sorted strings without repeats.
fn dedup_sorted(v: Vec<String>) -> (r: Vec<String>)
    requires
        texts_sorted(texts_of(v@)),
    ensures
        strictly_sorted(texts_of(r@)),
        texts_of(r@).to_set() == texts_of(v@).to_set(),
{
    let ghost tv = texts_of(v@);
    let mut out: Vec<String> = Vec::new();
    let mut i: usize = 0;
    proof {
        assert(texts_of(out@).to_set() =~= tv.take(0).to_set());
    }
    while i < v.len()
        invariant
            i <= v@.len(),
            tv == texts_of(v@),
            texts_sorted(tv),
            strictly_sorted(texts_of(out@)),
            texts_of(out@).to_set() == tv.take(i as int).to_set(),
            out@.len() > 0 ==> i > 0 && out@.last()@ == tv[i - 1],
            out@.len() == 0 ==> i == 0,
        decreases v@.len() - i,
    {
        let dup = out.len() > 0 && str_eq(out[out.len() - 1].as_str(), v[i].as_str());
        let ghost before = texts_of(out@);
        if !dup {
            let c = owned(v[i].as_str());
            proof {
                if out@.len() > 0 {
                    assert(!text_less(tv[i as int], tv[i - 1]));
                    lemma_text_total(tv[i - 1], tv[i as int]);
                    assert(text_less(before.last(), c@));
                    assert forall|k: int| 0 <= k < before.len() implies text_less(before[k], c@) by {
                        if k < before.len() - 1 {
                            lemma_text_transitive(before[k], before.last(), c@);
                        }
                    }
                }
            }
            out.push(c);
            proof {
                assert(texts_of(out@) =~= before.push(c@));
                assert(tv.take(i + 1) =~= tv.take(i as int).push(tv[i as int]));
                lemma_push_to_set(before, c@);
                lemma_push_to_set(tv.take(i as int), tv[i as int]);
            }
        } else {
            proof {
                assert(tv.take(i + 1) =~= tv.take(i as int).push(tv[i as int]));
                lemma_push_to_set(tv.take(i as int), tv[i as int]);
                assert(texts_of(out@).to_set().contains(out@.last()@)) by {
                    assert(texts_of(out@)[out@.len() - 1] == out@.last()@);
                }
            }
        }
        i = i + 1;
    }
    proof {
        assert(tv.take(i as int) =~= tv);
    }
    out
}

/// Whether view `k` of `views` belongs to `db` and has the short name `n`.
pub open spec fn listed_view(views: Seq<String>, k: int, db: Seq<char>, whole_rest: bool, n: Seq<char>) -> bool {
    0 <= k < views.len() && view_in_db(views[k]@, db) && view_entry(views[k]@, db, whole_rest) == n
}

/// The listed names of the first `i` views that belong to `db`.
pub open spec fn view_names_upto(views: Seq<String>, i: int, db: Seq<char>, whole_rest: bool) -> Set<Seq<char>> {
    Set::new(|n: Seq<char>| exists|k: int| k < i && #[trigger] listed_view(views, k, db, whole_rest, n))
}

/// The tables of `db` with the listed names of its views appended.
#[verifier::spinoff_prover]
#[verifier::rlimit(30)]
fn collect_table_names(table_names: Vec<String>, session: &Session, db: &str, whole_rest: bool) -> (r: Vec<String>)
    ensures
        texts_of(r@).to_set() == listed_names(
            texts_of(table_names@),
            session.catalog.views_view().dom(),
            db@,
            whole_rest,
        ),
{
    let views = session.catalog.view_names();
    let ghost vset = session.catalog.views_view().dom();
    let ghost base = texts_of(table_names@);
    let mut tables = table_names;
    let is_default = str_eq(db, crate::catalog::DEFAULT_SCHEMA);
    let mut prefix: Vec<char> = Vec::new();
    push_str(&mut prefix, db);
    push_str(&mut prefix, ".");
    let prefix_s = crate::text::string_from_chars(prefix.as_slice());
    let mut i: usize = 0;
    proof {
        assert(view_names_upto(views@, 0, db@, whole_rest) =~= Set::<Seq<char>>::empty());
        assert(base.to_set().union(Set::<Seq<char>>::empty()) =~= base.to_set());
    }
    while i < views.len()
        invariant
            i <= views@.len(),
            texts(views@).to_set() == vset,
            prefix_s@ == db@ + "."@,
            prefix@ == db@ + "."@,
            is_default == (db@ == crate::catalog::DEFAULT_SCHEMA@),
            texts_of(tables@).to_set() == base.to_set().union(view_names_upto(views@, i as int, db@, whole_rest)),
        decreases views@.len() - i,
    {
        let v = views[i].as_str();
        let vc = str_chars(v);
        let dot = find_last_dot(&vc);
        let belongs = if is_default {
            dot.is_none()
        } else {
            crate::text::starts_with(v, prefix_s.as_str())
        };
        let ghost before = texts_of(tables@);
        if belongs {
            let short = if whole_rest && !is_default {
                let pl = prefix.len();
                proof {
                    reveal_strlit(".");
                    assert(pl == db@.len() + 1);
                    assert(crate::text::starts_with_seq(v@, db@ + "."@));
                }
                let t = crate::text::sub_chars(&vc, pl, vc.len());
                proof {
                    assert(t@ =~= v@.skip(pl as int));
                }
                crate::text::string_from_chars(t.as_slice())
            } else {
                match dot {
                Some(d) => {
                    let n = vc.len();
                    proof {
                        assert(last_dot(vc@) is Some);
                        assert(d < n);
                    }
                    let t = crate::text::sub_chars(&vc, d + 1, n);
                    proof {
                        assert(t@ =~= v@.skip(d + 1));
                    }
                    crate::text::string_from_chars(t.as_slice())
                },
                None => owned(v),
                }
            };
            proof {
                assert(short@ == view_entry(v@, db@, whole_rest));
                assert(listed_view(views@, i as int, db@, whole_rest, short@));
            }
            tables.push(short);
            proof {
                assert(texts_of(tables@) =~= before.push(short@));
                assert forall|n: Seq<char>| #[trigger] texts_of(tables@).to_set().contains(n) <==> base.to_set().union(
                    view_names_upto(views@, i + 1, db@, whole_rest),
                ).contains(n) by {
                    if n == short@ {
                        assert(texts_of(tables@)[texts_of(tables@).len() - 1] == n);
                    }
                    if texts_of(tables@).to_set().contains(n) && n != short@ {
                        let j = choose|j: int| 0 <= j < texts_of(tables@).len() && texts_of(tables@)[j] == n;
                        assert(before[j] == n);
                        assert(before.to_set().contains(n));
                    }
                    if before.to_set().contains(n) {
                        let j = choose|j: int| 0 <= j < before.len() && before[j] == n;
                        assert(texts_of(tables@)[j] == n);
                    }
                    if view_names_upto(views@, i + 1, db@, whole_rest).contains(n) && n != short@ {
                        let k = choose|k: int| k < i + 1 && #[trigger] listed_view(views@, k, db@, whole_rest, n);
                        assert(k != i);
                        assert(view_names_upto(views@, i as int, db@, whole_rest).contains(n));
                    }
                    if view_names_upto(views@, i as int, db@, whole_rest).contains(n) {
                        let k = choose|k: int| k < i && #[trigger] listed_view(views@, k, db@, whole_rest, n);
                        assert(listed_view(views@, k, db@, whole_rest, n));
                    }
                }
                assert(texts_of(tables@).to_set() =~= base.to_set().union(view_names_upto(views@, i + 1, db@, whole_rest)));
            }
        } else {
            proof {
                assert forall|n: Seq<char>| #[trigger] view_names_upto(views@, i + 1, db@, whole_rest).contains(n) implies view_names_upto(views@, i as int, db@, whole_rest).contains(n) by {
                    let k = choose|k: int| k < i + 1 && #[trigger] listed_view(views@, k, db@, whole_rest, n);
                    assert(k != i);
                }
                assert(view_names_upto(views@, i + 1, db@, whole_rest) =~= view_names_upto(views@, i as int, db@, whole_rest));
            }
        }
        i = i + 1;
    }
    proof {
        assert forall|n: Seq<char>| #[trigger] view_names_upto(views@, i as int, db@, whole_rest).contains(n) <==> (exists|v: Seq<char>| #[trigger] vset.contains(v) && view_in_db(v, db@) && view_entry(v, db@, whole_rest) == n) by {
            if view_names_upto(views@, i as int, db@, whole_rest).contains(n) {
                let k = choose|k: int| k < i && #[trigger] listed_view(views@, k, db@, whole_rest, n);
                assert(texts(views@)[k] == views@[k]@);
                assert(vset.contains(views@[k]@));
            }
            if exists|v: Seq<char>| #[trigger] vset.contains(v) && view_in_db(v, db@) && view_entry(v, db@, whole_rest) == n {
                let v = choose|v: Seq<char>| #[trigger] vset.contains(v) && view_in_db(v, db@) && view_entry(v, db@, whole_rest) == n;
                assert(texts(views@).to_set().contains(v));
                let k = choose|k: int| 0 <= k < texts(views@).len() && texts(views@)[k] == v;
                assert(views@[k]@ == v);
                assert(listed_view(views@, k, db@, whole_rest, n));
            }
        }
        assert(texts_of(tables@).to_set() =~= listed_names(base, vset, db@, whole_rest));
    }
    tables
}

/// The names `SHOW TABLES` lists for `db`, given the tables of `db`: with the short names of
/// its views, sorted, each once.
pub fn list_show_tables(table_names: Vec<String>, session: &Session, db: &str) -> (r: Vec<String>)
    ensures
        strictly_sorted(texts_of(r@)),
        texts_of(r@).to_set() == show_table_names(
            texts_of(table_names@),
            session.catalog.views_view().dom(),
            db@,
        ),
{
    let tables = collect_table_names(table_names, session, db, false);
    sort_unique(tables)
}

/// `names` sorted, each once.
fn sort_unique(tables: Vec<String>) -> (r: Vec<String>)
    ensures
        strictly_sorted(texts_of(r@)),
        texts_of(r@).to_set() == texts_of(tables@).to_set(),
{
    let sorted = sort_strings(tables);
    proof {
        texts_of(sorted@).to_multiset_ensures();
        texts_of(tables@).to_multiset_ensures();
        assert(texts_of(sorted@).to_set() =~= texts_of(tables@).to_set()) by {
            assert forall|n: Seq<char>| texts_of(sorted@).contains(n) <==> texts_of(tables@).contains(n) by {
                assert(texts_of(sorted@).to_multiset().count(n) == texts_of(tables@).to_multiset().count(n));
            }
        }
    }
    dedup_sorted(sorted)
}

/// A row of `information_schema.TABLES`: the schema, the name, and whether the name is a view.
pub open spec fn info_tables_row(c: Catalog, schema: Seq<char>, t: Seq<char>) -> Seq<Seq<char>> {
    seq![
        schema,
        t,
        if c.views_view().contains_key(table_key_spec(schema, t)) {
            "VIEW"@
        } else {
            "BASE TABLE"@
        },
    ]
}

/// `SELECT * FROM information_schema.tables` for `schema`, given the tables of the schema: one
/// row per table and per view of the schema, in name order, each name once.
pub fn scan_information_schema_tables(table_names: Vec<String>, session: &Session, schema: &str) -> (r: QueryResult)
    ensures
        exists|names: Seq<Seq<char>>|
            #![trigger names.len()]
            strictly_sorted(names) && names.to_set() == info_table_names(
                texts_of(table_names@),
                session.catalog.views_view().dom(),
                schema@,
            ) && is_rows(
                r,
                seq!["TABLE_SCHEMA"@, "TABLE_NAME"@, "TABLE_TYPE"@],
                Seq::new(names.len(), |i: int| info_tables_row(session.catalog, schema@, names[i])),
            ),
{
    let tables = collect_table_names(table_names, session, schema, true);
    let names = sort_unique(tables);
    let ghost nv = texts_of(names@);
    let mut rows: Vec<Row> = Vec::new();
    let mut i: usize = 0;
    while i < names.len()
        invariant
            i <= names@.len(),
            nv == texts_of(names@),
            rows_view(rows@) == Seq::new(i as nat, |k: int| info_tables_row(session.catalog, schema@, nv[k])),
        decreases names@.len() - i,
    {
        let t = names[i].as_str();
        let key = table_storage_key(schema, t);
        let kind = if session.catalog.is_view(key.as_str()) {
            "VIEW"
        } else {
            "BASE TABLE"
        };
        let row = text_row(&[schema, t, kind]);
        proof {
            reveal_strlit("VIEW");
            reveal_strlit("BASE TABLE");
            assert(texts(row@) =~= info_tables_row(session.catalog, schema@, nv[i as int]));
            lemma_rows_view_push(rows@, row);
        }
        rows.push(row);
        i = i + 1;
        proof {
            assert(rows_view(rows@) =~= Seq::new(i as nat, |k: int| info_tables_row(session.catalog, schema@, nv[k])));
        }
    }
    let columns = text_row(&["TABLE_SCHEMA", "TABLE_NAME", "TABLE_TYPE"]);
    proof {
        assert(texts(columns@) =~= seq!["TABLE_SCHEMA"@, "TABLE_NAME"@, "TABLE_TYPE"@]);
        assert(rows_view(rows@) =~= Seq::new(nv.len(), |k: int| info_tables_row(session.catalog, schema@, nv[k])));
        assert(nv.len() == nv.len());
    }
    QueryResult::Rows { columns, rows }
}


/// The columns of `SHOW TABLE STATUS`.
pub open spec fn table_status_columns() -> Seq<Seq<char>> {
    seq![
        "Name"@,
        "Engine"@,
        "Version"@,
        "Row_format"@,
        "Rows"@,
        "Avg_row_length"@,
        "Data_length"@,
        "Max_data_length"@,
        "Index_length"@,
        "Data_free"@,
        "Auto_increment"@,
        "Create_time"@,
        "Update_time"@,
        "Check_time"@,
        "Collation"@,
        "Checksum"@,
        "Create_options"@,
        "Comment"@,
    ]
}

/// The next `AUTO_INCREMENT` value of table `key`, as text (empty when none is kept).
pub open spec fn auto_increment_text(c: Catalog, key: Seq<char>) -> Seq<char> {
    if c.tables_view().contains_key(key) {
        match c.tables_view()[key].auto_increment_next {
            Some(n) => decimal(n as nat),
            None => ""@,
        }
    } else {
        ""@
    }
}

/// The `SHOW TABLE STATUS` row of `name` in `db`, with its row count (0 when unknown).
pub open spec fn table_status_spec(c: Catalog, db: Seq<char>, name: Seq<char>, rows: Option<u64>) -> Seq<Seq<char>> {
    seq![
        name,
        "InnoDB"@,
        "10"@,
        "Dynamic"@,
        decimal(
            match rows {
                Some(n) => n as nat,
                None => 0,
            },
        ),
        "0"@,
        "0"@,
        "0"@,
        "0"@,
        "0"@,
        auto_increment_text(c, table_key_spec(db, name)),
        ""@,
        ""@,
        ""@,
        DEFAULT_COLLATION@,
        ""@,
        ""@,
        ""@,
    ]
}

/// The `SHOW TABLE STATUS` row of table `name` of `db`, given its row count.
fn table_status_row(rows: Option<u64>, session: &Session, db: &str, name: &str) -> (r: Row)
    ensures
        texts(r@) == table_status_spec(session.catalog, db@, name@, rows),
{
    let key = table_storage_key(db, name);
    let count = match rows {
        Some(n) => n,
        None => 0,
    };
    let auto_increment = match session.catalog.get_table(key.as_str()) {
        Some(meta) => match meta.auto_increment_next {
            Some(n) => u64_to_string(n),
            None => owned(""),
        },
        None => owned(""),
    };
    let row = vec![
        owned(name),
        owned("InnoDB"),
        owned("10"),
        owned("Dynamic"),
        u64_to_string(count),
        owned("0"),
        owned("0"),
        owned("0"),
        owned("0"),
        owned("0"),
        auto_increment,
        owned(""),
        owned(""),
        owned(""),
        owned(DEFAULT_COLLATION),
        owned(""),
        owned(""),
        owned(""),
    ];
    proof {
        assert(texts(row@) =~= table_status_spec(session.catalog, db@, name@, rows));
    }
    row
}

/// The names that match the optional pattern, in order.
pub open spec fn like_filter(names: Seq<Seq<char>>, pattern: Option<Seq<char>>) -> Seq<Seq<char>>
    decreases names.len(),
{
    if names.len() == 0 {
        Seq::empty()
    } else {
        let rest = like_filter(names.drop_last(), pattern);
        if like_opt(names.last(), pattern) {
            rest.push(names.last())
        } else {
            rest
        }
    }
}

/// The row of `name` with its row count from `counts` (by storage key), if it has one.
pub open spec fn status_row_of(c: Catalog, db: Seq<char>, counts: Map<Seq<char>, u64>, name: Seq<char>) -> Seq<Seq<char>> {
    table_status_spec(
        c,
        db,
        name,
        if counts.contains_key(table_key_spec(db, name)) {
            Some(counts[table_key_spec(db, name)])
        } else {
            None
        },
    )
}

/// The rows of `names`.
pub open spec fn table_status_rows(c: Catalog, db: Seq<char>, counts: Map<Seq<char>, u64>, names: Seq<Seq<char>>) -> Seq<Seq<Seq<char>>> {
    Seq::new(names.len(), |i: int| status_row_of(c, db, counts, names[i]))
}

/// `SHOW TABLE STATUS [FROM db] [LIKE pattern]`, given the databases that exist, the tables of
/// the database and the row counts by storage key: a not-found storage error for an unknown
/// database; else one row per listed name that matches, in name order.
pub fn show_table_status(
    databases: &Vec<String>,
    table_names: Vec<String>,
    row_counts: &NameMap<u64>,
    session: &Session,
    database: Option<&str>,
    like: Option<&str>,
) -> (r: Result<QueryResult, ExecError>)
    ensures
        if !texts(databases@).contains(db_or_current(database, *session)) {
            r matches Err(ExecError::Storage(StorageError::DatabaseNotFound(n))) && n@
                == db_or_current(database, *session)
        } else {
            exists|names: Seq<Seq<char>>|
                #![trigger names.len()]
                strictly_sorted(names) && names.to_set() == show_table_names(
                    texts_of(table_names@),
                    session.catalog.views_view().dom(),
                    db_or_current(database, *session),
                ) && (r matches Ok(q) && is_rows(
                    q,
                    table_status_columns(),
                    table_status_rows(
                        session.catalog,
                        db_or_current(database, *session),
                        row_counts@,
                        like_filter(names, pattern_view(like)),
                    ),
                ))
        },
{
    let db = match database {
        Some(d) => d,
        None => session.database.as_str(),
    };
    if !has_database(databases, db) {
        return Err(ExecError::Storage(StorageError::DatabaseNotFound(owned(db))));
    }
    let names = list_show_tables(table_names, session, db);
    let ghost nv = texts_of(names@);
    let ghost pv = pattern_view(like);
    let mut rows: Vec<Row> = Vec::new();
    let mut i: usize = 0;
    proof {
        assert(nv.take(0) =~= Seq::<Seq<char>>::empty());
        assert(rows_view(rows@) =~= Seq::<Seq<Seq<char>>>::empty());
    }
    while i < names.len()
        invariant
            i <= names@.len(),
            nv == texts_of(names@),
            pv == pattern_view(like),
            rows_view(rows@) == table_status_rows(
                session.catalog,
                db@,
                row_counts@,
                like_filter(nv.take(i as int), pv),
            ),
        decreases names@.len() - i,
    {
        let name = names[i].as_str();
        proof {
            assert(nv.take(i + 1).drop_last() =~= nv.take(i as int));
            assert(nv.take(i + 1).last() == name@);
        }
        let keep = match like {
            Some(p) => like_ci(name, p),
            None => true,
        };
        if keep {
            let key = table_storage_key(db, name);
            let count = match row_counts.get(key.as_str()) {
                Some(n) => Some(*n),
                None => None,
            };
            let row = table_status_row(count, session, db, name);
            proof {
                lemma_rows_view_push(rows@, row);
                assert(texts(row@) == status_row_of(session.catalog, db@, row_counts@, name@));
            }
            rows.push(row);
            proof {
                assert(rows_view(rows@) =~= table_status_rows(
                    session.catalog,
                    db@,
                    row_counts@,
                    like_filter(nv.take(i + 1), pv),
                ));
            }
        } else {
            proof {
                assert(like_filter(nv.take(i + 1), pv) == like_filter(nv.take(i as int), pv));
            }
        }
        i = i + 1;
    }
    proof {
        assert(nv.take(i as int) =~= nv);
    }
    let columns = text_row(
        &[
            "Name",
            "Engine",
            "Version",
            "Row_format",
            "Rows",
            "Avg_row_length",
            "Data_length",
            "Max_data_length",
            "Index_length",
            "Data_free",
            "Auto_increment",
            "Create_time",
            "Update_time",
            "Check_time",
            "Collation",
            "Checksum",
            "Create_options",
            "Comment",
        ],
    );
    let q = QueryResult::Rows { columns, rows };
    proof {
        assert(texts(columns@) =~= table_status_columns());
        assert(nv.len() == nv.len());
    }
    Ok(q)
}


/// The `Non_unique` text of an index: `0` for `PRIMARY`, else `1`.
pub open spec fn non_unique(name: Seq<char>) -> Seq<char> {
    if name == "PRIMARY"@ {
        "0"@
    } else {
        "1"@
    }
}

/// Whether `idx` belongs to table `t`, the names compared without ASCII case.
pub open spec fn index_of_table(idx: IndexMeta, t: Seq<char>) -> bool {
    eq_ignore_case_seq(idx.table@, t)
}

/// Whether one of the indexes of `t` is named `PRIMARY`.
pub open spec fn has_primary_index(indexes: Seq<IndexMeta>, t: Seq<char>) -> bool {
    exists|k: int| 0 <= k < indexes.len() && #[trigger] index_of_table(indexes[k], t) && indexes[k].name@ == "PRIMARY"@
}

/// The index entries `[key name, position, column, non-unique]` of one index, one per column.
pub open spec fn index_column_entries(idx: IndexMeta) -> Seq<Seq<Seq<char>>> {
    Seq::new(
        idx.columns@.len(),
        |j: int| seq![idx.name@, decimal((j + 1) as nat), idx.columns@[j]@, non_unique(idx.name@)],
    )
}

/// The entries of the indexes of `t`, index after index.
pub open spec fn index_entries(indexes: Seq<IndexMeta>, t: Seq<char>) -> Seq<Seq<Seq<char>>>
    decreases indexes.len(),
{
    if indexes.len() == 0 {
        Seq::empty()
    } else {
        index_entries(indexes.drop_last(), t) + if index_of_table(indexes.last(), t) {
            index_column_entries(indexes.last())
        } else {
            Seq::empty()
        }
    }
}

/// The implicit `PRIMARY` entries: one per primary-key column, in column order.
pub open spec fn primary_entries(cols: Seq<ColumnDef>) -> Seq<Seq<Seq<char>>>
    decreases cols.len(),
{
    if cols.len() == 0 {
        Seq::empty()
    } else {
        primary_entries(cols.drop_last()) + if cols.last().primary_key {
            seq![seq!["PRIMARY"@, "1"@, cols.last().name@, "0"@]]
        } else {
            Seq::empty()
        }
    }
}

/// The index entries of table `t`: the implicit primary key unless an index is named
/// `PRIMARY`, then the entries of its indexes.
pub open spec fn table_index_entries(meta: TableMeta, indexes: Seq<IndexMeta>, t: Seq<char>) -> Seq<Seq<Seq<char>>> {
    (if has_primary_index(indexes, t) {
        Seq::empty()
    } else {
        primary_entries(meta.columns@)
    }) + index_entries(indexes, t)
}

/// Each implicit primary-key entry has four cells.
proof fn lemma_primary_entries_len(cols: Seq<ColumnDef>)
    ensures
        forall|k: int| 0 <= k < primary_entries(cols).len() ==> (#[trigger] primary_entries(cols)[k]).len() == 4,
    decreases cols.len(),
{
    if cols.len() > 0 {
        lemma_primary_entries_len(cols.drop_last());
        let a = primary_entries(cols.drop_last());
        let b: Seq<Seq<Seq<char>>> = if cols.last().primary_key {
            seq![seq!["PRIMARY"@, "1"@, cols.last().name@, "0"@]]
        } else {
            Seq::empty()
        };
        assert(primary_entries(cols) == a + b);
        assert forall|k: int| 0 <= k < (a + b).len() implies (#[trigger] (a + b)[k]).len() == 4 by {
            if k >= a.len() {
                assert((a + b)[k] == b[k - a.len()]);
            } else {
                assert((a + b)[k] == a[k]);
            }
        }
    }
}

/// Each index entry has four cells.
proof fn lemma_index_entries_len(indexes: Seq<IndexMeta>, t: Seq<char>)
    ensures
        forall|k: int| 0 <= k < index_entries(indexes, t).len() ==> (#[trigger] index_entries(indexes, t)[k]).len() == 4,
    decreases indexes.len(),
{
    if indexes.len() > 0 {
        lemma_index_entries_len(indexes.drop_last(), t);
        let a = index_entries(indexes.drop_last(), t);
        let b: Seq<Seq<Seq<char>>> = if index_of_table(indexes.last(), t) {
            index_column_entries(indexes.last())
        } else {
            Seq::empty()
        };
        assert(index_entries(indexes, t) == a + b);
        assert forall|k: int| 0 <= k < (a + b).len() implies (#[trigger] (a + b)[k]).len() == 4 by {
            if k >= a.len() {
                assert((a + b)[k] == b[k - a.len()]);
            } else {
                assert((a + b)[k] == a[k]);
            }
        }
    }
}

/// Each entry of a table has four cells.
proof fn lemma_table_entries_len(meta: TableMeta, indexes: Seq<IndexMeta>, t: Seq<char>)
    ensures
        forall|k: int| 0 <= k < table_index_entries(meta, indexes, t).len() ==> (#[trigger] table_index_entries(meta, indexes, t)[k]).len() == 4,
{
    lemma_primary_entries_len(meta.columns@);
    lemma_index_entries_len(indexes, t);
}

/// Appends the entries of table `t` to `out`.
fn push_index_entries(out: &mut Vec<Row>, meta: &TableMeta, indexes: &Vec<IndexMeta>, t: &str)
    ensures
        rows_view(final(out)@) == rows_view(old(out)@) + table_index_entries(*meta, indexes@, t@),
{
    let ghost start = rows_view(out@);
    let mut has_primary = false;
    let mut k: usize = 0;
    while k < indexes.len()
        invariant
            k <= indexes@.len(),
            has_primary <==> exists|m: int| 0 <= m < k && #[trigger] index_of_table(indexes@[m], t@) && indexes@[m].name@ == "PRIMARY"@,
        decreases indexes@.len() - k,
    {
        let idx = &indexes[k];
        let ghost was = has_primary;
        if eq_ignore_ascii_case(idx.table.as_str(), t) && str_eq(idx.name.as_str(), "PRIMARY") {
            has_primary = true;
        }
        proof {
            if index_of_table(indexes@[k as int], t@) && indexes@[k as int].name@ == "PRIMARY"@ {
                assert(has_primary);
            }
            assert forall|m: int| 0 <= m < k + 1 && #[trigger] index_of_table(indexes@[m], t@) && indexes@[m].name@ == "PRIMARY"@ implies has_primary by {
                if m < k {
                    assert(was);
                }
            }
            if has_primary && !was {
                assert(index_of_table(indexes@[k as int], t@));
            }
        }
        k = k + 1;
    }
    if !has_primary {
        let mut c: usize = 0;
        proof {
            assert(meta.columns@.take(0) =~= Seq::<ColumnDef>::empty());
            assert(start + primary_entries(Seq::<ColumnDef>::empty()) =~= start);
        }
        while c < meta.columns.len()
            invariant
                c <= meta.columns@.len(),
                rows_view(out@) == start + primary_entries(meta.columns@.take(c as int)),
            decreases meta.columns@.len() - c,
        {
            let col = &meta.columns[c];
            proof {
                assert(meta.columns@.take(c + 1).drop_last() =~= meta.columns@.take(c as int));
                assert(meta.columns@.take(c + 1).last() == *col);
            }
            if col.primary_key {
                let row = text_row(&["PRIMARY", "1", col.name.as_str(), "0"]);
                proof {
                    assert(texts(row@) =~= seq!["PRIMARY"@, "1"@, col.name@, "0"@]);
                    lemma_rows_view_push(out@, row);
                }
                out.push(row);
                proof {
                    assert(rows_view(out@) =~= start + primary_entries(meta.columns@.take(c + 1)));
                }
            } else {
                proof {
                    assert(rows_view(out@) =~= start + primary_entries(meta.columns@.take(c + 1)));
                }
            }
            c = c + 1;
        }
        proof {
            assert(meta.columns@.take(c as int) =~= meta.columns@);
        }
    } else {
        proof {
            assert(start + Seq::<Seq<Seq<char>>>::empty() =~= start);
        }
    }
    let ghost mid = rows_view(out@);
    let mut i: usize = 0;
    proof {
        assert(indexes@.take(0) =~= Seq::<IndexMeta>::empty());
        assert(mid + index_entries(Seq::<IndexMeta>::empty(), t@) =~= mid);
    }
    while i < indexes.len()
        invariant
            i <= indexes@.len(),
            rows_view(out@) == mid + index_entries(indexes@.take(i as int), t@),
        decreases indexes@.len() - i,
    {
        let idx = &indexes[i];
        proof {
            assert(indexes@.take(i + 1).drop_last() =~= indexes@.take(i as int));
            assert(indexes@.take(i + 1).last() == *idx);
        }
        let ghost before = rows_view(out@);
        if eq_ignore_ascii_case(idx.table.as_str(), t) {
            let nu = if str_eq(idx.name.as_str(), "PRIMARY") { "0" } else { "1" };
            let mut j: usize = 0;
            proof {
                assert(before + index_column_entries(*idx).take(0) =~= before);
            }
            while j < idx.columns.len()
                invariant
                    j <= idx.columns@.len(),
                    nu@ == non_unique(idx.name@),
                    rows_view(out@) == before + index_column_entries(*idx).take(j as int),
                decreases idx.columns@.len() - j,
            {
                let pos = u64_to_string(j as u64 + 1);
                let row = text_row(&[idx.name.as_str(), pos.as_str(), idx.columns[j].as_str(), nu]);
                proof {
                    assert(texts(row@) =~= index_column_entries(*idx)[j as int]);
                    lemma_rows_view_push(out@, row);
                }
                out.push(row);
                j = j + 1;
                proof {
                    assert(index_column_entries(*idx).take(j as int) =~= index_column_entries(*idx).take(j - 1).push(texts(row@)));
                    assert(rows_view(out@) =~= before + index_column_entries(*idx).take(j as int));
                }
            }
            proof {
                assert(index_column_entries(*idx).take(j as int) =~= index_column_entries(*idx));
                assert(rows_view(out@) =~= mid + index_entries(indexes@.take(i + 1), t@));
            }
        } else {
            proof {
                assert(rows_view(out@) =~= mid + index_entries(indexes@.take(i + 1), t@));
            }
        }
        i = i + 1;
    }
    proof {
        assert(indexes@.take(i as int) =~= indexes@);
        assert(has_primary == has_primary_index(indexes@, t@));
        assert(rows_view(out@) =~= start + table_index_entries(*meta, indexes@, t@));
    }
}

/// A `SHOW INDEX` row of table `t` from an index entry.
pub open spec fn show_index_row(t: Seq<char>, e: Seq<Seq<char>>) -> Seq<Seq<char>> {
    seq![t, e[3], e[0], e[1], e[2], "BTREE"@]
}

/// The columns of `SHOW INDEX`.
pub open spec fn show_index_columns() -> Seq<Seq<char>> {
    seq!["Table"@, "Non_unique"@, "Key_name"@, "Seq_in_index"@, "Column_name"@, "Index_type"@]
}

/// `SHOW INDEX FROM tbl`, given the indexes the engine holds: a not-found storage error when
/// the catalog has no table `tbl`; else one row per index entry of the table, ordered by key
/// name, column name and position, stably.
pub fn show_index_for_table(indexes: &Vec<IndexMeta>, session: &Session, table: &str) -> (r: Result<QueryResult, ExecError>)
    ensures
        if !session.catalog.tables_view().contains_key(table@) {
            r matches Err(ExecError::Storage(StorageError::TableNotFound(n))) && n@ == table@
        } else {
            let es = table_index_entries(session.catalog.tables_view()[table@], indexes@, table@);
            exists|order: Seq<usize>|
                #![trigger order.len()]
                stable_order(Seq::new(es.len(), |i: int| seq![es[i][0], es[i][2], es[i][1]]), order)
                    && (r matches Ok(q) && is_rows(
                    q,
                    show_index_columns(),
                    Seq::new(es.len(), |i: int| show_index_row(table@, es[order[i] as int])),
                ))
        },
{
    let meta = match session.catalog.get_table(table) {
        Some(m) => m,
        None => {
            return Err(ExecError::Storage(StorageError::TableNotFound(owned(table))));
        },
    };
    let mut entries: Vec<Row> = Vec::new();
    push_index_entries(&mut entries, meta, indexes, table);
    proof {
        assert(rows_view(entries@) =~= table_index_entries(*meta, indexes@, table@));
    }
    let ghost es = rows_view(entries@);
    proof {
        lemma_table_entries_len(*meta, indexes@, table@);
    }
    let mut rows: Vec<Row> = Vec::new();
    let mut keys: Vec<Vec<String>> = Vec::new();
    let mut i: usize = 0;
    while i < entries.len()
        invariant
            i <= entries@.len(),
            es == rows_view(entries@),
            forall|k: int| 0 <= k < es.len() ==> (#[trigger] es[k]).len() == 4,
            rows_view(rows@) == Seq::new(i as nat, |k: int| show_index_row(table@, es[k])),
            keys@.len() == i,
            forall|k: int| 0 <= k < i ==> #[trigger] texts_of(keys@[k]@) == seq![es[k][0], es[k][2], es[k][1]],
        decreases entries@.len() - i,
    {
        let e = &entries[i];
        proof {
            assert(es[i as int] == texts(e@));
            assert(e@.len() == 4);
        }
        let row = text_row(&[table, e[3].as_str(), e[0].as_str(), e[1].as_str(), e[2].as_str(), "BTREE"]);
        let key = text_row(&[e[0].as_str(), e[2].as_str(), e[1].as_str()]);
        proof {
            assert(texts(row@) =~= show_index_row(table@, es[i as int]));
            assert(texts_of(key@) =~= seq![es[i as int][0], es[i as int][2], es[i as int][1]]);
            lemma_rows_view_push(rows@, row);
        }
        rows.push(row);
        keys.push(key);
        i = i + 1;
        proof {
            assert(rows_view(rows@) =~= Seq::new(i as nat, |k: int| show_index_row(table@, es[k])));
        }
    }
    let sorted = sorted_by_keys(&rows, &keys);
    proof {
        assert(Seq::new(keys@.len(), |k: int| texts_of(keys@[k]@)) =~= Seq::new(
            es.len(),
            |k: int| seq![es[k][0], es[k][2], es[k][1]],
        ));
        let ks = Seq::new(es.len(), |k: int| seq![es[k][0], es[k][2], es[k][1]]);
        let order = choose|order: Seq<usize>|
            stable_order(ks, order) && rows_view(sorted@) == Seq::new(rows@.len(), |i: int| rows_view(rows@)[order[i] as int]);
        assert(rows_view(sorted@) =~= Seq::new(es.len(), |i: int| show_index_row(table@, es[order[i] as int])));
        assert(order.len() == order.len());
    }
    let columns = text_row(&["Table", "Non_unique", "Key_name", "Seq_in_index", "Column_name", "Index_type"]);
    proof {
        assert(texts(columns@) =~= show_index_columns());
    }
    Ok(QueryResult::Rows { columns, rows: sorted })
}

/// An `information_schema.STATISTICS` row of table `display` in `schema` from an index entry.
pub open spec fn stats_row(schema: Seq<char>, display: Seq<char>, e: Seq<Seq<char>>) -> Seq<Seq<char>> {
    seq![schema, display, e[0], e[1], e[2], e[3], "BTREE"@]
}

/// The sort key of a `STATISTICS` row: table, index name, column name, position.
pub open spec fn stats_key(row: Seq<Seq<char>>) -> Seq<Seq<char>> {
    seq![row[1], row[2], row[4], row[3]]
}

/// The columns of `information_schema.STATISTICS`.
pub open spec fn stats_columns() -> Seq<Seq<char>> {
    seq![
        "TABLE_SCHEMA"@,
        "TABLE_NAME"@,
        "INDEX_NAME"@,
        "SEQ_IN_INDEX"@,
        "COLUMN_NAME"@,
        "NON_UNIQUE"@,
        "INDEX_TYPE"@,
    ]
}

/// The rows of one table in `STATISTICS`.
pub open spec fn stats_table_rows(schema: Seq<char>, meta: TableMeta, indexes: Seq<IndexMeta>, t: Seq<char>) -> Seq<Seq<Seq<char>>> {
    let es = table_index_entries(meta, indexes, t);
    Seq::new(es.len(), |i: int| stats_row(schema, meta.name@, es[i]))
}

/// The scan of `STATISTICS` over the table keys `names` in order: the rows of each table, or
/// the first key the catalog lacks.
pub open spec fn stats_scan(c: Catalog, schema: Seq<char>, indexes: Seq<IndexMeta>, names: Seq<Seq<char>>) -> Result<Seq<Seq<Seq<char>>>, Seq<char>>
    decreases names.len(),
{
    if names.len() == 0 {
        Ok(Seq::empty())
    } else {
        match stats_scan(c, schema, indexes, names.drop_last()) {
            Err(e) => Err(e),
            Ok(rows) => {
                let t = names.last();
                if !c.tables_view().contains_key(t) {
                    Err(t)
                } else {
                    Ok(rows + stats_table_rows(schema, c.tables_view()[t], indexes, t))
                }
            },
        }
    }
}

/// Once the scan of a prefix fails, the scan of the whole fails the same way.
proof fn lemma_stats_scan_err(c: Catalog, schema: Seq<char>, indexes: Seq<IndexMeta>, names: Seq<Seq<char>>, k: int)
    requires
        0 <= k <= names.len(),
        stats_scan(c, schema, indexes, names.take(k)) is Err,
    ensures
        stats_scan(c, schema, indexes, names) == stats_scan(c, schema, indexes, names.take(k)),
    decreases names.len(),
{
    if k == names.len() {
        assert(names.take(k) =~= names);
    } else {
        assert(names.drop_last().take(k) =~= names.take(k));
        lemma_stats_scan_err(c, schema, indexes, names.drop_last(), k);
    }
}

/// `SELECT * FROM information_schema.STATISTICS`, given the table keys and the indexes the
/// engine holds: the keys sorted, the index entries of each table under the current database
/// and the table's name, ordered by table, index name, column name and position, stably; a
/// not-found storage error for the first key whose table the catalog lacks.
pub fn scan_information_schema_statistics(
    table_names: Vec<String>,
    indexes: &Vec<IndexMeta>,
    session: &Session,
) -> (r: Result<QueryResult, ExecError>)
    ensures
        exists|names: Seq<Seq<char>>|
            #![trigger names.len()]
            texts_sorted(names) && names.to_multiset() == texts_of(table_names@).to_multiset() && match stats_scan(
                session.catalog,
                session.database@,
                indexes@,
                names,
            ) {
                Ok(rows) => exists|order: Seq<usize>|
                    #![trigger order.len()]
                    stable_order(Seq::new(rows.len(), |i: int| stats_key(rows[i])), order) && (r matches Ok(q)
                        && is_rows(q, stats_columns(), Seq::new(rows.len(), |i: int| rows[order[i] as int]))),
                Err(t) => r matches Err(ExecError::Storage(StorageError::TableNotFound(n))) && n@ == t,
            },
{
    let names = sort_strings(table_names);
    let ghost nv = texts_of(names@);
    let schema = session.database.as_str();
    let mut rows: Vec<Row> = Vec::new();
    let mut keys: Vec<Vec<String>> = Vec::new();
    let mut i: usize = 0;
    proof {
        assert(nv.take(0) =~= Seq::<Seq<char>>::empty());
        assert(rows_view(rows@) =~= Seq::<Seq<Seq<char>>>::empty());
    }
    while i < names.len()
        invariant
            i <= names@.len(),
            nv == texts_of(names@),
            texts_sorted(nv),
            nv.to_multiset() == texts_of(table_names@).to_multiset(),
            schema@ == session.database@,
            stats_scan(session.catalog, schema@, indexes@, nv.take(i as int)) == Ok::<Seq<Seq<Seq<char>>>, Seq<char>>(rows_view(rows@)),
            keys@.len() == rows@.len(),
            forall|k: int| 0 <= k < keys@.len() ==> #[trigger] texts_of(keys@[k]@) == stats_key(rows_view(rows@)[k]),
        decreases names@.len() - i,
    {
        let t = names[i].as_str();
        proof {
            assert(nv.take(i + 1).drop_last() =~= nv.take(i as int));
            assert(nv.take(i + 1).last() == t@);
        }
        let meta = match session.catalog.get_table(t) {
            Some(m) => m,
            None => {
                proof {
                    lemma_stats_scan_err(session.catalog, schema@, indexes@, nv, i + 1);
                }
                let e = owned(t);
                proof {
                    assert(stats_scan(session.catalog, session.database@, indexes@, nv) == Err::<Seq<Seq<Seq<char>>>, Seq<char>>(e@));
                    assert(nv.len() == nv.len());
                }
                return Err(ExecError::Storage(StorageError::TableNotFound(e)));
            },
        };
        let mut entries: Vec<Row> = Vec::new();
        push_index_entries(&mut entries, meta, indexes, t);
        proof {
            assert(rows_view(entries@) =~= table_index_entries(*meta, indexes@, t@));
            lemma_table_entries_len(*meta, indexes@, t@);
        }
        let ghost es = rows_view(entries@);
        let ghost before = rows_view(rows@);
        let mut j: usize = 0;
        proof {
            assert(before + stats_table_rows(schema@, *meta, indexes@, t@).take(0) =~= before);
        }
        while j < entries.len()
            invariant
                j <= entries@.len(),
                es == rows_view(entries@),
                es == table_index_entries(*meta, indexes@, t@),
                forall|k: int| 0 <= k < es.len() ==> (#[trigger] es[k]).len() == 4,
                rows_view(rows@) == before + stats_table_rows(schema@, *meta, indexes@, t@).take(j as int),
                keys@.len() == rows@.len(),
                forall|k: int| 0 <= k < keys@.len() ==> #[trigger] texts_of(keys@[k]@) == stats_key(rows_view(rows@)[k]),
            decreases entries@.len() - j,
        {
            let e = &entries[j];
            proof {
                assert(es[j as int] == texts(e@));
                assert(e@.len() == 4);
            }
            let row = text_row(&[schema, meta.name.as_str(), e[0].as_str(), e[1].as_str(), e[2].as_str(), e[3].as_str(), "BTREE"]);
            let key = text_row(&[meta.name.as_str(), e[0].as_str(), e[2].as_str(), e[1].as_str()]);
            let ghost rv = rows_view(rows@);
            proof {
                assert(texts(row@) =~= stats_row(schema@, meta.name@, es[j as int]));
                assert(texts_of(key@) =~= stats_key(texts(row@)));
                lemma_rows_view_push(rows@, row);
            }
            rows.push(row);
            keys.push(key);
            j = j + 1;
            proof {
                assert(rows_view(rows@) == rv.push(texts(row@)));
                assert forall|k: int| 0 <= k < keys@.len() implies #[trigger] texts_of(keys@[k]@) == stats_key(rows_view(rows@)[k]) by {
                    if k < keys@.len() - 1 {
                        assert(rows_view(rows@)[k] == rv[k]);
                    }
                }
                assert(stats_table_rows(schema@, *meta, indexes@, t@).take(j as int) =~= stats_table_rows(schema@, *meta, indexes@, t@).take(j - 1).push(texts(row@)));
                assert(rows_view(rows@) =~= before + stats_table_rows(schema@, *meta, indexes@, t@).take(j as int));
            }
        }
        proof {
            assert(stats_table_rows(schema@, *meta, indexes@, t@).take(j as int) =~= stats_table_rows(schema@, *meta, indexes@, t@));
        }
        i = i + 1;
    }
    proof {
        assert(nv.take(i as int) =~= nv);
    }
    let ghost all = rows_view(rows@);
    let sorted = sorted_by_keys(&rows, &keys);
    proof {
        let ks = Seq::new(all.len(), |k: int| stats_key(all[k]));
        assert(Seq::new(keys@.len(), |k: int| texts_of(keys@[k]@)) =~= ks);
        let order = choose|order: Seq<usize>|
            stable_order(ks, order) && rows_view(sorted@) == Seq::new(rows@.len(), |i: int| rows_view(rows@)[order[i] as int]);
        assert(rows_view(sorted@) =~= Seq::new(all.len(), |i: int| all[order[i] as int]));
        assert(order.len() == order.len());
        assert(nv.len() == nv.len());
    }
    let columns = text_row(&["TABLE_SCHEMA", "TABLE_NAME", "INDEX_NAME", "SEQ_IN_INDEX", "COLUMN_NAME", "NON_UNIQUE", "INDEX_TYPE"]);
    proof {
        assert(texts(columns@) =~= stats_columns());
    }
    Ok(QueryResult::Rows { columns, rows: sorted })
}
} // verus!

