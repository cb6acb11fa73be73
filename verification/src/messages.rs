//! User-visible messages: templates looked up by key in a locale's catalog, with their
//! `%{name}` placeholders filled in.
use vstd::prelude::*;
use crate::text::{decimal, spec_to_lowercase, str_chars, str_eq, string_from_chars, to_lowercase, u64_to_string, owned};

verus! {

/// A locale's message templates, by key; a later entry for a key overrides an earlier one.
pub struct MessageCatalog {
    entries: Vec<(String, String)>,
}

impl View for MessageCatalog {
    type V = Seq<(Seq<char>, Seq<char>)>;

    closed spec fn view(&self) -> Seq<(Seq<char>, Seq<char>)> {
        Seq::new(self.entries@.len(), |i: int| (self.entries@[i].0@, self.entries@[i].1@))
    }
}

/// The template of `key`: that of its last entry, or the key itself when it has none.
pub open spec fn lookup_spec(entries: Seq<(Seq<char>, Seq<char>)>, key: Seq<char>) -> Seq<char>
    decreases entries.len(),
{
    if entries.len() == 0 {
        key
    } else if entries.last().0 == key {
        entries.last().1
    } else {
        lookup_spec(entries.drop_last(), key)
    }
}

impl MessageCatalog {
    /// An empty catalog.
    pub fn new() -> (r: Self)
        ensures
            r@ == Seq::<(Seq<char>, Seq<char>)>::empty(),
    {
        let r = MessageCatalog { entries: Vec::new() };
        proof {
            assert(r@ =~= Seq::<(Seq<char>, Seq<char>)>::empty());
        }
        r
    }

    /// Sets the template of `key`.
    pub fn insert(&mut self, key: &str, template: &str)
        ensures
            final(self)@ == old(self)@.push((key@, template@)),
    {
        self.entries.push((owned(key), owned(template)));
        proof {
            assert(final(self)@ =~= old(self)@.push((key@, template@)));
        }
    }

    /// The template of `key` (the key itself when the catalog has none).
    pub fn template(&self, key: &str) -> (r: String)
        ensures
            r@ == lookup_spec(self@, key@),
    {
        let mut i = self.entries.len();
        let ghost all = self@;
        proof {
            assert(all.take(i as int) =~= all);
        }
        while i > 0
            invariant
                i <= self.entries@.len(),
                all == self@,
                lookup_spec(all, key@) == lookup_spec(all.take(i as int), key@),
            decreases i,
        {
            proof {
                assert(all.take(i as int).drop_last() =~= all.take(i - 1));
            }
            if str_eq(self.entries[i - 1].0.as_str(), key) {
                return owned(self.entries[i - 1].1.as_str());
            }
            i = i - 1;
        }
        owned(key)
    }
}

/// Inserting a template makes it the one looked up for its key and changes no other key.
pub proof fn lemma_insert_lookup(
    entries: Seq<(Seq<char>, Seq<char>)>,
    key: Seq<char>,
    template: Seq<char>,
    other: Seq<char>,
)
    ensures
        lookup_spec(entries.push((key, template)), key) == template,
        other != key ==> lookup_spec(entries.push((key, template)), other) == lookup_spec(
            entries,
            other,
        ),
{
    assert(entries.push((key, template)).drop_last() =~= entries);
}

/// `s` with each occurrence of a nonempty `pat`, found left to right without overlap,
/// replaced by `with`.
pub open spec fn replace_seq(s: Seq<char>, pat: Seq<char>, with: Seq<char>) -> Seq<char>
    decreases s.len(),
{
    if s.len() == 0 {
        s
    } else if pat.len() > 0 && pat.len() <= s.len() && s.take(pat.len() as int) == pat {
        with + replace_seq(s.skip(pat.len() as int), pat, with)
    } else {
        seq![s[0]] + replace_seq(s.skip(1), pat, with)
    }
}

fn matches_at(s: &Vec<char>, i: usize, pat: &Vec<char>) -> (r: bool)
    requires
        i <= s@.len(),
    ensures
        r == (pat@.len() > 0 && pat@.len() <= s@.len() - i && s@.subrange(
            i as int,
            i + pat@.len(),
        ) == pat@),
{
    if pat.len() == 0 || pat.len() > s.len() - i {
        return false;
    }
    let mut j: usize = 0;
    while j < pat.len()
        invariant
            j <= pat@.len() <= s@.len() - i,
            s@.len() <= usize::MAX,
            forall|k: int| 0 <= k < j ==> s@[i + k] == pat@[k],
        decreases pat@.len() - j,
    {
        if s[i + j] != pat[j] {
            proof {
                assert(s@.subrange(i as int, i + pat@.len())[j as int] != pat@[j as int]);
            }
            return false;
        }
        j = j + 1;
    }
    proof {
        assert(s@.subrange(i as int, i + pat@.len()) =~= pat@);
    }
    true
}

/// `str::replace`: each occurrence of `pat` (nonempty), left to right, replaced by `with`.
pub fn replace_all(s: &str, pat: &str, with: &str) -> (r: String)
    ensures
        r@ == replace_seq(s@, pat@, with@),
{
    let sc = str_chars(s);
    let pc = str_chars(pat);
    let wc = str_chars(with);
    let mut out: Vec<char> = Vec::new();
    let mut i: usize = 0;
    proof {
        assert(sc@.skip(0) =~= sc@);
    }
    while i < sc.len()
        invariant
            i <= sc@.len(),
            sc@ == s@,
            pc@ == pat@,
            wc@ == with@,
            out@ + replace_seq(sc@.skip(i as int), pc@, wc@) == replace_seq(s@, pat@, with@),
        decreases sc@.len() - i,
    {
        let ghost rest = sc@.skip(i as int);
        if matches_at(&sc, i, &pc) {
            proof {
                assert(rest.take(pc@.len() as int) =~= sc@.subrange(i as int, i + pc@.len()));
                assert(rest.skip(pc@.len() as int) =~= sc@.skip(i + pc@.len()));
                assert(out@ + wc@ + replace_seq(sc@.skip(i + pc@.len()), pc@, wc@) =~= out@ + (
                wc@ + replace_seq(sc@.skip(i + pc@.len()), pc@, wc@)));
            }
            let mut k: usize = 0;
            let ghost base = out@;
            while k < wc.len()
                invariant
                    k <= wc@.len(),
                    out@ == base + wc@.take(k as int),
                decreases wc@.len() - k,
            {
                out.push(wc[k]);
                k = k + 1;
                proof {
                    assert(out@ =~= base + wc@.take(k as int));
                }
            }
            proof {
                assert(wc@.take(k as int) =~= wc@);
            }
            i = i + pc.len();
        } else {
            proof {
                if pc@.len() > 0 && pc@.len() <= rest.len() {
                    assert(rest.take(pc@.len() as int) =~= sc@.subrange(i as int, i + pc@.len()));
                }
                assert(rest.skip(1) =~= sc@.skip(i + 1));
                assert(out@.push(sc@[i as int]) + replace_seq(sc@.skip(i + 1), pc@, wc@) =~= out@
                    + (seq![sc@[i as int]] + replace_seq(sc@.skip(i + 1), pc@, wc@)));
            }
            out.push(sc[i]);
            i = i + 1;
        }
    }
    proof {
        assert(sc@.skip(i as int) =~= Seq::<char>::empty());
        assert(out@ + Seq::<char>::empty() =~= out@);
    }
    string_from_chars(out.as_slice())
}

/// The locale tag that an alias stands for: `zh`, `zh-cn`, `zh_cn` (any case) are `zh-CN`,
/// `en`, `en-us`, `en_us` are `en-US`; any other tag is kept, lower-cased.
pub open spec fn normalize_locale_spec(lower: Seq<char>) -> Seq<char> {
    if lower == "zh"@ || lower == "zh-cn"@ || lower == "zh_cn"@ {
        "zh-CN"@
    } else if lower == "en"@ || lower == "en-us"@ || lower == "en_us"@ {
        "en-US"@
    } else {
        lower
    }
}

/// Normalizes a locale tag.
pub fn normalize_locale(locale: &str) -> (r: String)
    ensures
        r@ == normalize_locale_spec(spec_to_lowercase(locale@)),
{
    let lower = to_lowercase(locale);
    let l = lower.as_str();
    if str_eq(l, "zh") || str_eq(l, "zh-cn") || str_eq(l, "zh_cn") {
        owned("zh-CN")
    } else if str_eq(l, "en") || str_eq(l, "en-us") || str_eq(l, "en_us") {
        owned("en-US")
    } else {
        lower
    }
}

/// The `server.starting` message, with `%{port}` by `port`.
pub fn server_starting(cat: &MessageCatalog, port: u16) -> (r: String)
    ensures
        r@ == replace_seq(lookup_spec(cat@, "server.starting"@), "%{port}"@, decimal(port as nat)),
{
    let port_text = u64_to_string(port as u64);
    let t0 = cat.template("server.starting");
    let t1 = replace_all(t0.as_str(), "%{port}", port_text.as_str());
    t1
}

/// The `server.stopped` message.
pub fn server_stopped(cat: &MessageCatalog) -> (r: String)
    ensures
        r@ == lookup_spec(cat@, "server.stopped"@),
{
    let t0 = cat.template("server.stopped");
    t0
}

/// The `protocol.handshake_failed` message.
pub fn protocol_handshake_failed(cat: &MessageCatalog) -> (r: String)
    ensures
        r@ == lookup_spec(cat@, "protocol.handshake_failed"@),
{
    let t0 = cat.template("protocol.handshake_failed");
    t0
}

/// The `protocol.invalid_packet` message.
pub fn protocol_invalid_packet(cat: &MessageCatalog) -> (r: String)
    ensures
        r@ == lookup_spec(cat@, "protocol.invalid_packet"@),
{
    let t0 = cat.template("protocol.invalid_packet");
    t0
}

/// The `protocol.unsupported_auth` message.
pub fn protocol_unsupported_auth(cat: &MessageCatalog) -> (r: String)
    ensures
        r@ == lookup_spec(cat@, "protocol.unsupported_auth"@),
{
    let t0 = cat.template("protocol.unsupported_auth");
    t0
}

/// The `protocol.access_denied` message.
pub fn protocol_access_denied(cat: &MessageCatalog) -> (r: String)
    ensures
        r@ == lookup_spec(cat@, "protocol.access_denied"@),
{
    let t0 = cat.template("protocol.access_denied");
    t0
}

/// The `sql.parse_error` message, with `%{detail}` by `detail`.
pub fn sql_parse_error(cat: &MessageCatalog, detail: &str) -> (r: String)
    ensures
        r@ == replace_seq(lookup_spec(cat@, "sql.parse_error"@), "%{detail}"@, detail@),
{
    let t0 = cat.template("sql.parse_error");
    let t1 = replace_all(t0.as_str(), "%{detail}", detail);
    t1
}

/// The `sql.fk_child_violation` message, with `%{schema}` by `schema`, `%{table}` by `table`, `%{constraint}` by `constraint`, `%{columns}` by `columns`, `%{ref_table}` by `ref_table`, `%{ref_columns}` by `ref_columns`.
pub fn sql_fk_child_violation(cat: &MessageCatalog, schema: &str, table: &str, constraint: &str, columns: &str, ref_table: &str, ref_columns: &str) -> (r: String)
    ensures
        r@ == replace_seq(replace_seq(replace_seq(replace_seq(replace_seq(replace_seq(lookup_spec(cat@, "sql.fk_child_violation"@), "%{schema}"@, schema@), "%{table}"@, table@), "%{constraint}"@, constraint@), "%{columns}"@, columns@), "%{ref_table}"@, ref_table@), "%{ref_columns}"@, ref_columns@),
{
    let t0 = cat.template("sql.fk_child_violation");
    let t1 = replace_all(t0.as_str(), "%{schema}", schema);
    let t2 = replace_all(t1.as_str(), "%{table}", table);
    let t3 = replace_all(t2.as_str(), "%{constraint}", constraint);
    let t4 = replace_all(t3.as_str(), "%{columns}", columns);
    let t5 = replace_all(t4.as_str(), "%{ref_table}", ref_table);
    let t6 = replace_all(t5.as_str(), "%{ref_columns}", ref_columns);
    t6
}

/// The `sql.fk_parent_violation` message, with `%{schema}` by `schema`, `%{table}` by `table`, `%{constraint}` by `constraint`, `%{columns}` by `columns`, `%{ref_table}` by `ref_table`, `%{ref_columns}` by `ref_columns`.
pub fn sql_fk_parent_violation(cat: &MessageCatalog, schema: &str, table: &str, constraint: &str, columns: &str, ref_table: &str, ref_columns: &str) -> (r: String)
    ensures
        r@ == replace_seq(replace_seq(replace_seq(replace_seq(replace_seq(replace_seq(lookup_spec(cat@, "sql.fk_parent_violation"@), "%{schema}"@, schema@), "%{table}"@, table@), "%{constraint}"@, constraint@), "%{columns}"@, columns@), "%{ref_table}"@, ref_table@), "%{ref_columns}"@, ref_columns@),
{
    let t0 = cat.template("sql.fk_parent_violation");
    let t1 = replace_all(t0.as_str(), "%{schema}", schema);
    let t2 = replace_all(t1.as_str(), "%{table}", table);
    let t3 = replace_all(t2.as_str(), "%{constraint}", constraint);
    let t4 = replace_all(t3.as_str(), "%{columns}", columns);
    let t5 = replace_all(t4.as_str(), "%{ref_table}", ref_table);
    let t6 = replace_all(t5.as_str(), "%{ref_columns}", ref_columns);
    t6
}

/// The `sql.command_denied` message, with `%{command}` by `command`, `%{user}` by `user`, `%{host}` by `host`.
pub fn sql_command_denied(cat: &MessageCatalog, command: &str, user: &str, host: &str) -> (r: String)
    ensures
        r@ == replace_seq(replace_seq(replace_seq(lookup_spec(cat@, "sql.command_denied"@), "%{command}"@, command@), "%{user}"@, user@), "%{host}"@, host@),
{
    let t0 = cat.template("sql.command_denied");
    let t1 = replace_all(t0.as_str(), "%{command}", command);
    let t2 = replace_all(t1.as_str(), "%{user}", user);
    let t3 = replace_all(t2.as_str(), "%{host}", host);
    t3
}

/// The `sql.command_denied_table` message, with `%{command}` by `command`, `%{user}` by `user`, `%{host}` by `host`, `%{table}` by `table`.
pub fn sql_command_denied_table(cat: &MessageCatalog, command: &str, user: &str, host: &str, table: &str) -> (r: String)
    ensures
        r@ == replace_seq(replace_seq(replace_seq(replace_seq(lookup_spec(cat@, "sql.command_denied_table"@), "%{command}"@, command@), "%{user}"@, user@), "%{host}"@, host@), "%{table}"@, table@),
{
    let t0 = cat.template("sql.command_denied_table");
    let t1 = replace_all(t0.as_str(), "%{command}", command);
    let t2 = replace_all(t1.as_str(), "%{user}", user);
    let t3 = replace_all(t2.as_str(), "%{host}", host);
    let t4 = replace_all(t3.as_str(), "%{table}", table);
    t4
}

/// The `sql.account_admin_required` message, with `%{user}` by `user`, `%{host}` by `host`.
pub fn account_admin_required(cat: &MessageCatalog, user: &str, host: &str) -> (r: String)
    ensures
        r@ == replace_seq(replace_seq(lookup_spec(cat@, "sql.account_admin_required"@), "%{user}"@, user@), "%{host}"@, host@),
{
    let t0 = cat.template("sql.account_admin_required");
    let t1 = replace_all(t0.as_str(), "%{user}", user);
    let t2 = replace_all(t1.as_str(), "%{host}", host);
    t2
}

/// The `sql.duplicate_entry` message, with `%{value}` by `value`, `%{key}` by `key`.
pub fn sql_duplicate_entry(cat: &MessageCatalog, value: &str, key: &str) -> (r: String)
    ensures
        r@ == replace_seq(replace_seq(lookup_spec(cat@, "sql.duplicate_entry"@), "%{value}"@, value@), "%{key}"@, key@),
{
    let t0 = cat.template("sql.duplicate_entry");
    let t1 = replace_all(t0.as_str(), "%{value}", value);
    let t2 = replace_all(t1.as_str(), "%{key}", key);
    t2
}

/// The `sql.unknown_system_variable` message, with `%{name}` by `name`.
pub fn sql_unknown_system_variable(cat: &MessageCatalog, name: &str) -> (r: String)
    ensures
        r@ == replace_seq(lookup_spec(cat@, "sql.unknown_system_variable"@), "%{name}"@, name@),
{
    let t0 = cat.template("sql.unknown_system_variable");
    let t1 = replace_all(t0.as_str(), "%{name}", name);
    t1
}

/// The `sql.set_global_rejected` message, with `%{name}` by `name`.
pub fn sql_set_global_rejected(cat: &MessageCatalog, name: &str) -> (r: String)
    ensures
        r@ == replace_seq(lookup_spec(cat@, "sql.set_global_rejected"@), "%{name}"@, name@),
{
    let t0 = cat.template("sql.set_global_rejected");
    let t1 = replace_all(t0.as_str(), "%{name}", name);
    t1
}

/// The `sql.variable_is_readonly` message, with `%{name}` by `name`.
pub fn sql_variable_is_readonly(cat: &MessageCatalog, name: &str) -> (r: String)
    ensures
        r@ == replace_seq(lookup_spec(cat@, "sql.variable_is_readonly"@), "%{name}"@, name@),
{
    let t0 = cat.template("sql.variable_is_readonly");
    let t1 = replace_all(t0.as_str(), "%{name}", name);
    t1
}

/// The `sql.user_variable_unsupported` message, with `%{name}` by `name`.
pub fn sql_user_variable_unsupported(cat: &MessageCatalog, name: &str) -> (r: String)
    ensures
        r@ == replace_seq(lookup_spec(cat@, "sql.user_variable_unsupported"@), "%{name}"@, name@),
{
    let t0 = cat.template("sql.user_variable_unsupported");
    let t1 = replace_all(t0.as_str(), "%{name}", name);
    t1
}

/// The `sql.set_names_unsupported` message.
pub fn sql_set_names_unsupported(cat: &MessageCatalog) -> (r: String)
    ensures
        r@ == lookup_spec(cat@, "sql.set_names_unsupported"@),
{
    let t0 = cat.template("sql.set_names_unsupported");
    t0
}

/// The `sql.wrong_value_for_var` message, with `%{name}` by `name`, `%{value}` by `value`.
pub fn sql_wrong_value_for_var(cat: &MessageCatalog, name: &str, value: &str) -> (r: String)
    ensures
        r@ == replace_seq(replace_seq(lookup_spec(cat@, "sql.wrong_value_for_var"@), "%{name}"@, name@), "%{value}"@, value@),
{
    let t0 = cat.template("sql.wrong_value_for_var");
    let t1 = replace_all(t0.as_str(), "%{name}", name);
    let t2 = replace_all(t1.as_str(), "%{value}", value);
    t2
}

/// The `sql.set_multi_assign_unsupported` message.
pub fn sql_set_multi_assign_unsupported(cat: &MessageCatalog) -> (r: String)
    ensures
        r@ == lookup_spec(cat@, "sql.set_multi_assign_unsupported"@),
{
    let t0 = cat.template("sql.set_multi_assign_unsupported");
    t0
}

/// The `sql.truncate_partitions_unsupported` message.
pub fn sql_truncate_partitions_unsupported(cat: &MessageCatalog) -> (r: String)
    ensures
        r@ == lookup_spec(cat@, "sql.truncate_partitions_unsupported"@),
{
    let t0 = cat.template("sql.truncate_partitions_unsupported");
    t0
}

/// The `sql.truncate_cascade_unsupported` message.
pub fn sql_truncate_cascade_unsupported(cat: &MessageCatalog) -> (r: String)
    ensures
        r@ == lookup_spec(cat@, "sql.truncate_cascade_unsupported"@),
{
    let t0 = cat.template("sql.truncate_cascade_unsupported");
    t0
}

/// The `sql.truncate_on_cluster_unsupported` message.
pub fn sql_truncate_on_cluster_unsupported(cat: &MessageCatalog) -> (r: String)
    ensures
        r@ == lookup_spec(cat@, "sql.truncate_on_cluster_unsupported"@),
{
    let t0 = cat.template("sql.truncate_on_cluster_unsupported");
    t0
}

/// The `sql.truncate_multiple_tables_unsupported` message.
pub fn sql_truncate_multiple_tables_unsupported(cat: &MessageCatalog) -> (r: String)
    ensures
        r@ == lookup_spec(cat@, "sql.truncate_multiple_tables_unsupported"@),
{
    let t0 = cat.template("sql.truncate_multiple_tables_unsupported");
    t0
}

/// The `sql.truncate_not_base_table` message, with `%{name}` by `name`.
pub fn sql_truncate_not_base_table(cat: &MessageCatalog, name: &str) -> (r: String)
    ensures
        r@ == replace_seq(lookup_spec(cat@, "sql.truncate_not_base_table"@), "%{name}"@, name@),
{
    let t0 = cat.template("sql.truncate_not_base_table");
    let t1 = replace_all(t0.as_str(), "%{name}", name);
    t1
}

/// The `sql.replace_into_unsupported` message.
pub fn sql_replace_into_unsupported(cat: &MessageCatalog) -> (r: String)
    ensures
        r@ == lookup_spec(cat@, "sql.replace_into_unsupported"@),
{
    let t0 = cat.template("sql.replace_into_unsupported");
    t0
}

/// The `sql.replace_composite_pk_unsupported` message.
pub fn sql_replace_composite_pk_unsupported(cat: &MessageCatalog) -> (r: String)
    ensures
        r@ == lookup_spec(cat@, "sql.replace_composite_pk_unsupported"@),
{
    let t0 = cat.template("sql.replace_composite_pk_unsupported");
    t0
}

/// The `sql.on_conflict_unsupported` message.
pub fn sql_on_conflict_unsupported(cat: &MessageCatalog) -> (r: String)
    ensures
        r@ == lookup_spec(cat@, "sql.on_conflict_unsupported"@),
{
    let t0 = cat.template("sql.on_conflict_unsupported");
    t0
}

/// The `sql.odku_composite_pk_unsupported` message.
pub fn sql_odku_composite_pk_unsupported(cat: &MessageCatalog) -> (r: String)
    ensures
        r@ == lookup_spec(cat@, "sql.odku_composite_pk_unsupported"@),
{
    let t0 = cat.template("sql.odku_composite_pk_unsupported");
    t0
}

/// The `sql.insert_column_count` message, with `%{expected}` by `expected`, `%{actual}` by `actual`.
pub fn sql_insert_column_count(cat: &MessageCatalog, expected: usize, actual: usize) -> (r: String)
    ensures
        r@ == replace_seq(replace_seq(lookup_spec(cat@, "sql.insert_column_count"@), "%{expected}"@, decimal(expected as nat)), "%{actual}"@, decimal(actual as nat)),
{
    let expected_text = u64_to_string(expected as u64);
    let actual_text = u64_to_string(actual as u64);
    let t0 = cat.template("sql.insert_column_count");
    let t1 = replace_all(t0.as_str(), "%{expected}", expected_text.as_str());
    let t2 = replace_all(t1.as_str(), "%{actual}", actual_text.as_str());
    t2
}

/// The `sql.with_recursive_unsupported` message.
pub fn sql_with_recursive_unsupported(cat: &MessageCatalog) -> (r: String)
    ensures
        r@ == lookup_spec(cat@, "sql.with_recursive_unsupported"@),
{
    let t0 = cat.template("sql.with_recursive_unsupported");
    t0
}

/// The `sql.named_window_unsupported` message.
pub fn sql_named_window_unsupported(cat: &MessageCatalog) -> (r: String)
    ensures
        r@ == lookup_spec(cat@, "sql.named_window_unsupported"@),
{
    let t0 = cat.template("sql.named_window_unsupported");
    t0
}

/// The `sql.window_frame_unsupported` message.
pub fn sql_window_frame_unsupported(cat: &MessageCatalog) -> (r: String)
    ensures
        r@ == lookup_spec(cat@, "sql.window_frame_unsupported"@),
{
    let t0 = cat.template("sql.window_frame_unsupported");
    t0
}

/// The `sql.unsupported_window_function` message, with `%{name}` by `name`.
pub fn sql_unsupported_window_function(cat: &MessageCatalog, name: &str) -> (r: String)
    ensures
        r@ == replace_seq(lookup_spec(cat@, "sql.unsupported_window_function"@), "%{name}"@, name@),
{
    let t0 = cat.template("sql.unsupported_window_function");
    let t1 = replace_all(t0.as_str(), "%{name}", name);
    t1
}

/// The `sql.window_rank_no_args` message.
pub fn sql_window_rank_no_args(cat: &MessageCatalog) -> (r: String)
    ensures
        r@ == lookup_spec(cat@, "sql.window_rank_no_args"@),
{
    let t0 = cat.template("sql.window_rank_no_args");
    t0
}

/// The `sql.user_not_found` message, with `%{account}` by `account`.
pub fn sql_user_not_found(cat: &MessageCatalog, account: &str) -> (r: String)
    ensures
        r@ == replace_seq(lookup_spec(cat@, "sql.user_not_found"@), "%{account}"@, account@),
{
    let t0 = cat.template("sql.user_not_found");
    let t1 = replace_all(t0.as_str(), "%{account}", account);
    t1
}

/// The `programs.procedure_exists` message, with `%{name}` by `name`.
pub fn procedure_exists(cat: &MessageCatalog, name: &str) -> (r: String)
    ensures
        r@ == replace_seq(lookup_spec(cat@, "programs.procedure_exists"@), "%{name}"@, name@),
{
    let t0 = cat.template("programs.procedure_exists");
    let t1 = replace_all(t0.as_str(), "%{name}", name);
    t1
}

/// The `programs.procedure_not_found` message, with `%{name}` by `name`.
pub fn procedure_not_found(cat: &MessageCatalog, name: &str) -> (r: String)
    ensures
        r@ == replace_seq(lookup_spec(cat@, "programs.procedure_not_found"@), "%{name}"@, name@),
{
    let t0 = cat.template("programs.procedure_not_found");
    let t1 = replace_all(t0.as_str(), "%{name}", name);
    t1
}

/// The `programs.function_exists` message, with `%{name}` by `name`.
pub fn function_exists(cat: &MessageCatalog, name: &str) -> (r: String)
    ensures
        r@ == replace_seq(lookup_spec(cat@, "programs.function_exists"@), "%{name}"@, name@),
{
    let t0 = cat.template("programs.function_exists");
    let t1 = replace_all(t0.as_str(), "%{name}", name);
    t1
}

/// The `programs.function_not_found` message, with `%{name}` by `name`.
pub fn function_not_found(cat: &MessageCatalog, name: &str) -> (r: String)
    ensures
        r@ == replace_seq(lookup_spec(cat@, "programs.function_not_found"@), "%{name}"@, name@),
{
    let t0 = cat.template("programs.function_not_found");
    let t1 = replace_all(t0.as_str(), "%{name}", name);
    t1
}

/// The `programs.trigger_exists` message, with `%{name}` by `name`.
pub fn trigger_exists(cat: &MessageCatalog, name: &str) -> (r: String)
    ensures
        r@ == replace_seq(lookup_spec(cat@, "programs.trigger_exists"@), "%{name}"@, name@),
{
    let t0 = cat.template("programs.trigger_exists");
    let t1 = replace_all(t0.as_str(), "%{name}", name);
    t1
}

/// The `programs.trigger_not_found` message, with `%{name}` by `name`.
pub fn trigger_not_found(cat: &MessageCatalog, name: &str) -> (r: String)
    ensures
        r@ == replace_seq(lookup_spec(cat@, "programs.trigger_not_found"@), "%{name}"@, name@),
{
    let t0 = cat.template("programs.trigger_not_found");
    let t1 = replace_all(t0.as_str(), "%{name}", name);
    t1
}

/// The `programs.event_exists` message, with `%{name}` by `name`.
pub fn event_exists(cat: &MessageCatalog, name: &str) -> (r: String)
    ensures
        r@ == replace_seq(lookup_spec(cat@, "programs.event_exists"@), "%{name}"@, name@),
{
    let t0 = cat.template("programs.event_exists");
    let t1 = replace_all(t0.as_str(), "%{name}", name);
    t1
}

/// The `programs.event_not_found` message, with `%{name}` by `name`.
pub fn event_not_found(cat: &MessageCatalog, name: &str) -> (r: String)
    ensures
        r@ == replace_seq(lookup_spec(cat@, "programs.event_not_found"@), "%{name}"@, name@),
{
    let t0 = cat.template("programs.event_not_found");
    let t1 = replace_all(t0.as_str(), "%{name}", name);
    t1
}

/// The `programs.unsupported_body` message, with `%{detail}` by `detail`.
pub fn unsupported_program_body(cat: &MessageCatalog, detail: &str) -> (r: String)
    ensures
        r@ == replace_seq(lookup_spec(cat@, "programs.unsupported_body"@), "%{detail}"@, detail@),
{
    let t0 = cat.template("programs.unsupported_body");
    let t1 = replace_all(t0.as_str(), "%{detail}", detail);
    t1
}

/// The `programs.call_no_such_procedure` message, with `%{name}` by `name`.
pub fn call_no_such_procedure(cat: &MessageCatalog, name: &str) -> (r: String)
    ensures
        r@ == replace_seq(lookup_spec(cat@, "programs.call_no_such_procedure"@), "%{name}"@, name@),
{
    let t0 = cat.template("programs.call_no_such_procedure");
    let t1 = replace_all(t0.as_str(), "%{name}", name);
    t1
}

/// The `storage.table_not_found` message, with `%{name}` by `name`.
pub fn storage_table_not_found(cat: &MessageCatalog, name: &str) -> (r: String)
    ensures
        r@ == replace_seq(lookup_spec(cat@, "storage.table_not_found"@), "%{name}"@, name@),
{
    let t0 = cat.template("storage.table_not_found");
    let t1 = replace_all(t0.as_str(), "%{name}", name);
    t1
}

/// The `storage.database_not_found` message, with `%{name}` by `name`.
pub fn storage_database_not_found(cat: &MessageCatalog, name: &str) -> (r: String)
    ensures
        r@ == replace_seq(lookup_spec(cat@, "storage.database_not_found"@), "%{name}"@, name@),
{
    let t0 = cat.template("storage.database_not_found");
    let t1 = replace_all(t0.as_str(), "%{name}", name);
    t1
}

/// The `storage.database_exists` message, with `%{name}` by `name`.
pub fn storage_database_exists(cat: &MessageCatalog, name: &str) -> (r: String)
    ensures
        r@ == replace_seq(lookup_spec(cat@, "storage.database_exists"@), "%{name}"@, name@),
{
    let t0 = cat.template("storage.database_exists");
    let t1 = replace_all(t0.as_str(), "%{name}", name);
    t1
}

/// The `storage.database_not_empty` message, with `%{name}` by `name`.
pub fn storage_database_not_empty(cat: &MessageCatalog, name: &str) -> (r: String)
    ensures
        r@ == replace_seq(lookup_spec(cat@, "storage.database_not_empty"@), "%{name}"@, name@),
{
    let t0 = cat.template("storage.database_not_empty");
    let t1 = replace_all(t0.as_str(), "%{name}", name);
    t1
}

/// The `cli.usage` message.
pub fn cli_usage(cat: &MessageCatalog) -> (r: String)
    ensures
        r@ == lookup_spec(cat@, "cli.usage"@),
{
    let t0 = cat.template("cli.usage");
    t0
}

} // verus!
