//! `GRANT` / `REVOKE` execution and the privilege check of statements.
use vstd::prelude::*;
use crate::catalog::{Session, DEFAULT_SCHEMA};
use crate::executor::push_str;
use crate::messages::{
    lookup_spec, replace_seq, sql_command_denied, sql_command_denied_table, MessageCatalog,
};
use crate::privileges::{
    grant_spec, has_privilege_spec, is_superuser_spec, priv_name, revoke_spec, Account,
    GrantTarget, GrantView, Privilege, PrivilegeSet, PrivilegeStore,
};
use crate::results::{ExecError, QueryResult};
use crate::text::{owned, str_chars, str_eq, string_from_chars, sub_chars};

verus! {

/// The virtual table that `SHOW GRANTS` reads.
pub const SHOW_GRANTS_VIRTUAL_TABLE: &'static str = "__rusql_show_grants";

/// The virtual table that `mysql.user` reads.
pub const MYSQL_USER_VIRTUAL_TABLE: &'static str = "__rusql_mysql_user";

/// An object name as written: its dotted parts and how it is displayed.
#[derive(Debug, Clone, PartialEq, Eq)]
pub struct ObjectRef {
    pub parts: Vec<String>,
    pub display: String,
}

/// The texts of an object name's parts.
pub open spec fn parts_of(o: ObjectRef) -> Seq<Seq<char>> {
    Seq::new(o.parts@.len(), |i: int| o.parts@[i]@)
}

/// A privilege named in `GRANT` / `REVOKE`.
#[derive(Debug, Clone, Copy, PartialEq, Eq)]
pub enum PrivilegeAction {
    Select,
    Insert,
    Update,
    Delete,
    Create,
    /// Any other privilege, which is not supported.
    Other,
}

/// The privilege list of `GRANT` / `REVOKE`.
#[derive(Debug, Clone, PartialEq, Eq)]
pub enum PrivilegeList {
    /// `ALL [PRIVILEGES]`.
    All,
    /// A list of privileges.
    Actions(Vec<PrivilegeAction>),
}

/// The objects of `GRANT` / `REVOKE`.
#[derive(Debug, Clone, PartialEq, Eq)]
pub enum GrantObjectList {
    /// `ON [TABLE] name, …`.
    Tables(Vec<ObjectRef>),
    /// `ON SCHEMA name, …`.
    Schemas(Vec<ObjectRef>),
    /// `ON ALL TABLES IN SCHEMA name, …`.
    AllTablesInSchema(Vec<ObjectRef>),
    /// Any other kind of object, as displayed.
    Other(String),
}

/// A grant target as plain values: schema, and table (`None` for the whole schema).
pub type TargetView = (Seq<char>, Option<Seq<char>>);

/// The supported privilege an action names.
pub open spec fn action_privilege(a: PrivilegeAction) -> Option<Privilege> {
    match a {
        PrivilegeAction::Select => Some(Privilege::Select),
        PrivilegeAction::Insert => Some(Privilege::Insert),
        PrivilegeAction::Update => Some(Privilege::Update),
        PrivilegeAction::Delete => Some(Privilege::Delete),
        PrivilegeAction::Create => Some(Privilege::Create),
        PrivilegeAction::Other => None,
    }
}

/// The supported privilege an action names.
fn action_to_privilege(a: PrivilegeAction) -> (r: Option<Privilege>)
    ensures
        r == action_privilege(a),
{
    match a {
        PrivilegeAction::Select => Some(Privilege::Select),
        PrivilegeAction::Insert => Some(Privilege::Insert),
        PrivilegeAction::Update => Some(Privilege::Update),
        PrivilegeAction::Delete => Some(Privilege::Delete),
        PrivilegeAction::Create => Some(Privilege::Create),
        PrivilegeAction::Other => None,
    }
}

/// The supported privileges named by a list of actions.
pub open spec fn actions_set(acts: Seq<PrivilegeAction>) -> Set<Privilege> {
    Set::new(|p: Privilege| exists|i: int| 0 <= i < acts.len() && action_privilege(acts[i]) == Some(p))
}

/// Every privilege.
pub open spec fn all_privileges() -> Set<Privilege> {
    Set::new(|p: Privilege| true)
}

/// The privileges of a list: all of them for `ALL`; else those named, and an error when none
/// is supported.
pub open spec fn privileges_spec(p: PrivilegeList) -> Result<Set<Privilege>, Seq<char>> {
    match p {
        PrivilegeList::All => Ok(all_privileges()),
        PrivilegeList::Actions(acts) => if actions_set(acts@) == Set::<Privilege>::empty() {
            Err("no supported privileges"@)
        } else {
            Ok(actions_set(acts@))
        },
    }
}

/// The privileges of a list.
fn privileges_to_set(p: &PrivilegeList) -> (r: Result<PrivilegeSet, ExecError>)
    ensures
        match privileges_spec(*p) {
            Ok(s) => r matches Ok(set) && set@ == s,
            Err(m) => r matches Err(ExecError::Message(e)) && e@ == m,
        },
{
    match p {
        PrivilegeList::All => {
            let set = PrivilegeSet::from_slice(
                &[
                    Privilege::Select,
                    Privilege::Insert,
                    Privilege::Update,
                    Privilege::Delete,
                    Privilege::Create,
                    Privilege::Drop,
                    Privilege::Index,
                    Privilege::Alter,
                ],
            );
            proof {
                assert forall|q: Privilege| set@.contains(q) <==> all_privileges().contains(q) by {
                    match q {
                        Privilege::Select => assert(set@.contains(q)),
                        _ => {},
                    }
                }
                assert(set@ =~= all_privileges());
            }
            Ok(set)
        },
        PrivilegeList::Actions(acts) => {
            let mut set = PrivilegeSet::new();
            let mut i: usize = 0;
            while i < acts.len()
                invariant
                    i <= acts@.len(),
                    set@ == actions_set(acts@.take(i as int)),
                decreases acts@.len() - i,
            {
                let ghost before = set@;
                match action_to_privilege(acts[i]) {
                    Some(q) => set.insert(q),
                    None => {},
                }
                i = i + 1;
                proof {
                    let t = acts@.take(i as int);
                    assert forall|q: Privilege| set@.contains(q) <==> actions_set(t).contains(q) by {
                        if actions_set(t).contains(q) {
                            let k = choose|k: int| 0 <= k < t.len() && action_privilege(#[trigger] t[k]) == Some(q);
                            if k < i - 1 {
                                assert(acts@.take(i - 1)[k] == t[k]);
                            }
                        }
                        if before.contains(q) {
                            let prev = acts@.take(i - 1);
                            let k = choose|k: int| 0 <= k < prev.len() && action_privilege(#[trigger] prev[k]) == Some(q);
                            assert(t[k] == prev[k]);
                        }
                        if action_privilege(acts@[i - 1]) == Some(q) {
                            assert(t[i - 1] == acts@[i - 1]);
                        }
                    }
                    assert(set@ =~= actions_set(t));
                }
            }
            proof {
                assert(acts@.take(i as int) =~= acts@);
            }
            if set.is_empty() {
                return Err(ExecError::Message(owned("no supported privileges")));
            }
            Ok(set)
        },
    }
}

/// The last part of an object name (empty when it has none).
pub open spec fn last_part(o: ObjectRef) -> Seq<char> {
    if o.parts@.len() == 0 {
        Seq::empty()
    } else {
        o.parts@.last()@
    }
}

/// The last part of an object name.
fn object_name_last(o: &ObjectRef) -> (r: String)
    ensures
        r@ == last_part(*o),
{
    if o.parts.len() == 0 {
        String::new()
    } else {
        owned(o.parts[o.parts.len() - 1].as_str())
    }
}

/// The target an object names: `schema.*`, `schema.table`, or a table of the default schema.
pub open spec fn grant_object_spec(o: ObjectRef) -> Result<TargetView, Seq<char>> {
    let p = parts_of(o);
    if p.len() == 2 && p[1] == "*"@ {
        Ok((p[0], None))
    } else if p.len() == 2 {
        Ok((p[0], Some(p[1])))
    } else if p.len() == 1 {
        Ok((DEFAULT_SCHEMA@, Some(p[0])))
    } else {
        Err("unsupported grant object: "@ + o.display@)
    }
}

/// The target an object names.
fn parse_grant_object(o: &ObjectRef) -> (r: Result<GrantTarget, ExecError>)
    ensures
        match grant_object_spec(*o) {
            Ok(t) => r matches Ok(g) && g@ == t,
            Err(m) => r matches Err(ExecError::Message(e)) && e@ == m,
        },
{
    if o.parts.len() == 2 && str_eq(o.parts[1].as_str(), "*") {
        Ok(GrantTarget { schema: owned(o.parts[0].as_str()), table: None })
    } else if o.parts.len() == 2 {
        Ok(GrantTarget { schema: owned(o.parts[0].as_str()), table: Some(owned(o.parts[1].as_str())) })
    } else if o.parts.len() == 1 {
        Ok(GrantTarget { schema: owned(DEFAULT_SCHEMA), table: Some(owned(o.parts[0].as_str())) })
    } else {
        let mut msg: Vec<char> = Vec::new();
        push_str(&mut msg, "unsupported grant object: ");
        push_str(&mut msg, o.display.as_str());
        Err(ExecError::Message(string_from_chars(msg.as_slice())))
    }
}

/// The targets of each name in turn; the first name that names none gives the error.
pub open spec fn parse_objects(os: Seq<ObjectRef>) -> Result<Seq<TargetView>, Seq<char>>
    decreases os.len(),
{
    if os.len() == 0 {
        Ok(Seq::empty())
    } else {
        match parse_objects(os.drop_last()) {
            Err(m) => Err(m),
            Ok(ts) => match grant_object_spec(os.last()) {
                Err(m) => Err(m),
                Ok(t) => Ok(ts.push(t)),
            },
        }
    }
}

/// The targets of `GRANT` / `REVOKE` objects.
pub open spec fn grant_targets_spec(objs: GrantObjectList) -> Result<Seq<TargetView>, Seq<char>> {
    match objs {
        GrantObjectList::Tables(ns) => parse_objects(ns@),
        GrantObjectList::Schemas(ns) => parse_objects(ns@),
        GrantObjectList::AllTablesInSchema(ns) => Ok(
            Seq::new(ns@.len(), |i: int| (last_part(ns@[i]), None::<Seq<char>>)),
        ),
        GrantObjectList::Other(d) => Err("unsupported GRANT object: "@ + d@),
    }
}

/// The targets of each name in turn.
fn parse_object_list(ns: &Vec<ObjectRef>) -> (r: Result<Vec<GrantTarget>, ExecError>)
    ensures
        match parse_objects(ns@) {
            Ok(ts) => r matches Ok(v) && v@.len() == ts.len() && forall|i: int|
                0 <= i < ts.len() ==> #[trigger] v@[i]@ == ts[i],
            Err(m) => r matches Err(ExecError::Message(e)) && e@ == m,
        },
{
    let mut out: Vec<GrantTarget> = Vec::new();
    let mut i: usize = 0;
    while i < ns.len()
        invariant
            i <= ns@.len(),
            parse_objects(ns@.take(i as int)) matches Ok(ts) && out@.len() == ts.len() && forall|k: int|
                0 <= k < ts.len() ==> #[trigger] out@[k]@ == ts[k],
        decreases ns@.len() - i,
    {
        proof {
            assert(ns@.take(i + 1).drop_last() =~= ns@.take(i as int));
        }
        match parse_grant_object(&ns[i]) {
            Err(e) => {
                proof {
                    lemma_parse_objects_stops(ns@, i as int);
                }
                return Err(e);
            },
            Ok(t) => {
                out.push(t);
            },
        }
        i = i + 1;
    }
    proof {
        assert(ns@.take(i as int) =~= ns@);
    }
    Ok(out)
}

/// Once a name names no target, the whole list fails with its error.
pub proof fn lemma_parse_objects_stops(os: Seq<ObjectRef>, i: int)
    requires
        0 <= i < os.len(),
        parse_objects(os.take(i)) is Ok,
        grant_object_spec(os[i]) is Err,
    ensures
        grant_object_spec(os[i]) matches Err(m) && parse_objects(os) == Err::<Seq<TargetView>, Seq<char>>(m),
    decreases os.len(),
{
    if i == os.len() - 1 {
        assert(os.drop_last() =~= os.take(i));
    } else {
        assert(os.drop_last().take(i) =~= os.take(i));
        lemma_parse_objects_stops(os.drop_last(), i);
    }
}

/// The targets of `GRANT` / `REVOKE` objects.
fn grant_targets(objs: &GrantObjectList) -> (r: Result<Vec<GrantTarget>, ExecError>)
    ensures
        match grant_targets_spec(*objs) {
            Ok(ts) => r matches Ok(v) && v@.len() == ts.len() && forall|i: int|
                0 <= i < ts.len() ==> #[trigger] v@[i]@ == ts[i],
            Err(m) => r matches Err(ExecError::Message(e)) && e@ == m,
        },
{
    match objs {
        GrantObjectList::Tables(ns) => parse_object_list(ns),
        GrantObjectList::Schemas(ns) => parse_object_list(ns),
        GrantObjectList::AllTablesInSchema(ns) => {
            let mut out: Vec<GrantTarget> = Vec::new();
            let mut i: usize = 0;
            while i < ns.len()
                invariant
                    i <= ns@.len(),
                    out@.len() == i,
                    forall|k: int| 0 <= k < i ==> #[trigger] out@[k]@ == (last_part(ns@[k]), None::<Seq<char>>),
                decreases ns@.len() - i,
            {
                out.push(GrantTarget { schema: object_name_last(&ns[i]), table: None });
                i = i + 1;
            }
            Ok(out)
        },
        GrantObjectList::Other(d) => {
            let mut msg: Vec<char> = Vec::new();
            push_str(&mut msg, "unsupported GRANT object: ");
            push_str(&mut msg, d.as_str());
            Err(ExecError::Message(string_from_chars(msg.as_slice())))
        },
    }
}

/// `s` without backticks at either end.
pub open spec fn trim_backticks(s: Seq<char>) -> Seq<char>
    decreases s.len(),
{
    if s.len() > 0 && s[0] == '`' {
        trim_backticks(s.drop_first())
    } else if s.len() > 0 && s.last() == '`' {
        trim_backticks(s.drop_last())
    } else {
        s
    }
}

/// The account a grantee names: `user@host` split at the first `@` (host `%` when there is
/// none), backticks at either end dropped first.
pub open spec fn grantee_account(ident: Seq<char>) -> (Seq<char>, Seq<char>) {
    let v = trim_backticks(ident);
    match crate::types::find_char_from(v, '@', 0) {
        Some(k) => (v.take(k), v.skip(k + 1)),
        None => (v, "%"@),
    }
}

/// The account a grantee names.
pub fn parse_account_ident(ident: &str) -> (r: Account)
    ensures
        (r.user@, r.host@) == grantee_account(ident@),
{
    let v = str_chars(ident);
    let mut lo: usize = 0;
    let mut hi: usize = v.len();
    proof {
        assert(v@.subrange(0, v@.len() as int) =~= v@);
    }
    while lo < hi && (v[lo] == '`' || v[hi - 1] == '`')
        invariant
            lo <= hi <= v@.len(),
            trim_backticks(v@) == trim_backticks(v@.subrange(lo as int, hi as int)),
        decreases hi - lo,
    {
        let ghost s = v@.subrange(lo as int, hi as int);
        if v[lo] == '`' {
            proof {
                assert(s.drop_first() =~= v@.subrange(lo + 1, hi as int));
            }
            lo = lo + 1;
        } else {
            proof {
                assert(s.drop_last() =~= v@.subrange(lo as int, hi - 1));
            }
            hi = hi - 1;
        }
    }
    let t = sub_chars(&v, lo, hi);
    proof {
        assert(trim_backticks(t@) == t@);
    }
    match crate::types::find_char(&t, '@') {
        Some(k) => {
            let u = sub_chars(&t, 0, k);
            let h = sub_chars(&t, k + 1, t.len());
            proof {
                assert(u@ =~= t@.take(k as int));
                assert(h@ =~= t@.skip(k + 1));
            }
            Account { user: string_from_chars(u.as_slice()), host: string_from_chars(h.as_slice()) }
        },
        None => Account { user: string_from_chars(t.as_slice()), host: owned("%") },
    }
}

/// The account of a session.
fn session_account(session: &Session) -> (r: Account)
    ensures
        r.user@ == session.user@,
        r.host@ == session.host@,
{
    Account::new(session.user.as_str(), session.host.as_str())
}

/// The message that refuses `command` to `user`@`host` (on `table` when there is one).
pub open spec fn denied_msg(cat: MessageCatalog, command: Seq<char>, user: Seq<char>, host: Seq<char>, table: Option<Seq<char>>) -> Seq<char> {
    match table {
        Some(t) => replace_seq(
            replace_seq(
                replace_seq(
                    replace_seq(lookup_spec(cat@, "sql.command_denied_table"@), "%{command}"@, command),
                    "%{user}"@,
                    user,
                ),
                "%{host}"@,
                host,
            ),
            "%{table}"@,
            t,
        ),
        None => replace_seq(
            replace_seq(
                replace_seq(lookup_spec(cat@, "sql.command_denied"@), "%{command}"@, command),
                "%{user}"@,
                user,
            ),
            "%{host}"@,
            host,
        ),
    }
}

/// Error 1142: `command` refused to the account (on `table` when there is one).
fn denied_error(cat: &MessageCatalog, account: &Account, table: Option<&str>, command: &str) -> (r: ExecError)
    ensures
        r matches ExecError::Mysql { code, message } && code == 1142 && message@ == denied_msg(
            *cat,
            command@,
            account.user@,
            account.host@,
            match table {
                Some(t) => Some(t@),
                None => None,
            },
        ),
{
    let message = match table {
        Some(t) => sql_command_denied_table(cat, command, account.user.as_str(), account.host.as_str(), t),
        None => sql_command_denied(cat, command, account.user.as_str(), account.host.as_str()),
    };
    ExecError::Mysql { code: 1142, message }
}

/// Only a superuser may grant: anyone else gets error 1142 for `GRANT`.
fn ensure_grant_admin(cat: &MessageCatalog, session: &Session) -> (r: Result<(), ExecError>)
    ensures
        is_superuser_spec(session.user@) ==> r is Ok,
        !is_superuser_spec(session.user@) ==> (r matches Err(ExecError::Mysql { code, message })
            && code == 1142 && message@ == denied_msg(*cat, "GRANT"@, session.user@, session.host@, None)),
{
    if PrivilegeStore::is_superuser(session.user.as_str()) {
        Ok(())
    } else {
        Err(denied_error(cat, &session_account(session), None, "GRANT"))
    }
}


/// Each target paired with each grantee, target by target.
pub open spec fn grant_pairs(ts: Seq<TargetView>, gs: Seq<Seq<char>>) -> Seq<(TargetView, Seq<char>)>
    decreases ts.len(),
{
    if ts.len() == 0 {
        Seq::empty()
    } else {
        grant_pairs(ts.drop_last(), gs) + Seq::new(gs.len(), |k: int| (ts.last(), gs[k]))
    }
}

/// The grants after granting `privs` for each (target, grantee) pair in turn.
pub open spec fn grant_all(grants: Seq<GrantView>, pairs: Seq<(TargetView, Seq<char>)>, privs: Set<Privilege>) -> Seq<GrantView>
    decreases pairs.len(),
{
    if pairs.len() == 0 {
        grants
    } else {
        let g = grant_all(grants, pairs.drop_last(), privs);
        let a = grantee_account(pairs.last().1);
        grant_spec(g, a.0, a.1, pairs.last().0, privs)
    }
}

/// The grants after revoking `privs` for each (target, grantee) pair in turn.
pub open spec fn revoke_all(grants: Seq<GrantView>, pairs: Seq<(TargetView, Seq<char>)>, privs: Set<Privilege>) -> Seq<GrantView>
    decreases pairs.len(),
{
    if pairs.len() == 0 {
        grants
    } else {
        let g = revoke_all(grants, pairs.drop_last(), privs);
        let a = grantee_account(pairs.last().1);
        revoke_spec(g, a.0, a.1, pairs.last().0, privs)
    }
}

/// The texts of the grantees.
pub open spec fn grantee_texts(gs: Seq<String>) -> Seq<Seq<char>> {
    Seq::new(gs.len(), |i: int| gs[i]@)
}

/// A copy of a grant target.
fn copy_target(t: &GrantTarget) -> (r: GrantTarget)
    ensures
        r@ == t@,
{
    GrantTarget {
        schema: owned(t.schema.as_str()),
        table: match &t.table {
            Some(x) => Some(owned(x.as_str())),
            None => None,
        },
    }
}

/// Whether `r` reports success with no rows affected.
pub open spec fn no_rows_affected(r: Result<QueryResult, ExecError>) -> bool {
    r matches Ok(QueryResult::Affected { rows_affected }) && rows_affected == 0
}

/// Grants or revokes `privs` on each target for each grantee.
fn apply_to_all(
    store: &mut PrivilegeStore,
    targets: &Vec<GrantTarget>,
    grantees: &[String],
    privs: PrivilegeSet,
    revoke: bool,
)
    ensures
        final(store)@.1 == old(store)@.1,
        final(store)@.0 == if revoke {
            revoke_all(
                old(store)@.0,
                grant_pairs(Seq::new(targets@.len(), |i: int| targets@[i]@), grantee_texts(grantees@)),
                privs@,
            )
        } else {
            grant_all(
                old(store)@.0,
                grant_pairs(Seq::new(targets@.len(), |i: int| targets@[i]@), grantee_texts(grantees@)),
                privs@,
            )
        },
{
    let ghost ts = Seq::new(targets@.len(), |i: int| targets@[i]@);
    let ghost gs = grantee_texts(grantees@);
    let ghost g0 = store@.0;
    let mut ti: usize = 0;
    proof {
        assert(ts.take(0) =~= Seq::<TargetView>::empty());
    }
    while ti < targets.len()
        invariant
            ti <= targets@.len(),
            ts == Seq::new(targets@.len(), |i: int| targets@[i]@),
            gs == grantee_texts(grantees@),
            store@.1 == old(store)@.1,
            g0 == old(store)@.0,
            store@.0 == if revoke {
                revoke_all(g0, grant_pairs(ts.take(ti as int), gs), privs@)
            } else {
                grant_all(g0, grant_pairs(ts.take(ti as int), gs), privs@)
            },
        decreases targets@.len() - ti,
    {
        let ghost base = grant_pairs(ts.take(ti as int), gs);
        let mut gi: usize = 0;
        proof {
            assert(base + Seq::new(0, |k: int| (ts[ti as int], gs[k])) =~= base);
        }
        while gi < grantees.len()
            invariant
                ti < targets@.len(),
                gi <= grantees@.len(),
                ts == Seq::new(targets@.len(), |i: int| targets@[i]@),
                gs == grantee_texts(grantees@),
                store@.1 == old(store)@.1,
                store@.0 == if revoke {
                    revoke_all(g0, base + Seq::new(gi as nat, |k: int| (ts[ti as int], gs[k])), privs@)
                } else {
                    grant_all(g0, base + Seq::new(gi as nat, |k: int| (ts[ti as int], gs[k])), privs@)
                },
            decreases grantees@.len() - gi,
        {
            let account = parse_account_ident(grantees[gi].as_str());
            let target = copy_target(&targets[ti]);
            let ghost prev = base + Seq::new(gi as nat, |k: int| (ts[ti as int], gs[k]));
            let ghost next = base + Seq::new((gi + 1) as nat, |k: int| (ts[ti as int], gs[k]));
            proof {
                assert(next.drop_last() =~= prev);
                assert(next.last() == (ts[ti as int], gs[gi as int]));
            }
            if revoke {
                store.revoke(&account, target, privs);
            } else {
                store.grant(&account, target, privs);
            }
            gi = gi + 1;
        }
        proof {
            assert(ts.take(ti + 1).drop_last() =~= ts.take(ti as int));
            assert(ts.take(ti + 1).last() == ts[ti as int]);
            assert(Seq::new(gi as nat, |k: int| (ts[ti as int], gs[k])) =~= Seq::new(
                gs.len(),
                |k: int| (ts.take(ti + 1).last(), gs[k]),
            ));
        }
        ti = ti + 1;
    }
    proof {
        assert(ts.take(ti as int) =~= ts);
    }
}

/// `GRANT privileges ON objects TO grantees`: only a superuser may grant, `WITH GRANT OPTION`
/// is refused, then the privileges and targets are read and each grantee gets the privileges on
/// each target; nothing changes when an error is returned.
pub fn execute_grant(
    cat: &MessageCatalog,
    store: &mut PrivilegeStore,
    session: &Session,
    privileges: &PrivilegeList,
    objects: &GrantObjectList,
    grantees: &[String],
    with_grant_option: bool,
) -> (r: Result<QueryResult, ExecError>)
    ensures
        final(store)@.1 == old(store)@.1,
        !is_superuser_spec(session.user@) ==> (r matches Err(ExecError::Mysql { code, message })
            && code == 1142 && message@ == denied_msg(*cat, "GRANT"@, session.user@, session.host@, None)
            && final(store)@ == old(store)@),
        is_superuser_spec(session.user@) && with_grant_option ==> (r matches Err(
            ExecError::Message(m),
        ) && m@ == "WITH GRANT OPTION is not supported"@ && final(store)@ == old(store)@),
        is_superuser_spec(session.user@) && !with_grant_option ==> match (
            privileges_spec(*privileges),
            grant_targets_spec(*objects),
        ) {
            (Err(m), _) => r matches Err(ExecError::Message(e)) && e@ == m && final(store)@
                == old(store)@,
            (Ok(_), Err(m)) => r matches Err(ExecError::Message(e)) && e@ == m && final(store)@
                == old(store)@,
            (Ok(ps), Ok(ts)) => no_rows_affected(r) && final(store)@.0 == grant_all(
                old(store)@.0,
                grant_pairs(ts, grantee_texts(grantees@)),
                ps,
            ),
        },
{
    match ensure_grant_admin(cat, session) {
        Err(e) => {
            return Err(e);
        },
        Ok(()) => {},
    }
    if with_grant_option {
        return Err(ExecError::Message(owned("WITH GRANT OPTION is not supported")));
    }
    let privs = match privileges_to_set(privileges) {
        Err(e) => {
            return Err(e);
        },
        Ok(p) => p,
    };
    let targets = match grant_targets(objects) {
        Err(e) => {
            return Err(e);
        },
        Ok(t) => t,
    };
    proof {
        if let Ok(ts) = grant_targets_spec(*objects) {
            assert(Seq::new(targets@.len(), |i: int| targets@[i]@) =~= ts);
        }
    }
    apply_to_all(store, &targets, grantees, privs, false);
    Ok(QueryResult::Affected { rows_affected: 0 })
}

/// `REVOKE privileges ON objects FROM grantees`: only a superuser may revoke; then the
/// privileges and targets are read and each grantee loses the privileges on each target;
/// nothing changes when an error is returned.
pub fn execute_revoke(
    cat: &MessageCatalog,
    store: &mut PrivilegeStore,
    session: &Session,
    privileges: &PrivilegeList,
    objects: &GrantObjectList,
    grantees: &[String],
) -> (r: Result<QueryResult, ExecError>)
    ensures
        final(store)@.1 == old(store)@.1,
        !is_superuser_spec(session.user@) ==> (r matches Err(ExecError::Mysql { code, message })
            && code == 1142 && message@ == denied_msg(*cat, "GRANT"@, session.user@, session.host@, None)
            && final(store)@ == old(store)@),
        is_superuser_spec(session.user@) ==> match (
            privileges_spec(*privileges),
            grant_targets_spec(*objects),
        ) {
            (Err(m), _) => r matches Err(ExecError::Message(e)) && e@ == m && final(store)@
                == old(store)@,
            (Ok(_), Err(m)) => r matches Err(ExecError::Message(e)) && e@ == m && final(store)@
                == old(store)@,
            (Ok(ps), Ok(ts)) => no_rows_affected(r) && final(store)@.0 == revoke_all(
                old(store)@.0,
                grant_pairs(ts, grantee_texts(grantees@)),
                ps,
            ),
        },
{
    match ensure_grant_admin(cat, session) {
        Err(e) => {
            return Err(e);
        },
        Ok(()) => {},
    }
    let privs = match privileges_to_set(privileges) {
        Err(e) => {
            return Err(e);
        },
        Ok(p) => p,
    };
    let targets = match grant_targets(objects) {
        Err(e) => {
            return Err(e);
        },
        Ok(t) => t,
    };
    proof {
        if let Ok(ts) = grant_targets_spec(*objects) {
            assert(Seq::new(targets@.len(), |i: int| targets@[i]@) =~= ts);
        }
    }
    apply_to_all(store, &targets, grantees, privs, true);
    Ok(QueryResult::Affected { rows_affected: 0 })
}


/// The body of a query, as far as the privilege check reads it.
#[derive(Debug, Clone, PartialEq, Eq)]
pub enum QueryShape {
    /// A `SELECT`, with its first `FROM` item when that is a named table.
    Select { first_table: Option<ObjectRef> },
    /// `UNION` and the other set operations.
    SetOperation,
    /// A parenthesized query.
    Nested,
    /// An `INSERT` used as a query.
    Insert,
    /// An `UPDATE` used as a query.
    Update,
    /// `TABLE name`.
    Table,
    /// `VALUES …`.
    Values,
}

/// The target of `UPDATE` or `DELETE`: a named table, or something else as displayed.
#[derive(Debug, Clone, PartialEq, Eq)]
pub enum TableFactorRef {
    Table(ObjectRef),
    Other(String),
}

/// A statement, as far as the privilege check reads it.
#[derive(Debug, Clone, PartialEq, Eq)]
pub enum StatementAccess {
    Grant,
    Revoke,
    Query(QueryShape),
    Insert { table: ObjectRef },
    Update { table: TableFactorRef },
    /// `DELETE`, with its first table (`None` when it names none).
    Delete { first: Option<TableFactorRef> },
    CreateTable,
    CreateDatabase,
    CreateView,
    Drop,
    AlterTable,
    AlterIndex,
    CreateIndex,
    /// `EXPLAIN`, `SHOW …`, `USE`, transactions and every other statement: no privilege
    /// needed.
    Unchecked,
}

/// The schema and table an object names: a bare table is in the session's database.
pub open spec fn object_target_spec(db: Seq<char>, o: ObjectRef) -> Result<(Seq<char>, Seq<char>), Seq<char>> {
    let p = parts_of(o);
    if p.len() == 1 {
        Ok((db, p[0]))
    } else if p.len() == 2 {
        Ok((p[0], p[1]))
    } else {
        Err("unsupported object: "@ + o.display@)
    }
}

/// The schema and table an object names.
fn object_target(session: &Session, o: &ObjectRef) -> (r: Result<(String, String), ExecError>)
    ensures
        match object_target_spec(session.database@, *o) {
            Ok((s, t)) => r matches Ok((a, b)) && a@ == s && b@ == t,
            Err(m) => r matches Err(ExecError::Message(e)) && e@ == m,
        },
{
    if o.parts.len() == 1 {
        Ok((owned(session.database.as_str()), owned(o.parts[0].as_str())))
    } else if o.parts.len() == 2 {
        Ok((owned(o.parts[0].as_str()), owned(o.parts[1].as_str())))
    } else {
        let mut msg: Vec<char> = Vec::new();
        push_str(&mut msg, "unsupported object: ");
        push_str(&mut msg, o.display.as_str());
        Err(ExecError::Message(string_from_chars(msg.as_slice())))
    }
}

/// The privilege a query needs: `SELECT`, except for the `SHOW GRANTS` / `mysql.user` virtual
/// tables, a first table with no name, and `INSERT` / `UPDATE` bodies, which need none here.
pub open spec fn query_privilege_spec(q: QueryShape) -> Option<Privilege> {
    match q {
        QueryShape::Select { first_table } => match first_table {
            Some(o) => if o.parts@.len() == 0 {
                None
            } else if last_part(o) == SHOW_GRANTS_VIRTUAL_TABLE@ || last_part(o)
                == MYSQL_USER_VIRTUAL_TABLE@ {
                None
            } else {
                Some(Privilege::Select)
            },
            None => Some(Privilege::Select),
        },
        QueryShape::Insert => None,
        QueryShape::Update => None,
        _ => Some(Privilege::Select),
    }
}

/// The privilege a query needs.
fn query_privilege(q: &QueryShape) -> (r: Option<Privilege>)
    ensures
        r == query_privilege_spec(*q),
{
    match q {
        QueryShape::Select { first_table } => match first_table {
            Some(o) => {
                if o.parts.len() == 0 {
                    return None;
                }
                let table = &o.parts[o.parts.len() - 1];
                if str_eq(table.as_str(), SHOW_GRANTS_VIRTUAL_TABLE) || str_eq(
                    table.as_str(),
                    MYSQL_USER_VIRTUAL_TABLE,
                ) {
                    None
                } else {
                    Some(Privilege::Select)
                }
            },
            None => Some(Privilege::Select),
        },
        QueryShape::Insert => None,
        QueryShape::Update => None,
        _ => Some(Privilege::Select),
    }
}

/// What a query reads: the schema and table of its first `FROM` table, else the session's
/// database as a whole.
pub open spec fn query_target_spec(db: Seq<char>, q: QueryShape) -> Result<(Seq<char>, Option<Seq<char>>), Seq<char>> {
    match q {
        QueryShape::Select { first_table: Some(o) } => match object_target_spec(db, o) {
            Ok((s, t)) => Ok((s, Some(t))),
            Err(m) => Err(m),
        },
        _ => Ok((db, None)),
    }
}

/// What a query reads.
fn query_target(session: &Session, q: &QueryShape) -> (r: Result<(String, Option<String>), ExecError>)
    ensures
        match query_target_spec(session.database@, *q) {
            Ok((s, t)) => r matches Ok((a, b)) && a@ == s && match b {
                Some(x) => t == Some(x@),
                None => t is None,
            },
            Err(m) => r matches Err(ExecError::Message(e)) && e@ == m,
        },
{
    match q {
        QueryShape::Select { first_table: Some(o) } => match object_target(session, o) {
            Ok((s, t)) => Ok((s, Some(t))),
            Err(e) => Err(e),
        },
        _ => Ok((owned(session.database.as_str()), None)),
    }
}

/// The outcome of the privilege check.
pub enum Check {
    Allowed,
    /// Error 1142 with this message.
    Denied(Seq<char>),
    /// A plain error with this message.
    Failed(Seq<char>),
}

/// Checking that the statement's object allows `required`, or error 1142 for `command` on it.
pub open spec fn check_object(
    cat: MessageCatalog,
    grants: Seq<GrantView>,
    user: Seq<char>,
    host: Seq<char>,
    db: Seq<char>,
    o: ObjectRef,
    required: Privilege,
) -> Check {
    match object_target_spec(db, o) {
        Err(m) => Check::Failed(m),
        Ok((s, t)) => if has_privilege_spec(grants, user, host, s, Some(t), required) {
            Check::Allowed
        } else {
            Check::Denied(denied_msg(cat, priv_name(required), user, host, Some(t)))
        },
    }
}

/// Checking a database-wide privilege, or error 1142 for it.
pub open spec fn check_database(
    cat: MessageCatalog,
    grants: Seq<GrantView>,
    user: Seq<char>,
    host: Seq<char>,
    db: Seq<char>,
    required: Privilege,
) -> Check {
    if has_privilege_spec(grants, user, host, db, None, required) {
        Check::Allowed
    } else {
        Check::Denied(denied_msg(cat, priv_name(required), user, host, None))
    }
}

/// The privilege check of a statement for the session's account: a superuser may do
/// anything; `GRANT` / `REVOKE` need a superuser; a query needs its privilege on what it reads;
/// `INSERT` / `UPDATE` / `DELETE` theirs on their table; `CREATE …`, `DROP`, `ALTER …` and
/// `CREATE INDEX` theirs on the session's database.
pub open spec fn check_spec(
    cat: MessageCatalog,
    grants: Seq<GrantView>,
    user: Seq<char>,
    host: Seq<char>,
    db: Seq<char>,
    stmt: StatementAccess,
) -> Check {
    if is_superuser_spec(user) {
        Check::Allowed
    } else {
        match stmt {
            StatementAccess::Grant => Check::Denied(denied_msg(cat, "GRANT"@, user, host, None)),
            StatementAccess::Revoke => Check::Denied(denied_msg(cat, "GRANT"@, user, host, None)),
            StatementAccess::Query(q) => match query_privilege_spec(q) {
                None => Check::Allowed,
                Some(req) => match query_target_spec(db, q) {
                    Err(m) => Check::Failed(m),
                    Ok((s, t)) => if has_privilege_spec(grants, user, host, s, t, req) {
                        Check::Allowed
                    } else {
                        Check::Denied(denied_msg(cat, priv_name(req), user, host, t))
                    },
                },
            },
            StatementAccess::Insert { table } => check_object(
                cat,
                grants,
                user,
                host,
                db,
                table,
                Privilege::Insert,
            ),
            StatementAccess::Update { table } => match table {
                TableFactorRef::Other(d) => Check::Failed("unsupported UPDATE target: "@ + d@),
                TableFactorRef::Table(o) => check_object(
                    cat,
                    grants,
                    user,
                    host,
                    db,
                    o,
                    Privilege::Update,
                ),
            },
            StatementAccess::Delete { first } => match first {
                None => Check::Failed("DELETE requires a table"@),
                Some(TableFactorRef::Other(d)) => Check::Failed("unsupported DELETE target: "@ + d@),
                Some(TableFactorRef::Table(o)) => check_object(
                    cat,
                    grants,
                    user,
                    host,
                    db,
                    o,
                    Privilege::Delete,
                ),
            },
            StatementAccess::CreateTable => check_database(cat, grants, user, host, db, Privilege::Create),
            StatementAccess::CreateDatabase => check_database(cat, grants, user, host, db, Privilege::Create),
            StatementAccess::CreateView => check_database(cat, grants, user, host, db, Privilege::Create),
            StatementAccess::Drop => check_database(cat, grants, user, host, db, Privilege::Drop),
            StatementAccess::AlterTable => check_database(cat, grants, user, host, db, Privilege::Alter),
            StatementAccess::AlterIndex => check_database(cat, grants, user, host, db, Privilege::Alter),
            StatementAccess::CreateIndex => check_database(cat, grants, user, host, db, Privilege::Index),
            StatementAccess::Unchecked => Check::Allowed,
        }
    }
}

/// Whether `r` is the outcome `c`.
pub open spec fn check_result(c: Check, r: Result<(), ExecError>) -> bool {
    match c {
        Check::Allowed => r is Ok,
        Check::Denied(m) => r matches Err(ExecError::Mysql { code, message }) && code == 1142
            && message@ == m,
        Check::Failed(m) => r matches Err(ExecError::Message(e)) && e@ == m,
    }
}

/// Checks the statement's object for `required`.
fn check_object_exec(
    cat: &MessageCatalog,
    store: &PrivilegeStore,
    session: &Session,
    account: &Account,
    o: &ObjectRef,
    required: Privilege,
) -> (r: Result<(), ExecError>)
    requires
        account.user@ == session.user@,
        account.host@ == session.host@,
    ensures
        check_result(
            check_object(*cat, store@.0, session.user@, session.host@, session.database@, *o, required),
            r,
        ),
{
    let (schema, table) = match object_target(session, o) {
        Err(e) => {
            return Err(e);
        },
        Ok(x) => x,
    };
    if !store.has_privilege(account, schema.as_str(), Some(table.as_str()), required) {
        return Err(denied_error(cat, account, Some(table.as_str()), required.as_str()));
    }
    Ok(())
}

/// Checks a database-wide privilege.
fn check_database_exec(
    cat: &MessageCatalog,
    store: &PrivilegeStore,
    session: &Session,
    account: &Account,
    required: Privilege,
) -> (r: Result<(), ExecError>)
    requires
        account.user@ == session.user@,
        account.host@ == session.host@,
    ensures
        check_result(
            check_database(*cat, store@.0, session.user@, session.host@, session.database@, required),
            r,
        ),
{
    if !store.has_privilege(account, session.database.as_str(), None, required) {
        return Err(denied_error(cat, account, None, required.as_str()));
    }
    Ok(())
}

/// Whether the session's account may run the statement: `Ok`, error 1142 when a privilege is
/// missing, or an error for a target the check cannot read.
pub fn check_statement_privilege(
    cat: &MessageCatalog,
    store: &PrivilegeStore,
    session: &Session,
    stmt: &StatementAccess,
) -> (r: Result<(), ExecError>)
    ensures
        check_result(
            check_spec(*cat, store@.0, session.user@, session.host@, session.database@, *stmt),
            r,
        ),
{
    let account = session_account(session);
    if PrivilegeStore::is_superuser(account.user.as_str()) {
        return Ok(());
    }
    match stmt {
        StatementAccess::Grant | StatementAccess::Revoke => {
            Err(denied_error(cat, &account, None, "GRANT"))
        },
        StatementAccess::Query(q) => {
            match query_privilege(q) {
                None => Ok(()),
                Some(required) => {
                    let (schema, table) = match query_target(session, q) {
                        Err(e) => {
                            return Err(e);
                        },
                        Ok(x) => x,
                    };
                    let t = match &table {
                        Some(x) => Some(x.as_str()),
                        None => None,
                    };
                    if !store.has_privilege(&account, schema.as_str(), t, required) {
                        return Err(denied_error(cat, &account, t, required.as_str()));
                    }
                    Ok(())
                },
            }
        },
        StatementAccess::Insert { table } => check_object_exec(
            cat,
            store,
            session,
            &account,
            table,
            Privilege::Insert,
        ),
        StatementAccess::Update { table } => match table {
            TableFactorRef::Other(d) => {
                let mut msg: Vec<char> = Vec::new();
                push_str(&mut msg, "unsupported UPDATE target: ");
                push_str(&mut msg, d.as_str());
                Err(ExecError::Message(string_from_chars(msg.as_slice())))
            },
            TableFactorRef::Table(o) => check_object_exec(
                cat,
                store,
                session,
                &account,
                o,
                Privilege::Update,
            ),
        },
        StatementAccess::Delete { first } => match first {
            None => Err(ExecError::Message(owned("DELETE requires a table"))),
            Some(TableFactorRef::Other(d)) => {
                let mut msg: Vec<char> = Vec::new();
                push_str(&mut msg, "unsupported DELETE target: ");
                push_str(&mut msg, d.as_str());
                Err(ExecError::Message(string_from_chars(msg.as_slice())))
            },
            Some(TableFactorRef::Table(o)) => check_object_exec(
                cat,
                store,
                session,
                &account,
                o,
                Privilege::Delete,
            ),
        },
        StatementAccess::CreateTable | StatementAccess::CreateDatabase
        | StatementAccess::CreateView => check_database_exec(
            cat,
            store,
            session,
            &account,
            Privilege::Create,
        ),
        StatementAccess::Drop => check_database_exec(cat, store, session, &account, Privilege::Drop),
        StatementAccess::AlterTable | StatementAccess::AlterIndex => check_database_exec(
            cat,
            store,
            session,
            &account,
            Privilege::Alter,
        ),
        StatementAccess::CreateIndex => check_database_exec(
            cat,
            store,
            session,
            &account,
            Privilege::Index,
        ),
        StatementAccess::Unchecked => Ok(()),
    }
}

} // verus!
