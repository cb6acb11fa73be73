//! Account privileges (`GRANT` / `REVOKE`), login accounts and their checks.
use vstd::prelude::*;
use crate::sorting::{
    lemma_text_irreflexive, lemma_text_total, lemma_text_transitive, sort_strings, str_less,
    text_less, texts_of, texts_sorted,
};
use crate::text::{
    ascii_upper_seq, eq_ignore_ascii_case, eq_ignore_case_seq, owned, str_chars, str_eq,
    string_from_chars, to_ascii_uppercase,
};
pub use crate::account_ddl::{parse_account_ddl, AccountDdl};

verus! {

/// Privilege kind (MySQL subset), in the order in which lists name them.
#[derive(Debug, Clone, Copy, PartialEq, Eq, Hash, PartialOrd, Ord)]
pub enum Privilege {
    Select,
    Insert,
    Update,
    Delete,
    Create,
    Drop,
    Index,
    Alter,
}

/// Position of a privilege in the listing order.
pub open spec fn priv_index(p: Privilege) -> int {
    match p {
        Privilege::Select => 0,
        Privilege::Insert => 1,
        Privilege::Update => 2,
        Privilege::Delete => 3,
        Privilege::Create => 4,
        Privilege::Drop => 5,
        Privilege::Index => 6,
        Privilege::Alter => 7,
    }
}

/// The privilege at a position of the listing order.
pub open spec fn priv_at(i: int) -> Privilege {
    if i == 0 {
        Privilege::Select
    } else if i == 1 {
        Privilege::Insert
    } else if i == 2 {
        Privilege::Update
    } else if i == 3 {
        Privilege::Delete
    } else if i == 4 {
        Privilege::Create
    } else if i == 5 {
        Privilege::Drop
    } else if i == 6 {
        Privilege::Index
    } else {
        Privilege::Alter
    }
}

/// The SQL name of a privilege.
pub open spec fn priv_name(p: Privilege) -> Seq<char> {
    match p {
        Privilege::Select => "SELECT"@,
        Privilege::Insert => "INSERT"@,
        Privilege::Update => "UPDATE"@,
        Privilege::Delete => "DELETE"@,
        Privilege::Create => "CREATE"@,
        Privilege::Drop => "DROP"@,
        Privilege::Index => "INDEX"@,
        Privilege::Alter => "ALTER"@,
    }
}

/// The privilege an upper-case name stands for.
pub open spec fn priv_of_name(upper: Seq<char>) -> Option<Privilege> {
    if upper == "SELECT"@ {
        Some(Privilege::Select)
    } else if upper == "INSERT"@ {
        Some(Privilege::Insert)
    } else if upper == "UPDATE"@ {
        Some(Privilege::Update)
    } else if upper == "DELETE"@ {
        Some(Privilege::Delete)
    } else if upper == "CREATE"@ {
        Some(Privilege::Create)
    } else if upper == "DROP"@ {
        Some(Privilege::Drop)
    } else if upper == "INDEX"@ {
        Some(Privilege::Index)
    } else if upper == "ALTER"@ {
        Some(Privilege::Alter)
    } else {
        None
    }
}

impl Privilege {
    /// The SQL name.
    pub fn as_str(self) -> (r: &'static str)
        ensures
            r@ == priv_name(self),
    {
        match self {
            Privilege::Select => "SELECT",
            Privilege::Insert => "INSERT",
            Privilege::Update => "UPDATE",
            Privilege::Delete => "DELETE",
            Privilege::Create => "CREATE",
            Privilege::Drop => "DROP",
            Privilege::Index => "INDEX",
            Privilege::Alter => "ALTER",
        }
    }

    /// The privilege named `name`, in any ASCII case.
    pub fn parse_name(name: &str) -> (r: Option<Self>)
        ensures
            r == priv_of_name(ascii_upper_seq(name@)),
    {
        let upper = to_ascii_uppercase(name);
        let u = upper.as_str();
        if str_eq(u, "SELECT") {
            Some(Privilege::Select)
        } else if str_eq(u, "INSERT") {
            Some(Privilege::Insert)
        } else if str_eq(u, "UPDATE") {
            Some(Privilege::Update)
        } else if str_eq(u, "DELETE") {
            Some(Privilege::Delete)
        } else if str_eq(u, "CREATE") {
            Some(Privilege::Create)
        } else if str_eq(u, "DROP") {
            Some(Privilege::Drop)
        } else if str_eq(u, "INDEX") {
            Some(Privilege::Index)
        } else if str_eq(u, "ALTER") {
            Some(Privilege::Alter)
        } else {
            None
        }
    }

    fn index(self) -> (r: usize)
        ensures
            r == priv_index(self),
    {
        match self {
            Privilege::Select => 0,
            Privilege::Insert => 1,
            Privilege::Update => 2,
            Privilege::Delete => 3,
            Privilege::Create => 4,
            Privilege::Drop => 5,
            Privilege::Index => 6,
            Privilege::Alter => 7,
        }
    }

    fn at(i: usize) -> (r: Privilege)
        requires
            i < 8,
        ensures
            r == priv_at(i as int),
            priv_index(r) == i,
    {
        if i == 0 {
            Privilege::Select
        } else if i == 1 {
            Privilege::Insert
        } else if i == 2 {
            Privilege::Update
        } else if i == 3 {
            Privilege::Delete
        } else if i == 4 {
            Privilege::Create
        } else if i == 5 {
            Privilege::Drop
        } else if i == 6 {
            Privilege::Index
        } else {
            Privilege::Alter
        }
    }
}

proof fn lemma_priv_index(p: Privilege)
    ensures
        0 <= priv_index(p) < 8,
        priv_at(priv_index(p)) == p,
{
}

/// A set of privileges.
#[derive(Debug, Clone, Copy, PartialEq, Eq)]
pub struct PrivilegeSet {
    flags: [bool; 8],
}

impl View for PrivilegeSet {
    type V = Set<Privilege>;

    closed spec fn view(&self) -> Set<Privilege> {
        Set::new(|p: Privilege| self.flags@[priv_index(p)])
    }
}

impl PrivilegeSet {
    /// Whether the privilege at position `i` is in the set.
    pub closed spec fn has_at(&self, i: int) -> bool {
        self.flags@[i]
    }

    proof fn lemma_view(&self, p: Privilege)
        ensures
            self@.contains(p) == self.has_at(priv_index(p)),
    {
    }

    /// The empty set.
    pub fn new() -> (r: Self)
        ensures
            r@ == Set::<Privilege>::empty(),
    {
        let r = PrivilegeSet { flags: [false; 8] };
        proof {
            assert(r@ =~= Set::<Privilege>::empty());
        }
        r
    }

    /// The set of the listed privileges.
    pub fn from_slice(privileges: &[Privilege]) -> (r: Self)
        ensures
            r@ == privileges@.to_set(),
    {
        let mut r = PrivilegeSet::new();
        let mut i: usize = 0;
        while i < privileges.len()
            invariant
                i <= privileges@.len(),
                forall|p: Privilege| #[trigger] r@.contains(p) == privileges@.take(i as int).contains(p),
            decreases privileges@.len() - i,
        {
            r.insert(privileges[i]);
            proof {
                assert(privileges@.take(i + 1) =~= privileges@.take(i as int).push(privileges@[i as int]));
                assert forall|p: Privilege| #[trigger] r@.contains(p) == privileges@.take(i + 1).contains(p) by {
                    if privileges@.take(i + 1).contains(p) {
                        let j = choose|j: int| 0 <= j < i + 1 && #[trigger] privileges@.take(i + 1)[j] == p;
                        if j < i {
                            assert(privileges@.take(i as int)[j] == p);
                        }
                    }
                    if privileges@.take(i as int).contains(p) {
                        let j = choose|j: int| 0 <= j < i && #[trigger] privileges@.take(i as int)[j] == p;
                        assert(privileges@.take(i + 1)[j] == p);
                    }
                    if p == privileges@[i as int] {
                        assert(privileges@.take(i + 1)[i as int] == p);
                    }
                }
            }
            i = i + 1;
        }
        proof {
            assert(privileges@.take(i as int) =~= privileges@);
            assert(r@ =~= privileges@.to_set());
        }
        r
    }

    /// Adds a privilege.
    pub fn insert(&mut self, p: Privilege)
        ensures
            final(self)@ == old(self)@.insert(p),
    {
        let i = p.index();
        self.flags[i] = true;
        proof {
            assert(final(self)@ =~= old(self)@.insert(p));
        }
    }

    /// Whether `p` is in the set.
    pub fn contains(&self, p: Privilege) -> (r: bool)
        ensures
            r == self@.contains(p),
    {
        self.flags[p.index()]
    }

    /// Whether the set is empty.
    pub fn is_empty(&self) -> (r: bool)
        ensures
            r == (self@ == Set::<Privilege>::empty()),
    {
        let mut i: usize = 0;
        while i < 8
            invariant
                i <= 8,
                forall|j: int| 0 <= j < i ==> !self.flags@[j],
            decreases 8 - i,
        {
            if self.flags[i] {
                proof {
                    lemma_priv_index(priv_at(i as int));
                    assert(self@.contains(priv_at(i as int)));
                }
                return false;
            }
            i = i + 1;
        }
        proof {
            assert forall|p: Privilege| !self@.contains(p) by {
                lemma_priv_index(p);
            }
            assert(self@ =~= Set::<Privilege>::empty());
        }
        true
    }

    /// Adds every privilege of `other`.
    pub fn union_with(&mut self, other: &PrivilegeSet)
        ensures
            final(self)@ == old(self)@.union(other@),
    {
        let orig = self.flags;
        let mut f = self.flags;
        let mut i: usize = 0;
        while i < 8
            invariant
                i <= 8,
                forall|j: int| 0 <= j < i ==> f@[j] == (orig@[j] || other.flags@[j]),
                forall|j: int| i <= j < 8 ==> f@[j] == orig@[j],
            decreases 8 - i,
        {
            if other.flags[i] {
                f[i] = true;
            }
            i = i + 1;
        }
        self.flags = f;
        proof {
            assert forall|p: Privilege| final(self)@.contains(p) == old(self)@.union(other@).contains(p) by {
                lemma_priv_index(p);
            }
            assert(final(self)@ =~= old(self)@.union(other@));
        }
    }

    /// Removes every privilege of `other`.
    pub fn remove_all(&mut self, other: &PrivilegeSet)
        ensures
            final(self)@ == old(self)@.difference(other@),
    {
        let orig = self.flags;
        let mut f = self.flags;
        let mut i: usize = 0;
        while i < 8
            invariant
                i <= 8,
                forall|j: int| 0 <= j < i ==> f@[j] == (orig@[j] && !other.flags@[j]),
                forall|j: int| i <= j < 8 ==> f@[j] == orig@[j],
            decreases 8 - i,
        {
            if other.flags[i] {
                f[i] = false;
            }
            i = i + 1;
        }
        self.flags = f;
        proof {
            assert forall|p: Privilege| final(self)@.contains(p) == old(self)@.difference(other@).contains(p) by {
                lemma_priv_index(p);
            }
            assert(final(self)@ =~= old(self)@.difference(other@));
        }
    }

    /// The names of the privileges in the set, in listing order.
    pub fn names(&self) -> (r: Vec<&'static str>)
        ensures
            r@.len() == set_names(self@).len(),
            forall|i: int| 0 <= i < r@.len() ==> (#[trigger] r@[i])@ == set_names(self@)[i],
    {
        let mut out: Vec<&'static str> = Vec::new();
        let mut i: usize = 0;
        while i < 8
            invariant
                i <= 8,
                out@.len() == names_upto(self@, i as int).len(),
                forall|j: int| 0 <= j < out@.len() ==> (#[trigger] out@[j])@ == names_upto(self@, i as int)[j],
            decreases 8 - i,
        {
            let p = Privilege::at(i);
            proof {
                self.lemma_view(p);
            }
            if self.flags[i] {
                out.push(p.as_str());
            }
            i = i + 1;
        }
        out
    }
}

/// Names of the privileges of `s` among the first `n` positions, in order.
pub open spec fn names_upto(s: Set<Privilege>, n: int) -> Seq<Seq<char>>
    decreases n,
{
    if n <= 0 {
        Seq::empty()
    } else {
        names_upto(s, n - 1) + if s.contains(priv_at(n - 1)) {
            seq![priv_name(priv_at(n - 1))]
        } else {
            Seq::empty()
        }
    }
}

/// Names of the privileges of `s`, in listing order.
pub open spec fn set_names(s: Set<Privilege>) -> Seq<Seq<char>> {
    names_upto(s, 8)
}

/// Texts joined with a separator.
pub open spec fn join(parts: Seq<Seq<char>>, sep: Seq<char>) -> Seq<char>
    decreases parts.len(),
{
    if parts.len() == 0 {
        Seq::empty()
    } else if parts.len() == 1 {
        parts[0]
    } else {
        join(parts.drop_last(), sep) + sep + parts.last()
    }
}

/// Joins the names with a separator.
pub fn join_names(names: &Vec<&'static str>, sep: &str) -> (r: Vec<char>)
    ensures
        r@ == join(Seq::new(names@.len(), |i: int| names@[i]@), sep@),
{
    let ghost parts = Seq::new(names@.len(), |i: int| names@[i]@);
    let sepc = str_chars(sep);
    let mut out: Vec<char> = Vec::new();
    let mut i: usize = 0;
    proof {
        assert(parts.take(0) =~= Seq::<Seq<char>>::empty());
    }
    while i < names.len()
        invariant
            i <= names@.len(),
            parts == Seq::new(names@.len(), |i: int| names@[i]@),
            sepc@ == sep@,
            out@ == join(parts.take(i as int), sep@),
        decreases names@.len() - i,
    {
        let ghost before = out@;
        if i > 0 {
            append_chars(&mut out, &sepc);
        }
        let part = str_chars(names[i]);
        append_chars(&mut out, &part);
        proof {
            assert(parts.take(i + 1).drop_last() =~= parts.take(i as int));
            if i == 0 {
                assert(out@ =~= join(parts.take(1), sep@));
            } else {
                assert(out@ =~= join(parts.take(i + 1), sep@));
            }
        }
        i = i + 1;
    }
    proof {
        assert(parts.take(i as int) =~= parts);
    }
    out
}

fn append_chars(out: &mut Vec<char>, more: &Vec<char>)
    ensures
        final(out)@ == old(out)@ + more@,
{
    let mut i: usize = 0;
    while i < more.len()
        invariant
            i <= more@.len(),
            out@ == old(out)@ + more@.take(i as int),
        decreases more@.len() - i,
    {
        out.push(more[i]);
        i = i + 1;
        proof {
            assert(out@ =~= old(out)@ + more@.take(i as int));
        }
    }
    proof {
        assert(more@.take(i as int) =~= more@);
    }
}

fn append_str(out: &mut Vec<char>, s: &str)
    ensures
        final(out)@ == old(out)@ + s@,
{
    let c = str_chars(s);
    append_chars(out, &c);
}

/// Target of a grant: `schema.*` (no table) or `schema.table`.
#[derive(Debug, Clone, PartialEq, Eq, Hash)]
pub struct GrantTarget {
    pub schema: String,
    /// `None` means every table of the schema.
    pub table: Option<String>,
}

/// The text of an optional string.
pub open spec fn opt_text(s: Option<String>) -> Option<Seq<char>> {
    match s {
        Some(t) => Some(t@),
        None => None,
    }
}

impl View for GrantTarget {
    type V = (Seq<char>, Option<Seq<char>>);

    open spec fn view(&self) -> (Seq<char>, Option<Seq<char>>) {
        (self.schema@, opt_text(self.table))
    }
}

fn opt_str_eq(a: &Option<String>, b: &Option<String>) -> (r: bool)
    ensures
        r == (opt_text(*a) == opt_text(*b)),
{
    match (a, b) {
        (Some(x), Some(y)) => str_eq(x.as_str(), y.as_str()),
        (None, None) => true,
        _ => false,
    }
}

fn target_eq(a: &GrantTarget, b: &GrantTarget) -> (r: bool)
    ensures
        r == (a@ == b@),
{
    str_eq(a.schema.as_str(), b.schema.as_str()) && opt_str_eq(&a.table, &b.table)
}

fn clone_target(t: &GrantTarget) -> (r: GrantTarget)
    ensures
        r@ == t@,
{
    GrantTarget {
        schema: owned(t.schema.as_str()),
        table: match &t.table {
            Some(x) => Some(owned(x.as_str())),
            None => None,
        },
    }
}

/// One grant: the account, the target and the privileges granted on it.
#[derive(Debug, Clone, PartialEq, Eq)]
pub struct GrantRecord {
    pub user: String,
    pub host: String,
    pub target: GrantTarget,
    pub privileges: PrivilegeSet,
}

/// A grant as plain values: user, host, target, privileges.
pub type GrantView = (Seq<char>, Seq<char>, (Seq<char>, Option<Seq<char>>), Set<Privilege>);

impl View for GrantRecord {
    type V = GrantView;

    open spec fn view(&self) -> GrantView {
        (self.user@, self.host@, self.target@, self.privileges@)
    }
}

/// Account key (`user`@`host`).
#[derive(Debug, Clone, PartialEq, Eq, Hash)]
pub struct Account {
    pub user: String,
    pub host: String,
}

/// `'user'@'host'`.
pub open spec fn account_display(user: Seq<char>, host: Seq<char>) -> Seq<char> {
    "'"@ + user + "'@'"@ + host + "'"@
}

impl Account {
    /// An account of `user` at `host`.
    pub fn new(user: &str, host: &str) -> (r: Self)
        ensures
            r.user@ == user@,
            r.host@ == host@,
    {
        Account { user: owned(user), host: owned(host) }
    }

    /// `'user'@'host'`.
    pub fn display(&self) -> (r: String)
        ensures
            r@ == account_display(self.user@, self.host@),
    {
        let mut out: Vec<char> = Vec::new();
        append_str(&mut out, "'");
        append_str(&mut out, self.user.as_str());
        append_str(&mut out, "'@'");
        append_str(&mut out, self.host.as_str());
        append_str(&mut out, "'");
        string_from_chars(out.as_slice())
    }
}

pub const AUTH_PLUGIN_CACHING_SHA2: &'static str = "caching_sha2_password";

pub const AUTH_PLUGIN_NATIVE: &'static str = "mysql_native_password";

/// A login account: `user`@`host`, its auth plugin and password.
#[derive(Debug, Clone, PartialEq, Eq)]
pub struct UserAccountRecord {
    pub user: String,
    pub host: String,
    pub auth_plugin: String,
    pub password: String,
}

/// A login account as plain values: user, host, plugin, password.
pub type AccountView = (Seq<char>, Seq<char>, Seq<char>, Seq<char>);

impl View for UserAccountRecord {
    type V = AccountView;

    open spec fn view(&self) -> AccountView {
        (self.user@, self.host@, self.auth_plugin@, self.password@)
    }
}

fn clone_account_record(a: &UserAccountRecord) -> (r: UserAccountRecord)
    ensures
        r@ == a@,
{
    UserAccountRecord {
        user: owned(a.user.as_str()),
        host: owned(a.host.as_str()),
        auth_plugin: owned(a.auth_plugin.as_str()),
        password: owned(a.password.as_str()),
    }
}


/// In-memory privilege catalog: grants and login accounts.
#[derive(Debug, Clone)]
pub struct PrivilegeStore {
    grants: Vec<GrantRecord>,
    accounts: Vec<UserAccountRecord>,
}

/// The grants as plain values.
pub open spec fn grants_view(v: Seq<GrantRecord>) -> Seq<GrantView> {
    Seq::new(v.len(), |i: int| v[i]@)
}

/// The login accounts as plain values.
pub open spec fn accounts_view(v: Seq<UserAccountRecord>) -> Seq<AccountView> {
    Seq::new(v.len(), |i: int| v[i]@)
}

impl View for PrivilegeStore {
    type V = (Seq<GrantView>, Seq<AccountView>);

    closed spec fn view(&self) -> (Seq<GrantView>, Seq<AccountView>) {
        (grants_view(self.grants@), accounts_view(self.accounts@))
    }
}

/// `root`, in any ASCII case, has every privilege.
pub open spec fn is_superuser_spec(user: Seq<char>) -> bool {
    eq_ignore_case_seq(user, "root"@)
}

/// Whether a grant gives `required` on `schema` / `table` to `user`@`host`: same account,
/// the privilege in its set, the schema equal or `*`, and the whole schema or the same table.
pub open spec fn grant_allows(
    g: GrantView,
    user: Seq<char>,
    host: Seq<char>,
    schema: Seq<char>,
    table: Option<Seq<char>>,
    required: Privilege,
) -> bool {
    &&& g.0 == user
    &&& g.1 == host
    &&& g.3.contains(required)
    &&& (g.2.0 == schema || g.2.0 == "*"@)
    &&& match (g.2.1, table) {
        (None, _) => true,
        (Some(t), Some(u)) => t == u,
        (Some(_), None) => false,
    }
}

/// Whether `user`@`host` holds `required` on `schema` / `table`.
pub open spec fn has_privilege_spec(
    grants: Seq<GrantView>,
    user: Seq<char>,
    host: Seq<char>,
    schema: Seq<char>,
    table: Option<Seq<char>>,
    required: Privilege,
) -> bool {
    is_superuser_spec(user) || exists|i: int|
        0 <= i < grants.len() && grant_allows(#[trigger] grants[i], user, host, schema, table, required)
}

/// Index of the first grant of `user`@`host` on exactly `target`.
pub open spec fn find_grant(
    grants: Seq<GrantView>,
    user: Seq<char>,
    host: Seq<char>,
    target: (Seq<char>, Option<Seq<char>>),
    from: int,
) -> Option<int>
    decreases grants.len() - from,
{
    if from < 0 || from >= grants.len() {
        None
    } else if grants[from].0 == user && grants[from].1 == host && grants[from].2 == target {
        Some(from)
    } else {
        find_grant(grants, user, host, target, from + 1)
    }
}

/// `GRANT`: nothing for an empty set; else the privileges join the account's grant on the
/// target, or a new grant is added at the end.
pub open spec fn grant_spec(
    grants: Seq<GrantView>,
    user: Seq<char>,
    host: Seq<char>,
    target: (Seq<char>, Option<Seq<char>>),
    privs: Set<Privilege>,
) -> Seq<GrantView> {
    if privs == Set::<Privilege>::empty() {
        grants
    } else {
        match find_grant(grants, user, host, target, 0) {
            Some(i) => grants.update(i, (grants[i].0, grants[i].1, grants[i].2, grants[i].3.union(privs))),
            None => grants.push((user, host, target, privs)),
        }
    }
}

/// `REVOKE` over a list of grants: the privileges leave each grant of the account on the
/// target, and a grant left with none is dropped.
pub open spec fn revoke_each(
    grants: Seq<GrantView>,
    user: Seq<char>,
    host: Seq<char>,
    target: (Seq<char>, Option<Seq<char>>),
    privs: Set<Privilege>,
) -> Seq<GrantView>
    decreases grants.len(),
{
    if grants.len() == 0 {
        grants
    } else {
        let rest = revoke_each(grants.drop_last(), user, host, target, privs);
        let g = grants.last();
        if !(g.0 == user && g.1 == host && g.2 == target) {
            rest.push(g)
        } else if g.3.difference(privs) == Set::<Privilege>::empty() {
            rest
        } else {
            rest.push((g.0, g.1, g.2, g.3.difference(privs)))
        }
    }
}

/// `REVOKE`: nothing for an empty set.
pub open spec fn revoke_spec(
    grants: Seq<GrantView>,
    user: Seq<char>,
    host: Seq<char>,
    target: (Seq<char>, Option<Seq<char>>),
    privs: Set<Privilege>,
) -> Seq<GrantView> {
    if privs == Set::<Privilege>::empty() {
        grants
    } else {
        revoke_each(grants, user, host, target, privs)
    }
}

/// Whether a login account is `user` (any ASCII case) at exactly `host`.
pub open spec fn account_is(a: AccountView, user: Seq<char>, host: Seq<char>) -> bool {
    eq_ignore_case_seq(a.0, user) && a.1 == host
}

/// Index of the first login account that is `user`@`host`.
pub open spec fn find_account(accts: Seq<AccountView>, user: Seq<char>, host: Seq<char>, from: int) -> Option<int>
    decreases accts.len() - from,
{
    if from < 0 || from >= accts.len() {
        None
    } else if account_is(accts[from], user, host) {
        Some(from)
    } else {
        find_account(accts, user, host, from + 1)
    }
}

/// Setting an account's password and plugin, adding the account when it is missing.
pub open spec fn ensure_account_spec(
    accts: Seq<AccountView>,
    user: Seq<char>,
    host: Seq<char>,
    password: Seq<char>,
    plugin: Seq<char>,
) -> Seq<AccountView> {
    match find_account(accts, user, host, 0) {
        Some(i) => accts.update(i, (accts[i].0, accts[i].1, plugin, password)),
        None => accts.push((user, host, plugin, password)),
    }
}

/// Whether an account host admits a client host: `%` admits any.
pub open spec fn host_matches(account_host: Seq<char>, client_host: Seq<char>) -> bool {
    account_host == "%"@ || account_host == client_host
}

/// How general an account host is: `1` for `%`, `0` for a specific host (which comes first).
fn host_specificity(host: &str) -> (r: u8)
    ensures
        r == (if host@ == "%"@ {
            1u8
        } else {
            0u8
        }),
{
    if str_eq(host, "%") {
        1
    } else {
        0
    }
}

/// Whether a login account may serve `username` connecting from `client_host`.
pub open spec fn auth_candidate(a: AccountView, username: Seq<char>, client_host: Seq<char>) -> bool {
    eq_ignore_case_seq(a.0, username) && host_matches(a.1, client_host)
}

/// Index of the first candidate at or after `from`, restricted to hosts other than `%`
/// when `exact` holds.
pub open spec fn find_candidate(
    accts: Seq<AccountView>,
    username: Seq<char>,
    client_host: Seq<char>,
    exact: bool,
    from: int,
) -> Option<int>
    decreases accts.len() - from,
{
    if from < 0 || from >= accts.len() {
        None
    } else if auth_candidate(accts[from], username, client_host) && (!exact || accts[from].1
        != "%"@) {
        Some(from)
    } else {
        find_candidate(accts, username, client_host, exact, from + 1)
    }
}

/// The account that authenticates `username` from `client_host`: the first candidate with a
/// specific host, else the first `%` candidate.
pub open spec fn resolve_spec(accts: Seq<AccountView>, username: Seq<char>, client_host: Seq<char>) -> Option<int> {
    match find_candidate(accts, username, client_host, true, 0) {
        Some(i) => Some(i),
        None => find_candidate(accts, username, client_host, false, 0),
    }
}

/// The login accounts other than `user`@`host`.
pub open spec fn accounts_without(accts: Seq<AccountView>, user: Seq<char>, host: Seq<char>) -> Seq<AccountView>
    decreases accts.len(),
{
    if accts.len() == 0 {
        accts
    } else if account_is(accts.last(), user, host) {
        accounts_without(accts.drop_last(), user, host)
    } else {
        accounts_without(accts.drop_last(), user, host).push(accts.last())
    }
}

/// The grants other than those of `user` (any ASCII case) at `host`.
pub open spec fn grants_without(grants: Seq<GrantView>, user: Seq<char>, host: Seq<char>) -> Seq<GrantView>
    decreases grants.len(),
{
    if grants.len() == 0 {
        grants
    } else if eq_ignore_case_seq(grants.last().0, user) && grants.last().1 == host {
        grants_without(grants.drop_last(), user, host)
    } else {
        grants_without(grants.drop_last(), user, host).push(grants.last())
    }
}

/// The error of a `CREATE USER` for an existing account.
pub open spec fn create_exists_message(user: Seq<char>, host: Seq<char>) -> Seq<char> {
    "Operation CREATE USER failed for "@ + account_display(user, host) + " as it already exists"@
}

/// The error of a `DROP USER` for a missing account.
pub open spec fn drop_missing_message(user: Seq<char>, host: Seq<char>) -> Seq<char> {
    "Operation DROP USER failed for "@ + account_display(user, host) + ". User does not exist"@
}

/// `` `schema`.* `` or `` `schema`.`table` ``.
pub open spec fn object_text(t: (Seq<char>, Option<Seq<char>>)) -> Seq<char> {
    match t.1 {
        None => "`"@ + t.0 + "`.*"@,
        Some(tb) => "`"@ + t.0 + "`.`"@ + tb + "`"@,
    }
}

/// The `SHOW GRANTS` line of a grant.
pub open spec fn grant_line(g: GrantView) -> Seq<char> {
    "GRANT "@ + join(set_names(g.3), ", "@) + " ON "@ + object_text(g.2) + " TO "@
        + account_display(g.0, g.1)
}

/// The lines of the grants of `user`@`host`, in grant order.
pub open spec fn grant_lines(grants: Seq<GrantView>, user: Seq<char>, host: Seq<char>) -> Seq<Seq<char>>
    decreases grants.len(),
{
    if grants.len() == 0 {
        Seq::empty()
    } else if grants.last().0 == user && grants.last().1 == host {
        grant_lines(grants.drop_last(), user, host).push(grant_line(grants.last()))
    } else {
        grant_lines(grants.drop_last(), user, host)
    }
}

/// The lines `SHOW GRANTS` lists (before sorting): the account's grant lines, or the
/// `USAGE` line when it has none.
pub open spec fn show_grants_lines(grants: Seq<GrantView>, user: Seq<char>, host: Seq<char>) -> Seq<Seq<char>> {
    if grant_lines(grants, user, host).len() == 0 {
        seq!["GRANT USAGE ON *.* TO "@ + account_display(user, host)]
    } else {
        grant_lines(grants, user, host)
    }
}

fn clone_str(s: &String) -> (r: String)
    ensures
        r@ == s@,
{
    owned(s.as_str())
}

fn account_matches(a: &UserAccountRecord, user: &str, host: &str) -> (r: bool)
    ensures
        r == account_is(a@, user@, host@),
{
    eq_ignore_ascii_case(a.user.as_str(), user) && str_eq(a.host.as_str(), host)
}

impl PrivilegeStore {
    /// An empty store.
    pub fn new() -> (r: Self)
        ensures
            r@ == (Seq::<GrantView>::empty(), Seq::<AccountView>::empty()),
    {
        let r = PrivilegeStore { grants: Vec::new(), accounts: Vec::new() };
        proof {
            assert(grants_view(r.grants@) =~= Seq::<GrantView>::empty());
            assert(accounts_view(r.accounts@) =~= Seq::<AccountView>::empty());
        }
        r
    }

    /// Whether `user` is the superuser `root` (any ASCII case).
    pub fn is_superuser(user: &str) -> (r: bool)
        ensures
            r == is_superuser_spec(user@),
    {
        eq_ignore_ascii_case(user, "root")
    }

    /// A store holding these grants and login accounts (as read back from storage).
    pub fn from_records(grants: Vec<GrantRecord>, accounts: Vec<UserAccountRecord>) -> (r: Self)
        ensures
            r@ == (grants_view(grants@), accounts_view(accounts@)),
    {
        PrivilegeStore { grants, accounts }
    }

    /// The grants and login accounts, in store order (for storage).
    pub fn records(&self) -> (r: (Vec<GrantRecord>, Vec<UserAccountRecord>))
        ensures
            (grants_view(r.0@), accounts_view(r.1@)) == self@,
    {
        let mut grants: Vec<GrantRecord> = Vec::new();
        let mut i: usize = 0;
        while i < self.grants.len()
            invariant
                i <= self.grants@.len(),
                grants_view(grants@) == grants_view(self.grants@).take(i as int),
            decreases self.grants@.len() - i,
        {
            let ghost before = grants_view(grants@);
            let g = clone_grant(&self.grants[i]);
            grants.push(g);
            proof {
                assert(grants_view(grants@) =~= before.push(self.grants@[i as int]@));
                assert(grants_view(self.grants@).take(i + 1) =~= grants_view(self.grants@).take(
                    i as int,
                ).push(self.grants@[i as int]@));
            }
            i = i + 1;
        }
        let mut accounts: Vec<UserAccountRecord> = Vec::new();
        let mut j: usize = 0;
        while j < self.accounts.len()
            invariant
                j <= self.accounts@.len(),
                accounts_view(accounts@) == accounts_view(self.accounts@).take(j as int),
            decreases self.accounts@.len() - j,
        {
            let ghost before = accounts_view(accounts@);
            let a = clone_account_record(&self.accounts[j]);
            accounts.push(a);
            proof {
                assert(accounts_view(accounts@) =~= before.push(self.accounts@[j as int]@));
                assert(accounts_view(self.accounts@).take(j + 1) =~= accounts_view(self.accounts@).take(
                    j as int,
                ).push(self.accounts@[j as int]@));
            }
            j = j + 1;
        }
        proof {
            assert(grants_view(self.grants@).take(i as int) =~= grants_view(self.grants@));
            assert(accounts_view(self.accounts@).take(j as int) =~= accounts_view(self.accounts@));
        }
        (grants, accounts)
    }

    /// The login account that is `user` (any ASCII case) at exactly `host`.
    pub fn get_account(&self, user: &str, host: &str) -> (r: Option<&UserAccountRecord>)
        ensures
            match find_account(self@.1, user@, host@, 0) {
                Some(k) => r matches Some(a) && a@ == self@.1[k],
                None => r is None,
            },
    {
        match self.find_account_index(user, host) {
            Some(k) => {
                proof {
                    assert(self@.1[k as int] == self.accounts@[k as int]@);
                }
                Some(&self.accounts[k])
            },
            None => None,
        }
    }

    /// Whether any login account exists.
    pub fn has_accounts(&self) -> (r: bool)
        ensures
            r == (self@.1.len() > 0),
    {
        self.accounts.len() > 0
    }

    fn find_account_index(&self, user: &str, host: &str) -> (r: Option<usize>)
        ensures
            r matches Some(k) ==> find_account(self@.1, user@, host@, 0) == Some(k as int) && k < self@.1.len(),
            r is None ==> find_account(self@.1, user@, host@, 0) is None,
    {
        let mut i: usize = 0;
        while i < self.accounts.len()
            invariant
                i <= self.accounts@.len(),
                self@.1 == accounts_view(self.accounts@),
                find_account(self@.1, user@, host@, 0) == find_account(self@.1, user@, host@, i as int),
            decreases self.accounts@.len() - i,
        {
            if account_matches(&self.accounts[i], user, host) {
                return Some(i);
            }
            i = i + 1;
        }
        None
    }

    /// Sets the password and plugin of `account` (user compared in any ASCII case), adding
    /// the account when it is missing.
    pub fn ensure_account(&mut self, account: &Account, password: &str, auth_plugin: &str)
        ensures
            final(self)@.0 == old(self)@.0,
            final(self)@.1 == ensure_account_spec(
                old(self)@.1,
                account.user@,
                account.host@,
                password@,
                auth_plugin@,
            ),
    {
        match self.find_account_index(account.user.as_str(), account.host.as_str()) {
            Some(i) => {
                let ghost before = accounts_view(self.accounts@);
                let rec = UserAccountRecord {
                    user: clone_str(&self.accounts[i].user),
                    host: clone_str(&self.accounts[i].host),
                    auth_plugin: owned(auth_plugin),
                    password: owned(password),
                };
                self.accounts.set(i, rec);
                proof {
                    assert(accounts_view(self.accounts@) =~= before.update(
                        i as int,
                        (before[i as int].0, before[i as int].1, auth_plugin@, password@),
                    ));
                }
            },
            None => {
                let ghost before = accounts_view(self.accounts@);
                self.accounts.push(
                    UserAccountRecord {
                        user: clone_str(&account.user),
                        host: clone_str(&account.host),
                        auth_plugin: owned(auth_plugin),
                        password: owned(password),
                    },
                );
                proof {
                    assert(accounts_view(self.accounts@) =~= before.push(
                        (account.user@, account.host@, auth_plugin@, password@),
                    ));
                }
            },
        }
    }

    fn find_candidate_index(&self, username: &str, client_host: &str, exact: bool) -> (r: Option<usize>)
        ensures
            r matches Some(k) ==> find_candidate(self@.1, username@, client_host@, exact, 0) == Some(k as int) && k < self@.1.len(),
            r is None ==> find_candidate(self@.1, username@, client_host@, exact, 0) is None,
    {
        let mut i: usize = 0;
        while i < self.accounts.len()
            invariant
                i <= self.accounts@.len(),
                self@.1 == accounts_view(self.accounts@),
                find_candidate(self@.1, username@, client_host@, exact, 0) == find_candidate(
                    self@.1,
                    username@,
                    client_host@,
                    exact,
                    i as int,
                ),
            decreases self.accounts@.len() - i,
        {
            let a = &self.accounts[i];
            let pct = host_specificity(a.host.as_str()) == 1;
            let candidate = eq_ignore_ascii_case(a.user.as_str(), username) && (pct || str_eq(
                a.host.as_str(),
                client_host,
            ));
            if candidate && (!exact || !pct) {
                return Some(i);
            }
            i = i + 1;
        }
        None
    }

    fn find_auth_account(&self, username: &str, client_host: &str) -> (r: Option<usize>)
        ensures
            r matches Some(k) ==> resolve_spec(self@.1, username@, client_host@) == Some(k as int) && k < self@.1.len(),
            r is None ==> resolve_spec(self@.1, username@, client_host@) is None,
    {
        match self.find_candidate_index(username, client_host, true) {
            Some(i) => Some(i),
            None => self.find_candidate_index(username, client_host, false),
        }
    }

    /// The login account that authenticates `username` connecting from `client_host`: a
    /// specific host before `%`, the first of each in store order.
    pub fn resolve_auth(&self, username: &str, client_host: &str) -> (r: Option<UserAccountRecord>)
        ensures
            match resolve_spec(self@.1, username@, client_host@) {
                Some(i) => r matches Some(a) && a@ == self@.1[i],
                None => r is None,
            },
    {
        match self.find_auth_account(username, client_host) {
            Some(i) => Some(clone_account_record(&self.accounts[i])),
            None => None,
        }
    }

    /// `CREATE USER`: an error for an account that already authenticates (unless
    /// `IF NOT EXISTS`), else the account is added.
    pub fn create_user(
        &mut self,
        account: &Account,
        password: &str,
        auth_plugin: &str,
        if_not_exists: bool,
    ) -> (r: Result<(), String>)
        ensures
            final(self)@.0 == old(self)@.0,
            resolve_spec(old(self)@.1, account.user@, account.host@) is Some ==> {
                &&& final(self)@ == old(self)@
                &&& if if_not_exists {
                    r is Ok
                } else {
                    r matches Err(m) && m@ == create_exists_message(account.user@, account.host@)
                }
            },
            resolve_spec(old(self)@.1, account.user@, account.host@) is None ==> {
                &&& r is Ok
                &&& final(self)@.1 == ensure_account_spec(
                    old(self)@.1,
                    account.user@,
                    account.host@,
                    password@,
                    auth_plugin@,
                )
            },
    {
        if self.find_auth_account(account.user.as_str(), account.host.as_str()).is_some() {
            if if_not_exists {
                return Ok(());
            }
            let mut msg: Vec<char> = Vec::new();
            append_str(&mut msg, "Operation CREATE USER failed for ");
            let d = account.display();
            append_str(&mut msg, d.as_str());
            append_str(&mut msg, " as it already exists");
            return Err(string_from_chars(msg.as_slice()));
        }
        self.ensure_account(account, password, auth_plugin);
        Ok(())
    }

    /// `DROP USER`: the account and its grants go; an error when no such account existed
    /// (unless `IF EXISTS`). The grants of the user at that host go either way.
    pub fn drop_user(&mut self, account: &Account, if_exists: bool) -> (r: Result<(), String>)
        ensures
            final(self)@.1 == accounts_without(old(self)@.1, account.user@, account.host@),
            final(self)@.0 == grants_without(old(self)@.0, account.user@, account.host@),
            final(self)@.1.len() == old(self)@.1.len() ==> if if_exists {
                r is Ok
            } else {
                r matches Err(m) && m@ == drop_missing_message(account.user@, account.host@)
            },
            final(self)@.1.len() != old(self)@.1.len() ==> r is Ok,
    {
        let before = self.accounts.len();
        let ghost av = accounts_view(self.accounts@);
        let ghost gv = grants_view(self.grants@);
        let mut kept: Vec<UserAccountRecord> = Vec::new();
        let mut i: usize = 0;
        proof {
            assert(av.take(0) =~= Seq::<AccountView>::empty());
            assert(accounts_view(kept@) =~= Seq::<AccountView>::empty());
        }
        while i < self.accounts.len()
            invariant
                i <= self.accounts@.len(),
                av == accounts_view(self.accounts@),
                accounts_view(kept@) == accounts_without(av.take(i as int), account.user@, account.host@),
            decreases self.accounts@.len() - i,
        {
            proof {
                assert(av.take(i + 1).drop_last() =~= av.take(i as int));
            }
            if !account_matches(&self.accounts[i], account.user.as_str(), account.host.as_str()) {
                let ghost k0 = accounts_view(kept@);
                kept.push(clone_account_record(&self.accounts[i]));
                proof {
                    assert(accounts_view(kept@) =~= k0.push(av[i as int]));
                }
            }
            i = i + 1;
        }
        proof {
            assert(av.take(i as int) =~= av);
        }
        self.accounts = kept;
        let mut kept_grants: Vec<GrantRecord> = Vec::new();
        let mut j: usize = 0;
        proof {
            assert(gv.take(0) =~= Seq::<GrantView>::empty());
            assert(grants_view(kept_grants@) =~= Seq::<GrantView>::empty());
        }
        while j < self.grants.len()
            invariant
                j <= self.grants@.len(),
                gv == grants_view(self.grants@),
                grants_view(kept_grants@) == grants_without(gv.take(j as int), account.user@, account.host@),
            decreases self.grants@.len() - j,
        {
            proof {
                assert(gv.take(j + 1).drop_last() =~= gv.take(j as int));
            }
            let g = &self.grants[j];
            if !(eq_ignore_ascii_case(g.user.as_str(), account.user.as_str()) && str_eq(
                g.host.as_str(),
                account.host.as_str(),
            )) {
                let ghost k0 = grants_view(kept_grants@);
                kept_grants.push(clone_grant(g));
                proof {
                    assert(grants_view(kept_grants@) =~= k0.push(gv[j as int]));
                }
            }
            j = j + 1;
        }
        proof {
            assert(gv.take(j as int) =~= gv);
        }
        self.grants = kept_grants;
        if self.accounts.len() == before {
            if if_exists {
                return Ok(());
            }
            let mut msg: Vec<char> = Vec::new();
            append_str(&mut msg, "Operation DROP USER failed for ");
            let d = account.display();
            append_str(&mut msg, d.as_str());
            append_str(&mut msg, ". User does not exist");
            return Err(string_from_chars(msg.as_slice()));
        }
        Ok(())
    }

    fn find_grant_index(&self, account: &Account, target: &GrantTarget) -> (r: Option<usize>)
        ensures
            r matches Some(k) ==> find_grant(self@.0, account.user@, account.host@, target@, 0) == Some(k as int) && k < self@.0.len(),
            r is None ==> find_grant(self@.0, account.user@, account.host@, target@, 0) is None,
    {
        let mut i: usize = 0;
        while i < self.grants.len()
            invariant
                i <= self.grants@.len(),
                self@.0 == grants_view(self.grants@),
                find_grant(self@.0, account.user@, account.host@, target@, 0) == find_grant(
                    self@.0,
                    account.user@,
                    account.host@,
                    target@,
                    i as int,
                ),
            decreases self.grants@.len() - i,
        {
            let g = &self.grants[i];
            if str_eq(g.user.as_str(), account.user.as_str()) && str_eq(
                g.host.as_str(),
                account.host.as_str(),
            ) && target_eq(&g.target, target) {
                return Some(i);
            }
            i = i + 1;
        }
        None
    }

    /// `GRANT privileges ON target TO account`.
    pub fn grant(&mut self, account: &Account, target: GrantTarget, privileges: PrivilegeSet)
        ensures
            final(self)@.1 == old(self)@.1,
            final(self)@.0 == grant_spec(
                old(self)@.0,
                account.user@,
                account.host@,
                target@,
                privileges@,
            ),
    {
        if privileges.is_empty() {
            return;
        }
        let ghost gv = grants_view(self.grants@);
        match self.find_grant_index(account, &target) {
            Some(i) => {
                let old_rec = &self.grants[i];
                let mut privs = old_rec.privileges;
                privs.union_with(&privileges);
                let rec = GrantRecord {
                    user: clone_str(&old_rec.user),
                    host: clone_str(&old_rec.host),
                    target: clone_target(&old_rec.target),
                    privileges: privs,
                };
                self.grants.set(i, rec);
                proof {
                    assert(grants_view(self.grants@) =~= gv.update(
                        i as int,
                        (gv[i as int].0, gv[i as int].1, gv[i as int].2, gv[i as int].3.union(privileges@)),
                    ));
                }
            },
            None => {
                self.grants.push(
                    GrantRecord {
                        user: clone_str(&account.user),
                        host: clone_str(&account.host),
                        target,
                        privileges,
                    },
                );
                proof {
                    assert(grants_view(self.grants@) =~= gv.push(
                        (account.user@, account.host@, target@, privileges@),
                    ));
                }
            },
        }
    }

    /// `REVOKE privileges ON target FROM account`.
    pub fn revoke(&mut self, account: &Account, target: GrantTarget, privileges: PrivilegeSet)
        ensures
            final(self)@.1 == old(self)@.1,
            final(self)@.0 == revoke_spec(
                old(self)@.0,
                account.user@,
                account.host@,
                target@,
                privileges@,
            ),
    {
        if privileges.is_empty() {
            return;
        }
        let ghost gv = grants_view(self.grants@);
        let mut kept: Vec<GrantRecord> = Vec::new();
        let mut i: usize = 0;
        proof {
            assert(gv.take(0) =~= Seq::<GrantView>::empty());
            assert(grants_view(kept@) =~= Seq::<GrantView>::empty());
        }
        while i < self.grants.len()
            invariant
                i <= self.grants@.len(),
                gv == grants_view(self.grants@),
                grants_view(kept@) == revoke_each(
                    gv.take(i as int),
                    account.user@,
                    account.host@,
                    target@,
                    privileges@,
                ),
            decreases self.grants@.len() - i,
        {
            proof {
                assert(gv.take(i + 1).drop_last() =~= gv.take(i as int));
            }
            let g = &self.grants[i];
            let ghost k0 = grants_view(kept@);
            if !(str_eq(g.user.as_str(), account.user.as_str()) && str_eq(
                g.host.as_str(),
                account.host.as_str(),
            ) && target_eq(&g.target, &target)) {
                kept.push(clone_grant(g));
                proof {
                    assert(grants_view(kept@) =~= k0.push(gv[i as int]));
                }
            } else {
                let mut privs = g.privileges;
                privs.remove_all(&privileges);
                if !privs.is_empty() {
                    kept.push(
                        GrantRecord {
                            user: clone_str(&g.user),
                            host: clone_str(&g.host),
                            target: clone_target(&g.target),
                            privileges: privs,
                        },
                    );
                    proof {
                        assert(grants_view(kept@) =~= k0.push(
                            (gv[i as int].0, gv[i as int].1, gv[i as int].2, gv[i as int].3.difference(privileges@)),
                        ));
                    }
                }
            }
            i = i + 1;
        }
        proof {
            assert(gv.take(i as int) =~= gv);
        }
        self.grants = kept;
    }

    /// Whether `account` holds `required` on `schema` (and `table`, when given).
    pub fn has_privilege(
        &self,
        account: &Account,
        schema: &str,
        table: Option<&str>,
        required: Privilege,
    ) -> (r: bool)
        ensures
            r == has_privilege_spec(
                self@.0,
                account.user@,
                account.host@,
                schema@,
                match table {
                    Some(t) => Some(t@),
                    None => None,
                },
                required,
            ),
    {
        if Self::is_superuser(account.user.as_str()) {
            return true;
        }
        let ghost tv = match table {
            Some(t) => Some(t@),
            None => None,
        };
        let ghost gv = self@.0;
        let mut i: usize = 0;
        while i < self.grants.len()
            invariant
                i <= self.grants@.len(),
                gv == grants_view(self.grants@),
                tv == match table {
                    Some(t) => Some(t@),
                    None => None,
                },
                forall|j: int|
                    0 <= j < i ==> !grant_allows(
                        #[trigger] gv[j],
                        account.user@,
                        account.host@,
                        schema@,
                        tv,
                        required,
                    ),
            decreases self.grants@.len() - i,
        {
            let g = &self.grants[i];
            proof {
                assert(gv[i as int] == g@);
            }
            let table_ok = match &g.target.table {
                None => true,
                Some(gt) => {
                    proof {
                        assert(g@.2.1 == Some(gt@));
                    }
                    match table {
                        Some(t) => {
                            proof {
                                assert(tv == Some(t@));
                            }
                            str_eq(gt.as_str(), t)
                        },
                        None => false,
                    }
                },
            };
            proof {
                assert(table_ok == match (g@.2.1, tv) {
                    (None, _) => true,
                    (Some(a), Some(b)) => a == b,
                    (Some(_), None) => false,
                });
            }
            if str_eq(g.user.as_str(), account.user.as_str()) && str_eq(
                g.host.as_str(),
                account.host.as_str(),
            ) && g.privileges.contains(required) && (str_eq(g.target.schema.as_str(), schema)
                || str_eq(g.target.schema.as_str(), "*")) && table_ok {
                proof {
                    assert(grant_allows(gv[i as int], account.user@, account.host@, schema@, tv, required));
                }
                return true;
            }
            i = i + 1;
        }
        false
    }

    /// `SHOW GRANTS FOR account`: its grant lines (or the `USAGE` line), sorted.
    pub fn show_grants(&self, account: &Account) -> (r: Vec<String>)
        ensures
            texts_sorted(texts_of(r@)),
            texts_of(r@).to_multiset() == show_grants_lines(
                self@.0,
                account.user@,
                account.host@,
            ).to_multiset(),
    {
        let ghost gv = self@.0;
        let mut lines: Vec<String> = Vec::new();
        let mut i: usize = 0;
        proof {
            assert(gv.take(0) =~= Seq::<GrantView>::empty());
            assert(texts_of(lines@) =~= Seq::<Seq<char>>::empty());
        }
        while i < self.grants.len()
            invariant
                i <= self.grants@.len(),
                gv == grants_view(self.grants@),
                texts_of(lines@) == grant_lines(gv.take(i as int), account.user@, account.host@),
            decreases self.grants@.len() - i,
        {
            proof {
                assert(gv.take(i + 1).drop_last() =~= gv.take(i as int));
            }
            let g = &self.grants[i];
            if str_eq(g.user.as_str(), account.user.as_str()) && str_eq(
                g.host.as_str(),
                account.host.as_str(),
            ) {
                let ghost l0 = texts_of(lines@);
                let line = format_grant_line(g);
                lines.push(line);
                proof {
                    assert(texts_of(lines@) =~= l0.push(grant_line(gv[i as int])));
                }
            }
            i = i + 1;
        }
        proof {
            assert(gv.take(i as int) =~= gv);
        }
        if lines.len() == 0 {
            let mut usage: Vec<char> = Vec::new();
            append_str(&mut usage, "GRANT USAGE ON *.* TO ");
            let d = account.display();
            append_str(&mut usage, d.as_str());
            lines.push(string_from_chars(usage.as_slice()));
            proof {
                assert(texts_of(lines@) =~= show_grants_lines(gv, account.user@, account.host@));
            }
        }
        sort_strings(lines)
    }
}

fn clone_grant(g: &GrantRecord) -> (r: GrantRecord)
    ensures
        r@ == g@,
{
    GrantRecord {
        user: clone_str(&g.user),
        host: clone_str(&g.host),
        target: clone_target(&g.target),
        privileges: g.privileges,
    }
}

fn format_grant_line(g: &GrantRecord) -> (r: String)
    ensures
        r@ == grant_line(g@),
{
    let names = g.privileges.names();
    let joined = join_names(&names, ", ");
    proof {
        assert(Seq::new(names@.len(), |i: int| names@[i]@) =~= set_names(g.privileges@));
    }
    let mut out: Vec<char> = Vec::new();
    append_str(&mut out, "GRANT ");
    append_chars(&mut out, &joined);
    append_str(&mut out, " ON ");
    append_str(&mut out, "`");
    append_str(&mut out, g.target.schema.as_str());
    match &g.target.table {
        None => {
            append_str(&mut out, "`.*");
        },
        Some(t) => {
            append_str(&mut out, "`.`");
            append_str(&mut out, t.as_str());
            append_str(&mut out, "`");
        },
    }
    append_str(&mut out, " TO ");
    let a = Account::new(g.user.as_str(), g.host.as_str());
    let d = a.display();
    append_str(&mut out, d.as_str());
    proof {
        assert(out@ =~= grant_line(g@));
    }
    string_from_chars(out.as_slice())
}


proof fn lemma_find_grant_some(
    grants: Seq<GrantView>,
    user: Seq<char>,
    host: Seq<char>,
    target: (Seq<char>, Option<Seq<char>>),
    from: int,
)
    requires
        0 <= from,
    ensures
        find_grant(grants, user, host, target, from) matches Some(i) ==> from <= i < grants.len()
            && grants[i].0 == user && grants[i].1 == host && grants[i].2 == target,
        find_grant(grants, user, host, target, from) is None ==> forall|j: int|
            from <= j < grants.len() ==> !(grants[j].0 == user && grants[j].1 == host
                && grants[j].2 == target),
    decreases grants.len() - from,
{
    if from < grants.len() {
        lemma_find_grant_some(grants, user, host, target, from + 1);
    }
}

/// Granting a nonempty set gives the account every privilege of it on the target: on the
/// schema, and on the table when the target names one.
pub proof fn lemma_grant_gives(
    grants: Seq<GrantView>,
    user: Seq<char>,
    host: Seq<char>,
    target: (Seq<char>, Option<Seq<char>>),
    privs: Set<Privilege>,
    p: Privilege,
)
    requires
        privs.contains(p),
    ensures
        has_privilege_spec(grant_spec(grants, user, host, target, privs), user, host, target.0, target.1, p),
{
    let g2 = grant_spec(grants, user, host, target, privs);
    lemma_find_grant_some(grants, user, host, target, 0);
    match find_grant(grants, user, host, target, 0) {
        Some(i) => {
            assert(grant_allows(g2[i], user, host, target.0, target.1, p));
        },
        None => {
            assert(grant_allows(g2[grants.len() as int], user, host, target.0, target.1, p));
        },
    }
}

/// Granting never takes a privilege away.
pub proof fn lemma_grant_monotone(
    grants: Seq<GrantView>,
    user: Seq<char>,
    host: Seq<char>,
    target: (Seq<char>, Option<Seq<char>>),
    privs: Set<Privilege>,
    user2: Seq<char>,
    host2: Seq<char>,
    schema: Seq<char>,
    table: Option<Seq<char>>,
    p: Privilege,
)
    requires
        has_privilege_spec(grants, user2, host2, schema, table, p),
    ensures
        has_privilege_spec(grant_spec(grants, user, host, target, privs), user2, host2, schema, table, p),
{
    let g2 = grant_spec(grants, user, host, target, privs);
    if !is_superuser_spec(user2) {
        let i = choose|i: int| 0 <= i < grants.len() && grant_allows(#[trigger] grants[i], user2, host2, schema, table, p);
        lemma_find_grant_some(grants, user, host, target, 0);
        if privs != Set::<Privilege>::empty() {
            match find_grant(grants, user, host, target, 0) {
                Some(k) => {
                    if i == k {
                        assert(g2[i].3.contains(p));
                    } else {
                        assert(g2[i] == grants[i]);
                    }
                },
                None => {
                    assert(g2[i] == grants[i]);
                },
            }
        }
        assert(grant_allows(g2[i], user2, host2, schema, table, p));
    }
}

/// Some grant of a list gives `required` on `schema` / `table` to `user`@`host`.
pub open spec fn some_grant_allows(
    grants: Seq<GrantView>,
    user: Seq<char>,
    host: Seq<char>,
    schema: Seq<char>,
    table: Option<Seq<char>>,
    required: Privilege,
) -> bool {
    exists|i: int| 0 <= i < grants.len() && grant_allows(#[trigger] grants[i], user, host, schema, table, required)
}

proof fn lemma_revoke_each_never_adds(
    grants: Seq<GrantView>,
    user: Seq<char>,
    host: Seq<char>,
    target: (Seq<char>, Option<Seq<char>>),
    privs: Set<Privilege>,
    user2: Seq<char>,
    host2: Seq<char>,
    schema: Seq<char>,
    table: Option<Seq<char>>,
    p: Privilege,
)
    requires
        some_grant_allows(revoke_each(grants, user, host, target, privs), user2, host2, schema, table, p),
    ensures
        some_grant_allows(grants, user2, host2, schema, table, p),
    decreases grants.len(),
{
    let r = revoke_each(grants, user, host, target, privs);
    let d = grants.drop_last();
    let rest = revoke_each(d, user, host, target, privs);
    let i = choose|i: int| 0 <= i < r.len() && grant_allows(#[trigger] r[i], user2, host2, schema, table, p);
    if i < rest.len() {
        assert(r[i] == rest[i]);
        lemma_revoke_each_never_adds(d, user, host, target, privs, user2, host2, schema, table, p);
        let j = choose|j: int| 0 <= j < d.len() && grant_allows(#[trigger] d[j], user2, host2, schema, table, p);
        assert(grants[j] == d[j]);
    } else {
        let last = grants.len() - 1;
        assert(grants[last] == grants.last());
        assert(grant_allows(grants[last], user2, host2, schema, table, p));
    }
}

/// Revoking never gives a privilege.
pub proof fn lemma_revoke_never_adds(
    grants: Seq<GrantView>,
    user: Seq<char>,
    host: Seq<char>,
    target: (Seq<char>, Option<Seq<char>>),
    privs: Set<Privilege>,
    user2: Seq<char>,
    host2: Seq<char>,
    schema: Seq<char>,
    table: Option<Seq<char>>,
    p: Privilege,
)
    requires
        has_privilege_spec(revoke_spec(grants, user, host, target, privs), user2, host2, schema, table, p),
    ensures
        has_privilege_spec(grants, user2, host2, schema, table, p),
{
    if !is_superuser_spec(user2) && privs != Set::<Privilege>::empty() {
        lemma_revoke_each_never_adds(grants, user, host, target, privs, user2, host2, schema, table, p);
    }
}

proof fn lemma_revoke_each_clears(
    grants: Seq<GrantView>,
    user: Seq<char>,
    host: Seq<char>,
    target: (Seq<char>, Option<Seq<char>>),
    privs: Set<Privilege>,
    p: Privilege,
)
    requires
        privs.contains(p),
    ensures
        forall|i: int|
            0 <= i < revoke_each(grants, user, host, target, privs).len() && (#[trigger] revoke_each(
                grants,
                user,
                host,
                target,
                privs,
            )[i]).0 == user && revoke_each(grants, user, host, target, privs)[i].1 == host
                && revoke_each(grants, user, host, target, privs)[i].2 == target ==> !revoke_each(
                grants,
                user,
                host,
                target,
                privs,
            )[i].3.contains(p),
    decreases grants.len(),
{
    if grants.len() > 0 {
        let d = grants.drop_last();
        lemma_revoke_each_clears(d, user, host, target, privs, p);
        let rest = revoke_each(d, user, host, target, privs);
        let r = revoke_each(grants, user, host, target, privs);
        assert forall|i: int| 0 <= i < r.len() && (#[trigger] r[i]).0 == user && r[i].1 == host && r[i].2 == target
            implies !r[i].3.contains(p) by {
            if i < rest.len() {
                assert(r[i] == rest[i]);
            }
        }
    }
}

/// After `REVOKE` of a nonempty set, no grant of the account on the target holds any
/// privilege of it.
pub proof fn lemma_revoke_removes(
    grants: Seq<GrantView>,
    user: Seq<char>,
    host: Seq<char>,
    target: (Seq<char>, Option<Seq<char>>),
    privs: Set<Privilege>,
    i: int,
    p: Privilege,
)
    requires
        privs.contains(p),
        0 <= i < revoke_spec(grants, user, host, target, privs).len(),
        revoke_spec(grants, user, host, target, privs)[i].0 == user,
        revoke_spec(grants, user, host, target, privs)[i].1 == host,
        revoke_spec(grants, user, host, target, privs)[i].2 == target,
    ensures
        !revoke_spec(grants, user, host, target, privs)[i].3.contains(p),
{
    lemma_revoke_each_clears(grants, user, host, target, privs, p);
}

proof fn lemma_revoke_each_untouched(
    grants: Seq<GrantView>,
    user: Seq<char>,
    host: Seq<char>,
    target: (Seq<char>, Option<Seq<char>>),
    privs: Set<Privilege>,
)
    requires
        forall|j: int| 0 <= j < grants.len() ==> !(#[trigger] grants[j].0 == user && grants[j].1 == host
            && grants[j].2 == target),
    ensures
        revoke_each(grants, user, host, target, privs) == grants,
    decreases grants.len(),
{
    if grants.len() > 0 {
        let d = grants.drop_last();
        assert forall|j: int| 0 <= j < d.len() implies !(#[trigger] d[j].0 == user && d[j].1 == host
            && d[j].2 == target) by {
            assert(d[j] == grants[j]);
        }
        lemma_revoke_each_untouched(d, user, host, target, privs);
        assert(grants.last() == grants[grants.len() - 1]);
        assert(grants =~= d.push(grants.last()));
    }
}

/// Revoking what was just granted on a target the account had no grant on restores the
/// grants as they were.
pub proof fn lemma_grant_then_revoke(
    grants: Seq<GrantView>,
    user: Seq<char>,
    host: Seq<char>,
    target: (Seq<char>, Option<Seq<char>>),
    privs: Set<Privilege>,
)
    requires
        find_grant(grants, user, host, target, 0) is None,
    ensures
        revoke_spec(grant_spec(grants, user, host, target, privs), user, host, target, privs)
            == grants,
{
    if privs != Set::<Privilege>::empty() {
        lemma_find_grant_some(grants, user, host, target, 0);
        let g2 = grants.push((user, host, target, privs));
        assert(g2.drop_last() =~= grants);
        lemma_revoke_each_untouched(grants, user, host, target, privs);
        assert(privs.difference(privs) =~= Set::<Privilege>::empty());
    }
}


/// A grant on `*.*` covers every schema and table: after granting a nonempty set on schema `*`
/// with no table, the account holds each granted privilege on any schema and any (or no) table.
pub proof fn lemma_global_grant_covers_all(
    grants: Seq<GrantView>,
    user: Seq<char>,
    host: Seq<char>,
    privs: Set<Privilege>,
    p: Privilege,
    schema: Seq<char>,
    table: Option<Seq<char>>,
)
    requires
        privs.contains(p),
    ensures
        has_privilege_spec(grant_spec(grants, user, host, ("*"@, None), privs), user, host, schema, table, p),
{
    let target: (Seq<char>, Option<Seq<char>>) = ("*"@, None);
    let g2 = grant_spec(grants, user, host, target, privs);
    lemma_find_grant_some(grants, user, host, target, 0);
    match find_grant(grants, user, host, target, 0) {
        Some(i) => {
            assert(grant_allows(g2[i], user, host, schema, table, p));
        },
        None => {
            assert(grant_allows(g2[grants.len() as int], user, host, schema, table, p));
        },
    }
}

/// A grant on a schema with no table covers every table of that schema.
pub proof fn lemma_schema_grant_covers_tables(
    grants: Seq<GrantView>,
    user: Seq<char>,
    host: Seq<char>,
    schema: Seq<char>,
    privs: Set<Privilege>,
    p: Privilege,
    table: Option<Seq<char>>,
)
    requires
        privs.contains(p),
    ensures
        has_privilege_spec(grant_spec(grants, user, host, (schema, None), privs), user, host, schema, table, p),
{
    let target: (Seq<char>, Option<Seq<char>>) = (schema, None);
    let g2 = grant_spec(grants, user, host, target, privs);
    lemma_find_grant_some(grants, user, host, target, 0);
    match find_grant(grants, user, host, target, 0) {
        Some(i) => {
            assert(grant_allows(g2[i], user, host, schema, table, p));
        },
        None => {
            assert(grant_allows(g2[grants.len() as int], user, host, schema, table, p));
        },
    }
}

/// No two grants are for the same account and target.
pub open spec fn grants_unique(grants: Seq<GrantView>) -> bool {
    forall|i: int, j: int|
        0 <= i < j < grants.len() ==> !((#[trigger] grants[i]).0 == (#[trigger] grants[j]).0
            && grants[i].1 == grants[j].1 && grants[i].2 == grants[j].2)
}

/// `GRANT` keeps at most one grant per account and target: it joins an existing grant
/// rather than adding a second one.
pub proof fn lemma_grant_keeps_unique(
    grants: Seq<GrantView>,
    user: Seq<char>,
    host: Seq<char>,
    target: (Seq<char>, Option<Seq<char>>),
    privs: Set<Privilege>,
)
    requires
        grants_unique(grants),
    ensures
        grants_unique(grant_spec(grants, user, host, target, privs)),
{
    let g2 = grant_spec(grants, user, host, target, privs);
    lemma_find_grant_some(grants, user, host, target, 0);
    if privs != Set::<Privilege>::empty() {
        assert forall|i: int, j: int| 0 <= i < j < g2.len() implies !((#[trigger] g2[i]).0 == (#[trigger] g2[j]).0
            && g2[i].1 == g2[j].1 && g2[i].2 == g2[j].2) by {
            match find_grant(grants, user, host, target, 0) {
                Some(k) => {
                    assert(g2[i].0 == grants[i].0 && g2[i].1 == grants[i].1 && g2[i].2 == grants[i].2);
                    assert(g2[j].0 == grants[j].0 && g2[j].1 == grants[j].1 && g2[j].2 == grants[j].2);
                },
                None => {
                    if j == grants.len() {
                        assert(g2[i] == grants[i]);
                    } else {
                        assert(g2[i] == grants[i]);
                        assert(g2[j] == grants[j]);
                    }
                },
            }
        }
    }
}

proof fn lemma_revoke_each_keeps(
    grants: Seq<GrantView>,
    user: Seq<char>,
    host: Seq<char>,
    target: (Seq<char>, Option<Seq<char>>),
    privs: Set<Privilege>,
    user2: Seq<char>,
    host2: Seq<char>,
    schema: Seq<char>,
    table: Option<Seq<char>>,
    p: Privilege,
)
    requires
        !privs.contains(p),
        some_grant_allows(grants, user2, host2, schema, table, p),
    ensures
        some_grant_allows(revoke_each(grants, user, host, target, privs), user2, host2, schema, table, p),
    decreases grants.len(),
{
    let d = grants.drop_last();
    let rest = revoke_each(d, user, host, target, privs);
    let r = revoke_each(grants, user, host, target, privs);
    let i = choose|i: int| 0 <= i < grants.len() && grant_allows(#[trigger] grants[i], user2, host2, schema, table, p);
    if i < d.len() {
        assert(grant_allows(d[i], user2, host2, schema, table, p));
        lemma_revoke_each_keeps(d, user, host, target, privs, user2, host2, schema, table, p);
        let k = choose|k: int| 0 <= k < rest.len() && grant_allows(#[trigger] rest[k], user2, host2, schema, table, p);
        assert(r[k] == rest[k]);
        assert(grant_allows(r[k], user2, host2, schema, table, p));
    } else {
        let g = grants.last();
        assert(g == grants[i]);
        if g.0 == user && g.1 == host && g.2 == target {
            assert(g.3.difference(privs).contains(p));
            assert(g.3.difference(privs) != Set::<Privilege>::empty());
            assert(grant_allows(r[rest.len() as int], user2, host2, schema, table, p));
        } else {
            assert(grant_allows(r[rest.len() as int], user2, host2, schema, table, p));
        }
    }
}

/// `REVOKE` takes away only the privileges it names: every other privilege any account held
/// is still held afterwards.
pub proof fn lemma_revoke_keeps_others(
    grants: Seq<GrantView>,
    user: Seq<char>,
    host: Seq<char>,
    target: (Seq<char>, Option<Seq<char>>),
    privs: Set<Privilege>,
    user2: Seq<char>,
    host2: Seq<char>,
    schema: Seq<char>,
    table: Option<Seq<char>>,
    p: Privilege,
)
    requires
        !privs.contains(p),
        has_privilege_spec(grants, user2, host2, schema, table, p),
    ensures
        has_privilege_spec(revoke_spec(grants, user, host, target, privs), user2, host2, schema, table, p),
{
    if !is_superuser_spec(user2) && privs != Set::<Privilege>::empty() {
        lemma_revoke_each_keeps(grants, user, host, target, privs, user2, host2, schema, table, p);
    }
}

/// A `mysql.user` row as plain values: user, host, comma-separated privilege names.
pub type UserRow = (Seq<char>, Seq<char>, Seq<char>);

/// Index of the group of `user`@`host`.
pub open spec fn find_group(gs: Seq<(Seq<char>, Seq<char>, Set<Privilege>)>, user: Seq<char>, host: Seq<char>, from: int) -> Option<int>
    decreases gs.len() - from,
{
    if from < 0 || from >= gs.len() {
        None
    } else if gs[from].0 == user && gs[from].1 == host {
        Some(from)
    } else {
        find_group(gs, user, host, from + 1)
    }
}

/// The privileges of each account across its grants, accounts in order of first grant.
pub open spec fn account_groups(grants: Seq<GrantView>) -> Seq<(Seq<char>, Seq<char>, Set<Privilege>)>
    decreases grants.len(),
{
    if grants.len() == 0 {
        Seq::empty()
    } else {
        let gs = account_groups(grants.drop_last());
        let g = grants.last();
        match find_group(gs, g.0, g.1, 0) {
            Some(k) => gs.update(k, (gs[k].0, gs[k].1, gs[k].2.union(g.3))),
            None => gs.push((g.0, g.1, g.3)),
        }
    }
}

/// The rows of the groups.
pub open spec fn group_rows(gs: Seq<(Seq<char>, Seq<char>, Set<Privilege>)>) -> Seq<UserRow> {
    Seq::new(gs.len(), |i: int| (gs[i].0, gs[i].1, join(set_names(gs[i].2), ","@)))
}

/// Order of rows: by user, then by host.
pub open spec fn row_less(a: UserRow, b: UserRow) -> bool {
    text_less(a.0, b.0) || (a.0 == b.0 && text_less(a.1, b.1))
}

/// Rows in non-decreasing (user, host) order.
pub open spec fn rows_sorted(s: Seq<UserRow>) -> bool {
    forall|i: int, j: int| 0 <= i < j < s.len() ==> !row_less(#[trigger] s[j], #[trigger] s[i])
}

/// The rows of a list of string triples.
pub open spec fn rows_of(v: Seq<(String, String, String)>) -> Seq<UserRow> {
    Seq::new(v.len(), |i: int| (v[i].0@, v[i].1@, v[i].2@))
}

proof fn lemma_row_order(a: UserRow, b: UserRow, c: UserRow)
    ensures
        !(row_less(a, b) && row_less(b, a)),
        row_less(a, b) && row_less(b, c) ==> row_less(a, c),
{
    lemma_text_total(a.0, b.0);
    lemma_text_total(a.1, b.1);
    lemma_text_irreflexive(a.0);
    lemma_text_irreflexive(a.1);
    if row_less(a, b) && row_less(b, c) {
        if text_less(a.0, b.0) && text_less(b.0, c.0) {
            lemma_text_transitive(a.0, b.0, c.0);
        } else if a.0 == b.0 && b.0 == c.0 {
            lemma_text_transitive(a.1, b.1, c.1);
        }
    }
}

fn row_less_exec(a: &(String, String, String), b: &(String, String, String)) -> (r: bool)
    ensures
        r == row_less((a.0@, a.1@, a.2@), (b.0@, b.1@, b.2@)),
{
    str_less(a.0.as_str(), b.0.as_str()) || (str_eq(a.0.as_str(), b.0.as_str()) && str_less(
        a.1.as_str(),
        b.1.as_str(),
    ))
}

fn sort_rows(v: Vec<(String, String, String)>) -> (r: Vec<(String, String, String)>)
    ensures
        rows_sorted(rows_of(r@)),
        rows_of(r@).to_multiset() == rows_of(v@).to_multiset(),
{
    let mut out: Vec<(String, String, String)> = Vec::new();
    let mut rest = v;
    let ghost orig = rows_of(rest@);
    proof {
        assert(rows_of(out@) =~= orig.take(0));
        assert(orig.skip(0) =~= orig);
    }
    let mut k: usize = 0;
    let n = rest.len();
    while rest.len() > 0
        invariant
            orig.len() == n,
            rows_sorted(rows_of(out@)),
            k <= orig.len(),
            rows_of(rest@) == orig.skip(k as int),
            rows_of(out@).to_multiset() == orig.take(k as int).to_multiset(),
        decreases rest@.len(),
    {
        let ghost before = rows_of(out@);
        let ghost old_rest = rest@;
        let x = rest.remove(0);
        proof {
            assert(rows_of(old_rest).len() == old_rest.len());
            assert(k < orig.len());
            assert(rows_of(old_rest)[0] == orig.skip(k as int)[0]);
            assert forall|t: int| 0 <= t < rows_of(rest@).len() implies rows_of(rest@)[t]
                == orig.skip(k + 1)[t] by {
                assert(rest@[t] == old_rest[t + 1]);
                assert(rows_of(old_rest)[t + 1] == orig.skip(k as int)[t + 1]);
            }
            assert(rows_of(rest@) =~= orig.skip(k + 1));
        }
        let ghost xv = (x.0@, x.1@, x.2@);
        let mut j: usize = 0;
        while j < out.len() && !row_less_exec(&x, &out[j])
            invariant
                j <= out@.len(),
                rows_of(out@) == before,
                xv == (x.0@, x.1@, x.2@),
                forall|t: int| 0 <= t < j ==> !row_less(xv, #[trigger] before[t]),
            decreases out@.len() - j,
        {
            j = j + 1;
        }
        proof {
            assert forall|t: int| j <= t < before.len() implies !row_less(#[trigger] before[t], xv) by {
                lemma_row_order(xv, before[j as int], xv);
                lemma_row_order(before[t], xv, before[j as int]);
                if t > j {
                    assert(!row_less(before[t], before[j as int]));
                }
            }
        }
        out.insert(j, x);
        proof {
            let after = rows_of(out@);
            assert(after =~= before.insert(j as int, xv));
            assert forall|a: int, b: int| 0 <= a < b < after.len() implies !row_less(
                #[trigger] after[b],
                #[trigger] after[a],
            ) by {
                if a < j && b == j {
                    assert(after[a] == before[a]);
                } else if a == j && b > j {
                    assert(after[b] == before[b - 1]);
                } else if a < j && b > j {
                    assert(after[a] == before[a]);
                    assert(after[b] == before[b - 1]);
                } else if b < j {
                    assert(after[a] == before[a]);
                    assert(after[b] == before[b]);
                } else {
                    assert(after[a] == before[a - 1]);
                    assert(after[b] == before[b - 1]);
                }
            }
            vstd::seq_lib::to_multiset_insert(before, j as int, xv);
            assert(orig.take(k + 1) =~= orig.take(k as int).push(orig[k as int]));
            vstd::seq_lib::to_multiset_build(orig.take(k as int), orig[k as int]);
        }
        k = k + 1;
    }
    proof {
        assert(orig.take(k as int) =~= orig);
    }
    out
}

impl PrivilegeStore {
    fn group_index(groups: &Vec<(String, String, PrivilegeSet)>, user: &str, host: &str) -> (r: Option<usize>)
        ensures
            r matches Some(k) ==> find_group(groups_view(groups@), user@, host@, 0) == Some(k as int) && k < groups@.len(),
            r is None ==> find_group(groups_view(groups@), user@, host@, 0) is None,
    {
        let mut i: usize = 0;
        while i < groups.len()
            invariant
                i <= groups@.len(),
                find_group(groups_view(groups@), user@, host@, 0) == find_group(groups_view(groups@), user@, host@, i as int),
            decreases groups@.len() - i,
        {
            if str_eq(groups[i].0.as_str(), user) && str_eq(groups[i].1.as_str(), host) {
                return Some(i);
            }
            i = i + 1;
        }
        None
    }

    /// Rows for `mysql.user`: each account with grants, and the names of all its privileges
    /// joined by commas, sorted by user then host.
    pub fn mysql_user_rows(&self) -> (r: Vec<(String, String, String)>)
        ensures
            rows_sorted(rows_of(r@)),
            rows_of(r@).to_multiset() == group_rows(account_groups(self@.0)).to_multiset(),
    {
        let ghost gv = self@.0;
        let mut groups: Vec<(String, String, PrivilegeSet)> = Vec::new();
        let mut i: usize = 0;
        proof {
            assert(gv.take(0) =~= Seq::<GrantView>::empty());
            assert(groups_view(groups@) =~= account_groups(gv.take(0)));
        }
        while i < self.grants.len()
            invariant
                i <= self.grants@.len(),
                gv == grants_view(self.grants@),
                groups_view(groups@) == account_groups(gv.take(i as int)),
            decreases self.grants@.len() - i,
        {
            proof {
                assert(gv.take(i + 1).drop_last() =~= gv.take(i as int));
            }
            let g = &self.grants[i];
            let ghost g0 = groups_view(groups@);
            match Self::group_index(&groups, g.user.as_str(), g.host.as_str()) {
                Some(k) => {
                    let mut privs = groups[k].2;
                    privs.union_with(&g.privileges);
                    let entry = (clone_str(&groups[k].0), clone_str(&groups[k].1), privs);
                    groups.set(k, entry);
                    proof {
                        assert(groups_view(groups@) =~= g0.update(k as int, (g0[k as int].0, g0[k as int].1, g0[k as int].2.union(gv[i as int].3))));
                    }
                },
                None => {
                    groups.push((clone_str(&g.user), clone_str(&g.host), g.privileges));
                    proof {
                        assert(groups_view(groups@) =~= g0.push((gv[i as int].0, gv[i as int].1, gv[i as int].3)));
                    }
                },
            }
            i = i + 1;
        }
        proof {
            assert(gv.take(i as int) =~= gv);
        }
        let ghost gs = groups_view(groups@);
        let mut rows: Vec<(String, String, String)> = Vec::new();
        let mut j: usize = 0;
        while j < groups.len()
            invariant
                j <= groups@.len(),
                gs == groups_view(groups@),
                rows_of(rows@) == group_rows(gs).take(j as int),
            decreases groups@.len() - j,
        {
            let names = groups[j].2.names();
            let joined = join_names(&names, ",");
            proof {
                assert(Seq::new(names@.len(), |t: int| names@[t]@) =~= set_names(groups@[j as int].2@));
            }
            let ghost r0 = rows_of(rows@);
            let list = string_from_chars(joined.as_slice());
            rows.push((clone_str(&groups[j].0), clone_str(&groups[j].1), list));
            proof {
                assert(gs[j as int] == (groups@[j as int].0@, groups@[j as int].1@, groups@[j as int].2@));
                assert(list@ == join(set_names(gs[j as int].2), ","@));
                assert(rows_of(rows@) =~= r0.push(group_rows(gs)[j as int]));
                assert(group_rows(gs).take(j + 1) =~= group_rows(gs).take(j as int).push(group_rows(gs)[j as int]));
            }
            j = j + 1;
        }
        proof {
            assert(group_rows(gs).take(j as int) =~= group_rows(gs));
        }
        sort_rows(rows)
    }
}

/// The groups as plain values.
pub open spec fn groups_view(v: Seq<(String, String, PrivilegeSet)>) -> Seq<(Seq<char>, Seq<char>, Set<Privilege>)> {
    Seq::new(v.len(), |i: int| (v[i].0@, v[i].1@, v[i].2@))
}


proof fn lemma_find_grant_none(
    grants: Seq<GrantView>,
    user: Seq<char>,
    host: Seq<char>,
    target: (Seq<char>, Option<Seq<char>>),
    from: int,
)
    requires
        0 <= from,
        forall|i: int| 0 <= i < grants.len() ==> !(#[trigger] grants[i].0 == user && grants[i].1 == host),
    ensures
        find_grant(grants, user, host, target, from) == None::<int>,
    decreases grants.len() - from,
{
    if from < grants.len() {
        lemma_find_grant_none(grants, user, host, target, from + 1);
    }
}

/// A first grant on one table of a schema gives the account exactly the granted privileges on
/// exactly that table: nothing on another table, another schema or the schema as a whole.
pub proof fn lemma_table_grant_exact(
    grants: Seq<GrantView>,
    user: Seq<char>,
    host: Seq<char>,
    schema: Seq<char>,
    table: Seq<char>,
    privs: Set<Privilege>,
    schema2: Seq<char>,
    table2: Option<Seq<char>>,
    p: Privilege,
)
    requires
        !is_superuser_spec(user),
        schema != "*"@,
        privs != Set::<Privilege>::empty(),
        forall|i: int| 0 <= i < grants.len() ==> !(#[trigger] grants[i].0 == user && grants[i].1 == host),
    ensures
        has_privilege_spec(grant_spec(grants, user, host, (schema, Some(table)), privs), user, host, schema2, table2, p)
            <==> (privs.contains(p) && schema2 == schema && table2 == Some(table)),
{
    let target: (Seq<char>, Option<Seq<char>>) = (schema, Some(table));
    lemma_find_grant_none(grants, user, host, target, 0);
    let g2 = grant_spec(grants, user, host, target, privs);
    assert(g2 == grants.push((user, host, target, privs)));
    if has_privilege_spec(g2, user, host, schema2, table2, p) {
        let i = choose|i: int| 0 <= i < g2.len() && grant_allows(#[trigger] g2[i], user, host, schema2, table2, p);
        if i < grants.len() {
            assert(g2[i] == grants[i]);
            assert(false);
        }
    }
    if privs.contains(p) && schema2 == schema && table2 == Some(table) {
        assert(grant_allows(g2[grants.len() as int], user, host, schema2, table2, p));
    }
}
} // verus!
