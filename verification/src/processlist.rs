//! Connection registry for `SHOW PROCESSLIST` / `COM_PROCESS_INFO`. Times are monotonic
//! nanosecond readings that the caller takes from its clock.
use vstd::prelude::*;
use crate::text::owned;

verus! {

/// One row of `SHOW PROCESSLIST`.
#[derive(Debug, Clone, PartialEq, Eq)]
pub struct ProcessListRow {
    pub id: u64,
    pub user: String,
    pub host: String,
    pub db: String,
    pub command: String,
    pub time: u64,
    pub state: String,
    pub info: Option<String>,
}

/// What the registry keeps of a connection.
#[derive(Debug, Clone, PartialEq, Eq)]
pub struct ConnectionInfo {
    pub id: u64,
    pub user: String,
    pub host: String,
    pub database: String,
    pub command: String,
    pub info: Option<String>,
    pub state: String,
    /// When the current command started (clock reading, nanoseconds).
    pub command_started: u64,
}

/// Active connections, by id.
#[derive(Debug)]
pub struct ConnectionRegistry {
    conns: Vec<ConnectionInfo>,
}

/// A connection as plain values: user, host, database, command, info, state, and when the
/// command started.
pub type ConnView = (Seq<char>, Seq<char>, Seq<char>, Seq<char>, Option<Seq<char>>, Seq<char>, u64);

/// The plain values of a connection.
pub open spec fn conn_view(c: ConnectionInfo) -> ConnView {
    (c.user@, c.host@, c.database@, c.command@, match c.info {
        Some(s) => Some(s@),
        None => None,
    }, c.state@, c.command_started)
}

/// The connections of a list, by id (a later entry overriding).
pub open spec fn conns_map(v: Seq<ConnectionInfo>) -> Map<u64, ConnView>
    decreases v.len(),
{
    if v.len() == 0 {
        Map::empty()
    } else {
        conns_map(v.drop_last()).insert(v.last().id, conn_view(v.last()))
    }
}

/// Ids strictly increasing.
pub open spec fn ids_increasing(v: Seq<ConnectionInfo>) -> bool {
    forall|i: int, j: int| 0 <= i < j < v.len() ==> #[trigger] v[i].id < #[trigger] v[j].id
}

/// Whole seconds from `started` to `now` (none when the clock reads earlier).
pub open spec fn elapsed_secs(started: u64, now: u64) -> u64 {
    if now >= started {
        ((now - started) / 1_000_000_000) as u64
    } else {
        0
    }
}

/// The row of connection `id` at clock reading `now`.
pub open spec fn row_of(id: u64, c: ConnView, now: u64) -> (u64, Seq<char>, Seq<char>, Seq<char>, Seq<char>, u64, Seq<char>, Option<Seq<char>>) {
    (id, c.0, c.1, c.2, c.3, elapsed_secs(c.6, now), c.5, c.4)
}

/// A process-list row as plain values.
pub open spec fn row_view(r: ProcessListRow) -> (u64, Seq<char>, Seq<char>, Seq<char>, Seq<char>, u64, Seq<char>, Option<Seq<char>>) {
    (r.id, r.user@, r.host@, r.db@, r.command@, r.time, r.state@, match r.info {
        Some(s) => Some(s@),
        None => None,
    })
}

proof fn lemma_conns_map(v: Seq<ConnectionInfo>)
    requires
        ids_increasing(v),
    ensures
        forall|id: u64| #[trigger] conns_map(v).contains_key(id) <==> exists|i: int| 0 <= i < v.len() && v[i].id == id,
        forall|i: int| 0 <= i < v.len() ==> #[trigger] conns_map(v)[v[i].id] == conn_view(v[i]),
    decreases v.len(),
{
    if v.len() > 0 {
        let d = v.drop_last();
        assert forall|i: int, j: int| 0 <= i < j < d.len() implies #[trigger] d[i].id < #[trigger] d[j].id by {
            assert(d[i] == v[i] && d[j] == v[j]);
        }
        lemma_conns_map(d);
        assert forall|id: u64| #[trigger] conns_map(v).contains_key(id) <==> exists|i: int| 0 <= i < v.len() && v[i].id == id by {
            if exists|i: int| 0 <= i < v.len() && v[i].id == id {
                let i = choose|i: int| 0 <= i < v.len() && v[i].id == id;
                if i < d.len() {
                    assert(d[i].id == id);
                }
            }
            if conns_map(d).contains_key(id) {
                let i = choose|i: int| 0 <= i < d.len() && d[i].id == id;
                assert(v[i].id == id);
            }
        }
        assert forall|i: int| 0 <= i < v.len() implies #[trigger] conns_map(v)[v[i].id] == conn_view(v[i]) by {
            if i < d.len() {
                assert(d[i] == v[i]);
                assert(v[i].id < v[v.len() - 1].id);
                assert(conns_map(d)[d[i].id] == conn_view(d[i]));
            } else {
                assert(v[i] == v.last());
            }
        }
    }
}

proof fn lemma_conns_len(v: Seq<ConnectionInfo>)
    requires
        ids_increasing(v),
    ensures
        conns_map(v).dom().finite(),
        conns_map(v).dom().len() == v.len(),
    decreases v.len(),
{
    if v.len() > 0 {
        let d = v.drop_last();
        assert forall|i: int, j: int| 0 <= i < j < d.len() implies #[trigger] d[i].id < #[trigger] d[j].id by {
            assert(d[i] == v[i] && d[j] == v[j]);
        }
        lemma_conns_len(d);
        lemma_conns_map(d);
        if conns_map(d).contains_key(v.last().id) {
            let i = choose|i: int| 0 <= i < d.len() && d[i].id == v.last().id;
            assert(v[i].id < v[v.len() - 1].id);
        }
    } else {
        assert(conns_map(v).dom() =~= Set::<u64>::empty());
    }
}

proof fn lemma_insert_at(e: Seq<ConnectionInfo>, pos: int, c: ConnectionInfo)
    requires
        ids_increasing(e),
        0 <= pos <= e.len(),
        forall|j: int| 0 <= j < pos ==> e[j].id < c.id,
        forall|j: int| pos <= j < e.len() ==> e[j].id > c.id,
    ensures
        ids_increasing(e.insert(pos, c)),
        conns_map(e.insert(pos, c)) == conns_map(e).insert(c.id, conn_view(c)),
{
    let h = e.insert(pos, c);
    assert forall|i: int, j: int| 0 <= i < j < h.len() implies #[trigger] h[i].id < #[trigger] h[j].id by {
        if j < pos {
            assert(h[i] == e[i] && h[j] == e[j]);
        } else if i < pos && j == pos {
            assert(h[i] == e[i]);
        } else if i < pos {
            assert(h[i] == e[i] && h[j] == e[j - 1]);
        } else if i == pos {
            assert(h[j] == e[j - 1]);
        } else {
            assert(h[i] == e[i - 1] && h[j] == e[j - 1]);
        }
    }
    lemma_conns_map(e);
    lemma_conns_map(h);
    assert forall|x: u64| #[trigger] conns_map(h).contains_key(x) == conns_map(e).insert(c.id, conn_view(c)).contains_key(x) by {
        if conns_map(h).contains_key(x) {
            let i = choose|i: int| 0 <= i < h.len() && h[i].id == x;
            if i < pos {
                assert(h[i] == e[i]);
            } else if i > pos {
                assert(h[i] == e[i - 1]);
            }
        }
        if conns_map(e).contains_key(x) {
            let i = choose|i: int| 0 <= i < e.len() && e[i].id == x;
            if i < pos {
                assert(h[i] == e[i]);
            } else {
                assert(h[i + 1] == e[i]);
            }
        }
        if x == c.id {
            assert(h[pos] == c);
        }
    }
    assert forall|x: u64| #[trigger] conns_map(h).contains_key(x) implies conns_map(h)[x] == conns_map(e).insert(c.id, conn_view(c))[x] by {
        let i = choose|i: int| 0 <= i < h.len() && h[i].id == x;
        assert(conns_map(h)[h[i].id] == conn_view(h[i]));
        if i < pos {
            assert(h[i] == e[i]);
            assert(conns_map(e)[e[i].id] == conn_view(e[i]));
        } else if i > pos {
            assert(h[i] == e[i - 1]);
            assert(conns_map(e)[e[i - 1].id] == conn_view(e[i - 1]));
        }
    }
    assert(conns_map(h) =~= conns_map(e).insert(c.id, conn_view(c)));
}

proof fn lemma_set_at(e: Seq<ConnectionInfo>, pos: int, c: ConnectionInfo)
    requires
        ids_increasing(e),
        0 <= pos < e.len(),
        c.id == e[pos].id,
    ensures
        ids_increasing(e.update(pos, c)),
        conns_map(e.update(pos, c)) == conns_map(e).insert(c.id, conn_view(c)),
{
    let h = e.update(pos, c);
    assert forall|i: int, j: int| 0 <= i < j < h.len() implies #[trigger] h[i].id < #[trigger] h[j].id by {
        assert(h[i].id == e[i].id && h[j].id == e[j].id);
    }
    lemma_conns_map(e);
    lemma_conns_map(h);
    assert forall|x: u64| #[trigger] conns_map(h).contains_key(x) == conns_map(e).insert(c.id, conn_view(c)).contains_key(x) by {
        if conns_map(h).contains_key(x) {
            let i = choose|i: int| 0 <= i < h.len() && h[i].id == x;
            assert(e[i].id == x);
        }
        if conns_map(e).contains_key(x) {
            let i = choose|i: int| 0 <= i < e.len() && e[i].id == x;
            assert(h[i].id == x);
        }
        assert(h[pos].id == c.id);
    }
    assert forall|x: u64| #[trigger] conns_map(h).contains_key(x) implies conns_map(h)[x] == conns_map(e).insert(c.id, conn_view(c))[x] by {
        let i = choose|i: int| 0 <= i < h.len() && h[i].id == x;
        assert(conns_map(h)[h[i].id] == conn_view(h[i]));
        if i != pos {
            assert(h[i] == e[i]);
            assert(conns_map(e)[e[i].id] == conn_view(e[i]));
        }
    }
    assert(conns_map(h) =~= conns_map(e).insert(c.id, conn_view(c)));
}

proof fn lemma_remove_at(e: Seq<ConnectionInfo>, pos: int)
    requires
        ids_increasing(e),
        0 <= pos < e.len(),
    ensures
        ids_increasing(e.remove(pos)),
        conns_map(e.remove(pos)) == conns_map(e).remove(e[pos].id),
{
    let h = e.remove(pos);
    let id = e[pos].id;
    assert forall|i: int, j: int| 0 <= i < j < h.len() implies #[trigger] h[i].id < #[trigger] h[j].id by {
        if j < pos {
            assert(h[i] == e[i] && h[j] == e[j]);
        } else if i < pos {
            assert(h[i] == e[i] && h[j] == e[j + 1]);
        } else {
            assert(h[i] == e[i + 1] && h[j] == e[j + 1]);
        }
    }
    lemma_conns_map(e);
    lemma_conns_map(h);
    assert forall|x: u64| #[trigger] conns_map(h).contains_key(x) == conns_map(e).remove(id).contains_key(x) by {
        if conns_map(h).contains_key(x) {
            let i = choose|i: int| 0 <= i < h.len() && h[i].id == x;
            if i < pos {
                assert(h[i] == e[i]);
            } else {
                assert(h[i] == e[i + 1]);
            }
        }
        if conns_map(e).contains_key(x) && x != id {
            let i = choose|i: int| 0 <= i < e.len() && e[i].id == x;
            if i < pos {
                assert(h[i] == e[i]);
            } else {
                assert(i != pos);
                assert(h[i - 1] == e[i]);
            }
        }
    }
    assert forall|x: u64| #[trigger] conns_map(h).contains_key(x) implies conns_map(h)[x] == conns_map(e)[x] by {
        let i = choose|i: int| 0 <= i < h.len() && h[i].id == x;
        assert(conns_map(h)[h[i].id] == conn_view(h[i]));
        if i < pos {
            assert(h[i] == e[i]);
            assert(conns_map(e)[e[i].id] == conn_view(e[i]));
        } else {
            assert(h[i] == e[i + 1]);
            assert(conns_map(e)[e[i + 1].id] == conn_view(e[i + 1]));
        }
    }
    assert(conns_map(h) =~= conns_map(e).remove(id));
}

fn clone_opt(s: &Option<String>) -> (r: Option<String>)
    ensures
        match *s {
            Some(t) => r matches Some(u) && u@ == t@,
            None => r is None,
        },
{
    match s {
        Some(t) => Some(owned(t.as_str())),
        None => None,
    }
}

fn elapsed(started: u64, now: u64) -> (r: u64)
    ensures
        r == elapsed_secs(started, now),
{
    if now >= started {
        (now - started) / 1_000_000_000
    } else {
        0
    }
}

fn to_row(c: &ConnectionInfo, now: u64) -> (r: ProcessListRow)
    ensures
        row_view(r) == row_of(c.id, conn_view(*c), now),
{
    ProcessListRow {
        id: c.id,
        user: owned(c.user.as_str()),
        host: owned(c.host.as_str()),
        db: owned(c.database.as_str()),
        command: owned(c.command.as_str()),
        time: elapsed(c.command_started, now),
        state: owned(c.state.as_str()),
        info: clone_opt(&c.info),
    }
}

impl View for ConnectionRegistry {
    type V = Map<u64, ConnView>;

    closed spec fn view(&self) -> Map<u64, ConnView> {
        conns_map(self.conns@)
    }
}

impl ConnectionRegistry {
    #[verifier::type_invariant]
    spec fn inv(self) -> bool {
        ids_increasing(self.conns@)
    }

    /// The number of registered connections.
    pub fn connection_count(&self) -> (r: u64)
        ensures
            r == self@.dom().len(),
    {
        proof {
            use_type_invariant(self);
            lemma_conns_len(self.conns@);
        }
        self.conns.len() as u64
    }

    /// An empty registry.
    pub fn new() -> (r: Self)
        ensures
            r@ == Map::<u64, ConnView>::empty(),
    {
        ConnectionRegistry { conns: Vec::new() }
    }

    fn position(&self, id: u64) -> (r: (usize, bool))
        ensures
            r.0 <= self.conns@.len(),
            forall|j: int| 0 <= j < r.0 ==> self.conns@[j].id < id,
            r.1 ==> r.0 < self.conns@.len() && self.conns@[r.0 as int].id == id,
            !r.1 ==> forall|j: int| r.0 <= j < self.conns@.len() ==> self.conns@[j].id > id,
    {
        proof {
            use_type_invariant(self);
        }
        let mut i: usize = 0;
        while i < self.conns.len() && self.conns[i].id < id
            invariant
                i <= self.conns@.len(),
                forall|j: int| 0 <= j < i ==> self.conns@[j].id < id,
            decreases self.conns@.len() - i,
        {
            i = i + 1;
        }
        if i < self.conns.len() && self.conns[i].id == id {
            (i, true)
        } else {
            (i, false)
        }
    }

    /// Registers connection `id` (replacing any with that id), sleeping since `now`.
    pub fn register(&mut self, id: u64, user: &str, host: &str, database: &str, now: u64)
        ensures
            final(self)@ == old(self)@.insert(id, (user@, host@, database@, "Sleep"@, None, Seq::<char>::empty(), now)),
    {
        proof {
            use_type_invariant(&*self);
        }
        let info = ConnectionInfo {
            id,
            user: owned(user),
            host: owned(host),
            database: owned(database),
            command: owned("Sleep"),
            info: None,
            state: String::new(),
            command_started: now,
        };
        let (pos, found) = self.position(id);
        if found {
            self.replace_at(pos, info);
        } else {
            let ghost e = self.conns@;
            let ghost c = info;
            let mut h: Vec<ConnectionInfo> = Vec::new();
            std::mem::swap(&mut h, &mut self.conns);
            h.insert(pos, info);
            proof {
                lemma_insert_at(e, pos as int, c);
            }
            self.conns = h;
        }
    }

    /// Forgets connection `id`.
    pub fn unregister(&mut self, id: u64)
        ensures
            final(self)@ == old(self)@.remove(id),
    {
        proof {
            use_type_invariant(&*self);
            lemma_conns_map(self.conns@);
        }
        let (pos, found) = self.position(id);
        let ghost e = self.conns@;
        if !found {
            proof {
                assert(!conns_map(e).contains_key(id));
                assert(old(self)@.remove(id) =~= old(self)@);
            }
            return;
        }
        let mut h: Vec<ConnectionInfo> = Vec::new();
        std::mem::swap(&mut h, &mut self.conns);
        h.remove(pos);
        proof {
            lemma_remove_at(e, pos as int);
        }
        self.conns = h;
    }

    fn replace_at(&mut self, pos: usize, c: ConnectionInfo)
        requires
            pos < old(self).conns@.len(),
            c.id == old(self).conns@[pos as int].id,
        ensures
            final(self)@ == old(self)@.insert(c.id, conn_view(c)),
    {
        proof {
            use_type_invariant(&*self);
        }
        let ghost e = self.conns@;
        let ghost cc = c;
        let mut h: Vec<ConnectionInfo> = Vec::new();
        std::mem::swap(&mut h, &mut self.conns);
        h.set(pos, c);
        proof {
            lemma_set_at(e, pos as int, cc);
        }
        self.conns = h;
    }

    /// Records a change of user, host or database of connection `id` (nothing when absent).
    pub fn update_session(&mut self, id: u64, user: &str, host: &str, database: &str)
        ensures
            old(self)@.contains_key(id) ==> final(self)@ == old(self)@.insert(
                id,
                (user@, host@, database@, old(self)@[id].3, old(self)@[id].4, old(self)@[id].5, old(self)@[id].6),
            ),
            !old(self)@.contains_key(id) ==> final(self)@ == old(self)@,
    {
        proof {
            use_type_invariant(&*self);
            lemma_conns_map(self.conns@);
        }
        let (pos, found) = self.position(id);
        if !found {
            return;
        }
        let old_c = &self.conns[pos];
        let c = ConnectionInfo {
            id: old_c.id,
            user: owned(user),
            host: owned(host),
            database: owned(database),
            command: owned(old_c.command.as_str()),
            info: clone_opt(&old_c.info),
            state: owned(old_c.state.as_str()),
            command_started: old_c.command_started,
        };
        self.replace_at(pos, c);
    }

    /// Records that connection `id` started `command` at `now` (nothing when absent).
    pub fn set_command(&mut self, id: u64, command: &str, info: Option<&str>, now: u64)
        ensures
            old(self)@.contains_key(id) ==> final(self)@ == old(self)@.insert(
                id,
                (old(self)@[id].0, old(self)@[id].1, old(self)@[id].2, command@, match info {
                    Some(t) => Some(t@),
                    None => None,
                }, old(self)@[id].5, now),
            ),
            !old(self)@.contains_key(id) ==> final(self)@ == old(self)@,
    {
        proof {
            use_type_invariant(&*self);
            lemma_conns_map(self.conns@);
        }
        let (pos, found) = self.position(id);
        if !found {
            return;
        }
        let old_c = &self.conns[pos];
        let c = ConnectionInfo {
            id: old_c.id,
            user: owned(old_c.user.as_str()),
            host: owned(old_c.host.as_str()),
            database: owned(old_c.database.as_str()),
            command: owned(command),
            info: match info {
                Some(t) => Some(owned(t)),
                None => None,
            },
            state: owned(old_c.state.as_str()),
            command_started: now,
        };
        self.replace_at(pos, c);
    }

    /// Records that connection `id` went idle at `now` (nothing when absent).
    pub fn set_sleep(&mut self, id: u64, now: u64)
        ensures
            old(self)@.contains_key(id) ==> final(self)@ == old(self)@.insert(
                id,
                (old(self)@[id].0, old(self)@[id].1, old(self)@[id].2, "Sleep"@, None, Seq::<char>::empty(), now),
            ),
            !old(self)@.contains_key(id) ==> final(self)@ == old(self)@,
    {
        proof {
            use_type_invariant(&*self);
            lemma_conns_map(self.conns@);
        }
        let (pos, found) = self.position(id);
        if !found {
            return;
        }
        let old_c = &self.conns[pos];
        let c = ConnectionInfo {
            id: old_c.id,
            user: owned(old_c.user.as_str()),
            host: owned(old_c.host.as_str()),
            database: owned(old_c.database.as_str()),
            command: owned("Sleep"),
            info: None,
            state: String::new(),
            command_started: now,
        };
        self.replace_at(pos, c);
    }

    /// The process list at clock reading `now`, by increasing id.
    pub fn snapshot(&self, now: u64) -> (r: Vec<ProcessListRow>)
        ensures
            forall|i: int, j: int| 0 <= i < j < r@.len() ==> #[trigger] r@[i].id < #[trigger] r@[j].id,
            forall|i: int| 0 <= i < r@.len() ==> self@.contains_key(#[trigger] r@[i].id) && row_view(r@[i]) == row_of(r@[i].id, self@[r@[i].id], now),
            forall|id: u64| #[trigger] self@.contains_key(id) ==> exists|i: int| 0 <= i < r@.len() && r@[i].id == id,
    {
        proof {
            use_type_invariant(self);
            lemma_conns_map(self.conns@);
        }
        let mut rows: Vec<ProcessListRow> = Vec::new();
        let mut i: usize = 0;
        while i < self.conns.len()
            invariant
                i <= self.conns@.len(),
                rows@.len() == i,
                ids_increasing(self.conns@),
                forall|k: int| 0 <= k < self.conns@.len() ==> #[trigger] conns_map(self.conns@)[self.conns@[k].id] == conn_view(self.conns@[k]),
                forall|k: int| 0 <= k < i ==> (#[trigger] rows@[k]).id == self.conns@[k].id && row_view(rows@[k]) == row_of(self.conns@[k].id, conn_view(self.conns@[k]), now),
            decreases self.conns@.len() - i,
        {
            rows.push(to_row(&self.conns[i], now));
            i = i + 1;
        }
        proof {
            assert forall|a: int, b: int| 0 <= a < b < rows@.len() implies #[trigger] rows@[a].id < #[trigger] rows@[b].id by {
                assert(self.conns@[a].id < self.conns@[b].id);
            }
            assert forall|a: int| 0 <= a < rows@.len() implies self@.contains_key(#[trigger] rows@[a].id) && row_view(rows@[a]) == row_of(rows@[a].id, self@[rows@[a].id], now) by {
                assert(conns_map(self.conns@)[self.conns@[a].id] == conn_view(self.conns@[a]));
            }
            assert forall|id: u64| #[trigger] self@.contains_key(id) implies exists|a: int| 0 <= a < rows@.len() && rows@[a].id == id by {
                let k = choose|k: int| 0 <= k < self.conns@.len() && self.conns@[k].id == id;
                assert(rows@[k].id == id);
            }
        }
        rows
    }

    /// The row of connection `id` at clock reading `now`.
    pub fn current(&self, id: u64, now: u64) -> (r: Option<ProcessListRow>)
        ensures
            r matches Some(row) ==> self@.contains_key(id) && row_view(row) == row_of(id, self@[id], now),
            r is None ==> !self@.contains_key(id),
    {
        proof {
            use_type_invariant(self);
            lemma_conns_map(self.conns@);
        }
        let (pos, found) = self.position(id);
        if !found {
            proof {
                if self@.contains_key(id) {
                    let i = choose|i: int| 0 <= i < self.conns@.len() && self.conns@[i].id == id;
                }
            }
            return None;
        }
        proof {
            assert(conns_map(self.conns@)[self.conns@[pos as int].id] == conn_view(self.conns@[pos as int]));
        }
        Some(to_row(&self.conns[pos], now))
    }
}

} // verus!
