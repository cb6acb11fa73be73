//! Session-scoped named advisory locks (`GET_LOCK` / `RELEASE_LOCK`).
use vstd::prelude::*;
use vstd::utf8::encode_utf8;
use crate::text::{owned, str_eq};

verus! {

/// MySQL's user-lock name limit, in bytes.
pub const USER_LOCK_NAME_MAX_BYTES: usize = 64;

/// Result of `GET_LOCK(name, timeout)`.
#[derive(Debug, Clone, Copy, PartialEq, Eq)]
pub enum GetLockResult {
    /// Acquired, or already held by this session (SQL `1`).
    Acquired,
    /// Held by another session (SQL `0`).
    Timeout,
    /// Name longer than 64 bytes.
    NameTooLong,
}

/// Result of `RELEASE_LOCK(name)`.
#[derive(Debug, Clone, Copy, PartialEq, Eq)]
pub enum ReleaseLockResult {
    /// This session held the name and it is now free (SQL `1`).
    Released,
    /// Another session holds the name (SQL `0`).
    NotHolder,
    /// Nobody holds the name (SQL NULL).
    NotExists,
    /// Name longer than 64 bytes.
    NameTooLong,
}

/// Named user locks and the session holding each.
#[derive(Debug)]
pub struct UserLockRegistry {
    holders: Vec<(String, u64)>,
}

/// The (name, holder) entries as plain values.
pub open spec fn entries_view(v: Seq<(String, u64)>) -> Seq<(Seq<char>, u64)> {
    Seq::new(v.len(), |i: int| (v[i].0@, v[i].1))
}

/// The holder of each name in a list of entries (a later entry for a name overriding).
pub open spec fn holders_map(e: Seq<(Seq<char>, u64)>) -> Map<Seq<char>, u64>
    decreases e.len(),
{
    if e.len() == 0 {
        Map::empty()
    } else {
        holders_map(e.drop_last()).insert(e.last().0, e.last().1)
    }
}

/// No name occurs twice.
pub open spec fn distinct_names(e: Seq<(Seq<char>, u64)>) -> bool {
    forall|i: int, j: int| 0 <= i < j < e.len() ==> #[trigger] e[i].0 != #[trigger] e[j].0
}

/// Whether a lock name is over the byte limit.
pub open spec fn name_too_long(name: Seq<char>) -> bool {
    encode_utf8(name).len() > 64
}

/// `GET_LOCK`: the holders afterwards and the result.
pub open spec fn get_lock_spec(m: Map<Seq<char>, u64>, session: u64, name: Seq<char>) -> (
    Map<Seq<char>, u64>,
    GetLockResult,
) {
    if name_too_long(name) {
        (m, GetLockResult::NameTooLong)
    } else if m.contains_key(name) {
        (m, if m[name] == session {
            GetLockResult::Acquired
        } else {
            GetLockResult::Timeout
        })
    } else {
        (m.insert(name, session), GetLockResult::Acquired)
    }
}

/// `RELEASE_LOCK`: the holders afterwards and the result.
pub open spec fn release_lock_spec(m: Map<Seq<char>, u64>, session: u64, name: Seq<char>) -> (
    Map<Seq<char>, u64>,
    ReleaseLockResult,
) {
    if name_too_long(name) {
        (m, ReleaseLockResult::NameTooLong)
    } else if !m.contains_key(name) {
        (m, ReleaseLockResult::NotExists)
    } else if m[name] != session {
        (m, ReleaseLockResult::NotHolder)
    } else {
        (m.remove(name), ReleaseLockResult::Released)
    }
}

/// The holders once every name of `session` is released.
pub open spec fn release_all_spec(m: Map<Seq<char>, u64>, session: u64) -> Map<Seq<char>, u64> {
    Map::new(|k: Seq<char>| m.contains_key(k) && m[k] != session, |k: Seq<char>| m[k])
}

impl View for UserLockRegistry {
    type V = Map<Seq<char>, u64>;

    closed spec fn view(&self) -> Map<Seq<char>, u64> {
        holders_map(entries_view(self.holders@))
    }
}

proof fn lemma_map_contains(e: Seq<(Seq<char>, u64)>, k: Seq<char>)
    ensures
        holders_map(e).contains_key(k) <==> exists|i: int| 0 <= i < e.len() && e[i].0 == k,
    decreases e.len(),
{
    if e.len() > 0 {
        lemma_map_contains(e.drop_last(), k);
        if holders_map(e).contains_key(k) && e.last().0 != k {
            let i = choose|i: int| 0 <= i < e.drop_last().len() && e.drop_last()[i].0 == k;
            assert(e[i].0 == k);
        }
        if exists|i: int| 0 <= i < e.len() && e[i].0 == k {
            let i = choose|i: int| 0 <= i < e.len() && e[i].0 == k;
            if i < e.len() - 1 {
                assert(e.drop_last()[i].0 == k);
            }
        }
    }
}

proof fn lemma_map_value(e: Seq<(Seq<char>, u64)>, i: int)
    requires
        distinct_names(e),
        0 <= i < e.len(),
    ensures
        holders_map(e).contains_key(e[i].0),
        holders_map(e)[e[i].0] == e[i].1,
    decreases e.len(),
{
    if i < e.len() - 1 {
        assert(e.drop_last()[i] == e[i]);
        lemma_map_value(e.drop_last(), i);
        assert(e.last().0 != e[i].0);
    }
}

proof fn lemma_map_remove(e: Seq<(Seq<char>, u64)>, i: int)
    requires
        distinct_names(e),
        0 <= i < e.len(),
    ensures
        holders_map(e.remove(i)) == holders_map(e).remove(e[i].0),
        distinct_names(e.remove(i)),
    decreases e.len(),
{
    if i == e.len() - 1 {
        assert(e.remove(i) =~= e.drop_last());
        lemma_map_contains(e.drop_last(), e[i].0);
        assert(!holders_map(e.drop_last()).contains_key(e[i].0));
        assert(holders_map(e).remove(e[i].0) =~= holders_map(e.drop_last()));
    } else {
        let d = e.drop_last();
        lemma_map_remove(d, i);
        assert(e.remove(i) =~= d.remove(i).push(e.last()));
        assert(e.remove(i).drop_last() =~= d.remove(i));
        assert(e.last().0 != e[i].0);
        assert(holders_map(e.remove(i)) =~= holders_map(e).remove(e[i].0));
    }
}

/// Entries whose holder is not `session`, in order.
pub open spec fn kept_entries(e: Seq<(Seq<char>, u64)>, session: u64) -> Seq<(Seq<char>, u64)>
    decreases e.len(),
{
    if e.len() == 0 {
        e
    } else if e.last().1 == session {
        kept_entries(e.drop_last(), session)
    } else {
        kept_entries(e.drop_last(), session).push(e.last())
    }
}

proof fn lemma_kept(e: Seq<(Seq<char>, u64)>, session: u64)
    requires
        distinct_names(e),
    ensures
        holders_map(kept_entries(e, session)) == release_all_spec(holders_map(e), session),
        distinct_names(kept_entries(e, session)),
        forall|k: Seq<char>|
            #![trigger holders_map(kept_entries(e, session)).contains_key(k)]
            holders_map(kept_entries(e, session)).contains_key(k) ==> holders_map(e).contains_key(
                k,
            ),
    decreases e.len(),
{
    if e.len() > 0 {
        let d = e.drop_last();
        lemma_kept(d, session);
        lemma_map_contains(d, e.last().0);
        assert forall|j: int| 0 <= j < d.len() implies d[j].0 != e.last().0 by {
            assert(e[j] == d[j]);
        }
        if e.last().1 != session {
            let kd = kept_entries(d, session);
            assert(!holders_map(kd).contains_key(e.last().0));
            lemma_map_contains(kd, e.last().0);
            assert forall|i: int, j: int|
                0 <= i < j < kd.push(e.last()).len() implies #[trigger] kd.push(e.last())[i].0
                != #[trigger] kd.push(e.last())[j].0 by {
                if j == kd.len() {
                    assert(kd.push(e.last())[i] == kd[i]);
                }
            }
            assert(kd.push(e.last()).drop_last() =~= kd);
        }
        assert(holders_map(kept_entries(e, session)) =~= release_all_spec(holders_map(e), session));
    } else {
        assert(holders_map(kept_entries(e, session)) =~= release_all_spec(holders_map(e), session));
    }
}

impl UserLockRegistry {
    /// The entries hold each name once.
    #[verifier::type_invariant]
    spec fn inv(self) -> bool {
        distinct_names(entries_view(self.holders@))
    }

    /// An empty registry.
    pub fn new() -> (r: Self)
        ensures
            r@ == Map::<Seq<char>, u64>::empty(),
    {
        let r = UserLockRegistry { holders: Vec::new() };
        proof {
            assert(entries_view(r.holders@) =~= Seq::<(Seq<char>, u64)>::empty());
        }
        r
    }

    fn index_of(&self, name: &str) -> (r: Option<usize>)
        ensures
            match r {
                Some(i) => i < self.holders@.len() && self.holders@[i as int].0@ == name@,
                None => !self@.contains_key(name@),
            },
    {
        proof {
            use_type_invariant(self);
        }
        let mut i: usize = 0;
        while i < self.holders.len()
            invariant
                i <= self.holders@.len(),
                forall|j: int| 0 <= j < i ==> self.holders@[j].0@ != name@,
            decreases self.holders@.len() - i,
        {
            if str_eq(self.holders[i].0.as_str(), name) {
                return Some(i);
            }
            i = i + 1;
        }
        proof {
            lemma_map_contains(entries_view(self.holders@), name@);
            if self@.contains_key(name@) {
                let j = choose|j: int|
                    0 <= j < entries_view(self.holders@).len() && entries_view(self.holders@)[j].0
                        == name@;
                assert(self.holders@[j].0@ == name@);
            }
        }
        None
    }

    /// Tries to acquire `name` for `session_id` without waiting; the same session re-acquiring
    /// gets `Acquired` again, without nesting.
    pub fn get_lock(&mut self, session_id: u64, name: &str) -> (r: GetLockResult)
        ensures
            (final(self)@, r) == get_lock_spec(old(self)@, session_id, name@),
    {
        proof {
            use_type_invariant(&*self);
        }
        if name.as_bytes().len() > USER_LOCK_NAME_MAX_BYTES {
            return GetLockResult::NameTooLong;
        }
        match self.index_of(name) {
            Some(i) => {
                proof {
                    lemma_map_value(entries_view(self.holders@), i as int);
                }
                if self.holders[i].1 == session_id {
                    GetLockResult::Acquired
                } else {
                    GetLockResult::Timeout
                }
            },
            None => {
                let ghost e = entries_view(self.holders@);
                proof {
                    lemma_map_contains(e, name@);
                }
                let mut h: Vec<(String, u64)> = Vec::new();
                std::mem::swap(&mut h, &mut self.holders);
                h.push((owned(name), session_id));
                proof {
                    assert(entries_view(h@) =~= e.push((name@, session_id)));
                    assert(entries_view(h@).drop_last() =~= e);
                    assert forall|a: int, b: int|
                        0 <= a < b < entries_view(h@).len() implies #[trigger] entries_view(h@)[a].0
                        != #[trigger] entries_view(h@)[b].0 by {
                        if b == e.len() {
                            assert(entries_view(h@)[a] == e[a]);
                        } else {
                            assert(entries_view(h@)[a] == e[a]);
                            assert(entries_view(h@)[b] == e[b]);
                        }
                    }
                }
                self.holders = h;
                GetLockResult::Acquired
            },
        }
    }

    /// Releases `name` if this session holds it.
    pub fn release_lock(&mut self, session_id: u64, name: &str) -> (r: ReleaseLockResult)
        ensures
            (final(self)@, r) == release_lock_spec(old(self)@, session_id, name@),
    {
        proof {
            use_type_invariant(&*self);
        }
        if name.as_bytes().len() > USER_LOCK_NAME_MAX_BYTES {
            return ReleaseLockResult::NameTooLong;
        }
        match self.index_of(name) {
            None => ReleaseLockResult::NotExists,
            Some(i) => {
                let ghost e = entries_view(self.holders@);
                proof {
                    lemma_map_value(e, i as int);
                }
                if self.holders[i].1 != session_id {
                    return ReleaseLockResult::NotHolder;
                }
                proof {
                    lemma_map_remove(e, i as int);
                }
                let mut h: Vec<(String, u64)> = Vec::new();
                std::mem::swap(&mut h, &mut self.holders);
                h.remove(i);
                proof {
                    assert(entries_view(h@) =~= e.remove(i as int));
                }
                self.holders = h;
                ReleaseLockResult::Released
            },
        }
    }

    /// Releases every name held by `session_id` (disconnect, reset, change of user).
    pub fn release_all(&mut self, session_id: u64)
        ensures
            final(self)@ == release_all_spec(old(self)@, session_id),
    {
        proof {
            use_type_invariant(&*self);
        }
        let ghost e = entries_view(self.holders@);
        let mut kept: Vec<(String, u64)> = Vec::new();
        let mut i: usize = 0;
        proof {
            assert(e.take(0) =~= Seq::<(Seq<char>, u64)>::empty());
            assert(entries_view(kept@) =~= kept_entries(e.take(0), session_id));
        }
        while i < self.holders.len()
            invariant
                i <= self.holders@.len(),
                e == entries_view(self.holders@),
                entries_view(kept@) == kept_entries(e.take(i as int), session_id),
            decreases self.holders@.len() - i,
        {
            proof {
                assert(e.take(i + 1).drop_last() =~= e.take(i as int));
            }
            if self.holders[i].1 != session_id {
                let entry = (owned(self.holders[i].0.as_str()), self.holders[i].1);
                let ghost before = entries_view(kept@);
                kept.push(entry);
                proof {
                    assert(entries_view(kept@) =~= before.push(e[i as int]));
                }
            }
            i = i + 1;
        }
        proof {
            assert(e.take(i as int) =~= e);
            lemma_kept(e, session_id);
        }
        self.holders = kept;
    }
}

/// Acquiring a free name and releasing it by the same session leaves the registry as it was.
pub proof fn lemma_get_then_release(m: Map<Seq<char>, u64>, session: u64, name: Seq<char>)
    requires
        !m.contains_key(name),
        !name_too_long(name),
    ensures
        get_lock_spec(m, session, name).1 == GetLockResult::Acquired,
        release_lock_spec(get_lock_spec(m, session, name).0, session, name) == (
            m,
            ReleaseLockResult::Released,
        ),
{
    assert(m.insert(name, session).remove(name) =~= m);
}

/// A name held by one session is refused to every other: `GET_LOCK` times out and
/// `RELEASE_LOCK` answers `NotHolder`, and neither changes the registry.
pub proof fn lemma_exclusive(m: Map<Seq<char>, u64>, holder: u64, other: u64, name: Seq<char>)
    requires
        m.contains_key(name),
        m[name] == holder,
        holder != other,
        !name_too_long(name),
    ensures
        get_lock_spec(m, other, name) == (m, GetLockResult::Timeout),
        release_lock_spec(m, other, name) == (m, ReleaseLockResult::NotHolder),
{
}

/// After `release_all`, the session holds no name and every other holder is unchanged.
pub proof fn lemma_release_all(m: Map<Seq<char>, u64>, session: u64, name: Seq<char>)
    ensures
        release_all_spec(m, session).contains_key(name) ==> release_all_spec(m, session)[name]
            != session,
        m.contains_key(name) && m[name] != session ==> release_all_spec(m, session).contains_key(
            name,
        ) && release_all_spec(m, session)[name] == m[name],
{
}

} // verus!
