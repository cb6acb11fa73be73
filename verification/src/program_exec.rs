//! Running `BEFORE INSERT` triggers on a row, and deciding whether a scheduled event is due.
use vstd::prelude::*;
use crate::catalog::{texts, trigger_fires, EventMeta, Session, TableMeta};
use crate::messages::{lookup_spec, replace_seq, unsupported_program_body, MessageCatalog};
use crate::programs::{TriggerEvent, TriggerMeta, TriggerTiming};
use crate::results::{ExecError, Row};
use crate::sorting::{str_less, text_less};
use crate::text::{
    ascii_lower, char_ascii_lower, ascii_upper_seq, eq_ignore_ascii_case, eq_ignore_case_seq, owned, starts_with,
    starts_with_seq, str_chars, string_from_chars, sub_chars, to_ascii_uppercase, trim, trim_seq,
};
use crate::timestamps::{add_interval_spec, add_schedule_interval};
use crate::types::{find_char, find_char_from};

verus! {

/// The message for a trigger statement that is not supported.
pub open spec fn unsupported_msg(cat: MessageCatalog, stmt: Seq<char>) -> Seq<char> {
    replace_seq(lookup_spec(cat@, "programs.unsupported_body"@), "%{detail}"@, stmt)
}

/// A single quote character alone, which the quote stripping cannot take apart.
pub open spec fn lone_quote(v: Seq<char>) -> bool {
    v.len() == 1 && (v[0] == '\'' || v[0] == '"')
}

/// `v` without one pair of matching surrounding quotes.
pub open spec fn strip_quotes_spec(v: Seq<char>) -> Seq<char> {
    if v.len() >= 2 && ((v[0] == '\'' && v.last() == '\'') || (v[0] == '"' && v.last() == '"')) {
        v.subrange(1, v.len() - 1)
    } else {
        v
    }
}

/// Drops one pair of matching surrounding quotes.
fn strip_quotes(value: &str) -> (r: String)
    requires
        !lone_quote(value@),
    ensures
        r@ == strip_quotes_spec(value@),
{
    let v = str_chars(value);
    let n = v.len();
    if n >= 2 && ((v[0] == '\'' && v[n - 1] == '\'') || (v[0] == '"' && v[n - 1] == '"')) {
        let inner = sub_chars(&v, 1, n - 1);
        string_from_chars(inner.as_slice())
    } else {
        owned(value)
    }
}

/// Index of the first column named `col` (any ASCII case).
pub open spec fn column_position(cols: Seq<crate::catalog::ColumnDef>, col: Seq<char>, i: int) -> Option<int>
    decreases cols.len() - i,
{
    if i < 0 || i >= cols.len() {
        None
    } else if eq_ignore_case_seq(cols[i].name@, col) {
        Some(i)
    } else {
        column_position(cols, col, i + 1)
    }
}

/// What a trigger statement does to a row.
pub enum SetOutcome {
    /// The row after the assignment.
    Assigned(Seq<Seq<char>>),
    /// The statement fails with this message.
    Failed(Seq<char>),
    /// The statement cannot be carried out (a lone quote as the value).
    Panics,
}

/// `SET NEW.col = value` on `row`: the text after `SET` up to the first `=` must start with
/// `NEW.` (as written), the value loses one pair of surrounding quotes, and the column is found
/// by name in any ASCII case.
pub open spec fn set_new_spec(cat: MessageCatalog, stmt: Seq<char>, meta: TableMeta, row: Seq<Seq<char>>) -> SetOutcome {
    let rest = trim_seq(stmt.skip(4));
    match find_char_from(rest, '=', 0) {
        None => SetOutcome::Failed(unsupported_msg(cat, stmt)),
        Some(k) => {
            let left = trim_seq(rest.take(k));
            let right = trim_seq(rest.skip(k + 1));
            if !starts_with_seq(left, "NEW."@) {
                SetOutcome::Failed(unsupported_msg(cat, stmt))
            } else if lone_quote(right) {
                SetOutcome::Panics
            } else {
                let col = left.skip(4);
                match column_position(meta.columns@, col, 0) {
                    None => SetOutcome::Failed("column '"@ + col + "' not found"@),
                    Some(idx) => if idx >= row.len() {
                        SetOutcome::Failed("column index out of range"@)
                    } else {
                        SetOutcome::Assigned(row.update(idx, strip_quotes_spec(right)))
                    },
                }
            }
        },
    }
}

/// One statement of a `BEFORE INSERT` trigger: only `SET NEW.…` is supported.
pub open spec fn stmt_step(cat: MessageCatalog, meta: TableMeta, row: Seq<Seq<char>>, stmt: Seq<char>) -> SetOutcome {
    if starts_with_seq(ascii_upper_seq(stmt), "SET NEW."@) {
        set_new_spec(cat, stmt, meta, row)
    } else {
        SetOutcome::Failed(unsupported_msg(cat, stmt))
    }
}

/// Whether a trigger statement cannot be carried out.
pub open spec fn stmt_panics(stmt: Seq<char>) -> bool {
    let rest = trim_seq(stmt.skip(4));
    starts_with_seq(ascii_upper_seq(stmt), "SET NEW."@) && match find_char_from(rest, '=', 0) {
        None => false,
        Some(k) => starts_with_seq(trim_seq(rest.take(k)), "NEW."@) && lone_quote(
            trim_seq(rest.skip(k + 1)),
        ),
    }
}

/// Running statements in order on `row`: the row reached, the first error, and whether a
/// statement could not be carried out; the run stops at the first error.
pub open spec fn run_stmts(cat: MessageCatalog, meta: TableMeta, row: Seq<Seq<char>>, stmts: Seq<Seq<char>>) -> (Seq<Seq<char>>, Option<Seq<char>>, bool)
    decreases stmts.len(),
{
    if stmts.len() == 0 {
        (row, None, false)
    } else {
        let prev = run_stmts(cat, meta, row, stmts.drop_last());
        if prev.1 is Some || prev.2 {
            prev
        } else {
            match stmt_step(cat, meta, prev.0, stmts.last()) {
                SetOutcome::Assigned(r) => (r, None, false),
                SetOutcome::Failed(m) => (prev.0, Some(m), false),
                SetOutcome::Panics => (prev.0, None, true),
            }
        }
    }
}

/// The statements of the triggers, trigger by trigger.
pub open spec fn bodies(ts: Seq<TriggerMeta>) -> Seq<Seq<char>>
    decreases ts.len(),
{
    if ts.len() == 0 {
        Seq::empty()
    } else {
        bodies(ts.drop_last()) + texts(ts.last().body@)
    }
}

/// Once a run has stopped, later statements change nothing.
pub proof fn lemma_run_stopped(
    cat: MessageCatalog,
    meta: TableMeta,
    row: Seq<Seq<char>>,
    p: Seq<Seq<char>>,
    q: Seq<Seq<char>>,
)
    requires
        run_stmts(cat, meta, row, p).1 is Some || run_stmts(cat, meta, row, p).2,
    ensures
        run_stmts(cat, meta, row, p + q) == run_stmts(cat, meta, row, p),
    decreases q.len(),
{
    if q.len() == 0 {
        assert(p + q =~= p);
    } else {
        lemma_run_stopped(cat, meta, row, p, q.drop_last());
        assert((p + q).drop_last() =~= p + q.drop_last());
    }
}

/// The statements of a list of triggers split where the list is split.
pub proof fn lemma_bodies_split(ts: Seq<TriggerMeta>, m: int)
    requires
        0 <= m <= ts.len(),
    ensures
        bodies(ts) == bodies(ts.take(m)) + bodies(ts.skip(m)),
    decreases ts.len(),
{
    if m == ts.len() {
        assert(ts.take(m) =~= ts);
        assert(ts.skip(m) =~= Seq::<TriggerMeta>::empty());
        assert(bodies(ts) + Seq::<Seq<char>>::empty() =~= bodies(ts));
    } else {
        lemma_bodies_split(ts.drop_last(), m);
        assert(ts.drop_last().take(m) =~= ts.take(m));
        assert(ts.skip(m).drop_last() =~= ts.drop_last().skip(m));
        assert(ts.skip(m).last() == ts.last());
        assert(bodies(ts) =~= bodies(ts.take(m)) + bodies(ts.skip(m)));
    }
}

/// A run that stops at the `j`-th statement of the `ti`-th trigger gives the outcome of the
/// whole list.
pub proof fn lemma_stopped_at(
    cat: MessageCatalog,
    meta: TableMeta,
    row: Seq<Seq<char>>,
    ts: Seq<TriggerMeta>,
    ti: int,
    j: int,
)
    requires
        0 <= ti < ts.len(),
        0 <= j < ts[ti].body@.len(),
        ({
            let p = bodies(ts.take(ti)) + texts(ts[ti].body@).take(j + 1);
            run_stmts(cat, meta, row, p).1 is Some || run_stmts(cat, meta, row, p).2
        }),
    ensures
        run_stmts(cat, meta, row, bodies(ts)) == run_stmts(
            cat,
            meta,
            row,
            bodies(ts.take(ti)) + texts(ts[ti].body@).take(j + 1),
        ),
{
    let b = texts(ts[ti].body@);
    let p = bodies(ts.take(ti)) + b.take(j + 1);
    lemma_bodies_split(ts, ti + 1);
    assert(ts.take(ti + 1).drop_last() =~= ts.take(ti));
    assert(ts.take(ti + 1).last() == ts[ti]);
    let q = b.skip(j + 1) + bodies(ts.skip(ti + 1));
    assert(bodies(ts) =~= p + q);
    lemma_run_stopped(cat, meta, row, p, q);
}

/// `ts` holds, once each in some order, the triggers of `m` that fire on `table` of `schema`
/// at `timing` for `event`.
pub open spec fn lists_firing(
    m: Map<Seq<char>, TriggerMeta>,
    ts: Seq<TriggerMeta>,
    schema: Seq<char>,
    table: Seq<char>,
    timing: TriggerTiming,
    event: TriggerEvent,
) -> bool {
    exists|ks: Seq<Seq<char>>|
        #![trigger ks.len()]
        ks.no_duplicates() && ks.len() == ts.len() && (forall|i: int|
            0 <= i < ts.len() ==> m.contains_key(#[trigger] ks[i]) && ts[i] == m[ks[i]])
            && (forall|k: Seq<char>|
            #[trigger] m.contains_key(k) && trigger_fires(m[k], schema, table, timing, event)
                ==> ks.contains(k)) && (forall|i: int|
            0 <= i < ts.len() ==> trigger_fires(#[trigger] ts[i], schema, table, timing, event))
}

/// The row changed by one statement.
fn apply_set_new(cat: &MessageCatalog, stmt: &str, meta: &TableMeta, row: &mut Row) -> (r: Result<(), ExecError>)
    requires
        starts_with_seq(ascii_upper_seq(stmt@), "SET NEW."@),
        !stmt_panics(stmt@),
    ensures
        match set_new_spec(*cat, stmt@, *meta, texts(old(row)@)) {
            SetOutcome::Assigned(nr) => r is Ok && texts(final(row)@) == nr,
            SetOutcome::Failed(m) => r matches Err(ExecError::Message(e)) && e@ == m
                && final(row)@ == old(row)@,
            SetOutcome::Panics => false,
        },
{
    proof {
        reveal_strlit("SET NEW.");
        reveal_strlit("NEW.");
    }
    let v = str_chars(stmt);
    assert(v@.len() >= 8);
    let tail = sub_chars(&v, 4, v.len());
    proof {
        assert(tail@ =~= stmt@.skip(4));
    }
    let tail_text = string_from_chars(tail.as_slice());
    let rest = trim(tail_text.as_str());
    let rv = str_chars(rest.as_str());
    let k = match find_char(&rv, '=') {
        None => {
            return Err(ExecError::Message(unsupported_program_body(cat, stmt)));
        },
        Some(k) => k,
    };
    let left_chars = sub_chars(&rv, 0, k);
    let right_chars = sub_chars(&rv, k + 1, rv.len());
    proof {
        assert(left_chars@ =~= rv@.take(k as int));
        assert(right_chars@ =~= rv@.skip(k + 1));
    }
    let left_text = string_from_chars(left_chars.as_slice());
    let right_text = string_from_chars(right_chars.as_slice());
    let left = trim(left_text.as_str());
    let right = trim(right_text.as_str());
    if !starts_with(left.as_str(), "NEW.") {
        return Err(ExecError::Message(unsupported_program_body(cat, stmt)));
    }
    proof {
        assert(!lone_quote(right@));
    }
    let value = strip_quotes(right.as_str());
    let lv = str_chars(left.as_str());
    let col_chars = sub_chars(&lv, 4, lv.len());
    proof {
        assert(col_chars@ =~= left@.skip(4));
    }
    let col = string_from_chars(col_chars.as_slice());
    let mut i: usize = 0;
    while i < meta.columns.len() && !eq_ignore_ascii_case(meta.columns[i].name.as_str(), col.as_str())
        invariant
            i <= meta.columns@.len(),
            column_position(meta.columns@, col@, 0) == column_position(meta.columns@, col@, i as int),
        decreases meta.columns@.len() - i,
    {
        i = i + 1;
    }
    if i == meta.columns.len() {
        let mut msg: Vec<char> = Vec::new();
        crate::executor::push_str(&mut msg, "column '");
        crate::executor::push_str(&mut msg, col.as_str());
        crate::executor::push_str(&mut msg, "' not found");
        return Err(ExecError::Message(string_from_chars(msg.as_slice())));
    }
    assert(column_position(meta.columns@, col@, 0) == Some(i as int));
    if i >= row.len() {
        return Err(ExecError::Message(owned("column index out of range")));
    }
    row.set(i, value);
    proof {
        assert(texts(row@) =~= texts(old(row)@).update(i as int, strip_quotes_spec(right@)));
    }
    Ok(())
}

/// Runs the `BEFORE INSERT` triggers of `meta`'s table on `row`: each `SET NEW.col = value`
/// assigns to the row; the first unsupported or failing statement stops the run with its
/// error, leaving the assignments made before it.
pub fn apply_before_insert_triggers(
    cat: &MessageCatalog,
    session: &Session,
    _table: &str,
    meta: &TableMeta,
    row: &mut Row,
) -> (r: Result<(), ExecError>)
    requires
        forall|k: Seq<char>|
            #[trigger] session.catalog.triggers_view().contains_key(k) && trigger_fires(
                session.catalog.triggers_view()[k],
                meta.schema@,
                meta.name@,
                TriggerTiming::Before,
                TriggerEvent::Insert,
            ) ==> forall|j: int|
                0 <= j < session.catalog.triggers_view()[k].body@.len() ==> !stmt_panics(
                    #[trigger] session.catalog.triggers_view()[k].body@[j]@,
                ),
    ensures
        exists|ts: Seq<TriggerMeta>|
            #![trigger ts.len()]
            lists_firing(
                session.catalog.triggers_view(),
                ts,
                meta.schema@,
                meta.name@,
                TriggerTiming::Before,
                TriggerEvent::Insert,
            ) && texts(final(row)@) == run_stmts(*cat, *meta, texts(old(row)@), bodies(ts)).0
                && match r {
                Ok(()) => run_stmts(*cat, *meta, texts(old(row)@), bodies(ts)).1 is None,
                Err(e) => run_stmts(*cat, *meta, texts(old(row)@), bodies(ts)).1 matches Some(m)
                    && e matches ExecError::Message(s) && s@ == m,
            },
{
    let ghost tv = session.catalog.triggers_view();
    let triggers = session.catalog.triggers_for_table(
        meta.schema.as_str(),
        meta.name.as_str(),
        TriggerTiming::Before,
        TriggerEvent::Insert,
    );
    let ghost ts = Seq::new(triggers@.len(), |i: int| *triggers@[i]);
    let ghost row0 = texts(row@);
    proof {
        let ks = choose|ks: Seq<Seq<char>>|
            #[trigger] crate::catalog::firing_listed(
                tv,
                ks,
                triggers@,
                meta.schema@,
                meta.name@,
                TriggerTiming::Before,
                TriggerEvent::Insert,
            );
        assert(ks.len() == ts.len());
        assert(lists_firing(
            tv,
            ts,
            meta.schema@,
            meta.name@,
            TriggerTiming::Before,
            TriggerEvent::Insert,
        ));
        assert forall|i: int, jj: int| 0 <= i < ts.len() && 0 <= jj < ts[i].body@.len() implies !stmt_panics(
            #[trigger] ts[i].body@[jj]@,
        ) by {
            assert(tv.contains_key(ks[i]) && ts[i] == tv[ks[i]]);
        }
        assert(ts.take(0) =~= Seq::<TriggerMeta>::empty());
    }
    let mut ti: usize = 0;
    while ti < triggers.len()
        invariant
            ti <= triggers@.len(),
            ts == Seq::new(triggers@.len(), |i: int| *triggers@[i]),
            tv == session.catalog.triggers_view(),
            forall|i: int, jj: int|
                0 <= i < ts.len() && 0 <= jj < ts[i].body@.len() ==> !stmt_panics(
                    #[trigger] ts[i].body@[jj]@,
                ),
            run_stmts(*cat, *meta, row0, bodies(ts.take(ti as int))) == (texts(row@), None::<Seq<char>>, false),
            row0 == texts(old(row)@),
            lists_firing(
                tv,
                ts,
                meta.schema@,
                meta.name@,
                TriggerTiming::Before,
                TriggerEvent::Insert,
            ),
        decreases triggers@.len() - ti,
    {
        let t = triggers[ti];
        let ghost before = bodies(ts.take(ti as int));
        let mut j: usize = 0;
        proof {
            assert(texts(t.body@).take(0) =~= Seq::<Seq<char>>::empty());
            assert(before + texts(t.body@).take(0) =~= before);
        }
        while j < t.body.len()
            invariant
                j <= t.body@.len(),
                *t == ts[ti as int],
                ti < ts.len(),
                before == bodies(ts.take(ti as int)),
                forall|jj: int| 0 <= jj < t.body@.len() ==> !stmt_panics(#[trigger] t.body@[jj]@),
                run_stmts(*cat, *meta, row0, before + texts(t.body@).take(j as int)) == (texts(row@), None::<Seq<char>>, false),
                row0 == texts(old(row)@),
                tv == session.catalog.triggers_view(),
                lists_firing(
                    tv,
                    ts,
                    meta.schema@,
                    meta.name@,
                    TriggerTiming::Before,
                    TriggerEvent::Insert,
                ),
            decreases t.body@.len() - j,
        {
            let stmt = &t.body[j];
            let ghost cur = before + texts(t.body@).take(j as int);
            let ghost next = before + texts(t.body@).take(j + 1);
            proof {
                assert(next.drop_last() =~= cur);
                assert(next.last() == stmt@);
            }
            let upper = to_ascii_uppercase(stmt.as_str());
            if starts_with(upper.as_str(), "SET NEW.") {
                proof {
                    assert(t.body@[j as int]@ == stmt@);
                }
                match apply_set_new(cat, stmt.as_str(), meta, row) {
                    Ok(()) => {},
                    Err(e) => {
                        proof {
                            lemma_stopped_at(*cat, *meta, row0, ts, ti as int, j as int);
                        }
                        return Err(e);
                    },
                }
            } else {
                let msg = unsupported_program_body(cat, stmt.as_str());
                proof {
                    lemma_stopped_at(*cat, *meta, row0, ts, ti as int, j as int);
                }
                return Err(ExecError::Message(msg));
            }
            j = j + 1;
        }
        proof {
            assert(texts(t.body@).take(j as int) =~= texts(t.body@));
            assert(ts.take(ti + 1).drop_last() =~= ts.take(ti as int));
        }
        ti = ti + 1;
    }
    proof {
        assert(ts.take(ti as int) =~= ts);
    }
    Ok(())
}

/// Whether `a` comes no later than `b` in code-point order.
pub open spec fn text_le(a: Seq<char>, b: Seq<char>) -> bool {
    !text_less(b, a)
}

/// Whether an event is due at the stamp `now`: it must be `ENABLED`; a `ONE TIME` event is due
/// once its `AT` stamp has come; a `RECURRING` one inside its `STARTS` / `ENDS` window when it
/// never ran or its last run plus the interval has come. Stamps compare as text.
pub open spec fn event_due(e: EventMeta, now: Seq<char>) -> bool {
    if !eq_ignore_case_seq(e.status@, "ENABLED"@) {
        false
    } else if eq_ignore_case_seq(e.schedule_type@, "ONE TIME"@) {
        match e.execute_at {
            Some(at) => text_le(at@, now),
            None => false,
        }
    } else if !eq_ignore_case_seq(e.schedule_type@, "RECURRING"@) {
        false
    } else if (e.starts matches Some(s) && text_less(now, s@)) {
        false
    } else if (e.ends matches Some(x) && text_less(x@, now)) {
        false
    } else {
        match (e.interval_value, e.interval_field) {
            (Some(v), Some(f)) => match e.last_executed {
                None => true,
                Some(last) => match add_interval_spec(last@, v@, f@) {
                    Some(next) => text_le(next, now),
                    None => false,
                },
            },
            _ => false,
        }
    }
}

/// Whether an event is due at the stamp `now` (`YYYY-MM-DD HH:MM:SS`).
pub fn event_is_due(meta: &EventMeta, now: &str) -> (r: bool)
    ensures
        r == event_due(*meta, now@),
{
    if !eq_ignore_ascii_case(meta.status.as_str(), "ENABLED") {
        return false;
    }
    if eq_ignore_ascii_case(meta.schedule_type.as_str(), "ONE TIME") {
        return match &meta.execute_at {
            Some(at) => !str_less(now, at.as_str()),
            None => false,
        };
    }
    if !eq_ignore_ascii_case(meta.schedule_type.as_str(), "RECURRING") {
        return false;
    }
    match &meta.starts {
        Some(s) => {
            if str_less(now, s.as_str()) {
                return false;
            }
        },
        None => {},
    }
    match &meta.ends {
        Some(x) => {
            if str_less(x.as_str(), now) {
                return false;
            }
        },
        None => {},
    }
    let value = match &meta.interval_value {
        Some(v) => v,
        None => {
            return false;
        },
    };
    let field = match &meta.interval_field {
        Some(f) => f,
        None => {
            return false;
        },
    };
    match &meta.last_executed {
        None => true,
        Some(last) => match add_schedule_interval(last.as_str(), value.as_str(), field.as_str()) {
            Some(next) => !str_less(now, next.as_str()),
            None => false,
        },
    }
}


/// `value` with each single quote doubled.
pub open spec fn double_quotes(value: Seq<char>) -> Seq<char>
    decreases value.len(),
{
    if value.len() == 0 {
        value
    } else if value.last() == '\'' {
        double_quotes(value.drop_last()) + seq!['\'', '\'']
    } else {
        double_quotes(value.drop_last()).push(value.last())
    }
}

/// `value` as an SQL string literal: in single quotes, inner single quotes doubled.
pub open spec fn quote_sql_spec(value: Seq<char>) -> Seq<char> {
    seq!['\''] + double_quotes(value) + seq!['\'']
}

/// Quotes `value` as an SQL string literal.
pub fn quote_sql_string(value: &str) -> (r: String)
    ensures
        r@ == quote_sql_spec(value@),
{
    let v = str_chars(value);
    let mut out: Vec<char> = Vec::new();
    out.push('\'');
    let mut i: usize = 0;
    proof {
        assert(v@.take(0) =~= Seq::<char>::empty());
        assert(out@ =~= seq!['\''] + double_quotes(v@.take(0)));
    }
    while i < v.len()
        invariant
            i <= v@.len(),
            v@ == value@,
            out@ == seq!['\''] + double_quotes(v@.take(i as int)),
        decreases v@.len() - i,
    {
        proof {
            assert(v@.take(i + 1).drop_last() =~= v@.take(i as int));
            assert(v@.take(i + 1).last() == v@[i as int]);
        }
        if v[i] == '\'' {
            out.push('\'');
            out.push('\'');
        } else {
            out.push(v[i]);
        }
        proof {
            assert(out@ =~= seq!['\''] + double_quotes(v@.take(i + 1)));
        }
        i = i + 1;
    }
    proof {
        assert(v@.take(i as int) =~= v@);
    }
    out.push('\'');
    proof {
        assert(out@ =~= quote_sql_spec(value@));
    }
    string_from_chars(out.as_slice())
}

/// `s` with every occurrence of `pat` (compared without ASCII case) replaced by `rep`,
/// scanning left to right and resuming after each replacement.
pub open spec fn replace_scan(s: Seq<char>, pat: Seq<char>, rep: Seq<char>) -> Seq<char>
    decreases s.len(),
{
    if pat.len() == 0 || s.len() < pat.len() {
        s
    } else if eq_ignore_case_seq(s.take(pat.len() as int), pat) {
        rep + replace_scan(s.skip(pat.len() as int), pat, rep)
    } else {
        seq![s[0]] + replace_scan(s.skip(1), pat, rep)
    }
}

/// Whether `s[i..i + p.len()]` equals `p` but for ASCII case.
fn window_matches(s: &Vec<char>, i: usize, p: &Vec<char>) -> (r: bool)
    requires
        i + p@.len() <= s@.len(),
    ensures
        r == eq_ignore_case_seq(s@.subrange(i as int, i + p@.len()), p@),
{
    let mut j: usize = 0;
    while j < p.len()
        invariant
            j <= p@.len(),
            i + p@.len() <= s@.len(),
            forall|k: int| 0 <= k < j ==> ascii_lower(#[trigger] s@[i + k]) == ascii_lower(p@[k]),
        decreases p@.len() - j,
    {
        let n = s.len();
        proof {
            assert(i + j < n);
        }
        if char_ascii_lower(s[i + j]) != char_ascii_lower(p[j]) {
            proof {
                assert(s@.subrange(i as int, i + p@.len())[j as int] == s@[i + j]);
            }
            return false;
        }
        j = j + 1;
    }
    proof {
        assert forall|k: int| 0 <= k < p@.len() implies ascii_lower(#[trigger] s@.subrange(i as int, i + p@.len())[k]) == ascii_lower(p@[k]) by {
            assert(s@.subrange(i as int, i + p@.len())[k] == s@[i + k]);
        }
    }
    true
}

/// Replaces each `prefix.column` in `out` (any ASCII case) by `replacement`, scanning left to
/// right and resuming after each replacement.
pub fn replace_row_ref(out: &mut String, prefix: &str, column: &str, replacement: &str)
    ensures
        final(out)@ == replace_scan(old(out)@, prefix@ + seq!['.'] + column@, replacement@),
{
    let s = str_chars(out.as_str());
    let mut pat = str_chars(prefix);
    pat.push('.');
    let col = str_chars(column);
    let mut k: usize = 0;
    while k < col.len()
        invariant
            k <= col@.len(),
            pat@ == prefix@ + seq!['.'] + col@.take(k as int),
        decreases col@.len() - k,
    {
        pat.push(col[k]);
        proof {
            assert(col@.take(k + 1) =~= col@.take(k as int).push(col@[k as int]));
        }
        k = k + 1;
    }
    proof {
        assert(col@.take(k as int) =~= column@);
    }
    let rep = str_chars(replacement);
    let ghost p = pat@;
    let mut res: Vec<char> = Vec::new();
    let mut i: usize = 0;
    proof {
        assert(s@.skip(0) =~= s@);
    }
    while i < s.len()
        invariant
            i <= s@.len(),
            p == pat@,
            p.len() > 0,
            rep@ == replacement@,
            res@ + replace_scan(s@.skip(i as int), p, rep@) == replace_scan(s@, p, rep@),
        decreases s@.len() - i,
    {
        let ghost rest = s@.skip(i as int);
        if pat.len() <= s.len() - i && window_matches(&s, i, &pat) {
            proof {
                assert(rest.take(p.len() as int) =~= s@.subrange(i as int, i + p.len()));
                assert(rest.skip(p.len() as int) =~= s@.skip(i + p.len()));
                assert(replace_scan(rest, p, rep@) == rep@ + replace_scan(s@.skip(i + p.len()), p, rep@));
            }
            let mut j: usize = 0;
            let ghost before = res@;
            while j < rep.len()
                invariant
                    j <= rep@.len(),
                    res@ == before + rep@.take(j as int),
                decreases rep@.len() - j,
            {
                res.push(rep[j]);
                proof {
                    assert(rep@.take(j + 1) =~= rep@.take(j as int).push(rep@[j as int]));
                }
                j = j + 1;
            }
            proof {
                assert(rep@.take(j as int) =~= rep@);
                assert(res@ + replace_scan(s@.skip(i + p.len()), p, rep@) =~= before + (rep@ + replace_scan(s@.skip(i + p.len()), p, rep@)));
            }
            i = i + pat.len();
        } else if pat.len() > s.len() - i {
            proof {
                assert(replace_scan(rest, p, rep@) == rest);
            }
            let mut j = i;
            let ghost before = res@;
            while j < s.len()
                invariant
                    i <= j <= s@.len(),
                    res@ == before + s@.subrange(i as int, j as int),
                decreases s@.len() - j,
            {
                res.push(s[j]);
                proof {
                    assert(s@.subrange(i as int, j + 1) =~= s@.subrange(i as int, j as int).push(s@[j as int]));
                }
                j = j + 1;
            }
            proof {
                assert(s@.subrange(i as int, j as int) =~= rest);
                assert(s@.skip(j as int) =~= Seq::<char>::empty());
                assert(replace_scan(Seq::<char>::empty(), p, rep@) =~= Seq::<char>::empty());
                assert(res@ + replace_scan(s@.skip(j as int), p, rep@) =~= before + rest);
            }
            i = j;
        } else {
            proof {
                assert(rest.take(p.len() as int) =~= s@.subrange(i as int, i + p.len()));
                assert(rest.skip(1) =~= s@.skip(i + 1));
                assert(replace_scan(rest, p, rep@) == seq![s@[i as int]] + replace_scan(s@.skip(i + 1), p, rep@));
            }
            let ghost before = res@;
            res.push(s[i]);
            proof {
                assert(res@ + replace_scan(s@.skip(i + 1), p, rep@) =~= before + (seq![s@[i as int]] + replace_scan(s@.skip(i + 1), p, rep@)));
            }
            i = i + 1;
        }
    }
    proof {
        assert(s@.skip(i as int) =~= Seq::<char>::empty());
        assert(res@ =~= replace_scan(s@, p, rep@));
    }
    *out = string_from_chars(res.as_slice());
}

/// Cell `i` of `row`, empty past its end.
pub open spec fn cell_or_empty(row: Seq<String>, i: int) -> Seq<char> {
    if 0 <= i < row.len() {
        row[i]@
    } else {
        Seq::empty()
    }
}

/// `stmt` after the `OLD.c` / `NEW.c` references of the first `k` columns were replaced by
/// the quoted cells of the old and new rows, column after column.
pub open spec fn substituted(
    stmt: Seq<char>,
    cols: Seq<crate::catalog::ColumnDef>,
    old_row: Seq<String>,
    new_row: Option<Seq<String>>,
    k: int,
) -> Seq<char>
    decreases k,
{
    if k <= 0 {
        stmt
    } else {
        let prev = substituted(stmt, cols, old_row, new_row, k - 1);
        let name = cols[k - 1].name@;
        let with_old = replace_scan(prev, "OLD"@ + seq!['.'] + name, quote_sql_spec(cell_or_empty(old_row, k - 1)));
        match new_row {
            Some(nr) => replace_scan(with_old, "NEW"@ + seq!['.'] + name, quote_sql_spec(cell_or_empty(nr, k - 1))),
            None => with_old,
        }
    }
}

/// Substitutes the `OLD.c` and `NEW.c` references of a trigger statement by the quoted
/// values of the old and (when given) new row, column by column.
pub fn substitute_old_new(stmt: &str, meta: &TableMeta, old_row: &Row, new_row: Option<&Row>) -> (r: Result<String, ExecError>)
    ensures
        r matches Ok(s) && s@ == substituted(
            stmt@,
            meta.columns@,
            old_row@,
            match new_row {
                Some(nr) => Some(nr@),
                None => None,
            },
            meta.columns@.len() as int,
        ),
{
    let ghost nv: Option<Seq<String>> = match new_row {
        Some(nr) => Some(nr@),
        None => None,
    };
    let mut out = owned(stmt);
    let mut idx: usize = 0;
    while idx < meta.columns.len()
        invariant
            idx <= meta.columns@.len(),
            nv == (match new_row { Some(nr) => Some(nr@), None => None::<Seq<String>> }),
            out@ == substituted(stmt@, meta.columns@, old_row@, nv, idx as int),
        decreases meta.columns@.len() - idx,
    {
        let col = &meta.columns[idx];
        let old_val: &str = if idx < old_row.len() { old_row[idx].as_str() } else { "" };
        proof {
            reveal_strlit("");
            assert(old_val@ == cell_or_empty(old_row@, idx as int));
        }
        let q = quote_sql_string(old_val);
        replace_row_ref(&mut out, "OLD", col.name.as_str(), q.as_str());
        match new_row {
            Some(nr) => {
                let new_val: &str = if idx < nr.len() { nr[idx].as_str() } else { "" };
                proof {
                    reveal_strlit("");
                    assert(new_val@ == cell_or_empty(nr@, idx as int));
                }
                let qn = quote_sql_string(new_val);
                replace_row_ref(&mut out, "NEW", col.name.as_str(), qn.as_str());
            },
            None => {},
        }
        idx = idx + 1;
    }
    Ok(out)
}
} // verus!
