//! Stored procedures, functions and triggers metadata.
use vstd::prelude::*;
use crate::messages::{
    function_exists, function_not_found, lookup_spec, procedure_exists, procedure_not_found,
    replace_seq, trigger_exists, trigger_not_found, MessageCatalog,
};
use crate::name_map::NameMap;
use crate::text::{eq_ignore_ascii_case, eq_ignore_case_seq, str_chars, str_eq, string_from_chars};

verus! {

/// When a trigger fires.
#[derive(Debug, Clone, Copy, PartialEq, Eq, Structural)]
pub enum TriggerTiming {
    Before,
    After,
}

/// The statement that fires a trigger.
#[derive(Debug, Clone, Copy, PartialEq, Eq, Structural)]
pub enum TriggerEvent {
    Insert,
    Update,
    Delete,
}

/// A stored function.
#[derive(Debug, Clone, PartialEq, Eq)]
pub struct FunctionMeta {
    pub schema: String,
    pub name: String,
    pub return_type: String,
    pub return_expr: String,
}

/// A stored procedure.
#[derive(Debug, Clone, PartialEq, Eq)]
pub struct ProcedureMeta {
    pub schema: String,
    pub name: String,
    pub body: Vec<String>,
}

/// A trigger.
#[derive(Debug, Clone, PartialEq, Eq)]
pub struct TriggerMeta {
    pub schema: String,
    pub table: String,
    pub name: String,
    pub timing: TriggerTiming,
    pub event: TriggerEvent,
    pub body: Vec<String>,
}

/// `schema.name`.
pub open spec fn program_key_spec(schema: Seq<char>, name: Seq<char>) -> Seq<char> {
    schema + "."@ + name
}

/// `schema.table.name`.
pub open spec fn trigger_key_spec(schema: Seq<char>, table: Seq<char>, name: Seq<char>) -> Seq<char> {
    schema + "."@ + table + "."@ + name
}

fn push_str(out: &mut Vec<char>, s: &str)
    ensures
        final(out)@ == old(out)@ + s@,
{
    let c = str_chars(s);
    let mut i: usize = 0;
    while i < c.len()
        invariant
            i <= c@.len(),
            c@ == s@,
            out@ == old(out)@ + c@.take(i as int),
        decreases c@.len() - i,
    {
        out.push(c[i]);
        i = i + 1;
        proof {
            assert(out@ =~= old(out)@ + c@.take(i as int));
        }
    }
    proof {
        assert(c@.take(i as int) =~= c@);
    }
}

/// The key of a stored program: `schema.name`.
pub fn program_key(schema: &str, name: &str) -> (r: String)
    ensures
        r@ == program_key_spec(schema@, name@),
{
    let mut out: Vec<char> = Vec::new();
    push_str(&mut out, schema);
    push_str(&mut out, ".");
    push_str(&mut out, name);
    string_from_chars(out.as_slice())
}

/// The key of a trigger: `schema.table.name`.
pub fn trigger_key(schema: &str, table: &str, name: &str) -> (r: String)
    ensures
        r@ == trigger_key_spec(schema@, table@, name@),
{
    let mut out: Vec<char> = Vec::new();
    push_str(&mut out, schema);
    push_str(&mut out, ".");
    push_str(&mut out, table);
    push_str(&mut out, ".");
    push_str(&mut out, name);
    string_from_chars(out.as_slice())
}

/// Stored programs, each under its key.
#[derive(Debug)]
pub struct ProgramStore {
    pub procedures: NameMap<ProcedureMeta>,
    pub triggers: NameMap<TriggerMeta>,
    pub functions: NameMap<FunctionMeta>,
}

/// A message with `%{name}` filled in.
pub open spec fn named_message(cat: Seq<(Seq<char>, Seq<char>)>, key: Seq<char>, name: Seq<char>) -> Seq<char> {
    replace_seq(lookup_spec(cat, key), "%{name}"@, name)
}

impl ProgramStore {
    /// An empty store.
    pub fn new() -> (r: Self)
        ensures
            r.procedures@ == Map::<Seq<char>, ProcedureMeta>::empty(),
            r.triggers@ == Map::<Seq<char>, TriggerMeta>::empty(),
            r.functions@ == Map::<Seq<char>, FunctionMeta>::empty(),
    {
        ProgramStore { procedures: NameMap::new(), triggers: NameMap::new(), functions: NameMap::new() }
    }

    /// Adds a procedure; an error when its key is taken.
    pub fn create_procedure(&mut self, cat: &MessageCatalog, meta: ProcedureMeta) -> (r: Result<(), String>)
        ensures
            final(self).triggers@ == old(self).triggers@,
            final(self).functions@ == old(self).functions@,
            ({
                let key = program_key_spec(meta.schema@, meta.name@);
                if old(self).procedures@.contains_key(key) {
                    &&& final(self).procedures@ == old(self).procedures@
                    &&& r matches Err(m) && m@ == named_message(cat@, "programs.procedure_exists"@, meta.name@)
                } else {
                    &&& final(self).procedures@ == old(self).procedures@.insert(key, meta)
                    &&& r is Ok
                }
            }),
    {
        let key = program_key(meta.schema.as_str(), meta.name.as_str());
        if self.procedures.contains_key(key.as_str()) {
            return Err(procedure_exists(cat, meta.name.as_str()));
        }
        self.procedures.insert(key, meta);
        Ok(())
    }

    /// Removes a procedure; an error when there is none.
    pub fn drop_procedure(&mut self, cat: &MessageCatalog, schema: &str, name: &str) -> (r: Result<(), String>)
        ensures
            final(self).triggers@ == old(self).triggers@,
            final(self).functions@ == old(self).functions@,
            final(self).procedures@ == old(self).procedures@.remove(program_key_spec(schema@, name@)),
            old(self).procedures@.contains_key(program_key_spec(schema@, name@)) ==> r is Ok,
            !old(self).procedures@.contains_key(program_key_spec(schema@, name@)) ==> (r matches Err(m)
                && m@ == named_message(cat@, "programs.procedure_not_found"@, name@)),
    {
        let key = program_key(schema, name);
        if !self.procedures.contains_key(key.as_str()) {
            proof {
                assert(old(self).procedures@.remove(key@) =~= old(self).procedures@);
            }
            return Err(procedure_not_found(cat, name));
        }
        self.procedures.remove(key.as_str());
        Ok(())
    }

    /// The procedure `schema.name`.
    pub fn get_procedure(&self, schema: &str, name: &str) -> (r: Option<&ProcedureMeta>)
        ensures
            r matches Some(p) ==> self.procedures@.contains_key(program_key_spec(schema@, name@))
                && *p == self.procedures@[program_key_spec(schema@, name@)],
            r is None ==> !self.procedures@.contains_key(program_key_spec(schema@, name@)),
    {
        let key = program_key(schema, name);
        self.procedures.get(key.as_str())
    }

    /// Adds a function; an error when its key is taken.
    pub fn create_function(&mut self, cat: &MessageCatalog, meta: FunctionMeta) -> (r: Result<(), String>)
        ensures
            final(self).triggers@ == old(self).triggers@,
            final(self).procedures@ == old(self).procedures@,
            ({
                let key = program_key_spec(meta.schema@, meta.name@);
                if old(self).functions@.contains_key(key) {
                    &&& final(self).functions@ == old(self).functions@
                    &&& r matches Err(m) && m@ == named_message(cat@, "programs.function_exists"@, meta.name@)
                } else {
                    &&& final(self).functions@ == old(self).functions@.insert(key, meta)
                    &&& r is Ok
                }
            }),
    {
        let key = program_key(meta.schema.as_str(), meta.name.as_str());
        if self.functions.contains_key(key.as_str()) {
            return Err(function_exists(cat, meta.name.as_str()));
        }
        self.functions.insert(key, meta);
        Ok(())
    }

    /// Removes a function; an error when there is none.
    pub fn drop_function(&mut self, cat: &MessageCatalog, schema: &str, name: &str) -> (r: Result<(), String>)
        ensures
            final(self).triggers@ == old(self).triggers@,
            final(self).procedures@ == old(self).procedures@,
            final(self).functions@ == old(self).functions@.remove(program_key_spec(schema@, name@)),
            old(self).functions@.contains_key(program_key_spec(schema@, name@)) ==> r is Ok,
            !old(self).functions@.contains_key(program_key_spec(schema@, name@)) ==> (r matches Err(m)
                && m@ == named_message(cat@, "programs.function_not_found"@, name@)),
    {
        let key = program_key(schema, name);
        if !self.functions.contains_key(key.as_str()) {
            proof {
                assert(old(self).functions@.remove(key@) =~= old(self).functions@);
            }
            return Err(function_not_found(cat, name));
        }
        self.functions.remove(key.as_str());
        Ok(())
    }

    /// The function `schema.name`.
    pub fn get_function(&self, schema: &str, name: &str) -> (r: Option<&FunctionMeta>)
        ensures
            r matches Some(p) ==> self.functions@.contains_key(program_key_spec(schema@, name@))
                && *p == self.functions@[program_key_spec(schema@, name@)],
            r is None ==> !self.functions@.contains_key(program_key_spec(schema@, name@)),
    {
        let key = program_key(schema, name);
        self.functions.get(key.as_str())
    }

    /// Adds a trigger; an error when its key is taken.
    pub fn create_trigger(&mut self, cat: &MessageCatalog, meta: TriggerMeta) -> (r: Result<(), String>)
        ensures
            final(self).procedures@ == old(self).procedures@,
            final(self).functions@ == old(self).functions@,
            ({
                let key = trigger_key_spec(meta.schema@, meta.table@, meta.name@);
                if old(self).triggers@.contains_key(key) {
                    &&& final(self).triggers@ == old(self).triggers@
                    &&& r matches Err(m) && m@ == named_message(cat@, "programs.trigger_exists"@, meta.name@)
                } else {
                    &&& final(self).triggers@ == old(self).triggers@.insert(key, meta)
                    &&& r is Ok
                }
            }),
    {
        let key = trigger_key(meta.schema.as_str(), meta.table.as_str(), meta.name.as_str());
        if self.triggers.contains_key(key.as_str()) {
            return Err(trigger_exists(cat, meta.name.as_str()));
        }
        self.triggers.insert(key, meta);
        Ok(())
    }

    /// Removes a trigger of `schema` named `name` (any ASCII case); an error when there is
    /// none. Which one goes when several match is not fixed.
    pub fn drop_trigger_by_name(&mut self, cat: &MessageCatalog, schema: &str, name: &str) -> (r: Result<(), String>)
        ensures
            final(self).procedures@ == old(self).procedures@,
            final(self).functions@ == old(self).functions@,
            (exists|k: Seq<char>| #[trigger] old(self).triggers@.contains_key(k) && old(self).triggers@[k].schema@ == schema@
                && eq_ignore_case_seq(old(self).triggers@[k].name@, name@)) ==> {
                &&& r is Ok
                &&& exists|k: Seq<char>| #[trigger] old(self).triggers@.contains_key(k)
                    && old(self).triggers@[k].schema@ == schema@ && eq_ignore_case_seq(
                    old(self).triggers@[k].name@,
                    name@,
                ) && final(self).triggers@ == old(self).triggers@.remove(k)
            },
            !(exists|k: Seq<char>| #[trigger] old(self).triggers@.contains_key(k) && old(self).triggers@[k].schema@ == schema@
                && eq_ignore_case_seq(old(self).triggers@[k].name@, name@)) ==> {
                &&& final(self).triggers@ == old(self).triggers@
                &&& r matches Err(m) && m@ == named_message(cat@, "programs.trigger_not_found"@, name@)
            },
    {
        let keys = self.triggers.keys();
        let values = self.triggers.values();
        let mut i: usize = 0;
        while i < values.len()
            invariant
                i <= values@.len(),
                self.procedures@ == old(self).procedures@,
                self.functions@ == old(self).functions@,
                self.triggers == old(self).triggers,
                values@.len() == keys@.len() == self.triggers.names().len(),
                self.triggers.names().to_set() == self.triggers@.dom(),
                forall|j: int| 0 <= j < keys@.len() ==> (#[trigger] keys@[j])@ == self.triggers.names()[j],
                forall|j: int| 0 <= j < values@.len() ==> *(#[trigger] values@[j]) == self.triggers@[self.triggers.names()[j]],
                forall|j: int| 0 <= j < i ==> !(values@[j].schema@ == schema@ && eq_ignore_case_seq(values@[j].name@, name@)),
            decreases values@.len() - i,
        {
            let t = values[i];
            if str_eq(t.schema.as_str(), schema) && eq_ignore_ascii_case(t.name.as_str(), name) {
                let key = &keys[i];
                proof {
                    assert(self.triggers.names().contains(self.triggers.names()[i as int]));
                    assert(self.triggers@.contains_key(key@));
                }
                self.triggers.remove(key.as_str());
                return Ok(());
            }
            i = i + 1;
        }
        proof {
            assert forall|k: Seq<char>| #[trigger] self.triggers@.contains_key(k) implies !(self.triggers@[k].schema@ == schema@
                && eq_ignore_case_seq(self.triggers@[k].name@, name@)) by {
                assert(self.triggers.names().to_set().contains(k));
                let j = choose|j: int| 0 <= j < self.triggers.names().len() && self.triggers.names()[j] == k;
                assert(*values@[j] == self.triggers@[k]);
            }
        }
        Err(trigger_not_found(cat, name))
    }
}

} // verus!
