//! Column type names: base type, `information_schema` name, display form and the normalized
//! form stored in the catalog.
use vstd::prelude::*;
use crate::text::{
    spec_to_lowercase, spec_to_uppercase, str_chars, string_from_chars, sub_chars, to_lowercase,
    to_uppercase, trim, trim_seq,
};

verus! {

/// Index of the first `c` in `s` at or after `i`.
pub open spec fn find_char_from(s: Seq<char>, c: char, i: int) -> Option<int>
    decreases s.len() - i,
{
    if i < 0 || i >= s.len() {
        None
    } else if s[i] == c {
        Some(i)
    } else {
        find_char_from(s, c, i + 1)
    }
}

/// The characters of `s` before its first `c` (all of them when there is none).
pub open spec fn before_char(s: Seq<char>, c: char) -> Seq<char> {
    match find_char_from(s, c, 0) {
        Some(k) => s.take(k),
        None => s,
    }
}

/// Index of the first `c` in `v`.
pub fn find_char(v: &Vec<char>, c: char) -> (r: Option<usize>)
    ensures
        r matches Some(k) ==> find_char_from(v@, c, 0) == Some(k as int) && k < v@.len(),
        r is None ==> find_char_from(v@, c, 0) is None,
{
    let mut i: usize = 0;
    while i < v.len()
        invariant
            i <= v@.len(),
            find_char_from(v@, c, 0) == find_char_from(v@, c, i as int),
        decreases v@.len() - i,
    {
        if v[i] == c {
            return Some(i);
        }
        i = i + 1;
    }
    None
}

/// The base type of a column type: before any `(`, trimmed, upper-cased.
pub open spec fn type_base_spec(data_type: Seq<char>) -> Seq<char> {
    spec_to_uppercase(trim_seq(before_char(trim_seq(data_type), '(')))
}

/// Base type name without length or precision (upper case).
pub fn type_base(data_type: &str) -> (r: String)
    ensures
        r@ == type_base_spec(data_type@),
{
    let t = trim(data_type);
    let cs = str_chars(t.as_str());
    let found = find_char(&cs, '(');
    let head = match found {
        Some(k) => {
            let h = sub_chars(&cs, 0, k);
            proof {
                assert(find_char_from(cs@, '(', 0) == Some(k as int));
                assert(h@ =~= cs@.take(k as int));
            }
            h
        },
        None => cs,
    };
    proof {
        assert(cs@ == t@);
        assert(head@ =~= before_char(t@, '('));
    }
    let head_s = string_from_chars(head.as_slice());
    let base = trim(head_s.as_str());
    to_uppercase(base.as_str())
}

/// `information_schema.COLUMNS.DATA_TYPE`: the base type in lower case.
pub fn data_type_name(data_type: &str) -> (r: String)
    ensures
        r@ == spec_to_lowercase(type_base_spec(data_type@)),
{
    let base = type_base(data_type);
    to_lowercase(base.as_str())
}

/// `DESCRIBE` / `COLUMN_TYPE` display: trimmed, lower case, parameters kept.
pub fn column_type_display(data_type: &str) -> (r: String)
    ensures
        r@ == spec_to_lowercase(trim_seq(data_type@)),
{
    let t = trim(data_type);
    to_lowercase(t.as_str())
}

/// The stored form of a column type: its base type, then the parameters from the first `(`
/// on as written; an empty (all-space) type stays empty.
pub open spec fn normalize_column_type_spec(raw: Seq<char>) -> Seq<char> {
    let t = trim_seq(raw);
    if t.len() == 0 {
        t
    } else {
        type_base_spec(t) + match find_char_from(t, '(', 0) {
            Some(k) => t.skip(k),
            None => Seq::empty(),
        }
    }
}

/// Normalizes a type string from `CREATE TABLE` for catalog storage.
pub fn normalize_column_type(raw: &str) -> (r: String)
    ensures
        r@ == normalize_column_type_spec(raw@),
{
    let trimmed = trim(raw);
    if trimmed.as_str().is_empty() {
        return trimmed;
    }
    let base = type_base(trimmed.as_str());
    let cs = str_chars(trimmed.as_str());
    let mut out = str_chars(base.as_str());
    match find_char(&cs, '(') {
        Some(k) => {
            let ghost b0 = out@;
            let mut i = k;
            while i < cs.len()
                invariant
                    k <= i <= cs@.len(),
                    out@ == b0 + cs@.subrange(k as int, i as int),
                decreases cs@.len() - i,
            {
                out.push(cs[i]);
                i = i + 1;
                proof {
                    assert(out@ =~= b0 + cs@.subrange(k as int, i as int));
                }
            }
            proof {
                assert(cs@.subrange(k as int, i as int) =~= cs@.skip(k as int));
            }
        },
        None => {
            proof {
                assert(out@ =~= out@ + Seq::<char>::empty());
            }
        },
    }
    string_from_chars(out.as_slice())
}

} // verus!
