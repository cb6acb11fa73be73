//! SQL string functions on plain text.
use vstd::prelude::*;
use crate::text::{str_chars, string_from_chars, sub_chars};

verus! {

/// MySQL `SUBSTRING(s, pos[, len])` over characters: `pos` counts from 1, or from the end when
/// negative; position 0 or a length of at most 0 gives the empty text; a start before the
/// first character is moved to it, and the end is capped at the text's end.
pub open spec fn substring_spec(s: Seq<char>, pos: int, len: Option<int>) -> Seq<char> {
    let n = s.len() as int;
    if (len matches Some(l) && l <= 0) || pos == 0 {
        Seq::empty()
    } else {
        let start0 = if pos > 0 { pos - 1 } else { n + pos };
        let start = if start0 < 0 { 0 } else { start0 };
        if start >= n {
            Seq::empty()
        } else {
            let end = match len {
                Some(l) => if start + l < n { start + l } else { n },
                None => n,
            };
            s.subrange(start, end)
        }
    }
}

/// MySQL `SUBSTRING`/`SUBSTR`: 1-based `pos`; negative `pos` counts from the end.
pub fn mysql_substring(s: &str, pos: i64, len: Option<i64>) -> (r: String)
    requires
        s@.len() <= i64::MAX,
    ensures
        r@ == substring_spec(s@, pos as int, match len {
            Some(l) => Some(l as int),
            None => None,
        }),
{
    let chars = str_chars(s);
    let n = chars.len() as i64;
    let empty: Vec<char> = Vec::new();
    if let Some(l) = len {
        if l <= 0 {
            return string_from_chars(empty.as_slice());
        }
    }
    let start = if pos > 0 {
        pos - 1
    } else if pos < 0 {
        n + pos
    } else {
        return string_from_chars(empty.as_slice());
    };
    let start = if start < 0 { 0 } else { start };
    if start >= n {
        return string_from_chars(empty.as_slice());
    }
    let end = match len {
        Some(l) => if l < n - start { start + l } else { n },
        None => n,
    };
    let part = sub_chars(&chars, start as usize, end as usize);
    string_from_chars(part.as_slice())
}

} // verus!
