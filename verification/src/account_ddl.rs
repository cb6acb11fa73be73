//! Parsing `CREATE USER` and `DROP USER` statements (MySQL subset).
use vstd::prelude::*;
use crate::privileges::{Account, AUTH_PLUGIN_CACHING_SHA2, AUTH_PLUGIN_NATIVE};
use crate::text::{
    ascii_upper, ascii_upper_seq, char_ascii_upper, is_whitespace, is_ws, owned, skip_ws,
    starts_with_seq, str_chars, string_from_chars, sub_chars, trim, trim_seq, trim_start_seq,
};

verus! {

/// A parsed account statement.
#[derive(Debug, Clone, PartialEq, Eq)]
pub enum AccountDdl {
    CreateUser { accounts: Vec<Account>, auth_plugin: String, password: String, if_not_exists: bool },
    DropUser { accounts: Vec<Account>, if_exists: bool },
}

/// The outcome of reading a prefix: the value and the rest, no match, or a read that panics
/// (a closing quote that is not ASCII).
pub enum Parsed<T> {
    Done(T, Seq<char>),
    Fail,
    Crash,
}

/// A parsed account statement as plain values.
pub enum DdlView {
    Create(Seq<(Seq<char>, Seq<char>)>, Seq<char>, Seq<char>, bool),
    Drop(Seq<(Seq<char>, Seq<char>)>, bool),
}

/// The accounts as plain values.
pub open spec fn accounts_of(v: Seq<Account>) -> Seq<(Seq<char>, Seq<char>)> {
    Seq::new(v.len(), |i: int| (v[i].user@, v[i].host@))
}

/// A parsed statement as plain values.
pub open spec fn ddl_view(d: AccountDdl) -> DdlView {
    match d {
        AccountDdl::CreateUser { accounts, auth_plugin, password, if_not_exists } => DdlView::Create(
            accounts_of(accounts@),
            auth_plugin@,
            password@,
            if_not_exists,
        ),
        AccountDdl::DropUser { accounts, if_exists } => DdlView::Drop(accounts_of(accounts@), if_exists),
    }
}

/// Reading a quoted literal's body from position `i` (after the opening quote `q`): `\`
/// escapes the next character; the literal ends at the first unescaped character whose low
/// byte is the quote's (which panics when that character is not ASCII).
pub open spec fn quoted_scan(s: Seq<char>, q: char, i: int, escaped: bool, acc: Seq<char>) -> Parsed<Seq<char>>
    decreases s.len() - i,
{
    if i < 0 || i >= s.len() {
        Parsed::Fail
    } else if escaped {
        quoted_scan(s, q, i + 1, false, acc.push(s[i]))
    } else if s[i] == '\\' {
        quoted_scan(s, q, i + 1, true, acc)
    } else if (s[i] as u32) % 256 == q as u32 {
        if (s[i] as u32) < 128 {
            Parsed::Done(acc, s.skip(i + 1))
        } else {
            Parsed::Crash
        }
    } else {
        quoted_scan(s, q, i + 1, false, acc.push(s[i]))
    }
}

/// A single- or double-quoted literal at the start of `s`.
pub open spec fn quoted(s: Seq<char>) -> Parsed<Seq<char>> {
    if s.len() == 0 || (s[0] != '\'' && s[0] != '"') {
        Parsed::Fail
    } else {
        quoted_scan(s, s[0], 1, false, Seq::empty())
    }
}

/// Index of the first white-space character or comma of `s` at or after `i`.
pub open spec fn token_end(s: Seq<char>, i: int) -> int
    decreases s.len() - i,
{
    if i < 0 || i >= s.len() {
        s.len() as int
    } else if is_ws(s[i]) || s[i] == ',' {
        i
    } else {
        token_end(s, i + 1)
    }
}

/// The end of a token lies between its start and the end of the text.
pub proof fn lemma_token_end_bounds(s: Seq<char>, i: int)
    requires
        0 <= i <= s.len(),
    ensures
        i <= token_end(s, i) <= s.len(),
    decreases s.len() - i,
{
    if i < s.len() && !(is_ws(s[i]) || s[i] == ',') {
        lemma_token_end_bounds(s, i + 1);
    }
}

/// A bare token: the characters before the first white space or comma, when there are any.
pub open spec fn bare_token(s: Seq<char>) -> Option<Seq<char>> {
    if token_end(s, 0) == 0 {
        None
    } else {
        Some(s.take(token_end(s, 0)))
    }
}

/// An account literal: a quoted user, then optionally `@` and a quoted or bare host (`%`
/// when there is none).
pub open spec fn account_literal(s: Seq<char>) -> Parsed<(Seq<char>, Seq<char>)> {
    match quoted(s) {
        Parsed::Fail => Parsed::Fail,
        Parsed::Crash => Parsed::Crash,
        Parsed::Done(user, rest0) => {
            let rest = trim_start_seq(rest0);
            if !(rest.len() > 0 && rest[0] == '@') {
                Parsed::Done((user, "%"@), rest)
            } else {
                let r2 = trim_start_seq(rest.skip(1));
                if r2.len() > 0 && (r2[0] == '\'' || r2[0] == '"') {
                    match quoted(r2) {
                        Parsed::Done(host, tail) => Parsed::Done((user, host), tail),
                        Parsed::Fail => Parsed::Fail,
                        Parsed::Crash => Parsed::Crash,
                    }
                } else {
                    match bare_token(r2) {
                        None => Parsed::Fail,
                        Some(host) => Parsed::Done((user, host), r2.skip(host.len() as int)),
                    }
                }
            }
        },
    }
}

/// Dropping leading white space never lengthens a sequence.
pub proof fn lemma_trim_start_len(s: Seq<char>)
    ensures
        trim_start_seq(s).len() <= s.len(),
    decreases s.len(),
{
    if s.len() > 0 && is_ws(s[0]) {
        lemma_trim_start_len(s.drop_first());
    }
}

/// What follows a quoted literal is shorter than the scanned text.
pub proof fn lemma_scan_shorter(s: Seq<char>, q: char, i: int, escaped: bool, acc: Seq<char>)
    requires
        0 <= i,
    ensures
        quoted_scan(s, q, i, escaped, acc) matches Parsed::Done(_, t) ==> t.len() + i < s.len(),
    decreases s.len() - i,
{
    if i < s.len() {
        if escaped {
            lemma_scan_shorter(s, q, i + 1, false, acc.push(s[i]));
        } else if s[i] == '\\' {
            lemma_scan_shorter(s, q, i + 1, true, acc);
        } else if (s[i] as u32) % 256 == q as u32 {
        } else {
            lemma_scan_shorter(s, q, i + 1, false, acc.push(s[i]));
        }
    }
}

/// What follows an account literal is shorter than the literal's text.
pub proof fn lemma_account_literal_shorter(s: Seq<char>)
    ensures
        account_literal(s) matches Parsed::Done(_, t) ==> t.len() < s.len(),
{
    if s.len() > 0 && (s[0] == '\'' || s[0] == '"') {
        lemma_scan_shorter(s, s[0], 1, false, Seq::empty());
        if let Parsed::Done(user, rest0) = quoted(s) {
            let rest = trim_start_seq(rest0);
            lemma_trim_start_len(rest0);
            if rest.len() > 0 && rest[0] == '@' {
                let r2 = trim_start_seq(rest.skip(1));
                lemma_trim_start_len(rest.skip(1));
                if r2.len() > 0 && (r2[0] == '\'' || r2[0] == '"') {
                    lemma_scan_shorter(r2, r2[0], 1, false, Seq::empty());
                } else {
                    lemma_token_end_bounds(r2, 0);
                }
            }
        }
    }
}

/// A comma-separated list of account literals at the start of `s` (no leading white space).
pub open spec fn account_list_from(s: Seq<char>) -> Parsed<Seq<(Seq<char>, Seq<char>)>>
    decreases s.len(),
{
    match account_literal(s) {
        Parsed::Fail => Parsed::Fail,
        Parsed::Crash => Parsed::Crash,
        Parsed::Done(a, tail) => {
            let r1 = trim_start_seq(tail);
            if r1.len() > 0 && r1[0] == ',' {
                let r2 = trim_start_seq(r1.skip(1));
                proof {
                    lemma_account_literal_shorter(s);
                    lemma_trim_start_len(tail);
                    lemma_trim_start_len(r1.skip(1));
                }
                match account_list_from(r2) {
                    Parsed::Done(more, t) => Parsed::Done(seq![a] + more, t),
                    Parsed::Fail => Parsed::Fail,
                    Parsed::Crash => Parsed::Crash,
                }
            } else {
                Parsed::Done(seq![a], r1)
            }
        },
    }
}

/// `BY 'password'` (keyword in any ASCII case).
pub open spec fn by_password(s: Seq<char>) -> Parsed<Seq<char>> {
    if !starts_with_seq(ascii_upper_seq(s), "BY"@) {
        Parsed::Fail
    } else {
        quoted(trim_start_seq(s.skip(2)))
    }
}

/// `plugin BY 'password'`: the two built-in plugins by name (any ASCII case), any other as a
/// bare token.
pub open spec fn plugin_and_password(s: Seq<char>) -> Parsed<(Seq<char>, Seq<char>)> {
    let upper = ascii_upper_seq(s);
    if starts_with_seq(upper, "MYSQL_NATIVE_PASSWORD"@) {
        match by_password(trim_start_seq(s.skip(21))) {
            Parsed::Done(pw, t) => Parsed::Done((AUTH_PLUGIN_NATIVE@, pw), t),
            Parsed::Fail => Parsed::Fail,
            Parsed::Crash => Parsed::Crash,
        }
    } else if starts_with_seq(upper, "CACHING_SHA2_PASSWORD"@) {
        match by_password(trim_start_seq(s.skip(21))) {
            Parsed::Done(pw, t) => Parsed::Done((AUTH_PLUGIN_CACHING_SHA2@, pw), t),
            Parsed::Fail => Parsed::Fail,
            Parsed::Crash => Parsed::Crash,
        }
    } else {
        match bare_token(s) {
            None => Parsed::Fail,
            Some(p) => match by_password(trim_start_seq(s.skip(p.len() as int))) {
                Parsed::Done(pw, t) => Parsed::Done((p, pw), t),
                Parsed::Fail => Parsed::Fail,
                Parsed::Crash => Parsed::Crash,
            },
        }
    }
}

/// Index of the first occurrence of `pat` in `s` at or after `i`.
pub open spec fn find_sub(s: Seq<char>, pat: Seq<char>, i: int) -> Option<int>
    decreases s.len() + 1 - i,
{
    if i < 0 || i + pat.len() > s.len() {
        None
    } else if s.subrange(i, i + pat.len()) == pat {
        Some(i)
    } else {
        find_sub(s, pat, i + 1)
    }
}

/// `CREATE USER [IF NOT EXISTS] accounts IDENTIFIED BY 'pw'` (plugin `caching_sha2_password`)
/// or `... IDENTIFIED WITH plugin BY 'pw'`. `IF NOT EXISTS` is recognized only right after
/// `CREATE USER`, without white space between.
pub open spec fn create_user_spec(sql: Seq<char>) -> Parsed<DdlView> {
    let upper_rest = ascii_upper_seq(sql).skip(11);
    let rest0 = trim_start_seq(sql.skip(11));
    let ine = starts_with_seq(upper_rest, "IF NOT EXISTS"@);
    let rest = if ine {
        trim_start_seq(rest0.skip(13))
    } else {
        rest0
    };
    match account_list_from(trim_start_seq(rest)) {
        Parsed::Fail => Parsed::Fail,
        Parsed::Crash => Parsed::Crash,
        Parsed::Done(accounts, rest2) => {
            let ur = ascii_upper_seq(rest2);
            match find_sub(ur, "IDENTIFIED BY"@, 0) {
                Some(idx) => match quoted(trim_start_seq(rest2.skip(idx + 13))) {
                    Parsed::Done(pw, t) => Parsed::Done(
                        DdlView::Create(accounts, AUTH_PLUGIN_CACHING_SHA2@, pw, ine),
                        t,
                    ),
                    Parsed::Fail => Parsed::Fail,
                    Parsed::Crash => Parsed::Crash,
                },
                None => match find_sub(ur, "IDENTIFIED WITH"@, 0) {
                    Some(idx) => match plugin_and_password(trim_start_seq(rest2.skip(idx + 15))) {
                        Parsed::Done((plugin, pw), t) => Parsed::Done(
                            DdlView::Create(accounts, plugin, pw, ine),
                            t,
                        ),
                        Parsed::Fail => Parsed::Fail,
                        Parsed::Crash => Parsed::Crash,
                    },
                    None => Parsed::Fail,
                },
            }
        },
    }
}

/// `DROP USER [IF EXISTS] accounts` with nothing after the list. `IF EXISTS` is recognized
/// only right after `DROP USER`, without white space between.
pub open spec fn drop_user_spec(sql: Seq<char>) -> Parsed<DdlView> {
    let upper_rest = ascii_upper_seq(sql).skip(9);
    let rest0 = trim_start_seq(sql.skip(9));
    let ie = starts_with_seq(upper_rest, "IF EXISTS"@);
    let rest = if ie {
        trim_start_seq(rest0.skip(9))
    } else {
        rest0
    };
    match account_list_from(trim_start_seq(rest)) {
        Parsed::Fail => Parsed::Fail,
        Parsed::Crash => Parsed::Crash,
        Parsed::Done(accounts, tail) => if trim_seq(tail).len() != 0 {
            Parsed::Fail
        } else {
            Parsed::Done(DdlView::Drop(accounts, ie), tail)
        },
    }
}

/// `s` without trailing `;` characters.
pub open spec fn trim_semicolons(s: Seq<char>) -> Seq<char>
    decreases s.len(),
{
    if s.len() > 0 && s.last() == ';' {
        trim_semicolons(s.drop_last())
    } else {
        s
    }
}

/// Parsing an account statement: trimmed, trailing `;` dropped, then `CREATE USER` or
/// `DROP USER` in any ASCII case.
pub open spec fn ddl_spec(sql: Seq<char>) -> Parsed<DdlView> {
    let t = trim_seq(trim_semicolons(trim_seq(sql)));
    let upper = ascii_upper_seq(t);
    if starts_with_seq(upper, "CREATE USER"@) {
        create_user_spec(t)
    } else if starts_with_seq(upper, "DROP USER"@) {
        drop_user_spec(t)
    } else {
        Parsed::Fail
    }
}


/// `v` with ASCII letters upper-cased.
fn upper_chars(v: &Vec<char>) -> (r: Vec<char>)
    ensures
        r@ == ascii_upper_seq(v@),
{
    let mut r: Vec<char> = Vec::new();
    let mut i: usize = 0;
    while i < v.len()
        invariant
            i <= v@.len(),
            r@ == ascii_upper_seq(v@.subrange(0, i as int)),
        decreases v@.len() - i,
    {
        r.push(char_ascii_upper(v[i]));
        i = i + 1;
        proof {
            assert(ascii_upper_seq(v@.subrange(0, i as int)) =~= r@);
        }
    }
    proof {
        assert(v@.subrange(0, v@.len() as int) =~= v@);
    }
    r
}

/// Whether the characters of `v` from `pos` on begin with `p`.
fn starts_at(v: &Vec<char>, pos: usize, p: &str) -> (r: bool)
    requires
        pos <= v@.len(),
    ensures
        r == starts_with_seq(v@.skip(pos as int), p@),
{
    let pv = str_chars(p);
    let len = v.len();
    if pv.len() > len - pos {
        return false;
    }
    let mut i: usize = 0;
    while i < pv.len()
        invariant
            len == v@.len(),
            pos <= v@.len(),
            i <= pv@.len() <= v@.len() - pos,
            pv@ == p@,
            forall|j: int| 0 <= j < i ==> v@[pos + j] == pv@[j],
        decreases pv@.len() - i,
    {
        if v[pos + i] != pv[i] {
            proof {
                assert(v@.skip(pos as int).subrange(0, pv@.len() as int)[i as int] != pv@[i as int]);
            }
            return false;
        }
        i = i + 1;
    }
    proof {
        assert(v@.skip(pos as int).subrange(0, pv@.len() as int) =~= pv@);
    }
    true
}

/// End of the bare token that starts at `pos`.
fn parse_bare_token(v: &Vec<char>, pos: usize) -> (r: usize)
    requires
        pos <= v@.len(),
    ensures
        pos <= r <= v@.len(),
        r - pos == token_end(v@.skip(pos as int), 0),
{
    let ghost s = v@.skip(pos as int);
    let mut i = pos;
    while i < v.len() && !(is_whitespace(v[i]) || v[i] == ',')
        invariant
            pos <= i <= v@.len(),
            s == v@.skip(pos as int),
            token_end(s, 0) == token_end(s, i - pos),
        decreases v@.len() - i,
    {
        assert(s[i - pos] == v@[i as int]);
        i = i + 1;
    }
    proof {
        if i < v@.len() {
            assert(s[i - pos] == v@[i as int]);
        }
    }
    i
}

/// The body of the quoted literal that starts at `pos`, and the position after it.
fn parse_quoted_literal_with_tail(v: &Vec<char>, pos: usize) -> (r: Option<(Vec<char>, usize)>)
    requires
        pos <= v@.len(),
        !(quoted(v@.skip(pos as int)) is Crash),
    ensures
        match quoted(v@.skip(pos as int)) {
            Parsed::Done(val, rest) => r matches Some((x, p)) && x@ == val && pos < p <= v@.len()
                && v@.skip(p as int) == rest,
            _ => r is None,
        },
{
    if pos >= v.len() {
        return None;
    }
    let q = v[pos];
    if q != '\'' && q != '"' {
        return None;
    }
    let ghost s = v@.skip(pos as int);
    let mut acc: Vec<char> = Vec::new();
    let mut escaped = false;
    let mut i = pos + 1;
    while i < v.len()
        invariant
            pos < i <= v@.len(),
            s == v@.skip(pos as int),
            s.len() > 0,
            q == s[0],
            q == '\'' || q == '"',
            quoted_scan(s, q, i - pos, escaped, acc@) == quoted(s),
            !(quoted(s) is Crash),
        decreases v@.len() - i,
    {
        let c = v[i];
        assert(s[i - pos] == c);
        if escaped {
            acc.push(c);
            escaped = false;
        } else if c == '\\' {
            escaped = true;
        } else if (c as u32) % 256 == (q as u32) {
            if (c as u32) < 128 {
                proof {
                    assert(s.skip(i - pos + 1) =~= v@.skip(i + 1));
                }
                return Some((acc, i + 1));
            } else {
                return None;
            }
        } else {
            acc.push(c);
        }
        i = i + 1;
    }
    None
}

/// Relative index of the first occurrence of `pat` in `v` from `pos` on.
fn find_at(v: &Vec<char>, pos: usize, pat: &str) -> (r: Option<usize>)
    requires
        pos <= v@.len(),
    ensures
        r matches Some(k) ==> find_sub(v@.skip(pos as int), pat@, 0) == Some(k as int) && pos + k
            + pat@.len() <= v@.len(),
        r is None ==> find_sub(v@.skip(pos as int), pat@, 0) is None,
{
    let pv = str_chars(pat);
    let ghost s = v@.skip(pos as int);
    let len = v.len();
    let n = len - pos;
    if pv.len() > n {
        return None;
    }
    let mut i: usize = 0;
    while i <= n - pv.len()
        invariant
            len == v@.len(),
            pos <= v@.len(),
            n == v@.len() - pos,
            s == v@.skip(pos as int),
            pv@ == pat@,
            pv@.len() <= n,
            i <= n,
            find_sub(s, pat@, 0) == find_sub(s, pat@, i as int),
        decreases n + 1 - i,
    {
        let mut j: usize = 0;
        let mut same = true;
        while j < pv.len()
            invariant
                len == v@.len(),
                pos <= v@.len(),
                n == v@.len() - pos,
                i + pv@.len() <= n,
                j <= pv@.len(),
                s == v@.skip(pos as int),
                same == (forall|k: int| 0 <= k < j ==> s[i + k] == pv@[k]),
            decreases pv@.len() - j,
        {
            if v[pos + i + j] != pv[j] {
                same = false;
            }
            proof {
                assert(s[i + j] == v@[pos + i + j]);
            }
            j = j + 1;
        }
        proof {
            if same {
                assert(s.subrange(i as int, i + pv@.len()) =~= pv@);
            } else {
                let k = choose|k: int| 0 <= k < pv@.len() && s[i + k] != pv@[k];
                assert(s.subrange(i as int, i + pv@.len())[k] != pv@[k]);
            }
        }
        if same {
            return Some(i);
        }
        i = i + 1;
    }
    None
}


/// The account literal that starts at `pos`: user, host, and the position after it.
fn parse_account_literal(v: &Vec<char>, pos: usize) -> (r: Option<(String, String, usize)>)
    requires
        pos <= v@.len(),
        !(account_literal(v@.skip(pos as int)) is Crash),
    ensures
        match account_literal(v@.skip(pos as int)) {
            Parsed::Done(a, rest) => r matches Some((u, h, p)) && u@ == a.0 && h@ == a.1 && pos
                < p <= v@.len() && v@.skip(p as int) == rest,
            _ => r is None,
        },
{
    let ghost s = v@.skip(pos as int);
    let (user, p1) = match parse_quoted_literal_with_tail(v, pos) {
        None => {
            return None;
        },
        Some(x) => x,
    };
    let user = string_from_chars(user.as_slice());
    let p2 = skip_ws(v, p1);
    if !(p2 < v.len() && v[p2] == '@') {
        return Some((user, owned("%"), p2));
    }
    let p3 = skip_ws(v, p2 + 1);
    proof {
        assert(v@.skip(p2 as int).skip(1) =~= v@.skip(p2 + 1));
    }
    if p3 < v.len() && (v[p3] == '\'' || v[p3] == '"') {
        match parse_quoted_literal_with_tail(v, p3) {
            None => None,
            Some((host, p4)) => Some((user, string_from_chars(host.as_slice()), p4)),
        }
    } else {
        let e = parse_bare_token(v, p3);
        if e == p3 {
            None
        } else {
            let host = sub_chars(v, p3, e);
            proof {
                assert(v@.skip(p3 as int).take(e - p3) =~= host@);
                assert(v@.skip(p3 as int).skip(e - p3) =~= v@.skip(e as int));
            }
            Some((user, string_from_chars(host.as_slice()), e))
        }
    }
}

/// Accounts parsed so far, in front of what the rest of the list gives.
spec fn prepend_accounts(
    acc: Seq<(Seq<char>, Seq<char>)>,
    p: Parsed<Seq<(Seq<char>, Seq<char>)>>,
) -> Parsed<Seq<(Seq<char>, Seq<char>)>> {
    match p {
        Parsed::Done(m, t) => Parsed::Done(acc + m, t),
        Parsed::Fail => Parsed::Fail,
        Parsed::Crash => Parsed::Crash,
    }
}

/// The comma-separated account list that starts at `pos`, and the position after it
/// (white space after the list skipped).
fn parse_account_list(v: &Vec<char>, pos: usize) -> (r: Option<(Vec<Account>, usize)>)
    requires
        pos <= v@.len(),
        !(account_list_from(v@.skip(pos as int)) is Crash),
    ensures
        match account_list_from(v@.skip(pos as int)) {
            Parsed::Done(accs, rest) => r matches Some((a, p)) && accounts_of(a@) == accs && pos
                <= p <= v@.len() && v@.skip(p as int) == rest,
            _ => r is None,
        },
{
    let mut accounts: Vec<Account> = Vec::new();
    let mut i = pos;
    loop
        invariant
            pos <= i <= v@.len(),
            prepend_accounts(accounts_of(accounts@), account_list_from(v@.skip(i as int)))
                == account_list_from(v@.skip(pos as int)),
            !(account_list_from(v@.skip(i as int)) is Crash),
        decreases v@.len() - i,
    {
        let ghost s = v@.skip(i as int);
        let ghost old_accs = accounts_of(accounts@);
        match parse_account_literal(v, i) {
            None => {
                return None;
            },
            Some((u, h, t)) => {
                proof {
                    lemma_account_literal_shorter(s);
                }
                let ghost a = (u@, h@);
                accounts.push(Account { user: u, host: h });
                proof {
                    assert(accounts_of(accounts@) =~= old_accs.push(a));
                }
                let r1 = skip_ws(v, t);
                if r1 < v.len() && v[r1] == ',' {
                    let r2 = skip_ws(v, r1 + 1);
                    proof {
                        assert(v@.skip(r1 as int).skip(1) =~= v@.skip(r1 + 1));
                        match account_list_from(v@.skip(r2 as int)) {
                            Parsed::Done(more, t2) => {
                                assert(old_accs + (seq![a] + more) =~= old_accs.push(a) + more);
                            },
                            _ => {},
                        }
                    }
                    i = r2;
                } else {
                    proof {
                        assert(old_accs + seq![a] =~= old_accs.push(a));
                    }
                    return Some((accounts, r1));
                }
            },
        }
    }
}

/// `BY 'password'` at `pos`: the password and the position after it.
fn parse_by_password(v: &Vec<char>, up: &Vec<char>, pos: usize) -> (r: Option<(Vec<char>, usize)>)
    requires
        pos <= v@.len(),
        up@ == ascii_upper_seq(v@),
        !(by_password(v@.skip(pos as int)) is Crash),
    ensures
        match by_password(v@.skip(pos as int)) {
            Parsed::Done(pw, rest) => r matches Some((x, p)) && x@ == pw && pos < p <= v@.len()
                && v@.skip(p as int) == rest,
            _ => r is None,
        },
{
    proof {
        assert(ascii_upper_seq(v@.skip(pos as int)) =~= up@.skip(pos as int));
        reveal_strlit("BY");
    }
    let len = v.len();
    if !starts_at(up, pos, "BY") {
        return None;
    }
    assert(pos + 2 <= len);
    let p = skip_ws(v, pos + 2);
    proof {
        assert(v@.skip(pos as int).skip(2) =~= v@.skip(pos + 2));
    }
    parse_quoted_literal_with_tail(v, p)
}

/// `plugin BY 'password'` at `pos`: plugin, password and the position after them.
fn parse_auth_plugin_and_password(v: &Vec<char>, up: &Vec<char>, pos: usize) -> (r: Option<(String, Vec<char>, usize)>)
    requires
        pos <= v@.len(),
        up@ == ascii_upper_seq(v@),
        !(plugin_and_password(v@.skip(pos as int)) is Crash),
    ensures
        match plugin_and_password(v@.skip(pos as int)) {
            Parsed::Done(pp, rest) => r matches Some((plugin, pw, p)) && plugin@ == pp.0 && pw@
                == pp.1 && pos < p <= v@.len() && v@.skip(p as int) == rest,
            _ => r is None,
        },
{
    proof {
        assert(ascii_upper_seq(v@.skip(pos as int)) =~= up@.skip(pos as int));
        reveal_strlit("MYSQL_NATIVE_PASSWORD");
        reveal_strlit("CACHING_SHA2_PASSWORD");
    }
    let len = v.len();
    if starts_at(up, pos, "MYSQL_NATIVE_PASSWORD") {
        assert(pos + 21 <= len);
        let p = skip_ws(v, pos + 21);
        proof {
            assert(v@.skip(pos as int).skip(21) =~= v@.skip(pos + 21));
        }
        match parse_by_password(v, up, p) {
            None => None,
            Some((pw, t)) => Some((owned(AUTH_PLUGIN_NATIVE), pw, t)),
        }
    } else if starts_at(up, pos, "CACHING_SHA2_PASSWORD") {
        assert(pos + 21 <= len);
        let p = skip_ws(v, pos + 21);
        proof {
            assert(v@.skip(pos as int).skip(21) =~= v@.skip(pos + 21));
        }
        match parse_by_password(v, up, p) {
            None => None,
            Some((pw, t)) => Some((owned(AUTH_PLUGIN_CACHING_SHA2), pw, t)),
        }
    } else {
        let e = parse_bare_token(v, pos);
        if e == pos {
            return None;
        }
        let plugin = sub_chars(v, pos, e);
        let p = skip_ws(v, e);
        proof {
            assert(v@.skip(pos as int).take(e - pos) =~= plugin@);
            assert(v@.skip(pos as int).skip(e - pos) =~= v@.skip(e as int));
        }
        match parse_by_password(v, up, p) {
            None => None,
            Some((pw, t)) => Some((string_from_chars(plugin.as_slice()), pw, t)),
        }
    }
}


/// The part of `CREATE USER` after the keyword, on the trimmed statement `t` and its
/// upper-cased form `up`.
fn parse_create_user(t: &Vec<char>, up: &Vec<char>) -> (r: Option<AccountDdl>)
    requires
        up@ == ascii_upper_seq(t@),
        starts_with_seq(up@, "CREATE USER"@),
        !(create_user_spec(t@) is Crash),
    ensures
        match create_user_spec(t@) {
            Parsed::Done(d, _) => r matches Some(x) && ddl_view(x) == d,
            _ => r is None,
        },
{
    proof {
        reveal_strlit("CREATE USER");
        reveal_strlit("IF NOT EXISTS");
        reveal_strlit("IDENTIFIED BY");
        reveal_strlit("IDENTIFIED WITH");
    }
    let len = t.len();
    assert(11 <= len);
    let if_not_exists = starts_at(up, 11, "IF NOT EXISTS");
    let mut p = skip_ws(t, 11);
    if if_not_exists {
        proof {
            assert(up@.skip(11).subrange(0, 13)[0] == "IF NOT EXISTS"@[0]);
            assert(up@[11] == 'I');
            assert(!is_ws(t@[11]));
            assert(t@.subrange(11, len as int).len() > 0);
            assert(trim_start_seq(t@.subrange(11, len as int)) == t@.subrange(11, len as int));
            assert(t@.subrange(p as int, len as int).len() == t@.subrange(11, len as int).len());
            assert(p == 11);
        }
        p = skip_ws(t, p + 13);
        proof {
            assert(t@.skip(11).skip(13) =~= t@.skip(24));
        }
    }
    let p0 = skip_ws(t, p);
    let (accounts, q) = match parse_account_list(t, p0) {
        None => {
            return None;
        },
        Some(x) => x,
    };
    proof {
        assert(ascii_upper_seq(t@.skip(q as int)) =~= up@.skip(q as int));
    }
    match find_at(up, q, "IDENTIFIED BY") {
        Some(k) => {
            let pp = skip_ws(t, q + k + 13);
            proof {
                assert(t@.skip(q as int).skip(k + 13) =~= t@.skip(q + k + 13));
            }
            match parse_quoted_literal_with_tail(t, pp) {
                None => None,
                Some((pw, _)) => Some(
                    AccountDdl::CreateUser {
                        accounts,
                        auth_plugin: owned(AUTH_PLUGIN_CACHING_SHA2),
                        password: string_from_chars(pw.as_slice()),
                        if_not_exists,
                    },
                ),
            }
        },
        None => match find_at(up, q, "IDENTIFIED WITH") {
            Some(k) => {
                let pp = skip_ws(t, q + k + 15);
                proof {
                    assert(t@.skip(q as int).skip(k + 15) =~= t@.skip(q + k + 15));
                }
                match parse_auth_plugin_and_password(t, up, pp) {
                    None => None,
                    Some((plugin, pw, _)) => Some(
                        AccountDdl::CreateUser {
                            accounts,
                            auth_plugin: plugin,
                            password: string_from_chars(pw.as_slice()),
                            if_not_exists,
                        },
                    ),
                }
            },
            None => None,
        },
    }
}

/// The part of `DROP USER` after the keyword, on the trimmed statement `t` and its
/// upper-cased form `up`.
fn parse_drop_user(t: &Vec<char>, up: &Vec<char>) -> (r: Option<AccountDdl>)
    requires
        up@ == ascii_upper_seq(t@),
        starts_with_seq(up@, "DROP USER"@),
        !(drop_user_spec(t@) is Crash),
    ensures
        match drop_user_spec(t@) {
            Parsed::Done(d, _) => r matches Some(x) && ddl_view(x) == d,
            _ => r is None,
        },
{
    proof {
        reveal_strlit("DROP USER");
        reveal_strlit("IF EXISTS");
    }
    let len = t.len();
    assert(9 <= len);
    let if_exists = starts_at(up, 9, "IF EXISTS");
    let mut p = skip_ws(t, 9);
    if if_exists {
        proof {
            assert(up@.skip(9).subrange(0, 9)[0] == "IF EXISTS"@[0]);
            assert(up@[9] == 'I');
            assert(!is_ws(t@[9]));
            assert(t@.subrange(9, len as int).len() > 0);
            assert(trim_start_seq(t@.subrange(9, len as int)) == t@.subrange(9, len as int));
            assert(t@.subrange(p as int, len as int).len() == t@.subrange(9, len as int).len());
            assert(p == 9);
        }
        p = skip_ws(t, p + 9);
        proof {
            assert(t@.skip(9).skip(9) =~= t@.skip(18));
        }
    }
    let p0 = skip_ws(t, p);
    let (accounts, q) = match parse_account_list(t, p0) {
        None => {
            return None;
        },
        Some(x) => x,
    };
    let tail = sub_chars(t, q, len);
    let tail_text = string_from_chars(tail.as_slice());
    let rest = trim(tail_text.as_str());
    if str_chars(rest.as_str()).len() != 0 {
        return None;
    }
    Some(AccountDdl::DropUser { accounts, if_exists })
}

/// Parses `CREATE USER` and `DROP USER` statements (a MySQL subset): `None` for anything
/// else or for a malformed statement.
pub fn parse_account_ddl(sql: &str) -> (r: Option<AccountDdl>)
    requires
        !(ddl_spec(sql@) is Crash),
    ensures
        match ddl_spec(sql@) {
            Parsed::Done(d, _) => r matches Some(x) && ddl_view(x) == d,
            _ => r is None,
        },
{
    let t1 = trim(sql);
    let mut v = str_chars(t1.as_str());
    while v.len() > 0 && v[v.len() - 1] == ';'
        invariant
            trim_semicolons(v@) == trim_semicolons(trim_seq(sql@)),
        decreases v@.len(),
    {
        proof {
            assert(v@.drop_last() == v@.subrange(0, v@.len() - 1));
        }
        v.pop();
    }
    let s2 = string_from_chars(v.as_slice());
    let t2 = trim(s2.as_str());
    let t = str_chars(t2.as_str());
    let up = upper_chars(&t);
    proof {
        assert(up@.skip(0) =~= up@);
    }
    if starts_at(&up, 0, "CREATE USER") {
        parse_create_user(&t, &up)
    } else if starts_at(&up, 0, "DROP USER") {
        parse_drop_user(&t, &up)
    } else {
        None
    }
}

} // verus!
