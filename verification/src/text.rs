//! Character-level text helpers: conversions, trimming, ASCII case, decimal numbers.
use vstd::prelude::*;
use vstd::utf8::{decode_utf8, encode_utf8, valid_utf8};

verus! {

/// The characters of `s`, in order.
#[verifier::external_body]
pub fn str_chars(s: &str) -> (r: Vec<char>)
    ensures
        r@ == s@,
{
    s.chars().collect()
}

/// The string made of `chars`, in order.
#[verifier::external_body]
pub fn string_from_chars(chars: &[char]) -> (r: String)
    ensures
        r@ == chars@,
{
    chars.iter().collect()
}

/// A copy of `s` as an owned string.
pub fn owned(s: &str) -> (r: String)
    ensures
        r@ == s@,
{
    let v = str_chars(s);
    string_from_chars(v.as_slice())
}

/// `std::str::from_utf8`: the text that `bytes` encode when they are valid UTF-8, else `None`.
#[verifier::external_body]
pub fn utf8_decode(bytes: &[u8]) -> (r: Option<String>)
    ensures
        r is Some <==> valid_utf8(bytes@),
        r matches Some(s) ==> s@ == decode_utf8(bytes@),
{
    match std::str::from_utf8(bytes) {
        Ok(s) => Some(s.to_string()),
        Err(_) => None,
    }
}

/// What `String::from_utf8_lossy` makes of `bytes` (invalid sequences become U+FFFD).
pub uninterp spec fn spec_utf8_lossy(bytes: Seq<u8>) -> Seq<char>;

/// `String::from_utf8_lossy`: on valid UTF-8 the decoded text; the replacement of invalid
/// sequences is named, not described.
#[verifier::external_body]
pub fn utf8_decode_lossy(bytes: &[u8]) -> (r: String)
    ensures
        r@ == spec_utf8_lossy(bytes@),
        valid_utf8(bytes@) ==> r@ == decode_utf8(bytes@),
{
    String::from_utf8_lossy(bytes).into_owned()
}

/// Whether every character of `s` is ASCII.
pub open spec fn is_ascii_text(s: Seq<char>) -> bool {
    forall|i: int| 0 <= i < s.len() ==> (#[trigger] s[i] as u32) < 128
}

/// What `str::to_uppercase` makes of `s` (full Unicode case mapping).
pub uninterp spec fn spec_to_uppercase(s: Seq<char>) -> Seq<char>;

/// `str::to_uppercase`: named; on ASCII text, `a`–`z` become `A`–`Z` and the rest is kept.
#[verifier::external_body]
pub fn to_uppercase(s: &str) -> (r: String)
    ensures
        r@ == spec_to_uppercase(s@),
        is_ascii_text(s@) ==> r@ == ascii_upper_seq(s@),
{
    s.to_uppercase()
}

/// What `str::to_lowercase` makes of `s` (full Unicode case mapping).
pub uninterp spec fn spec_to_lowercase(s: Seq<char>) -> Seq<char>;

/// `str::to_lowercase`: named; on ASCII text, `A`–`Z` become `a`–`z` and the rest is kept.
#[verifier::external_body]
pub fn to_lowercase(s: &str) -> (r: String)
    ensures
        r@ == spec_to_lowercase(s@),
        is_ascii_text(s@) ==> r@ == ascii_lower_seq(s@),
{
    s.to_lowercase()
}

/// Unicode `White_Space`, the property that `char::is_whitespace` tests.
pub open spec fn is_ws(c: char) -> bool {
    let u = c as u32;
    (0x09 <= u <= 0x0D) || u == 0x20 || u == 0x85 || u == 0xA0 || u == 0x1680 || (0x2000 <= u
        <= 0x200A) || u == 0x2028 || u == 0x2029 || u == 0x202F || u == 0x205F || u == 0x3000
}

/// Whether `c` is Unicode white space.
pub fn is_whitespace(c: char) -> (r: bool)
    ensures
        r == is_ws(c),
{
    let u = c as u32;
    (0x09 <= u && u <= 0x0D) || u == 0x20 || u == 0x85 || u == 0xA0 || u == 0x1680 || (0x2000
        <= u && u <= 0x200A) || u == 0x2028 || u == 0x2029 || u == 0x202F || u == 0x205F || u
        == 0x3000
}

/// `s` without leading white space.
pub open spec fn trim_start_seq(s: Seq<char>) -> Seq<char>
    decreases s.len(),
{
    if s.len() > 0 && is_ws(s[0]) {
        trim_start_seq(s.drop_first())
    } else {
        s
    }
}

/// `s` without trailing white space.
pub open spec fn trim_end_seq(s: Seq<char>) -> Seq<char>
    decreases s.len(),
{
    if s.len() > 0 && is_ws(s.last()) {
        trim_end_seq(s.drop_last())
    } else {
        s
    }
}

/// `s` without leading and trailing white space.
pub open spec fn trim_seq(s: Seq<char>) -> Seq<char> {
    trim_end_seq(trim_start_seq(s))
}

/// Index of the first non-white-space character of `s` at or after `from`.
pub fn skip_ws(s: &Vec<char>, from: usize) -> (r: usize)
    requires
        from <= s@.len(),
    ensures
        from <= r <= s@.len(),
        trim_start_seq(s@.subrange(from as int, s@.len() as int)) == s@.subrange(
            r as int,
            s@.len() as int,
        ),
    decreases s@.len() - from,
{
    if from < s.len() && is_whitespace(s[from]) {
        let r = skip_ws(s, from + 1);
        proof {
            assert(s@.subrange(from as int, s@.len() as int).drop_first() =~= s@.subrange(
                from + 1,
                s@.len() as int,
            ));
        }
        r
    } else {
        from
    }
}

/// End (exclusive) of `s[..to]` once trailing white space is dropped.
fn back_ws(s: &Vec<char>, to: usize) -> (r: usize)
    requires
        to <= s@.len(),
    ensures
        r <= to,
        trim_end_seq(s@.subrange(0, to as int)) == s@.subrange(0, r as int),
    decreases to,
{
    if to > 0 && is_whitespace(s[to - 1]) {
        let r = back_ws(s, to - 1);
        proof {
            assert(s@.subrange(0, to as int).drop_last() =~= s@.subrange(0, to - 1));
        }
        r
    } else {
        to
    }
}

/// Characters `lo..hi` of `v`.
pub fn sub_chars(v: &Vec<char>, lo: usize, hi: usize) -> (r: Vec<char>)
    requires
        lo <= hi <= v@.len(),
    ensures
        r@ == v@.subrange(lo as int, hi as int),
{
    let mut r: Vec<char> = Vec::new();
    let mut i = lo;
    while i < hi
        invariant
            lo <= i <= hi <= v@.len(),
            r@ == v@.subrange(lo as int, i as int),
        decreases hi - i,
    {
        r.push(v[i]);
        i = i + 1;
        proof {
            assert(r@ =~= v@.subrange(lo as int, i as int));
        }
    }
    r
}

/// `s.trim()`: `s` without leading and trailing Unicode white space.
pub fn trim(s: &str) -> (r: String)
    ensures
        r@ == trim_seq(s@),
{
    let v = str_chars(s);
    let a = skip_ws(&v, 0);
    let rest = sub_chars(&v, a, v.len());
    proof {
        assert(v@.subrange(0, v@.len() as int) =~= v@);
    }
    let b = back_ws(&rest, rest.len());
    proof {
        assert(rest@.subrange(0, rest@.len() as int) =~= rest@);
    }
    let t = sub_chars(&rest, 0, b);
    string_from_chars(t.as_slice())
}

/// `s.trim_start()`.
pub fn trim_start(s: &str) -> (r: String)
    ensures
        r@ == trim_start_seq(s@),
{
    let v = str_chars(s);
    let a = skip_ws(&v, 0);
    proof {
        assert(v@.subrange(0, v@.len() as int) =~= v@);
    }
    let rest = sub_chars(&v, a, v.len());
    string_from_chars(rest.as_slice())
}

/// `s.trim_end()`.
pub fn trim_end(s: &str) -> (r: String)
    ensures
        r@ == trim_end_seq(s@),
{
    let v = str_chars(s);
    let b = back_ws(&v, v.len());
    proof {
        assert(v@.subrange(0, v@.len() as int) =~= v@);
    }
    let t = sub_chars(&v, 0, b);
    string_from_chars(t.as_slice())
}

/// ASCII upper-case of one character (others unchanged).
pub open spec fn ascii_upper(c: char) -> char {
    if 'a' <= c <= 'z' {
        ((c as u32) - 32) as char
    } else {
        c
    }
}

/// ASCII lower-case of one character (others unchanged).
pub open spec fn ascii_lower(c: char) -> char {
    if 'A' <= c <= 'Z' {
        ((c as u32) + 32) as char
    } else {
        c
    }
}

/// `s` with ASCII letters upper-cased.
pub open spec fn ascii_upper_seq(s: Seq<char>) -> Seq<char> {
    s.map_values(|c: char| ascii_upper(c))
}

/// `s` with ASCII letters lower-cased.
pub open spec fn ascii_lower_seq(s: Seq<char>) -> Seq<char> {
    s.map_values(|c: char| ascii_lower(c))
}

/// `char::to_ascii_uppercase`.
pub fn char_ascii_upper(c: char) -> (r: char)
    ensures
        r == ascii_upper(c),
{
    if 'a' <= c && c <= 'z' {
        let u = (c as u32) - 32;
        proof {
            assert(u < 0xD800);
        }
        char_from_ascii_code(u)
    } else {
        c
    }
}

/// `char::to_ascii_lowercase`.
pub fn char_ascii_lower(c: char) -> (r: char)
    ensures
        r == ascii_lower(c),
{
    if 'A' <= c && c <= 'Z' {
        let u = (c as u32) + 32;
        char_from_ascii_code(u)
    } else {
        c
    }
}

/// The character with code `u`, for `u` below 128.
pub(crate) fn char_from_ascii_code(u: u32) -> (r: char)
    requires
        u < 128,
    ensures
        r == u as char,
{
    let b: u8 = u as u8;
    b as char
}

/// `str::to_ascii_uppercase`.
pub fn to_ascii_uppercase(s: &str) -> (r: String)
    ensures
        r@ == ascii_upper_seq(s@),
{
    let v = str_chars(s);
    let mut out: Vec<char> = Vec::new();
    let mut i: usize = 0;
    while i < v.len()
        invariant
            i <= v@.len(),
            out@ == ascii_upper_seq(v@.subrange(0, i as int)),
        decreases v@.len() - i,
    {
        out.push(char_ascii_upper(v[i]));
        i = i + 1;
        proof {
            assert(out@ =~= ascii_upper_seq(v@.subrange(0, i as int)));
        }
    }
    proof {
        assert(v@.subrange(0, i as int) =~= v@);
    }
    string_from_chars(out.as_slice())
}

/// `str::to_ascii_lowercase`.
pub fn to_ascii_lowercase(s: &str) -> (r: String)
    ensures
        r@ == ascii_lower_seq(s@),
{
    let v = str_chars(s);
    let mut out: Vec<char> = Vec::new();
    let mut i: usize = 0;
    while i < v.len()
        invariant
            i <= v@.len(),
            out@ == ascii_lower_seq(v@.subrange(0, i as int)),
        decreases v@.len() - i,
    {
        out.push(char_ascii_lower(v[i]));
        i = i + 1;
        proof {
            assert(out@ =~= ascii_lower_seq(v@.subrange(0, i as int)));
        }
    }
    proof {
        assert(v@.subrange(0, i as int) =~= v@);
    }
    string_from_chars(out.as_slice())
}

/// Two sequences are equal up to ASCII case.
pub open spec fn eq_ignore_case_seq(a: Seq<char>, b: Seq<char>) -> bool {
    a.len() == b.len() && forall|i: int|
        0 <= i < a.len() ==> ascii_lower(#[trigger] a[i]) == ascii_lower(b[i])
}

/// `str::eq_ignore_ascii_case`.
pub fn eq_ignore_ascii_case(a: &str, b: &str) -> (r: bool)
    ensures
        r == eq_ignore_case_seq(a@, b@),
{
    let va = str_chars(a);
    let vb = str_chars(b);
    if va.len() != vb.len() {
        return false;
    }
    let mut i: usize = 0;
    while i < va.len()
        invariant
            i <= va@.len(),
            va@.len() == vb@.len(),
            va@ == a@,
            vb@ == b@,
            forall|j: int| 0 <= j < i ==> ascii_lower(#[trigger] va@[j]) == ascii_lower(vb@[j]),
        decreases va@.len() - i,
    {
        if char_ascii_lower(va[i]) != char_ascii_lower(vb[i]) {
            return false;
        }
        i = i + 1;
    }
    true
}

/// Whether two character sequences are equal (`==` on strings).
pub fn chars_eq(a: &Vec<char>, b: &Vec<char>) -> (r: bool)
    ensures
        r == (a@ == b@),
{
    if a.len() != b.len() {
        return false;
    }
    let mut i: usize = 0;
    while i < a.len()
        invariant
            i <= a@.len(),
            a@.len() == b@.len(),
            forall|j: int| 0 <= j < i ==> a@[j] == b@[j],
        decreases a@.len() - i,
    {
        if a[i] != b[i] {
            return false;
        }
        i = i + 1;
    }
    proof {
        assert(a@ =~= b@);
    }
    true
}

/// `a == b` on strings.
pub fn str_eq(a: &str, b: &str) -> (r: bool)
    ensures
        r == (a@ == b@),
{
    let va = str_chars(a);
    let vb = str_chars(b);
    chars_eq(&va, &vb)
}

/// Whether `s` begins with `p`.
pub open spec fn starts_with_seq(s: Seq<char>, p: Seq<char>) -> bool {
    p.len() <= s.len() && s.subrange(0, p.len() as int) == p
}

/// `str::starts_with` with a string pattern.
pub fn starts_with(s: &str, p: &str) -> (r: bool)
    ensures
        r == starts_with_seq(s@, p@),
{
    let vs = str_chars(s);
    let vp = str_chars(p);
    if vp.len() > vs.len() {
        return false;
    }
    let mut i: usize = 0;
    while i < vp.len()
        invariant
            i <= vp@.len() <= vs@.len(),
            vs@ == s@,
            vp@ == p@,
            forall|j: int| 0 <= j < i ==> vs@[j] == vp@[j],
        decreases vp@.len() - i,
    {
        if vs[i] != vp[i] {
            proof {
                assert(vs@.subrange(0, vp@.len() as int)[i as int] != vp@[i as int]);
            }
            return false;
        }
        i = i + 1;
    }
    proof {
        assert(vs@.subrange(0, vp@.len() as int) =~= vp@);
    }
    true
}

/// The decimal digit character for `d < 10`.
pub open spec fn digit_char(d: nat) -> char {
    (48 + d) as char
}

/// Decimal representation of `n` (no sign, no leading zeros).
pub open spec fn decimal(n: nat) -> Seq<char>
    decreases n,
{
    if n < 10 {
        seq![digit_char(n)]
    } else {
        decimal(n / 10).push(digit_char(n % 10))
    }
}

/// Decimal representation of a signed integer (`-` before negative values).
pub open spec fn signed_decimal(i: int) -> Seq<char> {
    if i < 0 {
        seq!['-'] + decimal((-i) as nat)
    } else {
        decimal(i as nat)
    }
}

fn digit(d: u64) -> (r: char)
    requires
        d < 10,
    ensures
        r == digit_char(d as nat),
{
    char_from_ascii_code((48 + d) as u32)
}

/// Decimal digits of `n`.
pub fn decimal_chars(n: u64) -> (r: Vec<char>)
    ensures
        r@ == decimal(n as nat),
{
    let mut acc: Vec<char> = Vec::new();
    let mut m = n;
    loop
        invariant
            decimal(n as nat) == decimal(m as nat) + acc@,
        decreases m,
    {
        let ghost old_acc = acc@;
        acc.insert(0, digit(m % 10));
        if m < 10 {
            proof {
                assert(decimal(n as nat) =~= acc@);
            }
            return acc;
        }
        proof {
            assert(decimal(m as nat) == decimal((m / 10) as nat).push(digit_char((m % 10) as nat)));
            assert(decimal(n as nat) =~= decimal((m / 10) as nat) + acc@);
        }
        m = m / 10;
    }
}

/// `n.to_string()` for an unsigned integer.
pub fn u64_to_string(n: u64) -> (r: String)
    ensures
        r@ == decimal(n as nat),
{
    let v = decimal_chars(n);
    string_from_chars(v.as_slice())
}

/// `n.to_string()` for a signed integer.
pub fn i64_to_string(n: i64) -> (r: String)
    ensures
        r@ == signed_decimal(n as int),
{
    if n < 0 {
        let mag: u64 = if n == i64::MIN {
            9223372036854775808u64
        } else {
            (-n) as u64
        };
        let mut v = decimal_chars(mag);
        v.insert(0, '-');
        proof {
            assert(v@ =~= seq!['-'] + decimal((-(n as int)) as nat));
        }
        string_from_chars(v.as_slice())
    } else {
        u64_to_string(n as u64)
    }
}

/// Whether `c` is an ASCII digit.
pub open spec fn is_digit(c: char) -> bool {
    '0' <= c <= '9'
}

/// The value of an ASCII digit.
pub open spec fn digit_value(c: char) -> int {
    (c as int) - 48
}

/// Every character of `s` is an ASCII digit.
pub open spec fn all_digits(s: Seq<char>) -> bool {
    forall|i: int| 0 <= i < s.len() ==> is_digit(#[trigger] s[i])
}

/// The number that a run of ASCII digits denotes.
pub open spec fn digits_value(s: Seq<char>) -> int
    decreases s.len(),
{
    if s.len() == 0 {
        0
    } else {
        digits_value(s.drop_last()) * 10 + digit_value(s.last())
    }
}

/// The integer that Rust's `str::parse` for an integer type reads from `s`, before the range
/// check of the type: an optional sign (`-` only when `signed`) and one or more ASCII digits.
pub open spec fn parse_int_seq(s: Seq<char>, signed: bool) -> Option<int> {
    if s.len() > 0 && s[0] == '+' {
        let b = s.drop_first();
        if b.len() > 0 && all_digits(b) {
            Some(digits_value(b))
        } else {
            None
        }
    } else if signed && s.len() > 0 && s[0] == '-' {
        let b = s.drop_first();
        if b.len() > 0 && all_digits(b) {
            Some(-digits_value(b))
        } else {
            None
        }
    } else if s.len() > 0 && all_digits(s) {
        Some(digits_value(s))
    } else {
        None
    }
}

/// Rust's `str::parse` into an integer type whose range is `lo..=hi`.
pub open spec fn parse_in_range(s: Seq<char>, lo: int, hi: int) -> Option<int> {
    match parse_int_seq(s, lo < 0) {
        Some(v) => if lo <= v <= hi {
            Some(v)
        } else {
            None
        },
        None => None,
    }
}

proof fn lemma_digits_value_nonneg(s: Seq<char>)
    requires
        all_digits(s),
    ensures
        digits_value(s) >= 0,
    decreases s.len(),
{
    if s.len() > 0 {
        assert(is_digit(s[s.len() - 1]));
        assert(all_digits(s.drop_last()));
        lemma_digits_value_nonneg(s.drop_last());
    }
}

proof fn lemma_digits_value_grows(s: Seq<char>, k: int)
    requires
        all_digits(s),
        0 <= k <= s.len(),
    ensures
        digits_value(s) >= digits_value(s.subrange(0, k)),
    decreases s.len() - k,
{
    if k < s.len() {
        lemma_digits_value_grows(s, k + 1);
        let t = s.subrange(0, k + 1);
        assert(t.drop_last() =~= s.subrange(0, k));
        assert(all_digits(s.subrange(0, k)));
        lemma_digits_value_nonneg(s.subrange(0, k));
        assert(is_digit(t.last()));
    } else {
        assert(s.subrange(0, k) =~= s);
    }
}

/// Reads digits `from..v.len()` as a magnitude, giving up once it exceeds `bound`.
pub fn digits_up_to(v: &Vec<char>, from: usize, bound: u64) -> (r: Option<u64>)
    requires
        from <= v@.len(),
    ensures
        ({
            let b = v@.subrange(from as int, v@.len() as int);
            match r {
                Some(x) => all_digits(b) && digits_value(b) == x && x <= bound,
                None => !all_digits(b) || digits_value(b) > bound,
            }
        }),
{
    let ghost b = v@.subrange(from as int, v@.len() as int);
    let mut acc: u64 = 0;
    let mut i = from;
    while i < v.len()
        invariant
            from <= i <= v@.len(),
            b == v@.subrange(from as int, v@.len() as int),
            all_digits(v@.subrange(from as int, i as int)),
            digits_value(v@.subrange(from as int, i as int)) == acc,
            acc <= bound,
        decreases v@.len() - i,
    {
        let c = v[i];
        if !('0' <= c && c <= '9') {
            proof {
                assert(b[i - from] == c);
            }
            return None;
        }
        let d = (c as u32 - 48) as u64;
        let ghost pre = v@.subrange(from as int, i as int);
        let ghost nxt = v@.subrange(from as int, i + 1);
        proof {
            assert(nxt.drop_last() =~= pre);
            assert(nxt.last() == c);
            assert(all_digits(nxt));
        }
        if acc > bound / 10 || d > bound - acc * 10 {
            proof {
                assert(digits_value(nxt) == acc * 10 + d);
                if all_digits(b) {
                    lemma_digits_value_grows(b, i + 1 - from);
                    assert(b.subrange(0, i + 1 - from) =~= nxt);
                }
            }
            return None;
        }
        acc = acc * 10 + d;
        i = i + 1;
    }
    Some(acc)
}

/// Rust's `str::parse` into an integer type with range `lo..=hi` (here `lo` is `0` or
/// `-(hi + 1)`), returning the value when it parses.
pub fn parse_int_in_range(s: &str, lo: i64, hi: i64) -> (r: Option<i64>)
    requires
        0 <= hi,
        lo == 0 || lo == -hi - 1,
    ensures
        match parse_in_range(s@, lo as int, hi as int) {
            Some(v) => r == Some(v as i64),
            None => r is None,
        },
{
    let v = str_chars(s);
    if v.len() == 0 {
        return None;
    }
    if v[0] == '+' || (lo < 0 && v[0] == '-') {
        if v.len() == 1 {
            return None;
        }
        proof {
            assert(v@.subrange(1, v@.len() as int) =~= v@.drop_first());
        }
        if v[0] == '+' {
            match digits_up_to(&v, 1, hi as u64) {
                Some(x) => Some(x as i64),
                None => None,
            }
        } else {
            let mag_bound: u64 = (hi as u64) + 1;
            match digits_up_to(&v, 1, mag_bound) {
                Some(x) => {
                    if x == mag_bound {
                        Some(lo)
                    } else {
                        Some(-(x as i64))
                    }
                },
                None => None,
            }
        }
    } else {
        proof {
            assert(v@.subrange(0, v@.len() as int) =~= v@);
        }
        match digits_up_to(&v, 0, hi as u64) {
            Some(x) => Some(x as i64),
            None => None,
        }
    }
}

/// Rust's `str::parse::<u64>`.
pub fn parse_u64(s: &str) -> (r: Option<u64>)
    ensures
        match parse_in_range(s@, 0, u64::MAX as int) {
            Some(v) => r == Some(v as u64),
            None => r is None,
        },
{
    let v = str_chars(s);
    if v.len() == 0 {
        return None;
    }
    if v[0] == '+' {
        if v.len() == 1 {
            return None;
        }
        proof {
            assert(v@.subrange(1, v@.len() as int) =~= v@.drop_first());
        }
        digits_up_to(&v, 1, u64::MAX)
    } else {
        proof {
            assert(v@.subrange(0, v@.len() as int) =~= v@);
        }
        digits_up_to(&v, 0, u64::MAX)
    }
}

} // verus!

verus! {

/// The decimal form of `m` is a non-empty run of digits denoting `m`.
pub proof fn lemma_decimal_digits(m: nat)
    ensures
        decimal(m).len() > 0,
        all_digits(decimal(m)),
        digits_value(decimal(m)) == m,
    decreases m,
{
    if m >= 10 {
        lemma_decimal_digits(m / 10);
        let d = decimal(m);
        assert(d.drop_last() =~= decimal(m / 10));
        assert(d.last() == digit_char((m % 10) as nat));
        assert(digit_value(d.last()) == m % 10);
        assert(digits_value(d) == digits_value(decimal(m / 10)) * 10 + m % 10);
        assert((m / 10) * 10 + m % 10 == m);
        assert(digits_value(d) == m);
        assert forall|i: int| 0 <= i < d.len() implies is_digit(#[trigger] d[i]) by {
            if i < d.len() - 1 {
                assert(d[i] == decimal(m / 10)[i]);
            }
        }
    } else {
        let d = decimal(m);
        assert(d.drop_last() =~= Seq::<char>::empty());
        assert(digit_value(d.last()) == m);
        assert(digits_value(d.drop_last()) == 0);
        assert(digits_value(d) == m);
    }
}

/// `str::parse` reads back the decimal form of any in-range integer.
pub proof fn lemma_parse_signed_decimal(n: int, lo: int, hi: int)
    requires
        lo <= n <= hi,
        lo < 0,
    ensures
        parse_in_range(signed_decimal(n), lo, hi) == Some(n),
{
    if n < 0 {
        lemma_decimal_digits((-n) as nat);
        let s = signed_decimal(n);
        assert(s.drop_first() =~= decimal((-n) as nat));
    } else {
        lemma_decimal_digits(n as nat);
        let d = decimal(n as nat);
        assert(is_digit(d[0]));
    }
}


/// No NUL character in `s`.
pub open spec fn no_nul(s: Seq<char>) -> bool {
    forall|i: int| 0 <= i < s.len() ==> s[i] != '\0'
}

/// The UTF-8 encoding of a text without NUL characters holds no zero byte.
pub proof fn lemma_encode_no_zero(s: Seq<char>)
    requires
        no_nul(s),
    ensures
        forall|j: int| 0 <= j < encode_utf8(s).len() ==> encode_utf8(s)[j] != 0,
    decreases s.len(),
{
    if s.len() > 0 {
        lemma_encode_no_zero(s.drop_first());
        let c = s[0] as u32;
        vstd::utf8::char_is_scalar(s[0]);
        if c == 0 {
            vstd::utf8::char_u32_cast(s[0], c);
            assert(s[0] == '\0');
        }
        lemma_scalar_bytes_nonzero(c);
        assert(encode_utf8(s) =~= vstd::utf8::encode_scalar(c) + encode_utf8(s.drop_first()));
    }
}

proof fn lemma_scalar_bytes_nonzero(c: u32)
    requires
        0 < c,
        vstd::utf8::is_scalar(c),
    ensures
        forall|j: int|
            0 <= j < vstd::utf8::encode_scalar(c).len() ==> vstd::utf8::encode_scalar(c)[j] != 0,
{
    assert(0 < c <= 0x7F ==> (c & 0x7F) as u8 != 0) by (bit_vector);
    assert((0xC0u8 | ((c >> 6) & 0x1F) as u8) != 0) by (bit_vector);
    assert((0xE0u8 | ((c >> 12) & 0x0F) as u8) != 0) by (bit_vector);
    assert((0xF0u8 | ((c >> 18) & 0x7) as u8) != 0) by (bit_vector);
    assert((0x80u8 | (c & 0x3F) as u8) != 0) by (bit_vector);
    assert((0x80u8 | ((c >> 6) & 0x3F) as u8) != 0) by (bit_vector);
    assert((0x80u8 | ((c >> 12) & 0x3F) as u8) != 0) by (bit_vector);
}


/// A run of at most four digits denotes at most 9999.
proof fn lemma_digits_small(s: Seq<char>)
    requires
        all_digits(s),
        s.len() <= 4,
    ensures
        0 <= digits_value(s) < pow10(s.len()),
    decreases s.len(),
{
    if s.len() > 0 {
        assert(all_digits(s.drop_last()));
        lemma_digits_small(s.drop_last());
        assert(is_digit(s[s.len() - 1]));
    }
}

/// Ten to the power `n`, for `n` up to four.
pub open spec fn pow10(n: nat) -> int {
    if n == 0 {
        1
    } else if n == 1 {
        10
    } else if n == 2 {
        100
    } else if n == 3 {
        1000
    } else {
        10000
    }
}

/// Parsing at most four characters gives a value of at most four digits, whatever the
/// integer type.
pub proof fn lemma_short_digits(t: Seq<char>)
    requires
        t.len() <= 4,
    ensures
        parse_in_range(t, 0, u64::MAX as int) == parse_in_range(t, 0, i64::MAX as int),
        parse_in_range(t, i64::MIN as int, i64::MAX as int) matches Some(v) ==> -999 <= v <= 9999,
{
    if t.len() > 0 && all_digits(t) {
        lemma_digits_small(t);
    }
    if t.len() > 0 && all_digits(t.drop_first()) {
        lemma_digits_small(t.drop_first());
    }
}

} // verus!
