//! Collation-aware string comparison: `utf8mb4_unicode_ci` (decomposition, combining marks
//! dropped, lower-cased, with the expansions ß→ss, æ→ae, œ→oe) and `utf8mb4_0900_ai_ci`
//! (accent and case insensitive, without those expansions). Two strings compare as their
//! sort keys do, byte by byte.
use std::cmp::Ordering;
use unicode_normalization::UnicodeNormalization;
use vstd::prelude::*;
use vstd::utf8::encode_utf8;
use crate::text::{ascii_lower_seq, str_chars, str_eq, string_from_chars, to_ascii_lowercase};

verus! {

/// Supported collations for string compare and sort.
#[derive(Debug, Clone, Copy, PartialEq, Eq, Hash)]
pub enum Collation {
    /// MySQL 8.0's default collation.
    Utf8Mb4_0900AiCi,
    /// The catalog default.
    Utf8Mb4UnicodeCi,
}

/// Default collation for utf8mb4 string columns.
pub const DEFAULT_COLLATION: Collation = Collation::Utf8Mb4UnicodeCi;

/// Default character set.
pub const DEFAULT_CHARSET: &'static str = "utf8mb4";

impl Default for Collation {
    fn default() -> (r: Self)
        ensures
            r == Collation::Utf8Mb4UnicodeCi,
    {
        Collation::Utf8Mb4UnicodeCi
    }
}

/// The canonical decomposition (NFD) of a character.
pub uninterp spec fn nfd_of(c: char) -> Seq<char>;

/// The canonical combining class of a character.
pub uninterp spec fn combining_class_of(c: char) -> u8;

/// The full Unicode lower-case mapping of a character.
pub uninterp spec fn lowercase_of(c: char) -> Seq<char>;

/// `UnicodeNormalization::nfd` on a single character, collected: its canonical decomposition,
/// a function of the character alone.
#[verifier::external_body]
fn char_nfd(c: char) -> (r: Vec<char>)
    ensures
        r@ == nfd_of(c),
{
    c.nfd().collect()
}

/// `unicode_normalization::char::canonical_combining_class`.
#[verifier::external_body]
fn combining_class(c: char) -> (r: u8)
    ensures
        r == combining_class_of(c),
{
    unicode_normalization::char::canonical_combining_class(c)
}

/// `char::to_lowercase`, collected: named; an ASCII character maps to its ASCII lower case.
#[verifier::external_body]
fn char_lowercase(c: char) -> (r: Vec<char>)
    ensures
        r@ == lowercase_of(c),
        (c as u32) < 128 ==> r@ == seq![crate::text::ascii_lower(c)],
{
    c.to_lowercase().collect()
}

/// Folding decomposed characters: combining marks dropped, the others lower-cased.
pub open spec fn fold_decomposed(ds: Seq<char>) -> Seq<char>
    decreases ds.len(),
{
    if ds.len() == 0 {
        Seq::empty()
    } else {
        fold_decomposed(ds.drop_last()) + if combining_class_of(ds.last()) == 0 {
            lowercase_of(ds.last())
        } else {
            Seq::empty()
        }
    }
}

/// The accent- and case-insensitive folding of one character.
pub open spec fn fold_char(c: char) -> Seq<char> {
    fold_decomposed(nfd_of(c))
}

/// The `utf8mb4_unicode_ci` folding of one character, with its expansions.
pub open spec fn fold_char_unicode_ci(c: char) -> Seq<char> {
    if c == 'ß' || c == 'ẞ' {
        seq!['s', 's']
    } else if c == 'Æ' || c == 'æ' {
        seq!['a', 'e']
    } else if c == 'Œ' || c == 'œ' {
        seq!['o', 'e']
    } else {
        fold_char(c)
    }
}

/// The folded characters of `s` under `collation`.
pub open spec fn folded(collation: Collation, s: Seq<char>) -> Seq<char>
    decreases s.len(),
{
    if s.len() == 0 {
        Seq::empty()
    } else {
        folded(collation, s.drop_last()) + match collation {
            Collation::Utf8Mb4_0900AiCi => fold_char(s.last()),
            Collation::Utf8Mb4UnicodeCi => fold_char_unicode_ci(s.last()),
        }
    }
}

/// The sort key of `s` under `collation`: the UTF-8 bytes of its folded characters.
pub open spec fn sort_key(collation: Collation, s: Seq<char>) -> Seq<u8> {
    encode_utf8(folded(collation, s))
}

/// Byte-wise lexicographic order: a proper prefix comes first.
pub open spec fn lex_less(a: Seq<u8>, b: Seq<u8>) -> bool
    decreases a.len(),
{
    if a.len() == 0 {
        b.len() > 0
    } else if b.len() == 0 {
        false
    } else if a[0] != b[0] {
        a[0] < b[0]
    } else {
        lex_less(a.drop_first(), b.drop_first())
    }
}

/// The ordering of two sort keys.
pub open spec fn key_order(a: Seq<u8>, b: Seq<u8>) -> Ordering {
    if lex_less(a, b) {
        Ordering::Less
    } else if a == b {
        Ordering::Equal
    } else {
        Ordering::Greater
    }
}

fn append_chars(out: &mut Vec<char>, more: &Vec<char>)
    ensures
        final(out)@ == old(out)@ + more@,
{
    let mut i: usize = 0;
    while i < more.len()
        invariant
            i <= more@.len(),
            out@ == old(out)@ + more@.take(i as int),
        decreases more@.len() - i,
    {
        out.push(more[i]);
        i = i + 1;
        proof {
            assert(out@ =~= old(out)@ + more@.take(i as int));
        }
    }
    proof {
        assert(more@.take(i as int) =~= more@);
    }
}

fn push_folded_char(out: &mut Vec<char>, c: char)
    ensures
        final(out)@ == old(out)@ + fold_char(c),
{
    let ds = char_nfd(c);
    let mut i: usize = 0;
    proof {
        assert(ds@.take(0) =~= Seq::<char>::empty());
    }
    while i < ds.len()
        invariant
            i <= ds@.len(),
            ds@ == nfd_of(c),
            out@ == old(out)@ + fold_decomposed(ds@.take(i as int)),
        decreases ds@.len() - i,
    {
        let d = ds[i];
        if combining_class(d) == 0 {
            let lc = char_lowercase(d);
            append_chars(out, &lc);
        }
        proof {
            assert(ds@.take(i + 1).drop_last() =~= ds@.take(i as int));
            assert(out@ =~= old(out)@ + fold_decomposed(ds@.take(i + 1)));
        }
        i = i + 1;
    }
    proof {
        assert(ds@.take(i as int) =~= ds@);
    }
}

fn push_folded_char_unicode_ci(out: &mut Vec<char>, c: char)
    ensures
        final(out)@ == old(out)@ + fold_char_unicode_ci(c),
{
    if c == 'ß' || c == 'ẞ' {
        out.push('s');
        out.push('s');
    } else if c == 'Æ' || c == 'æ' {
        out.push('a');
        out.push('e');
    } else if c == 'Œ' || c == 'œ' {
        out.push('o');
        out.push('e');
    } else {
        push_folded_char(out, c);
    }
    proof {
        assert(final(out)@ =~= old(out)@ + fold_char_unicode_ci(c));
    }
}

/// The `utf8mb4_0900_ai_ci` sort key: each character decomposed, combining marks dropped,
/// lower-cased, as UTF-8.
fn ai_ci_0900_sort_key(s: &str) -> (r: Vec<u8>)
    ensures
        r@ == sort_key(Collation::Utf8Mb4_0900AiCi, s@),
{
    let cs = str_chars(s);
    let mut out: Vec<char> = Vec::new();
    let mut i: usize = 0;
    proof {
        assert(cs@.take(0) =~= Seq::<char>::empty());
    }
    while i < cs.len()
        invariant
            i <= cs@.len(),
            cs@ == s@,
            out@ == folded(Collation::Utf8Mb4_0900AiCi, cs@.take(i as int)),
        decreases cs@.len() - i,
    {
        push_folded_char(&mut out, cs[i]);
        proof {
            assert(cs@.take(i + 1).drop_last() =~= cs@.take(i as int));
        }
        i = i + 1;
    }
    proof {
        assert(cs@.take(i as int) =~= cs@);
    }
    let text = string_from_chars(out.as_slice());
    vstd::slice::slice_to_vec(text.as_str().as_bytes())
}

/// The `utf8mb4_unicode_ci` sort key: as `utf8mb4_0900_ai_ci`, with `ß`, `æ` and `œ` (either
/// case) expanded to `ss`, `ae` and `oe`.
fn unicode_ci_sort_key(s: &str) -> (r: Vec<u8>)
    ensures
        r@ == sort_key(Collation::Utf8Mb4UnicodeCi, s@),
{
    let cs = str_chars(s);
    let mut out: Vec<char> = Vec::new();
    let mut i: usize = 0;
    proof {
        assert(cs@.take(0) =~= Seq::<char>::empty());
    }
    while i < cs.len()
        invariant
            i <= cs@.len(),
            cs@ == s@,
            out@ == folded(Collation::Utf8Mb4UnicodeCi, cs@.take(i as int)),
        decreases cs@.len() - i,
    {
        push_folded_char_unicode_ci(&mut out, cs[i]);
        proof {
            assert(cs@.take(i + 1).drop_last() =~= cs@.take(i as int));
        }
        i = i + 1;
    }
    proof {
        assert(cs@.take(i as int) =~= cs@);
    }
    let text = string_from_chars(out.as_slice());
    vstd::slice::slice_to_vec(text.as_str().as_bytes())
}

proof fn lemma_lex_step(a: Seq<u8>, b: Seq<u8>, i: int)
    requires
        0 <= i < a.len(),
        i < b.len(),
        a[i] == b[i],
    ensures
        lex_less(a.skip(i), b.skip(i)) == lex_less(a.skip(i + 1), b.skip(i + 1)),
{
    assert(a.skip(i).drop_first() =~= a.skip(i + 1));
    assert(b.skip(i).drop_first() =~= b.skip(i + 1));
}

/// The rank of two byte strings: `-1` when `a` comes first, `0` when equal, `1` after.
pub open spec fn rank_spec(a: Seq<u8>, b: Seq<u8>) -> i8 {
    if lex_less(a, b) {
        -1i8
    } else if a == b {
        0i8
    } else {
        1i8
    }
}

/// Compares two byte strings lexicographically.
fn bytes_rank(a: &Vec<u8>, b: &Vec<u8>) -> (r: i8)
    ensures
        r == rank_spec(a@, b@),
{
    let mut i: usize = 0;
    proof {
        assert(a@.skip(0) =~= a@);
        assert(b@.skip(0) =~= b@);
    }
    while i < a.len() && i < b.len()
        invariant
            i <= a@.len(),
            i <= b@.len(),
            a@.take(i as int) == b@.take(i as int),
            lex_less(a@, b@) == lex_less(a@.skip(i as int), b@.skip(i as int)),
            lex_less(b@, a@) == lex_less(b@.skip(i as int), a@.skip(i as int)),
        decreases a@.len() - i,
    {
        if a[i] < b[i] {
            proof {
                assert(a@.skip(i as int)[0] == a@[i as int]);
                assert(b@.skip(i as int)[0] == b@[i as int]);
                assert(a@ != b@ ==> true);
                assert(a@[i as int] != b@[i as int]);
            }
            return -1;
        }
        if a[i] > b[i] {
            proof {
                assert(a@.skip(i as int)[0] == a@[i as int]);
                assert(b@.skip(i as int)[0] == b@[i as int]);
                assert(a@[i as int] != b@[i as int]);
            }
            return 1;
        }
        proof {
            lemma_lex_step(a@, b@, i as int);
            lemma_lex_step(b@, a@, i as int);
            assert(a@.take(i + 1) =~= a@.take(i as int).push(a@[i as int]));
            assert(b@.take(i + 1) =~= b@.take(i as int).push(b@[i as int]));
        }
        i = i + 1;
    }
    if a.len() == b.len() {
        proof {
            assert(a@ =~= a@.take(i as int));
            assert(b@ =~= b@.take(i as int));
            assert(a@.skip(i as int).len() == 0);
            assert(b@.skip(i as int).len() == 0);
        }
        0
    } else if a.len() < b.len() {
        proof {
            assert(a@.skip(i as int).len() == 0);
            assert(a@.len() != b@.len());
        }
        -1
    } else {
        proof {
            assert(b@.skip(i as int).len() == 0);
            assert(a@.len() != b@.len());
        }
        1
    }
}

impl Collation {
    /// The collation's name.
    pub fn name(self) -> (r: &'static str)
        ensures
            r@ == match self {
                Collation::Utf8Mb4_0900AiCi => "utf8mb4_0900_ai_ci"@,
                Collation::Utf8Mb4UnicodeCi => "utf8mb4_unicode_ci"@,
            },
    {
        match self {
            Collation::Utf8Mb4_0900AiCi => "utf8mb4_0900_ai_ci",
            Collation::Utf8Mb4UnicodeCi => "utf8mb4_unicode_ci",
        }
    }

    /// The character set of every supported collation.
    pub fn charset(self) -> (r: &'static str)
        ensures
            r@ == "utf8mb4"@,
    {
        "utf8mb4"
    }

    /// The collation of a name, in any ASCII case.
    pub fn from_name(name: &str) -> (r: Option<Self>)
        ensures
            r == (if ascii_lower_seq(name@) == "utf8mb4_0900_ai_ci"@ {
                Some(Collation::Utf8Mb4_0900AiCi)
            } else if ascii_lower_seq(name@) == "utf8mb4_unicode_ci"@ {
                Some(Collation::Utf8Mb4UnicodeCi)
            } else {
                None
            }),
    {
        let lower = to_ascii_lowercase(name);
        if str_eq(lower.as_str(), "utf8mb4_0900_ai_ci") {
            Some(Collation::Utf8Mb4_0900AiCi)
        } else if str_eq(lower.as_str(), "utf8mb4_unicode_ci") {
            Some(Collation::Utf8Mb4UnicodeCi)
        } else {
            None
        }
    }

    /// All collations advertised by `SHOW COLLATION`.
    pub fn supported() -> (r: Vec<Self>)
        ensures
            r@ == seq![Collation::Utf8Mb4_0900AiCi, Collation::Utf8Mb4UnicodeCi],
    {
        vec![Collation::Utf8Mb4_0900AiCi, Collation::Utf8Mb4UnicodeCi]
    }

    /// Orders two strings by their sort keys.
    pub fn compare(self, a: &str, b: &str) -> (r: Ordering)
        ensures
            r == key_order(sort_key(self, a@), sort_key(self, b@)),
    {
        let (ka, kb) = match self {
            Collation::Utf8Mb4_0900AiCi => (ai_ci_0900_sort_key(a), ai_ci_0900_sort_key(b)),
            Collation::Utf8Mb4UnicodeCi => (unicode_ci_sort_key(a), unicode_ci_sort_key(b)),
        };
        let rank = bytes_rank(&ka, &kb);
        if rank < 0 {
            Ordering::Less
        } else if rank == 0 {
            Ordering::Equal
        } else {
            Ordering::Greater
        }
    }

    /// Whether two strings are equal under the collation: their sort keys are.
    pub fn eq(self, a: &str, b: &str) -> (r: bool)
        ensures
            r == (sort_key(self, a@) == sort_key(self, b@)),
    {
        let o = self.compare(a, b);
        proof {
            lemma_lex_irreflexive(sort_key(self, a@));
        }
        match o {
            Ordering::Equal => true,
            _ => false,
        }
    }
}

proof fn lemma_lex_irreflexive(a: Seq<u8>)
    ensures
        !lex_less(a, a),
    decreases a.len(),
{
    if a.len() > 0 {
        lemma_lex_irreflexive(a.drop_first());
    }
}

proof fn lemma_lex_asymmetric(a: Seq<u8>, b: Seq<u8>)
    ensures
        lex_less(a, b) ==> !lex_less(b, a),
    decreases a.len(),
{
    if a.len() > 0 && b.len() > 0 && a[0] == b[0] {
        lemma_lex_asymmetric(a.drop_first(), b.drop_first());
    }
}

proof fn lemma_lex_total(a: Seq<u8>, b: Seq<u8>)
    ensures
        a != b ==> lex_less(a, b) || lex_less(b, a),
    decreases a.len(),
{
    if a.len() > 0 && b.len() > 0 && a[0] == b[0] {
        lemma_lex_total(a.drop_first(), b.drop_first());
        if a.drop_first() == b.drop_first() {
            assert(a =~= seq![a[0]] + a.drop_first());
            assert(b =~= seq![b[0]] + b.drop_first());
        }
    } else if a.len() == 0 && b.len() == 0 {
        assert(a =~= b);
    }
}

proof fn lemma_lex_transitive(a: Seq<u8>, b: Seq<u8>, c: Seq<u8>)
    requires
        lex_less(a, b),
        lex_less(b, c),
    ensures
        lex_less(a, c),
    decreases a.len(),
{
    if a.len() > 0 && b.len() > 0 && c.len() > 0 && a[0] == b[0] && b[0] == c[0] {
        lemma_lex_transitive(a.drop_first(), b.drop_first(), c.drop_first());
    }
}

/// `Collation::compare` is a total order on sort keys: it is `Equal` exactly when the
/// collation finds the strings equal, swapping the arguments swaps `Less` and `Greater`, and
/// `Less` is transitive. So `compare` is a valid sort order and `eq` an equivalence.
pub proof fn lemma_compare_total_order(collation: Collation, a: Seq<char>, b: Seq<char>, c: Seq<char>)
    ensures
        (key_order(sort_key(collation, a), sort_key(collation, b)) == Ordering::Equal) == (
        sort_key(collation, a) == sort_key(collation, b)),
        (key_order(sort_key(collation, a), sort_key(collation, b)) == Ordering::Less) == (
        key_order(sort_key(collation, b), sort_key(collation, a)) == Ordering::Greater),
        key_order(sort_key(collation, a), sort_key(collation, b)) == Ordering::Less
            && key_order(sort_key(collation, b), sort_key(collation, c)) == Ordering::Less
            ==> key_order(sort_key(collation, a), sort_key(collation, c)) == Ordering::Less,
{
    let ka = sort_key(collation, a);
    let kb = sort_key(collation, b);
    let kc = sort_key(collation, c);
    lemma_lex_irreflexive(ka);
    lemma_lex_asymmetric(ka, kb);
    lemma_lex_asymmetric(kb, ka);
    lemma_lex_total(ka, kb);
    if lex_less(ka, kb) && lex_less(kb, kc) {
        lemma_lex_transitive(ka, kb, kc);
    }
}

} // verus!
