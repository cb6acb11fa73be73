//! Code-point order on strings (the order of `String`'s `Ord`: UTF-8 byte order agrees with
//! code-point order) and sorting of string lists by it.
use vstd::prelude::*;
use crate::text::str_chars;

verus! {

/// Lexicographic code-point order: a proper prefix comes first.
pub open spec fn text_less(a: Seq<char>, b: Seq<char>) -> bool
    decreases a.len(),
{
    if a.len() == 0 {
        b.len() > 0
    } else if b.len() == 0 {
        false
    } else if a[0] != b[0] {
        (a[0] as u32) < (b[0] as u32)
    } else {
        text_less(a.drop_first(), b.drop_first())
    }
}

/// Whether a list of texts is in non-decreasing code-point order.
pub open spec fn texts_sorted(s: Seq<Seq<char>>) -> bool {
    forall|i: int, j: int| 0 <= i < j < s.len() ==> !text_less(#[trigger] s[j], #[trigger] s[i])
}

/// The texts of a list of strings.
pub open spec fn texts_of(v: Seq<String>) -> Seq<Seq<char>> {
    Seq::new(v.len(), |i: int| v[i]@)
}

pub proof fn lemma_text_irreflexive(a: Seq<char>)
    ensures
        !text_less(a, a),
    decreases a.len(),
{
    if a.len() > 0 {
        lemma_text_irreflexive(a.drop_first());
    }
}

pub proof fn lemma_text_total(a: Seq<char>, b: Seq<char>)
    ensures
        a != b ==> text_less(a, b) || text_less(b, a),
        !(text_less(a, b) && text_less(b, a)),
    decreases a.len(),
{
    if a.len() > 0 && b.len() > 0 {
        if a[0] == b[0] {
            lemma_text_total(a.drop_first(), b.drop_first());
            if a.drop_first() == b.drop_first() {
                assert(a =~= seq![a[0]] + a.drop_first());
                assert(b =~= seq![b[0]] + b.drop_first());
            }
        } else {
            vstd::utf8::char_u32_cast(a[0], a[0] as u32);
            vstd::utf8::char_u32_cast(b[0], b[0] as u32);
        }
    } else if a.len() == 0 && b.len() == 0 {
        assert(a =~= b);
    }
}

pub proof fn lemma_text_transitive(a: Seq<char>, b: Seq<char>, c: Seq<char>)
    requires
        text_less(a, b),
        text_less(b, c),
    ensures
        text_less(a, c),
    decreases a.len(),
{
    if a.len() > 0 && b.len() > 0 && c.len() > 0 && a[0] == b[0] && b[0] == c[0] {
        lemma_text_transitive(a.drop_first(), b.drop_first(), c.drop_first());
    } else if a.len() > 0 && b.len() > 0 && c.len() > 0 {
        if a[0] != c[0] {
        } else {
            vstd::utf8::char_u32_cast(a[0], a[0] as u32);
            vstd::utf8::char_u32_cast(c[0], c[0] as u32);
        }
    }
}

/// Whether `a` comes before `b` in code-point order.
pub fn str_less(a: &str, b: &str) -> (r: bool)
    ensures
        r == text_less(a@, b@),
{
    let x = str_chars(a);
    let y = str_chars(b);
    let mut i: usize = 0;
    proof {
        assert(x@.skip(0) =~= x@);
        assert(y@.skip(0) =~= y@);
    }
    while i < x.len() && i < y.len()
        invariant
            i <= x@.len(),
            i <= y@.len(),
            text_less(a@, b@) == text_less(x@.skip(i as int), y@.skip(i as int)),
            x@ == a@,
            y@ == b@,
        decreases x@.len() - i,
    {
        proof {
            assert(x@.skip(i as int)[0] == x@[i as int]);
            assert(y@.skip(i as int)[0] == y@[i as int]);
        }
        if x[i] != y[i] {
            return (x[i] as u32) < (y[i] as u32);
        }
        proof {
            assert(x@.skip(i as int).drop_first() =~= x@.skip(i + 1));
            assert(y@.skip(i as int).drop_first() =~= y@.skip(i + 1));
        }
        i = i + 1;
    }
    i < y.len()
}

/// Sorts strings into code-point order (insertion sort; equal strings are identical).
pub fn sort_strings(v: Vec<String>) -> (r: Vec<String>)
    ensures
        texts_sorted(texts_of(r@)),
        texts_of(r@).to_multiset() == texts_of(v@).to_multiset(),
{
    let mut out: Vec<String> = Vec::new();
    let mut rest = v;
    let ghost orig = texts_of(rest@);
    proof {
        assert(texts_of(out@) =~= Seq::<Seq<char>>::empty());
        assert(texts_of(out@) =~= orig.take(0));
        assert(orig.skip(0) =~= orig);
    }
    let mut k: usize = 0;
    let n = rest.len();
    while rest.len() > 0
        invariant
            orig.len() == n,
            texts_sorted(texts_of(out@)),
            k <= orig.len(),
            texts_of(rest@) == orig.skip(k as int),
            texts_of(out@).to_multiset() == orig.take(k as int).to_multiset(),
        decreases rest@.len(),
    {
        let ghost before = texts_of(out@);
        let ghost old_rest = rest@;
        let x = rest.remove(0);
        proof {
            assert(texts_of(old_rest).len() == old_rest.len());
            assert(k < orig.len());
            assert(texts_of(old_rest)[0] == old_rest[0]@);
            assert(texts_of(old_rest)[0] == orig.skip(k as int)[0]);
            assert(x@ == orig[k as int]);
            assert forall|t: int| 0 <= t < texts_of(rest@).len() implies texts_of(rest@)[t]
                == orig.skip(k + 1)[t] by {
                assert(texts_of(rest@)[t] == rest@[t]@);
                assert(rest@[t] == old_rest[t + 1]);
                assert(texts_of(old_rest)[t + 1] == old_rest[t + 1]@);
                assert(texts_of(old_rest)[t + 1] == orig.skip(k as int)[t + 1]);
            }
            assert(texts_of(rest@) =~= orig.skip(k + 1));
        }
        let mut j: usize = 0;
        while j < out.len() && !str_less(x.as_str(), out[j].as_str())
            invariant
                j <= out@.len(),
                texts_of(out@) == before,
                forall|t: int| 0 <= t < j ==> !text_less(x@, #[trigger] before[t]),
            decreases out@.len() - j,
        {
            j = j + 1;
        }
        proof {
            assert forall|t: int| j <= t < before.len() implies !text_less(
                #[trigger] before[t],
                x@,
            ) by {
                if j < before.len() {
                    assert(text_less(x@, before[j as int]));
                    lemma_text_total(x@, before[j as int]);
                    if t > j {
                        assert(!text_less(before[t], before[j as int]));
                        lemma_text_total(before[t], before[j as int]);
                        if text_less(before[t], x@) {
                            if before[t] == before[j as int] {
                            } else {
                                lemma_text_transitive(before[j as int], before[t], x@);
                                lemma_text_total(x@, before[j as int]);
                            }
                        }
                    }
                }
            }
        }
        out.insert(j, x);
        proof {
            let after = texts_of(out@);
            assert(after =~= before.insert(j as int, x@));
            assert forall|a: int, b: int| 0 <= a < b < after.len() implies !text_less(
                #[trigger] after[b],
                #[trigger] after[a],
            ) by {
                if a < j && b == j {
                    assert(after[a] == before[a]);
                } else if a == j && b > j {
                    assert(after[b] == before[b - 1]);
                } else if a < j && b > j {
                    assert(after[a] == before[a]);
                    assert(after[b] == before[b - 1]);
                } else if b < j {
                    assert(after[a] == before[a]);
                    assert(after[b] == before[b]);
                } else {
                    assert(after[a] == before[a - 1]);
                    assert(after[b] == before[b - 1]);
                }
            }
            vstd::seq_lib::to_multiset_insert(before, j as int, x@);
            assert(orig.take(k + 1) =~= orig.take(k as int).push(orig[k as int]));
            vstd::seq_lib::to_multiset_build(orig.take(k as int), orig[k as int]);
        }
        k = k + 1;
    }
    proof {
        assert(orig.take(k as int) =~= orig);
    }
    out
}


/// Lexicographic order on lists of texts, each compared in code-point order.
pub open spec fn keys_less(a: Seq<Seq<char>>, b: Seq<Seq<char>>) -> bool
    decreases a.len(),
{
    if a.len() == 0 {
        b.len() > 0
    } else if b.len() == 0 {
        false
    } else if a[0] != b[0] {
        text_less(a[0], b[0])
    } else {
        keys_less(a.drop_first(), b.drop_first())
    }
}

pub proof fn lemma_keys_order(a: Seq<Seq<char>>, b: Seq<Seq<char>>)
    ensures
        !keys_less(a, a),
        a != b ==> keys_less(a, b) || keys_less(b, a),
        !(keys_less(a, b) && keys_less(b, a)),
    decreases a.len(),
{
    if a.len() > 0 {
        lemma_keys_order(a.drop_first(), a.drop_first());
    }
    if a.len() > 0 && b.len() > 0 {
        if a[0] == b[0] {
            lemma_keys_order(a.drop_first(), b.drop_first());
            if a.drop_first() == b.drop_first() {
                assert(a =~= seq![a[0]] + a.drop_first());
                assert(b =~= seq![b[0]] + b.drop_first());
            }
        } else {
            lemma_text_total(a[0], b[0]);
        }
    } else if a.len() == 0 && b.len() == 0 {
        assert(a =~= b);
    }
}

pub proof fn lemma_keys_transitive(a: Seq<Seq<char>>, b: Seq<Seq<char>>, c: Seq<Seq<char>>)
    requires
        keys_less(a, b),
        keys_less(b, c),
    ensures
        keys_less(a, c),
    decreases a.len(),
{
    if a.len() > 0 && b.len() > 0 && c.len() > 0 {
        if a[0] == b[0] && b[0] == c[0] {
            lemma_keys_transitive(a.drop_first(), b.drop_first(), c.drop_first());
        } else if a[0] == b[0] {
        } else if b[0] == c[0] {
        } else {
            lemma_text_transitive(a[0], b[0], c[0]);
            if a[0] == c[0] {
                lemma_text_total(a[0], b[0]);
            }
        }
    }
}

/// Whether `a` comes before `b` in the lexicographic order of their texts.
pub fn keys_less_exec(a: &Vec<String>, b: &Vec<String>) -> (r: bool)
    ensures
        r == keys_less(texts_of(a@), texts_of(b@)),
{
    let ghost ta = texts_of(a@);
    let ghost tb = texts_of(b@);
    let mut i: usize = 0;
    proof {
        assert(ta.skip(0) =~= ta);
        assert(tb.skip(0) =~= tb);
    }
    while i < a.len() && i < b.len()
        invariant
            i <= a@.len(),
            i <= b@.len(),
            ta == texts_of(a@),
            tb == texts_of(b@),
            keys_less(ta, tb) == keys_less(ta.skip(i as int), tb.skip(i as int)),
        decreases a@.len() - i,
    {
        proof {
            assert(ta.skip(i as int)[0] == a@[i as int]@);
            assert(tb.skip(i as int)[0] == b@[i as int]@);
        }
        if !crate::text::str_eq(a[i].as_str(), b[i].as_str()) {
            return str_less(a[i].as_str(), b[i].as_str());
        }
        proof {
            assert(ta.skip(i as int).drop_first() =~= ta.skip(i + 1));
            assert(tb.skip(i as int).drop_first() =~= tb.skip(i + 1));
        }
        i = i + 1;
    }
    i < b.len()
}

/// `order` lists each index of `keys` once, in non-decreasing key order, with equal keys in
/// their original order (the order a stable sort gives).
pub open spec fn stable_order(keys: Seq<Seq<Seq<char>>>, order: Seq<usize>) -> bool {
    &&& order.len() == keys.len()
    &&& order.no_duplicates()
    &&& forall|i: int| 0 <= i < order.len() ==> order[i] < keys.len()
    &&& forall|m: int| 0 <= m < keys.len() ==> #[trigger] order.contains(m as usize)
    &&& forall|i: int, j: int|
        0 <= i < j < order.len() ==> !keys_less(
            #[trigger] keys[order[j] as int],
            #[trigger] keys[order[i] as int],
        )
    &&& forall|i: int, j: int|
        0 <= i < j < order.len() && keys[order[i] as int] == keys[order[j] as int] ==> order[i]
            < order[j]
}

/// The order in which a stable sort by `keys` puts the indices of `keys`.
pub fn stable_sort_order(keys: &Vec<Vec<String>>) -> (r: Vec<usize>)
    ensures
        stable_order(Seq::new(keys@.len(), |i: int| texts_of(keys@[i]@)), r@),
{
    let ghost ks = Seq::new(keys@.len(), |i: int| texts_of(keys@[i]@));
    let mut out: Vec<usize> = Vec::new();
    let mut k: usize = 0;
    while k < keys.len()
        invariant
            k <= keys@.len(),
            ks == Seq::new(keys@.len(), |i: int| texts_of(keys@[i]@)),
            out@.len() == k,
            out@.no_duplicates(),
            forall|i: int| 0 <= i < out@.len() ==> out@[i] < k,
            forall|m: int| 0 <= m < k ==> #[trigger] out@.contains(m as usize),
            forall|i: int, j: int|
                0 <= i < j < out@.len() ==> !keys_less(
                    #[trigger] ks[out@[j] as int],
                    #[trigger] ks[out@[i] as int],
                ),
            forall|i: int, j: int|
                0 <= i < j < out@.len() && ks[out@[i] as int] == ks[out@[j] as int] ==> out@[i]
                    < out@[j],
        decreases keys@.len() - k,
    {
        let ghost before = out@;
        let ghost xk = ks[k as int];
        let mut j: usize = 0;
        while j < out.len() && !keys_less_exec(&keys[k], &keys[out[j]])
            invariant
                j <= out@.len(),
                out@ == before,
                k < keys@.len(),
                xk == ks[k as int],
                ks == Seq::new(keys@.len(), |i: int| texts_of(keys@[i]@)),
                forall|i: int| 0 <= i < out@.len() ==> out@[i] < k,
                forall|t: int| 0 <= t < j ==> !keys_less(xk, #[trigger] ks[before[t] as int]),
            decreases out@.len() - j,
        {
            j = j + 1;
        }
        proof {
            assert forall|t: int| j <= t < before.len() implies keys_less(
                xk,
                #[trigger] ks[before[t] as int],
            ) by {
                let xj = ks[before[j as int] as int];
                let xt = ks[before[t] as int];
                assert(keys_less(xk, xj));
                if t > j {
                    assert(!keys_less(xt, xj));
                    lemma_keys_order(xt, xj);
                    if xt == xj {
                    } else {
                        lemma_keys_transitive(xk, xj, xt);
                    }
                }
            }
        }
        out.insert(j, k);
        proof {
            let after = out@;
            assert(after =~= before.insert(j as int, k));
            assert forall|a: int, b: int| 0 <= a < b < after.len() implies !keys_less(
                #[trigger] ks[after[b] as int],
                #[trigger] ks[after[a] as int],
            ) by {
                if a < j && b == j {
                    assert(after[a] == before[a]);
                } else if a == j && b > j {
                    assert(after[b] == before[b - 1]);
                    lemma_keys_order(xk, ks[before[b - 1] as int]);
                } else if a < j && b > j {
                    assert(after[a] == before[a]);
                    assert(after[b] == before[b - 1]);
                } else if b < j {
                    assert(after[a] == before[a]);
                    assert(after[b] == before[b]);
                } else {
                    assert(after[a] == before[a - 1]);
                    assert(after[b] == before[b - 1]);
                }
            }
            assert forall|a: int, b: int|
                0 <= a < b < after.len() && ks[after[a] as int] == ks[after[b] as int] implies after[a]
                < after[b] by {
                if a < j && b == j {
                    assert(after[a] == before[a]);
                } else if a == j && b > j {
                    assert(after[b] == before[b - 1]);
                    lemma_keys_order(xk, xk);
                } else if a < j && b > j {
                    assert(after[a] == before[a]);
                    assert(after[b] == before[b - 1]);
                } else if b < j {
                    assert(after[a] == before[a]);
                    assert(after[b] == before[b]);
                } else {
                    assert(after[a] == before[a - 1]);
                    assert(after[b] == before[b - 1]);
                }
            }
            assert forall|a: int, b: int| 0 <= a < after.len() && 0 <= b < after.len() && a != b implies after[a]
                != after[b] by {
                if a != j && b != j {
                    let a0 = if a < j { a } else { a - 1 };
                    let b0 = if b < j { b } else { b - 1 };
                    assert(after[a] == before[a0]);
                    assert(after[b] == before[b0]);
                } else if a == j {
                    let b0 = if b < j { b } else { b - 1 };
                    assert(after[b] == before[b0]);
                } else {
                    let a0 = if a < j { a } else { a - 1 };
                    assert(after[a] == before[a0]);
                }
            }
            assert forall|i: int| 0 <= i < after.len() implies after[i] < k + 1 by {
                if i < j {
                    assert(after[i] == before[i]);
                } else if i > j {
                    assert(after[i] == before[i - 1]);
                }
            }
            assert forall|m: int| 0 <= m < k + 1 implies #[trigger] after.contains(m as usize) by {
                if m == k {
                    assert(after[j as int] == k);
                } else {
                    assert(before.contains(m as usize));
                    let t = choose|t: int| 0 <= t < before.len() && before[t] == m as usize;
                    if t < j {
                        assert(after[t] == before[t]);
                    } else {
                        assert(after[t + 1] == before[t]);
                    }
                }
            }
        }
        k = k + 1;
    }
    out
}


/// A rearrangement of a list without repeats has no repeats and the same elements.
pub proof fn lemma_permutation_distinct<A>(a: Seq<A>, b: Seq<A>)
    requires
        a.to_multiset() == b.to_multiset(),
        a.no_duplicates(),
    ensures
        b.no_duplicates(),
        b.to_set() == a.to_set(),
{
    broadcast use vstd::seq_lib::to_multiset_contains;

    a.lemma_multiset_has_no_duplicates();
    b.lemma_multiset_has_no_duplicates_conv();
    assert forall|x: A| b.to_set().contains(x) <==> a.to_set().contains(x) by {
        assert(b.contains(x) <==> b.to_multiset().count(x) > 0);
        assert(a.contains(x) <==> a.to_multiset().count(x) > 0);
    }
    assert(b.to_set() =~= a.to_set());
}

} // verus!
