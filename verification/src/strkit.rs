//! String-scanning primitives: substring search, prefix tests, and the
//! lexicographic order used to keep link sets sorted and duplicate-free.

use vstd::prelude::*;

verus! {

/// The pattern `p` occurs in `s` starting at position `i`.
pub open spec fn matches_at(s: Seq<char>, p: Seq<char>, i: int) -> bool {
    0 <= i && i + p.len() <= s.len() && (forall|k: int| 0 <= k < p.len() ==> s[i + k] == p[k])
}

/// Position of the first occurrence of `p` in `s` at or after `i`.
pub open spec fn find_from(s: Seq<char>, p: Seq<char>, i: int) -> Option<int>
    decreases s.len() - i,
{
    if i < 0 || i + p.len() > s.len() {
        None
    } else if matches_at(s, p, i) {
        Some(i)
    } else {
        find_from(s, p, i + 1)
    }
}

/// Position of the first occurrence of `p` in `s`, if any.
pub open spec fn find_spec(s: Seq<char>, p: Seq<char>) -> Option<int> {
    find_from(s, p, 0)
}

/// `find_from` returns exactly the least match position at or after `i`.
pub proof fn lemma_find_from(s: Seq<char>, p: Seq<char>, i: int)
    requires
        0 <= i,
    ensures
        match find_from(s, p, i) {
            Some(k) => i <= k && matches_at(s, p, k) && (forall|j: int|
                i <= j < k ==> !matches_at(s, p, j)),
            None => forall|j: int| i <= j ==> !matches_at(s, p, j),
        },
    decreases s.len() - i,
{
    if i + p.len() > s.len() {
        assert forall|j: int| i <= j implies !matches_at(s, p, j) by {
            assert(j + p.len() > s.len());
        }
    } else if matches_at(s, p, i) {
    } else {
        lemma_find_from(s, p, i + 1);
    }
}

/// A match at `i` with no earlier match pins `find_spec` down to `Some(i)`.
pub proof fn lemma_find_spec_is(s: Seq<char>, p: Seq<char>, i: int)
    requires
        matches_at(s, p, i),
        forall|j: int| 0 <= j < i ==> !matches_at(s, p, j),
    ensures
        find_spec(s, p) == Some(i),
{
    lemma_find_from(s, p, 0);
    match find_from(s, p, 0) {
        Some(k) => {
            if k < i {
                assert(!matches_at(s, p, k));
            } else if k > i {
                assert(!matches_at(s, p, i));
            }
        },
        None => {
            assert(!matches_at(s, p, i));
        },
    }
}

/// No match anywhere pins `find_spec` down to `None`.
pub proof fn lemma_find_spec_none(s: Seq<char>, p: Seq<char>)
    requires
        forall|j: int| !matches_at(s, p, j),
    ensures
        find_spec(s, p) is None,
{
    lemma_find_from(s, p, 0);
    match find_from(s, p, 0) {
        Some(k) => {
            assert(!matches_at(s, p, k));
        },
        None => {},
    }
}

/// First occurrence of `p` in `s`, as a character offset.
/// Mirrors what a fixed-pattern search of the standard library reports.
pub fn find_sub(s: &str, p: &str) -> (r: Option<usize>)
    ensures
        match r {
            Some(i) => find_spec(s@, p@) == Some(i as int),
            None => find_spec(s@, p@) is None,
        },
{
    let n: usize = s.unicode_len();
    let m: usize = p.unicode_len();
    if m > n {
        proof {
            assert forall|j: int| !matches_at(s@, p@, j) by {}
            lemma_find_spec_none(s@, p@);
        }
        return None;
    }
    let mut i: usize = 0;
    while i <= n - m
        invariant
            0 <= i <= n - m + 1,
            m <= n,
            n == s@.len(),
            m == p@.len(),
            forall|j: int| 0 <= j < i ==> !matches_at(s@, p@, j),
        decreases n - m + 1 - i,
    {
        let mut k: usize = 0;
        let mut all_eq: bool = true;
        while k < m
            invariant
                0 <= k <= m,
                i + m <= n,
                n == s@.len(),
                m == p@.len(),
                all_eq == (forall|t: int| 0 <= t < k ==> s@[i + t] == p@[t]),
            decreases m - k,
        {
            let cs: char = s.get_char(i + k);
            let cp: char = p.get_char(k);
            if cs != cp {
                all_eq = false;
                proof {
                    assert(!(s@[i + k] == p@[k as int]));
                }
                k = m;
            } else {
                k = k + 1;
            }
        }
        if all_eq {
            proof {
                assert(matches_at(s@, p@, i as int));
                lemma_find_spec_is(s@, p@, i as int);
            }
            return Some(i);
        }
        proof {
            assert(!matches_at(s@, p@, i as int));
        }
        i = i + 1;
    }
    proof {
        assert forall|j: int| !matches_at(s@, p@, j) by {
            if 0 <= j < i {
            } else if j >= i {
                assert(j + p@.len() > s@.len());
            }
        }
        lemma_find_spec_none(s@, p@);
    }
    None
}

/// `p` is a prefix of `s`.
pub open spec fn is_prefix(p: Seq<char>, s: Seq<char>) -> bool {
    p.len() <= s.len() && (forall|k: int| 0 <= k < p.len() ==> s[k] == p[k])
}

/// Whether `s` starts with `p`, character for character.
pub fn starts_with(s: &str, p: &str) -> (r: bool)
    ensures
        r == is_prefix(p@, s@),
{
    let n: usize = s.unicode_len();
    let m: usize = p.unicode_len();
    if m > n {
        return false;
    }
    let mut k: usize = 0;
    while k < m
        invariant
            0 <= k <= m <= n,
            n == s@.len(),
            m == p@.len(),
            forall|t: int| 0 <= t < k ==> s@[t] == p@[t],
        decreases m - k,
    {
        let cs: char = s.get_char(k);
        let cp: char = p.get_char(k);
        if cs != cp {
            return false;
        }
        k = k + 1;
    }
    true
}

/// Lexicographic order on character sequences, by code point.
pub open spec fn lex_le(a: Seq<char>, b: Seq<char>) -> bool
    decreases a.len(),
{
    if a.len() == 0 {
        true
    } else if b.len() == 0 {
        false
    } else if a[0] != b[0] {
        (a[0] as u32) < (b[0] as u32)
    } else {
        lex_le(a.drop_first(), b.drop_first())
    }
}

/// Strict lexicographic order.
pub open spec fn lex_lt(a: Seq<char>, b: Seq<char>) -> bool {
    lex_le(a, b) && a != b
}

/// The order is total.
pub proof fn lemma_lex_total(a: Seq<char>, b: Seq<char>)
    ensures
        lex_le(a, b) || lex_le(b, a),
    decreases a.len(),
{
    if a.len() == 0 || b.len() == 0 {
    } else if a[0] != b[0] {
        vstd::utf8::char_u32_cast(a[0], a[0] as u32);
        vstd::utf8::char_u32_cast(b[0], b[0] as u32);
        assert(a[0] as u32 != b[0] as u32);
    } else {
        lemma_lex_total(a.drop_first(), b.drop_first());
    }
}

/// The order is antisymmetric.
pub proof fn lemma_lex_antisym(a: Seq<char>, b: Seq<char>)
    requires
        lex_le(a, b),
        lex_le(b, a),
    ensures
        a == b,
    decreases a.len(),
{
    if a.len() == 0 {
        assert(b.len() == 0);
        assert(a =~= b);
    } else {
        assert(b.len() > 0);
        if a[0] != b[0] {
            vstd::utf8::char_u32_cast(a[0], a[0] as u32);
            vstd::utf8::char_u32_cast(b[0], b[0] as u32);
            assert(false);
        }
        lemma_lex_antisym(a.drop_first(), b.drop_first());
        assert forall|i: int| 0 <= i < a.len() implies a[i] == b[i] by {
            if i > 0 {
                assert(a[i] == a.drop_first()[i - 1]);
                assert(b[i] == b.drop_first()[i - 1]);
            }
        }
        assert(a =~= b);
    }
}

/// The order is transitive.
pub proof fn lemma_lex_trans(a: Seq<char>, b: Seq<char>, c: Seq<char>)
    requires
        lex_le(a, b),
        lex_le(b, c),
    ensures
        lex_le(a, c),
    decreases a.len(),
{
    if a.len() == 0 {
    } else if b.len() == 0 {
    } else if c.len() == 0 {
    } else {
        if a[0] == b[0] && b[0] == c[0] {
            lemma_lex_trans(a.drop_first(), b.drop_first(), c.drop_first());
        }
    }
}

/// Strict order is transitive.
pub proof fn lemma_lex_lt_trans(a: Seq<char>, b: Seq<char>, c: Seq<char>)
    requires
        lex_lt(a, b),
        lex_lt(b, c),
    ensures
        lex_lt(a, c),
{
    lemma_lex_trans(a, b, c);
    if a == c {
        lemma_lex_antisym(a, b);
    }
}

/// Equal prefixes do not affect the order of what follows them.
pub proof fn lemma_lex_le_skip(a: Seq<char>, b: Seq<char>, i: int)
    requires
        0 <= i <= a.len(),
        i <= b.len(),
        forall|j: int| 0 <= j < i ==> a[j] == b[j],
    ensures
        lex_le(a, b) == lex_le(a.skip(i), b.skip(i)),
    decreases i,
{
    if i == 0 {
        assert(a.skip(0) =~= a);
        assert(b.skip(0) =~= b);
    } else {
        assert(a.len() > 0 && b.len() > 0 && a[0] == b[0]);
        assert(a.drop_first() =~= a.skip(1));
        assert(b.drop_first() =~= b.skip(1));
        lemma_lex_le_skip(a.skip(1), b.skip(1), i - 1);
        assert(a.skip(1).skip(i - 1) =~= a.skip(i));
        assert(b.skip(1).skip(i - 1) =~= b.skip(i));
    }
}

/// Whether `a` comes at or before `b` in lexicographic order.
pub fn str_le(a: &str, b: &str) -> (r: bool)
    ensures
        r == lex_le(a@, b@),
{
    let na: usize = a.unicode_len();
    let nb: usize = b.unicode_len();
    let n: usize = if na < nb {
        na
    } else {
        nb
    };
    let mut i: usize = 0;
    while i < n
        invariant
            0 <= i <= n,
            n == if na < nb {
                na as int
            } else {
                nb as int
            },
            na == a@.len(),
            nb == b@.len(),
            forall|j: int| 0 <= j < i ==> a@[j] == b@[j],
        decreases n - i,
    {
        let ca: char = a.get_char(i);
        let cb: char = b.get_char(i);
        if ca != cb {
            proof {
                lemma_lex_le_skip(a@, b@, i as int);
            }
            return (ca as u32) < (cb as u32);
        }
        i = i + 1;
    }
    proof {
        lemma_lex_le_skip(a@, b@, n as int);
    }
    na <= nb
}

/// Every pair of entries is in strictly increasing order: sorted, no duplicates.
pub open spec fn strictly_sorted(s: Seq<Seq<char>>) -> bool {
    forall|i: int, j: int| 0 <= i < j < s.len() ==> lex_lt(s[i], s[j])
}

/// Inserts `x` into a strictly sorted vector, keeping it sorted and
/// duplicate-free; a value already present is left alone.
pub fn insert_sorted(v: &mut Vec<String>, x: String)
    requires
        strictly_sorted(old(v).deep_view()),
    ensures
        strictly_sorted(final(v).deep_view()),
        forall|s: Seq<char>|
            final(v).deep_view().contains(s) <==> (old(v).deep_view().contains(s) || s == x@),
{
    let ghost dv0: Seq<Seq<char>> = v.deep_view();
    let mut pos: usize = 0;
    while pos < v.len() && !str_le(x.as_str(), v[pos].as_str())
        invariant
            strictly_sorted(v.deep_view()),
            v.deep_view() == dv0,
            0 <= pos <= v.len(),
            v.deep_view().len() == v.len(),
            forall|j: int| 0 <= j < pos ==> lex_lt(#[trigger] v.deep_view()[j], x@),
        decreases v.len() - pos,
    {
        proof {
            lemma_lex_total(x@, v.deep_view()[pos as int]);
            if v.deep_view()[pos as int] == x@ {
                assert(lex_le(x@, v.deep_view()[pos as int]));
            }
        }
        pos = pos + 1;
    }
    if pos < v.len() && str_le(x.as_str(), v[pos].as_str()) {
        if v[pos] == x {
            proof {
                assert(v.deep_view()[pos as int] == x@);
                assert(v.deep_view().contains(x@));
            }
            return;
        }
    }
    proof {
        if pos < v.len() {
            assert(lex_le(x@, dv0[pos as int]));
            assert(dv0[pos as int] != x@);
            assert(lex_lt(x@, dv0[pos as int]));
        }
    }
    v.insert(pos, x);
    proof {
        let dv1 = v.deep_view();
        assert(dv1 =~= dv0.insert(pos as int, x@));
        assert forall|i: int, j: int| 0 <= i < j < dv1.len() implies lex_lt(dv1[i], dv1[j]) by {
            if j < pos {
            } else if i < pos && j == pos {
                assert(dv1[i] == dv0[i]);
                assert(lex_lt(dv0[i], x@));
            } else if i < pos && j > pos {
                assert(dv1[i] == dv0[i]);
                assert(dv1[j] == dv0[j - 1]);
            } else if i == pos {
                assert(dv1[j] == dv0[j - 1]);
                assert(j - 1 >= pos);
                if j - 1 == pos {
                    assert(lex_lt(x@, dv0[pos as int]));
                } else {
                    assert(lex_lt(x@, dv0[pos as int]));
                    assert(lex_lt(dv0[pos as int], dv0[j - 1]));
                    lemma_lex_lt_trans(x@, dv0[pos as int], dv0[j - 1]);
                }
            } else {
                assert(dv1[i] == dv0[i - 1]);
                assert(dv1[j] == dv0[j - 1]);
            }
        }
        assert forall|s: Seq<char>|
            dv1.contains(s) <==> (dv0.contains(s) || s == x@) by {
            if dv1.contains(s) {
                let k = choose|k: int| 0 <= k < dv1.len() && dv1[k] == s;
                if k < pos {
                    assert(dv0[k] == s);
                } else if k == pos {
                } else {
                    assert(dv0[k - 1] == s);
                }
            }
            if dv0.contains(s) {
                let k = choose|k: int| 0 <= k < dv0.len() && dv0[k] == s;
                if k < pos {
                    assert(dv1[k] == s);
                } else {
                    assert(dv1[k + 1] == s);
                }
            }
            if s == x@ {
                assert(dv1[pos as int] == s);
            }
        }
    }
}

} // verus!
