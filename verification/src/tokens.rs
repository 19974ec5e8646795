//! Keyword tokenization of a route: the ordered sequence of maximal runs of
//! ASCII letters and digits; every other character separates tokens.

use vstd::prelude::*;

verus! {

/// A character that belongs to a keyword token.
pub open spec fn is_alnum(c: char) -> bool {
    ('a' <= c && c <= 'z') || ('A' <= c && c <= 'Z') || ('0' <= c && c <= '9')
}

/// Decides whether a character belongs to a keyword token.
pub fn alnum(c: char) -> (r: bool)
    ensures
        r == is_alnum(c),
{
    ('a' <= c && c <= 'z') || ('A' <= c && c <= 'Z') || ('0' <= c && c <= '9')
}

/// Length of the maximal alphanumeric run at the start of `s`.
pub open spec fn run_len(s: Seq<char>) -> nat
    decreases s.len(),
{
    if s.len() == 0 || !is_alnum(s[0]) {
        0
    } else {
        1 + run_len(s.drop_first())
    }
}

/// The run never extends past the end of the sequence.
pub proof fn lemma_run_len_bound(s: Seq<char>)
    ensures
        run_len(s) <= s.len(),
    decreases s.len(),
{
    if s.len() == 0 || !is_alnum(s[0]) {
    } else {
        lemma_run_len_bound(s.drop_first());
    }
}

/// The ordered token sequence of a route: maximal alphanumeric runs, with
/// every separator discarded and no empty token ever produced.
pub open spec fn tokens_spec(s: Seq<char>) -> Seq<Seq<char>>
    decreases s.len(),
    via tokens_spec_dec
{
    if s.len() == 0 {
        Seq::empty()
    } else if !is_alnum(s[0]) {
        tokens_spec(s.drop_first())
    } else {
        seq![s.take(run_len(s) as int)] + tokens_spec(s.skip(run_len(s) as int))
    }
}

#[via_fn]
proof fn tokens_spec_dec(s: Seq<char>) {
    if s.len() > 0 && is_alnum(s[0]) {
        lemma_run_len_bound(s);
        assert(run_len(s) >= 1);
    }
}

/// A run of exactly `k` alphanumeric characters followed by a separator or
/// the end pins `run_len` down to `k`.
pub proof fn lemma_run_len_is(s: Seq<char>, k: int)
    requires
        0 <= k <= s.len(),
        forall|m: int| 0 <= m < k ==> is_alnum(s[m]),
        k == s.len() || !is_alnum(s[k]),
    ensures
        run_len(s) == k,
    decreases k,
{
    if k == 0 {
    } else {
        assert(is_alnum(s[0]));
        assert forall|m: int| 0 <= m < k - 1 implies is_alnum(s.drop_first()[m]) by {
            assert(s.drop_first()[m] == s[m + 1]);
        }
        if k - 1 < s.drop_first().len() {
            assert(s.drop_first()[k - 1] == s[k]);
        }
        lemma_run_len_is(s.drop_first(), k - 1);
    }
}

/// Dropping a leading separator does not change the tokens.
pub proof fn lemma_tokens_sep(s: Seq<char>, i: int)
    requires
        0 <= i < s.len(),
        !is_alnum(s[i]),
    ensures
        tokens_spec(s.skip(i)) == tokens_spec(s.skip(i + 1)),
{
    assert(s.skip(i)[0] == s[i]);
    assert(s.skip(i).drop_first() =~= s.skip(i + 1));
}

/// A maximal run starting at `i` and ending at `j` contributes exactly one
/// token, the run itself.
pub proof fn lemma_tokens_run(s: Seq<char>, i: int, j: int)
    requires
        0 <= i < j <= s.len(),
        forall|m: int| i <= m < j ==> is_alnum(s[m]),
        j == s.len() || !is_alnum(s[j]),
    ensures
        tokens_spec(s.skip(i)) == seq![s.subrange(i, j)] + tokens_spec(s.skip(j)),
{
    let t = s.skip(i);
    assert(t[0] == s[i]);
    assert forall|m: int| 0 <= m < j - i implies is_alnum(t[m]) by {
        assert(t[m] == s[i + m]);
    }
    if j - i < t.len() {
        assert(t[j - i] == s[j]);
    }
    lemma_run_len_is(t, j - i);
    assert(t.take(j - i) =~= s.subrange(i, j));
    assert(t.skip(j - i) =~= s.skip(j));
}

/// The ordered keyword tokens of a route.
pub fn tokenize(route: &str) -> (r: Vec<String>)
    ensures
        r.deep_view() == tokens_spec(route@),
{
    let n: usize = route.unicode_len();
    let mut out: Vec<String> = Vec::new();
    let mut i: usize = 0;
    proof {
        assert(route@.skip(0) =~= route@);
        assert(out.deep_view() + tokens_spec(route@) =~= tokens_spec(route@));
    }
    while i < n
        invariant
            0 <= i <= n,
            n == route@.len(),
            out.deep_view() + tokens_spec(route@.skip(i as int)) == tokens_spec(route@),
        decreases n - i,
    {
        let c: char = route.get_char(i);
        if !alnum(c) {
            proof {
                lemma_tokens_sep(route@, i as int);
            }
            i = i + 1;
        } else {
            let start: usize = i;
            let mut j: usize = i + 1;
            while j < n && alnum(route.get_char(j))
                invariant
                    start < j <= n,
                    n == route@.len(),
                    forall|m: int| start <= m < j ==> is_alnum(route@[m]),
                decreases n - j,
            {
                j = j + 1;
            }
            let tok: String = route.substring_char(start, j).to_owned();
            proof {
                lemma_tokens_run(route@, start as int, j as int);
            }
            let ghost dv0: Seq<Seq<char>> = out.deep_view();
            out.push(tok);
            proof {
                assert(out.deep_view() =~= dv0.push(tok@));
                assert(out.deep_view() + tokens_spec(route@.skip(j as int)) =~= dv0
                    + tokens_spec(route@.skip(start as int)));
            }
            i = j;
        }
    }
    proof {
        assert(route@.skip(n as int) =~= Seq::<char>::empty());
        assert(out.deep_view() + tokens_spec(route@.skip(n as int)) =~= out.deep_view());
    }
    out
}

} // verus!
