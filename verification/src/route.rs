//! Route extraction: strip the host prefix and any trailing
//! filename-extension marker from a link, leaving the logical path that is
//! compared across sites.

use vstd::prelude::*;
use crate::strkit::{find_spec, find_sub, is_prefix, lemma_find_from, starts_with};
use crate::tokens::is_alnum;
use vstd::string::StrSliceExecFns;
use vstd::string::StringExecFns;

verus! {

/// The smaller of two optional positions; an absent position never wins.
pub open spec fn opt_min(a: Option<int>, b: Option<int>) -> Option<int> {
    match (a, b) {
        (Some(x), Some(y)) => Some(
            if x <= y {
                x
            } else {
                y
            },
        ),
        (Some(x), None) => Some(x),
        (None, y) => y,
    }
}

/// Position of the first occurrence of any extension marker
/// (`html`, `htm`, `php`, `asp`) in the link.
pub open spec fn marker_find(link: Seq<char>) -> Option<int> {
    opt_min(
        opt_min(find_spec(link, "html"@), find_spec(link, "htm"@)),
        opt_min(find_spec(link, "php"@), find_spec(link, "asp"@)),
    )
}

/// Where the route is cut off: at the first extension marker, or at the end
/// of the link when no marker occurs.
pub open spec fn trunc_boundary(link: Seq<char>) -> int {
    match marker_find(link) {
        Some(i) => i,
        None => link.len() as int,
    }
}

/// Index of the first host spelling that is a prefix of the link, from `k` on.
pub open spec fn first_pref_from(link: Seq<char>, perms: Seq<Seq<char>>, k: int) -> Option<int>
    decreases perms.len() - k,
{
    if k < 0 || k >= perms.len() {
        None
    } else if is_prefix(perms[k], link) {
        Some(k)
    } else {
        first_pref_from(link, perms, k + 1)
    }
}

/// Index of the first host spelling that is a prefix of the link.
pub open spec fn first_pref(link: Seq<char>, perms: Seq<Seq<char>>) -> Option<int> {
    first_pref_from(link, perms, 0)
}

/// `first_pref_from` returns exactly the least matching index at or after `k`.
pub proof fn lemma_first_pref_from(link: Seq<char>, perms: Seq<Seq<char>>, k: int)
    requires
        0 <= k,
    ensures
        match first_pref_from(link, perms, k) {
            Some(m) => k <= m < perms.len() && is_prefix(perms[m], link) && (forall|j: int|
                k <= j < m ==> !is_prefix(perms[j], link)),
            None => forall|j: int| k <= j < perms.len() ==> !is_prefix(perms[j], link),
        },
    decreases perms.len() - k,
{
    if k >= perms.len() {
    } else if is_prefix(perms[k], link) {
    } else {
        lemma_first_pref_from(link, perms, k + 1);
    }
}

/// The logical route of a link, relative to the host spellings of its site:
/// the first matching host prefix is removed and the link is cut at the
/// truncation boundary (an empty route results when the boundary falls inside
/// the host). A link with no matching host that starts with `/` or an
/// alphanumeric character is already root-relative and is only cut. Any other
/// link has no route.
pub open spec fn route_spec(link: Seq<char>, perms: Seq<Seq<char>>) -> Option<Seq<char>> {
    let end = trunc_boundary(link);
    match first_pref(link, perms) {
        Some(k) => {
            let d = perms[k].len() as int;
            if end <= d {
                Some(Seq::empty())
            } else {
                Some(link.subrange(d, end))
            }
        },
        None => {
            if link.len() > 0 && (link[0] == '/' || is_alnum(link[0])) {
                Some(link.subrange(0, end))
            } else {
                None
            }
        },
    }
}

/// The boundary never lies outside the link.
pub proof fn lemma_trunc_boundary_bounds(link: Seq<char>)
    ensures
        0 <= trunc_boundary(link) <= link.len(),
{
    lemma_find_from(link, "html"@, 0);
    lemma_find_from(link, "htm"@, 0);
    lemma_find_from(link, "php"@, 0);
    lemma_find_from(link, "asp"@, 0);
}

/// Character offset where the route is cut off in this link.
fn trunc_boundary_exec(link: &str) -> (r: usize)
    ensures
        r as int == trunc_boundary(link@),
        r <= link@.len(),
{
    let a: Option<usize> = find_sub(link, "html");
    let b: Option<usize> = find_sub(link, "htm");
    let c: Option<usize> = find_sub(link, "php");
    let d: Option<usize> = find_sub(link, "asp");
    proof {
        lemma_trunc_boundary_bounds(link@);
    }
    let mut best: Option<usize> = a;
    best = match (best, b) {
        (Some(x), Some(y)) => Some(
            if x <= y {
                x
            } else {
                y
            },
        ),
        (Some(x), None) => Some(x),
        (None, y) => y,
    };
    let mut rest: Option<usize> = c;
    rest = match (rest, d) {
        (Some(x), Some(y)) => Some(
            if x <= y {
                x
            } else {
                y
            },
        ),
        (Some(x), None) => Some(x),
        (None, y) => y,
    };
    best = match (best, rest) {
        (Some(x), Some(y)) => Some(
            if x <= y {
                x
            } else {
                y
            },
        ),
        (Some(x), None) => Some(x),
        (None, y) => y,
    };
    match best {
        Some(i) => i,
        None => link.unicode_len(),
    }
}

/// The logical route of `link` for a site with host spellings
/// `domain_permutations`, or `None` when the link is neither host-matching
/// nor root-relative.
pub fn get_route(link: &str, domain_permutations: &Vec<String>) -> (r: Option<String>)
    ensures
        match r {
            Some(s) => route_spec(link@, domain_permutations.deep_view()) == Some(s@),
            None => route_spec(link@, domain_permutations.deep_view()) is None,
        },
{
    let ghost perms: Seq<Seq<char>> = domain_permutations.deep_view();
    let end: usize = trunc_boundary_exec(link);
    let n: usize = link.unicode_len();
    let mut k: usize = 0;
    while k < domain_permutations.len()
        invariant
            0 <= k <= domain_permutations.len(),
            perms == domain_permutations.deep_view(),
            perms.len() == domain_permutations.len(),
            end as int == trunc_boundary(link@),
            end <= link@.len(),
            n == link@.len(),
            forall|j: int| 0 <= j < k ==> !is_prefix(perms[j], link@),
        decreases domain_permutations.len() - k,
    {
        let d: &String = &domain_permutations[k];
        if starts_with(link, d.as_str()) {
            proof {
                lemma_first_pref_from(link@, perms, 0);
                match first_pref(link@, perms) {
                    Some(m) => {
                        if m < k {
                            assert(!is_prefix(perms[m], link@));
                        } else if m > k {
                            assert(!is_prefix(perms[k as int], link@));
                        }
                    },
                    None => {
                        assert(!is_prefix(perms[k as int], link@));
                    },
                }
                assert(first_pref(link@, perms) == Some(k as int));
            }
            let dl: usize = d.as_str().unicode_len();
            if end <= dl {
                return Some(String::new());
            }
            return Some(link.substring_char(dl, end).to_owned());
        }
        k = k + 1;
    }
    proof {
        lemma_first_pref_from(link@, perms, 0);
        assert(first_pref(link@, perms) is None);
    }
    if n == 0 {
        return None;
    }
    let c0: char = link.get_char(0);
    if c0 == '/' || crate::tokens::alnum(c0) {
        Some(link.substring_char(0, end).to_owned())
    } else {
        None
    }
}

} // verus!
