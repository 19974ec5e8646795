//! Domain normalization: the spellings of a site root considered equivalent,
//! with and without a `www.` prefix after the assumed seven-character scheme.

use vstd::prelude::*;
use crate::strkit::{find_spec, find_sub, matches_at};
use vstd::string::StrSliceExecFns;
use vstd::string::StringExecFns;

verus! {

/// The URL with the `www.` that follows the scheme removed.
pub open spec fn www_removed(url: Seq<char>) -> Seq<char> {
    url.take(7) + url.skip(11)
}

/// The URL with `www.` inserted right after the scheme.
pub open spec fn www_inserted(url: Seq<char>) -> Seq<char> {
    url.take(7) + "www."@ + url.skip(7)
}

/// The equivalent spellings of a site root. A URL that carries `www.` right
/// after the scheme is paired with the spelling that drops it. Otherwise a
/// URL whose first `.` is not the start of its first `.com` has a subdomain
/// other than `www` and stands alone, and any other URL is paired with the
/// spelling that inserts `www.` after the scheme.
pub open spec fn domain_perms_spec(url: Seq<char>) -> Seq<Seq<char>> {
    if find_spec(url, "www."@) == Some(7int) {
        seq![url, www_removed(url)]
    } else if find_spec(url, ".com"@) != find_spec(url, "."@) {
        seq![url]
    } else {
        seq![www_inserted(url), url]
    }
}

/// The ordered list of host spellings treated as the same site as `url`.
/// The input must carry a scheme prefix of at least seven characters.
pub fn domain_permutations(url: &str) -> (r: Vec<String>)
    requires
        url@.len() >= 7,
    ensures
        r.deep_view() == domain_perms_spec(url@),
{
    let www: Option<usize> = find_sub(url, "www.");
    let at_seven: bool = match www {
        Some(i) => i == 7,
        None => false,
    };
    let n: usize = url.unicode_len();
    if !at_seven {
        let com: Option<usize> = find_sub(url, ".com");
        let dot: Option<usize> = find_sub(url, ".");
        let differs: bool = match (com, dot) {
            (None, None) => false,
            (Some(a), Some(b)) => a != b,
            _ => true,
        };
        proof {
            assert(differs == (find_spec(url@, ".com"@) != find_spec(url@, "."@)));
        }
        if differs {
            let mut v: Vec<String> = Vec::new();
            v.push(url.to_owned());
            proof {
                assert(v.deep_view() =~= domain_perms_spec(url@));
            }
            return v;
        }
    }
    if at_seven {
        proof {
            reveal_strlit("www.");
            crate::strkit::lemma_find_from(url@, "www."@, 0);
            assert(matches_at(url@, "www."@, 7));
            assert(url@.len() >= 11);
        }
        let removed: String = url.substring_char(0, 7).to_owned().concat(
            url.substring_char(11, n),
        );
        proof {
            assert(removed@ =~= www_removed(url@));
        }
        let mut v: Vec<String> = Vec::new();
        v.push(url.to_owned());
        v.push(removed);
        proof {
            assert(v.deep_view() =~= domain_perms_spec(url@));
        }
        v
    } else {
        let inserted: String = url.substring_char(0, 7).to_owned().concat("www.").concat(
            url.substring_char(7, n),
        );
        proof {
            assert(inserted@ =~= www_inserted(url@));
        }
        let mut v: Vec<String> = Vec::new();
        v.push(inserted);
        v.push(url.to_owned());
        proof {
            assert(v.deep_view() =~= domain_perms_spec(url@));
        }
        v
    }
}

} // verus!
