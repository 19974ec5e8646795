//! Crate-wide laws: statements that relate several components, proved once
//! and for all.

use vstd::prelude::*;
use crate::collect::internal_spec;
use crate::domain::domain_perms_spec;
use crate::route::{first_pref, lemma_first_pref_from, route_spec};
use crate::strkit::is_prefix;
use crate::tokens::tokens_spec;

verus! {

/// A site root is always one of its own equivalent spellings.
pub proof fn lemma_domain_contains_original(url: Seq<char>)
    ensures
        domain_perms_spec(url).contains(url),
{
    let perms = domain_perms_spec(url);
    if perms.len() == 1 {
        assert(perms[0] == url);
    } else if perms[0] == url {
        assert(perms.contains(url));
    } else {
        assert(perms[1] == url);
    }
}

/// Collection and route extraction agree: every link the collector accepts
/// as internal can be reduced to a route, so a malformed-route failure
/// signals an inconsistency that correct operation never reaches.
pub proof fn lemma_internal_links_have_routes(link: Seq<char>, perms: Seq<Seq<char>>)
    requires
        internal_spec(link, perms),
    ensures
        route_spec(link, perms) is Some,
{
    lemma_first_pref_from(link, perms, 0);
    match first_pref(link, perms) {
        Some(k) => {},
        None => {
            if is_prefix("http://"@, link) || is_prefix("https://"@, link) {
                let k = choose|k: int| 0 <= k < perms.len() && #[trigger] is_prefix(
                    perms[k],
                    link,
                );
                assert(!is_prefix(perms[k], link));
            }
        },
    }
}

/// The keyword tokens a link contributes: its route extracted and then
/// tokenized, or nothing when the link has no route.
pub open spec fn pipeline_tokens(link: Seq<char>, perms: Seq<Seq<char>>) -> Option<
    Seq<Seq<char>>,
> {
    match route_spec(link, perms) {
        Some(r) => Some(tokens_spec(r)),
        None => None,
    }
}

/// Route extraction followed by tokenization is a pure function of the link
/// and the site's host spellings: any two runs on the same input yield the
/// same token sequence.
pub proof fn lemma_pipeline_deterministic(
    link: Seq<char>,
    perms: Seq<Seq<char>>,
    first: Option<Seq<Seq<char>>>,
    second: Option<Seq<Seq<char>>>,
)
    requires
        first == pipeline_tokens(link, perms),
        second == pipeline_tokens(link, perms),
    ensures
        first == second,
{
}

/// No internal link is empty, and none carries the `javascript` scheme:
/// whatever the collector accepts is a usable target.
pub proof fn lemma_internal_links_wellformed(link: Seq<char>, perms: Seq<Seq<char>>)
    requires
        internal_spec(link, perms),
    ensures
        link.len() > 0,
        !is_prefix("javascript"@, link),
{
    reveal_strlit("javascript");
    reveal_strlit("http://");
    reveal_strlit("https://");
    if is_prefix("http://"@, link) || is_prefix("https://"@, link) {
        if is_prefix("javascript"@, link) {
            assert(link[0] == 'j');
            assert(link[0] == 'h');
            assert(false);
        }
    }
}

} // verus!
