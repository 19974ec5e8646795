//! Best-candidate selection: score an old link's route against every
//! candidate route of the new site and keep the first candidate that reaches
//! the top score.

use vstd::prelude::*;
use crate::domain::{domain_perms_spec, domain_permutations};
use crate::route::{get_route, route_spec};
use crate::score::{
    avg_key_match, lemma_score_gt_ge_trans, score_gt, score_gt_spec, score_of, Score,
};

verus! {

/// Why no match could be produced.
#[derive(Debug)]
pub enum MatchError {
    /// No candidate links were supplied: matching has nothing to select from.
    EmptyCandidateSet,
    /// The named link was accepted as internal but has no route; this signals
    /// an inconsistency between collection and route extraction.
    MalformedRoute(String),
}

/// The route of a link, taken as empty when there is none; meaningful only
/// where a route is known to exist.
pub open spec fn route_or_empty(link: Seq<char>, perms: Seq<Seq<char>>) -> Seq<char> {
    match route_spec(link, perms) {
        Some(s) => s,
        None => Seq::empty(),
    }
}

/// The route of candidate `k`, once every candidate is known to have one.
pub open spec fn cand_route(ldv: Seq<Seq<char>>, p2: Seq<Seq<char>>, k: int) -> Seq<char> {
    match route_spec(ldv[k], p2) {
        Some(s) => s,
        None => Seq::empty(),
    }
}

/// The score of candidate `k` against the old route `u`.
pub open spec fn cand_score(u: Seq<char>, ldv: Seq<Seq<char>>, p2: Seq<Seq<char>>, k: int) -> Score {
    score_of(u, cand_route(ldv, p2, k))
}

/// Candidate `k` is the selected one: nothing scores above it, and it scores
/// strictly above every earlier candidate, so the first top scorer wins.
pub open spec fn is_selected(u: Seq<char>, ldv: Seq<Seq<char>>, p2: Seq<Seq<char>>, k: int) -> bool {
    &&& 0 <= k < ldv.len()
    &&& (forall|m: int|
        0 <= m < ldv.len() ==> !score_gt_spec(
            cand_score(u, ldv, p2, m),
            cand_score(u, ldv, p2, k),
        ))
    &&& (forall|m: int|
        0 <= m < k ==> score_gt_spec(cand_score(u, ldv, p2, k), cand_score(u, ldv, p2, m)))
}

/// The best match for `url1` (a link of the site rooted at `u1`) among
/// `links` (links of the site rooted at `u2`): the candidate whose route
/// scores highest against the route of `url1`, the first one on a tie.
/// Both site roots must carry a scheme prefix of at least seven characters.
pub fn find_match(u1: &str, u2: &str, url1: &String, links: &Vec<String>) -> (r: Result<
    (Score, String),
    MatchError,
>)
    requires
        u1@.len() >= 7,
        u2@.len() >= 7,
    ensures
        ({
            let p1 = domain_perms_spec(u1@);
            let p2 = domain_perms_spec(u2@);
            let ldv = links.deep_view();
            match r {
                Ok(pair) => {
                    &&& route_spec(url1@, p1) is Some
                    &&& ldv.len() > 0
                    &&& (forall|k: int| 0 <= k < ldv.len() ==> route_spec(ldv[k], p2) is Some)
                    &&& exists|k: int|
                        {
                            &&& #[trigger] is_selected(route_or_empty(url1@, p1), ldv, p2, k)
                            &&& pair.1@ == ldv[k]
                            &&& pair.0 == cand_score(route_or_empty(url1@, p1), ldv, p2, k)
                        }
                },
                Err(e) => match e {
                    MatchError::EmptyCandidateSet => {
                        &&& route_spec(url1@, p1) is Some
                        &&& ldv.len() == 0
                    },
                    MatchError::MalformedRoute(bad) => {
                        ||| (route_spec(url1@, p1) is None && bad@ == url1@)
                        ||| (route_spec(url1@, p1) is Some && exists|k: int|
                            {
                                &&& 0 <= k < ldv.len()
                                &&& #[trigger] route_spec(ldv[k], p2) is None
                                &&& (forall|j: int|
                                    0 <= j < k ==> route_spec(ldv[j], p2) is Some)
                                &&& bad@ == ldv[k]
                            })
                    },
                },
            }
        }),
{
    let p1v: Vec<String> = domain_permutations(u1);
    let p2v: Vec<String> = domain_permutations(u2);
    let ghost p2: Seq<Seq<char>> = p2v.deep_view();
    let ghost ldv: Seq<Seq<char>> = links.deep_view();
    let u: String = match get_route(url1.as_str(), &p1v) {
        Some(s) => s,
        None => {
            return Err(MatchError::MalformedRoute(url1.clone()));
        },
    };
    if links.len() == 0 {
        return Err(MatchError::EmptyCandidateSet);
    }
    let l0: String = match get_route(links[0].as_str(), &p2v) {
        Some(s) => s,
        None => {
            proof {
                assert(ldv[0] == links@[0]@);
                assert(route_spec(ldv[0], p2) is None);
                assert(forall|j: int| 0 <= j < 0 ==> route_spec(ldv[j], p2) is Some);
            }
            return Err(MatchError::MalformedRoute(links[0].clone()));
        },
    };
    let mut best: Score = avg_key_match(u.as_str(), l0.as_str());
    let mut best_link: String = links[0].clone();
    let ghost mut best_k: int = 0;
    let mut k: usize = 1;
    while k < links.len()
        invariant
            1 <= k <= links.len(),
            ldv == links.deep_view(),
            ldv.len() == links.len(),
            p2 == p2v.deep_view(),
            p2 == domain_perms_spec(u2@),
            route_spec(url1@, domain_perms_spec(u1@)) == Some(u@),
            forall|j: int| 0 <= j < k ==> route_spec(ldv[j], p2) is Some,
            0 <= best_k < k,
            best_link@ == ldv[best_k],
            best == cand_score(u@, ldv, p2, best_k),
            forall|m: int|
                0 <= m < k ==> !score_gt_spec(
                    #[trigger] cand_score(u@, ldv, p2, m),
                    cand_score(u@, ldv, p2, best_k),
                ),
            forall|m: int|
                0 <= m < best_k ==> score_gt_spec(
                    cand_score(u@, ldv, p2, best_k),
                    #[trigger] cand_score(u@, ldv, p2, m),
                ),
        decreases links.len() - k,
    {
        let lk: String = match get_route(links[k].as_str(), &p2v) {
            Some(s) => s,
            None => {
                proof {
                    assert(ldv[k as int] == links@[k as int]@);
                    assert(p2 == domain_perms_spec(u2@));
                    assert(route_spec(url1@, domain_perms_spec(u1@)) is Some);
                    assert(0 <= (k as int) && (k as int) < ldv.len() && route_spec(
                        ldv[k as int],
                        p2,
                    ) is None && (forall|j: int|
                        0 <= j < k as int ==> route_spec(ldv[j], p2) is Some) && links@[
                        k as int
                    ]@ == ldv[k as int]);
                }
                return Err(MatchError::MalformedRoute(links[k].clone()));
            },
        };
        let sc: Score = avg_key_match(u.as_str(), lk.as_str());
        proof {
            assert(sc == cand_score(u@, ldv, p2, k as int));
        }
        if score_gt(&sc, &best) {
            proof {
                assert forall|m: int| 0 <= m < k implies score_gt_spec(
                    cand_score(u@, ldv, p2, k as int),
                    #[trigger] cand_score(u@, ldv, p2, m),
                ) by {
                    lemma_score_gt_ge_trans(
                        cand_score(u@, ldv, p2, k as int),
                        cand_score(u@, ldv, p2, best_k),
                        cand_score(u@, ldv, p2, m),
                    );
                }
            }
            best = sc;
            best_link = links[k].clone();
            proof {
                best_k = k as int;
            }
        } else {
            proof {
                if score_gt_spec(cand_score(u@, ldv, p2, k as int), cand_score(u@, ldv, p2, best_k)) {
                    assert(false);
                }
            }
        }
        k = k + 1;
    }
    proof {
        let p1 = domain_perms_spec(u1@);
        assert(route_spec(url1@, p1) == Some(u@));
        assert(route_or_empty(url1@, p1) == u@);
        assert(is_selected(route_or_empty(url1@, p1), ldv, p2, best_k));
        assert(best == cand_score(route_or_empty(url1@, p1), ldv, p2, best_k));
        assert(best_link@ == ldv[best_k]);
    }
    Ok((best, best_link))
}

} // verus!
