//! Behavioral tests for the route-matching engine, on concrete values.

use gen_redirects::collect::{is_internal_link, DomNode, GetLinks};
use gen_redirects::domain::domain_permutations;
use gen_redirects::matcher::{find_match, MatchError};
use gen_redirects::route::get_route;
use gen_redirects::score::{avg_key_match, score_gt, Score};
use gen_redirects::tokens::tokenize;

fn score_value(s: &Score) -> f64 {
    if s.left == 0 || s.right == 0 {
        0.0
    } else {
        (s.cnt as f64 / s.left as f64) * (s.cnt as f64 / s.right as f64)
    }
}

#[test]
fn domain_plain_gets_www_variant() {
    let perms = domain_permutations("http://example.com");
    assert!(perms.contains(&"http://example.com".to_string()));
    assert!(perms.contains(&"http://www.example.com".to_string()));
    assert_eq!(perms.len(), 2);
}

#[test]
fn domain_www_gets_plain_variant() {
    let perms = domain_permutations("http://www.example.com");
    assert!(perms.contains(&"http://www.example.com".to_string()));
    assert!(perms.contains(&"http://example.com".to_string()));
    assert_eq!(perms.len(), 2);
}

#[test]
fn domain_with_subdomain_stands_alone() {
    let perms = domain_permutations("http://mail.example.com");
    assert_eq!(perms, vec!["http://mail.example.com".to_string()]);
}

#[test]
fn domain_without_dot_still_pairs() {
    let perms = domain_permutations("http://intra");
    assert_eq!(
        perms,
        vec!["http://www.intra".to_string(), "http://intra".to_string()]
    );
}

#[test]
fn route_strips_host_and_extension() {
    let perms = vec!["http://example.com".to_string()];
    let r = get_route("http://example.com/about.html", &perms);
    assert_eq!(r, Some("/about.".to_string()));
}

#[test]
fn route_of_root_relative_link() {
    let perms = vec!["http://example.com".to_string()];
    let r = get_route("/contact.php", &perms);
    assert_eq!(r, Some("/contact.".to_string()));
}

#[test]
fn route_missing_for_foreign_link() {
    let perms = vec!["http://example.com".to_string()];
    assert_eq!(get_route("#fragment", &perms), None);
}

#[test]
fn route_empty_when_marker_inside_host() {
    let perms = vec!["http://php.example.com".to_string()];
    let r = get_route("http://php.example.com/x", &perms);
    assert_eq!(r, Some(String::new()));
}

#[test]
fn tokenizer_splits_on_separators() {
    let toks = tokenize("/about-us/team_2");
    assert_eq!(
        toks,
        vec![
            "about".to_string(),
            "us".to_string(),
            "team".to_string(),
            "2".to_string()
        ]
    );
}

#[test]
fn tokenizer_of_empty_route_is_empty() {
    assert!(tokenize("").is_empty());
}

#[test]
fn score_half_for_partial_overlap() {
    let s = avg_key_match("/about-us", "/about");
    assert_eq!(s, Score { cnt: 1, left: 2, right: 1 });
    assert!((score_value(&s) - 0.5).abs() < 1e-12);
}

#[test]
fn score_zero_without_common_tokens() {
    let s = avg_key_match("/x", "/y");
    assert_eq!(s.cnt, 0);
    assert_eq!(score_value(&s), 0.0);
}

#[test]
fn score_zero_for_empty_side() {
    let s = avg_key_match("", "/anything");
    assert_eq!(s.cnt, 0);
    assert_eq!(s.left, 0);
    assert_eq!(score_value(&s), 0.0);
}

#[test]
fn score_counts_multiplicity_on_both_sides() {
    let s = avg_key_match("/a/a", "/a");
    assert_eq!(s, Score { cnt: 2, left: 2, right: 1 });
}

#[test]
fn score_comparison_is_strict() {
    let half = Score { cnt: 1, left: 2, right: 1 };
    let quarter = Score { cnt: 1, left: 2, right: 2 };
    assert!(score_gt(&half, &quarter));
    assert!(!score_gt(&quarter, &half));
    assert!(!score_gt(&half, &half));
}

#[test]
fn selection_keeps_first_on_tie() {
    let links = vec!["/about".to_string(), "/us".to_string()];
    let url1 = "/about-us".to_string();
    let r = find_match("http://a.com", "http://b.com", &url1, &links).unwrap();
    assert_eq!(r.1, "/about");
    assert_eq!(r.0, Score { cnt: 1, left: 2, right: 1 });

    let links_rev = vec!["/us".to_string(), "/about".to_string()];
    let r2 = find_match("http://a.com", "http://b.com", &url1, &links_rev).unwrap();
    assert_eq!(r2.1, "/us");
}

#[test]
fn end_to_end_best_match() {
    let links = vec![
        "/shop/shoes".to_string(),
        "/shop/boots".to_string(),
        "/about".to_string(),
    ];
    let url1 = "/products/shoes.html".to_string();
    let (score, best) =
        find_match("http://old.com", "http://new.com", &url1, &links).unwrap();
    assert_eq!(best, "/shop/shoes");
    assert_eq!(score, Score { cnt: 1, left: 2, right: 2 });
    let other = avg_key_match("/products/shoes.", "/shop/boots");
    assert!(score_gt(&score, &other));
    let third = avg_key_match("/products/shoes.", "/about");
    assert!(score_gt(&score, &third));
}

#[test]
fn empty_candidate_set_is_an_error() {
    let links: Vec<String> = Vec::new();
    let url1 = "/about".to_string();
    let r = find_match("http://a.com", "http://b.com", &url1, &links);
    assert!(matches!(r, Err(MatchError::EmptyCandidateSet)));
}

#[test]
fn malformed_old_link_is_an_error() {
    let links = vec!["/about".to_string()];
    let url1 = "#fragment".to_string();
    let r = find_match("http://a.com", "http://b.com", &url1, &links);
    match r {
        Err(MatchError::MalformedRoute(bad)) => assert_eq!(bad, "#fragment"),
        _ => panic!("expected a malformed-route error"),
    }
}

#[test]
fn malformed_candidate_is_an_error() {
    let links = vec!["/ok".to_string(), "#bad".to_string()];
    let url1 = "/about".to_string();
    let r = find_match("http://a.com", "http://b.com", &url1, &links);
    match r {
        Err(MatchError::MalformedRoute(bad)) => assert_eq!(bad, "#bad"),
        _ => panic!("expected a malformed-route error"),
    }
}

#[test]
fn internal_link_predicate() {
    let perms = vec!["http://example.com".to_string()];
    assert!(is_internal_link("/a", &perms));
    assert!(is_internal_link("about.html", &perms));
    assert!(is_internal_link("http://example.com/b", &perms));
    assert!(!is_internal_link("http://evil.com/b", &perms));
    assert!(!is_internal_link("javascript:void(0)", &perms));
    assert!(!is_internal_link("", &perms));
    assert!(!is_internal_link("#frag", &perms));
}

fn anchor(href: &str) -> DomNode {
    DomNode { is_anchor: true, href: Some(href.to_string()), children: Vec::new() }
}

#[test]
fn collector_keeps_only_internal_links() {
    let root = DomNode {
        is_anchor: false,
        href: None,
        children: vec![
            anchor("/a"),
            anchor("http://evil.com/b"),
            anchor("javascript:void(0)"),
        ],
    };
    let mut crawl = GetLinks::new("http://example.com".to_string(), String::new());
    crawl.find_links(&root);
    assert_eq!(crawl.get_links(), vec!["/a".to_string()]);
}

#[test]
fn collector_sorts_and_deduplicates() {
    let root = DomNode {
        is_anchor: false,
        href: None,
        children: vec![
            anchor("/b"),
            anchor("/a"),
            DomNode {
                is_anchor: true,
                href: Some("/b".to_string()),
                children: vec![anchor("/c")],
            },
        ],
    };
    let mut crawl = GetLinks::new("http://example.com".to_string(), String::new());
    crawl.find_links(&root);
    assert_eq!(
        crawl.get_links(),
        vec!["/a".to_string(), "/b".to_string(), "/c".to_string()]
    );
    crawl.find_links(&root);
    assert_eq!(
        crawl.get_links(),
        vec!["/a".to_string(), "/b".to_string(), "/c".to_string()]
    );
}

#[test]
fn anchor_without_href_is_skipped() {
    let root = DomNode {
        is_anchor: true,
        href: None,
        children: vec![anchor("/only")],
    };
    let mut crawl = GetLinks::new("http://example.com".to_string(), String::new());
    crawl.find_links(&root);
    assert_eq!(crawl.get_links(), vec!["/only".to_string()]);
}

#[test]
fn crawl_keeps_url_and_credentials() {
    let crawl = GetLinks::new("http://example.com".to_string(), "user:pass".to_string());
    assert_eq!(crawl.get_pwd(), "user:pass");
    let urls = crawl.get_url();
    assert!(urls.contains(&"http://example.com".to_string()));
    assert!(urls.contains(&"http://www.example.com".to_string()));
    assert!(crawl.get_links().is_empty());
}

#[test]
fn pipeline_is_deterministic() {
    let perms = domain_permutations("http://example.com");
    let first = tokenize(&get_route("http://example.com/about.html", &perms).unwrap());
    let second = tokenize(&get_route("http://example.com/about.html", &perms).unwrap());
    assert_eq!(first, second);
    let a = tokenize(&get_route("/products/shoes.html", &perms).unwrap());
    let b = tokenize(&get_route("/products/shoes.html", &perms).unwrap());
    assert_eq!(a, b);
}

#[test]
fn collector_accepts_www_spelling() {
    let root = DomNode {
        is_anchor: false,
        href: None,
        children: vec![
            anchor("http://www.example.com/y"),
            anchor("http://example.com/x"),
        ],
    };
    let mut crawl = GetLinks::new("http://example.com".to_string(), String::new());
    crawl.find_links(&root);
    assert_eq!(
        crawl.get_links(),
        vec![
            "http://example.com/x".to_string(),
            "http://www.example.com/y".to_string()
        ]
    );
}

#[test]
fn route_uses_matching_host_spelling() {
    let perms = domain_permutations("http://www.example.com");
    assert_eq!(
        get_route("http://example.com/team", &perms),
        Some("/team".to_string())
    );
    assert_eq!(
        get_route("http://www.example.com/team", &perms),
        Some("/team".to_string())
    );
}
