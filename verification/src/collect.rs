//! Link collection: walk a parsed document tree with an explicit work stack
//! and gather the internal anchor targets, deduplicated and sorted.

use vstd::prelude::*;
use crate::domain::{domain_perms_spec, domain_permutations};
use crate::strkit::{insert_sorted, is_prefix, starts_with, strictly_sorted};
use crate::tokens::{alnum, is_alnum};

verus! {

broadcast use vstd::set::group_set_axioms;

/// A link counts as internal to a site. A link without a scheme is internal
/// when it is root-relative (it starts with `/` or an alphanumeric
/// character) and does not start with `javascript`; a link with a scheme is
/// internal exactly when one of the site's host spellings is its prefix.
pub open spec fn internal_spec(link: Seq<char>, perms: Seq<Seq<char>>) -> bool {
    if link.len() == 0 {
        false
    } else if !(is_prefix("http://"@, link) || is_prefix("https://"@, link)) {
        (link[0] == '/' || is_alnum(link[0])) && !is_prefix("javascript"@, link)
    } else {
        exists|k: int| 0 <= k < perms.len() && #[trigger] is_prefix(perms[k], link)
    }
}

/// Decides whether `link` is internal to the site whose host spellings are
/// `domain_permutations`.
pub fn is_internal_link(link: &str, domain_permutations: &Vec<String>) -> (r: bool)
    ensures
        r == internal_spec(link@, domain_permutations.deep_view()),
{
    let ghost perms: Seq<Seq<char>> = domain_permutations.deep_view();
    if link.unicode_len() == 0 {
        return false;
    }
    let http: bool = starts_with(link, "http://");
    let https: bool = starts_with(link, "https://");
    if !(http || https) {
        let c0: char = link.get_char(0);
        let lead: bool = c0 == '/' || alnum(c0);
        let js: bool = starts_with(link, "javascript");
        lead && !js
    } else {
        let mut k: usize = 0;
        while k < domain_permutations.len()
            invariant
                0 <= k <= domain_permutations.len(),
                perms == domain_permutations.deep_view(),
                perms.len() == domain_permutations.len(),
                link@.len() != 0,
                is_prefix("http://"@, link@) || is_prefix("https://"@, link@),
                forall|j: int| 0 <= j < k ==> !is_prefix(#[trigger] perms[j], link@),
            decreases domain_permutations.len() - k,
        {
            if starts_with(link, domain_permutations[k].as_str()) {
                proof {
                    assert(is_prefix(perms[k as int], link@));
                }
                return true;
            }
            k = k + 1;
        }
        false
    }
}

/// One node of a parsed document: whether it is an anchor element, its link
/// target if it carries one, and its child nodes in document order.
pub struct DomNode {
    pub is_anchor: bool,
    pub href: Option<String>,
    pub children: Vec<DomNode>,
}

/// The link target this node itself contributes: the `href` of an anchor.
pub open spec fn node_own_hrefs(n: &DomNode) -> Set<Seq<char>> {
    if n.is_anchor && n.href is Some {
        set![n.href->0@]
    } else {
        Set::empty()
    }
}

/// Every link target in the subtree rooted at `n`.
pub open spec fn subtree_hrefs(n: &DomNode) -> Set<Seq<char>>
    decreases *n, n.children@.len() as int + 1int,
{
    node_own_hrefs(n).union(children_hrefs_from(n, 0))
}

/// Every link target in the subtrees of the children of `n` from child
/// `from` on.
pub open spec fn children_hrefs_from(n: &DomNode, from: int) -> Set<Seq<char>>
    decreases *n, n.children@.len() - from,
{
    if from < 0 || from >= n.children@.len() {
        Set::empty()
    } else {
        subtree_hrefs(&n.children@[from]).union(children_hrefs_from(n, from + 1))
    }
}

/// Number of nodes in the subtree rooted at `n`; drives termination of the
/// stack-based walk.
pub open spec fn tree_size(n: &DomNode) -> nat
    decreases *n, n.children@.len() as int + 1int,
{
    1 + forest_size_from(n, 0)
}

/// Combined size of the subtrees of the children of `n` from child `from` on.
pub open spec fn forest_size_from(n: &DomNode, from: int) -> nat
    decreases *n, n.children@.len() - from,
{
    if from < 0 || from >= n.children@.len() {
        0
    } else {
        tree_size(&n.children@[from]) + forest_size_from(n, from + 1)
    }
}

/// Every link target under any node of the stack.
pub open spec fn stack_hrefs(st: Seq<&DomNode>) -> Set<Seq<char>>
    decreases st.len(),
{
    if st.len() == 0 {
        Set::empty()
    } else {
        subtree_hrefs(st.last()).union(stack_hrefs(st.drop_last()))
    }
}

/// Combined size of the subtrees on the stack.
pub open spec fn stack_size(st: Seq<&DomNode>) -> nat
    decreases st.len(),
{
    if st.len() == 0 {
        0
    } else {
        tree_size(st.last()) + stack_size(st.drop_last())
    }
}

/// What collecting adds: afterwards a link is present exactly when it was
/// already present or is an internal link target somewhere under `root`.
pub open spec fn collect_post(
    before: Seq<Seq<char>>,
    after: Seq<Seq<char>>,
    root: &DomNode,
    perms: Seq<Seq<char>>,
) -> bool {
    forall|s: Seq<char>|
        after.contains(s) <==> (before.contains(s) || (subtree_hrefs(root).contains(s)
            && internal_spec(s, perms)))
}

/// Walks the tree under `root` with an explicit work stack and inserts every
/// internal link target into `out`, which stays sorted and duplicate-free.
fn collect_from_tree(root: &DomNode, domain_permutations: &Vec<String>, out: &mut Vec<String>)
    requires
        strictly_sorted(old(out).deep_view()),
    ensures
        strictly_sorted(final(out).deep_view()),
        collect_post(
            old(out).deep_view(),
            final(out).deep_view(),
            root,
            domain_permutations.deep_view(),
        ),
{
    let ghost perms: Seq<Seq<char>> = domain_permutations.deep_view();
    let ghost base: Seq<Seq<char>> = out.deep_view();
    let mut stack: Vec<&DomNode> = Vec::new();
    stack.push(root);
    proof {
        let st1 = stack@;
        assert(st1.len() == 1);
        assert(st1.last() == root);
        assert(st1.drop_last().len() == 0);
        assert(stack_hrefs(st1) == subtree_hrefs(root).union(stack_hrefs(st1.drop_last())));
        assert(stack_hrefs(st1) =~= subtree_hrefs(root));
    }
    while stack.len() != 0
        invariant
            strictly_sorted(out.deep_view()),
            perms == domain_permutations.deep_view(),
            forall|s: Seq<char>|
                (out.deep_view().contains(s) || (stack_hrefs(stack@).contains(s)
                    && internal_spec(s, perms))) <==> (base.contains(s) || (subtree_hrefs(
                    root,
                ).contains(s) && internal_spec(s, perms))),
        decreases stack_size(stack@),
    {
        let ghost st0: Seq<&DomNode> = stack@;
        let node: &DomNode = match stack.pop() {
            Some(n) => n,
            None => {
                proof {
                    assert(false);
                }
                return ;
            },
        };
        proof {
            assert(st0.last() == node);
            assert(stack@ =~= st0.drop_last());
            assert(stack_hrefs(st0) == subtree_hrefs(node).union(stack_hrefs(stack@)));
            assert(stack_size(st0) == tree_size(node) + stack_size(stack@));
        }
        let ghost rest: Seq<&DomNode> = stack@;
        if node.is_anchor {
            match &node.href {
                Some(h) => {
                    if is_internal_link(h.as_str(), domain_permutations) {
                        insert_sorted(out, h.clone());
                    }
                },
                None => {},
            }
        }
        proof {
            assert forall|s: Seq<char>|
                (out.deep_view().contains(s) || ((stack_hrefs(rest).contains(s)
                    || children_hrefs_from(node, 0).contains(s)) && internal_spec(s, perms)))
                    <==> (base.contains(s) || (subtree_hrefs(root).contains(s) && internal_spec(
                    s,
                    perms,
                ))) by {
                assert(subtree_hrefs(node).contains(s) == (node_own_hrefs(node).contains(s)
                    || children_hrefs_from(node, 0).contains(s)));
                assert(stack_hrefs(st0).contains(s) == (subtree_hrefs(node).contains(s)
                    || stack_hrefs(rest).contains(s)));
            }
        }
        let m: usize = node.children.len();
        let mut j: usize = 0;
        while j < m
            invariant
                0 <= j <= m,
                m == node.children@.len(),
                perms == domain_permutations.deep_view(),
                strictly_sorted(out.deep_view()),
                stack_size(stack@) == stack_size(rest) + forest_size_from(node, 0)
                    - forest_size_from(node, j as int),
                forall|s: Seq<char>|
                    (out.deep_view().contains(s) || ((stack_hrefs(stack@).contains(s)
                        || children_hrefs_from(node, j as int).contains(s)) && internal_spec(
                        s,
                        perms,
                    ))) <==> (base.contains(s) || (subtree_hrefs(root).contains(s)
                        && internal_spec(s, perms))),
            decreases m - j,
        {
            let ghost stb: Seq<&DomNode> = stack@;
            let child: &DomNode = &node.children[j];
            stack.push(child);
            proof {
                assert(stack@.drop_last() =~= stb);
                assert(stack@.last() == child);
                assert(stack_hrefs(stack@) == subtree_hrefs(child).union(stack_hrefs(stb)));
                assert(stack_size(stack@) == tree_size(child) + stack_size(stb));
                assert(children_hrefs_from(node, j as int) == subtree_hrefs(child).union(
                    children_hrefs_from(node, j + 1),
                ));
                assert(forest_size_from(node, j as int) == tree_size(child) + forest_size_from(
                    node,
                    j + 1,
                ));
            }
            j = j + 1;
        }
        proof {
            assert(children_hrefs_from(node, m as int) =~= Set::<Seq<char>>::empty());
            assert(forest_size_from(node, m as int) == 0);
            assert(tree_size(node) == 1 + forest_size_from(node, 0));
        }
    }
    proof {
        assert(stack@.len() == 0);
        assert(stack_hrefs(stack@) =~= Set::<Seq<char>>::empty());
        assert(collect_post(base, out.deep_view(), root, perms));
    }
}

/// A crawl of one site: the internal links found so far, the site's host
/// spellings, and the credentials the fetch is to use.
pub struct GetLinks {
    pub links: Vec<String>,
    pub urls: Vec<String>,
    pub pwd: String,
}

impl GetLinks {
    /// The collected links are sorted and free of duplicates.
    pub open spec fn wf(&self) -> bool {
        strictly_sorted(self.links.deep_view())
    }

    /// A crawl of the site rooted at `url` (which must carry a scheme prefix
    /// of at least seven characters), with no links collected yet.
    pub fn new(url: String, pwd: String) -> (r: GetLinks)
        requires
            url@.len() >= 7,
        ensures
            r.wf(),
            r.links@.len() == 0,
            r.urls.deep_view() == domain_perms_spec(url@),
            r.pwd@ == pwd@,
    {
        GetLinks { links: Vec::new(), urls: domain_permutations(url.as_str()), pwd }
    }

    /// Adds every internal link target under `root` to the collected set,
    /// which stays sorted and duplicate-free.
    pub fn find_links(&mut self, root: &DomNode)
        requires
            old(self).wf(),
        ensures
            final(self).wf(),
            final(self).urls == old(self).urls,
            final(self).pwd == old(self).pwd,
            collect_post(
                old(self).links.deep_view(),
                final(self).links.deep_view(),
                root,
                old(self).urls.deep_view(),
            ),
    {
        collect_from_tree(root, &self.urls, &mut self.links);
        proof {
            assert(self.urls.deep_view() == old(self).urls.deep_view());
        }
    }

    /// The links collected so far, in their sorted order.
    pub fn get_links(&self) -> (r: Vec<String>)
        ensures
            r@ == self.links@,
    {
        self.links.clone()
    }

    /// The site's equivalent host spellings.
    pub fn get_url(&self) -> (r: Vec<String>)
        ensures
            r@ == self.urls@,
    {
        self.urls.clone()
    }

    /// The credentials handed to the fetch.
    pub fn get_pwd(&self) -> (r: String)
        ensures
            r == self.pwd,
    {
        self.pwd.clone()
    }
}

} // verus!
