//! Trusted DNS scopes: the parent domains under which a table lists several names.
//!
//! The names of a table form a tree of labels, the last label first. A node at least two labels
//! deep with two or more leaves below it is merged into one leaf, from the bottom up. The names of
//! the outermost merged nodes are the trusted scopes.

use crate::list::views;
use crate::text::{
    append, first_index, is_empty_text, last_index, lemma_first_index, lemma_last_index,
    rsplit_once, same_text, split_first, split_last, split_once,
};
use vstd::hash_set::StringHashSet;
use vstd::prelude::*;

verus! {

/// The labels of a domain, last first, up to the first empty one, and whether none is empty.
pub open spec fn reversed_labels(domain: Seq<char>) -> (Seq<Seq<char>>, bool)
    decreases domain.len(),
{
    proof {
        lemma_last_index(domain, '.');
    }
    match split_last(domain, '.') {
        None => if domain.len() == 0 {
            (Seq::empty(), false)
        } else {
            (seq![domain], true)
        },
        Some((rest, label)) => if label.len() == 0 {
            (Seq::empty(), false)
        } else {
            let (labels, complete) = reversed_labels(rest);
            (seq![label] + labels, complete)
        },
    }
}

/// The domain that reversed labels spell.
pub open spec fn domain_name(labels: Seq<Seq<char>>) -> Seq<char>
    decreases labels.len(),
{
    if labels.len() == 0 {
        Seq::empty()
    } else if labels.len() == 1 {
        labels[0]
    } else {
        labels.last() + seq!['.'] + domain_name(labels.drop_last())
    }
}

/// Whether the tree of `domains` has a node at `path`.
pub open spec fn is_node(domains: Seq<Seq<char>>, path: Seq<Seq<char>>) -> bool {
    path.len() == 0 || exists|i: int|
        0 <= i < domains.len() && path.is_prefix_of(reversed_labels(#[trigger] domains[i]).0)
}

/// Whether one of `domains` ends at `path`.
pub open spec fn is_listed(domains: Seq<Seq<char>>, path: Seq<Seq<char>>) -> bool {
    exists|i: int|
        0 <= i < domains.len() && reversed_labels(#[trigger] domains[i]) == (path, true)
}

/// The depth of the tree of `domains`.
pub open spec fn tree_depth(domains: Seq<Seq<char>>) -> nat
    decreases domains.len(),
{
    if domains.len() == 0 {
        0
    } else {
        let rest = tree_depth(domains.drop_last());
        let own = reversed_labels(domains.last()).0.len();
        if own > rest {
            own
        } else {
            rest
        }
    }
}

/// Whether the node at `path` is merged: it is at least two labels deep and two of its children
/// are leaves.
pub open spec fn is_merged(domains: Seq<Seq<char>>, path: Seq<Seq<char>>) -> bool
    decreases tree_depth(domains) - path.len(), 0nat,
{
    &&& 2 <= path.len() < tree_depth(domains)
    &&& exists|a: Seq<char>, b: Seq<char>|
        #![trigger path.push(a), path.push(b)]
        a != b && is_scope_leaf(domains, path.push(a)) && is_scope_leaf(domains, path.push(b))
}

/// Whether the node at `path` is a leaf: it is merged, or it is listed and has no children.
pub open spec fn is_scope_leaf(domains: Seq<Seq<char>>, path: Seq<Seq<char>>) -> bool
    decreases tree_depth(domains) - path.len(), 1nat,
{
    ||| is_merged(domains, path)
    ||| is_listed(domains, path) && forall|a: Seq<char>| !is_node(domains, #[trigger] path.push(a))
}

/// Whether the node at `path` is merged and no node above it is.
pub open spec fn is_outermost(domains: Seq<Seq<char>>, path: Seq<Seq<char>>) -> bool {
    is_merged(domains, path) && forall|k: int|
        0 <= k < path.len() ==> !is_merged(domains, #[trigger] path.take(k))
}

/// The trusted scopes of a list of domains.
pub open spec fn trusted_scopes(domains: Seq<Seq<char>>) -> Set<Seq<char>> {
    Set::new(
        |scope: Seq<char>|
            exists|path: Seq<Seq<char>>|
                #[trigger] is_outermost(domains, path) && scope == domain_name(path),
    )
}

/// Whether `domain` is `scope` or a name below it.
pub open spec fn is_within(domain: Seq<char>, scope: Seq<char>) -> bool {
    ||| domain == scope
    ||| {
        let cut = domain.len() - scope.len();
        cut > 0 && domain[cut - 1] == '.' && domain.skip(cut) == scope
    }
}

/// Whether `domain` lies within one of `scopes`.
pub open spec fn is_trusted(scopes: Set<Seq<char>>, domain: Seq<char>) -> bool {
    exists|scope: Seq<char>| #[trigger] scopes.contains(scope) && is_within(domain, scope)
}

/// A node of the tree of labels.
#[derive(Debug)]
pub struct DnsScopeTrieNode {
    pub label: String,
    pub children: Vec<DnsScopeTrieNode>,
    /// Whether a domain ends here.
    pub terminal: bool,
    /// Whether this node was merged.
    pub synthetic: bool,
}

impl DnsScopeTrieNode {
    /// Whether there is a node at `path` below this one.
    pub open spec fn has(self, path: Seq<Seq<char>>) -> bool
        decreases path.len(),
    {
        path.len() == 0 || exists|i: int|
            0 <= i < self.children@.len() && (#[trigger] self.children@[i]).label@ == path[0]
                && self.children@[i].has(path.skip(1))
    }

    /// Whether a domain ends at `path` below this node.
    pub open spec fn ends(self, path: Seq<Seq<char>>) -> bool
        decreases path.len(),
    {
        if path.len() == 0 {
            self.terminal
        } else {
            exists|i: int|
                0 <= i < self.children@.len() && (#[trigger] self.children@[i]).label@ == path[0]
                    && self.children@[i].ends(path.skip(1))
        }
    }

    /// Whether the tree is as insertions leave it: no label twice below a node, nothing merged.
    pub open spec fn plain(self) -> bool
        decreases self,
    {
        &&& !self.synthetic
        &&& forall|i: int, j: int|
            0 <= i < j < self.children@.len() ==> (#[trigger] self.children@[i]).label@ != (
            #[trigger] self.children@[j]).label@
        &&& forall|i: int| 0 <= i < self.children@.len() ==> (#[trigger] self.children@[i]).plain()
    }

    proof fn lemma_child(self, i: int, path: Seq<Seq<char>>)
        requires
            self.plain(),
            0 <= i < self.children@.len(),
            path.len() > 0,
            self.children@[i].label@ == path[0],
        ensures
            self.has(path) == self.children@[i].has(path.skip(1)),
            self.ends(path) == self.children@[i].ends(path.skip(1)),
    {
        assert forall|j: int|
            0 <= j < self.children@.len() && (#[trigger] self.children@[j]).label@
                == path[0] implies j == i by {
            if j < i {
                assert(self.children@[j].label@ != self.children@[i].label@);
            }
            if i < j {
                assert(self.children@[i].label@ != self.children@[j].label@);
            }
        }
    }

    /// A node without children.
    fn leaf(label: &str) -> (r: DnsScopeTrieNode)
        ensures
            r.label@ == label@,
            r.plain(),
            r.children@.len() == 0,
            !r.terminal,
    {
        DnsScopeTrieNode {
            label: label.to_string(),
            children: Vec::new(),
            terminal: false,
            synthetic: false,
        }
    }

    /// The position of the child with the given label, or the number of children.
    fn child_index(&self, label: &str) -> (r: usize)
        ensures
            r <= self.children@.len(),
            r < self.children@.len() ==> self.children@[r as int].label@ == label@,
            r == self.children@.len() ==> forall|j: int|
                0 <= j < self.children@.len() ==> (#[trigger] self.children@[j]).label@ != label@,
    {
        let mut i: usize = 0;
        while i < self.children.len()
            invariant
                i <= self.children@.len(),
                forall|j: int|
                    0 <= j < i ==> (#[trigger] self.children@[j]).label@ != label@,
            decreases self.children@.len() - i,
        {
            if same_text(self.children[i].label.as_str(), label) {
                return i;
            }
            i += 1;
        }
        i
    }

    /// Adds the nodes of `labels[k..]` below this one, the last of them a domain's end where
    /// `complete`.
    fn insert_labels(&mut self, labels: &Vec<String>, k: usize, complete: bool)
        requires
            old(self).plain(),
            k <= labels@.len(),
        ensures
            final(self).plain(),
            final(self).label == old(self).label,
            forall|q: Seq<Seq<char>>| #[trigger]
                final(self).has(q) <==> old(self).has(q) || q.is_prefix_of(
                    views(labels@).skip(k as int),
                ),
            forall|q: Seq<Seq<char>>| #[trigger]
                final(self).ends(q) <==> old(self).ends(q) || complete && q == views(
                    labels@,
                ).skip(k as int),
        decreases labels@.len() - k,
    {
        let ghost path = views(labels@).skip(k as int);
        if k == labels.len() {
            if complete {
                self.terminal = true;
            }
            assert forall|q: Seq<Seq<char>>| #[trigger] self.has(q) <==> old(self).has(q)
                || q.is_prefix_of(path) by {
                if q.len() > 0 {
                    assert(!q.is_prefix_of(path));
                }
            }
            assert forall|q: Seq<Seq<char>>| #[trigger] self.ends(q) <==> old(self).ends(q)
                || complete && q == path by {
                if q.len() == 0 {
                    assert(q =~= path);
                }
            }
            assert forall|i: int| 0 <= i < self.children@.len() implies (
            #[trigger] self.children@[i]).plain() by {
                assert(self.children@[i] == old(self).children@[i]);
            }
            return;
        }
        let label = labels[k].as_str();
        let i: usize = self.child_index(label);
        if i == self.children.len() {
            self.children.push(DnsScopeTrieNode::leaf(label));
        }
        let ghost middle = *self;
        self.children[i].insert_labels(labels, k + 1, complete);
        assert(self.plain()) by {
            assert forall|a: int, b: int|
                0 <= a < b < self.children@.len() implies (#[trigger] self.children@[a]).label@ != (
            #[trigger] self.children@[b]).label@ by {
                assert(self.children@[a].label@ == middle.children@[a].label@);
                assert(self.children@[b].label@ == middle.children@[b].label@);
            }
        }
        assert(path.skip(1) == views(labels@).skip(k + 1));
        assert(path[0] == label@);
        assert forall|q: Seq<Seq<char>>| #[trigger] self.has(q) <==> old(self).has(q)
            || q.is_prefix_of(path) by {
            lemma_inserted(*old(self), middle, *self, i as int, path, complete, q);
        }
        assert forall|q: Seq<Seq<char>>| #[trigger] self.ends(q) <==> old(self).ends(q) || complete
            && q == path by {
            lemma_inserted(*old(self), middle, *self, i as int, path, complete, q);
        }
    }
}

proof fn lemma_prefix_step(q: Seq<Seq<char>>, path: Seq<Seq<char>>)
    requires
        q.len() > 0,
        path.len() > 0,
    ensures
        q.is_prefix_of(path) <==> q[0] == path[0] && q.skip(1).is_prefix_of(path.skip(1)),
        q == path <==> q[0] == path[0] && q.skip(1) == path.skip(1),
{
    if q.is_prefix_of(path) {
        assert(q[0] == path.subrange(0, q.len() as int)[0]);
        assert forall|k: int| 0 <= k < q.skip(1).len() implies q.skip(1)[k] == path.skip(1)[k] by {
            assert(q[k + 1] == path.subrange(0, q.len() as int)[k + 1]);
        }
        assert(q.skip(1) =~= path.skip(1).subrange(0, q.skip(1).len() as int));
    }
    if q[0] == path[0] && q.skip(1).is_prefix_of(path.skip(1)) {
        assert forall|k: int| 0 <= k < q.len() implies q[k] == path[k] by {
            if k > 0 {
                assert(q[k] == q.skip(1)[k - 1]);
                assert(path[k] == path.skip(1)[k - 1]);
                assert(q.skip(1)[k - 1] == path.skip(1).subrange(0, q.skip(1).len() as int)[k - 1]);
            }
        }
        assert(q =~= path.subrange(0, q.len() as int));
    }
    if q[0] == path[0] && q.skip(1) == path.skip(1) {
        assert(q.len() == q.skip(1).len() + 1);
        assert(path.len() == path.skip(1).len() + 1);
        assert forall|k: int| 0 <= k < q.len() implies q[k] == path[k] by {
            if k > 0 {
                assert(q[k] == q.skip(1)[k - 1]);
                assert(path[k] == path.skip(1)[k - 1]);
            }
        }
        assert(q =~= path);
    }
}

/// What an insertion below one child does to the whole node.
proof fn lemma_inserted(
    before: DnsScopeTrieNode,
    middle: DnsScopeTrieNode,
    after: DnsScopeTrieNode,
    i: int,
    path: Seq<Seq<char>>,
    complete: bool,
    q: Seq<Seq<char>>,
)
    requires
        before.plain(),
        after.plain(),
        path.len() > 0,
        0 <= i < middle.children@.len(),
        i <= before.children@.len(),
        i < before.children@.len() ==> middle == before,
        i == before.children@.len() ==> {
            &&& middle.children@ == before.children@.push(middle.children@[i])
            &&& middle.terminal == before.terminal
            &&& middle.children@[i].children@.len() == 0
            &&& !middle.children@[i].terminal
            &&& forall|j: int|
                0 <= j < before.children@.len() ==> (#[trigger] before.children@[j]).label@
                    != path[0]
        },
        middle.children@[i].label@ == path[0],
        after.children@ == middle.children@.update(i, after.children@[i]),
        after.children@[i].label@ == path[0],
        after.terminal == middle.terminal,
        forall|r: Seq<Seq<char>>| #[trigger]
            after.children@[i].has(r) <==> middle.children@[i].has(r) || r.is_prefix_of(
                path.skip(1),
            ),
        forall|r: Seq<Seq<char>>| #[trigger]
            after.children@[i].ends(r) <==> middle.children@[i].ends(r) || complete && r
                == path.skip(1),
    ensures
        after.has(q) <==> before.has(q) || q.is_prefix_of(path),
        after.ends(q) <==> before.ends(q) || complete && q == path,
{
    if q.len() > 0 {
        lemma_prefix_step(q, path);
        if q[0] == path[0] {
            after.lemma_child(i, q);
            if i < before.children@.len() {
                before.lemma_child(i, q);
            } else {
                assert(!before.has(q) && !before.ends(q));
                let r = q.skip(1);
                assert(middle.children@[i].has(r) == (r.len() == 0));
                assert(!middle.children@[i].ends(r));
                if r.len() == 0 {
                    assert(r =~= path.skip(1).subrange(0, 0));
                }
            }
        } else {
            assert forall|j: int|
                0 <= j < after.children@.len() && (#[trigger] after.children@[j]).label@
                    == q[0] implies j < before.children@.len() && before.children@[j]
                == after.children@[j] by {
                assert(j != i);
            }
            assert forall|j: int|
                0 <= j < before.children@.len() && (#[trigger] before.children@[j]).label@
                    == q[0] implies before.children@[j] == after.children@[j] by {
                assert(j != i);
            }
        }
    } else {
        assert(q.is_prefix_of(path));
    }
}

/// The depth below a node, counted up to two: deeper levels are all treated alike.
pub open spec fn deeper(depth: usize) -> usize {
    if depth < 2 {
        (depth + 1) as usize
    } else {
        depth
    }
}

impl DnsScopeTrieNode {
    /// Whether collapsing at `depth` merges this node.
    pub open spec fn merged(self, depth: usize) -> bool
        decreases self, 0nat,
    {
        depth >= 2 && exists|i: int, j: int|
            0 <= i < j < self.children@.len() && (#[trigger] self.children@[i]).collapses_to_leaf(
                deeper(depth),
            ) && (#[trigger] self.children@[j]).collapses_to_leaf(deeper(depth))
    }

    /// Whether this node is a leaf once collapsed at `depth`.
    pub open spec fn collapses_to_leaf(self, depth: usize) -> bool
        decreases self, 1nat,
    {
        self.merged(depth) || self.childless_end()
    }

    /// Whether this node is what collapsing `before` at `depth` leaves.
    pub open spec fn collapsed_from(self, before: DnsScopeTrieNode, depth: usize) -> bool
        decreases before,
    {
        &&& self.label == before.label
        &&& self.terminal == before.terminal
        &&& if before.merged(depth) {
            self.synthetic && self.children@.len() == 0
        } else {
            &&& self.synthetic == before.synthetic
            &&& self.children@.len() == before.children@.len()
            &&& forall|i: int|
                0 <= i < before.children@.len() ==> (#[trigger] self.children@[i]).collapsed_from(
                    before.children@[i],
                    deeper(depth),
                )
        }
    }

    /// Whether this is a leaf: nothing is below it, and a domain ends here or it was merged.
    pub open spec fn childless_end(self) -> bool {
        self.children@.len() == 0 && (self.terminal || self.synthetic)
    }

    /// Whether this is a leaf.
    pub fn is_leaf(&self) -> (r: bool)
        ensures
            r == self.childless_end(),
    {
        self.children.len() == 0 && (self.terminal || self.synthetic)
    }

    /// Whether at least two children are leaves.
    fn has_two_leaves(&self) -> (r: bool)
        ensures
            r == exists|i: int, j: int|
                0 <= i < j < self.children@.len() && (#[trigger] self.children@[i]).childless_end()
                    && (#[trigger] self.children@[j]).childless_end(),
    {
        let mut one: bool = false;
        let ghost mut first: int = 0;
        let mut k: usize = 0;
        while k < self.children.len()
            invariant
                k <= self.children@.len(),
                one ==> 0 <= first < k && self.children@[first].childless_end(),
                forall|i: int|
                    0 <= i < k && (#[trigger] self.children@[i]).childless_end() ==> one && i
                        == first,
            decreases self.children@.len() - k,
        {
            if self.children[k].is_leaf() {
                if one {
                    assert(self.children@[first].childless_end()
                        && self.children@[k as int].childless_end());
                    return true;
                }
                one = true;
                proof {
                    first = k as int;
                }
            }
            k += 1;
        }
        false
    }

    /// Merges, from the bottom up, the nodes that have two or more leaves below them.
    pub fn collapse(&mut self, depth: usize)
        ensures
            final(self).collapsed_from(*old(self), depth),
        decreases *old(self),
    {
        let next: usize = if depth < 2 {
            depth + 1
        } else {
            depth
        };
        let mut i: usize = 0;
        while i < self.children.len()
            invariant
                i <= self.children@.len(),
                next == deeper(depth),
                self.label == old(self).label,
                self.terminal == old(self).terminal,
                self.synthetic == old(self).synthetic,
                self.children@.len() == old(self).children@.len(),
                forall|j: int|
                    0 <= j < i ==> (#[trigger] self.children@[j]).collapsed_from(
                        old(self).children@[j],
                        next,
                    ),
                forall|j: int|
                    i <= j < self.children@.len() ==> #[trigger] self.children@[j] == old(
                        self,
                    ).children@[j],
            decreases self.children@.len() - i,
        {
            assert(self.children@[i as int] == old(self).children@[i as int]);
            self.children[i].collapse(next);
            i += 1;
        }
        assert forall|j: int| 0 <= j < self.children@.len() implies (
        #[trigger] self.children@[j]).childless_end() == old(
            self,
        ).children@[j].collapses_to_leaf(next) by {
            assert(self.children@[j].collapsed_from(old(self).children@[j], next));
        }
        if depth >= 2 && self.has_two_leaves() {
            proof {
                let (i, j) = choose|i: int, j: int|
                    0 <= i < j < self.children@.len() && (
                    #[trigger] self.children@[i]).childless_end() && (
                    #[trigger] self.children@[j]).childless_end();
                assert(old(self).children@[i].collapses_to_leaf(next));
                assert(old(self).children@[j].collapses_to_leaf(next));
            }
            assert(old(self).merged(depth));
            self.children.clear();
            self.synthetic = true;
        } else {
            proof {
                if old(self).merged(depth) {
                    let (i, j) = choose|i: int, j: int|
                        0 <= i < j < old(self).children@.len() && (#[trigger] old(
                            self,
                        ).children@[i]).collapses_to_leaf(deeper(depth)) && (#[trigger] old(
                            self,
                        ).children@[j]).collapses_to_leaf(deeper(depth));
                    assert(self.children@[i].childless_end());
                    assert(self.children@[j].childless_end());
                }
            }
        }
    }

    /// Whether `path` leads to a merged leaf of this collapsed tree.
    pub open spec fn leads_to_merged(self, path: Seq<Seq<char>>) -> bool
        decreases path.len(),
    {
        if self.synthetic && self.children@.len() == 0 {
            path.len() == 0
        } else {
            path.len() > 0 && exists|i: int|
                0 <= i < self.children@.len() && (#[trigger] self.children@[i]).label@ == path[0]
                    && self.children@[i].leads_to_merged(path.skip(1))
        }
    }

    /// Whether `path` leads to a node that collapsing at `depth` merges, past none that it merges.
    spec fn leads_to_outermost(self, depth: usize, path: Seq<Seq<char>>) -> bool
        decreases path.len(),
    {
        if self.merged(depth) {
            path.len() == 0
        } else {
            path.len() > 0 && exists|i: int|
                0 <= i < self.children@.len() && (#[trigger] self.children@[i]).label@ == path[0]
                    && self.children@[i].leads_to_outermost(deeper(depth), path.skip(1))
        }
    }

    proof fn lemma_leads(self, before: DnsScopeTrieNode, depth: usize, path: Seq<Seq<char>>)
        requires
            self.collapsed_from(before, depth),
            before.plain(),
        ensures
            self.leads_to_merged(path) == before.leads_to_outermost(depth, path),
        decreases path.len(),
    {
        if !before.merged(depth) && path.len() > 0 {
            assert forall|i: int| 0 <= i < before.children@.len() implies (
            #[trigger] self.children@[i]).leads_to_merged(path.skip(1))
                == before.children@[i].leads_to_outermost(deeper(depth), path.skip(1))
                && self.children@[i].label == before.children@[i].label by {
                assert(self.children@[i].collapsed_from(before.children@[i], deeper(depth)));
                assert(before.children@[i].plain());
                self.children@[i].lemma_leads(before.children@[i], deeper(depth), path.skip(1));
            }
            if self.leads_to_merged(path) {
                let i = choose|i: int|
                    0 <= i < self.children@.len() && (#[trigger] self.children@[i]).label@
                        == path[0] && self.children@[i].leads_to_merged(path.skip(1));
                assert(before.children@[i].leads_to_outermost(deeper(depth), path.skip(1)));
            }
            if before.leads_to_outermost(depth, path) {
                let i = choose|i: int|
                    0 <= i < before.children@.len() && (#[trigger] before.children@[i]).label@
                        == path[0] && before.children@[i].leads_to_outermost(
                        deeper(depth),
                        path.skip(1),
                    );
                assert(self.children@[i].leads_to_merged(path.skip(1)));
            }
        }
    }

    /// Adds the names of the merged leaves below this node, which is reached by `labels`.
    pub fn collect_synthetic_leaves(&self, labels: &mut Vec<String>, scopes: &mut StringHashSet)
        ensures
            views(final(labels)@) == views(old(labels)@),
            forall|s: Seq<char>| #[trigger]
                final(scopes)@.contains(s) <==> old(scopes)@.contains(s) || exists|
                    q: Seq<Seq<char>>,
                | #[trigger]
                    self.leads_to_merged(q) && s == domain_name(views(old(labels)@) + q),
        decreases self,
    {
        let ghost path = views(labels@);
        if self.synthetic && self.children.len() == 0 {
            scopes.insert(join_reversed(labels));
            assert forall|s: Seq<char>| #[trigger]
                scopes@.contains(s) <==> old(scopes)@.contains(s) || exists|q: Seq<Seq<char>>|
                    #[trigger] self.leads_to_merged(q) && s == domain_name(path + q) by {
                let none = Seq::<Seq<char>>::empty();
                assert(path + none == path);
                assert(self.leads_to_merged(none));
                if exists|q: Seq<Seq<char>>| #[trigger]
                    self.leads_to_merged(q) && s == domain_name(path + q) {
                    let q = choose|q: Seq<Seq<char>>| #[trigger]
                        self.leads_to_merged(q) && s == domain_name(path + q);
                    assert(q =~= none);
                }
            }
            return;
        }
        let mut i: usize = 0;
        while i < self.children.len()
            invariant
                i <= self.children@.len(),
                path == views(old(labels)@),
                path == views(labels@),
                forall|s: Seq<char>| #[trigger]
                    scopes@.contains(s) <==> old(scopes)@.contains(s) || self.collected(
                        i as int,
                        path,
                        s,
                    ),
            decreases self.children@.len() - i,
        {
            let ghost before = scopes@;
            let child = &self.children[i];
            labels.push(child.label.clone());
            let ghost child_path = views(labels@);
            assert(child_path == path.push(child.label@));
            child.collect_synthetic_leaves(labels, scopes);
            assert(views(labels@).len() == labels@.len());
            labels.pop();
            assert(views(labels@) == child_path.drop_last());
            assert(child_path.drop_last() == path);
            assert forall|s: Seq<char>| #[trigger]
                scopes@.contains(s) <==> old(scopes)@.contains(s) || self.collected(
                    i + 1,
                    path,
                    s,
                ) by {
                assert(scopes@.contains(s) <==> before.contains(s) || exists|q: Seq<Seq<char>>|
                    #[trigger] child.leads_to_merged(q) && s == domain_name(child_path + q));
                if self.collected(i + 1, path, s) {
                    let (j, q) = choose|j: int, q: Seq<Seq<char>>|
                        0 <= j < i + 1 && #[trigger] self.through(j, q, path, s);
                    if j < i {
                        assert(self.through(j, q, path, s));
                    } else {
                        assert(child.leads_to_merged(q));
                    }
                }
                if self.collected(i as int, path, s) {
                    let (j, q) = choose|j: int, q: Seq<Seq<char>>|
                        0 <= j < i && #[trigger] self.through(j, q, path, s);
                    assert(self.through(j, q, path, s));
                }
                if exists|q: Seq<Seq<char>>| #[trigger]
                    child.leads_to_merged(q) && s == domain_name(child_path + q) {
                    let q = choose|q: Seq<Seq<char>>| #[trigger]
                        child.leads_to_merged(q) && s == domain_name(child_path + q);
                    assert(self.through(i as int, q, path, s));
                }
            }
            i += 1;
        }
        assert forall|s: Seq<char>| #[trigger]
            scopes@.contains(s) <==> old(scopes)@.contains(s) || exists|q: Seq<Seq<char>>|
                #[trigger] self.leads_to_merged(q) && s == domain_name(path + q) by {
            if self.collected(i as int, path, s) {
                let (j, q) = choose|j: int, q: Seq<Seq<char>>|
                    0 <= j < i && #[trigger] self.through(j, q, path, s);
                let label = self.children@[j].label@;
                let longer = seq![label] + q;
                assert(longer.skip(1) == q);
                assert(path + longer == path.push(label) + q);
                assert(self.leads_to_merged(longer));
            }
            if exists|q: Seq<Seq<char>>| #[trigger]
                self.leads_to_merged(q) && s == domain_name(path + q) {
                let q = choose|q: Seq<Seq<char>>| #[trigger]
                    self.leads_to_merged(q) && s == domain_name(path + q);
                let j = choose|j: int|
                    0 <= j < self.children@.len() && (#[trigger] self.children@[j]).label@ == q[0]
                        && self.children@[j].leads_to_merged(q.skip(1));
                assert(path + q == path.push(q[0]) + q.skip(1));
                assert(self.through(j, q.skip(1), path, s));
            }
        }
    }

    /// Whether `s` names the merged leaf that `q` leads to from child `j` of the node at `path`.
    spec fn through(self, j: int, q: Seq<Seq<char>>, path: Seq<Seq<char>>, s: Seq<char>) -> bool {
        self.children@[j].leads_to_merged(q) && s == domain_name(
            path.push(self.children@[j].label@) + q,
        )
    }

    /// Whether `s` names a merged leaf below one of the first `n` children of the node at `path`.
    spec fn collected(self, n: int, path: Seq<Seq<char>>, s: Seq<char>) -> bool {
        exists|j: int, q: Seq<Seq<char>>| 0 <= j < n && #[trigger] self.through(j, q, path, s)
    }
}

/// Joins labels that stand last first.
fn join_reversed(labels: &Vec<String>) -> (r: String)
    ensures
        r@ == domain_name(views(labels@)),
{
    let mut name = String::new();
    let ghost all = views(labels@);
    let mut k: usize = 0;
    while k < labels.len()
        invariant
            k <= labels@.len(),
            all == views(labels@),
            name@ == domain_name(all.take(k as int)),
        decreases labels@.len() - k,
    {
        let mut longer = labels[k].clone();
        if k > 0 {
            longer.push('.');
            append(&mut longer, name.as_str());
        }
        assert(all.take(k + 1).drop_last() == all.take(k as int));
        assert(longer@ =~= domain_name(all.take(k + 1)));
        name = longer;
        k += 1;
    }
    assert(all.take(k as int) == all);
    name
}

/// The labels of a domain, last first, up to the first empty one, and whether none is empty.
fn labels_of(domain: &str) -> (r: (Vec<String>, bool))
    ensures
        (views(r.0@), r.1) == reversed_labels(domain@),
{
    let mut labels: Vec<String> = Vec::new();
    let mut rest = domain.to_string();
    assert(Seq::<Seq<char>>::empty() + reversed_labels(domain@).0 == reversed_labels(domain@).0);
    loop
        invariant
            views(labels@) + reversed_labels(rest@).0 == reversed_labels(domain@).0,
            reversed_labels(rest@).1 == reversed_labels(domain@).1,
        decreases rest@.len(),
    {
        let ghost held = views(labels@);
        let ghost whole = rest@;
        proof {
            lemma_last_index(rest@, '.');
        }
        match rsplit_once(rest.as_str(), '.') {
            None => {
                if is_empty_text(rest.as_str()) {
                    assert(held + Seq::<Seq<char>>::empty() == held);
                    return (labels, false);
                }
                labels.push(rest);
                assert(views(labels@) == held + seq![whole]);
                return (labels, true);
            },
            Some((parent, label)) => {
                if is_empty_text(label.as_str()) {
                    assert(held + Seq::<Seq<char>>::empty() == held);
                    return (labels, false);
                }
                let ghost l = label@;
                labels.push(label);
                rest = parent;
                assert(views(labels@) == held.push(l));
                assert(held.push(l) + reversed_labels(rest@).0 == held + (seq![l] + reversed_labels(
                    rest@,
                ).0));
            },
        }
    }
}

impl DnsScopeTrieNode {
    /// Adds a domain to the tree below this node.
    pub fn insert(&mut self, domain: &str)
        requires
            old(self).plain(),
        ensures
            final(self).plain(),
            forall|q: Seq<Seq<char>>| #[trigger]
                final(self).has(q) <==> old(self).has(q) || q.is_prefix_of(
                    reversed_labels(domain@).0,
                ),
            forall|q: Seq<Seq<char>>| #[trigger]
                final(self).ends(q) <==> old(self).ends(q) || reversed_labels(domain@) == (q, true),
    {
        let (labels, complete) = labels_of(domain);
        assert(views(labels@).skip(0) == views(labels@));
        self.insert_labels(&labels, 0, complete);
    }

    /// Whether this is the node at `path` in the tree of `domains`.
    spec fn stands_for(self, domains: Seq<Seq<char>>, path: Seq<Seq<char>>) -> bool {
        &&& self.plain()
        &&& forall|q: Seq<Seq<char>>| #[trigger] self.has(q) <==> is_node(domains, path + q)
        &&& forall|q: Seq<Seq<char>>| #[trigger] self.ends(q) <==> is_listed(domains, path + q)
    }

    proof fn lemma_child_stands_for(self, i: int, domains: Seq<Seq<char>>, path: Seq<Seq<char>>)
        requires
            self.stands_for(domains, path),
            0 <= i < self.children@.len(),
        ensures
            self.children@[i].stands_for(domains, path.push(self.children@[i].label@)),
    {
        let child = self.children@[i];
        let label = child.label@;
        assert(child.plain());
        assert forall|q: Seq<Seq<char>>| #[trigger] child.has(q) <==> is_node(
            domains,
            path.push(label) + q,
        ) by {
            let longer = seq![label] + q;
            assert(longer.skip(1) == q);
            self.lemma_child(i, longer);
            assert(path + longer == path.push(label) + q);
            assert(self.has(longer) <==> is_node(domains, path + longer));
        }
        assert forall|q: Seq<Seq<char>>| #[trigger] child.ends(q) <==> is_listed(
            domains,
            path.push(label) + q,
        ) by {
            let longer = seq![label] + q;
            assert(longer.skip(1) == q);
            self.lemma_child(i, longer);
            assert(path + longer == path.push(label) + q);
            assert(self.ends(longer) <==> is_listed(domains, path + longer));
        }
    }

    /// A node of the tree has a child for each label that leads to a node.
    proof fn lemma_child_of(self, domains: Seq<Seq<char>>, path: Seq<Seq<char>>, a: Seq<char>)
        requires
            self.stands_for(domains, path),
        ensures
            is_node(domains, path.push(a)) <==> exists|i: int|
                0 <= i < self.children@.len() && (#[trigger] self.children@[i]).label@ == a,
    {
        let one = seq![a];
        assert(path + one == path.push(a));
        assert(self.has(one) <==> is_node(domains, path + one));
        assert(one.skip(1).len() == 0);
        if exists|i: int|
            0 <= i < self.children@.len() && (#[trigger] self.children@[i]).label@ == a {
            let i = choose|i: int|
                0 <= i < self.children@.len() && (#[trigger] self.children@[i]).label@ == a;
            assert(self.children@[i].has(one.skip(1)));
            assert(self.has(one));
        }
    }

    proof fn lemma_merged(self, domains: Seq<Seq<char>>, path: Seq<Seq<char>>)
        requires
            self.stands_for(domains, path),
        ensures
            self.merged(capped(path)) == is_merged(domains, path),
            self.collapses_to_leaf(capped(path)) == is_scope_leaf(domains, path),
        decreases self,
    {
        let depth = capped(path);
        assert forall|i: int| 0 <= i < self.children@.len() implies (
        #[trigger] self.children@[i]).collapses_to_leaf(deeper(depth)) == is_scope_leaf(
            domains,
            path.push(self.children@[i].label@),
        ) by {
            self.lemma_child_stands_for(i, domains, path);
            let child_path = path.push(self.children@[i].label@);
            self.children@[i].lemma_merged(domains, child_path);
            assert(capped(child_path) == deeper(depth));
        }
        if self.merged(depth) {
            let (i, j) = choose|i: int, j: int|
                0 <= i < j < self.children@.len() && (
                #[trigger] self.children@[i]).collapses_to_leaf(deeper(depth)) && (
                #[trigger] self.children@[j]).collapses_to_leaf(deeper(depth));
            let a = self.children@[i].label@;
            let b = self.children@[j].label@;
            assert(a != b);
            assert(is_scope_leaf(domains, path.push(a)));
            assert(is_scope_leaf(domains, path.push(b)));
            lemma_leaf_is_node(domains, path.push(a));
            lemma_node_depth(domains, path.push(a));
            assert(is_merged(domains, path));
        }
        if is_merged(domains, path) {
            let (a, b) = choose|a: Seq<char>, b: Seq<char>|
                #![trigger path.push(a), path.push(b)]
                a != b && is_scope_leaf(domains, path.push(a)) && is_scope_leaf(
                    domains,
                    path.push(b),
                );
            lemma_leaf_is_node(domains, path.push(a));
            lemma_leaf_is_node(domains, path.push(b));
            self.lemma_child_of(domains, path, a);
            self.lemma_child_of(domains, path, b);
            let i = choose|i: int|
                0 <= i < self.children@.len() && (#[trigger] self.children@[i]).label@ == a;
            let j = choose|j: int|
                0 <= j < self.children@.len() && (#[trigger] self.children@[j]).label@ == b;
            assert(self.children@[i].collapses_to_leaf(deeper(depth)));
            assert(self.children@[j].collapses_to_leaf(deeper(depth)));
            assert(i != j);
            if i < j {
                assert(self.merged(depth));
            } else {
                assert(self.merged(depth));
            }
        }
        let none = Seq::<Seq<char>>::empty();
        assert(path + none == path);
        assert(self.ends(none) <==> is_listed(domains, path + none));
        assert(self.terminal == is_listed(domains, path));
        if self.children@.len() == 0 {
            assert forall|a: Seq<char>| !is_node(domains, #[trigger] path.push(a)) by {
                self.lemma_child_of(domains, path, a);
            }
        } else {
            let a = self.children@[0].label@;
            self.lemma_child_of(domains, path, a);
            assert(is_node(domains, path.push(a)));
        }
    }

    proof fn lemma_outermost(
        self,
        domains: Seq<Seq<char>>,
        path: Seq<Seq<char>>,
        q: Seq<Seq<char>>,
    )
        requires
            self.stands_for(domains, path),
        ensures
            self.leads_to_outermost(capped(path), q) <==> is_merged(domains, path + q) && forall|
                k: int,
            |
                path.len() <= k < path.len() + q.len() ==> !is_merged(
                    domains,
                    #[trigger] (path + q).take(k),
                ),
        decreases q.len(),
    {
        self.lemma_merged(domains, path);
        let whole = path + q;
        if q.len() == 0 {
            assert(whole =~= path);
        } else {
            assert(whole.take(path.len() as int) == path);
            let a = q[0];
            let next = path.push(a);
            assert(next + q.skip(1) == whole);
            if is_merged(domains, path) {
                assert(!self.leads_to_outermost(capped(path), q));
            } else {
                assert(capped(next) == deeper(capped(path)));
                if exists|i: int|
                    0 <= i < self.children@.len() && (#[trigger] self.children@[i]).label@ == a {
                    let i = choose|i: int|
                        0 <= i < self.children@.len() && (#[trigger] self.children@[i]).label@ == a;
                    self.lemma_child_stands_for(i, domains, path);
                    self.children@[i].lemma_outermost(domains, next, q.skip(1));
                    assert forall|j: int|
                        0 <= j < self.children@.len() && (#[trigger] self.children@[j]).label@
                            == a implies j == i by {
                        if j < i {
                            assert(self.children@[j].label@ != self.children@[i].label@);
                        }
                        if i < j {
                            assert(self.children@[i].label@ != self.children@[j].label@);
                        }
                    }
                    assert(self.leads_to_outermost(capped(path), q)
                        == self.children@[i].leads_to_outermost(capped(next), q.skip(1)));
                    if is_merged(domains, whole) && forall|k: int|
                        next.len() <= k < next.len() + q.skip(1).len() ==> !is_merged(
                            domains,
                            #[trigger] (next + q.skip(1)).take(k),
                        ) {
                        assert forall|k: int|
                            path.len() <= k < path.len() + q.len() implies !is_merged(
                            domains,
                            #[trigger] whole.take(k),
                        ) by {
                            if k > path.len() {
                                assert(!is_merged(domains, (next + q.skip(1)).take(k)));
                            }
                        }
                    }
                } else {
                    assert(!self.leads_to_outermost(capped(path), q));
                    if is_merged(domains, whole) {
                        lemma_leaf_is_node(domains, whole);
                        lemma_node_prefix(domains, whole, next.len() as int);
                        assert(whole.take(next.len() as int) == next);
                        self.lemma_child_of(domains, path, a);
                    }
                }
            }
        }
    }
}

/// The length of a path, counted up to two.
spec fn capped(path: Seq<Seq<char>>) -> usize {
    if path.len() < 2 {
        path.len() as usize
    } else {
        2
    }
}

proof fn lemma_node_prefix(domains: Seq<Seq<char>>, path: Seq<Seq<char>>, k: int)
    requires
        is_node(domains, path),
        0 <= k <= path.len(),
    ensures
        is_node(domains, path.take(k)),
{
    if k > 0 {
        let i = choose|i: int|
            0 <= i < domains.len() && path.is_prefix_of(reversed_labels(#[trigger] domains[i]).0);
        let labels = reversed_labels(domains[i]).0;
        assert(path.take(k) =~= labels.subrange(0, k)) by {
            assert forall|j: int| 0 <= j < k implies path.take(k)[j] == labels[j] by {
                assert(path[j] == labels.subrange(0, path.len() as int)[j]);
            }
        }
    }
}

proof fn lemma_leaf_is_node(domains: Seq<Seq<char>>, path: Seq<Seq<char>>)
    requires
        is_scope_leaf(domains, path),
    ensures
        is_node(domains, path),
    decreases tree_depth(domains) - path.len(),
{
    if is_merged(domains, path) {
        let (a, b) = choose|a: Seq<char>, b: Seq<char>|
            #![trigger path.push(a), path.push(b)]
            a != b && is_scope_leaf(domains, path.push(a)) && is_scope_leaf(domains, path.push(b));
        lemma_leaf_is_node(domains, path.push(a));
        lemma_node_prefix(domains, path.push(a), path.len() as int);
        assert(path.push(a).take(path.len() as int) == path);
    } else {
        let i = choose|i: int|
            0 <= i < domains.len() && reversed_labels(#[trigger] domains[i]) == (path, true);
        assert(path.is_prefix_of(reversed_labels(domains[i]).0));
    }
}

proof fn lemma_node_depth(domains: Seq<Seq<char>>, path: Seq<Seq<char>>)
    requires
        is_node(domains, path),
    ensures
        path.len() <= tree_depth(domains),
    decreases domains.len(),
{
    if path.len() > 0 {
        let i = choose|i: int|
            0 <= i < domains.len() && path.is_prefix_of(reversed_labels(#[trigger] domains[i]).0);
        if i < domains.len() - 1 {
            assert(domains.drop_last()[i] == domains[i]);
            lemma_node_depth(domains.drop_last(), path);
        }
    }
}

/// The trusted scopes of a list of domains.
pub fn infer_trusted_dns_scopes(domains: &Vec<String>) -> (r: StringHashSet)
    ensures
        r@ == trusted_scopes(views(domains@)),
{
    let mut root = DnsScopeTrieNode::leaf("");
    let ghost all = views(domains@);
    let ghost none = Seq::<Seq<char>>::empty();
    let mut i: usize = 0;
    assert(root.stands_for(all.take(0), none)) by {
        assert forall|q: Seq<Seq<char>>| #[trigger] root.has(q) <==> is_node(
            all.take(0),
            none + q,
        ) by {
            assert(none + q == q);
        }
        assert forall|q: Seq<Seq<char>>| #[trigger] root.ends(q) <==> is_listed(
            all.take(0),
            none + q,
        ) by {
            assert(none + q == q);
        }
    }
    while i < domains.len()
        invariant
            i <= domains@.len(),
            all == views(domains@),
            none == Seq::<Seq<char>>::empty(),
            root.stands_for(all.take(i as int), none),
        decreases domains@.len() - i,
    {
        let ghost before = root;
        root.insert(domains[i].as_str());
        proof {
            let fewer = all.take(i as int);
            let more = all.take(i + 1);
            assert(more == fewer.push(all[i as int]));
            assert forall|q: Seq<Seq<char>>| #[trigger] root.has(q) <==> is_node(more, none + q) by {
                assert(none + q == q);
                assert(before.has(q) <==> is_node(fewer, none + q));
                lemma_more_domains(fewer, all[i as int], q);
            }
            assert forall|q: Seq<Seq<char>>| #[trigger] root.ends(q) <==> is_listed(
                more,
                none + q,
            ) by {
                assert(none + q == q);
                assert(before.ends(q) <==> is_listed(fewer, none + q));
                lemma_more_domains(fewer, all[i as int], q);
            }
        }
        i += 1;
    }
    assert(all.take(i as int) == all);
    let ghost whole = root;
    root.collapse(0);
    let mut scopes = StringHashSet::new();
    let mut labels: Vec<String> = Vec::new();
    root.collect_synthetic_leaves(&mut labels, &mut scopes);
    assert forall|s: Seq<char>| #[trigger] scopes@.contains(s) <==> trusted_scopes(all).contains(
        s,
    ) by {
        assert(views(Seq::<String>::empty()) == none);
        assert(capped(none) == 0);
        assert forall|q: Seq<Seq<char>>| #[trigger] root.leads_to_merged(q) == is_outermost(
            all,
            q,
        ) by {
            assert(none + q == q);
            root.lemma_leads(whole, 0, q);
            whole.lemma_outermost(all, none, q);
        }
        if exists|q: Seq<Seq<char>>| #[trigger]
            root.leads_to_merged(q) && s == domain_name(none + q) {
            let q = choose|q: Seq<Seq<char>>| #[trigger]
                root.leads_to_merged(q) && s == domain_name(none + q);
            assert(none + q == q);
            assert(is_outermost(all, q) && s == domain_name(q));
        }
        if trusted_scopes(all).contains(s) {
            let q = choose|q: Seq<Seq<char>>| #[trigger]
                is_outermost(all, q) && s == domain_name(q);
            assert(none + q == q);
            assert(root.leads_to_merged(q));
        }
    }
    scopes
}

proof fn lemma_more_domains(domains: Seq<Seq<char>>, domain: Seq<char>, q: Seq<Seq<char>>)
    ensures
        is_node(domains.push(domain), q) <==> is_node(domains, q) || q.is_prefix_of(
            reversed_labels(domain).0,
        ),
        is_listed(domains.push(domain), q) <==> is_listed(domains, q) || reversed_labels(domain)
            == (q, true),
{
    let more = domains.push(domain);
    assert(more.last() == domain);
    assert forall|i: int| 0 <= i < domains.len() implies #[trigger] more[i] == domains[i] by {}
    if q.is_prefix_of(reversed_labels(domain).0) {
        assert(q.is_prefix_of(reversed_labels(more[domains.len() as int]).0));
    }
    if reversed_labels(domain) == (q, true) {
        assert(reversed_labels(more[domains.len() as int]) == (q, true));
    }
    if q.len() > 0 && is_node(domains, q) {
        let i = choose|i: int|
            0 <= i < domains.len() && q.is_prefix_of(reversed_labels(#[trigger] domains[i]).0);
        assert(more[i] == domains[i]);
    }
    if is_listed(domains, q) {
        let i = choose|i: int|
            0 <= i < domains.len() && reversed_labels(#[trigger] domains[i]) == (q, true);
        assert(more[i] == domains[i]);
    }
}

proof fn lemma_trusted_step(scopes: Set<Seq<char>>, domain: Seq<char>)
    ensures
        is_trusted(scopes, domain) == (scopes.contains(domain) || match split_first(domain, '.') {
            Some((_, parent)) => is_trusted(scopes, parent),
            None => false,
        }),
{
    lemma_first_index(domain, '.');
    let i = first_index(domain, '.');
    if is_trusted(scopes, domain) && !scopes.contains(domain) {
        let scope = choose|scope: Seq<char>| #[trigger]
            scopes.contains(scope) && is_within(domain, scope);
        let cut = domain.len() - scope.len();
        assert(domain[cut - 1] == '.');
        assert(i <= cut - 1);
        let parent = domain.skip(i + 1);
        if i == cut - 1 {
            assert(parent == scope);
        } else {
            assert(parent[cut - i - 2] == '.');
            assert(parent.skip(cut - i - 1) == domain.skip(cut));
        }
        assert(is_within(parent, scope));
    }
    if i < domain.len() {
        let parent = domain.skip(i + 1);
        if is_trusted(scopes, parent) {
            let scope = choose|scope: Seq<char>| #[trigger]
                scopes.contains(scope) && is_within(parent, scope);
            let cut = domain.len() - scope.len();
            if parent == scope {
                assert(domain[cut - 1] == '.');
            } else {
                assert(domain[cut - 1] == parent[cut - i - 2]);
                assert(domain.skip(cut) == parent.skip(cut - i - 1));
            }
            assert(is_within(domain, scope));
        }
    }
    if scopes.contains(domain) {
        assert(is_within(domain, domain));
    }
}

/// Whether `domain` lies within one of `scopes`.
pub fn is_trusted_domain(scopes: &StringHashSet, domain: &str) -> (r: bool)
    ensures
        r == is_trusted(scopes@, domain@),
{
    let mut candidate = domain.to_string();
    loop
        invariant
            is_trusted(scopes@, domain@) == is_trusted(scopes@, candidate@),
        decreases candidate@.len(),
    {
        proof {
            lemma_trusted_step(scopes@, candidate@);
            lemma_first_index(candidate@, '.');
        }
        if scopes.contains(candidate.as_str()) {
            return true;
        }
        match split_once(candidate.as_str(), '.') {
            Some((_, parent)) => {
                candidate = parent;
            },
            None => {
                return false;
            },
        }
    }
}

impl DnsScopeTrieNode {
    /// Whether no node of the tree is merged.
    pub open spec fn unmerged(self) -> bool
        decreases self,
    {
        !self.synthetic && forall|i: int|
            0 <= i < self.children@.len() ==> (#[trigger] self.children@[i]).unmerged()
    }

    /// Whether the tree at `depth` has nothing left to merge, and merged nodes only where nodes can
    /// be merged, with nothing below them.
    pub open spec fn settled(self, depth: usize) -> bool
        decreases self,
    {
        &&& self.synthetic ==> depth >= 2 && self.children@.len() == 0
        &&& depth >= 2 ==> forall|i: int, j: int|
            0 <= i < j < self.children@.len() ==> !((#[trigger] self.children@[i]).childless_end()
                && (#[trigger] self.children@[j]).childless_end())
        &&& forall|i: int|
            0 <= i < self.children@.len() ==> (#[trigger] self.children@[i]).settled(deeper(depth))
    }

    /// Whether every node of this tree stands at the same place in `before`, and ends a domain
    /// here if and only if it does there; a node has all of its children or none of them.
    pub open spec fn remains_of(self, before: DnsScopeTrieNode) -> bool
        decreases self,
    {
        &&& self.label@ == before.label@
        &&& self.terminal == before.terminal
        &&& self.children@.len() == before.children@.len() || self.children@.len() == 0
        &&& forall|i: int|
            0 <= i < self.children@.len() ==> (#[trigger] self.children@[i]).remains_of(
                before.children@[i],
            )
    }

    /// Whether the two trees are alike in every node.
    pub open spec fn same_as(self, other: DnsScopeTrieNode) -> bool
        decreases self,
    {
        &&& self.label@ == other.label@
        &&& self.terminal == other.terminal
        &&& self.synthetic == other.synthetic
        &&& self.children@.len() == other.children@.len()
        &&& forall|i: int|
            0 <= i < self.children@.len() ==> (#[trigger] self.children@[i]).same_as(
                other.children@[i],
            )
    }
}

/// Collapsing a tree without merged nodes leaves nothing to merge: no node two or more labels deep
/// has two leaves below it, and merged nodes stand that deep and have nothing below them. It adds
/// no node and changes no domain's end, and above that depth it keeps a node and its children.
pub proof fn law_collapsed_tree(before: DnsScopeTrieNode, after: DnsScopeTrieNode, depth: usize)
    requires
        before.unmerged(),
        after.collapsed_from(before, depth),
    ensures
        after.settled(depth),
        after.remains_of(before),
        depth < 2 ==> {
            &&& !after.synthetic
            &&& after.children@.len() == before.children@.len()
            &&& forall|i: int|
                0 <= i < before.children@.len() ==> (#[trigger] after.children@[i]).label@
                    == before.children@[i].label@
        },
    decreases before,
{
    if !before.merged(depth) {
        assert forall|i: int| 0 <= i < after.children@.len() implies {
            &&& (#[trigger] after.children@[i]).settled(deeper(depth))
            &&& after.children@[i].remains_of(before.children@[i])
            &&& after.children@[i].label@ == before.children@[i].label@
            &&& after.children@[i].childless_end() ==> before.children@[i].collapses_to_leaf(
                deeper(depth),
            )
        } by {
            assert(before.children@[i].unmerged());
            assert(after.children@[i].collapsed_from(before.children@[i], deeper(depth)));
            law_collapsed_tree(before.children@[i], after.children@[i], deeper(depth));
        }
    }
}

/// Collapsing a collapsed tree again changes nothing.
pub proof fn law_collapsing_again_changes_nothing(
    before: DnsScopeTrieNode,
    once: DnsScopeTrieNode,
    twice: DnsScopeTrieNode,
    depth: usize,
)
    requires
        once.collapsed_from(before, depth),
        twice.collapsed_from(once, depth),
    ensures
        twice.same_as(once),
    decreases before,
{
    lemma_collapsed_leaf(before, once, depth);
    assert forall|i: int| 0 <= i < twice.children@.len() implies (
    #[trigger] twice.children@[i]).same_as(once.children@[i]) by {
        assert(once.children@[i].collapsed_from(before.children@[i], deeper(depth)));
        assert(twice.children@[i].collapsed_from(once.children@[i], deeper(depth)));
        law_collapsing_again_changes_nothing(
            before.children@[i],
            once.children@[i],
            twice.children@[i],
            deeper(depth),
        );
    }
}

/// A collapsed node is a leaf if and only if collapsing it again makes it one.
proof fn lemma_collapsed_leaf(before: DnsScopeTrieNode, once: DnsScopeTrieNode, depth: usize)
    requires
        once.collapsed_from(before, depth),
    ensures
        !once.merged(depth),
        once.collapses_to_leaf(depth) == before.collapses_to_leaf(depth),
    decreases before,
{
    if !before.merged(depth) && once.merged(depth) {
        let (i, j) = choose|i: int, j: int|
            0 <= i < j < once.children@.len() && (#[trigger] once.children@[i]).collapses_to_leaf(
                deeper(depth),
            ) && (#[trigger] once.children@[j]).collapses_to_leaf(deeper(depth));
        assert(once.children@[i].collapsed_from(before.children@[i], deeper(depth)));
        assert(once.children@[j].collapsed_from(before.children@[j], deeper(depth)));
        lemma_collapsed_leaf(before.children@[i], once.children@[i], deeper(depth));
        lemma_collapsed_leaf(before.children@[j], once.children@[j], deeper(depth));
    }
}

/// A scope authorizes itself and every name below it.
pub proof fn law_scope_authorizes_itself_and_subdomains(
    scopes: Set<Seq<char>>,
    scope: Seq<char>,
    below: Seq<char>,
)
    requires
        scopes.contains(scope),
    ensures
        is_trusted(scopes, scope),
        is_trusted(scopes, below + seq!['.'] + scope),
{
    let domain = below + seq!['.'] + scope;
    assert(domain.skip(domain.len() - scope.len()) == scope);
    assert(domain[domain.len() - scope.len() - 1] == '.');
    assert(is_within(domain, scope));
    assert(is_within(scope, scope));
}

/// A scope authorizes nothing else: a trusted name is a scope or ends in a dot and a scope.
pub proof fn law_scope_authorizes_nothing_else(scopes: Set<Seq<char>>, domain: Seq<char>)
    requires
        is_trusted(scopes, domain),
    ensures
        exists|scope: Seq<char>| #[trigger]
            scopes.contains(scope) && (domain == scope || exists|below: Seq<char>|
                domain == #[trigger] (below + seq!['.']) + scope),
{
    let scope = choose|scope: Seq<char>| #[trigger]
        scopes.contains(scope) && is_within(domain, scope);
    if domain != scope {
        let cut = domain.len() - scope.len();
        let below = domain.take(cut - 1);
        assert(domain =~= (below + seq!['.']) + scope);
    }
}

/// Every trusted scope has at least two labels: it holds a dot.
pub proof fn law_scope_has_two_labels(domains: Seq<Seq<char>>, scope: Seq<char>)
    requires
        trusted_scopes(domains).contains(scope),
    ensures
        scope.contains('.'),
{
    let path = choose|path: Seq<Seq<char>>| #[trigger]
        is_outermost(domains, path) && scope == domain_name(path);
    assert(scope[path.last().len() as int] == '.');
}

proof fn lemma_depth_reached(domains: Seq<Seq<char>>)
    ensures
        tree_depth(domains) == 0 || exists|i: int|
            0 <= i < domains.len() && reversed_labels(#[trigger] domains[i]).0.len() == tree_depth(
                domains,
            ),
    decreases domains.len(),
{
    if domains.len() > 0 {
        let rest = domains.drop_last();
        lemma_depth_reached(rest);
        if reversed_labels(domains.last()).0.len() > tree_depth(rest) {
            assert(domains[domains.len() - 1] == domains.last());
        } else if tree_depth(rest) > 0 {
            let i = choose|i: int|
                0 <= i < rest.len() && reversed_labels(#[trigger] rest[i]).0.len() == tree_depth(
                    rest,
                );
            assert(domains[i] == rest[i]);
        }
    }
}

proof fn lemma_same_depth(a: Seq<Seq<char>>, b: Seq<Seq<char>>)
    requires
        forall|d: Seq<char>| #[trigger] a.contains(d) ==> b.contains(d),
    ensures
        tree_depth(a) <= tree_depth(b),
        forall|p: Seq<Seq<char>>| #[trigger] is_node(a, p) ==> is_node(b, p),
        forall|p: Seq<Seq<char>>| #[trigger] is_listed(a, p) ==> is_listed(b, p),
{
    assert forall|p: Seq<Seq<char>>| #[trigger] is_node(a, p) implies is_node(b, p) by {
        if p.len() > 0 {
            let i = choose|i: int|
                0 <= i < a.len() && p.is_prefix_of(reversed_labels(#[trigger] a[i]).0);
            assert(a.contains(a[i]) && b.contains(a[i]));
            let j = choose|j: int| 0 <= j < b.len() && b[j] == a[i];
            assert(p.is_prefix_of(reversed_labels(b[j]).0));
        }
    }
    assert forall|p: Seq<Seq<char>>| #[trigger] is_listed(a, p) implies is_listed(b, p) by {
        let i = choose|i: int|
            0 <= i < a.len() && reversed_labels(#[trigger] a[i]) == (p, true);
        assert(a.contains(a[i]) && b.contains(a[i]));
        let j = choose|j: int| 0 <= j < b.len() && b[j] == a[i];
        assert(reversed_labels(b[j]) == (p, true));
    }
    lemma_depth_reached(a);
    if tree_depth(a) > 0 {
        let i = choose|i: int|
            0 <= i < a.len() && reversed_labels(#[trigger] a[i]).0.len() == tree_depth(a);
        let p = reversed_labels(a[i]).0;
        assert(p =~= p.subrange(0, p.len() as int));
        assert(is_node(a, p));
        lemma_node_depth(b, p);
    }
}

proof fn lemma_same_merges(a: Seq<Seq<char>>, b: Seq<Seq<char>>, path: Seq<Seq<char>>)
    requires
        forall|d: Seq<char>| #[trigger] a.contains(d) <==> b.contains(d),
    ensures
        is_merged(a, path) == is_merged(b, path),
        is_scope_leaf(a, path) == is_scope_leaf(b, path),
    decreases tree_depth(a) - path.len(),
{
    lemma_same_depth(a, b);
    lemma_same_depth(b, a);
    if path.len() < tree_depth(a) {
        assert forall|l: Seq<char>|
            is_scope_leaf(a, #[trigger] path.push(l)) == is_scope_leaf(b, path.push(l)) by {
            lemma_same_merges(a, b, path.push(l));
        }
    }
}

/// The scopes depend only on which domains are listed, not on their order or how often.
pub proof fn law_scopes_depend_on_the_set_of_domains(a: Seq<Seq<char>>, b: Seq<Seq<char>>)
    requires
        forall|d: Seq<char>| #[trigger] a.contains(d) <==> b.contains(d),
    ensures
        trusted_scopes(a) == trusted_scopes(b),
{
    assert forall|p: Seq<Seq<char>>| #[trigger] is_outermost(a, p) == is_outermost(b, p) by {
        lemma_same_merges(a, b, p);
        assert forall|k: int| 0 <= k < p.len() implies is_merged(a, #[trigger] p.take(k))
            == is_merged(b, p.take(k)) by {
            lemma_same_merges(a, b, p.take(k));
        }
    }
    assert forall|s: Seq<char>| trusted_scopes(a).contains(s) == trusted_scopes(b).contains(s) by {
        if trusted_scopes(a).contains(s) {
            let p = choose|p: Seq<Seq<char>>| #[trigger] is_outermost(a, p) && s == domain_name(p);
            assert(is_outermost(b, p));
        }
        if trusted_scopes(b).contains(s) {
            let p = choose|p: Seq<Seq<char>>| #[trigger] is_outermost(b, p) && s == domain_name(p);
            assert(is_outermost(a, p));
        }
    }
    assert(trusted_scopes(a) =~= trusted_scopes(b));
}

/// Labels of which none is empty spell the domain that they come from.
proof fn lemma_labels_spell(domain: Seq<char>)
    requires
        reversed_labels(domain).1,
    ensures
        domain_name(reversed_labels(domain).0) == domain,
        reversed_labels(domain).0.len() > 0,
    decreases domain.len(),
{
    lemma_last_index(domain, '.');
    match split_last(domain, '.') {
        None => {
            assert(seq![domain].len() == 1);
        },
        Some((rest, label)) => {
            lemma_labels_spell(rest);
            let labels = reversed_labels(rest).0;
            lemma_name_below(label, labels);
            assert(domain =~= rest + seq!['.'] + label);
        },
    }
}

/// A label put in front of reversed labels is the last label of their name.
proof fn lemma_name_below(label: Seq<char>, labels: Seq<Seq<char>>)
    requires
        labels.len() > 0,
    ensures
        domain_name(seq![label] + labels) == domain_name(labels) + seq!['.'] + label,
    decreases labels.len(),
{
    let all = seq![label] + labels;
    assert(all.drop_last() == seq![label] + labels.drop_last());
    assert(all.last() == labels.last());
    if labels.len() == 1 {
        assert(all.drop_last() == seq![label]);
        assert(domain_name(all.drop_last()) == label);
    } else {
        lemma_name_below(label, labels.drop_last());
        assert(domain_name(all) =~= domain_name(labels) + seq!['.'] + label);
    }
}

/// The name of a path lies within the name of each of its prefixes.
proof fn lemma_name_within(path: Seq<Seq<char>>, k: int)
    requires
        1 <= k <= path.len(),
    ensures
        is_within(domain_name(path), domain_name(path.take(k))),
    decreases path.len(),
{
    if k == path.len() {
        assert(path.take(k) == path);
    } else {
        let up = path.drop_last();
        lemma_name_within(up, k);
        assert(up.take(k) == path.take(k));
        let domain = domain_name(path);
        let parent = domain_name(up);
        let scope = domain_name(path.take(k));
        let cut = domain.len() - scope.len();
        let off = domain.len() - parent.len();
        assert(domain == path.last() + seq!['.'] + parent);
        assert(domain.skip(off) == parent);
        assert(domain[off - 1] == '.');
        if parent != scope {
            let inner = parent.len() - scope.len();
            assert(domain[cut - 1] == parent[inner - 1]);
            assert(domain.skip(cut) == parent.skip(inner));
        }
    }
}

proof fn lemma_leaf_covers(domains: Seq<Seq<char>>, path: Seq<Seq<char>>) -> (i: int)
    requires
        is_scope_leaf(domains, path),
        path.len() > 0,
    ensures
        0 <= i < domains.len(),
        reversed_labels(domains[i]).1,
        path.is_prefix_of(reversed_labels(domains[i]).0),
    decreases tree_depth(domains) - path.len(),
{
    if is_merged(domains, path) {
        let (a, b) = choose|a: Seq<char>, b: Seq<char>|
            #![trigger path.push(a), path.push(b)]
            a != b && is_scope_leaf(domains, path.push(a)) && is_scope_leaf(domains, path.push(b));
        let i = lemma_leaf_covers(domains, path.push(a));
        lemma_shorter_prefix(path, a, reversed_labels(domains[i]).0);
        i
    } else {
        let i = choose|i: int|
            0 <= i < domains.len() && reversed_labels(#[trigger] domains[i]) == (path, true);
        assert(path =~= path.subrange(0, path.len() as int));
        i
    }
}

proof fn lemma_shorter_prefix(path: Seq<Seq<char>>, a: Seq<char>, labels: Seq<Seq<char>>)
    requires
        path.push(a).is_prefix_of(labels),
    ensures
        path.is_prefix_of(labels),
        labels[path.len() as int] == a,
        labels.take(path.len() as int) == path,
{
    let longer = path.push(a);
    assert forall|j: int| 0 <= j < longer.len() implies longer[j] == labels[j] by {
        assert(longer[j] == labels.subrange(0, longer.len() as int)[j]);
    }
    assert forall|j: int| 0 <= j < path.len() implies path[j] == labels[j] by {
        assert(longer[j] == path[j]);
    }
    assert(path =~= labels.subrange(0, path.len() as int));
    assert(longer[path.len() as int] == a);
}

/// The label that stands directly below `scope` in a name below it.
pub open spec fn label_below(domain: Seq<char>, scope: Seq<char>) -> Seq<char> {
    let below = domain.take(domain.len() - scope.len() - 1);
    match split_last(below, '.') {
        Some((_, label)) => label,
        None => below,
    }
}

/// Below every trusted scope stand at least two listed domains, which differ in the label directly
/// below the scope.
pub proof fn law_scope_covers_two_domains(domains: Seq<Seq<char>>, scope: Seq<char>)
    requires
        trusted_scopes(domains).contains(scope),
    ensures
        exists|i: int, j: int|
            #![trigger domains[i], domains[j]]
            {
                &&& 0 <= i < domains.len() && 0 <= j < domains.len()
                &&& domains[i] != scope && is_within(domains[i], scope)
                &&& domains[j] != scope && is_within(domains[j], scope)
                &&& label_below(domains[i], scope) != label_below(domains[j], scope)
            },
{
    let path = choose|path: Seq<Seq<char>>| #[trigger]
        is_outermost(domains, path) && scope == domain_name(path);
    let (a, b) = choose|a: Seq<char>, b: Seq<char>|
        #![trigger path.push(a), path.push(b)]
        a != b && is_scope_leaf(domains, path.push(a)) && is_scope_leaf(domains, path.push(b));
    let i = lemma_leaf_covers(domains, path.push(a));
    let j = lemma_leaf_covers(domains, path.push(b));
    lemma_covered(domains[i], path, a);
    lemma_covered(domains[j], path, b);
    assert(label_below(domains[i], scope) == a);
    assert(label_below(domains[j], scope) == b);
}

/// No trusted scope lies below another.
pub proof fn law_no_scope_below_another(
    domains: Seq<Seq<char>>,
    scope: Seq<char>,
    other: Seq<char>,
)
    requires
        trusted_scopes(domains).contains(scope),
        trusted_scopes(domains).contains(other),
        is_within(other, scope),
    ensures
        other == scope,
{
    let p = choose|p: Seq<Seq<char>>| #[trigger]
        is_outermost(domains, p) && other == domain_name(p);
    let q = choose|q: Seq<Seq<char>>| #[trigger]
        is_outermost(domains, q) && scope == domain_name(q);
    lemma_node_labels(domains, p);
    lemma_node_labels(domains, q);
    lemma_names_read_back(p);
    lemma_names_read_back(q);
    if other != scope {
        let below = other.take(other.len() - scope.len() - 1);
        assert(other =~= below + seq!['.'] + scope);
        lemma_labels_join(below, scope);
        assert(p.take(q.len() as int) == q);
        assert(q.len() < p.len()) by {
            if q.len() == p.len() {
                assert(p =~= q);
            }
        }
    }
}

/// Whether a label is not empty and holds no dot.
spec fn is_label(label: Seq<char>) -> bool {
    label.len() > 0 && !label.contains('.')
}

proof fn lemma_labels(domain: Seq<char>)
    ensures
        forall|i: int|
            0 <= i < reversed_labels(domain).0.len() ==> is_label(
                #[trigger] reversed_labels(domain).0[i],
            ),
    decreases domain.len(),
{
    lemma_last_index(domain, '.');
    match split_last(domain, '.') {
        None => {},
        Some((rest, label)) => {
            lemma_labels(rest);
            assert(!label.contains('.'));
            let labels = reversed_labels(rest).0;
            assert forall|i: int| 0 <= i < reversed_labels(domain).0.len() implies is_label(
                #[trigger] reversed_labels(domain).0[i],
            ) by {
                if i > 0 {
                    assert(reversed_labels(domain).0[i] == labels[i - 1]);
                }
            }
        },
    }
}

/// The labels on the way to a merged node are labels.
proof fn lemma_node_labels(domains: Seq<Seq<char>>, path: Seq<Seq<char>>)
    requires
        is_merged(domains, path),
    ensures
        forall|i: int| 0 <= i < path.len() ==> is_label(#[trigger] path[i]),
{
    lemma_leaf_is_node(domains, path);
    let i = choose|i: int|
        0 <= i < domains.len() && path.is_prefix_of(reversed_labels(#[trigger] domains[i]).0);
    let labels = reversed_labels(domains[i]).0;
    lemma_labels(domains[i]);
    assert forall|k: int| 0 <= k < path.len() implies is_label(#[trigger] path[k]) by {
        assert(path[k] == labels.subrange(0, path.len() as int)[k]);
        assert(path[k] == labels[k]);
    }
}

/// The last label of a name that ends in a dot and a label is that label.
proof fn lemma_split_after(rest: Seq<char>, label: Seq<char>)
    requires
        !label.contains('.'),
    ensures
        split_last(rest + seq!['.'] + label, '.') == Some((rest, label)),
{
    let name = rest + seq!['.'] + label;
    let i = last_index(name, '.');
    lemma_last_index(name, '.');
    assert(name[rest.len() as int] == '.');
    if i > rest.len() {
        assert(name[i] == label[i - rest.len() - 1]);
    }
    assert(name.take(i) == rest);
    assert(name.skip(i + 1) == label);
}

/// The labels of a name below another are those of the other and then those below it.
proof fn lemma_labels_join(below: Seq<char>, name: Seq<char>)
    requires
        reversed_labels(name).1,
    ensures
        reversed_labels(below + seq!['.'] + name).0 == reversed_labels(name).0 + reversed_labels(
            below,
        ).0,
        reversed_labels(below + seq!['.'] + name).1 == reversed_labels(below).1,
    decreases name.len(),
{
    lemma_last_index(name, '.');
    match split_last(name, '.') {
        None => {
            lemma_split_after(below, name);
        },
        Some((rest, label)) => {
            let longer = below + seq!['.'] + rest;
            assert(below + seq!['.'] + name =~= longer + seq!['.'] + label);
            lemma_split_after(longer, label);
            lemma_labels_join(below, rest);
            assert(reversed_labels(name).0 + reversed_labels(below).0 =~= seq![label] + (
            reversed_labels(rest).0 + reversed_labels(below).0));
        },
    }
}

/// A name that labels spell has those labels.
proof fn lemma_names_read_back(labels: Seq<Seq<char>>)
    requires
        labels.len() > 0,
        forall|i: int| 0 <= i < labels.len() ==> is_label(#[trigger] labels[i]),
    ensures
        reversed_labels(domain_name(labels)) == (labels, true),
    decreases labels.len(),
{
    lemma_one_label(labels.last());
    if labels.len() == 1 {
        assert(seq![labels[0]] =~= labels);
    } else {
        let up = labels.drop_last();
        assert forall|i: int| 0 <= i < up.len() implies is_label(#[trigger] up[i]) by {
            assert(up[i] == labels[i]);
        }
        lemma_names_read_back(up);
        lemma_labels_join(labels.last(), domain_name(up));
        assert(up + seq![labels.last()] =~= labels);
    }
}

proof fn lemma_one_label(label: Seq<char>)
    requires
        is_label(label),
    ensures
        reversed_labels(label) == (seq![label], true),
{
    lemma_last_index(label, '.');
    let i = last_index(label, '.');
    if i >= 0 {
        assert(label[i] == '.');
    }
}

proof fn lemma_covered(domain: Seq<char>, path: Seq<Seq<char>>, a: Seq<char>)
    requires
        reversed_labels(domain).1,
        path.push(a).is_prefix_of(reversed_labels(domain).0),
        path.len() > 0,
    ensures
        is_within(domain, domain_name(path)),
        domain != domain_name(path),
        label_below(domain, domain_name(path)) == a,
{
    let labels = reversed_labels(domain).0;
    let scope = domain_name(path);
    lemma_shorter_prefix(path, a, labels);
    lemma_labels_spell(domain);
    lemma_name_within(labels, path.len() as int);
    lemma_name_longer(labels, path.len() as int);
    lemma_labels(domain);
    assert forall|i: int| 0 <= i < path.len() implies is_label(#[trigger] path[i]) by {
        assert(path[i] == labels.take(path.len() as int)[i]);
        assert(path[i] == labels[i]);
    }
    lemma_names_read_back(path);
    let below = domain.take(domain.len() - scope.len() - 1);
    assert(domain =~= below + seq!['.'] + scope);
    lemma_labels_join(below, scope);
    assert(labels[path.len() as int] == reversed_labels(below).0[0]);
    lemma_last_index(below, '.');
}

proof fn lemma_name_longer(path: Seq<Seq<char>>, k: int)
    requires
        1 <= k < path.len(),
    ensures
        domain_name(path.take(k)).len() < domain_name(path).len(),
    decreases path.len(),
{
    let up = path.drop_last();
    assert(up.take(k) == path.take(k));
    if k < up.len() {
        lemma_name_longer(up, k);
    } else {
        assert(up.take(k) == up);
    }
}

/// The labels of a domain are what stands between its dots, the last first: none is empty or holds a
/// dot, together they spell the end of the domain, and all of it where none of its labels is empty.
pub proof fn law_labels_of_a_domain(domain: Seq<char>)
    ensures
        ({
            let (labels, complete) = reversed_labels(domain);
            &&& forall|i: int|
                0 <= i < labels.len() ==> (#[trigger] labels[i]).len() > 0 && !labels[i].contains(
                    '.',
                )
            &&& labels.len() > 0 ==> is_within(domain, domain_name(labels))
            &&& complete ==> labels.len() > 0 && domain == domain_name(labels)
            &&& !complete && labels.len() == 0 ==> domain.len() == 0 || domain.last() == '.'
            &&& !complete && labels.len() > 0 ==> {
                let cut = domain.len() - domain_name(labels).len() - 1;
                cut >= 0 && domain[cut] == '.' && (cut == 0 || domain[cut - 1] == '.')
            }
        }),
    decreases domain.len(),
{
    let (labels, complete) = reversed_labels(domain);
    lemma_labels(domain);
    assert forall|i: int| 0 <= i < labels.len() implies (#[trigger] labels[i]).len() > 0
        && !labels[i].contains('.') by {
        assert(is_label(reversed_labels(domain).0[i]));
    }
    if labels.len() > 0 {
        lemma_labels_end_domain(domain, labels.len() as int);
        assert(labels.take(labels.len() as int) == labels);
    }
    if complete {
        lemma_labels_spell(domain);
    } else {
        lemma_empty_label(domain);
    }
}

/// Before the labels that are read of a domain with an empty label stands that empty label.
proof fn lemma_empty_label(domain: Seq<char>)
    requires
        !reversed_labels(domain).1,
    ensures
        ({
            let labels = reversed_labels(domain).0;
            let cut = domain.len() - domain_name(labels).len() - 1;
            &&& labels.len() == 0 ==> domain.len() == 0 || domain.last() == '.'
            &&& labels.len() > 0 ==> cut >= 0 && domain[cut] == '.' && (cut == 0 || domain[cut - 1]
                == '.')
        }),
    decreases domain.len(),
{
    lemma_last_index(domain, '.');
    if let Some((rest, label)) = split_last(domain, '.') {
        let k = rest.len() as int;
        assert(domain[k] == '.');
        assert(domain =~= rest + seq!['.'] + label);
        if label.len() == 0 {
            assert(domain.last() == domain[k]);
        } else {
            lemma_empty_label(rest);
            let inner = reversed_labels(rest).0;
            if inner.len() == 0 {
                assert(seq![label] + inner =~= seq![label]);
                assert(domain_name(seq![label]) == label);
                if rest.len() > 0 {
                    assert(domain[k - 1] == rest.last());
                }
            } else {
                lemma_name_below(label, inner);
                let cut = rest.len() - domain_name(inner).len() - 1;
                assert(domain[cut] == rest[cut]);
                if cut > 0 {
                    assert(domain[cut - 1] == rest[cut - 1]);
                }
            }
        }
    }
}

/// The first labels of a domain spell its end.
proof fn lemma_labels_end_domain(domain: Seq<char>, k: int)
    requires
        1 <= k <= reversed_labels(domain).0.len(),
    ensures
        is_within(domain, domain_name(reversed_labels(domain).0.take(k))),
    decreases domain.len(),
{
    let labels = reversed_labels(domain).0;
    lemma_last_index(domain, '.');
    match split_last(domain, '.') {
        None => {
            assert(labels.take(k) == seq![domain]);
        },
        Some((rest, label)) => {
            let inner = reversed_labels(rest).0;
            assert(domain =~= rest + seq!['.'] + label);
            if k == 1 {
                assert(labels.take(k) == seq![label]);
                let cut = domain.len() - label.len();
                assert(domain.skip(cut) == label);
                assert(domain[cut - 1] == '.');
            } else {
                lemma_labels_end_domain(rest, k - 1);
                let q = inner.take(k - 1);
                assert(labels.take(k) == seq![label] + q);
                lemma_name_below(label, q);
                let name = domain_name(q);
                let longer = name + seq!['.'] + label;
                if rest != name {
                    let cut = rest.len() - name.len();
                    assert(domain.len() - longer.len() == cut);
                    assert(domain[cut - 1] == rest[cut - 1]);
                    assert(rest =~= rest.take(cut) + name);
                    assert(domain.skip(cut) =~= longer);
                }
            }
        },
    }
}

/// Which nodes of the tree are merged: those at least two labels deep with two different children
/// that are leaves, a leaf being a merged node, or a node at which a domain ends and below which
/// there is nothing.
pub proof fn law_merging(domains: Seq<Seq<char>>, path: Seq<Seq<char>>)
    ensures
        ({
            let leaf = |p: Seq<Seq<char>>|
                is_merged(domains, p) || {
                    &&& exists|i: int|
                        0 <= i < domains.len() && reversed_labels(#[trigger] domains[i]) == (p, true)
                    &&& forall|i: int|
                        0 <= i < domains.len() ==> !(p.is_prefix_of(
                            reversed_labels(#[trigger] domains[i]).0,
                        ) && p.len() < reversed_labels(domains[i]).0.len())
                };
            is_merged(domains, path) <==> path.len() >= 2 && exists|a: Seq<char>, b: Seq<char>|
                #![trigger path.push(a), path.push(b)]
                a != b && leaf(path.push(a)) && leaf(path.push(b))
        }),
{
    assert forall|p: Seq<Seq<char>>| #[trigger] is_scope_leaf(domains, p) <==> (is_merged(
        domains,
        p,
    ) || {
        &&& exists|i: int|
            0 <= i < domains.len() && reversed_labels(#[trigger] domains[i]) == (p, true)
        &&& forall|i: int|
            0 <= i < domains.len() ==> !(p.is_prefix_of(reversed_labels(#[trigger] domains[i]).0)
                && p.len() < reversed_labels(domains[i]).0.len())
    }) by {
        lemma_nothing_below(domains, p);
    }
    if path.len() >= 2 && exists|a: Seq<char>, b: Seq<char>|
        #![trigger path.push(a), path.push(b)]
        a != b && is_scope_leaf(domains, path.push(a)) && is_scope_leaf(domains, path.push(b)) {
        let (a, b) = choose|a: Seq<char>, b: Seq<char>|
            #![trigger path.push(a), path.push(b)]
            a != b && is_scope_leaf(domains, path.push(a)) && is_scope_leaf(domains, path.push(b));
        lemma_leaf_is_node(domains, path.push(a));
        lemma_node_depth(domains, path.push(a));
    }
    if is_merged(domains, path) {
        let (a, b) = choose|a: Seq<char>, b: Seq<char>|
            #![trigger path.push(a), path.push(b)]
            a != b && is_scope_leaf(domains, path.push(a)) && is_scope_leaf(domains, path.push(b));
        assert(is_scope_leaf(domains, path.push(a)) && is_scope_leaf(domains, path.push(b)));
    }
}

proof fn lemma_nothing_below(domains: Seq<Seq<char>>, p: Seq<Seq<char>>)
    ensures
        (forall|a: Seq<char>| !is_node(domains, #[trigger] p.push(a))) <==> forall|i: int|
            0 <= i < domains.len() ==> !(p.is_prefix_of(reversed_labels(#[trigger] domains[i]).0)
                && p.len() < reversed_labels(domains[i]).0.len()),
{
    if forall|a: Seq<char>| !is_node(domains, #[trigger] p.push(a)) {
        assert forall|i: int| 0 <= i < domains.len() implies !(p.is_prefix_of(
            reversed_labels(#[trigger] domains[i]).0,
        ) && p.len() < reversed_labels(domains[i]).0.len()) by {
            let labels = reversed_labels(domains[i]).0;
            if p.is_prefix_of(labels) && p.len() < labels.len() {
                let longer = p.push(labels[p.len() as int]);
                assert forall|j: int| 0 <= j < p.len() implies p[j] == labels[j] by {
                    assert(p[j] == labels.subrange(0, p.len() as int)[j]);
                }
                assert(longer =~= labels.subrange(0, longer.len() as int));
                assert(is_node(domains, longer));
            }
        }
    }
    if forall|i: int|
        0 <= i < domains.len() ==> !(p.is_prefix_of(reversed_labels(#[trigger] domains[i]).0)
            && p.len() < reversed_labels(domains[i]).0.len()) {
        assert forall|a: Seq<char>| !is_node(domains, #[trigger] p.push(a)) by {
            if is_node(domains, p.push(a)) {
                let i = choose|i: int|
                    0 <= i < domains.len() && p.push(a).is_prefix_of(
                        reversed_labels(#[trigger] domains[i]).0,
                    );
                lemma_shorter_prefix(p, a, reversed_labels(domains[i]).0);
            }
        }
    }
}

/// The trusted scopes are the names of the merged nodes that have no merged node above them.
pub proof fn law_trusted_scopes(domains: Seq<Seq<char>>, scope: Seq<char>)
    ensures
        trusted_scopes(domains).contains(scope) <==> exists|path: Seq<Seq<char>>|
            {
                &&& #[trigger] is_merged(domains, path)
                &&& forall|k: int|
                    0 <= k < path.len() ==> !is_merged(domains, #[trigger] path.take(k))
                &&& scope == domain_name(path)
            },
{
    if exists|path: Seq<Seq<char>>|
        {
            &&& #[trigger] is_merged(domains, path)
            &&& forall|k: int| 0 <= k < path.len() ==> !is_merged(domains, #[trigger] path.take(k))
            &&& scope == domain_name(path)
        } {
        let path = choose|path: Seq<Seq<char>>|
            {
                &&& #[trigger] is_merged(domains, path)
                &&& forall|k: int|
                    0 <= k < path.len() ==> !is_merged(domains, #[trigger] path.take(k))
                &&& scope == domain_name(path)
            };
        assert(is_outermost(domains, path));
    }
    if trusted_scopes(domains).contains(scope) {
        let path = choose|path: Seq<Seq<char>>| #[trigger]
            is_outermost(domains, path) && scope == domain_name(path);
        assert(is_merged(domains, path));
    }
}

/// Two listed names that differ in one label, directly below a common name of at least two labels,
/// and below which nothing is listed, make that common name trusted, and every name below it.
pub proof fn law_sibling_names_make_a_trusted_scope(
    domains: Seq<Seq<char>>,
    scope: Seq<char>,
    a: Seq<char>,
    b: Seq<char>,
    below: Seq<char>,
)
    requires
        reversed_labels(scope).1,
        scope.contains('.'),
        a != b,
        a.len() > 0 && !a.contains('.'),
        b.len() > 0 && !b.contains('.'),
        domains.contains(a + seq!['.'] + scope),
        domains.contains(b + seq!['.'] + scope),
        forall|i: int|
            0 <= i < domains.len() && is_within(#[trigger] domains[i], a + seq!['.'] + scope)
                ==> domains[i] == a + seq!['.'] + scope,
        forall|i: int|
            0 <= i < domains.len() && is_within(#[trigger] domains[i], b + seq!['.'] + scope)
                ==> domains[i] == b + seq!['.'] + scope,
    ensures
        is_trusted(trusted_scopes(domains), scope),
        is_trusted(trusted_scopes(domains), below + seq!['.'] + scope),
{
    let path = reversed_labels(scope).0;
    lemma_two_labels(scope);
    lemma_listed_leaf(domains, scope, a);
    lemma_listed_leaf(domains, scope, b);
    law_merging(domains, path);
    assert(is_scope_leaf(domains, path.push(a)) && is_scope_leaf(domains, path.push(b)));
    lemma_leaf_is_node(domains, path.push(a));
    lemma_node_depth(domains, path.push(a));
    assert(is_merged(domains, path));
    lemma_merged_is_trusted(domains, path);
    lemma_labels_spell(scope);
    let trusted = trusted_scopes(domains);
    let t = choose|t: Seq<char>| #[trigger] trusted.contains(t) && is_within(scope, t);
    let name = below + seq!['.'] + scope;
    let cut = name.len() - t.len();
    if scope == t {
        assert(name.skip(cut) == t);
        assert(name[cut - 1] == '.');
    } else {
        let inner = scope.len() - t.len();
        assert(name[cut - 1] == scope[inner - 1]);
        assert(name.skip(cut) =~= scope.skip(inner));
    }
    assert(is_within(name, t));
}

proof fn lemma_two_labels(scope: Seq<char>)
    requires
        reversed_labels(scope).1,
        scope.contains('.'),
    ensures
        reversed_labels(scope).0.len() >= 2,
{
    lemma_last_index(scope, '.');
    let i = choose|i: int| 0 <= i < scope.len() && scope[i] == '.';
    if let Some((rest, label)) = split_last(scope, '.') {
        lemma_labels_spell(rest);
    }
}

/// A listed name below which nothing is listed is a leaf.
proof fn lemma_listed_leaf(domains: Seq<Seq<char>>, scope: Seq<char>, a: Seq<char>)
    requires
        reversed_labels(scope).1,
        a.len() > 0 && !a.contains('.'),
        domains.contains(a + seq!['.'] + scope),
        forall|i: int|
            0 <= i < domains.len() && is_within(#[trigger] domains[i], a + seq!['.'] + scope)
                ==> domains[i] == a + seq!['.'] + scope,
    ensures
        is_scope_leaf(domains, reversed_labels(scope).0.push(a)),
{
    let name = a + seq!['.'] + scope;
    let p = reversed_labels(scope).0.push(a);
    lemma_one_label(a);
    lemma_labels_join(a, scope);
    assert(reversed_labels(scope).0 + seq![a] =~= p);
    assert(reversed_labels(name) == (p, true));
    let i = choose|i: int| 0 <= i < domains.len() && domains[i] == name;
    assert(reversed_labels(domains[i]) == (p, true));
    assert(is_listed(domains, p));
    lemma_labels_spell(name);
    assert forall|j: int| 0 <= j < domains.len() implies !(p.is_prefix_of(
        reversed_labels(#[trigger] domains[j]).0,
    ) && p.len() < reversed_labels(domains[j]).0.len()) by {
        let labels = reversed_labels(domains[j]).0;
        if p.is_prefix_of(labels) && p.len() < labels.len() {
            lemma_labels_end_domain(domains[j], p.len() as int);
            assert(labels.take(p.len() as int) =~= p);
            assert(is_within(domains[j], name));
        }
    }
    lemma_nothing_below(domains, p);
}

/// The name of a merged node is trusted.
proof fn lemma_merged_is_trusted(domains: Seq<Seq<char>>, path: Seq<Seq<char>>)
    requires
        is_merged(domains, path),
    ensures
        is_trusted(trusted_scopes(domains), domain_name(path)),
    decreases path.len(),
{
    if exists|k: int| 0 <= k < path.len() && is_merged(domains, #[trigger] path.take(k)) {
        let k = choose|k: int| 0 <= k < path.len() && is_merged(domains, #[trigger] path.take(k));
        let up = path.take(k);
        lemma_merged_is_trusted(domains, up);
        let t = choose|t: Seq<char>| #[trigger]
            trusted_scopes(domains).contains(t) && is_within(domain_name(up), t);
        lemma_name_within(path, k);
        lemma_within_within(domain_name(path), domain_name(up), t);
    } else {
        assert(is_outermost(domains, path));
        assert(trusted_scopes(domains).contains(domain_name(path)));
        assert(is_within(domain_name(path), domain_name(path)));
    }
}

proof fn lemma_within_within(x: Seq<char>, y: Seq<char>, z: Seq<char>)
    requires
        is_within(x, y),
        is_within(y, z),
    ensures
        is_within(x, z),
{
    if x != y && y != z {
        let cut = x.len() - z.len();
        let inner = y.len() - z.len();
        assert(x.skip(x.len() - y.len()) == y);
        assert(x[cut - 1] == y[inner - 1]);
        assert(x.skip(cut) =~= y.skip(inner));
    }
}

} // verus!
