use crate::rules::{rules_view, Rule, RuleView};
use vstd::prelude::*;

verus! {

/// A configuration document as it was parsed: the import references it names
/// and its own rules, both optional.
#[derive(Debug)]
pub struct FileConfig {
    pub imports: Option<Vec<String>>,
    pub rules: Option<Vec<Rule>>,
}

/// A configuration document placed in a graph of documents.
///
/// Each document of a graph has one index, given to its canonical identity, and
/// `imports` holds the indices of the documents it imports, in the order named.
#[derive(Debug)]
pub struct ConfigNode {
    pub imports: Vec<usize>,
    pub rules: Vec<Rule>,
}

impl FileConfig {
    /// Places this document in a graph, its imports already resolved to indices.
    pub fn into_node(self, imports: Vec<usize>) -> (r: ConfigNode)
        ensures
            r.imports@ == imports@,
            rules_view(r.rules@) == match self.rules {
                Some(v) => rules_view(v@),
                None => Seq::<RuleView>::empty(),
            },
    {
        let rules = match self.rules {
            Some(v) => v,
            None => Vec::new(),
        };
        ConfigNode { imports, rules }
    }
}

/// Number of indices below `n` that `seen` does not hold.
pub open spec fn unseen_count(n: nat, seen: Set<int>) -> nat
    decreases n,
{
    if n == 0 {
        0
    } else {
        unseen_count((n - 1) as nat, seen) + if seen.contains(n - 1) {
            0nat
        } else {
            1nat
        }
    }
}

/// Depth-first visit of document `d`, given the documents already visited.
///
/// Returns the visited set afterwards and the documents whose own rules are
/// contributed, in order: those reached through the imports first, then `d`.
/// A document out of the graph, or already visited, contributes nothing.
pub open spec fn visit(g: Seq<ConfigNode>, seen: Set<int>, d: int) -> (Set<int>, Seq<int>)
    decreases unseen_count(g.len(), seen), 0nat, 0int,
    via visit_decreases
{
    if 0 <= d < g.len() && !seen.contains(d) {
        let r = visit_all(g, seen.insert(d), g[d].imports@, 0);
        (r.0, r.1.push(d))
    } else {
        (seen, Seq::empty())
    }
}

/// Visits, in order, the documents `xs[i..]`, each after those before it.
pub open spec fn visit_all(g: Seq<ConfigNode>, seen: Set<int>, xs: Seq<usize>, i: int) -> (
    Set<int>,
    Seq<int>,
)
    decreases unseen_count(g.len(), seen), 1nat, xs.len() - i,
    via visit_all_decreases
{
    if 0 <= i < xs.len() {
        let a = visit(g, seen, xs[i] as int);
        let b = visit_all(g, seen.union(a.0), xs, i + 1);
        (b.0, a.1 + b.1)
    } else {
        (seen, Seq::empty())
    }
}

#[via_fn]
proof fn visit_decreases(g: Seq<ConfigNode>, seen: Set<int>, d: int) {
    if 0 <= d < g.len() && !seen.contains(d) {
        lemma_unseen_strict(g.len(), seen, seen.insert(d), d);
    }
}

#[via_fn]
proof fn visit_all_decreases(g: Seq<ConfigNode>, seen: Set<int>, xs: Seq<usize>, i: int) {
    assert forall|a: Set<int>|
        #[trigger] unseen_count(g.len(), seen.union(a)) <= unseen_count(g.len(), seen) by {
        lemma_unseen_mono(g.len(), seen, seen.union(a));
    }
}

/// The own rules of the documents `order`, concatenated in that order.
pub open spec fn rules_in_order(g: Seq<ConfigNode>, order: Seq<int>) -> Seq<RuleView>
    decreases order.len(),
{
    if order.len() == 0 {
        Seq::empty()
    } else {
        rules_in_order(g, order.drop_last()) + rules_view(g[order.last()].rules@)
    }
}

/// The resolved rule list of document `root`: the own rules of every document
/// reached from it, each document once, imports before own rules.
pub open spec fn resolved(g: Seq<ConfigNode>, root: int) -> Seq<RuleView> {
    rules_in_order(g, visit(g, Set::empty(), root).1)
}

/// The indices that a visited-flag vector marks.
pub open spec fn seen_set(v: Seq<bool>) -> Set<int> {
    Set::new(|i: int| 0 <= i < v.len() && v[i])
}

proof fn lemma_unseen_mono(n: nat, a: Set<int>, b: Set<int>)
    requires
        a.subset_of(b),
    ensures
        unseen_count(n, b) <= unseen_count(n, a),
    decreases n,
{
    if n > 0 {
        lemma_unseen_mono((n - 1) as nat, a, b);
    }
}

proof fn lemma_unseen_strict(n: nat, a: Set<int>, b: Set<int>, d: int)
    requires
        a.subset_of(b),
        b.contains(d),
        !a.contains(d),
        0 <= d < n,
    ensures
        unseen_count(n, b) < unseen_count(n, a),
    decreases n,
{
    if d == n - 1 {
        lemma_unseen_mono((n - 1) as nat, a, b);
    } else {
        lemma_unseen_strict((n - 1) as nat, a, b, d);
    }
}

proof fn lemma_rules_in_order_append(g: Seq<ConfigNode>, a: Seq<int>, b: Seq<int>)
    ensures
        rules_in_order(g, a + b) == rules_in_order(g, a) + rules_in_order(g, b),
    decreases b.len(),
{
    if b.len() == 0 {
        assert(a + b =~= a);
        assert(rules_in_order(g, a) + rules_in_order(g, b) =~= rules_in_order(g, a));
    } else {
        lemma_rules_in_order_append(g, a, b.drop_last());
        assert((a + b).drop_last() =~= a + b.drop_last());
        assert(rules_in_order(g, a) + rules_in_order(g, b) =~= rules_in_order(g, a)
            + rules_in_order(g, b.drop_last()) + rules_view(g[b.last()].rules@));
    }
}

/// What a visit from `seen` to `after` contributed: documents of the graph, each
/// newly visited, none twice.
pub open spec fn fresh_order(n: nat, seen: Set<int>, after: Set<int>, order: Seq<int>) -> bool {
    &&& seen.subset_of(after)
    &&& order.no_duplicates()
    &&& forall|k: int|
        0 <= k < order.len() ==> {
            &&& 0 <= #[trigger] order[k] < n
            &&& after.contains(order[k])
            &&& !seen.contains(order[k])
        }
}

proof fn lemma_visit_fresh(g: Seq<ConfigNode>, seen: Set<int>, d: int)
    ensures
        fresh_order(g.len(), seen, visit(g, seen, d).0, visit(g, seen, d).1),
    decreases unseen_count(g.len(), seen), 0nat, 0int,
{
    if 0 <= d < g.len() && !seen.contains(d) {
        let s1 = seen.insert(d);
        lemma_unseen_strict(g.len(), seen, s1, d);
        lemma_visit_all_fresh(g, s1, g[d].imports@, 0);
        let r = visit_all(g, s1, g[d].imports@, 0);
        let o = r.1.push(d);
        assert forall|k: int| 0 <= k < o.len() implies {
            &&& 0 <= #[trigger] o[k] < g.len()
            &&& r.0.contains(o[k])
            &&& !seen.contains(o[k])
        } by {
            if k < r.1.len() {
                assert(o[k] == r.1[k]);
            }
        }
        assert forall|a: int, b: int| 0 <= a < o.len() && 0 <= b < o.len() && a != b implies o[a]
            != o[b] by {
            if a < r.1.len() && b < r.1.len() {
                assert(o[a] == r.1[a] && o[b] == r.1[b]);
            } else if a < r.1.len() {
                assert(o[a] == r.1[a]);
            } else {
                assert(o[b] == r.1[b]);
            }
        }
    }
}

proof fn lemma_visit_all_fresh(g: Seq<ConfigNode>, seen: Set<int>, xs: Seq<usize>, i: int)
    ensures
        fresh_order(g.len(), seen, visit_all(g, seen, xs, i).0, visit_all(g, seen, xs, i).1),
    decreases unseen_count(g.len(), seen), 1nat, xs.len() - i,
{
    if 0 <= i < xs.len() {
        let a = visit(g, seen, xs[i] as int);
        lemma_visit_fresh(g, seen, xs[i] as int);
        let s1 = seen.union(a.0);
        lemma_unseen_mono(g.len(), seen, s1);
        lemma_visit_all_fresh(g, s1, xs, i + 1);
        let b = visit_all(g, s1, xs, i + 1);
        let o = a.1 + b.1;
        assert forall|k: int| 0 <= k < o.len() implies {
            &&& 0 <= #[trigger] o[k] < g.len()
            &&& b.0.contains(o[k])
            &&& !seen.contains(o[k])
        } by {
            if k < a.1.len() {
                assert(o[k] == a.1[k]);
            } else {
                assert(o[k] == b.1[k - a.1.len()]);
            }
        }
        assert forall|p: int, q: int| 0 <= p < o.len() && 0 <= q < o.len() && p != q implies o[p]
            != o[q] by {
            if p < a.1.len() {
                assert(o[p] == a.1[p]);
            } else {
                assert(o[p] == b.1[p - a.1.len()]);
            }
            if q < a.1.len() {
                assert(o[q] == a.1[q]);
            } else {
                assert(o[q] == b.1[q - a.1.len()]);
            }
        }
    }
}

/// Resolution contributes the own rules of each document at most once, whatever
/// cycles or repeated imports the graph holds: the resolved list is the own
/// rules of a list of distinct documents of the graph, the root among them.
pub proof fn lemma_each_document_once(g: Seq<ConfigNode>, root: int)
    ensures
        ({
            let order = visit(g, Set::empty(), root).1;
            &&& order.no_duplicates()
            &&& forall|k: int| 0 <= k < order.len() ==> 0 <= #[trigger] order[k] < g.len()
            &&& 0 <= root < g.len() ==> order.contains(root)
            &&& resolved(g, root) == rules_in_order(g, order)
        }),
{
    lemma_visit_fresh(g, Set::empty(), root);
    let order = visit(g, Set::empty(), root).1;
    if 0 <= root < g.len() {
        assert(order.last() == root);
        assert(order.contains(root));
    }
}

/// A document visited for the first time contributes, in this order, what its
/// imports contribute (each visited depth-first in the order named, after the
/// ones before it) and then its own rules.
pub proof fn lemma_imports_before_own(g: Seq<ConfigNode>, seen: Set<int>, d: int)
    requires
        0 <= d < g.len(),
        !seen.contains(d),
    ensures
        rules_in_order(g, visit(g, seen, d).1) == rules_in_order(
            g,
            visit_all(g, seen.insert(d), g[d].imports@, 0).1,
        ) + rules_view(g[d].rules@),
{
    let o = visit_all(g, seen.insert(d), g[d].imports@, 0).1;
    assert(o.push(d).drop_last() =~= o);
}

/// In a cycle of two documents, each importing the other, resolution from the
/// first gives the rules of the second and then its own, once each.
pub proof fn lemma_two_cycle(g: Seq<ConfigNode>)
    requires
        g.len() == 2,
        g[0].imports@ == seq![1usize],
        g[1].imports@ == seq![0usize],
    ensures
        resolved(g, 0) == rules_view(g[1].rules@) + rules_view(g[0].rules@),
{
    let s0 = Set::<int>::empty().insert(0);
    let s1 = s0.insert(1);
    assert(s0.union(s1) =~= s1);
    let a = visit(g, s1, 0);
    assert(a.1 =~= Seq::<int>::empty());
    let b = visit_all(g, s1.union(a.0), g[1].imports@, 1);
    assert(b.1 =~= Seq::<int>::empty());
    let inner = visit_all(g, s1, g[1].imports@, 0);
    assert(inner.1 =~= Seq::<int>::empty());
    let v1 = visit(g, s0, 1);
    assert(v1.1 =~= seq![1int]);
    let c = visit_all(g, s0.union(v1.0), g[0].imports@, 1);
    assert(c.1 =~= Seq::<int>::empty());
    let outer = visit_all(g, s0, g[0].imports@, 0);
    assert(outer.1 =~= seq![1int]);
    assert(visit(g, Set::empty(), 0).1 =~= seq![1int, 0int]);
    assert(seq![1int, 0int].drop_last() =~= seq![1int]);
    assert(seq![1int].drop_last() =~= Seq::<int>::empty());
    assert(rules_in_order(g, Seq::<int>::empty()) == Seq::<RuleView>::empty());
    assert(rules_in_order(g, seq![1int]) =~= rules_view(g[1].rules@));
    assert(rules_in_order(g, seq![1int, 0int]) == rules_in_order(g, seq![1int]) + rules_view(
        g[0].rules@,
    ));
}

/// Depth-first visit of `d`: marks it, visits its imports in order, then appends
/// its own rules.
fn visit_doc(
    g: &Vec<ConfigNode>,
    d: usize,
    seen: &mut Vec<bool>,
    out: &mut Vec<Rule>,
)
    requires
        old(seen)@.len() == g@.len(),
    ensures
        final(seen)@.len() == g@.len(),
        seen_set(final(seen)@) == visit(g@, seen_set(old(seen)@), d as int).0,
        rules_view(final(out)@) == rules_view(old(out)@) + rules_in_order(
            g@,
            visit(g@, seen_set(old(seen)@), d as int).1,
        ),
    decreases unseen_count(g@.len(), seen_set(old(seen)@)),
{
    let ghost s0 = seen_set(seen@);
    let ghost out0 = out@;
    if d >= g.len() || seen[d] {
        assert(rules_view(out@) + rules_in_order(g@, Seq::empty()) =~= rules_view(out@));
        return;
    }
    seen.set(d, true);
    assert(seen_set(seen@) =~= s0.insert(d as int));
    proof {
        lemma_unseen_strict(g@.len(), s0, seen_set(seen@), d as int);
    }
    let node = &g[d];
    let ghost mut done: Seq<int> = Seq::empty();
    assert(rules_view(out0) + rules_in_order(g@, done) =~= rules_view(out0));
    assert(done + visit_all(g@, seen_set(seen@), node.imports@, 0).1 =~= visit_all(
        g@,
        seen_set(seen@),
        node.imports@,
        0,
    ).1);
    let mut i: usize = 0;
    while i < node.imports.len()
        invariant
            seen@.len() == g@.len(),
            0 <= i <= node.imports@.len(),
            0 <= d < g@.len(),
            *node == g@[d as int],
            !s0.contains(d as int),
            s0.insert(d as int).subset_of(seen_set(seen@)),
            visit_all(g@, s0.insert(d as int), node.imports@, 0) == (
                visit_all(g@, seen_set(seen@), node.imports@, i as int).0,
                done + visit_all(g@, seen_set(seen@), node.imports@, i as int).1,
            ),
            rules_view(out@) == rules_view(out0) + rules_in_order(g@, done),
            unseen_count(g@.len(), seen_set(seen@)) < unseen_count(g@.len(), s0),
            seen_set(old(seen)@) == s0,
        decreases node.imports@.len() - i,
    {
        let x = node.imports[i];
        let ghost cur = seen_set(seen@);
        let ghost out1 = out@;
        proof {
            lemma_visit_fresh(g@, cur, x as int);
        }
        visit_doc(g, x, seen, out);
        proof {
            let a = visit(g@, cur, x as int);
            let rest = visit_all(g@, a.0, node.imports@, i + 1);
            assert(cur.union(a.0) =~= a.0);
            lemma_unseen_mono(g@.len(), cur, a.0);
            lemma_rules_in_order_append(g@, done, a.1);
            assert(done + (a.1 + rest.1) =~= (done + a.1) + rest.1);
            assert(rules_view(out@) =~= rules_view(out0) + rules_in_order(g@, done + a.1));
            done = done + a.1;
        }
        i = i + 1;
    }
    let ghost mid = out@;
    assert(done + visit_all(g@, seen_set(seen@), node.imports@, i as int).1 =~= done);
    let mut j: usize = 0;
    while j < node.rules.len()
        invariant
            0 <= j <= node.rules@.len(),
            rules_view(out@) == rules_view(mid) + rules_view(node.rules@.subrange(0, j as int)),
        decreases node.rules@.len() - j,
    {
        let r = node.rules[j].clone();
        let ghost before = out@;
        out.push(r);
        assert(rules_view(out@) =~= rules_view(before).push(r@));
        assert(rules_view(node.rules@.subrange(0, j + 1)) =~= rules_view(
            node.rules@.subrange(0, j as int),
        ).push(node.rules@[j as int]@));
        j = j + 1;
    }
    proof {
        assert(node.rules@.subrange(0, j as int) =~= node.rules@);
        assert(done.push(d as int).drop_last() =~= done);
        assert(rules_view(out@) =~= rules_view(out0) + rules_in_order(g@, done.push(d as int)));
    }
}

/// Resolves the configuration rooted at document `root` of the graph into its
/// ordered rule list: depth-first, the rules reached through a document's
/// imports before its own, and each document, cycles included, visited once.
pub fn load_rules_from_file(graph: &Vec<ConfigNode>, root: usize) -> (r: Vec<Rule>)
    ensures
        rules_view(r@) == resolved(graph@, root as int),
{
    let mut seen: Vec<bool> = Vec::new();
    let mut k: usize = 0;
    while k < graph.len()
        invariant
            seen@.len() == k,
            k <= graph@.len(),
            forall|t: int| 0 <= t < k ==> !seen@[t],
        decreases graph@.len() - k,
    {
        seen.push(false);
        k = k + 1;
    }
    assert(seen_set(seen@) =~= Set::<int>::empty());
    let mut out: Vec<Rule> = Vec::new();
    visit_doc(graph, root, &mut seen, &mut out);
    assert(rules_view(out@) =~= resolved(graph@, root as int));
    out
}

} // verus!
