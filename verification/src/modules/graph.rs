//! The declaration groups of the module graph: its strongly connected
//! components among the modules reachable from the project's modules,
//! each group in ID order and the groups in the order of their first IDs.

use vstd::prelude::*;
use vstd::set_lib::{lemma_int_range, lemma_len_subset, set_int_range};
use super::{
    lemma_text_lt_transitive, lemma_text_order, same_text, text_less, text_lt, DependencyEdge, DependencyKind, ModuleGraph,
    ModuleId,
};
use crate::text::chars_of;

verus! {

broadcast use vstd::std_specs::vec::group_vec_axioms;

/// The IDs, as plain text.
pub open spec fn ids(ms: Seq<ModuleId>) -> Seq<Seq<char>> {
    ms.map_values(|m: ModuleId| m@)
}

/// Each edge as the pair of IDs it leads from and to.
pub open spec fn edge_ends(edges: Seq<DependencyEdge>) -> Seq<(Seq<char>, Seq<char>)> {
    edges.map_values(|e: DependencyEdge| (e.from@, e.to@))
}

/// Some edge leads from `a` to `b`.
pub open spec fn step(es: Seq<(Seq<char>, Seq<char>)>, a: Seq<char>, b: Seq<char>) -> bool {
    exists|k: int| 0 <= k < es.len() && #[trigger] es[k] == (a, b)
}

/// Positions `i` and `i + 1` of `p` are joined by an edge.
pub open spec fn linked(es: Seq<(Seq<char>, Seq<char>)>, p: Seq<Seq<char>>, i: int) -> bool {
    step(es, p[i], p[i + 1])
}

/// A nonempty sequence of IDs, each joined to the next by an edge.
pub open spec fn is_walk(es: Seq<(Seq<char>, Seq<char>)>, p: Seq<Seq<char>>) -> bool {
    p.len() > 0 && forall|i: int| 0 <= i < p.len() - 1 ==> #[trigger] linked(es, p, i)
}

/// A walk leads from `a` to `b` (every ID reaches itself).
pub open spec fn reaches(es: Seq<(Seq<char>, Seq<char>)>, a: Seq<char>, b: Seq<char>) -> bool {
    exists|p: Seq<Seq<char>>| #[trigger] is_walk(es, p) && p[0] == a && p.last() == b
}

/// `a` and `b` reach each other.
pub open spec fn mutual(es: Seq<(Seq<char>, Seq<char>)>, a: Seq<char>, b: Seq<char>) -> bool {
    reaches(es, a, b) && reaches(es, b, a)
}

/// Some module reaches `x`.
pub open spec fn in_scope(ms: Seq<Seq<char>>, es: Seq<(Seq<char>, Seq<char>)>, x: Seq<char>) -> bool {
    exists|i: int| 0 <= i < ms.len() && reaches(es, #[trigger] ms[i], x)
}

/// Each ID before the next in text order.
pub open spec fn strictly_sorted(ns: Seq<Seq<char>>) -> bool {
    forall|i: int, j: int| 0 <= i < j < ns.len() ==> text_lt(#[trigger] ns[i], #[trigger] ns[j])
}

/// The groups as plain text.
pub open spec fn groups_view(groups: Seq<Vec<ModuleId>>) -> Seq<Seq<Seq<char>>> {
    groups.map_values(|g: Vec<ModuleId>| ids(g@))
}

/// The groups are the strongly connected components of the IDs in scope:
/// every such ID stands in exactly one group, two IDs share a group if
/// and only if they reach each other, each group is in text order and the
/// groups are in the order of their first IDs.
pub open spec fn declaration_groups_of(
    groups: Seq<Seq<Seq<char>>>,
    ms: Seq<Seq<char>>,
    es: Seq<(Seq<char>, Seq<char>)>,
) -> bool {
    &&& forall|g: int| 0 <= g < groups.len() ==> #[trigger] groups[g].len() > 0
    &&& forall|g: int| 0 <= g < groups.len() ==> strictly_sorted(#[trigger] groups[g])
    &&& forall|g: int, h: int| 0 <= g < h < groups.len() ==> text_lt(#[trigger] groups[g][0], #[trigger] groups[h][0])
    &&& forall|g: int, a: int|
        0 <= g < groups.len() && 0 <= a < groups[g].len() ==> in_scope(ms, es, #[trigger] groups[g][a])
    &&& forall|x: Seq<char>|
        #[trigger] in_scope(ms, es, x) ==> exists|g: int, a: int|
            0 <= g < groups.len() && 0 <= a < groups[g].len() && #[trigger] groups[g][a] == x
    &&& forall|g: int, h: int, a: int, b: int|
        0 <= g < groups.len() && 0 <= h < groups.len() && 0 <= a < groups[g].len() && 0 <= b < groups[h].len()
            ==> (mutual(es, #[trigger] groups[g][a], #[trigger] groups[h][b]) <==> g == h)
}

pub proof fn lemma_reaches_itself(es: Seq<(Seq<char>, Seq<char>)>, a: Seq<char>)
    ensures
        reaches(es, a, a),
{
    let p = seq![a];
    assert(is_walk(es, p));
}

pub proof fn lemma_reaches_step(es: Seq<(Seq<char>, Seq<char>)>, a: Seq<char>, b: Seq<char>, c: Seq<char>)
    requires
        reaches(es, a, b),
        step(es, b, c),
    ensures
        reaches(es, a, c),
{
    let p = choose|p: Seq<Seq<char>>| #[trigger] is_walk(es, p) && p[0] == a && p.last() == b;
    let q = p.push(c);
    assert forall|i: int| 0 <= i < q.len() - 1 implies #[trigger] linked(es, q, i) by {
        if i < p.len() - 1 {
            assert(linked(es, p, i));
        }
    }
    assert(is_walk(es, q));
}

/// Reaching is transitive.
pub proof fn lemma_reaches_trans(es: Seq<(Seq<char>, Seq<char>)>, a: Seq<char>, b: Seq<char>, c: Seq<char>)
    requires
        reaches(es, a, b),
        reaches(es, b, c),
    ensures
        reaches(es, a, c),
{
    let p = choose|p: Seq<Seq<char>>| #[trigger] is_walk(es, p) && p[0] == a && p.last() == b;
    let q = choose|q: Seq<Seq<char>>| #[trigger] is_walk(es, q) && q[0] == b && q.last() == c;
    let r = p + q.subrange(1, q.len() as int);
    assert forall|i: int| 0 <= i < r.len() - 1 implies #[trigger] linked(es, r, i) by {
        if i < p.len() - 1 {
            assert(linked(es, p, i));
        } else {
            let k = i - p.len() + 1;
            assert(linked(es, q, k));
            assert(r[i] == q[k]);
            assert(r[i + 1] == q[k + 1]);
        }
    }
    assert(is_walk(es, r));
    if q.len() == 1 {
        assert(r.last() == p.last());
    } else {
        assert(r.last() == q.last());
    }
}

/// Reaching each other is transitive.
pub proof fn lemma_mutual_trans(es: Seq<(Seq<char>, Seq<char>)>, a: Seq<char>, b: Seq<char>, c: Seq<char>)
    requires
        mutual(es, a, b),
        mutual(es, b, c),
    ensures
        mutual(es, a, c),
{
    lemma_reaches_trans(es, a, b, c);
    lemma_reaches_trans(es, c, b, a);
}

/// What a sorted list of IDs holds, once each.
proof fn lemma_sorted_distinct(ns: Seq<Seq<char>>, i: int, j: int)
    requires
        strictly_sorted(ns),
        0 <= i < ns.len(),
        0 <= j < ns.len(),
        ns[i] == ns[j],
    ensures
        i == j,
{
    if i < j {
        assert(text_lt(ns[i], ns[j]));
        lemma_text_order(ns[i], ns[j]);
    } else if j < i {
        assert(text_lt(ns[j], ns[i]));
        lemma_text_order(ns[j], ns[i]);
    }
}

/// Distinct numbers below `n` are at most `n`.
proof fn lemma_distinct_below(s: Seq<usize>, n: nat)
    requires
        s.no_duplicates(),
        forall|i: int| 0 <= i < s.len() ==> (#[trigger] s[i] as int) < n,
    ensures
        s.len() <= n,
{
    let t = s.map_values(|x: usize| x as int);
    assert(t.no_duplicates()) by {
        assert forall|i: int, j: int| 0 <= i < t.len() && 0 <= j < t.len() && i != j implies t[i] != t[j] by {
            assert(s[i] != s[j]);
        }
    }
    t.unique_seq_to_set();
    lemma_int_range(0, n as int);
    assert(t.to_set().subset_of(set_int_range(0, n as int))) by {
        assert forall|x: int| t.to_set().contains(x) implies set_int_range(0, n as int).contains(x) by {
            let i = choose|i: int| 0 <= i < t.len() && t[i] == x;
            assert(s[i] < n);
        }
    }
    lemma_len_subset(t.to_set(), set_int_range(0, n as int));
}

/// The first position whose ID is not before `id`.
fn name_slot(names: &Vec<ModuleId>, id: &ModuleId) -> (k: usize)
    ensures
        k <= names@.len(),
        forall|i: int| 0 <= i < k ==> text_lt(#[trigger] ids(names@)[i], id@),
        k < names@.len() ==> !text_lt(ids(names@)[k as int], id@),
{
    let key = chars_of(id.as_str());
    let mut i: usize = 0;
    while i < names.len()
        invariant
            i <= names@.len(),
            key@ == id@,
            forall|j: int| 0 <= j < i ==> text_lt(#[trigger] ids(names@)[j], id@),
        decreases names.len() - i,
    {
        let other = chars_of(names[i].as_str());
        if !text_less(other.as_slice(), key.as_slice()) {
            return i;
        }
        i = i + 1;
    }
    i
}

/// Adds an ID to a sorted list of IDs that may already hold it.
fn insert_name(names: &mut Vec<ModuleId>, id: &ModuleId)
    requires
        strictly_sorted(ids(old(names)@)),
    ensures
        strictly_sorted(ids(final(names)@)),
        forall|x: Seq<char>| #[trigger] ids(final(names)@).contains(x) <==> (ids(old(names)@).contains(x) || x == id@),
{
    let ghost ns = ids(names@);
    let k = name_slot(names, id);
    if k < names.len() && same_text(names[k].as_str(), id.as_str()) {
        assert(ns[k as int] == id@);
        return;
    }
    proof {
        if k < ns.len() {
            lemma_text_order(ns[k as int], id@);
        }
    }
    names.insert(k, id.clone());
    let ghost out = ids(names@);
    assert(out =~= ns.insert(k as int, id@));
    assert forall|i: int, j: int| 0 <= i < j < out.len() implies text_lt(#[trigger] out[i], #[trigger] out[j]) by {
        if j < k {
            assert(text_lt(ns[i], ns[j]));
        } else if j == k {
        } else if i < k {
            if j - 1 == k {
                lemma_text_lt_transitive(ns[i], id@, ns[k as int], 0);
            } else {
                assert(text_lt(ns[i], ns[j - 1]));
            }
        } else if i == k {
            if j - 1 > k {
                assert(text_lt(ns[k as int], ns[j - 1]));
                lemma_text_lt_transitive(id@, ns[k as int], ns[j - 1], 0);
            }
        } else {
            assert(text_lt(ns[i - 1], ns[j - 1]));
        }
    }
    assert forall|x: Seq<char>| #[trigger] out.contains(x) <==> (ns.contains(x) || x == id@) by {
        if out.contains(x) {
            let j = choose|j: int| 0 <= j < out.len() && out[j] == x;
            if j < k {
                assert(ns[j] == x);
            } else if j > k {
                assert(ns[j - 1] == x);
            }
        }
        if ns.contains(x) {
            let j = choose|j: int| 0 <= j < ns.len() && ns[j] == x;
            if j < k {
                assert(out[j] == x);
            } else {
                assert(out[j + 1] == x);
            }
        }
        if x == id@ {
            assert(out[k as int] == x);
        }
    }
}

/// Edge `k` leads from or to `x`.
pub open spec fn touches(es: Seq<(Seq<char>, Seq<char>)>, k: int, x: Seq<char>) -> bool {
    es[k].0 == x || es[k].1 == x
}

/// `x` is a module's ID or an end of an edge.
pub open spec fn named(ms: Seq<Seq<char>>, es: Seq<(Seq<char>, Seq<char>)>, x: Seq<char>) -> bool {
    ms.contains(x) || exists|k: int| 0 <= k < es.len() && #[trigger] touches(es, k, x)
}

/// Every ID that the graph names, each once, in text order.
fn node_names(modules: &[ModuleId], edges: &[DependencyEdge]) -> (names: Vec<ModuleId>)
    ensures
        strictly_sorted(ids(names@)),
        forall|x: Seq<char>| #[trigger] ids(names@).contains(x) <==> named(ids(modules@), edge_ends(edges@), x),
{
    let ghost ms = ids(modules@);
    let ghost es = edge_ends(edges@);
    let mut names: Vec<ModuleId> = Vec::new();
    let mut i: usize = 0;
    while i < modules.len()
        invariant
            i <= modules@.len(),
            ms == ids(modules@),
            strictly_sorted(ids(names@)),
            forall|x: Seq<char>| #[trigger] ids(names@).contains(x) <==> ms.subrange(0, i as int).contains(x),
        decreases modules.len() - i,
    {
        let ghost before = ids(names@);
        insert_name(&mut names, &modules[i]);
        proof {
            let a = ms.subrange(0, i as int);
            let b = ms.subrange(0, i as int + 1);
            assert(b =~= a.push(ms[i as int]));
            assert(ms[i as int] == modules@[i as int]@);
            assert forall|x: Seq<char>| #[trigger] ids(names@).contains(x) <==> b.contains(x) by {
                assert(before.contains(x) <==> a.contains(x));
                if x == ms[i as int] {
                    assert(b[i as int] == x);
                }
                if a.contains(x) {
                    let j = choose|j: int| 0 <= j < a.len() && a[j] == x;
                    assert(b[j] == x);
                }
                if b.contains(x) {
                    let j = choose|j: int| 0 <= j < b.len() && b[j] == x;
                    if j < i {
                        assert(a[j] == x);
                    }
                }
            }
        }
        i = i + 1;
    }
    assert(ms.subrange(0, ms.len() as int) =~= ms);
    let mut k: usize = 0;
    while k < edges.len()
        invariant
            k <= edges@.len(),
            ms == ids(modules@),
            es == edge_ends(edges@),
            strictly_sorted(ids(names@)),
            forall|x: Seq<char>| #[trigger] ids(names@).contains(x) <==> (ms.contains(x) || exists|j: int| 0 <= j < k && #[trigger] touches(es, j, x)),
        decreases edges.len() - k,
    {
        let ghost before = ids(names@);
        insert_name(&mut names, &edges[k].from);
        let ghost middle = ids(names@);
        insert_name(&mut names, &edges[k].to);
        proof {
            assert(es[k as int] == (edges@[k as int].from@, edges@[k as int].to@));
            assert forall|x: Seq<char>| #[trigger] ids(names@).contains(x) <==> (ms.contains(x) || exists|j: int| 0 <= j < k + 1 && #[trigger] touches(es, j, x)) by {
                assert(middle.contains(x) <==> (before.contains(x) || x == es[k as int].0));
                assert(before.contains(x) <==> (ms.contains(x) || exists|j: int| 0 <= j < k && #[trigger] touches(es, j, x)));
                assert(ids(names@).contains(x) <==> (middle.contains(x) || x == es[k as int].1));
                if x == es[k as int].0 || x == es[k as int].1 {
                    assert(touches(es, k as int, x));
                }
                if exists|j: int| 0 <= j < k + 1 && #[trigger] touches(es, j, x) {
                    let j = choose|j: int| 0 <= j < k + 1 && #[trigger] touches(es, j, x);
                    if j < k {
                        assert(exists|j: int| 0 <= j < k && #[trigger] touches(es, j, x));
                    }
                }
                if exists|j: int| 0 <= j < k && #[trigger] touches(es, j, x) {
                    let j = choose|j: int| 0 <= j < k && #[trigger] touches(es, j, x);
                    assert(0 <= j < k + 1);
                }
            }
        }
        k = k + 1;
    }
    names
}

/// The position of an ID that the list holds.
fn index_of(names: &Vec<ModuleId>, id: &ModuleId) -> (k: usize)
    requires
        ids(names@).contains(id@),
    ensures
        k < names@.len(),
        ids(names@)[k as int] == id@,
{
    let ghost ns = ids(names@);
    let mut i: usize = 0;
    while i < names.len()
        invariant
            i <= names@.len(),
            ns == ids(names@),
            ns.contains(id@),
            forall|j: int| 0 <= j < i ==> ns[j] != id@,
        decreases names.len() - i,
    {
        if same_text(names[i].as_str(), id.as_str()) {
            return i;
        }
        i = i + 1;
    }
    proof {
        let j = choose|j: int| 0 <= j < ns.len() && ns[j] == id@;
        assert(ns[j] != id@);
    }
    0
}

/// The edges as positions in `ns`: edge `k` leads from `ns[from[k]]` to
/// `ns[to[k]]`.
pub open spec fn wired(
    ns: Seq<Seq<char>>,
    es: Seq<(Seq<char>, Seq<char>)>,
    from: Seq<usize>,
    to: Seq<usize>,
) -> bool {
    &&& from.len() == es.len()
    &&& to.len() == es.len()
    &&& forall|k: int|
        0 <= k < es.len() ==> #[trigger] from[k] < ns.len() && to[k] < ns.len() && ns[from[k] as int] == es[k].0
            && ns[to[k] as int] == es[k].1
}

/// The position in `names` of each edge's ends.
fn edge_indices(names: &Vec<ModuleId>, edges: &[DependencyEdge]) -> (ends: (Vec<usize>, Vec<usize>))
    requires
        forall|k: int| 0 <= k < edges@.len() ==> #[trigger] named_ends(ids(names@), edge_ends(edges@), k),
    ensures
        wired(ids(names@), edge_ends(edges@), ends.0@, ends.1@),
{
    let ghost ns = ids(names@);
    let ghost es = edge_ends(edges@);
    let mut from: Vec<usize> = Vec::new();
    let mut to: Vec<usize> = Vec::new();
    let mut k: usize = 0;
    while k < edges.len()
        invariant
            k <= edges@.len(),
            ns == ids(names@),
            es == edge_ends(edges@),
            forall|j: int| 0 <= j < edges@.len() ==> #[trigger] named_ends(ns, es, j),
            from@.len() == k,
            to@.len() == k,
            forall|j: int|
                0 <= j < k ==> #[trigger] from@[j] < ns.len() && to@[j] < ns.len() && ns[from@[j] as int] == es[j].0
                    && ns[to@[j] as int] == es[j].1,
        decreases edges.len() - k,
    {
        assert(named_ends(ns, es, k as int));
        assert(es[k as int] == (edges@[k as int].from@, edges@[k as int].to@));
        let f = index_of(names, &edges[k].from);
        let t = index_of(names, &edges[k].to);
        from.push(f);
        to.push(t);
        k = k + 1;
    }
    assert(wired(ns, es, from@, to@));
    (from, to)
}

/// Both ends of edge `k` are among `ns`.
pub open spec fn named_ends(ns: Seq<Seq<char>>, es: Seq<(Seq<char>, Seq<char>)>, k: int) -> bool {
    ns.contains(es[k].0) && ns.contains(es[k].1)
}

/// Every node that `ns[s]` reaches is found among the flagged ones, when
/// the flags are closed under the edges.
proof fn lemma_closed_flags_cover(
    ns: Seq<Seq<char>>,
    es: Seq<(Seq<char>, Seq<char>)>,
    from: Seq<usize>,
    to: Seq<usize>,
    seen: Seq<bool>,
    s: int,
    p: Seq<Seq<char>>,
)
    requires
        wired(ns, es, from, to),
        strictly_sorted(ns),
        seen.len() == ns.len(),
        0 <= s < ns.len(),
        seen[s],
        forall|k: int| 0 <= k < es.len() && #[trigger] seen[from[k] as int] ==> seen[to[k] as int],
        is_walk(es, p),
        p[0] == ns[s],
    ensures
        exists|j: int| 0 <= j < ns.len() && seen[j] && #[trigger] ns[j] == p.last(),
    decreases p.len(),
{
    if p.len() == 1 {
        assert(ns[s] == p.last());
    } else {
        let q = p.drop_last();
        assert forall|i: int| 0 <= i < q.len() - 1 implies #[trigger] linked(es, q, i) by {
            assert(linked(es, p, i));
        }
        lemma_closed_flags_cover(ns, es, from, to, seen, s, q);
        let j = choose|j: int| 0 <= j < ns.len() && seen[j] && #[trigger] ns[j] == q.last();
        assert(linked(es, p, p.len() - 2));
        let k = choose|k: int| 0 <= k < es.len() && #[trigger] es[k] == (p[p.len() - 2], p[p.len() - 1]);
        assert(ns[from[k] as int] == ns[j]);
        lemma_sorted_distinct(ns, from[k] as int, j);
        assert(seen[to[k] as int]);
        assert(ns[to[k] as int] == p.last());
    }
}

/// The nodes that node `s` reaches, flagged by position: a breadth-first
/// search over the edges.
fn reach_from(
    n: usize,
    from: &Vec<usize>,
    to: &Vec<usize>,
    s: usize,
    Ghost(ns): Ghost<Seq<Seq<char>>>,
    Ghost(es): Ghost<Seq<(Seq<char>, Seq<char>)>>,
) -> (seen: Vec<bool>)
    requires
        n == ns.len(),
        s < n,
        strictly_sorted(ns),
        wired(ns, es, from@, to@),
    ensures
        seen@.len() == n,
        forall|j: int| 0 <= j < n ==> #[trigger] seen@[j] == reaches(es, ns[s as int], ns[j]),
{
    let mut seen: Vec<bool> = Vec::new();
    let mut i: usize = 0;
    while i < n
        invariant
            i <= n,
            seen@.len() == i,
            forall|j: int| 0 <= j < i ==> !#[trigger] seen@[j],
        decreases n - i,
    {
        seen.push(false);
        i = i + 1;
    }
    seen.set(s, true);
    let mut order: Vec<usize> = Vec::new();
    order.push(s);
    proof {
        lemma_reaches_itself(es, ns[s as int]);
        assert forall|j: int| 0 <= j < n implies (#[trigger] seen@[j] <==> order@.contains(j as usize)) by {
            if j == s {
                assert(order@[0] == s);
            }
        }
    }
    let mut head: usize = 0;
    while head < order.len()
        invariant
            n == ns.len(),
            s < n,
            strictly_sorted(ns),
            wired(ns, es, from@, to@),
            seen@.len() == n,
            head <= order@.len() <= n,
            order@.no_duplicates(),
            forall|x: int| 0 <= x < order@.len() ==> #[trigger] order@[x] < n,
            forall|j: int| 0 <= j < n ==> (#[trigger] seen@[j] <==> order@.contains(j as usize)),
            seen@[s as int],
            forall|j: int| 0 <= j < n && #[trigger] seen@[j] ==> reaches(es, ns[s as int], ns[j]),
            forall|x: int, k: int|
                0 <= x < head && 0 <= k < es.len() && #[trigger] from@[k] == #[trigger] order@[x] ==> seen@[to@[k] as int],
        decreases n - head,
    {
        let u = order[head];
        let mut k: usize = 0;
        while k < from.len()
            invariant
                n == ns.len(),
                s < n,
                strictly_sorted(ns),
                wired(ns, es, from@, to@),
                seen@.len() == n,
                head < order@.len() <= n,
                u == order@[head as int],
                k <= es.len(),
                order@.no_duplicates(),
                forall|x: int| 0 <= x < order@.len() ==> #[trigger] order@[x] < n,
                forall|j: int| 0 <= j < n ==> (#[trigger] seen@[j] <==> order@.contains(j as usize)),
                seen@[s as int],
                forall|j: int| 0 <= j < n && #[trigger] seen@[j] ==> reaches(es, ns[s as int], ns[j]),
                forall|x: int, k2: int|
                    0 <= x < head && 0 <= k2 < es.len() && #[trigger] from@[k2] == #[trigger] order@[x] ==> seen@[to@[k2] as int],
                forall|k2: int| 0 <= k2 < k && #[trigger] from@[k2] == u ==> seen@[to@[k2] as int],
            decreases from.len() - k,
        {
            if from[k] == u {
                let v = to[k];
                if !seen[v] {
                    proof {
                        assert(seen@[u as int]) by {
                            assert(order@[head as int] == u);
                        }
                        assert(es[k as int] == (ns[u as int], ns[v as int]));
                        assert(step(es, ns[u as int], ns[v as int]));
                        lemma_reaches_step(es, ns[s as int], ns[u as int], ns[v as int]);
                    }
                    let ghost before = order@;
                    seen.set(v, true);
                    order.push(v);
                    proof {
                        assert(!before.contains(v));
                        assert forall|a: int, b: int| 0 <= a < order@.len() && 0 <= b < order@.len() && a != b implies order@[a] != order@[b] by {
                            if a < before.len() && b < before.len() {
                                assert(before[a] != before[b]);
                            } else if a < before.len() {
                                assert(before[a] != v);
                            } else if b < before.len() {
                                assert(before[b] != v);
                            }
                        }
                        assert forall|j: int| 0 <= j < n implies (#[trigger] seen@[j] <==> order@.contains(j as usize)) by {
                            if j != v {
                                if order@.contains(j as usize) {
                                    let x = choose|x: int| 0 <= x < order@.len() && order@[x] == j as usize;
                                    assert(before[x] == j as usize);
                                }
                                if before.contains(j as usize) {
                                    let x = choose|x: int| 0 <= x < before.len() && before[x] == j as usize;
                                    assert(order@[x] == j as usize);
                                }
                            } else {
                                assert(order@[order@.len() - 1] == v);
                            }
                        }
                        lemma_distinct_below(order@, n as nat);
                        assert forall|x: int, k2: int|
                            0 <= x < head && 0 <= k2 < es.len() && #[trigger] from@[k2] == #[trigger] order@[x] implies seen@[to@[k2] as int] by {
                            assert(order@[x] == before[x]);
                        }
                    }
                }
            }
            k = k + 1;
        }
        head = head + 1;
        proof {
            assert forall|x: int, k2: int|
                0 <= x < head && 0 <= k2 < es.len() && #[trigger] from@[k2] == #[trigger] order@[x] implies seen@[to@[k2] as int] by {
                if x == head - 1 {
                    assert(from@[k2] == u);
                }
            }
        }
    }
    proof {
        assert forall|k: int| 0 <= k < es.len() && #[trigger] seen@[from@[k] as int] implies seen@[to@[k] as int] by {
            assert(order@.contains(from@[k]));
            let x = choose|x: int| 0 <= x < order@.len() && order@[x] == from@[k];
        }
        assert forall|j: int| 0 <= j < n implies #[trigger] seen@[j] == reaches(es, ns[s as int], ns[j]) by {
            if reaches(es, ns[s as int], ns[j]) {
                let p = choose|p: Seq<Seq<char>>| #[trigger] is_walk(es, p) && p[0] == ns[s as int] && p.last() == ns[j];
                lemma_closed_flags_cover(ns, es, from@, to@, seen@, s as int, p);
                let j2 = choose|j2: int| 0 <= j2 < ns.len() && seen@[j2] && #[trigger] ns[j2] == p.last();
                lemma_sorted_distinct(ns, j, j2);
            }
        }
    }
    seen
}

/// What a module reaches is a module or the end of an edge.
proof fn lemma_reached_is_named(ms: Seq<Seq<char>>, es: Seq<(Seq<char>, Seq<char>)>, x: Seq<char>)
    requires
        in_scope(ms, es, x),
    ensures
        named(ms, es, x),
{
    let i = choose|i: int| 0 <= i < ms.len() && reaches(es, #[trigger] ms[i], x);
    let p = choose|p: Seq<Seq<char>>| #[trigger] is_walk(es, p) && p[0] == ms[i] && p.last() == x;
    if p.len() == 1 {
        assert(ms[i] == x);
        assert(ms.contains(x));
    } else {
        assert(linked(es, p, p.len() - 2));
        let k = choose|k: int| 0 <= k < es.len() && #[trigger] es[k] == (p[p.len() - 2], p[p.len() - 1]);
        assert(touches(es, k, x));
    }
}

/// What an ID in scope reaches is in scope.
proof fn lemma_scope_grows(ms: Seq<Seq<char>>, es: Seq<(Seq<char>, Seq<char>)>, x: Seq<char>, y: Seq<char>)
    requires
        in_scope(ms, es, x),
        reaches(es, x, y),
    ensures
        in_scope(ms, es, y),
{
    let i = choose|i: int| 0 <= i < ms.len() && reaches(es, #[trigger] ms[i], x);
    lemma_reaches_trans(es, ms[i], x, y);
}

/// `gv` is the class of `ns[r]`: in text order, the IDs among `ns` that
/// reach `ns[r]` and that it reaches.
pub open spec fn is_class(gv: Seq<Seq<char>>, ns: Seq<Seq<char>>, es: Seq<(Seq<char>, Seq<char>)>, r: int) -> bool {
    &&& strictly_sorted(gv)
    &&& forall|a: int| 0 <= a < gv.len() ==> ns.contains(#[trigger] gv[a]) && mutual(es, ns[r], gv[a])
    &&& forall|j: int| 0 <= j < ns.len() && mutual(es, ns[r], #[trigger] ns[j]) ==> gv.contains(ns[j])
}

/// A class holds its root first.
proof fn lemma_class_starts_at_root(gv: Seq<Seq<char>>, ns: Seq<Seq<char>>, es: Seq<(Seq<char>, Seq<char>)>, r: int)
    requires
        strictly_sorted(ns),
        0 <= r < ns.len(),
        is_class(gv, ns, es, r),
        forall|j: int| 0 <= j < r ==> !mutual(es, ns[r], #[trigger] ns[j]),
    ensures
        gv.len() > 0,
        gv[0] == ns[r],
{
    lemma_reaches_itself(es, ns[r]);
    assert(mutual(es, ns[r], ns[r]));
    assert(gv.contains(ns[r]));
    let a = choose|a: int| 0 <= a < gv.len() && gv[a] == ns[r];
    if a > 0 {
        assert(text_lt(gv[0], gv[a]));
        assert(ns.contains(gv[0]));
        let j = choose|j: int| 0 <= j < ns.len() && ns[j] == gv[0];
        assert(mutual(es, ns[r], gv[0]));
        if j < r {
            assert(!mutual(es, ns[r], ns[j]));
        } else if j == r {
            lemma_text_order(ns[r], ns[r]);
        } else {
            assert(text_lt(ns[r], ns[j]));
            lemma_text_order(ns[r], ns[j]);
        }
    }
}

/// Two members of classes reach each other exactly when the classes are
/// one.
proof fn lemma_members_mutual(
    gg: Seq<Seq<char>>,
    gh: Seq<Seq<char>>,
    ns: Seq<Seq<char>>,
    es: Seq<(Seq<char>, Seq<char>)>,
    rg: int,
    rh: int,
    a: int,
    b: int,
)
    requires
        is_class(gg, ns, es, rg),
        is_class(gh, ns, es, rh),
        0 <= a < gg.len(),
        0 <= b < gh.len(),
        rg == rh || !mutual(es, ns[rg], ns[rh]),
    ensures
        mutual(es, gg[a], gh[b]) <==> rg == rh,
{
    let x = gg[a];
    let y = gh[b];
    assert(mutual(es, ns[rg], x));
    assert(mutual(es, ns[rh], y));
    if rg == rh {
        lemma_mutual_trans(es, x, ns[rg], y);
    } else if mutual(es, x, y) {
        lemma_mutual_trans(es, ns[rg], x, y);
        lemma_mutual_trans(es, ns[rg], y, ns[rh]);
    }
}

/// Classes of distinct roots, each root the first of its class and every
/// ID in scope in the class of some root, are the declaration groups.
#[verifier::rlimit(40)]
proof fn lemma_classes_are_groups(
    gv: Seq<Seq<Seq<char>>>,
    roots: Seq<int>,
    ns: Seq<Seq<char>>,
    ms: Seq<Seq<char>>,
    es: Seq<(Seq<char>, Seq<char>)>,
)
    requires
        strictly_sorted(ns),
        forall|x: Seq<char>| #[trigger] named(ms, es, x) ==> ns.contains(x),
        roots.len() == gv.len(),
        forall|g: int| 0 <= g < roots.len() ==> 0 <= #[trigger] roots[g] < ns.len(),
        forall|g: int, h: int| 0 <= g < h < roots.len() ==> #[trigger] roots[g] < #[trigger] roots[h],
        forall|g: int| 0 <= g < roots.len() ==> in_scope(ms, es, ns[#[trigger] roots[g]]),
        forall|g: int| 0 <= g < roots.len() ==> is_class(#[trigger] gv[g], ns, es, roots[g]),
        forall|g: int, j: int| 0 <= g < roots.len() && 0 <= j < roots[g] ==> !mutual(es, ns[#[trigger] roots[g]], #[trigger] ns[j]),
        forall|j: int| 0 <= j < ns.len() && in_scope(ms, es, #[trigger] ns[j]) ==> exists|g: int| 0 <= g < roots.len() && mutual(es, ns[#[trigger] roots[g]], ns[j]),
        forall|g: int, h: int| 0 <= g < h < roots.len() ==> !mutual(es, ns[#[trigger] roots[g]], ns[#[trigger] roots[h]]),
    ensures
        declaration_groups_of(gv, ms, es),
{
    assert forall|g: int| 0 <= g < gv.len() implies #[trigger] gv[g][0] == ns[roots[g]] && gv[g].len() > 0 by {
        lemma_class_starts_at_root(gv[g], ns, es, roots[g]);
    }
    assert forall|g: int, h: int| 0 <= g < h < gv.len() implies text_lt(#[trigger] gv[g][0], #[trigger] gv[h][0]) by {
        assert(gv[g][0] == ns[roots[g]]);
        assert(gv[h][0] == ns[roots[h]]);
        assert(roots[g] < roots[h]);
    }
    assert forall|g: int| 0 <= g < gv.len() implies strictly_sorted(#[trigger] gv[g]) by {
        assert(is_class(gv[g], ns, es, roots[g]));
    }
    assert forall|g: int, a: int| 0 <= g < gv.len() && 0 <= a < gv[g].len() implies in_scope(ms, es, #[trigger] gv[g][a]) by {
        assert(is_class(gv[g], ns, es, roots[g]));
        assert(mutual(es, ns[roots[g]], gv[g][a]));
        lemma_scope_grows(ms, es, ns[roots[g]], gv[g][a]);
    }
    assert forall|x: Seq<char>| #[trigger] in_scope(ms, es, x) implies exists|g: int, a: int|
        0 <= g < gv.len() && 0 <= a < gv[g].len() && #[trigger] gv[g][a] == x by {
        lemma_reached_is_named(ms, es, x);
        assert(ns.contains(x));
        let j = choose|j: int| 0 <= j < ns.len() && ns[j] == x;
        assert(in_scope(ms, es, ns[j]));
        let g = choose|g: int| 0 <= g < roots.len() && mutual(es, ns[#[trigger] roots[g]], ns[j]);
        assert(is_class(gv[g], ns, es, roots[g]));
        assert(gv[g].contains(ns[j]));
        let a = choose|a: int| 0 <= a < gv[g].len() && gv[g][a] == ns[j];
        assert(gv[g][a] == x);
    }
    assert forall|g: int, h: int, a: int, b: int|
        0 <= g < gv.len() && 0 <= h < gv.len() && 0 <= a < gv[g].len() && 0 <= b < gv[h].len()
            implies (mutual(es, #[trigger] gv[g][a], #[trigger] gv[h][b]) <==> g == h) by {
        if g < h {
            assert(!mutual(es, ns[roots[g]], ns[roots[h]]));
            assert(roots[g] < roots[h]);
        } else if h < g {
            assert(!mutual(es, ns[roots[h]], ns[roots[g]]));
            assert(roots[h] < roots[g]);
        }
        lemma_members_mutual(gv[g], gv[h], ns, es, roots[g], roots[h], a, b);
    }
}

/// `n` flags, all down.
fn no_flags(n: usize) -> (flags: Vec<bool>)
    ensures
        flags@.len() == n,
        forall|j: int| 0 <= j < n ==> !#[trigger] flags@[j],
{
    let mut flags: Vec<bool> = Vec::new();
    let mut i: usize = 0;
    while i < n
        invariant
            i <= n,
            flags@.len() == i,
            forall|j: int| 0 <= j < i ==> !#[trigger] flags@[j],
        decreases n - i,
    {
        flags.push(false);
        i = i + 1;
    }
    flags
}

/// For each node, the nodes it reaches.
fn reach_table(
    n: usize,
    from: &Vec<usize>,
    to: &Vec<usize>,
    Ghost(ns): Ghost<Seq<Seq<char>>>,
    Ghost(es): Ghost<Seq<(Seq<char>, Seq<char>)>>,
) -> (reach: Vec<Vec<bool>>)
    requires
        n == ns.len(),
        strictly_sorted(ns),
        wired(ns, es, from@, to@),
    ensures
        reach@.len() == n,
        forall|a: int| 0 <= a < n ==> #[trigger] reach@[a]@.len() == n,
        forall|a: int, j: int| 0 <= a < n && 0 <= j < n ==> #[trigger] reach@[a]@[j] == reaches(es, ns[a], ns[j]),
{
    let mut reach: Vec<Vec<bool>> = Vec::new();
    let mut r: usize = 0;
    while r < n
        invariant
            n == ns.len(),
            strictly_sorted(ns),
            wired(ns, es, from@, to@),
            r <= n,
            reach@.len() == r,
            forall|a: int| 0 <= a < r ==> #[trigger] reach@[a]@.len() == n,
            forall|a: int, j: int| 0 <= a < r && 0 <= j < n ==> #[trigger] reach@[a]@[j] == reaches(es, ns[a], ns[j]),
        decreases n - r,
    {
        let row = reach_from(n, from, to, r, Ghost(ns), Ghost(es));
        reach.push(row);
        r = r + 1;
    }
    reach
}

/// Flags the nodes that some module reaches.
fn scope_flags(
    modules: &[ModuleId],
    names: &Vec<ModuleId>,
    reach: &Vec<Vec<bool>>,
    Ghost(es): Ghost<Seq<(Seq<char>, Seq<char>)>>,
) -> (scope: Vec<bool>)
    requires
        forall|i: int| 0 <= i < modules@.len() ==> ids(names@).contains(#[trigger] ids(modules@)[i]),
        reach@.len() == names@.len(),
        forall|a: int| 0 <= a < names@.len() ==> #[trigger] reach@[a]@.len() == names@.len(),
        forall|a: int, j: int|
            0 <= a < names@.len() && 0 <= j < names@.len() ==> #[trigger] reach@[a]@[j] == reaches(es, ids(names@)[a], ids(names@)[j]),
    ensures
        scope@.len() == names@.len(),
        forall|j: int| 0 <= j < names@.len() ==> (#[trigger] scope@[j] <==> in_scope(ids(modules@), es, ids(names@)[j])),
{
    let ghost ms = ids(modules@);
    let ghost ns = ids(names@);
    let n = names.len();
    let mut scope = no_flags(n);
    let mut m: usize = 0;
    while m < modules.len()
        invariant
            ms == ids(modules@),
            ns == ids(names@),
            n == ns.len(),
            m <= ms.len(),
            forall|i: int| 0 <= i < ms.len() ==> ns.contains(#[trigger] ms[i]),
            reach@.len() == n,
            forall|a: int| 0 <= a < n ==> #[trigger] reach@[a]@.len() == n,
            forall|a: int, j: int| 0 <= a < n && 0 <= j < n ==> #[trigger] reach@[a]@[j] == reaches(es, ns[a], ns[j]),
            scope@.len() == n,
            forall|j: int| 0 <= j < n ==> (#[trigger] scope@[j] <==> exists|i: int| 0 <= i < m && reaches(es, #[trigger] ms[i], ns[j])),
        decreases ms.len() - m,
    {
        assert(ms[m as int] == modules@[m as int]@);
        assert(ns.contains(ms[m as int]));
        let r = index_of(names, &modules[m]);
        let mut j: usize = 0;
        while j < n
            invariant
                ms == ids(modules@),
                ns == ids(names@),
                n == ns.len(),
                m < ms.len(),
                r < n,
                ns[r as int] == ms[m as int],
                reach@.len() == n,
                forall|a: int| 0 <= a < n ==> #[trigger] reach@[a]@.len() == n,
                forall|a: int, j2: int| 0 <= a < n && 0 <= j2 < n ==> #[trigger] reach@[a]@[j2] == reaches(es, ns[a], ns[j2]),
                j <= n,
                scope@.len() == n,
                forall|j2: int| 0 <= j2 < n ==> (#[trigger] scope@[j2] <==> ((exists|i: int| 0 <= i < m && reaches(es, #[trigger] ms[i], ns[j2])) || (j2 < j && reach@[r as int]@[j2]))),
            decreases n - j,
        {
            if reach[r][j] {
                scope.set(j, true);
            }
            j = j + 1;
        }
        proof {
            assert forall|j2: int| 0 <= j2 < n implies (#[trigger] scope@[j2] <==> exists|i: int| 0 <= i < m + 1 && reaches(es, #[trigger] ms[i], ns[j2])) by {
                assert(reach@[r as int]@[j2] == reaches(es, ms[m as int], ns[j2]));
                if exists|i: int| 0 <= i < m + 1 && reaches(es, #[trigger] ms[i], ns[j2]) {
                    let i = choose|i: int| 0 <= i < m + 1 && reaches(es, #[trigger] ms[i], ns[j2]);
                    if i < m {
                        assert(exists|i: int| 0 <= i < m && reaches(es, #[trigger] ms[i], ns[j2]));
                    }
                }
            }
        }
        m = m + 1;
    }
    scope
}

/// The declaration groups of a graph: its strongly connected components
/// among the modules that `modules` reach, each in ID order and ordered by
/// their first IDs.
pub fn strongly_connected_components(modules: &[ModuleId], edges: &[DependencyEdge]) -> (groups: Vec<Vec<ModuleId>>)
    ensures
        declaration_groups_of(groups_view(groups@), ids(modules@), edge_ends(edges@)),
{
    let ghost ms = ids(modules@);
    let ghost es = edge_ends(edges@);
    let names = node_names(modules, edges);
    let ghost ns = ids(names@);
    proof {
        assert forall|k: int| 0 <= k < edges@.len() implies #[trigger] named_ends(ns, es, k) by {
            assert(touches(es, k, es[k].0));
            assert(touches(es, k, es[k].1));
            assert(named(ms, es, es[k].0));
            assert(named(ms, es, es[k].1));
        }
        assert forall|i: int| 0 <= i < modules@.len() implies ns.contains(#[trigger] ms[i]) by {
            assert(ms.contains(ms[i]));
            assert(named(ms, es, ms[i]));
        }
    }
    let (from, to) = edge_indices(&names, edges);
    let n = names.len();
    let reach = reach_table(n, &from, &to, Ghost(ns), Ghost(es));
    let scope = scope_flags(modules, &names, &reach, Ghost(es));
    let mut groups: Vec<Vec<ModuleId>> = Vec::new();
    let mut assigned = no_flags(n);
    let ghost mut roots: Seq<int> = Seq::empty();
    let mut i: usize = 0;
    while i < n
        invariant
            ms == ids(modules@),
            es == edge_ends(edges@),
            ns == ids(names@),
            n == ns.len(),
            strictly_sorted(ns),
            reach@.len() == n,
            forall|a: int| 0 <= a < n ==> #[trigger] reach@[a]@.len() == n,
            forall|a: int, j: int| 0 <= a < n && 0 <= j < n ==> #[trigger] reach@[a]@[j] == reaches(es, ns[a], ns[j]),
            scope@.len() == n,
            forall|j: int| 0 <= j < n ==> (#[trigger] scope@[j] <==> in_scope(ms, es, ns[j])),
            assigned@.len() == n,
            i <= n,
            roots.len() == groups@.len(),
            forall|g: int| 0 <= g < roots.len() ==> 0 <= #[trigger] roots[g] < i,
            forall|g: int| 0 <= g < roots.len() ==> in_scope(ms, es, ns[#[trigger] roots[g]]),
            forall|g: int, h: int| 0 <= g < h < roots.len() ==> #[trigger] roots[g] < #[trigger] roots[h],
            forall|g: int| 0 <= g < roots.len() ==> is_class(#[trigger] groups_view(groups@)[g], ns, es, roots[g]),
            forall|g: int, j: int| 0 <= g < roots.len() && 0 <= j < roots[g] ==> !mutual(es, ns[#[trigger] roots[g]], #[trigger] ns[j]),
            forall|j: int| 0 <= j < n ==> (#[trigger] assigned@[j] <==> exists|g: int| 0 <= g < roots.len() && mutual(es, ns[#[trigger] roots[g]], ns[j])),
            forall|j: int| 0 <= j < i && #[trigger] scope@[j] ==> assigned@[j],
            forall|g: int, h: int| 0 <= g < h < roots.len() ==> !mutual(es, ns[#[trigger] roots[g]], ns[#[trigger] roots[h]]),
        decreases n - i,
    {
        if scope[i] && !assigned[i] {
            let ghost before = assigned@;
            proof {
                assert forall|j: int| 0 <= j < i implies !mutual(es, ns[i as int], #[trigger] ns[j]) by {
                    if mutual(es, ns[i as int], ns[j]) {
                        lemma_scope_grows(ms, es, ns[i as int], ns[j]);
                        assert(scope@[j]);
                        assert(assigned@[j]);
                        let g = choose|g: int| 0 <= g < roots.len() && mutual(es, ns[#[trigger] roots[g]], ns[j]);
                        lemma_mutual_trans(es, ns[roots[g]], ns[j], ns[i as int]);
                        assert(assigned@[i as int]);
                    }
                }
                assert forall|g: int| 0 <= g < roots.len() implies !mutual(es, ns[#[trigger] roots[g]], ns[i as int]) by {
                    if mutual(es, ns[roots[g]], ns[i as int]) {
                        assert(assigned@[i as int]);
                    }
                }
            }
            let mut group: Vec<ModuleId> = Vec::new();
            let ghost mut picks: Seq<int> = Seq::empty();
            let mut j: usize = 0;
            while j < n
                invariant
                    ns == ids(names@),
                    n == ns.len(),
                    strictly_sorted(ns),
                    i < n,
                    reach@.len() == n,
                    forall|a: int| 0 <= a < n ==> #[trigger] reach@[a]@.len() == n,
                    forall|a: int, j2: int| 0 <= a < n && 0 <= j2 < n ==> #[trigger] reach@[a]@[j2] == reaches(es, ns[a], ns[j2]),
                    j <= n,
                    assigned@.len() == n,
                    before.len() == n,
                    picks.len() == group@.len(),
                    forall|a: int| 0 <= a < picks.len() ==> 0 <= #[trigger] picks[a] < j,
                    forall|a: int, b: int| 0 <= a < b < picks.len() ==> #[trigger] picks[a] < #[trigger] picks[b],
                    forall|a: int| 0 <= a < picks.len() ==> #[trigger] ids(group@)[a] == ns[picks[a]] && mutual(es, ns[i as int], ns[picks[a]]),
                    forall|j2: int| 0 <= j2 < j && mutual(es, ns[i as int], #[trigger] ns[j2]) ==> ids(group@).contains(ns[j2]),
                    forall|j2: int| 0 <= j2 < n ==> (#[trigger] assigned@[j2] <==> (before[j2] || (j2 < j && mutual(es, ns[i as int], ns[j2])))),
                decreases n - j,
            {
                if reach[i][j] && reach[j][i] {
                    let ghost old_group = ids(group@);
                    group.push(names[j].clone());
                    assigned.set(j, true);
                    proof {
                        picks = picks.push(j as int);
                        assert(ids(group@) =~= old_group.push(ns[j as int]));
                        assert forall|j2: int| 0 <= j2 < j + 1 && mutual(es, ns[i as int], #[trigger] ns[j2]) implies ids(group@).contains(ns[j2]) by {
                            if j2 < j {
                                let a = choose|a: int| 0 <= a < old_group.len() && old_group[a] == ns[j2];
                                assert(ids(group@)[a] == ns[j2]);
                            } else {
                                assert(ids(group@)[old_group.len() as int] == ns[j2]);
                            }
                        }
                    }
                } else {
                    proof {
                        assert forall|j2: int| 0 <= j2 < j + 1 && mutual(es, ns[i as int], #[trigger] ns[j2]) implies ids(group@).contains(ns[j2]) by {
                            if j2 == j {
                                assert(reach@[i as int]@[j as int]);
                            }
                        }
                    }
                }
                j = j + 1;
            }
            proof {
                assert forall|a: int, b: int| 0 <= a < b < ids(group@).len() implies text_lt(#[trigger] ids(group@)[a], #[trigger] ids(group@)[b]) by {
                    assert(picks[a] < picks[b]);
                    assert(text_lt(ns[picks[a]], ns[picks[b]]));
                }
                assert forall|a: int| 0 <= a < ids(group@).len() implies ns.contains(#[trigger] ids(group@)[a]) && mutual(es, ns[i as int], ids(group@)[a]) by {
                    assert(ids(group@)[a] == ns[picks[a]]);
                }
                assert(is_class(ids(group@), ns, es, i as int));
            }
            let ghost old_groups = groups_view(groups@);
            let ghost old_roots = roots;
            groups.push(group);
            proof {
                roots = roots.push(i as int);
                assert(groups_view(groups@) =~= old_groups.push(ids(group@)));
                assert forall|g: int| 0 <= g < roots.len() implies is_class(#[trigger] groups_view(groups@)[g], ns, es, roots[g]) by {
                    if g < old_roots.len() {
                        assert(groups_view(groups@)[g] == old_groups[g]);
                    }
                }
                assert forall|j2: int| 0 <= j2 < n implies (#[trigger] assigned@[j2] <==> exists|g: int| 0 <= g < roots.len() && mutual(es, ns[#[trigger] roots[g]], ns[j2])) by {
                    if exists|g: int| 0 <= g < roots.len() && mutual(es, ns[#[trigger] roots[g]], ns[j2]) {
                        let g = choose|g: int| 0 <= g < roots.len() && mutual(es, ns[#[trigger] roots[g]], ns[j2]);
                        if g < old_roots.len() {
                            assert(old_roots[g] == roots[g]);
                            assert(before[j2]);
                        }
                    }
                    if before[j2] {
                        let g = choose|g: int| 0 <= g < old_roots.len() && mutual(es, ns[#[trigger] old_roots[g]], ns[j2]);
                        assert(roots[g] == old_roots[g]);
                    }
                    if mutual(es, ns[i as int], ns[j2]) {
                        assert(roots[old_roots.len() as int] == i as int);
                    }
                }
                lemma_reaches_itself(es, ns[i as int]);
            }
        }
        i = i + 1;
    }
    proof {
        assert forall|x: Seq<char>| #[trigger] named(ms, es, x) implies ns.contains(x) by {}
        assert forall|j: int| 0 <= j < ns.len() && in_scope(ms, es, #[trigger] ns[j]) implies exists|g: int| 0 <= g < roots.len() && mutual(es, ns[#[trigger] roots[g]], ns[j]) by {
            assert(scope@[j]);
            assert(assigned@[j]);
        }
        lemma_classes_are_groups(groups_view(groups@), roots, ns, ms, es);
    }
    groups
}

/// The rank of a dependency kind in edge order.
pub open spec fn kind_rank(k: DependencyKind) -> int {
    match k {
        DependencyKind::Import => 0,
        DependencyKind::Signature => 1,
        DependencyKind::Body => 2,
    }
}

/// An edge as plain values.
pub open spec fn edge_key(e: DependencyEdge) -> (Seq<char>, Seq<char>, DependencyKind, Seq<char>) {
    (e.from@, e.to@, e.kind, e.symbol@)
}

pub open spec fn edge_keys(es: Seq<DependencyEdge>) -> Seq<(Seq<char>, Seq<char>, DependencyKind, Seq<char>)> {
    es.map_values(|e: DependencyEdge| edge_key(e))
}

/// Edge order: by source, then target, then kind, then symbol.
pub open spec fn edge_lt(
    a: (Seq<char>, Seq<char>, DependencyKind, Seq<char>),
    b: (Seq<char>, Seq<char>, DependencyKind, Seq<char>),
) -> bool {
    ||| text_lt(a.0, b.0)
    ||| a.0 == b.0 && text_lt(a.1, b.1)
    ||| a.0 == b.0 && a.1 == b.1 && kind_rank(a.2) < kind_rank(b.2)
    ||| a.0 == b.0 && a.1 == b.1 && a.2 == b.2 && text_lt(a.3, b.3)
}

/// Each edge before the next in edge order.
pub open spec fn edges_sorted(ks: Seq<(Seq<char>, Seq<char>, DependencyKind, Seq<char>)>) -> bool {
    forall|i: int, j: int| 0 <= i < j < ks.len() ==> edge_lt(#[trigger] ks[i], #[trigger] ks[j])
}

/// Each ID no later than the next in text order.
pub open spec fn ids_sorted(ns: Seq<Seq<char>>) -> bool {
    forall|i: int, j: int| 0 <= i < j < ns.len() ==> !text_lt(#[trigger] ns[j], #[trigger] ns[i])
}

/// Edge order is a strict total order.
pub proof fn lemma_edge_order(
    a: (Seq<char>, Seq<char>, DependencyKind, Seq<char>),
    b: (Seq<char>, Seq<char>, DependencyKind, Seq<char>),
    c: (Seq<char>, Seq<char>, DependencyKind, Seq<char>),
)
    ensures
        !edge_lt(a, a),
        edge_lt(a, b) ==> !edge_lt(b, a),
        a != b ==> edge_lt(a, b) || edge_lt(b, a),
        edge_lt(a, b) && edge_lt(b, c) ==> edge_lt(a, c),
{
    lemma_text_order(a.0, b.0);
    lemma_text_order(a.1, b.1);
    lemma_text_order(a.3, b.3);
    lemma_text_order(b.0, c.0);
    lemma_text_order(b.1, c.1);
    lemma_text_order(b.3, c.3);
    lemma_text_order(a.0, c.0);
    if text_lt(a.0, b.0) && text_lt(b.0, c.0) {
        lemma_text_lt_transitive(a.0, b.0, c.0, 0);
    }
    if text_lt(a.1, b.1) && text_lt(b.1, c.1) {
        lemma_text_lt_transitive(a.1, b.1, c.1, 0);
    }
    if text_lt(a.3, b.3) && text_lt(b.3, c.3) {
        lemma_text_lt_transitive(a.3, b.3, c.3, 0);
    }
    if a != b && a.0 == b.0 && a.1 == b.1 && a.3 == b.3 {
        assert(a.2 != b.2);
        assert(kind_rank(a.2) != kind_rank(b.2));
    }
}

fn kind_rank_of(k: DependencyKind) -> (r: u8)
    ensures
        r == kind_rank(k),
{
    match k {
        DependencyKind::Import => 0,
        DependencyKind::Signature => 1,
        DependencyKind::Body => 2,
    }
}

fn text_before(a: &str, b: &str) -> (less: bool)
    ensures
        less == text_lt(a@, b@),
{
    let x = chars_of(a);
    let y = chars_of(b);
    text_less(x.as_slice(), y.as_slice())
}

/// Compares two edges in edge order.
fn edge_less(a: &DependencyEdge, b: &DependencyEdge) -> (less: bool)
    ensures
        less == edge_lt(edge_key(*a), edge_key(*b)),
{
    if text_before(a.from.as_str(), b.from.as_str()) {
        return true;
    }
    if !same_text(a.from.as_str(), b.from.as_str()) {
        return false;
    }
    if text_before(a.to.as_str(), b.to.as_str()) {
        return true;
    }
    if !same_text(a.to.as_str(), b.to.as_str()) {
        return false;
    }
    let ra = kind_rank_of(a.kind);
    let rb = kind_rank_of(b.kind);
    if ra != rb {
        return ra < rb;
    }
    proof {
        if a.kind != b.kind {
            assert(kind_rank(a.kind) != kind_rank(b.kind));
        }
    }
    text_before(a.symbol.as_str(), b.symbol.as_str())
}

/// Adds an edge to edges in edge order, unless an equal edge is there.
fn insert_edge(out: &mut Vec<DependencyEdge>, e: &DependencyEdge)
    requires
        edges_sorted(edge_keys(old(out)@)),
    ensures
        edges_sorted(edge_keys(final(out)@)),
        forall|x: (Seq<char>, Seq<char>, DependencyKind, Seq<char>)| #[trigger] edge_keys(final(out)@).contains(x) <==> (edge_keys(old(out)@).contains(x) || x == edge_key(*e)),
{
    let ghost ks = edge_keys(out@);
    let ghost key = edge_key(*e);
    let mut k: usize = 0;
    while k < out.len()
        invariant
            k <= out@.len(),
            ks == edge_keys(out@),
            key == edge_key(*e),
            forall|i: int| 0 <= i < k ==> edge_lt(#[trigger] ks[i], key),
        ensures
            k <= out@.len(),
            forall|i: int| 0 <= i < k ==> edge_lt(#[trigger] ks[i], key),
            k < out@.len() ==> !edge_lt(ks[k as int], key),
        decreases out.len() - k,
    {
        if !edge_less(&out[k], e) {
            break;
        }
        k = k + 1;
    }
    proof {
        if k < ks.len() {
            lemma_edge_order(ks[k as int], key, key);
        }
    }
    if k < out.len() && !edge_less(e, &out[k]) {
        proof {
            lemma_edge_order(ks[k as int], key, key);
            assert(ks[k as int] == key);
        }
        return;
    }
    out.insert(k, e.clone());
    let ghost now = edge_keys(out@);
    assert(now =~= ks.insert(k as int, key));
    assert forall|i: int, j: int| 0 <= i < j < now.len() implies edge_lt(#[trigger] now[i], #[trigger] now[j]) by {
        if j < k {
            assert(edge_lt(ks[i], ks[j]));
        } else if j == k {
        } else if i < k {
            if j - 1 == k {
                lemma_edge_order(ks[i], key, ks[k as int]);
            } else {
                assert(edge_lt(ks[i], ks[j - 1]));
            }
        } else if i == k {
            if j - 1 > k {
                assert(edge_lt(ks[k as int], ks[j - 1]));
                lemma_edge_order(key, ks[k as int], ks[j - 1]);
            }
        } else {
            assert(edge_lt(ks[i - 1], ks[j - 1]));
        }
    }
    assert forall|x: (Seq<char>, Seq<char>, DependencyKind, Seq<char>)| #[trigger] now.contains(x) <==> (ks.contains(x) || x == key) by {
        if now.contains(x) {
            let j = choose|j: int| 0 <= j < now.len() && now[j] == x;
            if j < k {
                assert(ks[j] == x);
            } else if j > k {
                assert(ks[j - 1] == x);
            }
        }
        if ks.contains(x) {
            let j = choose|j: int| 0 <= j < ks.len() && ks[j] == x;
            if j < k {
                assert(now[j] == x);
            } else {
                assert(now[j + 1] == x);
            }
        }
        if x == key {
            assert(now[k as int] == x);
        }
    }
}

/// The edges in edge order, each once.
fn sorted_edges(edges: &Vec<DependencyEdge>) -> (out: Vec<DependencyEdge>)
    ensures
        edges_sorted(edge_keys(out@)),
        forall|x: (Seq<char>, Seq<char>, DependencyKind, Seq<char>)| #[trigger] edge_keys(out@).contains(x) <==> edge_keys(edges@).contains(x),
{
    let ghost ks = edge_keys(edges@);
    let mut out: Vec<DependencyEdge> = Vec::new();
    let mut i: usize = 0;
    while i < edges.len()
        invariant
            i <= edges@.len(),
            ks == edge_keys(edges@),
            edges_sorted(edge_keys(out@)),
            forall|x: (Seq<char>, Seq<char>, DependencyKind, Seq<char>)| #[trigger] edge_keys(out@).contains(x) <==> ks.subrange(0, i as int).contains(x),
        decreases edges.len() - i,
    {
        let ghost before = edge_keys(out@);
        insert_edge(&mut out, &edges[i]);
        proof {
            let a = ks.subrange(0, i as int);
            let b = ks.subrange(0, i as int + 1);
            assert(b =~= a.push(ks[i as int]));
            assert(ks[i as int] == edge_key(edges@[i as int]));
            assert forall|x: (Seq<char>, Seq<char>, DependencyKind, Seq<char>)| #[trigger] edge_keys(out@).contains(x) <==> b.contains(x) by {
                assert(before.contains(x) <==> a.contains(x));
                if x == ks[i as int] {
                    assert(b[i as int] == x);
                }
                if a.contains(x) {
                    let j = choose|j: int| 0 <= j < a.len() && a[j] == x;
                    assert(b[j] == x);
                }
                if b.contains(x) {
                    let j = choose|j: int| 0 <= j < b.len() && b[j] == x;
                    if j < i {
                        assert(a[j] == x);
                    }
                }
            }
        }
        i = i + 1;
    }
    assert(ks.subrange(0, ks.len() as int) =~= ks);
    out
}

/// The IDs in text order, each as often as given.
fn sorted_ids(modules: &Vec<ModuleId>) -> (out: Vec<ModuleId>)
    ensures
        ids_sorted(ids(out@)),
        ids(out@).to_multiset() == ids(modules@).to_multiset(),
{
    let ghost ms = ids(modules@);
    let mut out: Vec<ModuleId> = Vec::new();
    let mut i: usize = 0;
    assert(ids(out@) =~= ms.subrange(0, 0));
    while i < modules.len()
        invariant
            i <= modules@.len(),
            ms == ids(modules@),
            ids_sorted(ids(out@)),
            ids(out@).to_multiset() == ms.subrange(0, i as int).to_multiset(),
        decreases modules.len() - i,
    {
        let ghost ns = ids(out@);
        let id = &modules[i];
        let key = chars_of(id.as_str());
        let mut k: usize = 0;
        while k < out.len()
            invariant
                k <= out@.len(),
                ns == ids(out@),
                key@ == id@,
                forall|j: int| 0 <= j < k ==> !text_lt(id@, #[trigger] ns[j]),
            ensures
                k <= out@.len(),
                forall|j: int| 0 <= j < k ==> !text_lt(id@, #[trigger] ns[j]),
                k < out@.len() ==> text_lt(id@, ns[k as int]),
            decreases out.len() - k,
        {
            let other = chars_of(out[k].as_str());
            if text_less(key.as_slice(), other.as_slice()) {
                break;
            }
            k = k + 1;
        }
        out.insert(k, id.clone());
        proof {
            let now = ids(out@);
            assert(now =~= ns.insert(k as int, id@));
            assert(ms[i as int] == id@);
            assert(ms.subrange(0, i as int + 1) =~= ms.subrange(0, i as int).push(id@));
            vstd::seq_lib::to_multiset_insert(ns, k as int, id@);
            vstd::seq_lib::to_multiset_build(ms.subrange(0, i as int), id@);
            assert forall|a: int, b: int| 0 <= a < b < now.len() implies !text_lt(#[trigger] now[b], #[trigger] now[a]) by {
                if b < k {
                    assert(!text_lt(ns[b], ns[a]));
                } else if b == k {
                    assert(!text_lt(id@, ns[a]));
                } else if a < k {
                    assert(now[b] == ns[b - 1]);
                    if b - 1 == k {
                        assert(text_lt(id@, ns[k as int]));
                    } else {
                        assert(!text_lt(ns[b - 1], ns[k as int]));
                        lemma_text_order(ns[b - 1], ns[k as int]);
                        lemma_text_order(id@, ns[k as int]);
                        if text_lt(ns[b - 1], ns[a]) {
                            lemma_text_order(ns[k as int], ns[b - 1]);
                            if ns[k as int] == ns[b - 1] {
                                lemma_text_lt_transitive(id@, ns[k as int], ns[a], 0);
                            } else {
                                lemma_text_lt_transitive(ns[k as int], ns[b - 1], ns[a], 0);
                                lemma_text_lt_transitive(id@, ns[k as int], ns[a], 0);
                            }
                            lemma_text_order(id@, ns[a]);
                        }
                    }
                } else if a == k {
                    assert(now[b] == ns[b - 1]);
                    if b - 1 > k {
                        assert(!text_lt(ns[b - 1], ns[k as int]));
                        lemma_text_order(ns[b - 1], ns[k as int]);
                        lemma_text_order(ns[k as int], ns[b - 1]);
                        lemma_text_order(id@, ns[k as int]);
                        if text_lt(ns[b - 1], id@) {
                            if ns[k as int] == ns[b - 1] {
                                lemma_text_order(id@, ns[b - 1]);
                            } else {
                                lemma_text_lt_transitive(id@, ns[k as int], ns[b - 1], 0);
                                lemma_text_order(id@, ns[b - 1]);
                            }
                        }
                    } else {
                        lemma_text_order(id@, ns[k as int]);
                    }
                } else {
                    assert(!text_lt(ns[b - 1], ns[a - 1]));
                }
            }
        }
        i = i + 1;
    }
    assert(ms.subrange(0, ms.len() as int) =~= ms);
    out
}

impl ModuleGraph {
    /// The graph of modules and dependency edges: the modules in ID order,
    /// the edges in edge order with repeats dropped, and the declaration
    /// groups that they make.
    pub fn assemble(modules: Vec<ModuleId>, edges: Vec<DependencyEdge>) -> (graph: ModuleGraph)
        ensures
            ids_sorted(ids(graph.modules@)),
            ids(graph.modules@).to_multiset() == ids(modules@).to_multiset(),
            edges_sorted(edge_keys(graph.edges@)),
            forall|x: (Seq<char>, Seq<char>, DependencyKind, Seq<char>)| #[trigger] edge_keys(graph.edges@).contains(x) <==> edge_keys(edges@).contains(x),
            declaration_groups_of(groups_view(graph.declaration_groups@), ids(graph.modules@), edge_ends(graph.edges@)),
    {
        let modules = sorted_ids(&modules);
        let edges = sorted_edges(&edges);
        let declaration_groups = strongly_connected_components(modules.as_slice(), edges.as_slice());
        ModuleGraph { modules, edges, declaration_groups }
    }
}


/// When every edge leads to one of the modules, the IDs in scope are
/// exactly the modules.
pub proof fn lemma_scope_is_modules(ms: Seq<Seq<char>>, es: Seq<(Seq<char>, Seq<char>)>, x: Seq<char>)
    requires
        forall|k: int| 0 <= k < es.len() ==> ms.contains(#[trigger] es[k].1),
    ensures
        in_scope(ms, es, x) <==> ms.contains(x),
{
    if ms.contains(x) {
        let i = choose|i: int| 0 <= i < ms.len() && ms[i] == x;
        lemma_reaches_itself(es, x);
        assert(reaches(es, ms[i], x));
    }
    if in_scope(ms, es, x) {
        let i = choose|i: int| 0 <= i < ms.len() && reaches(es, #[trigger] ms[i], x);
        let p = choose|p: Seq<Seq<char>>| #[trigger] is_walk(es, p) && p[0] == ms[i] && p.last() == x;
        if p.len() == 1 {
            assert(ms[i] == x);
        } else {
            let n = p.len() - 2;
            assert(linked(es, p, n));
            let k = choose|k: int| 0 <= k < es.len() && #[trigger] es[k] == (p[n], p[n + 1]);
            assert(es[k].1 == x);
        }
    }
}

/// The declaration groups of modules whose edges lead only to modules
/// partition the modules: every module stands in exactly one group,
/// every group member is a module, and two modules share a group if and
/// only if each reaches the other.
pub proof fn lemma_groups_partition_modules(
    groups: Seq<Seq<Seq<char>>>,
    ms: Seq<Seq<char>>,
    es: Seq<(Seq<char>, Seq<char>)>,
)
    requires
        declaration_groups_of(groups, ms, es),
        forall|k: int| 0 <= k < es.len() ==> ms.contains(#[trigger] es[k].1),
    ensures
        forall|x: Seq<char>| #[trigger] ms.contains(x) ==> exists|g: int, a: int|
            0 <= g < groups.len() && 0 <= a < groups[g].len() && #[trigger] groups[g][a] == x,
        forall|g: int, a: int| 0 <= g < groups.len() && 0 <= a < groups[g].len() ==> ms.contains(#[trigger] groups[g][a]),
        forall|g: int, h: int, a: int, b: int|
            0 <= g < groups.len() && 0 <= h < groups.len() && 0 <= a < groups[g].len() && 0 <= b < groups[h].len()
                && #[trigger] groups[g][a] == #[trigger] groups[h][b] ==> g == h,
        forall|g: int, h: int, a: int, b: int|
            0 <= g < groups.len() && 0 <= h < groups.len() && 0 <= a < groups[g].len() && 0 <= b < groups[h].len()
                ==> (mutual(es, #[trigger] groups[g][a], #[trigger] groups[h][b]) <==> g == h),
{
    assert forall|x: Seq<char>| #[trigger] ms.contains(x) implies exists|g: int, a: int|
        0 <= g < groups.len() && 0 <= a < groups[g].len() && #[trigger] groups[g][a] == x by {
        lemma_scope_is_modules(ms, es, x);
    }
    assert forall|g: int, a: int| 0 <= g < groups.len() && 0 <= a < groups[g].len() implies ms.contains(
        #[trigger] groups[g][a],
    ) by {
        lemma_scope_is_modules(ms, es, groups[g][a]);
    }
    assert forall|g: int, h: int, a: int, b: int|
        0 <= g < groups.len() && 0 <= h < groups.len() && 0 <= a < groups[g].len() && 0 <= b < groups[h].len()
            && #[trigger] groups[g][a] == #[trigger] groups[h][b] implies g == h by {
        lemma_reaches_itself(es, groups[g][a]);
        assert(mutual(es, groups[g][a], groups[h][b]));
    }
}

} // verus!
