//! Reachability over the directed link graph.
//!
//! The cycle check of the engine asks whether the target group of a new
//! directed relation already reaches the source group through forward
//! edges, and if so, which groups lie on such a chain. This module defines
//! reachability over an edge set, proves the lemmas the search needs, and
//! implements the search itself as a verified worklist traversal.

use vstd::prelude::*;
use vstd::set_lib::lemma_len_subset;
use vstd::set_lib::lemma_len_union;

verus! {

/// Consecutive elements of `p` are joined by edges of `es`.
pub open spec fn is_chain(es: Set<(u64, u64)>, p: Seq<u64>) -> bool {
    forall|k: int| 0 <= k < p.len() - 1 ==> es.contains((#[trigger] p[k], p[k + 1]))
}

/// `b` can be reached from `a` by following edges of `es`; every
/// identifier reaches itself by the chain of one element.
pub open spec fn reaches(es: Set<(u64, u64)>, a: u64, b: u64) -> bool {
    exists|p: Seq<u64>|
        p.len() >= 1 && p[0] == a && p[p.len() - 1] == b && #[trigger] is_chain(es, p)
}

/// `b` can be reached from `a` by one or more forward edges: some
/// reachable identifier carries an edge into `b`. Unlike `reaches`, this
/// does not hold of an identifier and itself unless it lies on a cycle.
pub open spec fn reaches_plus(es: Set<(u64, u64)>, a: u64, b: u64) -> bool {
    exists|c: u64| reaches(es, a, c) && #[trigger] es.contains((c, b))
}

/// For distinct endpoints, reachability and positive-length reachability
/// coincide: any chain joining them crosses at least one edge.
pub proof fn lemma_reaches_plus_equiv(es: Set<(u64, u64)>, a: u64, b: u64)
    requires
        a != b,
    ensures
        reaches_plus(es, a, b) <==> reaches(es, a, b),
{
    if reaches_plus(es, a, b) {
        let c = choose|c: u64| reaches(es, a, c) && #[trigger] es.contains((c, b));
        lemma_reaches_step(es, a, c, b);
    }
    if reaches(es, a, b) {
        let p = choose|p: Seq<u64>|
            p.len() >= 1 && p[0] == a && p[p.len() - 1] == b && #[trigger] is_chain(es, p);
        assert(p.len() >= 2);
        let q = p.drop_last();
        assert forall|k: int| #![trigger q[k]] 0 <= k < q.len() - 1 implies es.contains(
            (q[k], q[k + 1]),
        ) by {
            assert(q[k] == p[k] && q[k + 1] == p[k + 1]);
        }
        let c = p[p.len() - 2];
        assert(q.len() >= 1 && q[0] == a && q[q.len() - 1] == c && is_chain(es, q));
        assert(reaches(es, a, c));
        assert(es.contains((c, b)));
    }
}

/// Everything reachable from `start`.
pub open spec fn reach_set(es: Set<(u64, u64)>, start: u64) -> Set<u64> {
    Set::new(|g: u64| reaches(es, start, g))
}

/// Everything that reaches `start`.
pub open spec fn co_reach_set(es: Set<(u64, u64)>, start: u64) -> Set<u64> {
    Set::new(|g: u64| reaches(es, g, start))
}

/// The groups to collapse when a directed relation from `id_from` to
/// `id_to` closes a cycle: every group lying on some forward chain from
/// `id_to` back to `id_from`, both endpoints included.
pub open spec fn collapse_set(es: Set<(u64, u64)>, id_from: u64, id_to: u64) -> Set<u64> {
    Set::new(|g: u64| reaches(es, id_to, g) && reaches(es, g, id_from))
}

/// The set is closed under following an edge forward.
pub open spec fn closed_fwd(es: Set<(u64, u64)>, vs: Set<u64>) -> bool {
    forall|a: u64, b: u64|
        #[trigger] vs.contains(a) && #[trigger] es.contains((a, b)) ==> vs.contains(b)
}

/// The set is closed under following an edge backward.
pub open spec fn closed_rev(es: Set<(u64, u64)>, vs: Set<u64>) -> bool {
    forall|a: u64, b: u64|
        #[trigger] vs.contains(b) && #[trigger] es.contains((a, b)) ==> vs.contains(a)
}

/// Reachability is reflexive: the chain of one element.
pub proof fn lemma_reaches_refl(es: Set<(u64, u64)>, a: u64)
    ensures
        reaches(es, a, a),
{
    let p = seq![a];
    assert(p.len() >= 1 && p[0] == a && p[p.len() - 1] == a && is_chain(es, p));
}

/// Reachability extends across one more edge at the end of a chain.
pub proof fn lemma_reaches_step(es: Set<(u64, u64)>, a: u64, b: u64, c: u64)
    requires
        reaches(es, a, b),
        es.contains((b, c)),
    ensures
        reaches(es, a, c),
{
    let p = choose|p: Seq<u64>|
        p.len() >= 1 && p[0] == a && p[p.len() - 1] == b && #[trigger] is_chain(es, p);
    let q = p.push(c);
    assert forall|k: int| #![trigger q[k]] 0 <= k < q.len() - 1 implies es.contains(
        (q[k], q[k + 1]),
    ) by {
        if k < p.len() - 1 {
            assert(q[k] == p[k] && q[k + 1] == p[k + 1]);
        } else {
            assert(q[k] == p[p.len() - 1] && q[k + 1] == c);
        }
    }
    assert(q.len() >= 1 && q[0] == a && q[q.len() - 1] == c && is_chain(es, q));
}

/// Reachability extends across one more edge at the front of a chain.
pub proof fn lemma_reaches_pre_step(es: Set<(u64, u64)>, a: u64, b: u64, c: u64)
    requires
        es.contains((a, b)),
        reaches(es, b, c),
    ensures
        reaches(es, a, c),
{
    let p = choose|p: Seq<u64>|
        p.len() >= 1 && p[0] == b && p[p.len() - 1] == c && #[trigger] is_chain(es, p);
    let q = seq![a] + p;
    assert forall|k: int| #![trigger q[k]] 0 <= k < q.len() - 1 implies es.contains(
        (q[k], q[k + 1]),
    ) by {
        if k == 0 {
            assert(q[0] == a && q[1] == p[0]);
        } else {
            assert(q[k] == p[k - 1] && q[k + 1] == p[k]);
        }
    }
    assert(q.len() >= 1 && q[0] == a && q[q.len() - 1] == c && is_chain(es, q));
}

/// A chain that starts inside a forward-closed set ends inside it.
proof fn lemma_chain_in_closed_fwd(es: Set<(u64, u64)>, vs: Set<u64>, p: Seq<u64>)
    requires
        p.len() >= 1,
        is_chain(es, p),
        vs.contains(p[0]),
        closed_fwd(es, vs),
    ensures
        vs.contains(p[p.len() - 1]),
    decreases p.len(),
{
    if p.len() > 1 {
        assert(es.contains((p[0], p[1])));
        assert(vs.contains(p[1]));
        let q = p.subrange(1, p.len() as int);
        assert forall|k: int| #![trigger q[k]] 0 <= k < q.len() - 1 implies es.contains(
        (q[k], q[k + 1]),
    ) by {
            assert(q[k] == p[k + 1] && q[k + 1] == p[k + 2]);
        }
        lemma_chain_in_closed_fwd(es, vs, q);
        assert(q[q.len() - 1] == p[p.len() - 1]);
    }
}

/// A forward-closed set that holds `start` holds everything reachable
/// from `start`.
pub proof fn lemma_closed_fwd_reach(es: Set<(u64, u64)>, vs: Set<u64>, start: u64, g: u64)
    requires
        vs.contains(start),
        closed_fwd(es, vs),
        reaches(es, start, g),
    ensures
        vs.contains(g),
{
    let p = choose|p: Seq<u64>|
        p.len() >= 1 && p[0] == start && p[p.len() - 1] == g && #[trigger] is_chain(es, p);
    lemma_chain_in_closed_fwd(es, vs, p);
}

/// A chain that ends inside a backward-closed set starts inside it.
proof fn lemma_chain_in_closed_rev(es: Set<(u64, u64)>, vs: Set<u64>, p: Seq<u64>)
    requires
        p.len() >= 1,
        is_chain(es, p),
        vs.contains(p[p.len() - 1]),
        closed_rev(es, vs),
    ensures
        vs.contains(p[0]),
    decreases p.len(),
{
    if p.len() > 1 {
        assert(es.contains((p[p.len() - 2], p[p.len() - 1])));
        assert(vs.contains(p[p.len() - 2]));
        let q = p.drop_last();
        assert forall|k: int| #![trigger q[k]] 0 <= k < q.len() - 1 implies es.contains(
        (q[k], q[k + 1]),
    ) by {
            assert(q[k] == p[k] && q[k + 1] == p[k + 1]);
        }
        lemma_chain_in_closed_rev(es, vs, q);
    }
}

/// A backward-closed set that holds `start` holds everything that
/// reaches `start`.
pub proof fn lemma_closed_rev_reach(es: Set<(u64, u64)>, vs: Set<u64>, start: u64, g: u64)
    requires
        vs.contains(start),
        closed_rev(es, vs),
        reaches(es, g, start),
    ensures
        vs.contains(g),
{
    let p = choose|p: Seq<u64>|
        p.len() >= 1 && p[0] == g && p[p.len() - 1] == start && #[trigger] is_chain(es, p);
    lemma_chain_in_closed_rev(es, vs, p);
}

/// Pushing onto a sequence keeps its elements, adds the new one, and
/// keeps distinctness when the new element is new.
pub proof fn lemma_push_facts<A>(s: Seq<A>, x: A)
    ensures
        forall|y: A| s.contains(y) ==> #[trigger] s.push(x).contains(y),
        s.push(x).contains(x),
        forall|y: A| #[trigger] s.push(x).contains(y) ==> s.contains(y) || y == x,
        !s.contains(x) && s.no_duplicates() ==> s.push(x).no_duplicates(),
{
    assert forall|y: A| s.contains(y) implies #[trigger] s.push(x).contains(y) by {
        let i = choose|i: int| 0 <= i < s.len() && s[i] == y;
        assert(s.push(x)[i] == y);
    }
    assert(s.push(x)[s.len() as int] == x);
    assert forall|y: A| #[trigger] s.push(x).contains(y) implies s.contains(y) || y == x by {
        let i = choose|i: int| 0 <= i < s.push(x).len() && s.push(x)[i] == y;
        if i < s.len() {
            assert(s[i] == y);
        }
    }
    if !s.contains(x) && s.no_duplicates() {
        assert forall|i: int, j: int|
            0 <= i < s.push(x).len() && 0 <= j < s.push(x).len() && i != j
            implies s.push(x)[i] != s.push(x)[j] by {
            if i < s.len() && j < s.len() {
                assert(s.push(x)[i] == s[i] && s.push(x)[j] == s[j]);
            } else if j == s.len() {
                assert(s.push(x)[i] == s[i]);
                if s[i] == x {
                    assert(s.contains(x));
                }
            } else {
                assert(s.push(x)[j] == s[j]);
                if s[j] == x {
                    assert(s.contains(x));
                }
            }
        }
    }
}

/// Every identifier the traversal can ever visit: the start and the
/// endpoints of the edge list.
pub open spec fn node_bound(links: Seq<(u64, u64)>, start: u64) -> Set<u64> {
    Set::new(
        |x: u64|
            x == start || exists|j: int|
                0 <= j < links.len() && ((#[trigger] links[j]).0 == x || links[j].1 == x),
    )
}

/// The visitable identifiers are finite: at most both endpoints of every
/// edge, and the start.
pub proof fn lemma_node_bound_len(links: Seq<(u64, u64)>, start: u64)
    ensures
        node_bound(links, start).finite(),
        node_bound(links, start).len() <= 2 * links.len() + 1,
{
    broadcast use vstd::seq_lib::seq_to_set_is_finite;

    let froms = links.map_values(|e: (u64, u64)| e.0);
    let tos = links.map_values(|e: (u64, u64)| e.1);
    let b = froms.to_set().union(tos.to_set()).insert(start);
    assert(node_bound(links, start) =~= b) by {
        assert forall|x: u64| node_bound(links, start).contains(x) implies b.contains(x) by {
            if x != start {
                let j = choose|j: int|
                    0 <= j < links.len() && ((#[trigger] links[j]).0 == x || links[j].1 == x);
                if links[j].0 == x {
                    assert(froms[j] == x);
                    assert(froms.contains(x));
                } else {
                    assert(tos[j] == x);
                    assert(tos.contains(x));
                }
            }
        }
        assert forall|x: u64| b.contains(x) implies node_bound(links, start).contains(x) by {
            if x != start {
                if froms.to_set().contains(x) {
                    let j = choose|j: int| 0 <= j < froms.len() && froms[j] == x;
                    assert(links[j].0 == x);
                } else {
                    let j = choose|j: int| 0 <= j < tos.len() && tos[j] == x;
                    assert(links[j].1 == x);
                }
            }
        }
    }
    froms.lemma_cardinality_of_set();
    tos.lemma_cardinality_of_set();
    lemma_len_union(froms.to_set(), tos.to_set());
}

/// Whether `x` occurs in the vector.
pub fn contains_id(v: &Vec<u64>, x: u64) -> (r: bool)
    ensures
        r == v@.contains(x),
{
    let mut i: usize = 0;
    while i < v.len()
        invariant
            i <= v@.len(),
            forall|k: int| 0 <= k < i ==> v@[k] != x,
        decreases v@.len() - i,
    {
        if v[i] == x {
            return true;
        }
        i += 1;
    }
    false
}

/// Whether some edge of the list leads from a member of `sources` into
/// `target`.
pub fn edge_into_from(links: &Vec<(u64, u64)>, sources: &Vec<u64>, target: u64) -> (r: bool)
    ensures
        r == exists|j: int|
            0 <= j < links@.len() && (#[trigger] links@[j]).1 == target
                && sources@.contains(links@[j].0),
{
    let mut j: usize = 0;
    while j < links.len()
        invariant
            j <= links@.len(),
            forall|k: int| 0 <= k < j
                ==> !((#[trigger] links@[k]).1 == target && sources@.contains(links@[k].0)),
        decreases links@.len() - j,
    {
        if links[j].1 == target {
            if contains_id(sources, links[j].0) {
                proof {
                    assert(links@[j as int].1 == target
                        && sources@.contains(links@[j as int].0));
                }
                return true;
            }
        }
        j += 1;
    }
    false
}

/// Whether the edge `(a, b)` occurs in the edge list.
pub fn contains_pair(v: &Vec<(u64, u64)>, a: u64, b: u64) -> (r: bool)
    ensures
        r == v@.contains((a, b)),
{
    let mut i: usize = 0;
    while i < v.len()
        invariant
            i <= v@.len(),
            forall|k: int| 0 <= k < i ==> v@[k] != (a, b),
        decreases v@.len() - i,
    {
        if v[i].0 == a && v[i].1 == b {
            assert(v@[i as int] == (a, b));
            return true;
        }
        i += 1;
    }
    false
}

/// The distinct sequence fits inside the finite bound set.
proof fn lemma_visited_bound(visited: Seq<u64>, links: Seq<(u64, u64)>, start: u64)
    requires
        visited.no_duplicates(),
        forall|k: int| 0 <= k < visited.len()
            ==> node_bound(links, start).contains(#[trigger] visited[k]),
    ensures
        visited.len() <= 2 * links.len() + 1,
{
    visited.unique_seq_to_set();
    lemma_node_bound_len(links, start);
    assert forall|x: u64| visited.to_set().contains(x)
        implies node_bound(links, start).contains(x) by {
        let k = choose|k: int| 0 <= k < visited.len() && visited[k] == x;
        assert(node_bound(links, start).contains(visited[k]));
    }
    assert(visited.to_set().subset_of(node_bound(links, start)));
    lemma_len_subset(visited.to_set(), node_bound(links, start));
}

/// Collects every identifier reachable from `start` along the edges,
/// following them forward. The worklist holds every visited identifier;
/// identifiers before the cursor have had their outgoing edges expanded.
pub fn reach_fwd(links: &Vec<(u64, u64)>, start: u64) -> (r: Vec<u64>)
    ensures
        r@.no_duplicates(),
        r@.to_set() == reach_set(links@.to_set(), start),
{
    let ghost es = links@.to_set();
    let mut visited: Vec<u64> = Vec::new();
    visited.push(start);
    proof {
        lemma_reaches_refl(es, start);
    }
    let mut i: usize = 0;
    while i < visited.len()
        invariant
            i <= visited@.len(),
            1 <= visited@.len() <= 2 * links@.len() + 1,
            visited@.no_duplicates(),
            visited@[0] == start,
            forall|k: int| 0 <= k < visited@.len()
                ==> reaches(es, start, #[trigger] visited@[k]),
            forall|k: int| 0 <= k < visited@.len()
                ==> node_bound(links@, start).contains(#[trigger] visited@[k]),
            forall|k: int, j: int|
                #![trigger visited@[k], links@[j]]
                0 <= k < i && 0 <= j < links@.len() && links@[j].0 == visited@[k]
                    ==> visited@.contains(links@[j].1),
            es == links@.to_set(),
        decreases 2 * links@.len() + 1 - visited@.len(), visited@.len() - i,
    {
        let cur = visited[i];
        let ghost len0 = visited@.len();
        let mut j: usize = 0;
        while j < links.len()
            invariant
                j <= links@.len(),
                i < visited@.len(),
                len0 <= visited@.len() <= 2 * links@.len() + 1,
                visited@[i as int] == cur,
                visited@.no_duplicates(),
                visited@[0] == start,
                forall|k: int| 0 <= k < visited@.len()
                    ==> reaches(es, start, #[trigger] visited@[k]),
                forall|k: int| 0 <= k < visited@.len()
                    ==> node_bound(links@, start).contains(#[trigger] visited@[k]),
                forall|k: int, jj: int|
                    #![trigger visited@[k], links@[jj]]
                    0 <= k < i && 0 <= jj < links@.len() && links@[jj].0 == visited@[k]
                        ==> visited@.contains(links@[jj].1),
                forall|jj: int| 0 <= jj < j && (#[trigger] links@[jj]).0 == cur
                    ==> visited@.contains(links@[jj].1),
                es == links@.to_set(),
            decreases links@.len() - j,
        {
            if links[j].0 == cur {
                let b = links[j].1;
                if !contains_id(&visited, b) {
                    proof {
                        assert(links@[j as int] == (cur, b));
                        assert(es.contains((cur, b)));
                        lemma_reaches_step(es, start, cur, b);
                        lemma_push_facts(visited@, b);
                        lemma_visited_bound(visited@.push(b), links@, start);
                    }
                    visited.push(b);
                }
            }
            j += 1;
        }
        i += 1;
    }
    proof {
        let vs = visited@.to_set();
        assert(vs.contains(start)) by {
            assert(visited@[0] == start);
        }
        assert(closed_fwd(es, vs)) by {
            assert forall|a: u64, b: u64|
                #[trigger] vs.contains(a) && #[trigger] es.contains((a, b))
                implies vs.contains(b) by {
                let k = choose|k: int| 0 <= k < visited@.len() && visited@[k] == a;
                let jj = choose|jj: int| 0 <= jj < links@.len() && links@[jj] == (a, b);
                assert(links@[jj].0 == visited@[k]);
                assert(visited@.contains(links@[jj].1));
            }
        }
        assert(vs =~= reach_set(es, start)) by {
            assert forall|g: u64| reach_set(es, start).contains(g) implies vs.contains(g) by {
                lemma_closed_fwd_reach(es, vs, start, g);
            }
            assert forall|g: u64| vs.contains(g) implies reach_set(es, start).contains(g) by {
                let k = choose|k: int| 0 <= k < visited@.len() && visited@[k] == g;
                assert(reaches(es, start, visited@[k]));
            }
        }
    }
    visited
}

/// Collects every identifier that reaches `start` along the edges,
/// following them backward.
pub fn reach_rev(links: &Vec<(u64, u64)>, start: u64) -> (r: Vec<u64>)
    ensures
        r@.no_duplicates(),
        r@.to_set() == co_reach_set(links@.to_set(), start),
{
    let ghost es = links@.to_set();
    let mut visited: Vec<u64> = Vec::new();
    visited.push(start);
    proof {
        lemma_reaches_refl(es, start);
    }
    let mut i: usize = 0;
    while i < visited.len()
        invariant
            i <= visited@.len(),
            1 <= visited@.len() <= 2 * links@.len() + 1,
            visited@.no_duplicates(),
            visited@[0] == start,
            forall|k: int| 0 <= k < visited@.len()
                ==> reaches(es, #[trigger] visited@[k], start),
            forall|k: int| 0 <= k < visited@.len()
                ==> node_bound(links@, start).contains(#[trigger] visited@[k]),
            forall|k: int, j: int|
                #![trigger visited@[k], links@[j]]
                0 <= k < i && 0 <= j < links@.len() && links@[j].1 == visited@[k]
                    ==> visited@.contains(links@[j].0),
            es == links@.to_set(),
        decreases 2 * links@.len() + 1 - visited@.len(), visited@.len() - i,
    {
        let cur = visited[i];
        let ghost len0 = visited@.len();
        let mut j: usize = 0;
        while j < links.len()
            invariant
                j <= links@.len(),
                i < visited@.len(),
                len0 <= visited@.len() <= 2 * links@.len() + 1,
                visited@[i as int] == cur,
                visited@.no_duplicates(),
                visited@[0] == start,
                forall|k: int| 0 <= k < visited@.len()
                    ==> reaches(es, #[trigger] visited@[k], start),
                forall|k: int| 0 <= k < visited@.len()
                    ==> node_bound(links@, start).contains(#[trigger] visited@[k]),
                forall|k: int, jj: int|
                    #![trigger visited@[k], links@[jj]]
                    0 <= k < i && 0 <= jj < links@.len() && links@[jj].1 == visited@[k]
                        ==> visited@.contains(links@[jj].0),
                forall|jj: int| 0 <= jj < j && (#[trigger] links@[jj]).1 == cur
                    ==> visited@.contains(links@[jj].0),
                es == links@.to_set(),
            decreases links@.len() - j,
        {
            if links[j].1 == cur {
                let a = links[j].0;
                if !contains_id(&visited, a) {
                    proof {
                        assert(links@[j as int] == (a, cur));
                        assert(es.contains((a, cur)));
                        lemma_reaches_pre_step(es, a, cur, start);
                        lemma_push_facts(visited@, a);
                        lemma_visited_bound(visited@.push(a), links@, start);
                    }
                    visited.push(a);
                }
            }
            j += 1;
        }
        i += 1;
    }
    proof {
        let vs = visited@.to_set();
        assert(vs.contains(start)) by {
            assert(visited@[0] == start);
        }
        assert(closed_rev(es, vs)) by {
            assert forall|a: u64, b: u64|
                #[trigger] vs.contains(b) && #[trigger] es.contains((a, b))
                implies vs.contains(a) by {
                let k = choose|k: int| 0 <= k < visited@.len() && visited@[k] == b;
                let jj = choose|jj: int| 0 <= jj < links@.len() && links@[jj] == (a, b);
                assert(links@[jj].1 == visited@[k]);
                assert(visited@.contains(links@[jj].0));
            }
        }
        assert(vs =~= co_reach_set(es, start)) by {
            assert forall|g: u64| co_reach_set(es, start).contains(g) implies vs.contains(g) by {
                lemma_closed_rev_reach(es, vs, start, g);
            }
            assert forall|g: u64| vs.contains(g) implies co_reach_set(es, start).contains(g) by {
                let k = choose|k: int| 0 <= k < visited@.len() && visited@[k] == g;
                assert(reaches(es, visited@[k], start));
            }
        }
    }
    visited
}

} // verus!
