//! The laws of the engine, stated and proved over the abstract model.

use vstd::prelude::*;

use crate::model::fwd_of;
use crate::model::represents_links;
use crate::model::represents_mains;
use crate::model::represents_registry;
use crate::model::rev_of;
use crate::model::StoreView;
use crate::store::lemma_assoc_mains;
use crate::store::lemma_assoc_reg;
use crate::store::mains_map_of;
use crate::store::reg_map_of;
use crate::store::FFFC;

verus! {

/// No self-loops: after any sequence of operations the store is
/// well-formed, and a well-formed store's edge set never joins a group
/// to itself.
pub proof fn lemma_no_self_loops(s: FFFC)
    requires
        s.wf(),
    ensures
        forall|e: (u64, u64)| #[trigger] s@.edges.contains(e) ==> e.0 != e.1,
{
    s.lemma_wf_inv();
}

/// No dead identifiers: a well-formed store registers every part under a
/// live group, and its main designations and edges name live groups only.
pub proof fn lemma_only_live_groups(s: FFFC)
    requires
        s.wf(),
    ensures
        forall|e: (u64, u64)| #[trigger] s@.edges.contains(e) ==> s@.live(e.0) && s@.live(e.1),
        forall|id: u64| #[trigger] s@.mains.dom().contains(id) ==> s@.live(id),
{
    s.lemma_wf_inv();
}

/// No duplicate edges: the edge set is a set at the abstract level, and
/// a links table representing it — such as the one `serialize` returns —
/// never holds two identical rows.
pub proof fn lemma_no_duplicate_edges(rows: Seq<(u64, u64)>, es: Set<(u64, u64)>)
    requires
        represents_links(rows, es),
    ensures
        forall|i: int, j: int| 0 <= i < j < rows.len() ==> rows[i] != rows[j],
{
}

/// Index symmetry: the forward and reverse link indices are both views
/// of the one edge set, so an edge stands under its source in the
/// forward index exactly when its source stands under its target in the
/// reverse index.
pub proof fn lemma_index_symmetry(es: Set<(u64, u64)>, a: u64, b: u64)
    ensures
        fwd_of(es, a).contains(b) <==> rev_of(es, b).contains(a),
{
}

/// Union correctness: after a bidirectional relation between `pn1` and
/// `pn2`, both part numbers are registered and resolve to one group.
pub proof fn lemma_add_bw_unions(s: StoreView, pn1: Seq<char>, pn2: Seq<char>)
    ensures
        s.add_bw_spec(pn1, pn2).registry.dom().contains(pn1),
        s.add_bw_spec(pn1, pn2).registry.dom().contains(pn2),
        s.add_bw_spec(pn1, pn2).registry[pn1] == s.add_bw_spec(pn1, pn2).registry[pn2],
{
    let t = s.add_bw_spec(pn1, pn2);
    if s.registry.dom().contains(pn1) {
        let anchor = s.registry[pn1];
        if s.registry.dom().contains(pn2) {
            if s.registry[pn2] != anchor {
                assert(t.registry[pn2] == anchor);
                assert(t.registry[pn1] == anchor);
            }
        }
    } else if s.registry.dom().contains(pn2) {
        let anchor = s.registry[pn2];
        if s.registry[pn1] != anchor {
            assert(t.registry[pn1] == anchor);
            assert(t.registry[pn2] == anchor);
        }
    } else {
        let s1 = s.add_part_spec(pn1);
        assert(s1.registry[pn1] == s.next_id as u64);
    }
}

/// Idempotence: a second identical bidirectional relation leaves the
/// whole abstract state exactly as the first left it.
pub proof fn lemma_add_bw_idempotent(s: StoreView, pn1: Seq<char>, pn2: Seq<char>)
    ensures
        s.add_bw_spec(pn1, pn2).add_bw_spec(pn1, pn2) == s.add_bw_spec(pn1, pn2),
{
    let t = s.add_bw_spec(pn1, pn2);
    lemma_add_bw_unions(s, pn1, pn2);
    assert(t.add_bw_spec(pn1, pn2) == t.fold_spec(t.registry[pn1], pn2));
}

/// The group rows, with distinct part numbers and no reserved
/// identifier, loaded into a store with an empty registry, register
/// exactly the rows; the main and edge indices are untouched.
proof fn lemma_load_groups_empty(t: StoreView, g: Seq<(Seq<char>, u64)>)
    requires
        t.registry == Map::<Seq<char>, u64>::empty(),
        forall|i: int, j: int| 0 <= i < j < g.len()
            ==> (#[trigger] g[i]).0 != (#[trigger] g[j]).0,
        forall|i: int| 0 <= i < g.len() ==> (#[trigger] g[i]).1 != u64::MAX,
    ensures
        t.load_groups_spec(g).registry == reg_map_of(g),
        t.load_groups_spec(g).mains == t.mains,
        t.load_groups_spec(g).edges == t.edges,
    decreases g.len(),
{
    if g.len() == 0 {
        assert(reg_map_of(g) =~= t.registry);
    } else {
        let d = g.drop_last();
        lemma_load_groups_empty(t, d);
        let td = t.load_groups_spec(d);
        lemma_assoc_reg(d);
        assert(!td.registry.dom().contains(g.last().0)) by {
            if td.registry.dom().contains(g.last().0) {
                let i = choose|i: int| 0 <= i < d.len() && (#[trigger] d[i]).0 == g.last().0;
                assert(g[i].0 == g.last().0);
            }
        }
        assert(t.load_groups_spec(g).registry == td.registry.insert(g.last().0, g.last().1));
    }
}

/// The main rows, with distinct identifiers all live in `t` and none
/// designated yet, loaded into a store without mains, designate exactly
/// the rows; the registry and the edges are untouched.
proof fn lemma_load_mains_empty(t: StoreView, m: Seq<(Seq<char>, u64)>)
    requires
        t.mains == Map::<u64, Seq<char>>::empty(),
        forall|i: int, j: int| 0 <= i < j < m.len()
            ==> (#[trigger] m[i]).1 != (#[trigger] m[j]).1,
        forall|i: int| 0 <= i < m.len() ==> t.live((#[trigger] m[i]).1),
    ensures
        t.load_mains_spec(m).mains == mains_map_of(
            m.map_values(|e: (Seq<char>, u64)| (e.1, e.0)),
        ),
        t.load_mains_spec(m).registry == t.registry,
        t.load_mains_spec(m).edges == t.edges,
        t.load_mains_spec(m).next_id == t.next_id,
    decreases m.len(),
{
    let sw = m.map_values(|e: (Seq<char>, u64)| (e.1, e.0));
    if m.len() == 0 {
        assert(mains_map_of(sw) =~= t.mains);
    } else {
        let d = m.drop_last();
        lemma_load_mains_empty(t, d);
        let td = t.load_mains_spec(d);
        let swd = d.map_values(|e: (Seq<char>, u64)| (e.1, e.0));
        assert(sw.drop_last() =~= swd);
        assert(sw.last() == (m.last().1, m.last().0));
        // the last identifier is live and not designated yet
        assert(td.live(m.last().1)) by {
            let pn = choose|pn: Seq<char>|
                #[trigger] t.registry.dom().contains(pn) && t.registry[pn] == m.last().1;
        }
        lemma_assoc_mains(swd);
        assert(!td.mains.dom().contains(m.last().1)) by {
            if td.mains.dom().contains(m.last().1) {
                let i = choose|i: int| 0 <= i < swd.len() && (#[trigger] swd[i]).0 == m.last().1;
                assert(swd[i] == (m[i].1, m[i].0));
                assert(m[i].1 == m.last().1);
            }
        }
        assert(t.load_mains_spec(m).mains == td.mains.insert(m.last().1, m.last().0));
        assert(mains_map_of(sw) == mains_map_of(swd).insert(m.last().1, m.last().0));
    }
}

/// The link rows, distinct, loop-free and with endpoints live in `t`,
/// loaded into a store without edges, insert exactly the rows; the
/// registry and the mains are untouched.
proof fn lemma_load_links_empty(t: StoreView, l: Seq<(u64, u64)>)
    requires
        t.edges == Set::<(u64, u64)>::empty(),
        l.no_duplicates(),
        forall|i: int| 0 <= i < l.len()
            ==> (#[trigger] l[i]).0 != l[i].1 && t.live(l[i].0) && t.live(l[i].1),
    ensures
        t.load_links_spec(l).edges == l.to_set(),
        t.load_links_spec(l).registry == t.registry,
        t.load_links_spec(l).mains == t.mains,
        t.load_links_spec(l).next_id == t.next_id,
    decreases l.len(),
{
    if l.len() == 0 {
        assert(l.to_set() =~= t.edges);
    } else {
        let d = l.drop_last();
        lemma_load_links_empty(t, d);
        let td = t.load_links_spec(d);
        let last = l.last();
        assert(td.live(last.0)) by {
            let pn = choose|pn: Seq<char>|
                #[trigger] t.registry.dom().contains(pn) && t.registry[pn] == last.0;
        }
        assert(td.live(last.1)) by {
            let pn = choose|pn: Seq<char>|
                #[trigger] t.registry.dom().contains(pn) && t.registry[pn] == last.1;
        }
        assert(!td.edges.contains(last)) by {
            if d.to_set().contains(last) {
                let i = choose|i: int| 0 <= i < d.len() && d[i] == last;
                assert(l[i] == l[l.len() - 1]);
            }
        }
        assert(t.load_links_spec(l).edges == td.edges.insert(last));
        assert(l =~= d.push(last));
        d.lemma_push_to_set_commute(last);
    }
}

/// Round trip: saving a store's three tables and loading them into an
/// empty store rebuilds the same registry, the same main designations
/// and the same edge set.
pub proof fn lemma_round_trip(
    s: StoreView,
    g: Seq<(Seq<char>, u64)>,
    m: Seq<(Seq<char>, u64)>,
    l: Seq<(u64, u64)>,
)
    requires
        s.inv(),
        represents_registry(g, s.registry),
        represents_mains(m, s.mains),
        represents_links(l, s.edges),
    ensures
        StoreView::empty().load_spec(g, m, l).registry == s.registry,
        StoreView::empty().load_spec(g, m, l).mains == s.mains,
        StoreView::empty().load_spec(g, m, l).edges == s.edges,
{
    let t0 = StoreView::empty();
    assert(t0.registry =~= Map::<Seq<char>, u64>::empty());
    assert(t0.mains =~= Map::<u64, Seq<char>>::empty());
    assert(t0.edges =~= Set::<(u64, u64)>::empty());
    // the groups table rebuilds the registry
    assert forall|i: int| 0 <= i < g.len() implies (#[trigger] g[i]).1 != u64::MAX by {
        assert(s.registry.dom().contains(g[i].0) && s.registry[g[i].0] == g[i].1);
        assert(g[i].1 < s.next_id);
    }
    lemma_load_groups_empty(t0, g);
    lemma_assoc_reg(g);
    let t1 = t0.load_groups_spec(g);
    assert(t1.registry =~= s.registry) by {
        assert forall|pn: Seq<char>| #[trigger] s.registry.dom().contains(pn)
            implies reg_map_of(g).dom().contains(pn) && reg_map_of(g)[pn] == s.registry[pn] by {
            let i = choose|i: int| 0 <= i < g.len() && #[trigger] g[i] == (pn, s.registry[pn]);
            assert(reg_map_of(g)[g[i].0] == g[i].1);
        }
        assert forall|pn: Seq<char>| #[trigger] reg_map_of(g).dom().contains(pn)
            implies s.registry.dom().contains(pn) by {
            let i = choose|i: int| 0 <= i < g.len() && (#[trigger] g[i]).0 == pn;
        }
    }
    // liveness agrees between the rebuilt and the saved store
    assert forall|id: u64| #[trigger] s.live(id) implies t1.live(id) by {
        let pn = choose|pn: Seq<char>|
            #[trigger] s.registry.dom().contains(pn) && s.registry[pn] == id;
        assert(t1.registry.dom().contains(pn) && t1.registry[pn] == id);
    }
    // the mains table rebuilds the designations
    assert(forall|i: int| 0 <= i < m.len() ==> t1.live((#[trigger] m[i]).1));
    lemma_load_mains_empty(t1, m);
    let t2 = t1.load_mains_spec(m);
    let sw = m.map_values(|e: (Seq<char>, u64)| (e.1, e.0));
    lemma_assoc_mains(sw);
    assert(forall|i: int| 0 <= i < sw.len() ==> (#[trigger] sw[i]) == (m[i].1, m[i].0));
    assert(t2.mains =~= s.mains) by {
        assert forall|id: u64| #[trigger] s.mains.dom().contains(id)
            implies mains_map_of(sw).dom().contains(id)
                && mains_map_of(sw)[id] == s.mains[id] by {
            let i = choose|i: int| 0 <= i < m.len() && #[trigger] m[i] == (s.mains[id], id);
            assert(sw[i] == (id, s.mains[id]));
            assert(mains_map_of(sw)[sw[i].0] == sw[i].1);
        }
        assert forall|id: u64| #[trigger] mains_map_of(sw).dom().contains(id)
            implies s.mains.dom().contains(id) by {
            let i = choose|i: int| 0 <= i < sw.len() && (#[trigger] sw[i]).0 == id;
            assert(m[i].1 == id);
        }
    }
    // the links table rebuilds the edge set
    assert forall|i: int| 0 <= i < l.len()
        implies (#[trigger] l[i]).0 != l[i].1 && t2.live(l[i].0) && t2.live(l[i].1) by {
        assert(l.to_set().contains(l[i]));
        assert(s.edges.contains(l[i]));
        let pn0 = choose|pn: Seq<char>|
            #[trigger] s.registry.dom().contains(pn) && s.registry[pn] == l[i].0;
        let pn1 = choose|pn: Seq<char>|
            #[trigger] s.registry.dom().contains(pn) && s.registry[pn] == l[i].1;
        assert(t2.registry.dom().contains(pn0) && t2.registry[pn0] == l[i].0);
        assert(t2.registry.dom().contains(pn1) && t2.registry[pn1] == l[i].1);
    }
    lemma_load_links_empty(t2, l);
}

} // verus!
