//! The grouping and linking engine.
//!
//! `FFFC` clusters part numbers into groups and keeps directed links
//! between groups. Its concrete state is a set of association vectors: the
//! registry mapping part numbers to group identifiers, the main part of
//! each group, the edge list, and the counter from which fresh group
//! identifiers are minted. The member list of a group is derived from the
//! registry, so a part number can never sit in two groups at once, and the
//! forward and reverse link indices are both derived from the one edge
//! list, so they can never disagree.
//!
//! Every operation's contract equates the new abstract state (`self@`, a
//! `StoreView`) with a transition function of `crate::model`.

use vstd::prelude::*;
use vstd::string::StringExecFns;

use crate::model::fwd_of;
use crate::model::represents_links;
use crate::model::represents_mains;
use crate::model::represents_registry;
use crate::model::rev_of;
use crate::model::StoreView;
use crate::reach::co_reach_set;
use crate::reach::collapse_set;
use crate::reach::contains_id;
use crate::reach::contains_pair;
use crate::reach::edge_into_from;
use crate::reach::lemma_push_facts;
use crate::reach::lemma_reaches_plus_equiv;
use crate::reach::reach_fwd;
use crate::reach::reach_rev;
use crate::reach::reach_set;
use crate::reach::reaches;
use crate::reach::reaches_plus;

verus! {

/// The part-number rows of the registry, with string views taken.
pub open spec fn lookup_rows(v: Seq<(String, u64)>) -> Seq<(Seq<char>, u64)> {
    v.map_values(|e: (String, u64)| (e.0@, e.1))
}

/// The main rows of the group store, with string views taken.
pub open spec fn main_rows(v: Seq<(u64, String)>) -> Seq<(u64, Seq<char>)> {
    v.map_values(|e: (u64, String)| (e.0, e.1@))
}

/// The map an association sequence denotes; a later row wins.
pub open spec fn reg_map_of(rows: Seq<(Seq<char>, u64)>) -> Map<Seq<char>, u64>
    decreases rows.len(),
{
    if rows.len() == 0 {
        Map::empty()
    } else {
        reg_map_of(rows.drop_last()).insert(rows.last().0, rows.last().1)
    }
}

/// The map an association sequence denotes; a later row wins.
pub open spec fn mains_map_of(rows: Seq<(u64, Seq<char>)>) -> Map<u64, Seq<char>>
    decreases rows.len(),
{
    if rows.len() == 0 {
        Map::empty()
    } else {
        mains_map_of(rows.drop_last()).insert(rows.last().0, rows.last().1)
    }
}

/// The relation records, with string views taken.
pub open spec fn rel_rows(v: Seq<(String, String, u8)>) -> Seq<(Seq<char>, Seq<char>, u8)> {
    v.map_values(|e: (String, String, u8)| (e.0@, e.1@, e.2))
}

/// Some skipped-row index equals `j`.
pub open spec fn skipped_has(sk: Seq<usize>, j: int) -> bool {
    exists|k: int| 0 <= k < sk.len() && (#[trigger] sk[k]) as int == j
}

/// Some registry row among the first `n` registers `pn` under `id`.
pub open spec fn member_entry(lk: Seq<(String, u64)>, n: int, pn: Seq<char>, id: u64) -> bool {
    exists|j: int| 0 <= j < n && (#[trigger] lk[j]).0@ == pn && lk[j].1 == id
}

/// Some registry row carries the group identifier `id`.
pub open spec fn has_id(v: Seq<(String, u64)>, id: u64) -> bool {
    exists|i: int| 0 <= i < v.len() && (#[trigger] v[i]).1 == id
}

/// An association sequence with distinct keys denotes the map whose
/// entries are exactly its rows.
pub proof fn lemma_assoc_reg(rows: Seq<(Seq<char>, u64)>)
    requires
        forall|i: int, j: int| 0 <= i < j < rows.len()
            ==> (#[trigger] rows[i]).0 != (#[trigger] rows[j]).0,
    ensures
        forall|i: int| 0 <= i < rows.len()
            ==> reg_map_of(rows).dom().contains((#[trigger] rows[i]).0)
                && reg_map_of(rows)[rows[i].0] == rows[i].1,
        forall|pn: Seq<char>| #[trigger] reg_map_of(rows).dom().contains(pn)
            ==> exists|i: int| 0 <= i < rows.len() && (#[trigger] rows[i]).0 == pn,
    decreases rows.len(),
{
    if rows.len() > 0 {
        let d = rows.drop_last();
        lemma_assoc_reg(d);
        assert forall|i: int| 0 <= i < rows.len()
            implies reg_map_of(rows).dom().contains((#[trigger] rows[i]).0)
                && reg_map_of(rows)[rows[i].0] == rows[i].1 by {
            if i < rows.len() - 1 {
                assert(d[i] == rows[i]);
                assert(rows[i].0 != rows.last().0);
            }
        }
        assert forall|pn: Seq<char>| #[trigger] reg_map_of(rows).dom().contains(pn)
            implies exists|i: int| 0 <= i < rows.len() && (#[trigger] rows[i]).0 == pn by {
            if pn != rows.last().0 {
                assert(reg_map_of(d).dom().contains(pn));
                let i = choose|i: int| 0 <= i < d.len() && (#[trigger] d[i]).0 == pn;
                assert(rows[i].0 == pn);
            } else {
                assert(rows[rows.len() - 1].0 == pn);
            }
        }
    }
}

/// An association sequence with distinct keys denotes the map whose
/// entries are exactly its rows.
pub proof fn lemma_assoc_mains(rows: Seq<(u64, Seq<char>)>)
    requires
        forall|i: int, j: int| 0 <= i < j < rows.len()
            ==> (#[trigger] rows[i]).0 != (#[trigger] rows[j]).0,
    ensures
        forall|i: int| 0 <= i < rows.len()
            ==> mains_map_of(rows).dom().contains((#[trigger] rows[i]).0)
                && mains_map_of(rows)[rows[i].0] == rows[i].1,
        forall|id: u64| #[trigger] mains_map_of(rows).dom().contains(id)
            ==> exists|i: int| 0 <= i < rows.len() && (#[trigger] rows[i]).0 == id,
    decreases rows.len(),
{
    if rows.len() > 0 {
        let d = rows.drop_last();
        lemma_assoc_mains(d);
        assert forall|i: int| 0 <= i < rows.len()
            implies mains_map_of(rows).dom().contains((#[trigger] rows[i]).0)
                && mains_map_of(rows)[rows[i].0] == rows[i].1 by {
            if i < rows.len() - 1 {
                assert(d[i] == rows[i]);
                assert(rows[i].0 != rows.last().0);
            }
        }
        assert forall|id: u64| #[trigger] mains_map_of(rows).dom().contains(id)
            implies exists|i: int| 0 <= i < rows.len() && (#[trigger] rows[i]).0 == id by {
            if id != rows.last().0 {
                assert(mains_map_of(d).dom().contains(id));
                let i = choose|i: int| 0 <= i < d.len() && (#[trigger] d[i]).0 == id;
                assert(rows[i].0 == id);
            } else {
                assert(rows[rows.len() - 1].0 == id);
            }
        }
    }
}

/// Redirecting every row value through a merge yields the redirected map.
proof fn lemma_reg_redirect(
    rows: Seq<(Seq<char>, u64)>,
    rows2: Seq<(Seq<char>, u64)>,
    vset: Set<u64>,
    anchor: u64,
)
    requires
        rows2.len() == rows.len(),
        forall|k: int| 0 <= k < rows.len()
            ==> (#[trigger] rows2[k]).0 == rows[k].0
                && rows2[k].1 == StoreView::redirect(rows[k].1, vset, anchor),
    ensures
        reg_map_of(rows2) == Map::new(
            |pn: Seq<char>| reg_map_of(rows).dom().contains(pn),
            |pn: Seq<char>| StoreView::redirect(reg_map_of(rows)[pn], vset, anchor),
        ),
    decreases rows.len(),
{
    let target = Map::new(
        |pn: Seq<char>| reg_map_of(rows).dom().contains(pn),
        |pn: Seq<char>| StoreView::redirect(reg_map_of(rows)[pn], vset, anchor),
    );
    if rows.len() == 0 {
        assert(reg_map_of(rows2) =~= target);
    } else {
        let d = rows.drop_last();
        let d2 = rows2.drop_last();
        assert(forall|k: int| 0 <= k < d.len() ==> #[trigger] d2[k] == rows2[k] && d[k] == rows[k]);
        lemma_reg_redirect(d, d2, vset, anchor);
        assert(rows2.last().0 == rows.last().0
            && rows2.last().1 == StoreView::redirect(rows.last().1, vset, anchor));
        assert(reg_map_of(rows2) =~= target);
    }
}

/// The subsequence of main rows whose group survives a merge.
pub open spec fn filter_mains(rows: Seq<(u64, String)>, vset: Set<u64>) -> Seq<(u64, String)>
    decreases rows.len(),
{
    if rows.len() == 0 {
        rows
    } else if vset.contains(rows.last().0) {
        filter_mains(rows.drop_last(), vset)
    } else {
        filter_mains(rows.drop_last(), vset).push(rows.last())
    }
}

/// Dropping the main rows of merged-away groups yields the restricted
/// map, keeps the remaining rows' keys distinct and outside the victim
/// set, and keeps every remaining row a row of the original.
proof fn lemma_mains_filter(rows: Seq<(u64, String)>, vset: Set<u64>)
    requires
        forall|i: int, j: int| 0 <= i < j < rows.len()
            ==> (#[trigger] rows[i]).0 != (#[trigger] rows[j]).0,
    ensures
        mains_map_of(main_rows(filter_mains(rows, vset))) == Map::new(
            |id: u64| mains_map_of(main_rows(rows)).dom().contains(id) && !vset.contains(id),
            |id: u64| mains_map_of(main_rows(rows))[id],
        ),
        forall|i: int, j: int| 0 <= i < j < filter_mains(rows, vset).len()
            ==> (#[trigger] filter_mains(rows, vset)[i]).0
                != (#[trigger] filter_mains(rows, vset)[j]).0,
        forall|k: int| 0 <= k < filter_mains(rows, vset).len()
            ==> !vset.contains((#[trigger] filter_mains(rows, vset)[k]).0)
                && exists|j: int| 0 <= j < rows.len()
                    && filter_mains(rows, vset)[k] == #[trigger] rows[j],
    decreases rows.len(),
{
    let f = filter_mains(rows, vset);
    let target = Map::new(
        |id: u64| mains_map_of(main_rows(rows)).dom().contains(id) && !vset.contains(id),
        |id: u64| mains_map_of(main_rows(rows))[id],
    );
    if rows.len() == 0 {
        assert(main_rows(rows) =~= Seq::<(u64, Seq<char>)>::empty());
        assert(main_rows(f) =~= Seq::<(u64, Seq<char>)>::empty());
        assert(mains_map_of(main_rows(f)) =~= target);
    } else {
        let d = rows.drop_last();
        let last = rows.last();
        lemma_mains_filter(d, vset);
        let fd = filter_mains(d, vset);
        assert(main_rows(rows).drop_last() =~= main_rows(d));
        assert(main_rows(rows).last() == (last.0, last.1@));
        assert(mains_map_of(main_rows(rows))
            == mains_map_of(main_rows(d)).insert(last.0, last.1@));
        if vset.contains(last.0) {
            assert(f == fd);
            assert(mains_map_of(main_rows(f)) =~= target);
        } else {
            assert(f == fd.push(last));
            assert(main_rows(f) =~= main_rows(fd).push((last.0, last.1@)));
            assert(main_rows(f).drop_last() =~= main_rows(fd));
            assert(mains_map_of(main_rows(f))
                == mains_map_of(main_rows(fd)).insert(last.0, last.1@));
            assert(mains_map_of(main_rows(f)) =~= target) by {
                assert forall|id: u64| target.dom().contains(id) && id != last.0
                    implies mains_map_of(main_rows(fd)).dom().contains(id)
                        && mains_map_of(main_rows(fd))[id] == target[id] by {
                    assert(mains_map_of(main_rows(rows))[id] == mains_map_of(main_rows(d))[id]);
                }
            }
            // the pushed key is distinct from every kept key of the prefix
            assert forall|i: int, j: int| 0 <= i < j < f.len()
                implies (#[trigger] f[i]).0 != (#[trigger] f[j]).0 by {
                if j == f.len() - 1 {
                    assert(f[i] == fd[i]);
                    let jj = choose|jj: int| 0 <= jj < d.len() && fd[i] == #[trigger] d[jj];
                    assert(rows[jj] == d[jj]);
                    assert(rows[jj].0 != last.0);
                } else {
                    assert(f[i] == fd[i] && f[j] == fd[j]);
                }
            }
            assert forall|k: int| 0 <= k < f.len()
                implies !vset.contains((#[trigger] f[k]).0)
                    && exists|j: int| 0 <= j < rows.len() && f[k] == #[trigger] rows[j] by {
                if k < f.len() - 1 {
                    assert(f[k] == fd[k]);
                    let jj = choose|jj: int| 0 <= jj < d.len() && fd[k] == #[trigger] d[jj];
                    assert(f[k] == rows[jj]);
                } else {
                    assert(f[k] == rows[rows.len() - 1]);
                }
            }
        }
    }
}

/// The redirected, de-looped edge set of the first `n` edge rows.
pub open spec fn redirected_prefix(
    l: Seq<(u64, u64)>,
    n: int,
    vset: Set<u64>,
    anchor: u64,
) -> Set<(u64, u64)> {
    Set::new(
        |e: (u64, u64)|
            e.0 != e.1 && exists|j: int|
                0 <= j < n && StoreView::redirect((#[trigger] l[j]).0, vset, anchor) == e.0
                    && StoreView::redirect(l[j].1, vset, anchor) == e.1,
    )
}

/// Taking one more edge row into the redirected prefix adds its
/// redirected edge, unless that edge is a self-loop.
proof fn lemma_redirected_prefix_step(l: Seq<(u64, u64)>, n: int, vset: Set<u64>, anchor: u64)
    requires
        0 <= n < l.len(),
    ensures
        StoreView::redirect(l[n].0, vset, anchor) != StoreView::redirect(l[n].1, vset, anchor)
            ==> redirected_prefix(l, n + 1, vset, anchor) == redirected_prefix(
                l,
                n,
                vset,
                anchor,
            ).insert(
                (
                    StoreView::redirect(l[n].0, vset, anchor),
                    StoreView::redirect(l[n].1, vset, anchor),
                ),
            ),
        StoreView::redirect(l[n].0, vset, anchor) == StoreView::redirect(l[n].1, vset, anchor)
            ==> redirected_prefix(l, n + 1, vset, anchor) == redirected_prefix(l, n, vset, anchor),
{
    let a2 = StoreView::redirect(l[n].0, vset, anchor);
    let b2 = StoreView::redirect(l[n].1, vset, anchor);
    if a2 != b2 {
        assert(redirected_prefix(l, n + 1, vset, anchor)
            =~= redirected_prefix(l, n, vset, anchor).insert((a2, b2))) by {
            assert forall|e: (u64, u64)|
                redirected_prefix(l, n + 1, vset, anchor).contains(e)
                implies redirected_prefix(l, n, vset, anchor).insert((a2, b2)).contains(e) by {
                let j = choose|j: int|
                    0 <= j < n + 1 && StoreView::redirect((#[trigger] l[j]).0, vset, anchor) == e.0
                        && StoreView::redirect(l[j].1, vset, anchor) == e.1;
                if j < n {
                    assert(redirected_prefix(l, n, vset, anchor).contains(e));
                } else {
                    assert(e == (a2, b2));
                }
            }
            assert forall|e: (u64, u64)|
                redirected_prefix(l, n, vset, anchor).insert((a2, b2)).contains(e)
                implies redirected_prefix(l, n + 1, vset, anchor).contains(e) by {
                if redirected_prefix(l, n, vset, anchor).contains(e) {
                    let j = choose|j: int|
                        0 <= j < n && StoreView::redirect((#[trigger] l[j]).0, vset, anchor) == e.0
                            && StoreView::redirect(l[j].1, vset, anchor) == e.1;
                    assert(0 <= j < n + 1 && StoreView::redirect(l[j].0, vset, anchor) == e.0
                        && StoreView::redirect(l[j].1, vset, anchor) == e.1);
                } else {
                    assert(StoreView::redirect(l[n].0, vset, anchor) == e.0
                        && StoreView::redirect(l[n].1, vset, anchor) == e.1);
                }
            }
        }
    } else {
        assert(redirected_prefix(l, n + 1, vset, anchor)
            =~= redirected_prefix(l, n, vset, anchor)) by {
            assert forall|e: (u64, u64)|
                redirected_prefix(l, n + 1, vset, anchor).contains(e)
                implies redirected_prefix(l, n, vset, anchor).contains(e) by {
                let j = choose|j: int|
                    0 <= j < n + 1 && StoreView::redirect((#[trigger] l[j]).0, vset, anchor) == e.0
                        && StoreView::redirect(l[j].1, vset, anchor) == e.1;
                assert(j < n);
            }
            assert forall|e: (u64, u64)|
                redirected_prefix(l, n, vset, anchor).contains(e)
                implies redirected_prefix(l, n + 1, vset, anchor).contains(e) by {
                let j = choose|j: int|
                    0 <= j < n && StoreView::redirect((#[trigger] l[j]).0, vset, anchor) == e.0
                        && StoreView::redirect(l[j].1, vset, anchor) == e.1;
                assert(0 <= j < n + 1 && StoreView::redirect(l[j].0, vset, anchor) == e.0
                    && StoreView::redirect(l[j].1, vset, anchor) == e.1);
            }
        }
    }
}

/// A one-element sequence converts to the one-element set.
proof fn lemma_singleton_set(v: Seq<u64>, x: u64)
    requires
        v.len() == 1,
        v[0] == x,
    ensures
        v.to_set() == set![x],
{
    assert forall|y: u64| v.to_set().contains(y) implies set![x].contains(y) by {
        let k = choose|k: int| 0 <= k < v.len() && v[k] == y;
        assert(k == 0);
    }
    assert(v.contains(x));
    assert(v.to_set() =~= set![x]);
}

/// The engine: registry, main designations, directed links, and the
/// identifier counter.
pub struct FFFC {
    /// One row per registered part number: the part and its group.
    lookup: Vec<(String, u64)>,
    /// One row per group with a designated main part.
    mains: Vec<(u64, String)>,
    /// One row per live directed edge between groups.
    links: Vec<(u64, u64)>,
    /// Identifiers below this value have been minted already.
    next_id: u64,
}

impl View for FFFC {
    type V = StoreView;

    closed spec fn view(&self) -> StoreView {
        StoreView {
            registry: reg_map_of(lookup_rows(self.lookup@)),
            mains: mains_map_of(main_rows(self.mains@)),
            edges: self.links@.to_set(),
            next_id: self.next_id as int,
        }
    }
}

impl FFFC {
    /// The structural invariant of the store: registry keys are distinct,
    /// main designations name distinct live groups, the edge list holds no
    /// duplicate and no self-loop and touches only live groups, and every
    /// minted identifier lies below the counter.
    pub closed spec fn wf(self) -> bool {
        &&& forall|i: int, j: int| 0 <= i < j < self.lookup@.len()
            ==> (#[trigger] self.lookup@[i]).0@ != (#[trigger] self.lookup@[j]).0@
        &&& forall|i: int, j: int| 0 <= i < j < self.mains@.len()
            ==> (#[trigger] self.mains@[i]).0 != (#[trigger] self.mains@[j]).0
        &&& self.links@.no_duplicates()
        &&& forall|i: int| 0 <= i < self.links@.len()
            ==> (#[trigger] self.links@[i]).0 != self.links@[i].1
                && has_id(self.lookup@, self.links@[i].0)
                && has_id(self.lookup@, self.links@[i].1)
        &&& forall|i: int| 0 <= i < self.mains@.len()
            ==> has_id(self.lookup@, (#[trigger] self.mains@[i]).0)
        &&& forall|i: int| 0 <= i < self.lookup@.len()
            ==> (#[trigger] self.lookup@[i]).1 < self.next_id
    }

    /// How the abstract maps correspond to the concrete rows of a
    /// well-formed store.
    proof fn lemma_bridge(self)
        requires
            self.wf(),
        ensures
            forall|i: int| 0 <= i < self.lookup@.len()
                ==> self@.registry.dom().contains((#[trigger] self.lookup@[i]).0@)
                    && self@.registry[self.lookup@[i].0@] == self.lookup@[i].1,
            forall|pn: Seq<char>| #[trigger] self@.registry.dom().contains(pn)
                ==> exists|i: int| 0 <= i < self.lookup@.len()
                    && (#[trigger] self.lookup@[i]).0@ == pn,
            forall|id: u64| self@.live(id) <==> has_id(self.lookup@, id),
            forall|i: int| 0 <= i < self.mains@.len()
                ==> self@.mains.dom().contains((#[trigger] self.mains@[i]).0)
                    && self@.mains[self.mains@[i].0] == self.mains@[i].1@,
            forall|id: u64| #[trigger] self@.mains.dom().contains(id)
                ==> exists|i: int| 0 <= i < self.mains@.len()
                    && (#[trigger] self.mains@[i]).0 == id,
    {
        let rows = lookup_rows(self.lookup@);
        assert(forall|i: int, j: int| 0 <= i < j < rows.len()
            ==> (#[trigger] rows[i]).0 != (#[trigger] rows[j]).0) by {
            assert(forall|i: int| 0 <= i < rows.len()
                ==> (#[trigger] rows[i]) == (self.lookup@[i].0@, self.lookup@[i].1));
        }
        lemma_assoc_reg(rows);
        assert forall|i: int| 0 <= i < self.lookup@.len()
            implies self@.registry.dom().contains((#[trigger] self.lookup@[i]).0@)
                && self@.registry[self.lookup@[i].0@] == self.lookup@[i].1 by {
            assert(rows[i] == (self.lookup@[i].0@, self.lookup@[i].1));
        }
        assert forall|pn: Seq<char>| #[trigger] self@.registry.dom().contains(pn)
            implies exists|i: int| 0 <= i < self.lookup@.len()
                && (#[trigger] self.lookup@[i]).0@ == pn by {
            let i = choose|i: int| 0 <= i < rows.len() && (#[trigger] rows[i]).0 == pn;
            assert(rows[i] == (self.lookup@[i].0@, self.lookup@[i].1));
            assert(self.lookup@[i].0@ == pn);
        }
        assert forall|id: u64| self@.live(id) implies has_id(self.lookup@, id) by {
            if self@.live(id) {
                let pn = choose|pn: Seq<char>|
                    #[trigger] self@.registry.dom().contains(pn) && self@.registry[pn] == id;
                let i = choose|i: int| 0 <= i < self.lookup@.len()
                    && (#[trigger] self.lookup@[i]).0@ == pn;
                assert(self.lookup@[i].1 == id);
            }
        }
        assert forall|id: u64| has_id(self.lookup@, id) implies self@.live(id) by {
            if has_id(self.lookup@, id) {
                let i = choose|i: int| 0 <= i < self.lookup@.len()
                    && (#[trigger] self.lookup@[i]).1 == id;
                assert(self@.registry.dom().contains(self.lookup@[i].0@)
                    && self@.registry[self.lookup@[i].0@] == id);
            }
        }
        let mrows = main_rows(self.mains@);
        assert(forall|i: int, j: int| 0 <= i < j < mrows.len()
            ==> (#[trigger] mrows[i]).0 != (#[trigger] mrows[j]).0) by {
            assert(forall|i: int| 0 <= i < mrows.len()
                ==> (#[trigger] mrows[i]) == (self.mains@[i].0, self.mains@[i].1@));
        }
        lemma_assoc_mains(mrows);
        assert forall|i: int| 0 <= i < self.mains@.len()
            implies self@.mains.dom().contains((#[trigger] self.mains@[i]).0)
                && self@.mains[self.mains@[i].0] == self.mains@[i].1@ by {
            assert(mrows[i] == (self.mains@[i].0, self.mains@[i].1@));
        }
        assert forall|id: u64| #[trigger] self@.mains.dom().contains(id)
            implies exists|i: int| 0 <= i < self.mains@.len()
                && (#[trigger] self.mains@[i]).0 == id by {
            let i = choose|i: int| 0 <= i < mrows.len() && (#[trigger] mrows[i]).0 == id;
            assert(mrows[i] == (self.mains@[i].0, self.mains@[i].1@));
            assert(self.mains@[i].0 == id);
        }
    }

    /// A well-formed store's abstract state satisfies the abstract
    /// invariant: no self-loops, no dead identifier under any index, and
    /// every identifier below the counter.
    pub proof fn lemma_wf_inv(self)
        requires
            self.wf(),
        ensures
            self@.inv(),
    {
        self.lemma_bridge();
        assert forall|e: (u64, u64)| #[trigger] self@.edges.contains(e)
            implies e.0 != e.1 && self@.live(e.0) && self@.live(e.1) by {
            let i = choose|i: int| 0 <= i < self.links@.len() && self.links@[i] == e;
            assert(self.links@[i].0 != self.links@[i].1);
            assert(has_id(self.lookup@, self.links@[i].0));
            assert(has_id(self.lookup@, self.links@[i].1));
        }
        assert forall|pn: Seq<char>| #[trigger] self@.registry.dom().contains(pn)
            implies self@.registry[pn] < self@.next_id by {
            let i = choose|i: int| 0 <= i < self.lookup@.len()
                && (#[trigger] self.lookup@[i]).0@ == pn;
            assert(self@.registry[pn] == self.lookup@[i].1);
        }
    }

    /// A store with nothing in it.
    pub fn new() -> (r: FFFC)
        ensures
            r.wf(),
            r@ == StoreView::empty(),
    {
        let r = FFFC { lookup: Vec::new(), mains: Vec::new(), links: Vec::new(), next_id: 0 };
        proof {
            assert(r.links@.to_set() =~= Set::<(u64, u64)>::empty());
            assert(lookup_rows(r.lookup@) =~= Seq::<(Seq<char>, u64)>::empty());
            assert(main_rows(r.mains@) =~= Seq::<(u64, Seq<char>)>::empty());
            assert(r@ =~= StoreView::empty());
        }
        r
    }

    /// Registers `pn`: a no-op returning its group when it is already
    /// known, otherwise a fresh singleton group with `pn` as its main.
    pub fn add_part(&mut self, pn: &str) -> (id: u64)
        requires
            old(self).wf(),
            old(self)@.next_id < u64::MAX,
        ensures
            final(self).wf(),
            final(self)@ == old(self)@.add_part_spec(pn@),
            id == old(self)@.part_id(pn@),
    {
        let key = String::from_str(pn);
        proof {
            self.lemma_bridge();
        }
        match find_part(&self.lookup, &key) {
            Some(i) => {
                let id = self.lookup[i].1;
                proof {
                    assert(self@.registry.dom().contains(pn@));
                    assert(self@.registry[pn@] == id);
                }
                id
            },
            None => {
                proof {
                    assert(!self@.registry.dom().contains(pn@));
                }
                let id = self.next_id;
                let key2 = key.clone();
                self.lookup.push((key, id));
                self.mains.push((id, key2));
                self.next_id = id + 1;
                proof {
                    let v0 = old(self).lookup@;
                    let m0 = old(self).mains@;
                    assert(lookup_rows(self.lookup@)
                        =~= lookup_rows(v0).push((pn@, id)));
                    assert(lookup_rows(self.lookup@).drop_last() =~= lookup_rows(v0));
                    assert(main_rows(self.mains@) =~= main_rows(m0).push((id, pn@)));
                    assert(main_rows(self.mains@).drop_last() =~= main_rows(m0));
                    assert(self@ =~= old(self)@.add_part_spec(pn@));
                    // distinctness of the new registry key
                    assert forall|i: int, j: int| 0 <= i < j < self.lookup@.len()
                        implies (#[trigger] self.lookup@[i]).0@
                            != (#[trigger] self.lookup@[j]).0@ by {
                        if j == self.lookup@.len() - 1 {
                            assert(self.lookup@[i] == v0[i]);
                            assert(self.lookup@[j].0@ == pn@);
                        } else {
                            assert(self.lookup@[i] == v0[i] && self.lookup@[j] == v0[j]);
                        }
                    }
                    // distinctness of the new main identifier
                    assert forall|i: int, j: int| 0 <= i < j < self.mains@.len()
                        implies (#[trigger] self.mains@[i]).0
                            != (#[trigger] self.mains@[j]).0 by {
                        if j == self.mains@.len() - 1 {
                            assert(self.mains@[i] == m0[i]);
                            assert(has_id(v0, m0[i].0));
                            let k = choose|k: int| 0 <= k < v0.len()
                                && (#[trigger] v0[k]).1 == m0[i].0;
                            assert(v0[k].1 < old(self).next_id);
                        } else {
                            assert(self.mains@[i] == m0[i] && self.mains@[j] == m0[j]);
                        }
                    }
                    // liveness witnesses survive the push
                    assert forall|x: u64| has_id(v0, x) implies has_id(self.lookup@, x) by {
                        let k = choose|k: int| 0 <= k < v0.len() && (#[trigger] v0[k]).1 == x;
                        assert(self.lookup@[k].1 == x);
                    }
                    assert(has_id(self.lookup@, id)) by {
                        assert(self.lookup@[self.lookup@.len() - 1].1 == id);
                    }
                    assert(self.wf());
                }
                id
            },
        }
    }

    /// Merges every group in `victims` into `anchor`: registry rows are
    /// redirected, victim main designations are dropped, and incident
    /// edges are redirected, dropping self-loops and duplicates.
    fn merge_into(&mut self, anchor: u64, victims: &Vec<u64>)
        requires
            old(self).wf(),
            old(self)@.live(anchor),
        ensures
            final(self).wf(),
            final(self)@ == old(self)@.merge_spec(anchor, victims@.to_set()),
    {
        proof {
            self.lemma_bridge();
        }
        let ghost s0 = self@;
        let ghost vset = victims@.to_set();
        let ghost v0 = self.lookup@;
        let ghost m0 = self.mains@;
        let ghost l0 = self.links@;

        let mut new_lookup: Vec<(String, u64)> = Vec::new();
        let mut i: usize = 0;
        while i < self.lookup.len()
            invariant
                self.lookup@ == v0,
                i <= v0.len(),
                new_lookup@.len() == i,
                forall|k: int| 0 <= k < i
                    ==> (#[trigger] new_lookup@[k]).0@ == v0[k].0@
                        && new_lookup@[k].1 == StoreView::redirect(v0[k].1, vset, anchor),
                vset == victims@.to_set(),
            decreases v0.len() - i,
        {
            let p = &self.lookup[i];
            let hit = contains_id(victims, p.1);
            let id2 = if hit {
                anchor
            } else {
                p.1
            };
            new_lookup.push((p.0.clone(), id2));
            i += 1;
        }

        let mut new_mains: Vec<(u64, String)> = Vec::new();
        let mut i2: usize = 0;
        while i2 < self.mains.len()
            invariant
                self.mains@ == m0,
                i2 <= m0.len(),
                new_mains@ == filter_mains(m0.subrange(0, i2 as int), vset),
                vset == victims@.to_set(),
            decreases m0.len() - i2,
        {
            let p = &self.mains[i2];
            let hit = contains_id(victims, p.0);
            proof {
                assert(m0.subrange(0, i2 + 1) =~= m0.subrange(0, i2 as int).push(m0[i2 as int]));
                assert(m0.subrange(0, i2 + 1).drop_last() =~= m0.subrange(0, i2 as int));
            }
            if !hit {
                new_mains.push((p.0, p.1.clone()));
                proof {
                    assert(new_mains@.last() == m0[i2 as int]);
                    assert(new_mains@.drop_last() == filter_mains(m0.subrange(0, i2 as int), vset));
                    assert(new_mains@ =~= filter_mains(m0.subrange(0, i2 + 1), vset));
                }
            } else {
                proof {
                    assert(new_mains@ =~= filter_mains(m0.subrange(0, i2 + 1), vset));
                }
            }
            i2 += 1;
        }
        proof {
            assert(m0.subrange(0, m0.len() as int) =~= m0);
            assert(new_mains@ == filter_mains(m0, vset));
        }

        let mut new_links: Vec<(u64, u64)> = Vec::new();
        let mut i3: usize = 0;
        while i3 < self.links.len()
            invariant
                self.links@ == l0,
                i3 <= l0.len(),
                new_links@.no_duplicates(),
                new_links@.to_set() == redirected_prefix(l0, i3 as int, vset, anchor),
                forall|k: int| 0 <= k < new_links@.len()
                    ==> (#[trigger] new_links@[k]).0 != new_links@[k].1,
                vset == victims@.to_set(),
            decreases l0.len() - i3,
        {
            let e = self.links[i3];
            let ha = contains_id(victims, e.0);
            let hb = contains_id(victims, e.1);
            let a2 = if ha {
                anchor
            } else {
                e.0
            };
            let b2 = if hb {
                anchor
            } else {
                e.1
            };
            proof {
                assert(a2 == StoreView::redirect(l0[i3 as int].0, vset, anchor));
                assert(b2 == StoreView::redirect(l0[i3 as int].1, vset, anchor));
                lemma_redirected_prefix_step(l0, i3 as int, vset, anchor);
            }
            if a2 != b2 {
                let present = contains_pair(&new_links, a2, b2);
                if !present {
                    proof {
                        lemma_push_facts(new_links@, (a2, b2));
                        new_links@.lemma_push_to_set_commute((a2, b2));
                    }
                    new_links.push((a2, b2));
                    proof {
                        assert(new_links@.to_set()
                            == redirected_prefix(l0, i3 as int, vset, anchor).insert((a2, b2)));
                    }
                } else {
                    proof {
                        assert(redirected_prefix(l0, i3 as int, vset, anchor).insert((a2, b2))
                            =~= redirected_prefix(l0, i3 as int, vset, anchor));
                    }
                }
            }
            i3 += 1;
        }

        self.lookup = new_lookup;
        self.mains = new_mains;
        self.links = new_links;

        proof {
            let target = s0.merge_spec(anchor, vset);
            // registry
            let rows = lookup_rows(v0);
            let rows2 = lookup_rows(self.lookup@);
            assert(forall|k: int| 0 <= k < rows.len()
                ==> (#[trigger] rows2[k]).0 == rows[k].0
                    && rows2[k].1 == StoreView::redirect(rows[k].1, vset, anchor)) by {
                assert(forall|k: int| 0 <= k < rows.len()
                    ==> (#[trigger] rows2[k]) == (self.lookup@[k].0@, self.lookup@[k].1)
                        && (#[trigger] rows[k]) == (v0[k].0@, v0[k].1));
            }
            lemma_reg_redirect(rows, rows2, vset, anchor);
            // mains
            lemma_mains_filter(m0, vset);
            // edges: the redirected prefix of the whole list is the
            // redirected edge set of the old view
            assert(self.links@.to_set() =~= target.edges) by {
                assert forall|e: (u64, u64)| self.links@.to_set().contains(e)
                    implies target.edges.contains(e) by {
                    let j = choose|j: int|
                        0 <= j < l0.len()
                            && StoreView::redirect((#[trigger] l0[j]).0, vset, anchor) == e.0
                            && StoreView::redirect(l0[j].1, vset, anchor) == e.1;
                    assert(s0.edges.contains(l0[j]));
                }
                assert forall|e: (u64, u64)| target.edges.contains(e)
                    implies self.links@.to_set().contains(e) by {
                    let o = choose|o: (u64, u64)|
                        #[trigger] s0.edges.contains(o)
                            && StoreView::redirect(o.0, vset, anchor) == e.0
                            && StoreView::redirect(o.1, vset, anchor) == e.1;
                    let j = choose|j: int| 0 <= j < l0.len() && l0[j] == o;
                    assert(0 <= j < l0.len()
                        && StoreView::redirect(l0[j].0, vset, anchor) == e.0
                        && StoreView::redirect(l0[j].1, vset, anchor) == e.1);
                }
            }
            assert(self@ =~= target);

            // well-formedness of the merged store
            let w = self.lookup@;
            assert forall|x: u64| has_id(v0, x)
                implies has_id(w, StoreView::redirect(x, vset, anchor)) by {
                let k = choose|k: int| 0 <= k < v0.len() && (#[trigger] v0[k]).1 == x;
                assert(w[k].1 == StoreView::redirect(x, vset, anchor));
            }
            assert(has_id(v0, anchor));
            let ka = choose|k: int| 0 <= k < v0.len() && (#[trigger] v0[k]).1 == anchor;
            assert(v0[ka].1 < self.next_id);
            assert forall|i4: int, j4: int| 0 <= i4 < j4 < w.len()
                implies (#[trigger] w[i4]).0@ != (#[trigger] w[j4]).0@ by {
                assert(w[i4].0@ == v0[i4].0@ && w[j4].0@ == v0[j4].0@);
            }
            assert forall|k: int| 0 <= k < w.len() implies (#[trigger] w[k]).1 < self.next_id by {
                assert(v0[k].1 < self.next_id);
            }
            assert forall|k: int| 0 <= k < self.mains@.len()
                implies has_id(w, (#[trigger] self.mains@[k]).0) by {
                let j = choose|j: int| 0 <= j < m0.len() && self.mains@[k] == #[trigger] m0[j];
                assert(has_id(v0, m0[j].0));
                assert(StoreView::redirect(m0[j].0, vset, anchor) == m0[j].0);
            }
            assert forall|k: int| 0 <= k < self.links@.len()
                implies (#[trigger] self.links@[k]).0 != self.links@[k].1
                    && has_id(w, self.links@[k].0) && has_id(w, self.links@[k].1) by {
                assert(self.links@.to_set().contains(self.links@[k]));
                let e = self.links@[k];
                let j = choose|j: int|
                    0 <= j < l0.len()
                        && StoreView::redirect((#[trigger] l0[j]).0, vset, anchor) == e.0
                        && StoreView::redirect(l0[j].1, vset, anchor) == e.1;
                assert(has_id(v0, l0[j].0) && has_id(v0, l0[j].1));
            }
            assert(self.wf());
        }
    }

    /// Merges the group `discard` into the group `keep`, as one union
    /// step: members move to `keep`, `discard`'s main designation is
    /// dropped (the surviving group keeps its own main, if any; no
    /// re-election takes place), and every edge incident to `discard` is
    /// redirected to `keep`, dropping self-loops and duplicates.
    pub fn merge_groups(&mut self, keep: u64, discard: u64)
        requires
            old(self).wf(),
            old(self)@.live(keep),
            old(self)@.live(discard),
            keep != discard,
        ensures
            final(self).wf(),
            final(self)@ == old(self)@.merge_spec(keep, set![discard]),
    {
        let mut victims: Vec<u64> = Vec::new();
        victims.push(discard);
        self.merge_into(keep, &victims);
        proof {
            lemma_singleton_set(victims@, discard);
        }
    }

    /// Folds the part number `pn` into the live group `id`: an unknown
    /// part joins the group directly; a part registered under another
    /// group has that whole group merged into `id`.
    pub fn add_bw_by_id(&mut self, id: u64, pn: &str)
        requires
            old(self).wf(),
            old(self)@.live(id),
        ensures
            final(self).wf(),
            final(self)@ == old(self)@.fold_spec(id, pn@),
    {
        let key = String::from_str(pn);
        proof {
            self.lemma_bridge();
        }
        match find_part(&self.lookup, &key) {
            Some(i) => {
                let id_old = self.lookup[i].1;
                proof {
                    assert(self@.registry.dom().contains(pn@));
                    assert(self@.registry[pn@] == id_old);
                }
                if id_old != id {
                    let mut victims: Vec<u64> = Vec::new();
                    victims.push(id_old);
                    self.merge_into(id, &victims);
                    proof {
                        lemma_singleton_set(victims@, id_old);
                    }
                }
            },
            None => {
                proof {
                    assert(!self@.registry.dom().contains(pn@));
                }
                let ghost v0 = self.lookup@;
                self.lookup.push((key, id));
                proof {
                    assert(lookup_rows(self.lookup@) =~= lookup_rows(v0).push((pn@, id)));
                    assert(lookup_rows(self.lookup@).drop_last() =~= lookup_rows(v0));
                    assert(self@ =~= old(self)@.fold_spec(id, pn@));
                    assert forall|i: int, j: int| 0 <= i < j < self.lookup@.len()
                        implies (#[trigger] self.lookup@[i]).0@
                            != (#[trigger] self.lookup@[j]).0@ by {
                        if j == self.lookup@.len() - 1 {
                            assert(self.lookup@[i] == v0[i]);
                            assert(self.lookup@[j].0@ == pn@);
                        } else {
                            assert(self.lookup@[i] == v0[i] && self.lookup@[j] == v0[j]);
                        }
                    }
                    assert forall|x: u64| has_id(v0, x) implies has_id(self.lookup@, x) by {
                        let k = choose|k: int| 0 <= k < v0.len() && (#[trigger] v0[k]).1 == x;
                        assert(self.lookup@[k].1 == x);
                    }
                    assert(has_id(v0, id));
                    let ki = choose|k: int| 0 <= k < v0.len() && (#[trigger] v0[k]).1 == id;
                    assert(v0[ki].1 < self.next_id);
                    assert(self.wf());
                }
            },
        }
    }

    /// Declares `pn1` and `pn2` interchangeable: the group of whichever
    /// is registered first anchors, and the other part (with its whole
    /// group, if it has one) is folded into the anchor. Afterwards both
    /// parts are registered and resolve to the same group.
    pub fn add_bw(&mut self, pn1: &str, pn2: &str)
        requires
            old(self).wf(),
            old(self)@.next_id < u64::MAX,
        ensures
            final(self).wf(),
            final(self)@ == old(self)@.add_bw_spec(pn1@, pn2@),
            final(self)@.registry.dom().contains(pn1@),
            final(self)@.registry.dom().contains(pn2@),
            final(self)@.registry[pn1@] == final(self)@.registry[pn2@],
    {
        proof {
            self.lemma_bridge();
            crate::laws::lemma_add_bw_unions(old(self)@, pn1@, pn2@);
        }
        let key1 = String::from_str(pn1);
        let r1 = find_part(&self.lookup, &key1);
        match r1 {
            Some(i) => {
                let id1 = self.lookup[i].1;
                proof {
                    assert(self@.registry.dom().contains(pn1@));
                    assert(self@.registry[pn1@] == id1);
                    assert(self@.live(id1));
                }
                self.add_bw_by_id(id1, pn2);
            },
            None => {
                proof {
                    assert(!self@.registry.dom().contains(pn1@));
                }
                let key2 = String::from_str(pn2);
                let r2 = find_part(&self.lookup, &key2);
                match r2 {
                    Some(j) => {
                        let id2 = self.lookup[j].1;
                        proof {
                            assert(self@.registry.dom().contains(pn2@));
                            assert(self@.registry[pn2@] == id2);
                            assert(self@.live(id2));
                        }
                        self.add_bw_by_id(id2, pn1);
                    },
                    None => {
                        proof {
                            assert(!self@.registry.dom().contains(pn2@));
                        }
                        let id = self.add_part(pn1);
                        proof {
                            assert(self@.registry.dom().contains(pn1@));
                            assert(self@.registry[pn1@] == id);
                            assert(self@.live(id));
                        }
                        self.add_bw_by_id(id, pn2);
                    },
                }
            },
        }
    }

    /// Searches the forward link graph from `id` for an edge into
    /// `id_search`. The search succeeds only across one or more real
    /// edges, so asking about an identifier and itself answers whether
    /// its group lies on a cycle. On success, returns every group on
    /// some chain from `id` back to `id_search`, both endpoints
    /// included: the groups that form the cycle. A collapse merges all
    /// of them but its anchor, which survives. Returns nothing when no
    /// edge into `id_search` can be reached.
    pub fn get_circular_links(&self, id: u64, id_search: u64) -> (r: Option<Vec<u64>>)
        requires
            self.wf(),
        ensures
            match r {
                Some(v) => reaches_plus(self@.edges, id, id_search) && v@.no_duplicates()
                    && v@.to_set() == collapse_set(self@.edges, id_search, id),
                None => !reaches_plus(self@.edges, id, id_search),
            },
    {
        let ghost es = self@.edges;
        let fwd = reach_fwd(&self.links, id);
        let hit = edge_into_from(&self.links, &fwd, id_search);
        proof {
            // an edge into the target from a forward-reachable node is
            // exactly positive-length reachability
            if hit {
                let j = choose|j: int|
                    0 <= j < self.links@.len() && (#[trigger] self.links@[j]).1 == id_search
                        && fwd@.contains(self.links@[j].0);
                let c = self.links@[j].0;
                assert(fwd@.to_set().contains(c));
                assert(reaches(es, id, c));
                assert(self.links@.to_set().contains(self.links@[j]));
                assert(es.contains((c, id_search)));
                assert(reaches_plus(es, id, id_search));
            } else {
                if reaches_plus(es, id, id_search) {
                    let c = choose|c: u64|
                        reaches(es, id, c) && #[trigger] es.contains((c, id_search));
                    let j = choose|j: int|
                        0 <= j < self.links@.len() && self.links@[j] == (c, id_search);
                    assert(fwd@.to_set().contains(c));
                    assert(self.links@[j].1 == id_search && fwd@.contains(self.links@[j].0));
                }
            }
        }
        if !hit {
            None
        } else {
            let back = reach_rev(&self.links, id_search);
            let mut out: Vec<u64> = Vec::new();
            let mut i: usize = 0;
            while i < fwd.len()
                invariant
                    i <= fwd@.len(),
                    fwd@.no_duplicates(),
                    fwd@.to_set() == reach_set(es, id),
                    back@.to_set() == co_reach_set(es, id_search),
                    out@.no_duplicates(),
                    out@.to_set() == fwd@.take(i as int).to_set().intersect(back@.to_set()),
                    es == self@.edges,
                decreases fwd@.len() - i,
            {
                let g = fwd[i];
                proof {
                    assert(fwd@.take(i + 1) =~= fwd@.take(i as int).push(g));
                    fwd@.take(i as int).lemma_push_to_set_commute(g);
                }
                let inb = contains_id(&back, g);
                if inb {
                    proof {
                        assert(!out@.contains(g)) by {
                            if out@.contains(g) {
                                assert(out@.to_set().contains(g));
                                assert(fwd@.take(i as int).to_set().contains(g));
                                let k = choose|k: int|
                                    0 <= k < i && #[trigger] fwd@.take(i as int)[k] == g;
                                assert(fwd@[k] == g && fwd@[i as int] == g);
                            }
                        }
                        lemma_push_facts(out@, g);
                        out@.lemma_push_to_set_commute(g);
                    }
                    out.push(g);
                    proof {
                        assert(out@.to_set()
                            =~= fwd@.take(i + 1).to_set().intersect(back@.to_set()));
                    }
                } else {
                    proof {
                        assert(fwd@.take(i + 1).to_set().intersect(back@.to_set())
                            =~= fwd@.take(i as int).to_set().intersect(back@.to_set()));
                    }
                }
                i += 1;
            }
            proof {
                assert(fwd@.take(fwd@.len() as int) =~= fwd@);
                assert(out@.to_set() =~= collapse_set(es, id_search, id));
            }
            Some(out)
        }
    }

    /// Declares a directed relation from `pn_from`'s group to `pn_to`'s
    /// group, creating either part as needed. When the target's group
    /// already reaches the source's group, every other group on such a
    /// chain is collapsed into the source's group instead of inserting
    /// the edge; the source's group survives and keeps its own main
    /// designation, while the collapsed groups' mains are dropped.
    /// Otherwise the edge is inserted unless it is already present. A
    /// relation within a single group changes nothing.
    pub fn add_ow(&mut self, pn_from: &str, pn_to: &str)
        requires
            old(self).wf(),
            old(self)@.next_id + 2 <= u64::MAX,
        ensures
            final(self).wf(),
            final(self)@ == old(self)@.add_ow_spec(pn_from@, pn_to@),
    {
        let ghost s0 = self@;
        let ghost s1 = s0.add_part_spec(pn_from@);
        let ghost s2 = s1.add_part_spec(pn_to@);
        let f = self.add_part(pn_from);
        proof {
            assert(self@ == s1);
            assert(s1.registry.dom().contains(pn_from@) && s1.registry[pn_from@] == f);
        }
        let t = self.add_part(pn_to);
        proof {
            assert(self@ == s2);
            assert(s2.registry.dom().contains(pn_to@) && s2.registry[pn_to@] == t);
            assert(s2.registry.dom().contains(pn_from@) && s2.registry[pn_from@] == f);
            assert(self@.live(f));
            assert(self@.live(t));
        }
        if f == t {
            return;
        }
        let r = self.get_circular_links(t, f);
        proof {
            lemma_reaches_plus_equiv(s2.edges, t, f);
        }
        match r {
            Some(victims) => {
                // the source's group anchors the collapse and is no victim
                let mut others: Vec<u64> = Vec::new();
                let mut i: usize = 0;
                while i < victims.len()
                    invariant
                        i <= victims@.len(),
                        others@.to_set() == victims@.take(i as int).to_set().remove(f),
                    decreases victims@.len() - i,
                {
                    let v = victims[i];
                    proof {
                        assert(victims@.take(i + 1) =~= victims@.take(i as int).push(v));
                        victims@.take(i as int).lemma_push_to_set_commute(v);
                    }
                    if v != f {
                        proof {
                            others@.lemma_push_to_set_commute(v);
                        }
                        others.push(v);
                        proof {
                            assert(others@.to_set()
                                =~= victims@.take(i + 1).to_set().remove(f));
                        }
                    } else {
                        proof {
                            assert(victims@.take(i + 1).to_set().remove(f)
                                =~= victims@.take(i as int).to_set().remove(f));
                        }
                    }
                    i += 1;
                }
                proof {
                    assert(victims@.take(victims@.len() as int) =~= victims@);
                    assert(others@.to_set() == victims@.to_set().remove(f));
                }
                self.merge_into(f, &others);
            },
            None => {
                proof {
                    self.lemma_bridge();
                }
                let present = contains_pair(&self.links, f, t);
                let ghost l1 = self.links@;
                if !present {
                    proof {
                        lemma_push_facts(self.links@, (f, t));
                        self.links@.lemma_push_to_set_commute((f, t));
                    }
                    self.links.push((f, t));
                    proof {
                        assert(self@ =~= old(self)@.add_ow_spec(pn_from@, pn_to@));
                        assert forall|k: int| 0 <= k < self.links@.len()
                            implies (#[trigger] self.links@[k]).0 != self.links@[k].1
                                && has_id(self.lookup@, self.links@[k].0)
                                && has_id(self.lookup@, self.links@[k].1) by {
                            if k < self.links@.len() - 1 {
                                assert(self.links@[k] == l1[k]);
                            } else {
                                assert(self.links@[k] == (f, t));
                            }
                        }
                        assert(self.wf());
                    }
                } else {
                    proof {
                        assert(s2.edges.insert((f, t)) =~= s2.edges);
                        assert(self@ =~= old(self)@.add_ow_spec(pn_from@, pn_to@));
                    }
                }
            },
        }
    }

    /// Designates `pn` as the main part of the live group `id` and
    /// returns `id`; `pn` need not be a member. A dead identifier falls
    /// back to registering `pn` as a brand-new part, returning its group.
    pub fn set_main(&mut self, id: u64, pn: &str) -> (r: u64)
        requires
            old(self).wf(),
            old(self)@.next_id < u64::MAX,
        ensures
            final(self).wf(),
            final(self)@ == old(self)@.set_main_spec(id, pn@),
            r == old(self)@.set_main_ret(id, pn@),
    {
        proof {
            self.lemma_bridge();
        }
        let live = has_group(&self.lookup, id);
        if live {
            let key = String::from_str(pn);
            let ghost m0 = self.mains@;
            let r = find_main(&self.mains, id);
            match r {
                Some(j) => {
                    let _old_row = self.mains.remove(j);
                    self.mains.push((id, key));
                    proof {
                        let m1 = self.mains@;
                        assert(m1 =~= m0.remove(j as int).push((id, key)));
                        // the new rows still have distinct identifiers
                        assert forall|i2: int, j2: int| 0 <= i2 < j2 < m1.len()
                            implies (#[trigger] m1[i2]).0 != (#[trigger] m1[j2]).0 by {
                            if j2 < m1.len() - 1 {
                                if i2 < j && j2 < j {
                                    assert(m1[i2] == m0[i2] && m1[j2] == m0[j2]);
                                } else if i2 < j {
                                    assert(m1[i2] == m0[i2] && m1[j2] == m0[j2 + 1]);
                                } else {
                                    assert(m1[i2] == m0[i2 + 1] && m1[j2] == m0[j2 + 1]);
                                }
                            } else {
                                assert(m1[j2].0 == id);
                                if i2 < j {
                                    assert(m1[i2] == m0[i2]);
                                    assert(m0[i2].0 != m0[j as int].0);
                                } else {
                                    assert(m1[i2] == m0[i2 + 1]);
                                    assert(m0[i2 + 1].0 != m0[j as int].0);
                                }
                            }
                        }
                        // entries: every new row is an old row or the new main
                        assert forall|k: int| 0 <= k < m1.len()
                            implies (#[trigger] m1[k]) == (id, key)
                                || exists|k2: int| 0 <= k2 < m0.len() && m1[k] == #[trigger] m0[k2] by {
                            if k < m1.len() - 1 {
                                if k < j {
                                    assert(m1[k] == m0[k]);
                                } else {
                                    assert(m1[k] == m0[k + 1]);
                                }
                            }
                        }
                        // the denoted map is the old map with the main replaced
                        lemma_assoc_mains(main_rows(m0));
                        lemma_assoc_mains(main_rows(m1));
                        assert(forall|i2: int| 0 <= i2 < m0.len()
                            ==> (#[trigger] main_rows(m0)[i2]) == (m0[i2].0, m0[i2].1@));
                        assert(forall|i2: int| 0 <= i2 < m1.len()
                            ==> (#[trigger] main_rows(m1)[i2]) == (m1[i2].0, m1[i2].1@));
                        assert(mains_map_of(main_rows(m1))
                            =~= mains_map_of(main_rows(m0)).insert(id, pn@)) by {
                            assert forall|x: u64| mains_map_of(main_rows(m1)).dom().contains(x)
                                implies mains_map_of(main_rows(m0)).insert(id, pn@).dom().contains(
                                x,
                            ) && mains_map_of(main_rows(m1))[x] == mains_map_of(
                                main_rows(m0),
                            ).insert(id, pn@)[x] by {
                                let k = choose|k: int|
                                    0 <= k < main_rows(m1).len()
                                        && (#[trigger] main_rows(m1)[k]).0 == x;
                                assert(m1[k].0 == x);
                                assert(mains_map_of(main_rows(m1))[x] == m1[k].1@);
                                if x != id {
                                    let k2 = choose|k2: int|
                                        0 <= k2 < m0.len() && m1[k] == #[trigger] m0[k2];
                                    assert(main_rows(m0)[k2] == (m0[k2].0, m0[k2].1@));
                                    assert(mains_map_of(main_rows(m0))[x] == m0[k2].1@);
                                } else {
                                    assert(m1[k] == (id, key));
                                }
                            }
                            assert forall|x: u64|
                                mains_map_of(main_rows(m0)).insert(id, pn@).dom().contains(x)
                                implies mains_map_of(main_rows(m1)).dom().contains(x) by {
                                if x == id {
                                    assert(main_rows(m1)[m1.len() - 1].0 == id);
                                } else {
                                    let k2 = choose|k2: int|
                                        0 <= k2 < main_rows(m0).len()
                                            && (#[trigger] main_rows(m0)[k2]).0 == x;
                                    assert(m0[k2].0 == x);
                                    if k2 < j {
                                        assert(m1[k2] == m0[k2]);
                                        assert(main_rows(m1)[k2].0 == x);
                                    } else if k2 == j {
                                        assert(m0[j as int].0 == id);
                                    } else {
                                        assert(m1[k2 - 1] == m0[k2]);
                                        assert(main_rows(m1)[k2 - 1].0 == x);
                                    }
                                }
                            }
                        }
                        assert(self@ =~= old(self)@.set_main_spec(id, pn@));
                        // well-formedness: every main row names a live group
                        assert forall|k: int| 0 <= k < m1.len()
                            implies has_id(self.lookup@, (#[trigger] m1[k]).0) by {
                            if m1[k] == (id, key) {
                            } else {
                                let k2 = choose|k2: int|
                                    0 <= k2 < m0.len() && m1[k] == #[trigger] m0[k2];
                                assert(has_id(self.lookup@, m0[k2].0));
                            }
                        }
                        assert(self.wf());
                    }
                },
                None => {
                    let ghost m0b = self.mains@;
                    self.mains.push((id, key));
                    proof {
                        assert(main_rows(self.mains@) =~= main_rows(m0b).push((id, pn@)));
                        assert(main_rows(self.mains@).drop_last() =~= main_rows(m0b));
                        assert(self@ =~= old(self)@.set_main_spec(id, pn@));
                        assert forall|i2: int, j2: int| 0 <= i2 < j2 < self.mains@.len()
                            implies (#[trigger] self.mains@[i2]).0
                                != (#[trigger] self.mains@[j2]).0 by {
                            if j2 == self.mains@.len() - 1 {
                                assert(self.mains@[i2] == m0b[i2]);
                                assert(m0b[i2].0 != id);
                            } else {
                                assert(self.mains@[i2] == m0b[i2] && self.mains@[j2] == m0b[j2]);
                            }
                        }
                        assert forall|k: int| 0 <= k < self.mains@.len()
                            implies has_id(self.lookup@, (#[trigger] self.mains@[k]).0) by {
                            if k < self.mains@.len() - 1 {
                                assert(self.mains@[k] == m0b[k]);
                            }
                        }
                        assert(self.wf());
                    }
                },
            }
            id
        } else {
            let r = self.add_part(pn);
            proof {
                assert(!old(self)@.live(id));
            }
            r
        }
    }

    /// Whether `id` is the identifier of a live group.
    pub fn is_live(&self, id: u64) -> (r: bool)
        requires
            self.wf(),
        ensures
            r == self@.live(id),
    {
        proof {
            self.lemma_bridge();
        }
        has_group(&self.lookup, id)
    }

    /// The group a part number is registered under, if any.
    pub fn group_of(&self, pn: &str) -> (r: Option<u64>)
        requires
            self.wf(),
        ensures
            match r {
                Some(id) => self@.registry.dom().contains(pn@) && self@.registry[pn@] == id,
                None => !self@.registry.dom().contains(pn@),
            },
    {
        proof {
            self.lemma_bridge();
        }
        let key = String::from_str(pn);
        match find_part(&self.lookup, &key) {
            Some(i) => Some(self.lookup[i].1),
            None => None,
        }
    }

    /// The designated main part of a group, if any.
    pub fn main_of(&self, id: u64) -> (r: Option<String>)
        requires
            self.wf(),
        ensures
            match r {
                Some(m) => self@.mains.dom().contains(id) && self@.mains[id] == m@,
                None => !self@.mains.dom().contains(id),
            },
    {
        proof {
            self.lemma_bridge();
        }
        match find_main(&self.mains, id) {
            Some(i) => Some(self.mains[i].1.clone()),
            None => None,
        }
    }

    /// The member part numbers of a group: every part registered under it.
    #[verifier::rlimit(50)]
    pub fn members_of(&self, id: u64) -> (r: Vec<String>)
        requires
            self.wf(),
        ensures
            forall|k: int| 0 <= k < r@.len()
                ==> self@.registry.dom().contains((#[trigger] r@[k])@)
                    && self@.registry[r@[k]@] == id,
            forall|pn: Seq<char>| #[trigger] self@.members(id).contains(pn)
                ==> exists|k: int| 0 <= k < r@.len() && (#[trigger] r@[k])@ == pn,
            forall|k1: int, k2: int| 0 <= k1 < k2 < r@.len()
                ==> (#[trigger] r@[k1])@ != (#[trigger] r@[k2])@,
    {
        proof {
            self.lemma_bridge();
        }
        let mut out: Vec<String> = Vec::new();
        let mut i: usize = 0;
        while i < self.lookup.len()
            invariant
                self.wf(),
                i <= self.lookup@.len(),
                forall|k: int| 0 <= k < out@.len()
                    ==> member_entry(self.lookup@, i as int, (#[trigger] out@[k])@, id),
                forall|j: int| 0 <= j < i && (#[trigger] self.lookup@[j]).1 == id
                    ==> exists|k: int| 0 <= k < out@.len()
                        && (#[trigger] out@[k])@ == self.lookup@[j].0@,
                forall|k1: int, k2: int| 0 <= k1 < k2 < out@.len()
                    ==> (#[trigger] out@[k1])@ != (#[trigger] out@[k2])@,
            decreases self.lookup@.len() - i,
        {
            let p = &self.lookup[i];
            let matched = p.1 == id;
            let ghost o0 = out@;
            if matched {
                out.push(p.0.clone());
            }
            proof {
                if matched {
                    assert(out@[out@.len() - 1]@ == self.lookup@[i as int].0@);
                    assert(forall|k: int| 0 <= k < o0.len() ==> #[trigger] out@[k] == o0[k]);
                    assert forall|k1: int, k2: int| 0 <= k1 < k2 < out@.len()
                        implies (#[trigger] out@[k1])@ != (#[trigger] out@[k2])@ by {
                        if k2 == out@.len() - 1 {
                            assert(member_entry(self.lookup@, i as int, o0[k1]@, id));
                            let j = choose|j: int|
                                0 <= j < i && (#[trigger] self.lookup@[j]).0@ == o0[k1]@
                                    && self.lookup@[j].1 == id;
                            assert(self.lookup@[j].0@ != self.lookup@[i as int].0@);
                        }
                    }
                }
                assert forall|k: int| 0 <= k < out@.len() implies member_entry(
                    self.lookup@,
                    i + 1,
                    (#[trigger] out@[k])@,
                    id,
                ) by {
                    if k < o0.len() {
                        assert(member_entry(self.lookup@, i as int, o0[k]@, id));
                        let j = choose|j: int|
                            0 <= j < i && (#[trigger] self.lookup@[j]).0@ == o0[k]@
                                && self.lookup@[j].1 == id;
                        assert(0 <= j < i + 1 && self.lookup@[j].0@ == out@[k]@
                            && self.lookup@[j].1 == id);
                    } else {
                        assert(out@[k]@ == self.lookup@[i as int].0@
                            && self.lookup@[i as int].1 == id);
                    }
                }
                assert forall|j: int| 0 <= j < i + 1 && (#[trigger] self.lookup@[j]).1 == id
                    implies exists|k: int| 0 <= k < out@.len()
                        && (#[trigger] out@[k])@ == self.lookup@[j].0@ by {
                    if j < i {
                        let k = choose|k: int|
                            0 <= k < o0.len() && (#[trigger] o0[k])@ == self.lookup@[j].0@;
                        assert(out@[k]@ == self.lookup@[j].0@);
                    } else {
                        assert(out@[out@.len() - 1]@ == self.lookup@[j].0@);
                    }
                }
            }
            i += 1;
        }
        proof {
            assert forall|pn: Seq<char>| #[trigger] self@.members(id).contains(pn)
                implies exists|k: int| 0 <= k < out@.len() && (#[trigger] out@[k])@ == pn by {
                let j = choose|j: int|
                    0 <= j < self.lookup@.len() && (#[trigger] self.lookup@[j]).0@ == pn;
                assert(self@.registry[pn] == self.lookup@[j].1);
                assert(self.lookup@[j].1 == id);
            }
            assert forall|k: int| 0 <= k < out@.len()
                implies self@.registry.dom().contains((#[trigger] out@[k])@)
                    && self@.registry[out@[k]@] == id by {
                assert(member_entry(self.lookup@, self.lookup@.len() as int, out@[k]@, id));
                let j = choose|j: int|
                    0 <= j < self.lookup@.len() && (#[trigger] self.lookup@[j]).0@ == out@[k]@
                        && self.lookup@[j].1 == id;
            }
        }
        out
    }

    /// The forward index of a group: every group it links to. The list
    /// never holds two identical entries.
    pub fn links_from(&self, id: u64) -> (r: Vec<u64>)
        requires
            self.wf(),
        ensures
            r@.no_duplicates(),
            r@.to_set() == fwd_of(self@.edges, id),
    {
        let mut out: Vec<u64> = Vec::new();
        let mut i: usize = 0;
        while i < self.links.len()
            invariant
                self.wf(),
                i <= self.links@.len(),
                out@.no_duplicates(),
                forall|b: u64| #[trigger] out@.contains(b) <==> exists|j: int|
                    0 <= j < i && #[trigger] self.links@[j] == (id, b),
            decreases self.links@.len() - i,
        {
            let e = self.links[i];
            if e.0 == id {
                proof {
                    assert(self.links@[i as int] == (id, e.1));
                    assert(!out@.contains(e.1)) by {
                        if out@.contains(e.1) {
                            let j = choose|j: int|
                                0 <= j < i && #[trigger] self.links@[j] == (id, e.1);
                            assert(self.links@[j] == self.links@[i as int]);
                        }
                    }
                    lemma_push_facts(out@, e.1);
                }
                out.push(e.1);
            }
            proof {
                if e.0 != id {
                    assert forall|b: u64| #[trigger] out@.contains(b) implies exists|j: int|
                        0 <= j < i + 1 && #[trigger] self.links@[j] == (id, b) by {
                        let j = choose|j: int| 0 <= j < i && #[trigger] self.links@[j] == (id, b);
                    }
                    assert forall|b: u64|
                        exists|j: int| 0 <= j < i + 1 && #[trigger] self.links@[j] == (id, b)
                        implies out@.contains(b) by {
                        let j = choose|j: int|
                            0 <= j < i + 1 && #[trigger] self.links@[j] == (id, b);
                        assert(j < i);
                    }
                } else {
                    assert forall|b: u64| #[trigger] out@.contains(b) implies exists|j: int|
                        0 <= j < i + 1 && #[trigger] self.links@[j] == (id, b) by {
                        if b == e.1 {
                            assert(self.links@[i as int] == (id, b));
                        } else {
                            let j = choose|j: int|
                                0 <= j < i && #[trigger] self.links@[j] == (id, b);
                        }
                    }
                    assert forall|b: u64|
                        exists|j: int| 0 <= j < i + 1 && #[trigger] self.links@[j] == (id, b)
                        implies out@.contains(b) by {
                        let j = choose|j: int|
                            0 <= j < i + 1 && #[trigger] self.links@[j] == (id, b);
                        if j == i {
                            assert(b == e.1);
                        }
                    }
                }
            }
            i += 1;
        }
        proof {
            assert(out@.to_set() =~= fwd_of(self@.edges, id)) by {
                assert forall|b: u64| out@.to_set().contains(b)
                    implies fwd_of(self@.edges, id).contains(b) by {
                    let j = choose|j: int|
                        0 <= j < self.links@.len() && #[trigger] self.links@[j] == (id, b);
                    assert(self@.edges.contains((id, b)));
                }
                assert forall|b: u64| fwd_of(self@.edges, id).contains(b)
                    implies out@.to_set().contains(b) by {
                    let j = choose|j: int|
                        0 <= j < self.links@.len() && #[trigger] self.links@[j] == (id, b);
                }
            }
        }
        out
    }

    /// The reverse index of a group: every group that links to it. The
    /// list never holds two identical entries.
    pub fn links_to(&self, id: u64) -> (r: Vec<u64>)
        requires
            self.wf(),
        ensures
            r@.no_duplicates(),
            r@.to_set() == rev_of(self@.edges, id),
    {
        let mut out: Vec<u64> = Vec::new();
        let mut i: usize = 0;
        while i < self.links.len()
            invariant
                self.wf(),
                i <= self.links@.len(),
                out@.no_duplicates(),
                forall|a: u64| #[trigger] out@.contains(a) <==> exists|j: int|
                    0 <= j < i && #[trigger] self.links@[j] == (a, id),
            decreases self.links@.len() - i,
        {
            let e = self.links[i];
            if e.1 == id {
                proof {
                    assert(self.links@[i as int] == (e.0, id));
                    assert(!out@.contains(e.0)) by {
                        if out@.contains(e.0) {
                            let j = choose|j: int|
                                0 <= j < i && #[trigger] self.links@[j] == (e.0, id);
                            assert(self.links@[j] == self.links@[i as int]);
                        }
                    }
                    lemma_push_facts(out@, e.0);
                }
                out.push(e.0);
            }
            proof {
                if e.1 != id {
                    assert forall|a: u64| #[trigger] out@.contains(a) implies exists|j: int|
                        0 <= j < i + 1 && #[trigger] self.links@[j] == (a, id) by {
                        let j = choose|j: int| 0 <= j < i && #[trigger] self.links@[j] == (a, id);
                    }
                    assert forall|a: u64|
                        exists|j: int| 0 <= j < i + 1 && #[trigger] self.links@[j] == (a, id)
                        implies out@.contains(a) by {
                        let j = choose|j: int|
                            0 <= j < i + 1 && #[trigger] self.links@[j] == (a, id);
                        assert(j < i);
                    }
                } else {
                    assert forall|a: u64| #[trigger] out@.contains(a) implies exists|j: int|
                        0 <= j < i + 1 && #[trigger] self.links@[j] == (a, id) by {
                        if a == e.0 {
                            assert(self.links@[i as int] == (a, id));
                        } else {
                            let j = choose|j: int|
                                0 <= j < i && #[trigger] self.links@[j] == (a, id);
                        }
                    }
                    assert forall|a: u64|
                        exists|j: int| 0 <= j < i + 1 && #[trigger] self.links@[j] == (a, id)
                        implies out@.contains(a) by {
                        let j = choose|j: int|
                            0 <= j < i + 1 && #[trigger] self.links@[j] == (a, id);
                        if j == i {
                            assert(a == e.0);
                        }
                    }
                }
            }
            i += 1;
        }
        proof {
            assert(out@.to_set() =~= rev_of(self@.edges, id)) by {
                assert forall|a: u64| out@.to_set().contains(a)
                    implies rev_of(self@.edges, id).contains(a) by {
                    let j = choose|j: int|
                        0 <= j < self.links@.len() && #[trigger] self.links@[j] == (a, id);
                    assert(self@.edges.contains((a, id)));
                }
                assert forall|a: u64| rev_of(self@.edges, id).contains(a)
                    implies out@.to_set().contains(a) by {
                    let j = choose|j: int|
                        0 <= j < self.links@.len() && #[trigger] self.links@[j] == (a, id);
                }
            }
        }
        out
    }

    /// The value of the identifier counter: every minted group identifier
    /// lies below it.
    pub fn id_counter(&self) -> (r: u64)
        ensures
            r as int == self@.next_id,
    {
        self.next_id
    }

    /// The three tables of the persisted store: the groups table (one row
    /// per registered part and its group), the mains table (one row per
    /// designated main and its group), and the links table (one row per
    /// live edge, never a duplicate).
    pub fn serialize(&self) -> (r: (Vec<(String, u64)>, Vec<(String, u64)>, Vec<(u64, u64)>))
        requires
            self.wf(),
        ensures
            represents_registry(lookup_rows(r.0@), self@.registry),
            represents_mains(lookup_rows(r.1@), self@.mains),
            represents_links(r.2@, self@.edges),
    {
        proof {
            self.lemma_bridge();
        }
        let mut groups: Vec<(String, u64)> = Vec::new();
        let mut i: usize = 0;
        while i < self.lookup.len()
            invariant
                i <= self.lookup@.len(),
                groups@.len() == i,
                forall|k: int| 0 <= k < i
                    ==> (#[trigger] groups@[k]).0@ == self.lookup@[k].0@
                        && groups@[k].1 == self.lookup@[k].1,
            decreases self.lookup@.len() - i,
        {
            let p = &self.lookup[i];
            groups.push((p.0.clone(), p.1));
            i += 1;
        }
        let mut mains: Vec<(String, u64)> = Vec::new();
        let mut i2: usize = 0;
        while i2 < self.mains.len()
            invariant
                i2 <= self.mains@.len(),
                mains@.len() == i2,
                forall|k: int| 0 <= k < i2
                    ==> (#[trigger] mains@[k]).0@ == self.mains@[k].1@
                        && mains@[k].1 == self.mains@[k].0,
            decreases self.mains@.len() - i2,
        {
            let p = &self.mains[i2];
            mains.push((p.1.clone(), p.0));
            i2 += 1;
        }
        let mut links: Vec<(u64, u64)> = Vec::new();
        let mut i3: usize = 0;
        while i3 < self.links.len()
            invariant
                i3 <= self.links@.len(),
                links@.len() == i3,
                forall|k: int| 0 <= k < i3 ==> #[trigger] links@[k] == self.links@[k],
            decreases self.links@.len() - i3,
        {
            let e = self.links[i3];
            links.push(e);
            i3 += 1;
        }
        proof {
            let g = lookup_rows(groups@);
            assert(forall|k: int| 0 <= k < g.len()
                ==> (#[trigger] g[k]) == (groups@[k].0@, groups@[k].1));
            assert forall|pn: Seq<char>| #[trigger] self@.registry.dom().contains(pn)
                implies exists|k: int| 0 <= k < g.len() && g[k] == (pn, self@.registry[pn]) by {
                let j = choose|j: int|
                    0 <= j < self.lookup@.len() && (#[trigger] self.lookup@[j]).0@ == pn;
                assert(g[j] == (pn, self@.registry[pn]));
            }
            let m = lookup_rows(mains@);
            assert(forall|k: int| 0 <= k < m.len()
                ==> (#[trigger] m[k]) == (mains@[k].0@, mains@[k].1));
            assert forall|id: u64| #[trigger] self@.mains.dom().contains(id)
                implies exists|k: int| 0 <= k < m.len() && m[k] == (self@.mains[id], id) by {
                let j = choose|j: int|
                    0 <= j < self.mains@.len() && (#[trigger] self.mains@[j]).0 == id;
                assert(m[j] == (self@.mains[id], id));
            }
            assert(links@ =~= self.links@);
        }
        (groups, mains, links)
    }

    /// Loads a persisted store into this one: the groups table, then the
    /// mains table, then the links table. A row that would break the
    /// store's invariants — a part already registered, a main or link
    /// naming a dead group, a self-loop, a duplicate edge, or the one
    /// reserved identifier — is ignored; existing state wins.
    pub fn deserialize(
        &mut self,
        groups: &Vec<(String, u64)>,
        mains: &Vec<(String, u64)>,
        links: &Vec<(u64, u64)>,
    )
        requires
            old(self).wf(),
        ensures
            final(self).wf(),
            final(self)@ == old(self)@.load_spec(
                lookup_rows(groups@),
                lookup_rows(mains@),
                links@,
            ),
    {
        let ghost s0 = self@;
        let ghost g = lookup_rows(groups@);
        let mut i: usize = 0;
        while i < groups.len()
            invariant
                self.wf(),
                i <= groups@.len(),
                self@ == s0.load_groups_spec(g.take(i as int)),
                g == lookup_rows(groups@),
            decreases groups@.len() - i,
        {
            proof {
                assert(g.take(i + 1) =~= g.take(i as int).push(g[i as int]));
                assert(g.take(i + 1).drop_last() =~= g.take(i as int));
                assert(g[i as int] == (groups@[i as int].0@, groups@[i as int].1));
                self.lemma_bridge();
            }
            let row = &groups[i];
            let id = row.1;
            let registered = match find_part(&self.lookup, &row.0) {
                Some(_) => true,
                None => false,
            };
            if !registered && id < u64::MAX {
                let ghost v0 = self.lookup@;
                let ghost n0 = self.next_id;
                self.lookup.push((row.0.clone(), id));
                if id >= self.next_id {
                    self.next_id = id + 1;
                }
                proof {
                    assert(lookup_rows(self.lookup@) =~= lookup_rows(v0).push((row.0@, id)));
                    assert(lookup_rows(self.lookup@).drop_last() =~= lookup_rows(v0));
                    assert(self@ =~= s0.load_groups_spec(g.take(i + 1)));
                    assert forall|i2: int, j2: int| 0 <= i2 < j2 < self.lookup@.len()
                        implies (#[trigger] self.lookup@[i2]).0@
                            != (#[trigger] self.lookup@[j2]).0@ by {
                        if j2 == self.lookup@.len() - 1 {
                            assert(self.lookup@[i2] == v0[i2]);
                        } else {
                            assert(self.lookup@[i2] == v0[i2] && self.lookup@[j2] == v0[j2]);
                        }
                    }
                    assert forall|x: u64| has_id(v0, x) implies has_id(self.lookup@, x) by {
                        let k = choose|k: int| 0 <= k < v0.len() && (#[trigger] v0[k]).1 == x;
                        assert(self.lookup@[k].1 == x);
                    }
                    assert forall|k: int| 0 <= k < self.lookup@.len()
                        implies (#[trigger] self.lookup@[k]).1 < self.next_id by {
                        if k < self.lookup@.len() - 1 {
                            assert(self.lookup@[k] == v0[k]);
                            assert(v0[k].1 < n0 && n0 <= self.next_id);
                        }
                    }
                    assert(self.wf());
                }
            } else {
                proof {
                    assert(self@ == s0.load_groups_spec(g.take(i + 1)));
                }
            }
            i += 1;
        }
        proof {
            assert(g.take(g.len() as int) =~= g);
        }
        let ghost sg = self@;
        let ghost m = lookup_rows(mains@);
        let mut i2: usize = 0;
        while i2 < mains.len()
            invariant
                self.wf(),
                i2 <= mains@.len(),
                self@ == sg.load_mains_spec(m.take(i2 as int)),
                m == lookup_rows(mains@),
            decreases mains@.len() - i2,
        {
            proof {
                assert(m.take(i2 + 1) =~= m.take(i2 as int).push(m[i2 as int]));
                assert(m.take(i2 + 1).drop_last() =~= m.take(i2 as int));
                assert(m[i2 as int] == (mains@[i2 as int].0@, mains@[i2 as int].1));
                self.lemma_bridge();
            }
            let row = &mains[i2];
            let id = row.1;
            let live = has_group(&self.lookup, id);
            let already = match find_main(&self.mains, id) {
                Some(_) => true,
                None => false,
            };
            if live && !already {
                let ghost m0 = self.mains@;
                self.mains.push((id, row.0.clone()));
                proof {
                    assert(main_rows(self.mains@) =~= main_rows(m0).push((id, row.0@)));
                    assert(main_rows(self.mains@).drop_last() =~= main_rows(m0));
                    assert(self@ =~= sg.load_mains_spec(m.take(i2 + 1)));
                    assert forall|i3: int, j3: int| 0 <= i3 < j3 < self.mains@.len()
                        implies (#[trigger] self.mains@[i3]).0
                            != (#[trigger] self.mains@[j3]).0 by {
                        if j3 == self.mains@.len() - 1 {
                            assert(self.mains@[i3] == m0[i3]);
                        } else {
                            assert(self.mains@[i3] == m0[i3] && self.mains@[j3] == m0[j3]);
                        }
                    }
                    assert forall|k: int| 0 <= k < self.mains@.len()
                        implies has_id(self.lookup@, (#[trigger] self.mains@[k]).0) by {
                        if k < self.mains@.len() - 1 {
                            assert(self.mains@[k] == m0[k]);
                        }
                    }
                    assert(self.wf());
                }
            } else {
                proof {
                    assert(self@ == sg.load_mains_spec(m.take(i2 + 1)));
                }
            }
            i2 += 1;
        }
        proof {
            assert(m.take(m.len() as int) =~= m);
        }
        let ghost sm = self@;
        let mut i3: usize = 0;
        while i3 < links.len()
            invariant
                self.wf(),
                i3 <= links@.len(),
                self@ == sm.load_links_spec(links@.take(i3 as int)),
            decreases links@.len() - i3,
        {
            proof {
                assert(links@.take(i3 + 1) =~= links@.take(i3 as int).push(links@[i3 as int]));
                assert(links@.take(i3 + 1).drop_last() =~= links@.take(i3 as int));
                self.lemma_bridge();
            }
            let row = links[i3];
            let a = row.0;
            let b = row.1;
            let live_a = has_group(&self.lookup, a);
            let live_b = has_group(&self.lookup, b);
            let present = contains_pair(&self.links, a, b);
            if a != b && live_a && live_b && !present {
                let ghost l0 = self.links@;
                proof {
                    lemma_push_facts(self.links@, (a, b));
                    self.links@.lemma_push_to_set_commute((a, b));
                }
                self.links.push((a, b));
                proof {
                    assert(links@[i3 as int] == (a, b));
                    assert(self@ =~= sm.load_links_spec(links@.take(i3 + 1)));
                    assert forall|k: int| 0 <= k < self.links@.len()
                        implies (#[trigger] self.links@[k]).0 != self.links@[k].1
                            && has_id(self.lookup@, self.links@[k].0)
                            && has_id(self.lookup@, self.links@[k].1) by {
                        if k < self.links@.len() - 1 {
                            assert(self.links@[k] == l0[k]);
                        } else {
                            assert(self.links@[k] == (a, b));
                        }
                    }
                    assert(self.wf());
                }
            } else {
                proof {
                    assert(links@[i3 as int] == (a, b));
                    assert(self@ == sm.load_links_spec(links@.take(i3 + 1)));
                }
            }
            i3 += 1;
        }
        proof {
            assert(links@.take(links@.len() as int) =~= links@);
        }
    }

    /// Applies one relation record: code 0 registers the main part alone,
    /// code 1 adds a directed relation, code 2 a bidirectional one.
    /// Returns whether the code was recognized; an unknown code leaves
    /// the store untouched.
    pub fn apply_record(&mut self, main: &str, ic: &str, code: u8) -> (r: bool)
        requires
            old(self).wf(),
            old(self)@.next_id + 2 <= u64::MAX,
        ensures
            final(self).wf(),
            final(self)@ == old(self)@.apply_spec(main@, ic@, code),
            r == crate::model::code_ok(code),
    {
        if code == 0 {
            let _ = self.add_part(main);
            true
        } else if code == 1 {
            self.add_ow(main, ic);
            true
        } else if code == 2 {
            self.add_bw(main, ic);
            true
        } else {
            false
        }
    }

    /// Applies a whole sequence of relation records in order and returns
    /// the indices of the rows whose relationship code was not
    /// recognized, each exactly once, in ascending order; those rows
    /// leave the store untouched.
    pub fn extend_from_rows(&mut self, rows: &Vec<(String, String, u8)>) -> (skipped: Vec<usize>)
        requires
            old(self).wf(),
            old(self)@.next_id + 2 * rows@.len() <= u64::MAX,
        ensures
            final(self).wf(),
            final(self)@ == old(self)@.apply_all_spec(rel_rows(rows@)),
            forall|k: int| 0 <= k < skipped@.len()
                ==> (#[trigger] skipped@[k]) < rows@.len()
                    && !crate::model::code_ok(rows@[skipped@[k] as int].2),
            forall|j: int| 0 <= j < rows@.len() && !crate::model::code_ok((#[trigger] rows@[j]).2)
                ==> skipped_has(skipped@, j),
            forall|k1: int, k2: int| 0 <= k1 < k2 < skipped@.len()
                ==> (#[trigger] skipped@[k1]) < (#[trigger] skipped@[k2]),
    {
        let ghost rr = rel_rows(rows@);
        let mut skipped: Vec<usize> = Vec::new();
        let mut i: usize = 0;
        while i < rows.len()
            invariant
                self.wf(),
                i <= rows@.len(),
                self@ == old(self)@.apply_all_spec(rr.take(i as int)),
                self@.next_id <= old(self)@.next_id + 2 * i,
                old(self)@.next_id + 2 * rows@.len() <= u64::MAX,
                rr == rel_rows(rows@),
                forall|k: int| 0 <= k < skipped@.len()
                    ==> (#[trigger] skipped@[k]) < i
                        && !crate::model::code_ok(rows@[skipped@[k] as int].2),
                forall|j: int| 0 <= j < i && !crate::model::code_ok((#[trigger] rows@[j]).2)
                    ==> skipped_has(skipped@, j),
                forall|k1: int, k2: int| 0 <= k1 < k2 < skipped@.len()
                    ==> (#[trigger] skipped@[k1]) < (#[trigger] skipped@[k2]),
            decreases rows@.len() - i,
        {
            proof {
                assert(rr.take(i + 1) =~= rr.take(i as int).push(rr[i as int]));
                assert(rr.take(i + 1).drop_last() =~= rr.take(i as int));
                assert(rr[i as int]
                    == (rows@[i as int].0@, rows@[i as int].1@, rows@[i as int].2));
                crate::model::lemma_apply_next_id(
                    self@,
                    rows@[i as int].0@,
                    rows@[i as int].1@,
                    rows@[i as int].2,
                );
            }
            let row = &rows[i];
            let ok = self.apply_record(row.0.as_str(), row.1.as_str(), row.2);
            let ghost sk0 = skipped@;
            if !ok {
                skipped.push(i);
            }
            proof {
                assert(forall|k: int| 0 <= k < sk0.len() ==> #[trigger] skipped@[k] == sk0[k]);
                assert forall|k1: int, k2: int| 0 <= k1 < k2 < skipped@.len()
                    implies (#[trigger] skipped@[k1]) < (#[trigger] skipped@[k2]) by {
                    if k2 == skipped@.len() - 1 && skipped@.len() > sk0.len() {
                        assert(skipped@[k1] == sk0[k1]);
                        assert(sk0[k1] < i);
                        assert(skipped@[k2] == i);
                    }
                }
                assert forall|j: int|
                    0 <= j < i + 1 && !crate::model::code_ok((#[trigger] rows@[j]).2)
                    implies skipped_has(skipped@, j) by {
                    if j < i {
                        assert(skipped_has(sk0, j));
                        let k = choose|k: int|
                            0 <= k < sk0.len() && (#[trigger] sk0[k]) as int == j;
                        assert((skipped@[k] as int) == j);
                    } else {
                        assert(!ok);
                        assert((skipped@[skipped@.len() - 1] as int) == j);
                    }
                }
            }
            i += 1;
        }
        proof {
            assert(rr.take(rr.len() as int) =~= rr);
        }
        skipped
    }
}

/// Whether some registry row carries the group identifier `id`.
fn has_group(v: &Vec<(String, u64)>, id: u64) -> (r: bool)
    ensures
        r == has_id(v@, id),
{
    let mut i: usize = 0;
    while i < v.len()
        invariant
            i <= v@.len(),
            forall|k: int| 0 <= k < i ==> (#[trigger] v@[k]).1 != id,
        decreases v@.len() - i,
    {
        if v[i].1 == id {
            return true;
        }
        i += 1;
    }
    false
}

/// Finds the main row of a group identifier, if any.
fn find_main(v: &Vec<(u64, String)>, id: u64) -> (r: Option<usize>)
    ensures
        match r {
            Some(i) => i < v@.len() && v@[i as int].0 == id,
            None => forall|i: int| 0 <= i < v@.len() ==> (#[trigger] v@[i]).0 != id,
        },
{
    let mut i: usize = 0;
    while i < v.len()
        invariant
            i <= v@.len(),
            forall|k: int| 0 <= k < i ==> (#[trigger] v@[k]).0 != id,
        decreases v@.len() - i,
    {
        if v[i].0 == id {
            return Some(i);
        }
        i += 1;
    }
    None
}

/// Finds the registry row of a part number, if any.
fn find_part(v: &Vec<(String, u64)>, key: &String) -> (r: Option<usize>)
    ensures
        match r {
            Some(i) => i < v@.len() && v@[i as int].0@ == key@,
            None => forall|i: int| 0 <= i < v@.len() ==> (#[trigger] v@[i]).0@ != key@,
        },
{
    let mut i: usize = 0;
    while i < v.len()
        invariant
            i <= v@.len(),
            forall|k: int| 0 <= k < i ==> (#[trigger] v@[k]).0@ != key@,
        decreases v@.len() - i,
    {
        let p = &v[i];
        if p.0 == *key {
            return Some(i);
        }
        i += 1;
    }
    None
}

} // verus!
