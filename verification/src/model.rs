//! The mathematical model of the store.
//!
//! A `StoreView` is the abstract state of the engine: the registry mapping
//! each part number to its group identifier, the designated main part of
//! each group, the set of directed edges between groups, and the identifier
//! counter. The member set of a group is derived from the registry, so a
//! part number can never belong to two groups at once.
//!
//! Every executable operation of the store promises, in its `ensures`
//! clause, that the new view equals the corresponding transition function
//! defined here applied to the old view.

use vstd::prelude::*;

use crate::reach::collapse_set;
use crate::reach::reaches;

verus! {

/// The abstract state of the store.
#[verifier::ext_equal]
pub struct StoreView {
    /// Each registered part number maps to the identifier of its group.
    pub registry: Map<Seq<char>, u64>,
    /// Each group that has a designated main part maps to that part number.
    pub mains: Map<u64, Seq<char>>,
    /// The directed edges between group identifiers.
    pub edges: Set<(u64, u64)>,
    /// Identifiers below this bound have been minted; the next fresh one.
    pub next_id: int,
}

impl StoreView {
    /// The state of a store with nothing in it.
    pub open spec fn empty() -> StoreView {
        StoreView {
            registry: Map::empty(),
            mains: Map::empty(),
            edges: Set::empty(),
            next_id: 0,
        }
    }

    /// A group identifier is live while some part number maps to it.
    pub open spec fn live(self, id: u64) -> bool {
        exists|pn: Seq<char>| #[trigger] self.registry.dom().contains(pn) && self.registry[pn] == id
    }

    /// The member set of a group: every part number registered under it.
    pub open spec fn members(self, id: u64) -> Set<Seq<char>> {
        Set::new(|pn: Seq<char>| self.registry.dom().contains(pn) && self.registry[pn] == id)
    }

    /// The invariant every operation preserves: edges never form self-loops,
    /// edge endpoints and main designations refer only to live groups, and
    /// every minted identifier lies below the counter.
    pub open spec fn inv(self) -> bool {
        &&& forall|e: (u64, u64)| #[trigger] self.edges.contains(e)
            ==> e.0 != e.1 && self.live(e.0) && self.live(e.1)
        &&& forall|id: u64| #[trigger] self.mains.dom().contains(id) ==> self.live(id)
        &&& forall|pn: Seq<char>| #[trigger] self.registry.dom().contains(pn)
            ==> self.registry[pn] < self.next_id
        &&& 0 <= self.next_id <= u64::MAX
    }

    /// The identifier `add_part` resolves or mints for `pn`.
    pub open spec fn part_id(self, pn: Seq<char>) -> u64 {
        if self.registry.dom().contains(pn) {
            self.registry[pn]
        } else {
            self.next_id as u64
        }
    }

    /// Registering a part: a no-op when it is known, otherwise a fresh
    /// singleton group with the part as its main.
    pub open spec fn add_part_spec(self, pn: Seq<char>) -> StoreView {
        if self.registry.dom().contains(pn) {
            self
        } else {
            StoreView {
                registry: self.registry.insert(pn, self.next_id as u64),
                mains: self.mains.insert(self.next_id as u64, pn),
                edges: self.edges,
                next_id: self.next_id + 1,
            }
        }
    }

    /// Redirects an identifier to the anchor when it is merged away.
    pub open spec fn redirect(id: u64, victims: Set<u64>, anchor: u64) -> u64 {
        if victims.contains(id) {
            anchor
        } else {
            id
        }
    }

    /// Merging the `victims` groups into `anchor`: their members join the
    /// anchor, their main designations are dropped, and every incident edge
    /// is redirected to the anchor, dropping self-loops and duplicates.
    pub open spec fn merge_spec(self, anchor: u64, victims: Set<u64>) -> StoreView {
        StoreView {
            registry: Map::new(
                |pn: Seq<char>| self.registry.dom().contains(pn),
                |pn: Seq<char>| Self::redirect(self.registry[pn], victims, anchor),
            ),
            mains: Map::new(
                |id: u64| self.mains.dom().contains(id) && !victims.contains(id),
                |id: u64| self.mains[id],
            ),
            edges: Set::new(
                |e: (u64, u64)|
                    e.0 != e.1 && exists|o: (u64, u64)|
                        #[trigger] self.edges.contains(o)
                        && Self::redirect(o.0, victims, anchor) == e.0
                        && Self::redirect(o.1, victims, anchor) == e.1,
            ),
            next_id: self.next_id,
        }
    }

    /// Folding a part number into an anchor group: an unknown part simply
    /// joins the anchor; a part registered elsewhere has its whole group
    /// merged into the anchor.
    pub open spec fn fold_spec(self, anchor: u64, pn: Seq<char>) -> StoreView {
        if self.registry.dom().contains(pn) {
            if self.registry[pn] == anchor {
                self
            } else {
                self.merge_spec(anchor, set![self.registry[pn]])
            }
        } else {
            StoreView {
                registry: self.registry.insert(pn, anchor),
                mains: self.mains,
                edges: self.edges,
                next_id: self.next_id,
            }
        }
    }

    /// A bidirectional relation: the group of whichever part is registered
    /// first becomes the anchor; when neither is known, `pn1` is registered
    /// and its fresh group anchors.
    pub open spec fn add_bw_spec(self, pn1: Seq<char>, pn2: Seq<char>) -> StoreView {
        if self.registry.dom().contains(pn1) {
            self.fold_spec(self.registry[pn1], pn2)
        } else if self.registry.dom().contains(pn2) {
            self.fold_spec(self.registry[pn2], pn1)
        } else {
            let s1 = self.add_part_spec(pn1);
            s1.fold_spec(s1.registry[pn1], pn2)
        }
    }

    /// A directed relation: both parts are resolved (created as needed);
    /// when the target's group already reaches the source's group through
    /// forward edges, every other group on such a chain is collapsed into
    /// the source's group, which survives and keeps its own main
    /// designation; otherwise the edge is inserted, as a set element, so
    /// a duplicate insert changes nothing. A relation within one group
    /// changes nothing.
    pub open spec fn add_ow_spec(self, pn_from: Seq<char>, pn_to: Seq<char>) -> StoreView {
        let s1 = self.add_part_spec(pn_from);
        let s2 = s1.add_part_spec(pn_to);
        let f = s2.registry[pn_from];
        let t = s2.registry[pn_to];
        if f == t {
            s2
        } else if reaches(s2.edges, t, f) {
            s2.merge_spec(f, collapse_set(s2.edges, f, t).remove(f))
        } else {
            StoreView {
                registry: s2.registry,
                mains: s2.mains,
                edges: s2.edges.insert((f, t)),
                next_id: s2.next_id,
            }
        }
    }

    /// Designating a main part: a live group has its main set to `pn`
    /// without any membership demand; a dead identifier falls back to
    /// registering `pn` as a brand-new part.
    pub open spec fn set_main_spec(self, id: u64, pn: Seq<char>) -> StoreView {
        if self.live(id) {
            StoreView {
                registry: self.registry,
                mains: self.mains.insert(id, pn),
                edges: self.edges,
                next_id: self.next_id,
            }
        } else {
            self.add_part_spec(pn)
        }
    }

    /// What `set_main` returns: the identifier itself when live, otherwise
    /// the identifier the fallback registration resolves.
    pub open spec fn set_main_ret(self, id: u64, pn: Seq<char>) -> u64 {
        if self.live(id) {
            id
        } else {
            self.part_id(pn)
        }
    }

    /// Applying one relation record: code 0 registers the main part alone,
    /// code 1 adds a directed relation, code 2 a bidirectional one, and any
    /// other code changes nothing.
    pub open spec fn apply_spec(self, main: Seq<char>, ic: Seq<char>, code: u8) -> StoreView {
        if code == 0 {
            self.add_part_spec(main)
        } else if code == 1 {
            self.add_ow_spec(main, ic)
        } else if code == 2 {
            self.add_bw_spec(main, ic)
        } else {
            self
        }
    }

    /// Applying a whole sequence of relation records in order.
    pub open spec fn apply_all_spec(self, rows: Seq<(Seq<char>, Seq<char>, u8)>) -> StoreView
        decreases rows.len(),
    {
        if rows.len() == 0 {
            self
        } else {
            self.apply_all_spec(rows.drop_last()).apply_spec(
                rows.last().0,
                rows.last().1,
                rows.last().2,
            )
        }
    }

    /// Loading one row of the groups table. A row naming an already
    /// registered part, or carrying the one reserved identifier that would
    /// leave no room for the counter, is ignored; any other row registers
    /// the part under the given identifier and keeps the counter above it.
    pub open spec fn load_group_row_spec(self, pn: Seq<char>, id: u64) -> StoreView {
        if self.registry.dom().contains(pn) || id == u64::MAX {
            self
        } else {
            StoreView {
                registry: self.registry.insert(pn, id),
                mains: self.mains,
                edges: self.edges,
                next_id: if id + 1 > self.next_id {
                    id + 1
                } else {
                    self.next_id
                },
            }
        }
    }

    /// Loading the groups table, row by row.
    pub open spec fn load_groups_spec(self, rows: Seq<(Seq<char>, u64)>) -> StoreView
        decreases rows.len(),
    {
        if rows.len() == 0 {
            self
        } else {
            self.load_groups_spec(rows.drop_last()).load_group_row_spec(
                rows.last().0,
                rows.last().1,
            )
        }
    }

    /// Loading one row of the mains table: accepted only for a live group
    /// that has no main yet, so an existing designation wins.
    pub open spec fn load_main_row_spec(self, pn: Seq<char>, id: u64) -> StoreView {
        if self.live(id) && !self.mains.dom().contains(id) {
            StoreView {
                registry: self.registry,
                mains: self.mains.insert(id, pn),
                edges: self.edges,
                next_id: self.next_id,
            }
        } else {
            self
        }
    }

    /// Loading the mains table, row by row.
    pub open spec fn load_mains_spec(self, rows: Seq<(Seq<char>, u64)>) -> StoreView
        decreases rows.len(),
    {
        if rows.len() == 0 {
            self
        } else {
            self.load_mains_spec(rows.drop_last()).load_main_row_spec(
                rows.last().0,
                rows.last().1,
            )
        }
    }

    /// Loading one row of the links table: accepted only when both
    /// endpoints are live, distinct, and the edge is not present yet, so
    /// the loaded graph keeps the store's invariant.
    pub open spec fn load_link_row_spec(self, a: u64, b: u64) -> StoreView {
        if a != b && self.live(a) && self.live(b) && !self.edges.contains((a, b)) {
            StoreView {
                registry: self.registry,
                mains: self.mains,
                edges: self.edges.insert((a, b)),
                next_id: self.next_id,
            }
        } else {
            self
        }
    }

    /// Loading the links table, row by row.
    pub open spec fn load_links_spec(self, rows: Seq<(u64, u64)>) -> StoreView
        decreases rows.len(),
    {
        if rows.len() == 0 {
            self
        } else {
            self.load_links_spec(rows.drop_last()).load_link_row_spec(
                rows.last().0,
                rows.last().1,
            )
        }
    }

    /// Loading a whole persisted store: the groups table, then the mains
    /// table, then the links table.
    pub open spec fn load_spec(
        self,
        groups: Seq<(Seq<char>, u64)>,
        mains: Seq<(Seq<char>, u64)>,
        links: Seq<(u64, u64)>,
    ) -> StoreView {
        self.load_groups_spec(groups).load_mains_spec(mains).load_links_spec(links)
    }
}

/// The relationship codes a relation record may carry.
pub open spec fn code_ok(code: u8) -> bool {
    code == 0 || code == 1 || code == 2
}

/// Applying one relation record mints at most two fresh identifiers and
/// never lowers the counter.
pub proof fn lemma_apply_next_id(s: StoreView, main: Seq<char>, ic: Seq<char>, code: u8)
    ensures
        s.next_id <= s.apply_spec(main, ic, code).next_id <= s.next_id + 2,
{
    if code == 1 {
        let s1 = s.add_part_spec(main);
        let s2 = s1.add_part_spec(ic);
        assert(s1.next_id <= s.next_id + 1);
        assert(s2.next_id <= s1.next_id + 1);
        assert(s.add_ow_spec(main, ic).next_id == s2.next_id);
    } else if code == 2 {
        if !s.registry.dom().contains(main) && !s.registry.dom().contains(ic) {
            let s1 = s.add_part_spec(main);
            assert(s.add_bw_spec(main, ic).next_id == s1.next_id);
        }
    }
}

/// The forward index of the link graph: the targets an identifier points to.
pub open spec fn fwd_of(es: Set<(u64, u64)>, a: u64) -> Set<u64> {
    Set::new(|b: u64| es.contains((a, b)))
}

/// The reverse index of the link graph: the sources pointing at an identifier.
pub open spec fn rev_of(es: Set<(u64, u64)>, b: u64) -> Set<u64> {
    Set::new(|a: u64| es.contains((a, b)))
}

/// The rows of a saved groups table faithfully represent a registry: row
/// keys are distinct, every row is an entry of the registry, and every
/// entry of the registry appears as a row.
pub open spec fn represents_registry(rows: Seq<(Seq<char>, u64)>, reg: Map<Seq<char>, u64>) -> bool {
    &&& forall|i: int, j: int| 0 <= i < j < rows.len() ==> rows[i].0 != rows[j].0
    &&& forall|i: int| 0 <= i < rows.len()
        ==> reg.dom().contains(#[trigger] rows[i].0) && reg[rows[i].0] == rows[i].1
    &&& forall|pn: Seq<char>| #[trigger] reg.dom().contains(pn)
        ==> exists|i: int| 0 <= i < rows.len() && rows[i] == (pn, reg[pn])
}

/// The rows of a saved mains table faithfully represent the main map: row
/// identifiers are distinct, every row `(pn, id)` is an entry `id -> pn` of
/// the map, and every entry appears as a row.
pub open spec fn represents_mains(rows: Seq<(Seq<char>, u64)>, mains: Map<u64, Seq<char>>) -> bool {
    &&& forall|i: int, j: int| 0 <= i < j < rows.len() ==> rows[i].1 != rows[j].1
    &&& forall|i: int| 0 <= i < rows.len()
        ==> mains.dom().contains(#[trigger] rows[i].1) && mains[rows[i].1] == rows[i].0
    &&& forall|id: u64| #[trigger] mains.dom().contains(id)
        ==> exists|i: int| 0 <= i < rows.len() && rows[i] == (mains[id], id)
}

/// The rows of a saved links table faithfully represent the edge set.
pub open spec fn represents_links(rows: Seq<(u64, u64)>, es: Set<(u64, u64)>) -> bool {
    rows.no_duplicates() && rows.to_set() == es
}

} // verus!
