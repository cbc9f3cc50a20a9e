//! Slot occupancy for synonym discovery: which nodes occupied which
//! (domain, mode, category) slot, and how often.

use vstd::prelude::*;
use crate::types::{NodeId, EdgeId, TRDId, ModalType, ModalMode};

verus! {

/// A slot: domain, mode code and category.
pub type SlotKey = (TRDId, u8, u32);

/// The occupants of one slot: node, surface and number of observations.
pub type Occupants = Vec<(NodeId, String, usize)>;

/// The model of one occupant.
pub type OccupantView = (NodeId, Seq<char>, usize);

/// The mode code of a slot: the position of the mode in declaration order.
pub open spec fn mode_code(m: ModalMode) -> u8 {
    match m {
        ModalMode::Diamond => 0,
        ModalMode::Box => 1,
        ModalMode::Lozenge => 2,
    }
}

/// The slot of a node of type `t` in domain `trd`.
pub open spec fn slot_of(trd: TRDId, t: ModalType) -> SlotKey {
    (trd, mode_code(t.mode), t.category.0)
}

pub open spec fn occupants_view(v: Seq<(NodeId, String, usize)>) -> Seq<OccupantView> {
    v.map_values(|o: (NodeId, String, usize)| (o.0, o.1@, o.2))
}

/// Record one observation of `node` with `surface` among `occ`: its count
/// goes up, or it is appended with count 1.
pub open spec fn observe_occupants(occ: Seq<OccupantView>, node: NodeId, surface: Seq<char>) -> Seq<OccupantView> {
    if exists|j: int| 0 <= j < occ.len() && occ[j].0 == node {
        let j = choose|j: int| 0 <= j < occ.len() && occ[j].0 == node;
        occ.update(j, (node, occ[j].1, (occ[j].2 + 1) as usize))
    } else {
        occ.push((node, surface, 1usize))
    }
}

/// Tracks which nodes occupied which slots; each slot and each node within
/// a slot appears once.
#[derive(Debug)]
pub struct SlotOccupancyTracker {
    slot_map: Vec<(SlotKey, Occupants)>,
    next_synonym_edge_id: EdgeId,
}

/// The model of the tracker: slots in first-seen order with their occupants.
pub struct SlotsView {
    pub slots: Seq<(SlotKey, Seq<OccupantView>)>,
    pub next_synonym_edge_id: EdgeId,
}

impl View for SlotOccupancyTracker {
    type V = SlotsView;

    closed spec fn view(&self) -> SlotsView {
        SlotsView {
            slots: self.slot_map@.map_values(|e: (SlotKey, Occupants)| (e.0, occupants_view(e.1@))),
            next_synonym_edge_id: self.next_synonym_edge_id,
        }
    }
}

/// Slots are distinct, nodes within a slot are distinct, and no count is at
/// the top of `usize`.
pub open spec fn slots_wf(v: SlotsView) -> bool {
    &&& forall|i: int, j: int| 0 <= i < j < v.slots.len() ==> #[trigger] v.slots[i].0 != #[trigger] v.slots[j].0
    &&& forall|i: int| 0 <= i < v.slots.len() ==> occupants_wf(#[trigger] v.slots[i].1)
}

pub open spec fn occupants_wf(occ: Seq<OccupantView>) -> bool {
    &&& forall|a: int, b: int| 0 <= a < b < occ.len() ==> #[trigger] occ[a].0 != #[trigger] occ[b].0
    &&& forall|a: int| 0 <= a < occ.len() ==> (#[trigger] occ[a]).2 >= 1
}

/// The tracker after observing `node` with `surface` in `slot`.
pub open spec fn observe_spec(slots: Seq<(SlotKey, Seq<OccupantView>)>, slot: SlotKey, node: NodeId, surface: Seq<char>) -> Seq<(SlotKey, Seq<OccupantView>)> {
    if exists|i: int| 0 <= i < slots.len() && slots[i].0 == slot {
        let i = choose|i: int| 0 <= i < slots.len() && slots[i].0 == slot;
        slots.update(i, (slot, observe_occupants(slots[i].1, node, surface)))
    } else {
        slots.push((slot, seq![(node, surface, 1usize)]))
    }
}

/// The pairs `(a, b)` with `a < b < b_end` of occupants observed at least
/// `min` times, in order of `b`.
pub open spec fn row(occ: Seq<OccupantView>, a: int, b_end: int, min: usize) -> Seq<(NodeId, NodeId, usize, usize)>
    decreases b_end - a,
{
    if b_end <= a + 1 {
        Seq::empty()
    } else {
        let rest = row(occ, a, b_end - 1, min);
        let b = b_end - 1;
        if occ[a].2 >= min && occ[b].2 >= min {
            rest.push((occ[a].0, occ[b].0, occ[a].2, occ[b].2))
        } else {
            rest
        }
    }
}

/// The rows of the first `a_end` occupants.
pub open spec fn rows(occ: Seq<OccupantView>, a_end: int, min: usize) -> Seq<(NodeId, NodeId, usize, usize)>
    decreases a_end,
{
    if a_end <= 0 {
        Seq::empty()
    } else {
        rows(occ, a_end - 1, min) + row(occ, a_end - 1, occ.len() as int, min)
    }
}

/// The qualifying pairs of the first `i_end` slots.
pub open spec fn all_pairs(slots: Seq<(SlotKey, Seq<OccupantView>)>, i_end: int, min: usize) -> Seq<(NodeId, NodeId, usize, usize)>
    decreases i_end,
{
    if i_end <= 0 {
        Seq::empty()
    } else {
        all_pairs(slots, i_end - 1, min) + rows(slots[i_end - 1].1, slots[i_end - 1].1.len() as int, min)
    }
}

fn mode_code_of(m: ModalMode) -> (r: u8)
    ensures
        r == mode_code(m),
{
    match m {
        ModalMode::Diamond => 0,
        ModalMode::Box => 1,
        ModalMode::Lozenge => 2,
    }
}

/// One more observation of `node` among `occ`.
fn observe_in(occ: &Occupants, node: NodeId, surface: &str) -> (r: Occupants)
    requires
        occupants_wf(occupants_view(occ@)),
        forall|a: int| 0 <= a < occ@.len() ==> (#[trigger] occ@[a]).2 < usize::MAX,
    ensures
        occupants_view(r@) == observe_occupants(occupants_view(occ@), node, surface@),
        occupants_wf(occupants_view(r@)),
{
    let ghost ov = occupants_view(occ@);
    let n = occ.len();
    let mut found: Option<usize> = None;
    let mut j: usize = 0;
    while j < n
        invariant
            n == occ@.len(),
            ov == occupants_view(occ@),
            j <= n,
            found is None ==> forall|a: int| 0 <= a < j ==> occ@[a].0 != node,
            found matches Some(f) ==> f < n && occ@[f as int].0 == node,
        decreases n - j,
    {
        if found.is_none() && occ[j].0 == node {
            found = Some(j);
        }
        j = j + 1;
    }
    let mut out: Occupants = Vec::new();
    let mut k: usize = 0;
    while k < n
        invariant
            n == occ@.len(),
            ov == occupants_view(occ@),
            k <= n,
            out@.len() == k,
            found matches Some(f) ==> f < n && occ@[f as int].0 == node,
            forall|a: int| 0 <= a < occ@.len() ==> (#[trigger] occ@[a]).2 < usize::MAX,
            forall|a: int|
                0 <= a < k ==> (#[trigger] out@[a]).0 == occ@[a].0 && out@[a].1@ == occ@[a].1@ && out@[a].2
                    == (if found == Some(a as usize) {
                    (occ@[a].2 + 1) as usize
                } else {
                    occ@[a].2
                }),
        decreases n - k,
    {
        let count = if found == Some(k) {
            occ[k].2 + 1
        } else {
            occ[k].2
        };
        out.push((occ[k].0, occ[k].1.clone(), count));
        k = k + 1;
    }
    match found {
        Some(f) => {
            proof {
                let fi = f as int;
                assert(ov[fi].0 == node);
                let c = choose|c: int| 0 <= c < ov.len() && ov[c].0 == node;
                if c != fi {
                    if c < fi {
                        assert(ov[c].0 != ov[fi].0);
                    } else {
                        assert(ov[fi].0 != ov[c].0);
                    }
                }
                assert(occupants_view(out@) =~= ov.update(fi, (node, ov[fi].1, (ov[fi].2 + 1) as usize)));
            }
            out
        },
        None => {
            let ghost before = out@;
            out.push((node, String::from_str(surface), 1));
            proof {
                assert(!(exists|c: int| 0 <= c < ov.len() && ov[c].0 == node));
                assert(occupants_view(out@) =~= occupants_view(before).push((node, surface@, 1usize)));
                assert(occupants_view(before) =~= ov);
            }
            out
        },
    }
}

impl SlotOccupancyTracker {
    pub open spec fn wf(&self) -> bool {
        slots_wf(self@)
    }

    /// No slot is occupied; synonym edge ids start at 0x8000_0000.
    pub fn new() -> (r: SlotOccupancyTracker)
        ensures
            r.wf(),
            r@.slots == Seq::<(SlotKey, Seq<OccupantView>)>::empty(),
            r@.next_synonym_edge_id == 0x8000_0000,
    {
        let r = SlotOccupancyTracker { slot_map: Vec::new(), next_synonym_edge_id: 0x8000_0000 };
        proof {
            assert(r@.slots =~= Seq::<(SlotKey, Seq<OccupantView>)>::empty());
        }
        r
    }

    /// Record that `node_id` (surface `surface`) occupied the slot of
    /// `(trd, mtype)`: its count in the slot goes up by one, or it joins the
    /// slot with count 1.
    pub fn observe(&mut self, node_id: NodeId, surface: &str, trd: TRDId, mtype: ModalType)
        requires
            old(self).wf(),
            forall|i: int, a: int|
                0 <= i < old(self)@.slots.len() && 0 <= a < old(self)@.slots[i].1.len() ==> (
                #[trigger] old(self)@.slots[i].1[a]).2 < usize::MAX,
        ensures
            final(self).wf(),
            final(self)@.slots == observe_spec(old(self)@.slots, slot_of(trd, mtype), node_id, surface@),
            final(self)@.next_synonym_edge_id == old(self)@.next_synonym_edge_id,
    {
        let key: SlotKey = (trd, mode_code_of(mtype.mode), mtype.category.0);
        let ghost s0 = self@.slots;
        let n = self.slot_map.len();
        let mut i: usize = 0;
        while i < n
            invariant
                n == self.slot_map@.len(),
                s0 == self@.slots,
                s0 == old(self)@.slots,
                key == slot_of(trd, mtype),
                self@.next_synonym_edge_id == old(self)@.next_synonym_edge_id,
                slots_wf(self@),
                forall|i2: int, a: int|
                    0 <= i2 < s0.len() && 0 <= a < s0[i2].1.len() ==> (#[trigger] s0[i2].1[a]).2 < usize::MAX,
                i <= n,
                forall|j: int| 0 <= j < i ==> self.slot_map@[j].0 != key,
            decreases n - i,
        {
            let k = self.slot_map[i].0;
            if k.0 == key.0 && k.1 == key.1 && k.2 == key.2 {
                proof {
                    assert(s0[i as int].1 == occupants_view(self.slot_map@[i as int].1@));
                    assert(occupants_wf(s0[i as int].1));
                    assert forall|a: int| 0 <= a < self.slot_map@[i as int].1@.len() implies (
                    #[trigger] self.slot_map@[i as int].1@[a]).2 < usize::MAX by {
                        assert(s0[i as int].1[a].2 == self.slot_map@[i as int].1@[a].2);
                    }
                }
                let new_occ = observe_in(&self.slot_map[i].1, node_id, surface);
                let ghost nv = occupants_view(new_occ@);
                self.slot_map.set(i, (key, new_occ));
                proof {
                    let ii = i as int;
                    assert(s0[ii].0 == key);
                    assert(exists|c: int| 0 <= c < s0.len() && s0[c].0 == key);
                    let c = choose|c: int| 0 <= c < s0.len() && s0[c].0 == key;
                    if c != ii {
                        if c < ii {
                            assert(s0[c].0 != s0[ii].0);
                        } else {
                            assert(s0[ii].0 != s0[c].0);
                        }
                    }
                    assert(self@.slots =~= s0.update(ii, (key, nv)));
                    assert(observe_spec(s0, key, node_id, surface@) == s0.update(ii, (key, nv)));
                    assert(slots_wf(self@)) by {
                        let t = self@.slots;
                        assert forall|a: int, b: int| 0 <= a < b < t.len() implies #[trigger] t[a].0 != #[trigger] t[b].0 by {
                            if a != ii && b != ii {
                                assert(t[a] == s0[a] && t[b] == s0[b]);
                            } else if a == ii {
                                assert(t[b] == s0[b]);
                                assert(s0[ii].0 != s0[b].0);
                            } else {
                                assert(t[a] == s0[a]);
                                assert(s0[a].0 != s0[ii].0);
                            }
                        }
                        assert forall|a: int| 0 <= a < t.len() implies occupants_wf(#[trigger] t[a].1) by {
                            if a != ii {
                                assert(t[a] == s0[a]);
                            }
                        }
                    }
                }
                return;
            }
            i = i + 1;
        }
        let occ: Occupants = vec![(node_id, String::from_str(surface), 1)];
        self.slot_map.push((key, occ));
        proof {
            assert(!(exists|c: int| 0 <= c < s0.len() && s0[c].0 == key));
            assert(occupants_view(self.slot_map@[n as int].1@) =~= seq![(node_id, surface@, 1usize)]);
            assert(self@.slots =~= s0.push((key, seq![(node_id, surface@, 1usize)])));
        }
    }

    /// Hand out the next synonym edge id: ids are consecutive from
    /// `0x8000_0000`; `None` once the id space is used up.
    pub fn take_synonym_edge_id(&mut self) -> (r: Option<EdgeId>)
        ensures
            final(self)@.slots == old(self)@.slots,
            old(self)@.next_synonym_edge_id < u64::MAX ==> {
                &&& r == Some(old(self)@.next_synonym_edge_id)
                &&& final(self)@.next_synonym_edge_id == old(self)@.next_synonym_edge_id + 1
            },
            old(self)@.next_synonym_edge_id == u64::MAX ==> r is None && final(self)@ == old(self)@,
    {
        if self.next_synonym_edge_id == u64::MAX {
            return None;
        }
        let id = self.next_synonym_edge_id;
        self.next_synonym_edge_id = id + 1;
        Some(id)
    }

    /// For each slot in order, and within it each pair of occupants observed
    /// at least `min_count` times (earlier occupant first, pairs in order):
    /// the two nodes and their counts.
    pub fn qualifying_pairs(&self, min_count: usize) -> (r: Vec<(NodeId, NodeId, usize, usize)>)
        ensures
            r@ == all_pairs(self@.slots, self@.slots.len() as int, min_count),
    {
        let mut pairs: Vec<(NodeId, NodeId, usize, usize)> = Vec::new();
        let n = self.slot_map.len();
        let mut i: usize = 0;
        while i < n
            invariant
                n == self.slot_map@.len(),
                n == self@.slots.len(),
                i <= n,
                pairs@ == all_pairs(self@.slots, i as int, min_count),
            decreases n - i,
        {
            let occ = &self.slot_map[i].1;
            let ghost ov = self@.slots[i as int].1;
            let ghost base = pairs@;
            proof {
                assert(ov == occupants_view(occ@));
            }
            let m = occ.len();
            let mut a: usize = 0;
            while a < m
                invariant
                    m == occ@.len(),
                    ov == occupants_view(occ@),
                    a <= m,
                    pairs@ == base + rows(ov, a as int, min_count),
                decreases m - a,
            {
                let ghost before_row = pairs@;
                let mut b: usize = a + 1;
                while b < m
                    invariant
                        m == occ@.len(),
                        ov == occupants_view(occ@),
                        a < m,
                        a + 1 <= b <= m,
                        pairs@ == before_row + row(ov, a as int, b as int, min_count),
                    decreases m - b,
                {
                    if occ[a].2 >= min_count && occ[b].2 >= min_count {
                        pairs.push((occ[a].0, occ[b].0, occ[a].2, occ[b].2));
                    }
                    proof {
                        assert(ov[a as int].2 == occ@[a as int].2 && ov[b as int].2 == occ@[b as int].2);
                        assert(ov[a as int].0 == occ@[a as int].0 && ov[b as int].0 == occ@[b as int].0);
                    }
                    b = b + 1;
                }
                proof {
                    assert(before_row == base + rows(ov, a as int, min_count));
                    assert(pairs@ =~= base + rows(ov, a + 1, min_count));
                }
                a = a + 1;
            }
            proof {
                assert(pairs@ =~= all_pairs(self@.slots, i + 1, min_count));
            }
            i = i + 1;
        }
        pairs
    }
}

} // verus!
