//! Horn-clause justifications for the base ATMS layer.
//! Each justification: (consequent, antecedents).
//! Watch-literal optimisation: fires only when a watched antecedent label changes.

use vstd::prelude::*;
use crate::types::{NodeId, Env};
use crate::env::{union, env_set};

verus! {

/// Union of a sequence of environments, left to right from the empty environment.
pub open spec fn union_all(ls: Seq<Env>) -> Env
    decreases ls.len(),
{
    if ls.len() == 0 {
        0
    } else {
        union_all(ls.drop_last()) | ls.last()
    }
}

/// A Horn-clause justification: one consequent, N antecedents.
#[derive(Clone, Debug)]
pub struct Justification {
    pub consequent: NodeId,
    pub antecedents: Vec<NodeId>,
    /// The two watched antecedents (indices into `antecedents`).
    pub watched: [usize; 2],
}

impl Justification {
    /// The two watch slots.
    pub open spec fn watch_slots(&self) -> (usize, usize) {
        (self.watched@[0], self.watched@[1])
    }

    pub fn new(consequent: NodeId, antecedents: Vec<NodeId>) -> (r: Justification)
        ensures
            r.consequent == consequent,
            r.antecedents@ == antecedents@,
            r.watch_slots() == (0usize, if antecedents.len() >= 2 { 1usize } else { 0usize }),
    {
        let w0: usize = 0;
        let len = antecedents.len();
        let s = if len >= 1 { len - 1 } else { 0 };
        let w1 = if s < 1 { s } else { 1 };
        Justification { consequent, antecedents, watched: [w0, w1] }
    }

    /// Fact justification: no antecedents; the consequent holds in the empty environment.
    pub fn fact(consequent: NodeId) -> (r: Justification)
        ensures
            r.consequent == consequent,
            r.antecedents@ == Seq::<NodeId>::empty(),
            r.watch_slots() == (0usize, 0usize),
    {
        Justification { consequent, antecedents: Vec::new(), watched: [0, 0] }
    }

    /// The environment this justification derives for its consequent, given the
    /// labels of the antecedents: the union of all of them, or `None` as soon as
    /// one antecedent has no label.
    pub fn derive_env<F>(&self, label_of: F) -> (r: Option<Env>) where F: Fn(NodeId) -> Option<Env>
        requires
            forall|id: NodeId| call_requires(label_of, (id,)),
        ensures
            match r {
                Some(e) => exists|ls: Seq<Env>|
                    {
                        &&& ls.len() == self.antecedents.len()
                        &&& forall|i: int|
                            0 <= i < ls.len() ==> call_ensures(
                                label_of,
                                (#[trigger] self.antecedents@[i],),
                                Some(ls[i]),
                            )
                        &&& e == union_all(ls)
                    },
                None => exists|i: int|
                    0 <= i < self.antecedents.len() && call_ensures(
                        label_of,
                        (#[trigger] self.antecedents@[i],),
                        None,
                    ),
            },
    {
        let mut combined: Env = 0;
        let ghost mut ls: Seq<Env> = Seq::empty();
        let n = self.antecedents.len();
        let mut k: usize = 0;
        while k < n
            invariant
                n == self.antecedents.len(),
                k <= n,
                forall|id: NodeId| call_requires(label_of, (id,)),
                ls.len() == k,
                forall|i: int|
                    0 <= i < k ==> call_ensures(
                        label_of,
                        (#[trigger] self.antecedents@[i],),
                        Some(ls[i]),
                    ),
                combined == union_all(ls),
            decreases n - k,
        {
            let ant = self.antecedents[k];
            let lbl = label_of(ant);
            match lbl {
                None => {
                    return None;
                },
                Some(l) => {
                    combined = union(combined, l);
                    proof {
                        let ls0 = ls;
                        ls = ls.push(l);
                        assert(ls.drop_last() =~= ls0);
                    }
                },
            }
            k = k + 1;
        }
        Some(combined)
    }

    /// The watched antecedent ids: the antecedents at the two watch slots, where
    /// the slot is in range.
    pub fn watched_antecedents(&self) -> (r: Vec<NodeId>)
        ensures
            r@ == watched_ids(self.antecedents@, self.watch_slots()),
    {
        let mut r: Vec<NodeId> = Vec::new();
        let w0 = self.watched[0];
        let w1 = self.watched[1];
        if w0 < self.antecedents.len() {
            r.push(self.antecedents[w0]);
        }
        if w1 < self.antecedents.len() {
            r.push(self.antecedents[w1]);
        }
        r
    }

    /// Move watch `slot` to the next antecedent after it that the other slot
    /// does not watch, below `nodes_len`; nothing changes when `nodes_len <= 2`
    /// or no such antecedent exists.
    pub fn advance_watch(&mut self, slot: usize, nodes_len: usize)
        requires
            slot < 2,
        ensures
            final(self).consequent == old(self).consequent,
            final(self).antecedents@ == old(self).antecedents@,
            final(self).watch_slots() == advanced_slots(old(self).watch_slots(), slot, nodes_len),
    {
        if nodes_len <= 2 {
            return ;
        }
        let current = self.watched[slot];
        let other = self.watched[1 - slot];
        if current >= nodes_len {
            return ;
        }
        let mut i = current + 1;
        while i < nodes_len
            invariant
                current < i <= nodes_len,
                i == current + 1 || (i == current + 2 && other == current + 1),
                self.watched@ == old(self).watched@,
                self.antecedents@ == old(self).antecedents@,
                self.consequent == old(self).consequent,
                current == old(self).watched@[slot as int],
                other == old(self).watched@[1 - slot],
                slot < 2,
                nodes_len > 2,
            decreases nodes_len - i,
        {
            if i != other {
                self.watched[slot] = i;
                return ;
            }
            i = i + 1;
        }
    }
}

/// The ids at the in-range watch slots.
pub open spec fn watched_ids(ants: Seq<NodeId>, w: (usize, usize)) -> Seq<NodeId> {
    let first = if w.0 < ants.len() { seq![ants[w.0 as int]] } else { Seq::empty() };
    let second = if w.1 < ants.len() { seq![ants[w.1 as int]] } else { Seq::empty() };
    first + second
}

/// The first index after `current` and below `len` that is not `other`, if any.
pub open spec fn next_watch(current: usize, other: usize, len: usize) -> Option<usize> {
    if current + 1 < len && current + 1 != other {
        Some((current + 1) as usize)
    } else if current + 2 < len {
        Some((current + 2) as usize)
    } else {
        None
    }
}

/// The watch slots after advancing `slot`.
pub open spec fn advanced_slots(w: (usize, usize), slot: usize, len: usize) -> (usize, usize) {
    let current = if slot == 0 { w.0 } else { w.1 };
    let other = if slot == 0 { w.1 } else { w.0 };
    if len <= 2 {
        w
    } else {
        match next_watch(current, other, len) {
            Some(n) => if slot == 0 { (n, w.1) } else { (w.0, n) },
            None => w,
        }
    }
}

/// The environment a justification derives is the union of the assumption
/// sets of its antecedents' labels.
pub proof fn lemma_union_all_is_set_union(ls: Seq<Env>, b: u64)
    ensures
        env_set(union_all(ls)).contains(b) <==> exists|i: int|
            0 <= i < ls.len() && env_set(#[trigger] ls[i]).contains(b),
    decreases ls.len(),
{
    if ls.len() > 0 {
        lemma_union_all_is_set_union(ls.drop_last(), b);
        let u = union_all(ls.drop_last());
        let l = ls.last();
        assert(b < 64 ==> (((u | l) >> b) & 1 == 1 <==> ((u >> b) & 1 == 1 || (l >> b) & 1 == 1)))
            by (bit_vector);
        if env_set(union_all(ls)).contains(b) {
            if !env_set(u).contains(b) {
                assert(env_set(ls[ls.len() - 1]).contains(b));
            } else {
                let i = choose|i: int| 0 <= i < ls.drop_last().len() && env_set(
                    #[trigger] ls.drop_last()[i],
                ).contains(b);
                assert(ls[i] == ls.drop_last()[i]);
            }
        }
        if exists|i: int| 0 <= i < ls.len() && env_set(#[trigger] ls[i]).contains(b) {
            let i = choose|i: int| 0 <= i < ls.len() && env_set(#[trigger] ls[i]).contains(b);
            if i < ls.len() - 1 {
                assert(ls.drop_last()[i] == ls[i]);
            }
        }
    } else {
        assert(b < 64 ==> (0u64 >> b) & 1 == 0) by (bit_vector);
    }
}

} // verus!
