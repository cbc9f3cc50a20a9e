//! Node execution states: ACTIVE / BLOCKED / DORMANT.
//! ATMS-integrated: a node can run only when the active environment includes
//! its required environment and all its dependencies are completed.

use vstd::prelude::*;
use std::collections::{HashMap, HashSet};
use crate::types::{NodeId, Env};
use crate::env::{subsumes, spec_subsumes};

verus! {

broadcast use vstd::std_specs::hash::group_hash_axioms;

#[derive(Clone, Copy, Debug, PartialEq, Eq, Structural)]
pub enum ExecState {
    /// Ready to execute: all dependencies satisfied in the active environment.
    Active,
    /// Waiting for one or more dependencies to complete.
    Blocked,
    /// The active environment lacks a required assumption; suspended.
    Dormant,
}

/// Execution state record for a node.
#[derive(Clone, Debug)]
pub struct NodeExecState {
    pub node_id: NodeId,
    pub state: ExecState,
    /// The node can execute only if the active environment includes this one.
    pub required_env: Env,
    /// Nodes that must be completed before this node fires.
    pub depends_on: Vec<NodeId>,
    /// List-scheduling level.
    pub bt_level: usize,
}

/// The state a node with these requirements has.
pub open spec fn spec_state(
    required_env: Env,
    depends_on: Seq<NodeId>,
    active_env: Env,
    completed: Set<NodeId>,
) -> ExecState {
    if !spec_subsumes(required_env, active_env) {
        ExecState::Dormant
    } else if forall|i: int| 0 <= i < depends_on.len() ==> completed.contains(#[trigger] depends_on[i]) {
        ExecState::Active
    } else {
        ExecState::Blocked
    }
}

/// Whether every dependency is completed.
fn all_completed(depends_on: &Vec<NodeId>, completed: &HashSet<NodeId>) -> (r: bool)
    ensures
        r == forall|i: int|
            0 <= i < depends_on.len() ==> completed@.contains(#[trigger] depends_on@[i]),
{
    let n = depends_on.len();
    let mut i: usize = 0;
    while i < n
        invariant
            n == depends_on.len(),
            i <= n,
            forall|j: int| 0 <= j < i ==> completed@.contains(#[trigger] depends_on@[j]),
        decreases n - i,
    {
        if !completed.contains(&depends_on[i]) {
            return false;
        }
        i = i + 1;
    }
    true
}

impl NodeExecState {
    /// A new record, dormant until its state is first computed.
    pub fn new(node_id: NodeId, required_env: Env, depends_on: Vec<NodeId>) -> (r: NodeExecState)
        ensures
            r.node_id == node_id,
            r.state == ExecState::Dormant,
            r.required_env == required_env,
            r.depends_on@ == depends_on@,
            r.bt_level == 0,
    {
        NodeExecState { node_id, state: ExecState::Dormant, required_env, depends_on, bt_level: 0 }
    }

    /// Recompute the state from the active environment and the completed nodes.
    pub fn recompute(&mut self, active_env: Env, completed: &HashSet<NodeId>)
        ensures
            final(self).state == spec_state(
                old(self).required_env,
                old(self).depends_on@,
                active_env,
                completed@,
            ),
            final(self).node_id == old(self).node_id,
            final(self).required_env == old(self).required_env,
            final(self).depends_on@ == old(self).depends_on@,
            final(self).bt_level == old(self).bt_level,
    {
        if !subsumes(self.required_env, active_env) {
            self.state = ExecState::Dormant;
        } else if all_completed(&self.depends_on, completed) {
            self.state = ExecState::Active;
        } else {
            self.state = ExecState::Blocked;
        }
    }
}

/// Execution states of all nodes of the current graph, keyed by node id.
pub struct ExecStateTable {
    states: HashMap<NodeId, NodeExecState>,
    completed: HashSet<NodeId>,
    active_env: Env,
}

/// The abstract record of one node.
pub struct NodeView {
    pub state: ExecState,
    pub required_env: Env,
    pub depends_on: Seq<NodeId>,
    pub bt_level: usize,
}

pub open spec fn node_view(s: NodeExecState) -> NodeView {
    NodeView {
        state: s.state,
        required_env: s.required_env,
        depends_on: s.depends_on@,
        bt_level: s.bt_level,
    }
}

/// A node view with its state recomputed.
pub open spec fn recomputed(v: NodeView, env: Env, completed: Set<NodeId>) -> NodeView {
    NodeView { state: spec_state(v.required_env, v.depends_on, env, completed), ..v }
}

/// All states recomputed.
pub open spec fn all_recomputed(m: Map<NodeId, NodeView>, env: Env, completed: Set<NodeId>) -> Map<
    NodeId,
    NodeView,
> {
    Map::new(|id: NodeId| m.dom().contains(id), |id: NodeId| recomputed(m[id], env, completed))
}

/// Insert `(bt, id)` after every entry of level at most `bt`, keeping the
/// entries ordered by level. Returns the insertion position.
fn insert_by_level(res: &mut Vec<(usize, NodeId)>, bt: usize, id: NodeId) -> (p: usize)
    requires
        forall|a: int, b: int| 0 <= a < b < old(res).len() ==> old(res)[a].0 <= old(res)[b].0,
    ensures
        p <= old(res).len(),
        final(res)@ == old(res)@.insert(p as int, (bt, id)),
        forall|a: int, b: int| 0 <= a < b < final(res).len() ==> final(res)[a].0 <= final(res)[b].0,
{
    let m = res.len();
    let mut p: usize = 0;
    while p < m && res[p].0 <= bt
        invariant
            m == res.len(),
            p <= m,
            forall|a: int| 0 <= a < p ==> res[a].0 <= bt,
        decreases m - p,
    {
        p = p + 1;
    }
    let ghost r0 = res@;
    proof {
        assert forall|a: int| p <= a < m implies res[a].0 > bt by {
            if p < m {
                assert(res[p as int].0 > bt);
            }
        }
    }
    res.insert(p, (bt, id));
    proof {
        let r1 = res@;
        assert forall|a: int, b: int| 0 <= a < b < r1.len() implies r1[a].0 <= r1[b].0 by {
            if a < p && b < p {
                assert(r1[a] == r0[a] && r1[b] == r0[b]);
            } else if a < p && b == p {
                assert(r1[a] == r0[a]);
            } else if a < p {
                assert(r1[a] == r0[a] && r1[b] == r0[b - 1]);
            } else if a == p {
                assert(r1[b] == r0[b - 1]);
            } else {
                assert(r1[a] == r0[a - 1] && r1[b] == r0[b - 1]);
            }
        }
    }
    p
}

impl ExecStateTable {
    /// Each record is stored under its own node id.
    pub closed spec fn wf(&self) -> bool {
        forall|id: NodeId| #[trigger] self.states@.contains_key(id) ==> self.states@[id].node_id == id
    }

    /// The records, keyed by node id.
    pub closed spec fn states(&self) -> Map<NodeId, NodeView> {
        self.states@.map_values(|s: NodeExecState| node_view(s))
    }

    pub closed spec fn completed(&self) -> Set<NodeId> {
        self.completed@
    }

    pub closed spec fn env(&self) -> Env {
        self.active_env
    }

    pub fn new(active_env: Env) -> (r: ExecStateTable)
        ensures
            r.wf(),
            r.states() == Map::<NodeId, NodeView>::empty(),
            r.completed() == Set::<NodeId>::empty(),
            r.env() == active_env,
    {
        let r = ExecStateTable { states: HashMap::new(), completed: HashSet::new(), active_env };
        assert(r.states() =~= Map::<NodeId, NodeView>::empty());
        r
    }

    /// The registered node ids, each once.
    fn ids(&self) -> (ids: Vec<NodeId>)
        ensures
            ids@.to_set() == self.states@.dom(),
            ids@.no_duplicates(),
    {
        let ghost ks = vstd::std_specs::iter::IteratorSpec::remaining(
            &vstd::std_specs::hash::spec_keys_iter(&self.states),
        ).unref();
        proof {
            vstd::std_specs::hash::axiom_spec_keys_iter(&self.states);
        }
        let mut ids: Vec<NodeId> = Vec::new();
        for k in it: self.states.keys()
            invariant
                it.seq().map_values(|r: &NodeId| *r) == ks,
                ids@ == ks.subrange(0, it.index() as int),
        {
            ids.push(*k);
            proof {
                assert(ks.subrange(0, it.index() + 1) =~= ks.subrange(0, it.index() as int).push(*k));
            }
        }
        proof {
            assert(ids@ =~= ks);
        }
        ids
    }

    /// Register a record, replacing any earlier record of the same node.
    pub fn register(&mut self, state: NodeExecState)
        requires
            old(self).wf(),
        ensures
            final(self).wf(),
            final(self).states() == old(self).states().insert(state.node_id, node_view(state)),
            final(self).completed() == old(self).completed(),
            final(self).env() == old(self).env(),
    {
        let ghost view = node_view(state);
        let id = state.node_id;
        self.states.insert(id, state);
        proof {
            assert(self.states() =~= old(self).states().insert(id, view));
        }
    }

    /// Mark a node as completed and recompute every state.
    pub fn complete(&mut self, node_id: NodeId)
        requires
            old(self).wf(),
        ensures
            final(self).wf(),
            final(self).completed() == old(self).completed().insert(node_id),
            final(self).env() == old(self).env(),
            final(self).states() == all_recomputed(
                old(self).states(),
                old(self).env(),
                old(self).completed().insert(node_id),
            ),
    {
        self.completed.insert(node_id);
        self.recompute_all();
    }

    /// Recompute every state from the active environment and the completed nodes.
    pub fn recompute_all(&mut self)
        requires
            old(self).wf(),
        ensures
            final(self).wf(),
            final(self).completed() == old(self).completed(),
            final(self).env() == old(self).env(),
            final(self).states() == all_recomputed(
                old(self).states(),
                old(self).env(),
                old(self).completed(),
            ),
    {
        let env = self.active_env;
        let ids = self.ids();
        let ghost m0 = self.states@;
        let n = ids.len();
        let mut i: usize = 0;
        while i < n
            invariant
                n == ids@.len(),
                i <= n,
                ids@.to_set() == m0.dom(),
                ids@.no_duplicates(),
                env == self.active_env,
                self.completed@ == old(self).completed@,
                self.active_env == old(self).active_env,
                m0 == old(self).states@,
                self.states@.dom() == m0.dom(),
                forall|id: NodeId| #[trigger] m0.contains_key(id) ==> m0[id].node_id == id,
                forall|id: NodeId| #[trigger] self.states@.contains_key(id) ==> self.states@[id].node_id == id,
                forall|id: NodeId|
                    #[trigger] self.states@.contains_key(id) ==> node_view(self.states@[id]) == (if ids@.subrange(
                        0,
                        i as int,
                    ).contains(id) {
                        recomputed(node_view(m0[id]), env, self.completed@)
                    } else {
                        node_view(m0[id])
                    }),
            decreases n - i,
        {
            let k = ids[i];
            let ghost before = self.states@;
            proof {
                assert(ids@.to_set().contains(k));
                assert(!ids@.subrange(0, i as int).contains(k)) by {
                    if ids@.subrange(0, i as int).contains(k) {
                        let a = choose|a: int| 0 <= a < i && #[trigger] ids@.subrange(0, i as int)[a] == k;
                        assert(ids@[a] == ids@[i as int]);
                    }
                }
            }
            match self.states.remove(&k) {
                Some(mut s) => {
                    s.recompute(env, &self.completed);
                    self.states.insert(k, s);
                },
                None => {},
            }
            proof {
                assert(self.states@.dom() =~= m0.dom());
                assert forall|id: NodeId| #[trigger] self.states@.contains_key(id) implies node_view(self.states@[id]) == (if ids@.subrange(
                    0,
                    i + 1,
                ).contains(id) {
                    recomputed(node_view(m0[id]), env, self.completed@)
                } else {
                    node_view(m0[id])
                }) by {
                    if id != k {
                        assert(self.states@[id] == before[id]);
                        if ids@.subrange(0, i + 1).contains(id) {
                            let a = choose|a: int| 0 <= a < i + 1 && #[trigger] ids@.subrange(0, i + 1)[a] == id;
                            assert(a != i);
                            assert(ids@.subrange(0, i as int)[a] == id);
                        }
                        if ids@.subrange(0, i as int).contains(id) {
                            let a = choose|a: int| 0 <= a < i && #[trigger] ids@.subrange(0, i as int)[a] == id;
                            assert(ids@.subrange(0, i + 1)[a] == id);
                        }
                    } else {
                        assert(ids@.subrange(0, i + 1)[i as int] == k);
                    }
                }
            }
            i = i + 1;
        }
        proof {
            assert(ids@.subrange(0, n as int) =~= ids@);
            let target = all_recomputed(old(self).states(), env, self.completed@);
            assert forall|id: NodeId| #[trigger] self.states@.contains_key(id) implies ids@.contains(id) by {
                assert(ids@.to_set().contains(id));
            }
            assert(self.states() =~= target);
        }
    }

    /// Change the active environment and recompute every state.
    pub fn update_env(&mut self, new_env: Env)
        requires
            old(self).wf(),
        ensures
            final(self).wf(),
            final(self).completed() == old(self).completed(),
            final(self).env() == new_env,
            final(self).states() == all_recomputed(old(self).states(), new_env, old(self).completed()),
    {
        self.active_env = new_env;
        self.recompute_all();
    }

    /// The nodes ready to execute, ordered by ascending b/t-level.
    #[verifier::rlimit(40)]
    pub fn ready_nodes(&self) -> (r: Vec<NodeId>)
        requires
            self.wf(),
        ensures
            r@.no_duplicates(),
            forall|id: NodeId|
                r@.contains(id) <==> (self.states().dom().contains(id) && self.states()[id].state
                    == ExecState::Active),
            forall|i: int, j: int|
                0 <= i < j < r.len() ==> self.states()[r[i]].bt_level <= self.states()[r[j]].bt_level,
    {
        let ids = self.ids();
        let ghost m = self.states@;
        let n = ids.len();
        let mut res: Vec<(usize, NodeId)> = Vec::new();
        let mut i: usize = 0;
        while i < n
            invariant
                n == ids@.len(),
                ids@.to_set() == m.dom(),
                ids@.no_duplicates(),
                m == self.states@,
                i <= n,
                forall|a: int, b: int| 0 <= a < b < res.len() ==> res[a].0 <= res[b].0,
                forall|a: int|
                    0 <= a < res.len() ==> exists|j: int|
                        0 <= j < i && ids@[j] == #[trigger] res[a].1 && m[ids@[j]].state
                            == ExecState::Active && m[ids@[j]].bt_level == res[a].0,
                forall|j: int|
                    0 <= j < i && m[ids@[j]].state == ExecState::Active ==> exists|a: int|
                        0 <= a < res.len() && #[trigger] res[a].1 == ids@[j],
                forall|a: int, b: int| 0 <= a < b < res.len() ==> res[a].1 != res[b].1,
            decreases n - i,
        {
            let id = ids[i];
            proof {
                assert(ids@.to_set().contains(id));
            }
            let rec = self.states.get(&id);
            match rec {
                Some(s) => {
                    if let ExecState::Active = s.state {
                        let bt = s.bt_level;
                        let ghost r0 = res@;
                        proof {
                            assert forall|a: int| 0 <= a < r0.len() implies r0[a].1 != id by {
                                let j = choose|j: int|
                                    0 <= j < i && ids@[j] == #[trigger] r0[a].1 && m[ids@[j]].state
                                        == ExecState::Active && m[ids@[j]].bt_level == r0[a].0;
                                assert(j != i);
                            }
                        }
                        let p = insert_by_level(&mut res, bt, id);
                        proof {
                            assert forall|a: int| 0 <= a < res.len() implies (if a < p {
                                res[a] == r0[a]
                            } else if a == p {
                                res[a] == (bt, id)
                            } else {
                                res[a] == r0[a - 1]
                            }) by {}
                            assert forall|a: int|
                                0 <= a < res.len() implies exists|j: int|
                                0 <= j < i + 1 && ids@[j] == #[trigger] res[a].1 && m[ids@[j]].state
                                    == ExecState::Active && m[ids@[j]].bt_level == res[a].0 by {
                                if a == p {
                                    assert(ids@[i as int] == res[a].1);
                                } else if a < p {
                                    assert(res[a] == r0[a]);
                                } else {
                                    assert(res[a] == r0[a - 1]);
                                }
                            }
                            assert forall|j: int|
                                0 <= j < i + 1 && m[ids@[j]].state == ExecState::Active implies exists|a: int|
                                0 <= a < res.len() && #[trigger] res[a].1 == ids@[j] by {
                                if j == i {
                                    assert(res[p as int].1 == ids@[j]);
                                } else {
                                    let a = choose|a: int| 0 <= a < r0.len() && #[trigger] r0[a].1 == ids@[j];
                                    if a < p {
                                        assert(res[a] == r0[a]);
                                    } else {
                                        assert(res[a + 1] == r0[a]);
                                    }
                                }
                            }
                        }
                    }
                },
                None => {},
            }
            i = i + 1;
        }
        let mut r: Vec<NodeId> = Vec::new();
        let k = res.len();
        let mut q: usize = 0;
        while q < k
            invariant
                k == res.len(),
                q <= k,
                r.len() == q,
                forall|a: int| 0 <= a < q ==> r[a] == res[a].1,
            decreases k - q,
        {
            r.push(res[q].1);
            q = q + 1;
        }
        proof {
            assert forall|a: int| 0 <= a < r.len() implies self.states().dom().contains(r[a])
                && self.states()[r[a]].bt_level == res[a].0 && self.states()[r[a]].state
                == ExecState::Active by {
                let j = choose|j: int|
                    0 <= j < n && ids@[j] == #[trigger] res[a].1 && m[ids@[j]].state
                        == ExecState::Active && m[ids@[j]].bt_level == res[a].0;
                assert(ids@.to_set().contains(ids@[j]));
            }
            assert forall|id: NodeId|
                (self.states().dom().contains(id) && self.states()[id].state
                    == ExecState::Active) implies r@.contains(id) by {
                assert(ids@.to_set().contains(id));
                let j = choose|j: int| 0 <= j < ids@.len() && ids@[j] == id;
                let a = choose|a: int| 0 <= a < res.len() && #[trigger] res[a].1 == ids@[j];
                assert(r[a] == id);
            }
        }
        r
    }

    /// The state of `node_id`, if registered.
    pub fn state_of(&self, node_id: NodeId) -> (r: Option<ExecState>)
        requires
            self.wf(),
        ensures
            r == (if self.states().dom().contains(node_id) {
                Some(self.states()[node_id].state)
            } else {
                None
            }),
    {
        match self.states.get(&node_id) {
            Some(s) => Some(s.state),
            None => None,
        }
    }
}

/// Completing more nodes never takes a node out of the active state, and
/// completion never wakes a dormant node: dormancy depends on the
/// environment alone.
pub proof fn law_completion_monotone(
    required_env: Env,
    depends_on: Seq<NodeId>,
    active_env: Env,
    completed: Set<NodeId>,
    x: NodeId,
)
    ensures
        spec_state(required_env, depends_on, active_env, completed) == ExecState::Active
            ==> spec_state(required_env, depends_on, active_env, completed.insert(x))
            == ExecState::Active,
        spec_state(required_env, depends_on, active_env, completed) == ExecState::Dormant
            <==> spec_state(required_env, depends_on, active_env, completed.insert(x))
            == ExecState::Dormant,
{
    if spec_state(required_env, depends_on, active_env, completed) == ExecState::Active {
        assert forall|i: int| 0 <= i < depends_on.len() implies completed.insert(x).contains(
            #[trigger] depends_on[i],
        ) by {
            assert(completed.contains(depends_on[i]));
        }
    }
}

/// A node with no dependencies is active exactly when the active environment
/// includes its required environment.
pub proof fn law_no_dependencies(required_env: Env, active_env: Env, completed: Set<NodeId>)
    ensures
        (spec_state(required_env, Seq::empty(), active_env, completed) == ExecState::Active)
            <==> spec_subsumes(required_env, active_env),
{
}


/// What each state means: a node is dormant exactly when the active
/// environment lacks an assumption it requires, whatever its dependencies;
/// active exactly when the environment is right and every dependency is
/// completed; blocked exactly when the environment is right but some
/// dependency is not completed.
pub proof fn law_state_meaning(required_env: Env, depends_on: Seq<NodeId>, active_env: Env, completed: Set<NodeId>)
    ensures
        !spec_subsumes(required_env, active_env) ==> spec_state(required_env, depends_on, active_env, completed)
            == ExecState::Dormant,
        spec_state(required_env, depends_on, active_env, completed) == ExecState::Dormant ==> !spec_subsumes(
            required_env,
            active_env,
        ),
        spec_state(required_env, depends_on, active_env, completed) == ExecState::Active <==> (spec_subsumes(
            required_env,
            active_env,
        ) && forall|i: int| 0 <= i < depends_on.len() ==> completed.contains(#[trigger] depends_on[i])),
        spec_state(required_env, depends_on, active_env, completed) == ExecState::Blocked <==> (spec_subsumes(
            required_env,
            active_env,
        ) && exists|i: int| 0 <= i < depends_on.len() && !completed.contains(#[trigger] depends_on[i])),
{
}
} // verus!
