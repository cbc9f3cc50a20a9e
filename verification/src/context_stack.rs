//! The context stack: push, pop and shift of context frames. Each frame holds
//! the assumption environment of its context, its discourse structure and its
//! transient representations. Popping a frame lifts its discourse referents
//! and conditions into the parent frame and dissolves its representations; a
//! shift re-activates in the new frame the representations that a lifting
//! rule carries over.

use vstd::prelude::*;
use crate::types::{ContextId, Env, TRDId, ModalType};
use crate::context_bridge::{ContextBridge, BridgeView, push_spec, pop_spec, reclaim_spec, initial_view};
use crate::lifting::{LiftingRuleRegistry, ModalLiftingRule, first_match};
use crate::drs::{Drs, names_view, conds_view, merge_seq, extended_by, copy_names, merge_names_into};
use crate::transient_repr::{Tr, RepContent};
use crate::classes::{Lifecycle, Granularity};

verus! {

/// A single entry of the context stack.
#[derive(Debug)]
pub struct ContextFrame {
    pub id: ContextId,
    pub situation_id: u64,
    pub atms_env: Env,
    pub trd: Option<TRDId>,
    pub active_trs: Vec<Tr>,
    pub drs: Drs,
    pub parent: Option<ContextId>,
}

/// `f` is a frame with the given fields, no representations and an empty
/// discourse structure.
pub open spec fn fresh_frame(
    f: ContextFrame,
    id: ContextId,
    situation_id: u64,
    atms_env: Env,
    trd: Option<TRDId>,
    parent: Option<ContextId>,
) -> bool {
    &&& f.id == id
    &&& f.situation_id == situation_id
    &&& f.atms_env == atms_env
    &&& f.trd == trd
    &&& f.parent == parent
    &&& f.active_trs@.len() == 0
    &&& f.drs.referents@.len() == 0
    &&& f.drs.conditions@.len() == 0
}

impl ContextFrame {
    pub fn new(
        id: ContextId,
        situation_id: u64,
        atms_env: Env,
        trd: Option<TRDId>,
        parent: Option<ContextId>,
    ) -> (r: ContextFrame)
        ensures
            fresh_frame(r, id, situation_id, atms_env, trd, parent),
    {
        ContextFrame {
            id,
            situation_id,
            atms_env,
            trd,
            active_trs: Vec::new(),
            drs: Drs { referents: Vec::new(), conditions: Vec::new() },
            parent,
        }
    }
}

/// A representation once dissolved.
pub open spec fn dissolved(t: Tr) -> Tr {
    Tr { lifecycle: Lifecycle::Dissolved, ..t }
}

/// Every representation of `trs`, dissolved, in order.
pub open spec fn dissolved_all(trs: Seq<Tr>) -> Seq<Tr> {
    trs.map_values(|t: Tr| dissolved(t))
}

/// The representations of `trs` that a rule of `rules` carries over, active
/// again and with the type that the first matching rule gives, in order.
pub open spec fn relifted(trs: Seq<Tr>, rules: Seq<ModalLiftingRule>) -> Seq<Tr>
    decreases trs.len(),
{
    if trs.len() == 0 {
        Seq::empty()
    } else {
        let prev = relifted(trs.drop_last(), rules);
        match first_match(rules, trs.last().mtlg_type) {
            Some(t) => prev.push(Tr { lifecycle: Lifecycle::Active, mtlg_type: t, ..trs.last() }),
            None => prev,
        }
    }
}

/// `after` is the frame `before` once the discourse structure `child` was
/// lifted into it; nothing else of the frame changed.
pub open spec fn lifted_into(after: ContextFrame, before: ContextFrame, child: Drs) -> bool {
    &&& after == ContextFrame { drs: after.drs, ..before }
    &&& names_view(after.drs.referents@) == merge_seq(
        names_view(before.drs.referents@),
        names_view(child.referents@),
    )
    &&& conds_view(after.drs.conditions@) == merge_seq(
        conds_view(before.drs.conditions@),
        conds_view(child.conditions@),
    )
}

/// The frames after a pop that removed the top frame of `frames`: the frame
/// below it took in the popped frame's discourse structure.
pub open spec fn popped_frames(after: Seq<ContextFrame>, frames: Seq<ContextFrame>) -> bool {
    let rest = frames.drop_last();
    &&& after.len() == rest.len()
    &&& rest.len() > 0 ==> {
        &&& after.drop_last() == rest.drop_last()
        &&& lifted_into(after.last(), rest.last(), frames.last().drs)
    }
}

/// Popping a frame lifts its discourse into the frame below: every referent
/// and condition of the popped frame is then in the frame below, whose own
/// entries keep their places.
pub proof fn law_pop_lifts_discourse(after: Seq<ContextFrame>, frames: Seq<ContextFrame>)
    requires
        popped_frames(after, frames),
        frames.len() >= 2,
    ensures
        forall|x: Seq<char>| #[trigger] names_view(frames.last().drs.referents@).contains(x) ==> names_view(
            after.last().drs.referents@,
        ).contains(x),
        forall|c: crate::drs::CondView| #[trigger] conds_view(frames.last().drs.conditions@).contains(c) ==> conds_view(
            after.last().drs.conditions@,
        ).contains(c),
        names_view(after.last().drs.referents@).subrange(0, names_view(frames.drop_last().last().drs.referents@).len() as int)
            == names_view(frames.drop_last().last().drs.referents@),
{
    let below = frames.drop_last().last();
    let child = frames.last().drs;
    crate::drs::lemma_merge_seq(names_view(below.drs.referents@), names_view(child.referents@));
    crate::drs::lemma_merge_seq(conds_view(below.drs.conditions@), conds_view(child.conditions@));
}

/// The context stack, with its assumption bridge and lifting rules.
pub struct ContextStack {
    frames: Vec<ContextFrame>,
    pub bridge: ContextBridge,
    pub lifting: LiftingRuleRegistry,
    next_ctx_id: ContextId,
    next_tr_id: u64,
}

/// The environment that a push of `id` gives its frame: the bridge's new
/// active environment, or 0 when the assumption space is exhausted.
pub open spec fn pushed_env(b: BridgeView, id: ContextId) -> Env {
    match push_spec(b, id) {
        Some(w) => w.active_env,
        None => 0,
    }
}

/// The bridge after a push of `id`; unchanged when no bit is left.
pub open spec fn pushed_bridge(b: BridgeView, id: ContextId) -> BridgeView {
    match push_spec(b, id) {
        Some(w) => w,
        None => b,
    }
}

impl ContextStack {
    /// The frames, bottom first.
    pub closed spec fn frames(&self) -> Seq<ContextFrame> {
        self.frames@
    }

    /// The id that the next push gives its context.
    pub closed spec fn next_ctx(&self) -> ContextId {
        self.next_ctx_id
    }

    /// The id that the next added representation gets.
    pub closed spec fn next_tr(&self) -> u64 {
        self.next_tr_id
    }

    /// The state of the assumption bridge.
    pub closed spec fn bridge_state(&self) -> BridgeView {
        self.bridge@
    }

    /// The lifting rules.
    pub closed spec fn lifting_rules(&self) -> LiftingRuleRegistry {
        self.lifting
    }

    /// The bridge and the rule registry are well formed.
    pub closed spec fn wf(&self) -> bool {
        self.bridge.wf() && self.lifting.wf()
    }

    /// The id of the top frame, if any.
    pub open spec fn top_id(&self) -> Option<ContextId> {
        if self.frames().len() > 0 {
            Some(self.frames().last().id)
        } else {
            None
        }
    }

    /// The context that the bridge pops is the top frame's, whenever both
    /// have one.
    pub open spec fn pop_in_sync(&self) -> bool {
        match pop_spec(self.bridge_state()).1 {
            Some((c, _, _)) => self.frames().len() > 0 ==> self.frames().last().id == c,
            None => true,
        }
    }

    pub fn new() -> (r: ContextStack)
        ensures
            r.wf(),
            r.frames().len() == 0,
            r.bridge_state() == initial_view(),
            r.lifting_rules().pair_rules() == Map::<(ContextId, ContextId), Seq<ModalLiftingRule>>::empty(),
            r.lifting_rules().defaults() == Seq::<ModalLiftingRule>::empty(),
            r.next_ctx() == 0,
            r.next_tr() == 0,
    {
        let r = ContextStack {
            frames: Vec::new(),
            bridge: ContextBridge::new(),
            lifting: LiftingRuleRegistry::new(),
            next_ctx_id: 0,
            next_tr_id: 0,
        };
        r
    }

    /// Push a context for `situation_id`: a fresh context id, a bit from the
    /// bridge (environment 0 when none is left), and an empty frame whose
    /// parent is the previous top frame. Returns the new context id.
    pub fn push(&mut self, situation_id: u64, trd: Option<TRDId>) -> (id: ContextId)
        requires
            old(self).wf(),
            old(self).next_ctx() < u64::MAX,
        ensures
            final(self).wf(),
            id == old(self).next_ctx(),
            final(self).next_ctx() == id + 1,
            final(self).next_tr() == old(self).next_tr(),
            final(self).lifting_rules() == old(self).lifting_rules(),
            final(self).bridge_state() == pushed_bridge(old(self).bridge_state(), id),
            final(self).frames().len() == old(self).frames().len() + 1,
            final(self).frames().drop_last() == old(self).frames(),
            fresh_frame(
                final(self).frames().last(),
                id,
                situation_id,
                pushed_env(old(self).bridge_state(), id),
                trd,
                old(self).top_id(),
            ),
    {
        let id = self.next_ctx_id;
        self.next_ctx_id = self.next_ctx_id + 1;
        let parent = if self.frames.len() > 0 {
            Some(self.frames[self.frames.len() - 1].id)
        } else {
            None
        };
        let env = match self.bridge.push(id) {
            Ok(e) => e,
            Err(_) => 0,
        };
        let ghost before = self.frames@;
        self.frames.push(ContextFrame::new(id, situation_id, env, trd, parent));
        proof {
            assert(self.frames@.drop_last() =~= before);
        }
        id
    }

    /// Pop the top context: the bridge deactivates its bit, its discourse
    /// referents and conditions are lifted into the frame below, and its
    /// representations are dissolved. Returns the dissolved representations
    /// and the popped frame's referents; `None` when the bridge or the stack
    /// has nothing to pop.
    pub fn pop(&mut self) -> (r: Option<(Vec<Tr>, Vec<String>)>)
        requires
            old(self).wf(),
            old(self).pop_in_sync(),
        ensures
            final(self).wf(),
            final(self).bridge_state() == pop_spec(old(self).bridge_state()).0,
            final(self).lifting_rules() == old(self).lifting_rules(),
            final(self).next_ctx() == old(self).next_ctx(),
            final(self).next_tr() == old(self).next_tr(),
            r.is_some() == (pop_spec(old(self).bridge_state()).1.is_some() && old(self).frames().len() > 0),
            r.is_none() ==> final(self).frames() == old(self).frames(),
            r matches Some((trs, refs)) ==> {
                let f = old(self).frames().last();
                &&& trs@ == dissolved_all(f.active_trs@)
                &&& names_view(refs@) == names_view(f.drs.referents@)
                &&& popped_frames(final(self).frames(), old(self).frames())
            },
    {
        let popped = self.bridge.pop();
        if popped.is_none() {
            return None;
        }
        let frame = match self.frames.pop() {
            Some(f) => f,
            None => {
                return None;
            },
        };
        let ContextFrame { id: _, situation_id: _, atms_env: _, trd: _, active_trs, drs, parent: _ } =
            frame;
        let lifted_referents = copy_names(&drs.referents);
        let k = self.frames.len();
        if k > 0 {
            let ghost rest = self.frames@;
            let mut below = self.frames.pop().unwrap();
            let ghost below0 = below;
            drs.lift_to(&mut below.drs);
            self.frames.push(below);
            proof {
                assert(self.frames@.drop_last() =~= rest.drop_last());
                assert(below == ContextFrame { drs: below.drs, ..below0 });
            }
        }
        let mut trs = active_trs;
        let ghost trs0 = trs@;
        let n = trs.len();
        let mut i: usize = 0;
        while i < n
            invariant
                n == trs@.len(),
                n == trs0.len(),
                i <= n,
                forall|j: int| 0 <= j < i ==> trs@[j] == dissolved(trs0[j]),
                forall|j: int| i <= j < n ==> trs@[j] == trs0[j],
            decreases n - i,
        {
            trs[i].begin_dissolve();
            trs[i].complete_dissolve();
            i = i + 1;
        }
        proof {
            assert(trs@ =~= dissolved_all(trs0));
        }
        Some((trs, lifted_referents))
    }

    /// Shift to a new context: pop the current one, recycle every pending
    /// bit, push a context for `to_situation_id`, and re-activate in it the
    /// popped representations that a lifting rule from the old context to
    /// the new one carries over, with their new types. The new frame starts
    /// with the popped frame's referents. Returns the new context id.
    pub fn shift(&mut self, to_situation_id: u64, trd: Option<TRDId>) -> (new_id: ContextId)
        requires
            old(self).wf(),
            old(self).pop_in_sync(),
            old(self).next_ctx() < u64::MAX,
        ensures
            final(self).wf(),
            ({
                let s0 = old(self).frames();
                let had = pop_spec(old(self).bridge_state()).1.is_some() && s0.len() > 0;
                let f = s0.last();
                let from: ContextId = if s0.len() > 0 { f.id } else { 0 };
                let mid = reclaim_spec(pop_spec(old(self).bridge_state()).0, Seq::empty());
                let below = final(self).frames().drop_last();
                let g = final(self).frames().last();
                &&& new_id == old(self).next_ctx()
                &&& final(self).next_ctx() == new_id + 1
                &&& final(self).next_tr() == old(self).next_tr()
                &&& final(self).lifting_rules() == old(self).lifting_rules()
                &&& final(self).bridge_state() == pushed_bridge(mid, new_id)
                &&& final(self).frames().len() > 0
                &&& (had ==> popped_frames(below, s0))
                &&& (!had ==> below == s0)
                &&& g.id == new_id
                &&& g.situation_id == to_situation_id
                &&& g.atms_env == pushed_env(mid, new_id)
                &&& g.trd == trd
                &&& g.parent == (if below.len() > 0 { Some(below.last().id) } else { None })
                &&& g.drs.conditions@.len() == 0
                &&& names_view(g.drs.referents@) == (if had {
                    merge_seq(Seq::empty(), names_view(f.drs.referents@))
                } else {
                    Seq::empty()
                })
                &&& g.active_trs@ == (if had {
                    relifted(dissolved_all(f.active_trs@), old(self).lifting_rules().rules_for(from, new_id))
                } else {
                    Seq::empty()
                })
            }),
    {
        let old_id = if self.frames.len() > 0 {
            self.frames[self.frames.len() - 1].id
        } else {
            0
        };
        let (dissolved_trs, referents) = match self.pop() {
            Some(p) => p,
            None => (Vec::new(), Vec::new()),
        };
        let no_labels: Vec<Env> = Vec::new();
        self.bridge.try_reclaim_pending(no_labels.as_slice());
        let new_id = self.push(to_situation_id, trd);
        let ghost below = self.frames@.drop_last();
        let mut frame = self.frames.pop().unwrap();
        let ghost frame0 = frame;
        let ghost rules = self.lifting.rules_for(old_id, new_id);
        let ghost trs0 = dissolved_trs@;
        let mut trs = dissolved_trs;
        let n = trs.len();
        let mut i: usize = 0;
        while i < n
            invariant
                self.lifting.wf(),
                rules == self.lifting.rules_for(old_id, new_id),
                trs@.len() == n - i,
                n == trs0.len(),
                i <= n,
                trs@ == trs0.subrange(i as int, n as int),
                frame.active_trs@ == relifted(trs0.subrange(0, i as int), rules),
                frame == (ContextFrame { active_trs: frame.active_trs, ..frame0 }),
            decreases n - i,
        {
            let ghost prefix = trs0.subrange(0, i + 1);
            let mut tr = trs.remove(0);
            proof {
                assert(trs@ =~= trs0.subrange(i + 1, n as int));
                assert(prefix.drop_last() =~= trs0.subrange(0, i as int));
                assert(prefix.last() == tr);
            }
            match self.lifting.lift_tr(&tr, old_id, new_id) {
                Some(t) => {
                    tr.lifecycle = Lifecycle::Active;
                    tr.mtlg_type = t;
                    frame.active_trs.push(tr);
                },
                None => {},
            }
            i = i + 1;
        }
        proof {
            assert(trs0.subrange(0, n as int) =~= trs0);
        }
        let ghost refs0 = frame.drs.referents@;
        merge_names_into(&mut frame.drs.referents, &referents);
        proof {
            assert(names_view(refs0) =~= Seq::<Seq<char>>::empty());
            assert(names_view(referents@).len() == referents@.len());
        }
        self.frames.push(frame);
        proof {
            assert(self.frames@.drop_last() =~= below);
        }
        new_id
    }

    /// Add a representation to the current context: it gets the next
    /// representation id, and the top frame's discourse structure takes in its
    /// content at the stack's depth. Without a frame only the id is used up.
    pub fn add_tr(
        &mut self,
        content: RepContent,
        env: Env,
        mtlg_type: ModalType,
        granularity: Granularity,
    ) -> (id: u64)
        requires
            old(self).next_tr() < u64::MAX,
        ensures
            id == old(self).next_tr(),
            final(self).next_tr() == id + 1,
            final(self).next_ctx() == old(self).next_ctx(),
            final(self).bridge_state() == old(self).bridge_state(),
            final(self).lifting_rules() == old(self).lifting_rules(),
            final(self).frames().len() == old(self).frames().len(),
            old(self).frames().len() == 0 ==> final(self).frames() == old(self).frames(),
            old(self).frames().len() > 0 ==> {
                let f = old(self).frames().last();
                let g = final(self).frames().last();
                let t = g.active_trs@.last();
                &&& final(self).frames().drop_last() == old(self).frames().drop_last()
                &&& g == ContextFrame { active_trs: g.active_trs, drs: g.drs, ..f }
                &&& g.active_trs@.drop_last() == f.active_trs@
                &&& g.active_trs@.len() == f.active_trs@.len() + 1
                &&& t == Tr { provenance: t.provenance, ..t }
                &&& t.id == id
                &&& t.context_id == f.id
                &&& t.content == content
                &&& t.lifecycle == Lifecycle::Active
                &&& t.atms_env == env
                &&& t.provenance@.len() == 0
                &&& t.mtlg_type == mtlg_type
                &&& t.granularity == granularity
                &&& extended_by(g.drs, f.drs, content, old(self).frames().len() as usize)
            },
    {
        let id = self.next_tr_id;
        self.next_tr_id = self.next_tr_id + 1;
        let depth = self.frames.len();
        if depth > 0 {
            let ghost rest = self.frames@;
            let mut frame = self.frames.pop().unwrap();
            let ghost f0 = frame;
            frame.drs.extend_from_tr_at_depth(&content, depth);
            let tr = Tr::new(id, frame.id, content, env, mtlg_type, granularity);
            let ghost trs_before = frame.active_trs@;
            frame.active_trs.push(tr);
            proof {
                assert(frame.active_trs@.drop_last() =~= trs_before);
                assert(frame == ContextFrame { active_trs: frame.active_trs, drs: frame.drs, ..f0 });
            }
            self.frames.push(frame);
            proof {
                assert(self.frames@.drop_last() =~= rest.drop_last());
            }
        }
        id
    }

    /// The bridge's active environment.
    pub fn current_env(&self) -> (r: Env)
        ensures
            r == self.bridge_state().active_env,
    {
        self.bridge.active_env()
    }

    /// The domain of the top frame, if any.
    pub fn current_trd(&self) -> (r: Option<TRDId>)
        ensures
            r == (if self.frames().len() > 0 {
                self.frames().last().trd
            } else {
                None
            }),
    {
        if self.frames.len() > 0 {
            self.frames[self.frames.len() - 1].trd
        } else {
            None
        }
    }

    /// The number of frames.
    pub fn depth(&self) -> (r: usize)
        ensures
            r == self.frames().len(),
    {
        self.frames.len()
    }

    /// The discourse structure of the top frame, if any.
    pub fn current_drs(&self) -> (r: Option<&Drs>)
        ensures
            r == (if self.frames().len() > 0 {
                Some(&self.frames().last().drs)
            } else {
                None
            }),
    {
        if self.frames.len() > 0 {
            Some(&self.frames[self.frames.len() - 1].drs)
        } else {
            None
        }
    }
}

} // verus!
