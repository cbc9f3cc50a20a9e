//! Bridge between the context stack and ATMS environments.
//! Each context corresponds to one assumption bit; push activates it, pop
//! deactivates it in O(1). Popped bits wait in a pending pool until no live
//! label references them, and are then recycled, so any number of sequential
//! contexts is supported, with at most 64 active at once.

use vstd::prelude::*;
use std::collections::{HashMap, VecDeque};
use crate::types::{ContextId, Env};
use crate::env::{singleton, union, remove_bit, empty, holds, env_set};

verus! {

broadcast use vstd::std_specs::hash::group_hash_axioms;

/// Errors of the context bridge.
#[derive(Debug)]
pub enum AtmsError {
    /// All 64 assumption bits are in use and none are reclaimable.
    AssumptionSpaceExhausted,
    /// The requested context was not found in the bridge.
    ContextNotFound(ContextId),
}

/// Manages the mapping from contexts to ATMS environments.
#[derive(Clone, Debug)]
pub struct ContextBridge {
    context_to_bit: HashMap<ContextId, u8>,
    bit_to_context: HashMap<u8, ContextId>,
    next_fresh_bit: u8,
    free_bits: VecDeque<u8>,
    /// Bits that are popped but may still be referenced by live labels.
    pending_free: Vec<u8>,
    active_env: Env,
    stack: Vec<ContextId>,
}

/// The abstract state of a bridge.
pub struct BridgeView {
    pub context_to_bit: Map<ContextId, u8>,
    pub bit_to_context: Map<u8, ContextId>,
    pub next_fresh_bit: u8,
    pub free_bits: Seq<u8>,
    pub pending_free: Seq<u8>,
    pub active_env: Env,
    pub stack: Seq<ContextId>,
}

impl View for ContextBridge {
    type V = BridgeView;

    closed spec fn view(&self) -> BridgeView {
        BridgeView {
            context_to_bit: self.context_to_bit@,
            bit_to_context: self.bit_to_context@,
            next_fresh_bit: self.next_fresh_bit,
            free_bits: self.free_bits@,
            pending_free: self.pending_free@,
            active_env: self.active_env,
            stack: self.stack@,
        }
    }
}

/// Some label in `live` references bit `b`.
pub open spec fn referenced(live: Seq<Env>, b: u8) -> bool {
    exists|i: int| 0 <= i < live.len() && holds(#[trigger] live[i], b as u64)
}

/// Well-formedness of a bridge state.
pub open spec fn view_wf(v: BridgeView) -> bool {
    &&& v.next_fresh_bit <= 64
    &&& forall|b: u8| #[trigger] v.bit_to_context.contains_key(b) ==> b < v.next_fresh_bit
    &&& forall|c: ContextId| #[trigger] v.context_to_bit.contains_key(c) ==> {
        &&& v.bit_to_context.contains_key(v.context_to_bit[c])
        &&& v.bit_to_context[v.context_to_bit[c]] == c
    }
    &&& (v.free_bits + v.pending_free).no_duplicates()
    &&& forall|i: int|
        0 <= i < (v.free_bits + v.pending_free).len() ==> {
            &&& #[trigger] (v.free_bits + v.pending_free)[i] < v.next_fresh_bit
            &&& !v.bit_to_context.contains_key((v.free_bits + v.pending_free)[i])
        }
    &&& forall|b: u8| #[trigger] holds(v.active_env, b as u64) <==> v.bit_to_context.contains_key(b)
    &&& forall|b: u64| #[trigger] holds(v.active_env, b) ==> b < 64
}

/// The state of a new bridge: no context, no bit handed out.
pub open spec fn initial_view() -> BridgeView {
    BridgeView {
        context_to_bit: Map::empty(),
        bit_to_context: Map::empty(),
        next_fresh_bit: 0,
        free_bits: Seq::empty(),
        pending_free: Seq::empty(),
        active_env: 0,
        stack: Seq::empty(),
    }
}

/// The bit that the next push takes, with the resulting fresh counter and free pool.
pub open spec fn next_bit(v: BridgeView) -> Option<(u8, u8, Seq<u8>)> {
    if v.free_bits.len() > 0 {
        Some((v.free_bits[0], v.next_fresh_bit, v.free_bits.subrange(1, v.free_bits.len() as int)))
    } else if v.next_fresh_bit < 64 {
        Some((v.next_fresh_bit, (v.next_fresh_bit + 1) as u8, v.free_bits))
    } else {
        None
    }
}

/// The state after pushing `ctx`, or `None` when the assumption space is exhausted.
pub open spec fn push_spec(v: BridgeView, ctx: ContextId) -> Option<BridgeView> {
    match next_bit(v) {
        Some((bit, fresh, free)) => Some(
            BridgeView {
                context_to_bit: v.context_to_bit.insert(ctx, bit),
                bit_to_context: v.bit_to_context.insert(bit, ctx),
                next_fresh_bit: fresh,
                free_bits: free,
                active_env: v.active_env | (1u64 << (bit as u64)),
                stack: v.stack.push(ctx),
                ..v
            },
        ),
        None => None,
    }
}

/// The stack filter that drops `ctx`.
pub open spec fn keep_other(ctx: ContextId) -> spec_fn(ContextId) -> bool {
    |c: ContextId| c != ctx
}

/// Deactivate `ctx` if it holds a bit and drop it from the stack.
pub open spec fn remove_ctx_spec(v: BridgeView, ctx: ContextId) -> BridgeView {
    let stack = v.stack.filter(keep_other(ctx));
    if v.context_to_bit.contains_key(ctx) {
        let bit = v.context_to_bit[ctx];
        BridgeView {
            context_to_bit: v.context_to_bit.remove(ctx),
            bit_to_context: v.bit_to_context.remove(bit),
            pending_free: v.pending_free.push(bit),
            active_env: v.active_env & !(1u64 << (bit as u64)),
            stack,
            ..v
        }
    } else {
        BridgeView { stack, ..v }
    }
}

/// Deactivate each of `ctxs` in turn.
pub open spec fn remove_all_spec(v: BridgeView, ctxs: Seq<ContextId>) -> BridgeView
    decreases ctxs.len(),
{
    if ctxs.len() == 0 {
        v
    } else {
        remove_ctx_spec(remove_all_spec(v, ctxs.drop_last()), ctxs.last())
    }
}

/// The state after a pop and what the pop returns: the top context, its bit
/// and the new active environment, when the top context holds a bit.
pub open spec fn pop_spec(v: BridgeView) -> (BridgeView, Option<(ContextId, u8, Env)>) {
    if v.stack.len() == 0 {
        (v, None)
    } else {
        let ctx = v.stack.last();
        let popped = BridgeView { stack: v.stack.drop_last(), ..v };
        if v.context_to_bit.contains_key(ctx) {
            let bit = v.context_to_bit[ctx];
            let w = remove_ctx_spec(popped, ctx);
            (BridgeView { stack: v.stack.drop_last(), ..w }, Some((ctx, bit, w.active_env)))
        } else {
            (popped, None)
        }
    }
}

/// The state after recycling the pending bits that no label of `live` references.
pub open spec fn reclaim_spec(v: BridgeView, live: Seq<Env>) -> BridgeView {
    BridgeView {
        free_bits: v.free_bits + v.pending_free.filter(|b: u8| !referenced(live, b)),
        pending_free: v.pending_free.filter(|b: u8| referenced(live, b)),
        ..v
    }
}

/// Move every pending bit to the free pool.
pub open spec fn reclaim_all_spec(v: BridgeView) -> BridgeView {
    BridgeView { free_bits: v.free_bits + v.pending_free, pending_free: Seq::empty(), ..v }
}

proof fn lemma_bit_ops(e: Env, bit: u8)
    requires
        bit < 64,
    ensures
        forall|b: u64| #[trigger]
            holds(e | (1u64 << (bit as u64)), b) <==> (holds(e, b) || b == bit as u64),
        forall|b: u64| #[trigger]
            holds(e & !(1u64 << (bit as u64)), b) <==> (holds(e, b) && b != bit as u64),
{
    let k = bit as u64;
    assert forall|b: u64| #[trigger]
        holds(e | (1u64 << (bit as u64)), b) <==> (holds(e, b) || b == bit as u64) by {
        assert(k < 64 ==> ((b < 64 && ((e | (1u64 << k)) >> b) & 1 == 1) <==> ((b < 64 && (e
            >> b) & 1 == 1) || b == k))) by (bit_vector);
    }
    assert forall|b: u64| #[trigger]
        holds(e & !(1u64 << (bit as u64)), b) <==> (holds(e, b) && b != bit as u64) by {
        assert(k < 64 ==> ((b < 64 && ((e & !(1u64 << k)) >> b) & 1 == 1) <==> ((b < 64 && (e
            >> b) & 1 == 1) && b != k))) by (bit_vector);
    }
}

proof fn lemma_push_wf(v: BridgeView, ctx: ContextId)
    requires
        view_wf(v),
        push_spec(v, ctx).is_some(),
    ensures
        view_wf(push_spec(v, ctx).unwrap()),
{
    let (bit, fresh, free) = next_bit(v).unwrap();
    let w = push_spec(v, ctx).unwrap();
    let old_pool = v.free_bits + v.pending_free;
    let pool = w.free_bits + w.pending_free;
    if v.free_bits.len() > 0 {
        assert(old_pool[0] == bit);
        assert(pool =~= old_pool.subrange(1, old_pool.len() as int));
        assert forall|i: int| 0 <= i < pool.len() implies pool[i] != bit by {
            assert(pool[i] == old_pool[i + 1]);
        }
    } else {
        assert(pool =~= old_pool);
        assert forall|i: int| 0 <= i < pool.len() implies pool[i] != bit by {
            assert(pool[i] < v.next_fresh_bit);
        }
    }
    assert(!v.bit_to_context.contains_key(bit)) by {
        if v.free_bits.len() > 0 {
            assert(old_pool[0] == bit);
        }
    }
    assert forall|c: ContextId| #[trigger] w.context_to_bit.contains_key(c) implies {
        &&& w.bit_to_context.contains_key(w.context_to_bit[c])
        &&& w.bit_to_context[w.context_to_bit[c]] == c
    } by {
        if c != ctx {
            assert(v.context_to_bit.contains_key(c));
            assert(v.bit_to_context.contains_key(v.context_to_bit[c]));
        }
    }
    lemma_bit_ops(v.active_env, bit);
    assert forall|b: u8| #[trigger] holds(w.active_env, b as u64) <==> w.bit_to_context.contains_key(b)
        by {
        assert(holds(w.active_env, b as u64) <==> (holds(v.active_env, b as u64) || b as u64
            == bit as u64));
    }
    assert forall|b: u64| #[trigger] holds(w.active_env, b) implies b < 64 by {}
}

proof fn lemma_remove_ctx_wf(v: BridgeView, ctx: ContextId)
    requires
        view_wf(v),
    ensures
        view_wf(remove_ctx_spec(v, ctx)),
{
    let w = remove_ctx_spec(v, ctx);
    if v.context_to_bit.contains_key(ctx) {
        let bit = v.context_to_bit[ctx];
        assert(v.bit_to_context.contains_key(bit));
        let old_pool = v.free_bits + v.pending_free;
        let pool = w.free_bits + w.pending_free;
        assert(pool =~= old_pool.push(bit));
        assert forall|i: int, j: int| 0 <= i < j < pool.len() implies pool[i] != pool[j] by {
            if j == pool.len() - 1 {
                assert(pool[i] == old_pool[i]);
                assert(!v.bit_to_context.contains_key(old_pool[i]));
            } else {
                assert(pool[i] == old_pool[i] && pool[j] == old_pool[j]);
            }
        }
        assert forall|i: int| 0 <= i < pool.len() implies {
            &&& #[trigger] pool[i] < w.next_fresh_bit
            &&& !w.bit_to_context.contains_key(pool[i])
        } by {
            if i < pool.len() - 1 {
                assert(pool[i] == old_pool[i]);
            }
        }
        assert forall|c: ContextId| #[trigger] w.context_to_bit.contains_key(c) implies {
            &&& w.bit_to_context.contains_key(w.context_to_bit[c])
            &&& w.bit_to_context[w.context_to_bit[c]] == c
        } by {
            assert(v.context_to_bit.contains_key(c));
            assert(v.bit_to_context[v.context_to_bit[c]] == c);
            assert(v.context_to_bit[c] != bit);
        }
        lemma_bit_ops(v.active_env, bit);
        assert forall|b: u8| #[trigger] holds(w.active_env, b as u64) <==> w.bit_to_context.contains_key(b)
            by {
            assert(holds(w.active_env, b as u64) <==> (holds(v.active_env, b as u64) && b as u64
                != bit as u64));
        }
    }
}

proof fn lemma_remove_all_wf(v: BridgeView, ctxs: Seq<ContextId>)
    requires
        view_wf(v),
    ensures
        view_wf(remove_all_spec(v, ctxs)),
    decreases ctxs.len(),
{
    if ctxs.len() > 0 {
        lemma_remove_all_wf(v, ctxs.drop_last());
        lemma_remove_ctx_wf(remove_all_spec(v, ctxs.drop_last()), ctxs.last());
    }
}

proof fn lemma_reclaim_all_wf(v: BridgeView)
    requires
        view_wf(v),
    ensures
        view_wf(reclaim_all_spec(v)),
{
    let w = reclaim_all_spec(v);
    assert(w.free_bits + w.pending_free =~= v.free_bits + v.pending_free);
}

impl ContextBridge {
    /// The bridge invariant.
    pub open spec fn wf(&self) -> bool {
        view_wf(self@)
    }

    pub fn new() -> (r: ContextBridge)
        ensures
            r.wf(),
            r@.context_to_bit == Map::<ContextId, u8>::empty(),
            r@.bit_to_context == Map::<u8, ContextId>::empty(),
            r@.next_fresh_bit == 0,
            r@.free_bits == Seq::<u8>::empty(),
            r@.pending_free == Seq::<u8>::empty(),
            r@.active_env == 0,
            r@.stack == Seq::<ContextId>::empty(),
    {
        let r = ContextBridge {
            context_to_bit: HashMap::new(),
            bit_to_context: HashMap::new(),
            next_fresh_bit: 0,
            free_bits: VecDeque::new(),
            pending_free: Vec::new(),
            active_env: empty(),
            stack: Vec::new(),
        };
        assert forall|b: u64| !holds(0, b) by {
            assert((0u64 >> b) & 1 == 0) by (bit_vector);
        }
        assert(r@.free_bits + r@.pending_free =~= Seq::<u8>::empty());
        r
    }

    /// Allocate a bit for `ctx` (a recycled one first, else a fresh one) and
    /// activate it. Fails only when no bit is free and all 64 were handed out.
    pub fn push(&mut self, ctx: ContextId) -> (r: Result<Env, AtmsError>)
        requires
            old(self).wf(),
        ensures
            final(self).wf(),
            match push_spec(old(self)@, ctx) {
                Some(w) => final(self)@ == w && r == Ok::<Env, AtmsError>(w.active_env),
                None => final(self)@ == old(self)@ && r matches Err(
                    AtmsError::AssumptionSpaceExhausted,
                ),
            },
    {
        proof {
            if push_spec(self@, ctx).is_some() {
                lemma_push_wf(self@, ctx);
            }
        }
        let bit: u8;
        if self.free_bits.len() > 0 {
            let b = self.free_bits.pop_front().unwrap();
            bit = b;
        } else if self.next_fresh_bit < 64 {
            bit = self.next_fresh_bit;
            self.next_fresh_bit = self.next_fresh_bit + 1;
        } else {
            return Err(AtmsError::AssumptionSpaceExhausted);
        }
        proof {
            let pool = old(self)@.free_bits + old(self)@.pending_free;
            if old(self)@.free_bits.len() > 0 {
                assert(pool[0] == bit);
            }
        }
        self.context_to_bit.insert(ctx, bit);
        self.bit_to_context.insert(bit, ctx);
        self.active_env = union(self.active_env, singleton(bit));
        self.stack.push(ctx);
        Ok(self.active_env)
    }

    /// Deactivate the top context's bit and queue it for recycling.
    /// Returns the context, its bit and the new active environment.
    pub fn pop(&mut self) -> (r: Option<(ContextId, u8, Env)>)
        requires
            old(self).wf(),
        ensures
            final(self).wf(),
            (final(self)@, r) == pop_spec(old(self)@),
    {
        let ctx = match self.stack.pop() {
            Some(c) => c,
            None => {
                return None;
            },
        };
        let ghost popped = self@;
        proof {
            assert(popped == (BridgeView { stack: old(self)@.stack.drop_last(), ..old(self)@ }));
            assert(view_wf(popped));
            lemma_remove_ctx_wf(popped, ctx);
        }
        let bit = match self.context_to_bit.remove(&ctx) {
            Some(b) => b,
            None => {
                proof {
                    assert(self@.context_to_bit =~= popped.context_to_bit);
                }
                return None;
            },
        };
        proof {
            assert(popped.bit_to_context.contains_key(bit));
        }
        self.bit_to_context.remove(&bit);
        self.active_env = remove_bit(self.active_env, bit);
        self.pending_free.push(bit);
        proof {
            let r = remove_ctx_spec(popped, ctx);
            assert(self@.context_to_bit =~= r.context_to_bit);
            assert(self@.bit_to_context =~= r.bit_to_context);
            assert(self@.pending_free =~= r.pending_free);
            assert(self@.free_bits =~= r.free_bits);
            assert(self@ == BridgeView { stack: self@.stack, ..r });
        }
        Some((ctx, bit, self.active_env))
    }

    /// Deactivate one context: free its bit into the pending pool and drop it
    /// from the stack.
    fn remove_ctx(&mut self, ctx: ContextId)
        requires
            old(self).wf(),
        ensures
            final(self).wf(),
            final(self)@ == remove_ctx_spec(old(self)@, ctx),
    {
        proof {
            lemma_remove_ctx_wf(self@, ctx);
        }
        match self.context_to_bit.remove(&ctx) {
            Some(bit) => {
                self.active_env = remove_bit(self.active_env, bit);
                self.bit_to_context.remove(&bit);
                self.pending_free.push(bit);
            },
            None => {
                proof {
                    assert(self@.context_to_bit =~= old(self)@.context_to_bit);
                }
            },
        }
        let ghost mid = self@;
        let mut kept: Vec<ContextId> = Vec::new();
        let n = self.stack.len();
        let mut i: usize = 0;
        while i < n
            invariant
                n == self.stack.len(),
                i <= n,
                kept@ == self.stack@.subrange(0, i as int).filter(keep_other(ctx)),
                self@ == mid,
            decreases n - i,
        {
            let c = self.stack[i];
            proof {
                reveal(Seq::filter);
                assert(self.stack@.subrange(0, i + 1).drop_last() =~= self.stack@.subrange(
                    0,
                    i as int,
                ));
                assert(self.stack@.subrange(0, i + 1).last() == c);
            }
            if c != ctx {
                kept.push(c);
            }
            i = i + 1;
        }
        proof {
            assert(self.stack@.subrange(0, n as int) =~= self.stack@);
        }
        self.stack = kept;
        proof {
            assert(self@.context_to_bit =~= remove_ctx_spec(old(self)@, ctx).context_to_bit);
            assert(self@.bit_to_context =~= remove_ctx_spec(old(self)@, ctx).bit_to_context);
            assert(self@.pending_free =~= remove_ctx_spec(old(self)@, ctx).pending_free);
            assert(self@.stack =~= remove_ctx_spec(old(self)@, ctx).stack);
        }
    }

    /// Move every pending bit to the free pool, without checking live labels.
    fn reclaim_all(&mut self)
        requires
            old(self).wf(),
        ensures
            final(self).wf(),
            final(self)@ == reclaim_all_spec(old(self)@),
    {
        proof {
            lemma_reclaim_all_wf(self@);
        }
        let n = self.pending_free.len();
        let mut i: usize = 0;
        while i < n
            invariant
                n == self.pending_free.len(),
                i <= n,
                self.free_bits@ == old(self)@.free_bits + self.pending_free@.subrange(0, i as int),
                self.pending_free@ == old(self)@.pending_free,
                self.context_to_bit@ == old(self)@.context_to_bit,
                self.bit_to_context@ == old(self)@.bit_to_context,
                self.next_fresh_bit == old(self)@.next_fresh_bit,
                self.active_env == old(self)@.active_env,
                self.stack@ == old(self)@.stack,
            decreases n - i,
        {
            let b = self.pending_free[i];
            self.free_bits.push_back(b);
            proof {
                assert(self.pending_free@.subrange(0, i + 1) =~= self.pending_free@.subrange(
                    0,
                    i as int,
                ).push(b));
            }
            i = i + 1;
        }
        proof {
            assert(self.pending_free@.subrange(0, n as int) =~= self.pending_free@);
        }
        self.pending_free.clear();
        proof {
            assert(self@.pending_free =~= Seq::<u8>::empty());
        }
    }

    /// Shift: deactivate `remove_ctxs`, recycle every pending bit, then push
    /// `add_ctx` if given. Returns the resulting active environment; when the
    /// push finds no bit, the context is not activated.
    pub fn shift(&mut self, remove_ctxs: &[ContextId], add_ctx: Option<ContextId>) -> (r: Env)
        requires
            old(self).wf(),
        ensures
            final(self).wf(),
            ({
                let mid = reclaim_all_spec(remove_all_spec(old(self)@, remove_ctxs@));
                match add_ctx {
                    None => final(self)@ == mid && r == mid.active_env,
                    Some(c) => match push_spec(mid, c) {
                        Some(w) => final(self)@ == w && r == w.active_env,
                        None => final(self)@ == mid && r == mid.active_env,
                    },
                }
            }),
    {
        let n = remove_ctxs.len();
        let mut i: usize = 0;
        while i < n
            invariant
                n == remove_ctxs@.len(),
                i <= n,
                self.wf(),
                self@ == remove_all_spec(old(self)@, remove_ctxs@.subrange(0, i as int)),
            decreases n - i,
        {
            self.remove_ctx(remove_ctxs[i]);
            proof {
                assert(remove_ctxs@.subrange(0, i + 1).drop_last() =~= remove_ctxs@.subrange(
                    0,
                    i as int,
                ));
            }
            i = i + 1;
        }
        proof {
            assert(remove_ctxs@.subrange(0, n as int) =~= remove_ctxs@);
        }
        self.reclaim_all();
        match add_ctx {
            Some(ctx) => {
                match self.push(ctx) {
                    Ok(env) => {
                        return env;
                    },
                    Err(_) => {},
                }
            },
            None => {},
        }
        self.active_env
    }

    pub fn active_env(&self) -> (r: Env)
        ensures
            r == self@.active_env,
    {
        self.active_env
    }

    /// The singleton environment of `ctx`'s bit, if `ctx` holds one.
    pub fn env_for(&self, ctx: ContextId) -> (r: Option<Env>)
        requires
            self.wf(),
        ensures
            r == (if self@.context_to_bit.contains_key(ctx) {
                Some(1u64 << (self@.context_to_bit[ctx] as u64))
            } else {
                None
            }),
    {
        match self.context_to_bit.get(&ctx) {
            Some(b) => {
                proof {
                    assert(self@.context_to_bit.contains_key(ctx));
                    assert(self@.context_to_bit[ctx] == *b);
                    assert(self@.bit_to_context.contains_key(self@.context_to_bit[ctx]));
                    assert(self@.bit_to_context.contains_key(*b));
                }
                Some(singleton(*b))
            },
            None => None,
        }
    }

    pub fn current_context(&self) -> (r: Option<ContextId>)
        ensures
            r == (if self@.stack.len() > 0 {
                Some(self@.stack.last())
            } else {
                None
            }),
    {
        if self.stack.len() > 0 {
            Some(self.stack[self.stack.len() - 1])
        } else {
            None
        }
    }

    /// The number of contexts mapped to bits and of bits mapped to contexts.
    pub fn mapping_sizes(&self) -> (r: (usize, usize))
        ensures
            r.0 == self@.context_to_bit.len(),
            r.1 == self@.bit_to_context.len(),
    {
        (self.context_to_bit.len(), self.bit_to_context.len())
    }

    pub fn depth(&self) -> (r: usize)
        ensures
            r == self@.stack.len(),
    {
        self.stack.len()
    }

    /// Recycle the pending bits that no label in `live_labels` references;
    /// the others stay pending, in their order.
    pub fn try_reclaim_pending(&mut self, live_labels: &[Env])
        requires
            old(self).wf(),
        ensures
            final(self).wf(),
            final(self)@ == reclaim_spec(old(self)@, live_labels@),
    {
        let pending = self.pending_free.clone();
        proof {
            let pool = self@.free_bits + self@.pending_free;
            assert forall|j: int| 0 <= j < pending@.len() implies #[trigger] pending@[j] < 64 by {
                assert(pool[self@.free_bits.len() + j] == pending@[j]);
            }
        }
        let mut kept: Vec<u8> = Vec::new();
        let n = pending.len();
        let mut i: usize = 0;
        while i < n
            invariant
                n == pending@.len(),
                pending@ == old(self)@.pending_free,
                i <= n,
                self.free_bits@ == old(self)@.free_bits + pending@.subrange(0, i as int).filter(
                    |b: u8| !referenced(live_labels@, b),
                ),
                kept@ == pending@.subrange(0, i as int).filter(
                    |b: u8| referenced(live_labels@, b),
                ),
                self.context_to_bit@ == old(self)@.context_to_bit,
                self.bit_to_context@ == old(self)@.bit_to_context,
                self.next_fresh_bit == old(self)@.next_fresh_bit,
                self.active_env == old(self)@.active_env,
                self.stack@ == old(self)@.stack,
                forall|j: int| 0 <= j < n ==> #[trigger] pending@[j] < 64,
            decreases n - i,
        {
            let bit = pending[i];
            proof {
                reveal(Seq::filter);
                assert(pending@.subrange(0, i + 1).drop_last() =~= pending@.subrange(0, i as int));
                assert(pending@.subrange(0, i + 1).last() == bit);
            }
            if is_referenced(live_labels, bit) {
                kept.push(bit);
            } else {
                self.free_bits.push_back(bit);
            }
            i = i + 1;
        }
        proof {
            assert(pending@.subrange(0, n as int) =~= pending@);
        }
        self.pending_free = kept;
        proof {
            lemma_filter_partition_wf(old(self)@, live_labels@);
        }
    }
}

/// Pushing a context and popping it again gives back that context and the
/// active environment from before the push: the pushed bit was not active.
pub proof fn law_push_pop_restores(v: BridgeView, ctx: ContextId)
    requires
        view_wf(v),
        push_spec(v, ctx).is_some(),
    ensures
        ({
            let w = push_spec(v, ctx).unwrap();
            let bit = next_bit(v).unwrap().0;
            &&& pop_spec(w).1 == Some((ctx, bit, v.active_env))
            &&& pop_spec(w).0.stack == v.stack
            &&& pop_spec(w).0.active_env == v.active_env
            &&& pop_spec(w).0.pending_free == v.pending_free.push(bit)
        }),
{
    let w = push_spec(v, ctx).unwrap();
    let (bit, fresh, free) = next_bit(v).unwrap();
    let pool = v.free_bits + v.pending_free;
    if v.free_bits.len() > 0 {
        assert(pool[0] == bit);
    }
    assert(!v.bit_to_context.contains_key(bit));
    assert(!holds(v.active_env, bit as u64));
    assert(w.stack.drop_last() =~= v.stack);
    lemma_bit_ops(v.active_env, bit);
    lemma_bit_ops(w.active_env, bit);
    let u = pop_spec(w).0;
    assert forall|b: u64| b < 64 implies (holds(u.active_env, b) <==> holds(v.active_env, b)) by {}
    crate::env::lemma_env_ext(u.active_env, v.active_env);
}

/// The bridge supports any number of sequential contexts: after a push, a pop
/// and recycling with no live labels, the next push always finds a bit.
pub proof fn law_sequential_never_exhausts(v: BridgeView, ctx: ContextId, next: ContextId)
    requires
        view_wf(v),
        push_spec(v, ctx).is_some(),
    ensures
        ({
            let popped = pop_spec(push_spec(v, ctx).unwrap()).0;
            let u = reclaim_spec(popped, Seq::empty());
            &&& view_wf(u)
            &&& push_spec(u, next).is_some()
            &&& u.pending_free.len() == 0
        }),
{
    let w = push_spec(v, ctx).unwrap();
    lemma_push_wf(v, ctx);
    law_push_pop_restores(v, ctx);
    let popped = pop_spec(w).0;
    let bit = next_bit(v).unwrap().0;
    let ww = BridgeView { stack: w.stack.drop_last(), ..w };
    assert(w.context_to_bit.contains_key(ctx));
    lemma_remove_ctx_wf(ww, ctx);
    assert(popped == (BridgeView { stack: w.stack.drop_last(), ..remove_ctx_spec(ww, ctx) }));
    assert(view_wf(popped)) by {
        let r = remove_ctx_spec(ww, ctx);
        assert(popped == (BridgeView { stack: w.stack.drop_last(), ..r }));
    }
    lemma_filter_partition_wf(popped, Seq::empty());
    let u = reclaim_spec(popped, Seq::empty());
    reveal(Seq::filter);
    assert forall|b: u8| !referenced(Seq::<Env>::empty(), b) by {}
    popped.pending_free.filter_lemma(|b: u8| !referenced(Seq::<Env>::empty(), b));
    let f = popped.pending_free.filter(|b: u8| !referenced(Seq::<Env>::empty(), b));
    assert(popped.pending_free.last() == bit);
    assert(f.contains(bit)) by {
        let i = popped.pending_free.len() - 1;
        assert(popped.pending_free[i] == bit);
    }
    assert(u.free_bits.len() > 0);
    popped.pending_free.filter_lemma(|b: u8| referenced(Seq::<Env>::empty(), b));
    assert(u.pending_free.len() == 0) by {
        let g = popped.pending_free.filter(|b: u8| referenced(Seq::<Env>::empty(), b));
        if g.len() > 0 {
            assert(referenced(Seq::<Env>::empty(), g[0]));
        }
    }
}

proof fn lemma_pop_wf(v: BridgeView)
    requires
        view_wf(v),
    ensures
        view_wf(pop_spec(v).0),
{
    if v.stack.len() > 0 {
        let ctx = v.stack.last();
        let popped = BridgeView { stack: v.stack.drop_last(), ..v };
        if v.context_to_bit.contains_key(ctx) {
            lemma_remove_ctx_wf(popped, ctx);
            let w = remove_ctx_spec(popped, ctx);
            assert(pop_spec(v).0 == (BridgeView { stack: v.stack.drop_last(), ..w }));
        }
    }
}

/// The state after a run of pushes (`Some(ctx)`) and pops (`None`), a push
/// that finds no bit leaving the state as it was.
pub open spec fn run_spec(v: BridgeView, ops: Seq<Option<ContextId>>) -> BridgeView
    decreases ops.len(),
{
    if ops.len() == 0 {
        v
    } else {
        let u = run_spec(v, ops.drop_last());
        match ops.last() {
            Some(c) => match push_spec(u, c) {
                Some(w) => w,
                None => u,
            },
            None => pop_spec(u).0,
        }
    }
}

/// A pending bit is never handed out: a push takes another bit and keeps the
/// pending pool, and a pop only adds to it.
pub proof fn law_pending_bit_not_taken(v: BridgeView, b: u8, ctx: ContextId)
    requires
        view_wf(v),
        v.pending_free.contains(b),
    ensures
        next_bit(v) matches Some(n) ==> n.0 != b,
        push_spec(v, ctx) matches Some(w) ==> w.pending_free == v.pending_free,
        pop_spec(v).0.pending_free.contains(b),
        !v.bit_to_context.contains_key(b),
{
    let pool = v.free_bits + v.pending_free;
    let k = choose|k: int| 0 <= k < v.pending_free.len() && v.pending_free[k] == b;
    assert(pool[v.free_bits.len() + k] == b);
    if v.free_bits.len() > 0 {
        assert(pool[0] == v.free_bits[0]);
    }
    if v.stack.len() > 0 && v.context_to_bit.contains_key(v.stack.last()) {
        let u = pop_spec(v).0;
        assert(u.pending_free[k] == b);
    }
}

/// Over any run of pushes and pops, a pending bit stays pending and belongs
/// to no context: it is handed out again only after a reclaim or a shift
/// releases it.
pub proof fn law_pending_bit_survives_run(v: BridgeView, ops: Seq<Option<ContextId>>, b: u8)
    requires
        view_wf(v),
        v.pending_free.contains(b),
    ensures
        view_wf(run_spec(v, ops)),
        run_spec(v, ops).pending_free.contains(b),
        !run_spec(v, ops).bit_to_context.contains_key(b),
    decreases ops.len(),
{
    if ops.len() > 0 {
        law_pending_bit_survives_run(v, ops.drop_last(), b);
        let u = run_spec(v, ops.drop_last());
        match ops.last() {
            Some(c) => {
                law_pending_bit_not_taken(u, b, c);
                if push_spec(u, c).is_some() {
                    lemma_push_wf(u, c);
                }
            },
            None => {
                law_pending_bit_not_taken(u, b, 0);
                lemma_pop_wf(u);
            },
        }
        law_pending_bit_not_taken(run_spec(v, ops), b, 0);
    } else {
        law_pending_bit_not_taken(v, b, 0);
    }
}

/// Reclaiming with live labels keeps every referenced pending bit pending and
/// out of the free pool, and changes neither the active environment, the
/// stack nor the mapping between contexts and bits.
pub proof fn law_reclaim_keeps_referenced(v: BridgeView, live: Seq<Env>, b: u8)
    requires
        view_wf(v),
        v.pending_free.contains(b),
        referenced(live, b),
    ensures
        reclaim_spec(v, live).pending_free.contains(b),
        !reclaim_spec(v, live).free_bits.contains(b),
        reclaim_spec(v, live).active_env == v.active_env,
        reclaim_spec(v, live).stack == v.stack,
        reclaim_spec(v, live).context_to_bit == v.context_to_bit,
        reclaim_spec(v, live).bit_to_context == v.bit_to_context,
{
    let u = reclaim_spec(v, live);
    let p = v.pending_free;
    let keep = |x: u8| referenced(live, x);
    let drop = |x: u8| !referenced(live, x);
    let k = choose|k: int| 0 <= k < p.len() && p[k] == b;
    p.lemma_filter_contains(keep, k);
    let pool = v.free_bits + p;
    assert(pool[v.free_bits.len() + k] == b);
    if v.free_bits.contains(b) {
        let i = choose|i: int| 0 <= i < v.free_bits.len() && v.free_bits[i] == b;
        assert(pool[i] == b);
    }
    let f = p.filter(drop);
    if f.contains(b) {
        let i = choose|i: int| 0 <= i < f.len() && f[i] == b;
        p.lemma_filter_pred(drop, i);
    }
    if u.free_bits.contains(b) {
        let i = choose|i: int| 0 <= i < u.free_bits.len() && u.free_bits[i] == b;
        if i < v.free_bits.len() {
            assert(v.free_bits[i] == b);
        } else {
            assert(f[i - v.free_bits.len()] == b);
        }
    }
}

/// The environment of a context holding a bit is the singleton of that bit,
/// is part of the active environment, and shares no assumption with the
/// environment of any other such context.
pub proof fn law_env_for_live(v: BridgeView, c1: ContextId, c2: ContextId)
    requires
        view_wf(v),
        v.context_to_bit.contains_key(c1),
    ensures
        ({
            let e1 = 1u64 << (v.context_to_bit[c1] as u64);
            &&& env_set(e1) == Set::<u64>::empty().insert(v.context_to_bit[c1] as u64)
            &&& crate::env::spec_subsumes(e1, v.active_env)
            &&& (c2 != c1 && v.context_to_bit.contains_key(c2)) ==> e1 & (1u64 << (v.context_to_bit[c2] as u64)) == 0
        }),
{
    let b1 = v.context_to_bit[c1];
    assert(v.bit_to_context.contains_key(b1));
    assert(b1 < 64);
    let k1 = b1 as u64;
    let a = v.active_env;
    assert(holds(a, k1));
    assert forall|c: u64| holds(1u64 << k1, c) <==> c == k1 by {
        assert(k1 < 64 ==> (c < 64 && ((1u64 << k1) >> c) & 1 == 1 <==> c == k1)) by (bit_vector);
    }
    assert(env_set(1u64 << k1) =~= Set::<u64>::empty().insert(k1));
    assert(k1 < 64 && (a >> k1) & 1 == 1 ==> (1u64 << k1) & a == (1u64 << k1)) by (bit_vector);
    if c2 != c1 && v.context_to_bit.contains_key(c2) {
        let b2 = v.context_to_bit[c2];
        assert(v.bit_to_context.contains_key(b2));
        assert(b1 != b2);
        let k2 = b2 as u64;
        assert(k1 < 64 && k2 < 64 && k1 != k2 ==> (1u64 << k1) & (1u64 << k2) == 0) by (bit_vector);
    }
}

/// How one step changes which bit a context holds: a push gives the pushed
/// context the next bit and leaves the others; removing, popping or
/// reclaiming takes the bit from the removed context only.
pub proof fn law_env_for_steps(v: BridgeView, c: ContextId, d: ContextId, live: Seq<Env>)
    requires
        view_wf(v),
    ensures
        push_spec(v, c) matches Some(w) ==> w.context_to_bit.contains_key(c) && w.context_to_bit[c]
            == next_bit(v).unwrap().0,
        d != c && push_spec(v, d) is Some ==> push_spec(v, d)->0.context_to_bit.contains_key(c)
            == v.context_to_bit.contains_key(c) && push_spec(v, d)->0.context_to_bit[c]
            == v.context_to_bit[c],
        !remove_ctx_spec(v, c).context_to_bit.contains_key(c),
        d != c ==> remove_ctx_spec(v, d).context_to_bit.contains_key(c) == v.context_to_bit.contains_key(c)
            && remove_ctx_spec(v, d).context_to_bit[c] == v.context_to_bit[c],
        v.stack.len() > 0 && v.stack.last() == c ==> !pop_spec(v).0.context_to_bit.contains_key(c),
        v.stack.len() > 0 && v.stack.last() != c ==> pop_spec(v).0.context_to_bit == v.context_to_bit
            || pop_spec(v).0.context_to_bit == v.context_to_bit.remove(v.stack.last()),
        reclaim_spec(v, live).context_to_bit == v.context_to_bit,
{
}

/// One call on a bridge, as the laws over histories see it.
pub ghost enum BridgeCall {
    Push(ContextId),
    Pop,
    Shift(Seq<ContextId>, Option<ContextId>),
    Reclaim(Seq<Env>),
}

/// The state after one call, as the call's contract gives it (a push that
/// finds no bit leaves the state as it was).
pub open spec fn call_spec(v: BridgeView, call: BridgeCall) -> BridgeView {
    match call {
        BridgeCall::Push(c) => match push_spec(v, c) {
            Some(w) => w,
            None => v,
        },
        BridgeCall::Pop => pop_spec(v).0,
        BridgeCall::Shift(removed, added) => {
            let mid = reclaim_all_spec(remove_all_spec(v, removed));
            match added {
                Some(c) => match push_spec(mid, c) {
                    Some(w) => w,
                    None => mid,
                },
                None => mid,
            }
        },
        BridgeCall::Reclaim(live) => reclaim_spec(v, live),
    }
}

/// The state after a history of calls.
pub open spec fn history_spec(v: BridgeView, calls: Seq<BridgeCall>) -> BridgeView
    decreases calls.len(),
{
    if calls.len() == 0 {
        v
    } else {
        call_spec(history_spec(v, calls.drop_last()), calls.last())
    }
}

/// The call leaves `c`'s bit alone: it neither pushes `c` again, nor pops it
/// (from state `v`), nor shifts it out.
pub open spec fn spares(v: BridgeView, call: BridgeCall, c: ContextId) -> bool {
    match call {
        BridgeCall::Push(d) => d != c,
        BridgeCall::Pop => v.stack.len() == 0 || v.stack.last() != c,
        BridgeCall::Shift(removed, added) => !removed.contains(c) && added != Some(c),
        BridgeCall::Reclaim(_) => true,
    }
}

/// The call can give `d` a bit: it pushes `d`, or shifts it in.
pub open spec fn may_add(call: BridgeCall, d: ContextId) -> bool {
    match call {
        BridgeCall::Push(x) => x == d,
        BridgeCall::Shift(_, added) => added == Some(d),
        _ => false,
    }
}

proof fn lemma_remove_all_keeps(v: BridgeView, ctxs: Seq<ContextId>, c: ContextId)
    ensures
        remove_all_spec(v, ctxs).context_to_bit.contains_key(c) ==> v.context_to_bit.contains_key(c)
            && remove_all_spec(v, ctxs).context_to_bit[c] == v.context_to_bit[c],
        !ctxs.contains(c) && v.context_to_bit.contains_key(c) ==> remove_all_spec(v, ctxs).context_to_bit.contains_key(c),
    decreases ctxs.len(),
{
    if ctxs.len() > 0 {
        lemma_remove_all_keeps(v, ctxs.drop_last(), c);
        if !ctxs.contains(c) {
            assert(ctxs.last() != c) by {
                assert(ctxs[ctxs.len() - 1] == ctxs.last());
            }
            assert forall|i: int| 0 <= i < ctxs.drop_last().len() implies ctxs.drop_last()[i] != c by {
                assert(ctxs.drop_last()[i] == ctxs[i]);
            }
        }
    }
}

proof fn lemma_call_wf(v: BridgeView, call: BridgeCall)
    requires
        view_wf(v),
    ensures
        view_wf(call_spec(v, call)),
{
    match call {
        BridgeCall::Push(c) => {
            if push_spec(v, c).is_some() {
                lemma_push_wf(v, c);
            }
        },
        BridgeCall::Pop => {
            lemma_pop_wf(v);
        },
        BridgeCall::Shift(removed, added) => {
            lemma_remove_all_wf(v, removed);
            lemma_reclaim_all_wf(remove_all_spec(v, removed));
            let mid = reclaim_all_spec(remove_all_spec(v, removed));
            if let Some(c) = added {
                if push_spec(mid, c).is_some() {
                    lemma_push_wf(mid, c);
                }
            }
        },
        BridgeCall::Reclaim(live) => {
            lemma_filter_partition_wf(v, live);
        },
    }
}

/// One call keeps the bit of a context it spares, and gives a bit only to a
/// context it may add.
proof fn lemma_call_keeps(v: BridgeView, call: BridgeCall, c: ContextId)
    requires
        view_wf(v),
    ensures
        spares(v, call, c) && v.context_to_bit.contains_key(c) ==> call_spec(v, call).context_to_bit.contains_key(c)
            && call_spec(v, call).context_to_bit[c] == v.context_to_bit[c],
        !may_add(call, c) && !v.context_to_bit.contains_key(c) ==> !call_spec(v, call).context_to_bit.contains_key(c),
{
    match call {
        BridgeCall::Shift(removed, added) => {
            lemma_remove_all_keeps(v, removed, c);
        },
        _ => {},
    }
}

/// A context holds the same bit through any history that spares it: pushed
/// and not since popped or shifted out, its environment stays the singleton
/// of its bit, inside the active environment and disjoint from that of every
/// other context holding a bit; and a context that holds no bit gets none
/// until a call pushes or shifts it in.
pub proof fn law_history_keeps_bit(v: BridgeView, calls: Seq<BridgeCall>, c: ContextId, c2: ContextId)
    requires
        view_wf(v),
    ensures
        view_wf(history_spec(v, calls)),
        v.context_to_bit.contains_key(c) && (forall|i: int|
            0 <= i < calls.len() ==> #[trigger] spares(history_spec(v, calls.take(i)), calls[i], c)) ==> {
            let u = history_spec(v, calls);
            let e = 1u64 << (v.context_to_bit[c] as u64);
            &&& u.context_to_bit.contains_key(c)
            &&& u.context_to_bit[c] == v.context_to_bit[c]
            &&& env_set(e) == Set::<u64>::empty().insert(v.context_to_bit[c] as u64)
            &&& crate::env::spec_subsumes(e, u.active_env)
            &&& (c2 != c && u.context_to_bit.contains_key(c2)) ==> e & (1u64 << (u.context_to_bit[c2] as u64)) == 0
        },
        !v.context_to_bit.contains_key(c) && (forall|i: int| 0 <= i < calls.len() ==> !#[trigger] may_add(calls[i], c))
            ==> !history_spec(v, calls).context_to_bit.contains_key(c),
    decreases calls.len(),
{
    if calls.len() > 0 {
        let init = calls.drop_last();
        let n = calls.len() - 1;
        assert forall|i: int| 0 <= i < init.len() implies init.take(i) =~= calls.take(i) && init[i] == calls[i] by {}
        assert(calls.take(n) =~= init);
        if v.context_to_bit.contains_key(c) && (forall|i: int|
            0 <= i < calls.len() ==> #[trigger] spares(history_spec(v, calls.take(i)), calls[i], c)) {
            assert forall|i: int| 0 <= i < init.len() implies #[trigger] spares(history_spec(v, init.take(i)), init[i], c) by {
                assert(spares(history_spec(v, calls.take(i)), calls[i], c));
            }
            assert(spares(history_spec(v, calls.take(n)), calls[n], c));
        }
        if !v.context_to_bit.contains_key(c) && (forall|i: int| 0 <= i < calls.len() ==> !#[trigger] may_add(calls[i], c)) {
            assert forall|i: int| 0 <= i < init.len() implies !#[trigger] may_add(init[i], c) by {
                assert(!may_add(calls[i], c));
            }
            assert(!may_add(calls[n], c));
        }
        law_history_keeps_bit(v, init, c, c2);
        let u0 = history_spec(v, init);
        lemma_call_wf(u0, calls.last());
        lemma_call_keeps(u0, calls.last(), c);
    }
    let u = history_spec(v, calls);
    if u.context_to_bit.contains_key(c) {
        law_env_for_live(u, c, c2);
    }
}

proof fn lemma_filter_partition_wf(v: BridgeView, live: Seq<Env>)
    requires
        view_wf(v),
    ensures
        view_wf(
            BridgeView {
                free_bits: v.free_bits + v.pending_free.filter(|b: u8| !referenced(live, b)),
                pending_free: v.pending_free.filter(|b: u8| referenced(live, b)),
                ..v
            },
        ),
{
    let p = v.pending_free;
    let f1 = p.filter(|b: u8| !referenced(live, b));
    let f2 = p.filter(|b: u8| referenced(live, b));
    let old_pool = v.free_bits + p;
    let pool = v.free_bits + f1 + f2;
    assert(pool.to_multiset() =~= old_pool.to_multiset()) by {
        p.filter_lemma(|b: u8| !referenced(live, b));
        lemma_filter_split_multiset(p, live);
        vstd::seq_lib::lemma_multiset_commutative(v.free_bits, p);
        vstd::seq_lib::lemma_multiset_commutative(v.free_bits + f1, f2);
        vstd::seq_lib::lemma_multiset_commutative(v.free_bits, f1);
        vstd::seq_lib::lemma_multiset_commutative(f1, f2);
    }
    broadcast use vstd::seq_lib::group_to_multiset_ensures;

    old_pool.lemma_multiset_has_no_duplicates();
    pool.lemma_multiset_has_no_duplicates_conv();
    assert forall|i: int| 0 <= i < pool.len() implies {
        &&& #[trigger] pool[i] < v.next_fresh_bit
        &&& !v.bit_to_context.contains_key(pool[i])
    } by {
        assert(pool.to_multiset().count(pool[i]) > 0);
        assert(old_pool.to_multiset().count(pool[i]) > 0);
        assert(old_pool.contains(pool[i]));
    }
}

proof fn lemma_filter_split_multiset(p: Seq<u8>, live: Seq<Env>)
    ensures
        p.filter(|b: u8| !referenced(live, b)).to_multiset().add(
            p.filter(|b: u8| referenced(live, b)).to_multiset(),
        ) =~= p.to_multiset(),
    decreases p.len(),
{
    broadcast use vstd::seq_lib::group_to_multiset_ensures;

    if p.len() > 0 {
        lemma_filter_split_multiset(p.drop_last(), live);
        let q = p.drop_last();
        assert(p =~= q.push(p.last()));
        reveal_with_fuel(Seq::filter, 1);
    }
}

/// Some label in `live` references `bit`.
fn is_referenced(live: &[Env], bit: u8) -> (r: bool)
    requires
        bit < 64,
    ensures
        r == referenced(live@, bit),
{
    let n = live.len();
    let mut i: usize = 0;
    while i < n
        invariant
            n == live@.len(),
            i <= n,
            bit < 64,
            forall|j: int| 0 <= j < i ==> !holds(#[trigger] live@[j], bit as u64),
        decreases n - i,
    {
        let env = live[i];
        let b = bit as u64;
        if env & singleton(bit) != 0 {
            assert(b < 64 ==> ((env & (1u64 << b) != 0) <==> (env >> b) & 1 == 1))
                by (bit_vector);
            return true;
        }
        assert(b < 64 ==> ((env & (1u64 << b) != 0) <==> (env >> b) & 1 == 1)) by (bit_vector);
        i = i + 1;
    }
    false
}

} // verus!
