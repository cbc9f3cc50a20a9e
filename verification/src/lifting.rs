//! Modal lifting rules LR(τ→τ'): transform modal types during context shifts.

use vstd::prelude::*;
use crate::types::{ModalType, ModalMode, TypeCategory, ContextId, mode_eq};
use crate::transient_repr::Tr;

verus! {

/// A lifting rule: transforms a source modal type to a target modal type.
#[derive(Clone, Debug)]
pub struct ModalLiftingRule {
    pub id: u64,
    pub name: String,
    pub source_mode: ModalMode,
    pub source_cat: TypeCategory,
    pub target_mode: ModalMode,
    pub target_cat: TypeCategory,
    /// Optional algebraic transformation tag.
    pub algebraic_transform: Option<String>,
}

/// What rule `r` makes of `ty`: the target mode and category, keeping arity
/// and direction, when `ty` has the source mode and category.
pub open spec fn spec_apply_rule(r: ModalLiftingRule, ty: ModalType) -> Option<ModalType> {
    if ty.mode == r.source_mode && ty.category == r.source_cat {
        Some(
            ModalType {
                mode: r.target_mode,
                category: r.target_cat,
                arity: ty.arity,
                direction: ty.direction,
            },
        )
    } else {
        None
    }
}

/// The result of the first rule in `rules` that applies to `ty`.
pub open spec fn first_match(rules: Seq<ModalLiftingRule>, ty: ModalType) -> Option<ModalType>
    decreases rules.len(),
{
    if rules.len() == 0 {
        None
    } else if spec_apply_rule(rules[0], ty).is_some() {
        spec_apply_rule(rules[0], ty)
    } else {
        first_match(rules.drop_first(), ty)
    }
}

impl ModalLiftingRule {
    pub fn new(
        id: u64,
        name: &str,
        source_mode: ModalMode,
        source_cat: TypeCategory,
        target_mode: ModalMode,
        target_cat: TypeCategory,
    ) -> (r: ModalLiftingRule)
        ensures
            r.id == id,
            r.name@ == name@,
            r.source_mode == source_mode,
            r.source_cat == source_cat,
            r.target_mode == target_mode,
            r.target_cat == target_cat,
            r.algebraic_transform.is_none(),
    {
        ModalLiftingRule {
            id,
            name: name.to_owned(),
            source_mode,
            source_cat,
            target_mode,
            target_cat,
            algebraic_transform: None,
        }
    }

    /// Apply the lifting rule to a modal type if it matches.
    pub fn apply(&self, ty: ModalType) -> (r: Option<ModalType>)
        ensures
            r == spec_apply_rule(*self, ty),
    {
        if mode_eq(ty.mode, self.source_mode) && ty.category.0 == self.source_cat.0 {
            Some(
                ModalType {
                    mode: self.target_mode,
                    category: self.target_cat,
                    arity: ty.arity,
                    direction: ty.direction,
                },
            )
        } else {
            None
        }
    }
}

/// Registry of lifting rules indexed by (source context, target context).
pub struct LiftingRuleRegistry {
    /// Groups of rules, one per context pair, in registration order.
    rules: Vec<(ContextId, ContextId, Vec<ModalLiftingRule>)>,
    /// Rules applied in any shift, after the pair-specific ones.
    default_rules: Vec<ModalLiftingRule>,
}

/// The rules registered for each context pair.
pub open spec fn groups_map(groups: Seq<(ContextId, ContextId, Vec<ModalLiftingRule>)>) -> Map<
    (ContextId, ContextId),
    Seq<ModalLiftingRule>,
> {
    Map::new(
        |k: (ContextId, ContextId)|
            exists|i: int| 0 <= i < groups.len() && (groups[i].0, groups[i].1) == k,
        |k: (ContextId, ContextId)|
            {
                let i = choose|i: int| 0 <= i < groups.len() && (groups[i].0, groups[i].1) == k;
                groups[i].2@
            },
    )
}

pub open spec fn groups_unique(groups: Seq<(ContextId, ContextId, Vec<ModalLiftingRule>)>) -> bool {
    forall|i: int, j: int|
        0 <= i < groups.len() && 0 <= j < groups.len() && i != j ==> (groups[i].0, groups[i].1)
            != (groups[j].0, groups[j].1)
}

proof fn lemma_groups_at(groups: Seq<(ContextId, ContextId, Vec<ModalLiftingRule>)>, i: int)
    requires
        groups_unique(groups),
        0 <= i < groups.len(),
    ensures
        groups_map(groups).dom().contains((groups[i].0, groups[i].1)),
        groups_map(groups)[(groups[i].0, groups[i].1)] == groups[i].2@,
{
    let k = (groups[i].0, groups[i].1);
    let j = choose|j: int| 0 <= j < groups.len() && (groups[j].0, groups[j].1) == k;
    assert(j == i);
}

impl LiftingRuleRegistry {
    pub closed spec fn wf(&self) -> bool {
        groups_unique(self.rules@)
    }

    /// The rules registered for each context pair.
    pub closed spec fn pair_rules(&self) -> Map<(ContextId, ContextId), Seq<ModalLiftingRule>> {
        groups_map(self.rules@)
    }

    /// The rules applied in any shift.
    pub closed spec fn defaults(&self) -> Seq<ModalLiftingRule> {
        self.default_rules@
    }

    /// The rules tried, in order, for a shift from `from_ctx` to `to_ctx`.
    pub open spec fn rules_for(&self, from_ctx: ContextId, to_ctx: ContextId) -> Seq<ModalLiftingRule> {
        (if self.pair_rules().dom().contains((from_ctx, to_ctx)) {
            self.pair_rules()[(from_ctx, to_ctx)]
        } else {
            Seq::empty()
        }) + self.defaults()
    }

    pub fn new() -> (r: LiftingRuleRegistry)
        ensures
            r.wf(),
            r.pair_rules() == Map::<(ContextId, ContextId), Seq<ModalLiftingRule>>::empty(),
            r.defaults() == Seq::<ModalLiftingRule>::empty(),
    {
        let r = LiftingRuleRegistry { rules: Vec::new(), default_rules: Vec::new() };
        assert(r.pair_rules() =~= Map::<(ContextId, ContextId), Seq<ModalLiftingRule>>::empty());
        r
    }

    /// Append `rule` to the rules for shifts from `from_ctx` to `to_ctx`.
    pub fn register(&mut self, from_ctx: ContextId, to_ctx: ContextId, rule: ModalLiftingRule)
        requires
            old(self).wf(),
        ensures
            final(self).wf(),
            final(self).pair_rules() == old(self).pair_rules().insert(
                (from_ctx, to_ctx),
                (if old(self).pair_rules().dom().contains((from_ctx, to_ctx)) {
                    old(self).pair_rules()[(from_ctx, to_ctx)]
                } else {
                    Seq::empty()
                }).push(rule),
            ),
            final(self).defaults() == old(self).defaults(),
    {
        let ghost g0 = self.rules@;
        let ghost key = (from_ctx, to_ctx);
        let n = self.rules.len();
        let mut i: usize = 0;
        while i < n
            invariant
                n == self.rules.len(),
                i <= n,
                self.rules@ == g0,
                g0 == old(self).rules@,
                self.default_rules@ == old(self).default_rules@,
                groups_unique(g0),
                forall|j: int| 0 <= j < i ==> !(g0[j].0 == from_ctx && g0[j].1 == to_ctx),
                key == (from_ctx, to_ctx),
            decreases n - i,
        {
            if self.rules[i].0 == from_ctx && self.rules[i].1 == to_ctx {
                let mut group = self.rules.remove(i);
                group.2.push(rule);
                let ghost g_new = group;
                self.rules.insert(i, group);
                proof {
                    let g1 = self.rules@;
                    assert(g1 =~= g0.update(i as int, g_new));
                    lemma_groups_at(g0, i as int);
                    assert forall|a: int, b: int|
                        0 <= a < g1.len() && 0 <= b < g1.len() && a != b implies (g1[a].0, g1[a].1)
                        != (g1[b].0, g1[b].1) by {
                        assert((g1[a].0, g1[a].1) == (g0[a].0, g0[a].1));
                        assert((g1[b].0, g1[b].1) == (g0[b].0, g0[b].1));
                    }
                    assert(g0[i as int].0 == from_ctx && g0[i as int].1 == to_ctx);
                    assert(g1[i as int].0 == from_ctx && g1[i as int].1 == to_ctx);
                    assert((g1[i as int].0, g1[i as int].1) == key);
                    assert(g1[i as int].2@ == g0[i as int].2@.push(rule));
                    let target = groups_map(g0).insert(key, g0[i as int].2@.push(rule));
                    assert forall|k: (ContextId, ContextId)|
                        groups_map(g1).dom().contains(k) <==> target.dom().contains(k) by {
                        if groups_map(g0).dom().contains(k) {
                            let j = choose|j: int| 0 <= j < g0.len() && (g0[j].0, g0[j].1) == k;
                            assert((g1[j].0, g1[j].1) == k);
                        }
                        if groups_map(g1).dom().contains(k) {
                            let j = choose|j: int| 0 <= j < g1.len() && (g1[j].0, g1[j].1) == k;
                            assert((g0[j].0, g0[j].1) == k);
                        }
                        if k == key {
                            assert((g1[i as int].0, g1[i as int].1) == k);
                        }
                    }
                    assert forall|k: (ContextId, ContextId)| #[trigger]
                        groups_map(g1).dom().contains(k) implies groups_map(g1)[k] == target[k] by {
                        let j = choose|j: int| 0 <= j < g1.len() && (g1[j].0, g1[j].1) == k;
                        lemma_groups_at(g1, j);
                        if j != i {
                            lemma_groups_at(g0, j);
                        }
                    }
                    assert(groups_map(g1) =~= target);
                }
                return ;
            }
            i = i + 1;
        }
        let mut v: Vec<ModalLiftingRule> = Vec::new();
        v.push(rule);
        self.rules.push((from_ctx, to_ctx, v));
        proof {
            let g1 = self.rules@;
            assert forall|a: int, b: int|
                0 <= a < g1.len() && 0 <= b < g1.len() && a != b implies (g1[a].0, g1[a].1)
                != (g1[b].0, g1[b].1) by {
                if a < n {
                    assert(g1[a] == g0[a]);
                }
                if b < n {
                    assert(g1[b] == g0[b]);
                }
            }
            assert(!groups_map(g0).dom().contains(key)) by {
                if groups_map(g0).dom().contains(key) {
                    let j = choose|j: int| 0 <= j < g0.len() && (g0[j].0, g0[j].1) == key;
                }
            }
            let target = groups_map(g0).insert(key, Seq::<ModalLiftingRule>::empty().push(rule));
            assert forall|k: (ContextId, ContextId)|
                groups_map(g1).dom().contains(k) <==> target.dom().contains(k) by {
                if groups_map(g0).dom().contains(k) {
                    let j = choose|j: int| 0 <= j < g0.len() && (g0[j].0, g0[j].1) == k;
                    assert(g1[j] == g0[j]);
                }
                if groups_map(g1).dom().contains(k) && k != key {
                    let j = choose|j: int| 0 <= j < g1.len() && (g1[j].0, g1[j].1) == k;
                    assert(g1[j] == g0[j]);
                }
                if k == key {
                    assert((g1[n as int].0, g1[n as int].1) == k);
                }
            }
            assert forall|k: (ContextId, ContextId)| #[trigger]
                groups_map(g1).dom().contains(k) implies groups_map(g1)[k] == target[k] by {
                let j = choose|j: int| 0 <= j < g1.len() && (g1[j].0, g1[j].1) == k;
                lemma_groups_at(g1, j);
                if j != n {
                    assert(g1[j] == g0[j]);
                    lemma_groups_at(g0, j);
                } else {
                    assert(g1[j].2@ =~= Seq::<ModalLiftingRule>::empty().push(rule));
                }
            }
            assert(groups_map(g1) =~= target);
        }
    }

    /// Add a rule that applies in any shift.
    pub fn register_default(&mut self, rule: ModalLiftingRule)
        requires
            old(self).wf(),
        ensures
            final(self).wf(),
            final(self).pair_rules() == old(self).pair_rules(),
            final(self).defaults() == old(self).defaults().push(rule),
    {
        self.default_rules.push(rule);
    }

    /// Lift a representation from one context to another: the modal type
    /// that the first matching rule gives it, pair-specific rules before
    /// default ones; `None` when no rule matches (the representation is to be
    /// dissolved).
    pub fn lift_tr(&self, tr: &Tr, from_ctx: ContextId, to_ctx: ContextId) -> (r: Option<ModalType>)
        requires
            self.wf(),
        ensures
            r == first_match(self.rules_for(from_ctx, to_ctx), tr.mtlg_type),
    {
        self.lift_type(tr.mtlg_type, from_ctx, to_ctx)
    }

    /// Lift a modal type from one context to another: the result of the first
    /// matching rule, pair-specific rules before default ones; `None` when no
    /// rule matches (the representation is to be dissolved).
    fn lift_type(&self, ty: ModalType, from_ctx: ContextId, to_ctx: ContextId) -> (r: Option<
        ModalType,
    >)
        requires
            self.wf(),
        ensures
            r == first_match(self.rules_for(from_ctx, to_ctx), ty),
    {
        let n = self.rules.len();
        let mut i: usize = 0;
        while i < n
            invariant
                n == self.rules.len(),
                i <= n,
                groups_unique(self.rules@),
                forall|j: int| 0 <= j < i ==> (self.rules@[j].0, self.rules@[j].1) != (from_ctx, to_ctx),
            decreases n - i,
        {
            if self.rules[i].0 == from_ctx && self.rules[i].1 == to_ctx {
                proof {
                    lemma_groups_at(self.rules@, i as int);
                }
                let r = first_of(self.rules[i].2.as_slice(), ty);
                match r {
                    Some(t) => {
                        proof {
                            lemma_first_match_append(self.rules@[i as int].2@, self.default_rules@, ty);
                        }
                        return Some(t);
                    },
                    None => {
                        let d = first_of(self.default_rules.as_slice(), ty);
                        proof {
                            lemma_first_match_append(self.rules@[i as int].2@, self.default_rules@, ty);
                        }
                        return d;
                    },
                }
            }
            i = i + 1;
        }
        proof {
            if self.pair_rules().dom().contains((from_ctx, to_ctx)) {
                let j = choose|j: int|
                    0 <= j < self.rules@.len() && (self.rules@[j].0, self.rules@[j].1) == (
                        from_ctx,
                        to_ctx,
                    );
            }
            assert(self.rules_for(from_ctx, to_ctx) =~= self.default_rules@);
        }
        first_of(self.default_rules.as_slice(), ty)
    }
}

/// The result of the first rule of `rules` that applies to `ty`.
fn first_of(rules: &[ModalLiftingRule], ty: ModalType) -> (r: Option<ModalType>)
    ensures
        r == first_match(rules@, ty),
{
    let n = rules.len();
    let mut i: usize = 0;
    assert(rules@.subrange(0, n as int) =~= rules@);
    while i < n
        invariant
            n == rules@.len(),
            i <= n,
            first_match(rules@, ty) == first_match(rules@.subrange(i as int, n as int), ty),
        decreases n - i,
    {
        let r = rules[i].apply(ty);
        proof {
            let s = rules@.subrange(i as int, n as int);
            assert(s[0] == rules@[i as int]);
            assert(s.drop_first() =~= rules@.subrange(i + 1, n as int));
        }
        if r.is_some() {
            return r;
        }
        i = i + 1;
    }
    proof {
        assert(rules@.subrange(n as int, n as int) =~= Seq::<ModalLiftingRule>::empty());
    }
    None
}

/// The first match over a concatenation is the first match of the first part,
/// or else of the second.
pub proof fn lemma_first_match_append(a: Seq<ModalLiftingRule>, b: Seq<ModalLiftingRule>, ty: ModalType)
    ensures
        first_match(a + b, ty) == (if first_match(a, ty).is_some() {
            first_match(a, ty)
        } else {
            first_match(b, ty)
        }),
    decreases a.len(),
{
    if a.len() == 0 {
        assert(a + b =~= b);
    } else {
        assert((a + b).drop_first() =~= a.drop_first() + b);
        assert((a + b)[0] == a[0]);
        lemma_first_match_append(a.drop_first(), b, ty);
    }
}

/// Lifting is determined by the rules alone: a type lifts to the target of
/// the first matching rule, and a lifted type keeps its arity and direction.
pub proof fn law_lifting_keeps_shape(rules: Seq<ModalLiftingRule>, ty: ModalType)
    ensures
        first_match(rules, ty) matches Some(t) ==> t.arity == ty.arity && t.direction
            == ty.direction,
        first_match(rules, ty).is_none() ==> forall|i: int|
            0 <= i < rules.len() ==> spec_apply_rule(#[trigger] rules[i], ty).is_none(),
    decreases rules.len(),
{
    if rules.len() > 0 {
        law_lifting_keeps_shape(rules.drop_first(), ty);
        assert forall|i: int| 1 <= i < rules.len() implies rules[i] == rules.drop_first()[i - 1] by {}
    }
}


/// A rule lifts exactly the types of its source mode and category: any type
/// of another mode or category is left alone, and a type it lifts gets the
/// rule's target mode and category with its own arity and direction.
pub proof fn law_rule_matches_source(r: ModalLiftingRule, ty: ModalType)
    ensures
        spec_apply_rule(r, ty).is_some() <==> (ty.mode == r.source_mode && ty.category == r.source_cat),
        spec_apply_rule(r, ty) matches Some(t) ==> t.mode == r.target_mode && t.category == r.target_cat
            && t.arity == ty.arity && t.direction == ty.direction,
{
}
} // verus!
