//! Assumption environments: a `u64` bit vector over up to 64 assumptions.
//! Switching context is O(1): only the active environment changes.

use vstd::prelude::*;
use crate::types::{Env, NodeId};

verus! {

/// Assumption `b` holds in environment `e`.
pub open spec fn holds(e: Env, b: u64) -> bool {
    b < 64 && (e >> b) & 1 == 1
}

/// The set of assumptions of `e`.
pub open spec fn env_set(e: Env) -> Set<u64> {
    Set::new(|b: u64| holds(e, b))
}

/// `e1` subsumes `e2`: every assumption of `e1` is an assumption of `e2`.
pub open spec fn spec_subsumes(e1: Env, e2: Env) -> bool {
    e1 & e2 == e1
}

/// Number of assumptions among the first `n` bit positions.
pub open spec fn count_below(e: Env, n: nat) -> nat
    decreases n,
{
    if n == 0 {
        0
    } else {
        count_below(e, (n - 1) as nat) + if holds(e, (n - 1) as u64) {
            1nat
        } else {
            0nat
        }
    }
}

/// Agreement on all bits from `k` upward gives equal shifted values.
proof fn lemma_shift_agree(x: Env, y: Env, k: u64)
    requires
        k <= 63,
        forall|b: u64| b < 64 ==> (holds(x, b) <==> holds(y, b)),
    ensures
        (x >> k) == (y >> k),
    decreases 63 - k,
{
    assert(holds(x, k) <==> holds(y, k));
    if k == 63 {
        assert((x >> 63u64) == (y >> 63u64)) by (bit_vector)
            requires
                ((x >> 63u64) & 1 == 1) <==> ((y >> 63u64) & 1 == 1),
        ;
    } else {
        let k1 = (k + 1) as u64;
        lemma_shift_agree(x, y, k1);
        assert((x >> k) == (y >> k)) by (bit_vector)
            requires
                k < 63,
                k1 == k + 1,
                (x >> k1) == (y >> k1),
                ((x >> k) & 1 == 1) <==> ((y >> k) & 1 == 1),
        ;
    }
}

/// Two environments with the same assumptions are equal.
pub proof fn lemma_env_ext(x: Env, y: Env)
    requires
        forall|b: u64| b < 64 ==> (holds(x, b) <==> holds(y, b)),
    ensures
        x == y,
{
    lemma_shift_agree(x, y, 0);
    assert((x >> 0u64) == x && (y >> 0u64) == y) by (bit_vector);
}

/// Subsumption is the subset relation on assumption sets.
pub proof fn lemma_subsumes_is_subset(e1: Env, e2: Env)
    ensures
        spec_subsumes(e1, e2) <==> env_set(e1).subset_of(env_set(e2)),
{
    assert forall|b: u64| spec_subsumes(e1, e2) && holds(e1, b) implies holds(e2, b) by {
        assert(e1 & e2 == e1 && b < 64 && (e1 >> b) & 1 == 1 ==> (e2 >> b) & 1 == 1)
            by (bit_vector);
    }
    if env_set(e1).subset_of(env_set(e2)) {
        assert forall|b: u64| b < 64 implies (holds(e1 & e2, b) <==> holds(e1, b)) by {
            assert(env_set(e1).contains(b) ==> env_set(e2).contains(b));
            assert(b < 64 ==> (((e1 & e2) >> b) & 1 == 1 <==> ((e1 >> b) & 1 == 1 && (e2
                >> b) & 1 == 1))) by (bit_vector);
        }
        lemma_env_ext(e1 & e2, e1);
    }
}

/// E1 subsumes E2: every assumption in E1 is in E2.
pub fn subsumes(e1: Env, e2: Env) -> (r: bool)
    ensures
        r == spec_subsumes(e1, e2),
        r <==> env_set(e1).subset_of(env_set(e2)),
{
    proof {
        lemma_subsumes_is_subset(e1, e2);
    }
    e1 & e2 == e1
}

/// The union of the first `n` environments of `labels`.
pub open spec fn union_of(labels: Seq<Env>, n: int) -> Env
    decreases n,
{
    if n <= 0 {
        0
    } else {
        union_of(labels, n - 1) | labels[n - 1]
    }
}

/// The environment that supports a derivation from `antecedents`: the union
/// of their labels, as `label_of` gives them in order. `None` as soon as an
/// antecedent has no label; the later ones are then not looked up.
pub fn required_env<F: Fn(NodeId) -> Option<Env>>(antecedents: &[NodeId], label_of: F) -> (r: Option<Env>)
    requires
        forall|n: NodeId| call_requires(label_of, (n,)),
    ensures
        r matches Some(e) ==> exists|labels: Seq<Env>|
            {
                &&& labels.len() == antecedents@.len()
                &&& forall|i: int| 0 <= i < labels.len() ==> call_ensures(label_of, (antecedents@[i],), Some(#[trigger] labels[i]))
                &&& e == union_of(labels, labels.len() as int)
            },
        r is None ==> exists|k: int| 0 <= k < antecedents@.len() && #[trigger] call_ensures(
            label_of,
            (antecedents@[k],),
            None::<Env>,
        ),
{
    let n = antecedents.len();
    let mut env: Env = 0;
    let mut i: usize = 0;
    let ghost mut labels: Seq<Env> = Seq::empty();
    while i < n
        invariant
            n == antecedents@.len(),
            i <= n,
            forall|m: NodeId| call_requires(label_of, (m,)),
            labels.len() == i,
            forall|k: int| 0 <= k < i ==> call_ensures(label_of, (antecedents@[k],), Some(#[trigger] labels[k])),
            env == union_of(labels, i as int),
        decreases n - i,
    {
        match label_of(antecedents[i]) {
            Some(l) => {
                let ghost prev = labels;
                proof {
                    labels = labels.push(l);
                    lemma_union_prefix(prev, labels, i as int);
                    assert(labels[i as int] == l);
                    assert forall|k: int| 0 <= k < i + 1 implies call_ensures(label_of, (antecedents@[k],), Some(#[trigger] labels[k])) by {
                        if k < i {
                            assert(labels[k] == prev[k]);
                        }
                    }
                }
                env = env | l;
            },
            None => {
                return None;
            },
        }
        i = i + 1;
    }
    Some(env)
}

/// The union of a prefix depends on the prefix alone.
proof fn lemma_union_prefix(a: Seq<Env>, b: Seq<Env>, n: int)
    requires
        0 <= n <= a.len(),
        n <= b.len(),
        forall|k: int| 0 <= k < n ==> a[k] == b[k],
    ensures
        union_of(a, n) == union_of(b, n),
    decreases n,
{
    if n > 0 {
        lemma_union_prefix(a, b, n - 1);
    }
}

/// Set union of two environments.
pub fn union(e1: Env, e2: Env) -> (r: Env)
    ensures
        r == e1 | e2,
        env_set(r) == env_set(e1).union(env_set(e2)),
{
    let r = e1 | e2;
    assert forall|b: u64| holds(r, b) <==> (holds(e1, b) || holds(e2, b)) by {
        assert(r == e1 | e2 ==> (b < 64 && (r >> b) & 1 == 1 <==> (b < 64 && (e1 >> b) & 1 == 1)
            || (b < 64 && (e2 >> b) & 1 == 1))) by (bit_vector);
    }
    assert(env_set(r) =~= env_set(e1).union(env_set(e2)));
    r
}

/// Set intersection of two environments.
pub fn intersect(e1: Env, e2: Env) -> (r: Env)
    ensures
        r == e1 & e2,
        env_set(r) == env_set(e1).intersect(env_set(e2)),
{
    let r = e1 & e2;
    assert forall|b: u64| holds(r, b) <==> (holds(e1, b) && holds(e2, b)) by {
        assert(r == e1 & e2 ==> (b < 64 && (r >> b) & 1 == 1 <==> (b < 64 && (e1 >> b) & 1 == 1)
            && (b < 64 && (e2 >> b) & 1 == 1))) by (bit_vector);
    }
    assert(env_set(r) =~= env_set(e1).intersect(env_set(e2)));
    r
}

/// The empty environment (no assumptions active).
pub fn empty() -> (r: Env)
    ensures
        r == 0,
        env_set(r) == Set::<u64>::empty(),
{
    assert forall|b: u64| !holds(0, b) by {
        assert((0u64 >> b) & 1 == 0) by (bit_vector);
    }
    assert(env_set(0) =~= Set::<u64>::empty());
    0
}

/// Singleton environment: exactly assumption `bit`.
pub fn singleton(bit: u8) -> (r: Env)
    requires
        bit < 64,
    ensures
        r == 1u64 << (bit as u64),
        env_set(r) == Set::<u64>::empty().insert(bit as u64),
{
    let b = bit as u64;
    let r = 1u64 << b;
    assert forall|c: u64| holds(r, c) <==> c == b by {
        assert(b < 64 && r == 1u64 << b ==> (c < 64 && (r >> c) & 1 == 1 <==> c == b))
            by (bit_vector);
    }
    assert(env_set(r) =~= Set::<u64>::empty().insert(b));
    r
}

/// No assumption is active in `e`.
pub fn is_empty(e: Env) -> (r: bool)
    ensures
        r == (e == 0),
        r <==> env_set(e) == Set::<u64>::empty(),
{
    if e != 0 {
        proof {
            if env_set(e) == Set::<u64>::empty() {
                assert forall|b: u64| b < 64 implies (holds(e, b) <==> holds(0, b)) by {
                    assert(!env_set(e).contains(b));
                    assert((0u64 >> b) & 1 == 0) by (bit_vector);
                }
                lemma_env_ext(e, 0);
            }
        }
    } else {
        assert forall|b: u64| !holds(0, b) by {
            assert((0u64 >> b) & 1 == 0) by (bit_vector);
        }
        assert(env_set(0) =~= Set::<u64>::empty());
    }
    e == 0
}

/// Number of assumptions in this environment.
pub fn assumption_count(e: Env) -> (r: u32)
    ensures
        r == count_below(e, 64),
        r == env_set(e).len(),
{
    let mut n: u32 = 0;
    let mut b: u64 = 0;
    while b < 64
        invariant
            b <= 64,
            n == count_below(e, b as nat),
            n <= b,
        decreases 64 - b,
    {
        if (e >> b) & 1 == 1 {
            n = n + 1;
        }
        b = b + 1;
    }
    proof {
        lemma_count_is_len(e, 64);
        assert(env_set(e) =~= Set::new(|c: u64| c < 64 && holds(e, c)));
    }
    n
}

/// `count_below(e, n)` is the size of the set of assumptions below `n`.
pub proof fn lemma_count_is_len(e: Env, n: nat)
    requires
        n <= 64,
    ensures
        Set::new(|c: u64| c < n && holds(e, c)).finite(),
        count_below(e, n) == Set::new(|c: u64| c < n && holds(e, c)).len(),
    decreases n,
{
    let s = Set::new(|c: u64| c < n && holds(e, c));
    if n == 0 {
        assert(s =~= Set::<u64>::empty());
    } else {
        lemma_count_is_len(e, (n - 1) as nat);
        let p = Set::new(|c: u64| c < n - 1 && holds(e, c));
        let k = (n - 1) as u64;
        if holds(e, k) {
            assert(s =~= p.insert(k));
        } else {
            assert(s =~= p);
        }
    }
}

/// Remove assumption `bit` from environment.
pub fn remove_bit(e: Env, bit: u8) -> (r: Env)
    requires
        bit < 64,
    ensures
        r == e & !(1u64 << (bit as u64)),
        env_set(r) == env_set(e).remove(bit as u64),
{
    let b = bit as u64;
    let r = e & !(1u64 << b);
    assert forall|c: u64| holds(r, c) <==> (holds(e, c) && c != b) by {
        assert(b < 64 && r == e & !(1u64 << b) ==> (c < 64 && (r >> c) & 1 == 1 <==> (c < 64
            && (e >> c) & 1 == 1 && c != b))) by (bit_vector);
    }
    assert(env_set(r) =~= env_set(e).remove(b));
    r
}

/// Whether assumption `bit` is active in `e`.
pub fn has_bit(e: Env, bit: u8) -> (r: bool)
    requires
        bit < 64,
    ensures
        r == holds(e, bit as u64),
        r == env_set(e).contains(bit as u64),
{
    let b = bit as u64;
    let r = e & (1u64 << b) != 0;
    assert(b < 64 ==> ((e & (1u64 << b) != 0) <==> (e >> b) & 1 == 1)) by (bit_vector);
    r
}

/// The assumption bit positions set in `e`, in increasing order.
pub fn active_bits(e: Env) -> (r: Vec<u8>)
    ensures
        forall|i: int, j: int| 0 <= i < j < r.len() ==> r[i] < r[j],
        forall|i: int| 0 <= i < r.len() ==> holds(e, r[i] as u64),
        forall|b: u64| holds(e, b) ==> r@.contains(b as u8),
        r.len() == env_set(e).len(),
{
    let mut r: Vec<u8> = Vec::new();
    let mut b: u8 = 0;
    while b < 64
        invariant
            b <= 64,
            forall|i: int, j: int| 0 <= i < j < r.len() ==> r[i] < r[j],
            forall|i: int| 0 <= i < r.len() ==> r[i] < b && holds(e, r[i] as u64),
            forall|c: u64| c < b && holds(e, c) ==> r@.contains(c as u8),
            r.len() == count_below(e, b as nat),
        decreases 64 - b,
    {
        let ghost r0 = r@;
        if has_bit(e, b) {
            r.push(b);
            assert(r[r.len() - 1] == b);
        }
        assert forall|c: u64| c < b + 1 && holds(e, c) implies r@.contains(c as u8) by {
            if c < b {
                let i = choose|i: int| 0 <= i < r0.len() && r0[i] == c as u8;
                assert(r@[i] == c as u8);
            } else {
                assert(r@[r.len() - 1] == c as u8);
            }
        }
        b = b + 1;
    }
    proof {
        lemma_count_is_len(e, 64);
        assert(env_set(e) =~= Set::new(|c: u64| c < 64 && holds(e, c)));
    }
    r
}

/// Subsumption is a partial order: reflexive, transitive and antisymmetric.
pub proof fn law_subsumes_partial_order(a: Env, b: Env, c: Env)
    ensures
        spec_subsumes(a, a),
        spec_subsumes(a, b) && spec_subsumes(b, c) ==> spec_subsumes(a, c),
        spec_subsumes(a, b) && spec_subsumes(b, a) ==> a == b,
{
    assert(a & a == a) by (bit_vector);
    assert((a & b == a && b & c == b) ==> a & c == a) by (bit_vector);
    assert((a & b == a && b & a == b) ==> a == b) by (bit_vector);
}

/// The empty environment subsumes every environment.
pub proof fn law_empty_subsumes_all(e: Env)
    ensures
        spec_subsumes(0, e),
{
    assert(0u64 & e == 0) by (bit_vector);
}

/// Union is commutative, associative and idempotent, and is the least
/// environment that both operands subsume.
pub proof fn law_union_join(a: Env, b: Env, c: Env)
    ensures
        a | b == b | a,
        (a | b) | c == a | (b | c),
        a | a == a,
        spec_subsumes(a, a | b) && spec_subsumes(b, a | b),
        spec_subsumes(a, c) && spec_subsumes(b, c) ==> spec_subsumes(a | b, c),
{
    assert(a | b == b | a) by (bit_vector);
    assert((a | b) | c == a | (b | c)) by (bit_vector);
    assert(a | a == a) by (bit_vector);
    assert(a & (a | b) == a && b & (a | b) == b) by (bit_vector);
    assert((a & c == a && b & c == b) ==> (a | b) & c == (a | b)) by (bit_vector);
}

/// Intersection is the greatest environment that subsumes both operands.
pub proof fn law_intersect_meet(a: Env, b: Env, c: Env)
    ensures
        a & b == b & a,
        spec_subsumes(a & b, a) && spec_subsumes(a & b, b),
        spec_subsumes(c, a) && spec_subsumes(c, b) ==> spec_subsumes(c, a & b),
{
    assert(a & b == b & a) by (bit_vector);
    assert((a & b) & a == (a & b) && (a & b) & b == (a & b)) by (bit_vector);
    assert((c & a == c && c & b == c) ==> c & (a & b) == c) by (bit_vector);
}

} // verus!
