//! Nogood table: the minimal inconsistent environments. An environment is
//! inconsistent when some nogood is a subset of it.

use vstd::prelude::*;
use smallvec::SmallVec;
use crate::types::Env;
use crate::env::{spec_subsumes, subsumes, law_subsumes_partial_order};

verus! {

broadcast use {vstd::seq_lib::group_filter_ensures, vstd::seq::Seq::lemma_filter_contains_rev};

/// A `SmallVec` of environments with 16 inline slots. Verus refuses to
/// declare `SmallVec` itself (its parameter is bound by the crate's `Array`
/// trait), so the vector is held here, opaque, and reached only through the
/// wrappers below.
#[verifier::external_body]
#[derive(Debug)]
pub struct EnvVec {
    inner: SmallVec<[Env; 16]>,
}

/// The environments that a nogood vector holds, in order.
pub uninterp spec fn env_vec_contents(v: EnvVec) -> Seq<Env>;

/// `SmallVec::new`: an empty vector.
#[verifier::external_body]
fn env_vec_new() -> (v: EnvVec)
    ensures
        env_vec_contents(v) == Seq::<Env>::empty(),
{
    EnvVec { inner: SmallVec::new() }
}

/// `SmallVec::push`: appends `e` at the end. It panics only when the length
/// would overflow `usize`, which `requires` rules out.
#[verifier::external_body]
fn env_vec_push(v: &mut EnvVec, e: Env)
    requires
        env_vec_contents(*old(v)).len() < usize::MAX,
    ensures
        env_vec_contents(*final(v)) == env_vec_contents(*old(v)).push(e),
{
    v.inner.push(e)
}

/// `SmallVec::as_slice`: the elements, in order.
#[verifier::external_body]
fn env_vec_as_slice(v: &EnvVec) -> (s: &[Env])
    ensures
        s@ == env_vec_contents(*v),
{
    v.inner.as_slice()
}

/// `SmallVec::retain` with the predicate `survives(env, _)`: keeps, in their
/// order, the elements on which the predicate holds.
#[verifier::external_body]
fn env_vec_retain_survivors(v: &mut EnvVec, env: Env)
    ensures
        env_vec_contents(*final(v)) == env_vec_contents(*old(v)).filter(survives_spec(env)),
{
    v.inner.retain(|ng| survives(env, *ng))
}

/// A nogood survives the addition of `env` when `env` does not subsume it.
pub open spec fn survives_spec(env: Env) -> spec_fn(Env) -> bool {
    |ng: Env| !spec_subsumes(env, ng)
}

/// Whether `ng` stays in the table when `env` is added.
pub fn survives(env: Env, ng: Env) -> (r: bool)
    ensures
        r == survives_spec(env)(ng),
{
    !subsumes(env, ng)
}

/// Some nogood of `s` is a subset of `e`.
pub open spec fn inconsistent_in(s: Seq<Env>, e: Env) -> bool {
    exists|i: int| 0 <= i < s.len() && spec_subsumes(#[trigger] s[i], e)
}

/// No environment of `s` subsumes another one.
pub open spec fn minimal(s: Seq<Env>) -> bool {
    forall|i: int, j: int|
        0 <= i < s.len() && 0 <= j < s.len() && i != j ==> !spec_subsumes(#[trigger] s[i], #[trigger] s[j])
}

/// The table after adding `env`: unchanged when a nogood already subsumes
/// `env`; otherwise the nogoods that `env` subsumes leave and `env` is appended.
pub open spec fn add_spec(s: Seq<Env>, env: Env) -> Seq<Env> {
    if inconsistent_in(s, env) {
        s
    } else {
        s.filter(survives_spec(env)).push(env)
    }
}

/// Stores minimal nogoods (no entry subsumes another).
#[derive(Debug)]
pub struct NogoodTable {
    nogoods: EnvVec,
}

impl View for NogoodTable {
    type V = Seq<Env>;

    closed spec fn view(&self) -> Seq<Env> {
        env_vec_contents(self.nogoods)
    }
}

impl NogoodTable {
    /// No nogood subsumes another.
    pub open spec fn wf(&self) -> bool {
        minimal(self@)
    }

    /// The empty table.
    pub fn new() -> (r: NogoodTable)
        ensures
            r.wf(),
            r@ == Seq::<Env>::empty(),
    {
        NogoodTable { nogoods: env_vec_new() }
    }

    /// Whether some nogood subsumes `env`.
    pub fn is_inconsistent(&self, env: Env) -> (r: bool)
        ensures
            r == inconsistent_in(self@, env),
    {
        let s = env_vec_as_slice(&self.nogoods);
        let n = s.len();
        let mut i: usize = 0;
        while i < n
            invariant
                n == s@.len(),
                s@ == self@,
                i <= n,
                forall|j: int| 0 <= j < i ==> !spec_subsumes(#[trigger] s@[j], env),
            decreases n - i,
        {
            if subsumes(s[i], env) {
                return true;
            }
            i = i + 1;
        }
        false
    }

    /// Add a nogood, keeping the table minimal: skipped when an existing
    /// nogood subsumes it; otherwise the nogoods it subsumes are removed and
    /// it is appended.
    pub fn add(&mut self, env: Env)
        requires
            old(self).wf(),
            old(self)@.len() < usize::MAX,
        ensures
            final(self).wf(),
            final(self)@ == add_spec(old(self)@, env),
    {
        if self.is_inconsistent(env) {
            return;
        }
        let ghost s0 = self@;
        env_vec_retain_survivors(&mut self.nogoods, env);
        let ghost s1 = self@;
        proof {
            assert(s1.len() <= s0.len());
        }
        env_vec_push(&mut self.nogoods, env);
        proof {
            lemma_add_minimal(s0, env);
        }
    }

    /// The number of nogoods.
    pub fn len(&self) -> (r: usize)
        ensures
            r == self@.len(),
    {
        env_vec_as_slice(&self.nogoods).len()
    }

    /// Whether the table holds no nogood.
    pub fn is_empty(&self) -> (r: bool)
        ensures
            r == (self@.len() == 0),
    {
        env_vec_as_slice(&self.nogoods).len() == 0
    }

    /// The nogoods, in the order they were kept.
    pub fn nogoods(&self) -> (r: &[Env])
        ensures
            r@ == self@,
    {
        env_vec_as_slice(&self.nogoods)
    }
}

impl Default for NogoodTable {
    /// The empty table.
    fn default() -> (r: NogoodTable)
        ensures
            r.wf(),
            r@ == Seq::<Env>::empty(),
    {
        NogoodTable::new()
    }
}

/// A filter of a minimal sequence is minimal.
pub(crate) proof fn lemma_filter_minimal(s: Seq<Env>, p: spec_fn(Env) -> bool)
    requires
        minimal(s),
    ensures
        minimal(s.filter(p)),
    decreases s.len(),
{
    reveal(Seq::filter);
    if s.len() > 0 {
        let rest = s.drop_last();
        assert(minimal(rest)) by {
            assert forall|a: int, b: int|
                0 <= a < rest.len() && 0 <= b < rest.len() && a != b implies !spec_subsumes(
                #[trigger] rest[a],
                #[trigger] rest[b],
            ) by {
                assert(rest[a] == s[a] && rest[b] == s[b]);
            }
        }
        lemma_filter_minimal(rest, p);
        let fr = rest.filter(p);
        if p(s.last()) {
            let f = fr.push(s.last());
            assert(s.filter(p) == f);
            assert forall|i: int, j: int|
                0 <= i < f.len() && 0 <= j < f.len() && i != j implies !spec_subsumes(
                #[trigger] f[i],
                #[trigger] f[j],
            ) by {
                if i < fr.len() && j < fr.len() {
                    assert(f[i] == fr[i] && f[j] == fr[j]);
                } else {
                    let k = if i < fr.len() {
                        i
                    } else {
                        j
                    };
                    assert(fr.contains(fr[k]));
                    rest.lemma_filter_contains_rev(p, fr[k]);
                    let a = choose|a: int| 0 <= a < rest.len() && rest[a] == fr[k];
                    assert(s[a] == fr[k]);
                    assert(s[s.len() - 1] == s.last());
                    assert(!spec_subsumes(s[a], s[s.len() - 1]) && !spec_subsumes(s[s.len() - 1], s[a]));
                }
            }
        }
    }
}

/// Adding an environment that no member subsumes, after dropping the
/// members it subsumes, keeps a sequence minimal.
pub(crate) proof fn lemma_add_minimal(s: Seq<Env>, env: Env)
    requires
        minimal(s),
        !inconsistent_in(s, env),
    ensures
        minimal(s.filter(survives_spec(env))),
        minimal(s.filter(survives_spec(env)).push(env)),
{
    let p = survives_spec(env);
    let f = s.filter(p);
    lemma_filter_minimal(s, p);
    let g = f.push(env);
    assert forall|i: int, j: int|
        0 <= i < g.len() && 0 <= j < g.len() && i != j implies !spec_subsumes(#[trigger] g[i], #[trigger] g[j]) by {
        if i < f.len() && j < f.len() {
            assert(g[i] == f[i] && g[j] == f[j]);
        } else {
            let k = if i < f.len() {
                i
            } else {
                j
            };
            assert(f.contains(f[k]));
            s.lemma_filter_contains_rev(p, f[k]);
            let a = choose|a: int| 0 <= a < s.len() && s[a] == f[k];
            assert(!spec_subsumes(s[a], env));
            assert(p(f[k])) by {
                reveal(Seq::filter);
                s.lemma_filter_pred(p, k);
            }
            assert(g[f.len() as int] == env);
        }
    }
}

/// Adding a nogood adds exactly its supersets to the inconsistent
/// environments: after `add(env)`, `e` is inconsistent exactly when it was
/// before or `env` subsumes it.
pub proof fn law_add_inconsistency(s: Seq<Env>, env: Env, e: Env)
    ensures
        inconsistent_in(add_spec(s, env), e) <==> inconsistent_in(s, e) || spec_subsumes(env, e),
{
    let t = add_spec(s, env);
    if inconsistent_in(s, env) {
        if spec_subsumes(env, e) {
            let i = choose|i: int| 0 <= i < s.len() && spec_subsumes(#[trigger] s[i], env);
            law_subsumes_partial_order(s[i], env, e);
        }
    } else {
        let f = s.filter(survives_spec(env));
        assert(t == f.push(env));
        if spec_subsumes(env, e) {
            assert(t[t.len() - 1] == env);
        }
        if inconsistent_in(s, e) {
            let i = choose|i: int| 0 <= i < s.len() && spec_subsumes(#[trigger] s[i], e);
            if survives_spec(env)(s[i]) {
                assert(f.contains(s[i]));
                let k = choose|k: int| 0 <= k < f.len() && f[k] == s[i];
                assert(t[k] == s[i]);
            } else {
                law_subsumes_partial_order(env, s[i], e);
                assert(t[t.len() - 1] == env);
            }
        }
        if inconsistent_in(t, e) {
            let k = choose|k: int| 0 <= k < t.len() && spec_subsumes(#[trigger] t[k], e);
            if k < f.len() {
                assert(f.contains(f[k]));
                assert(s.contains(f[k]));
                let i = choose|i: int| 0 <= i < s.len() && s[i] == f[k];
                assert(spec_subsumes(s[i], e));
            }
        }
    }
}

/// Adding a nogood keeps the table minimal, makes inconsistent exactly the
/// environments that were inconsistent before or that the new nogood
/// subsumes, and grows the table by at most one entry.
pub proof fn law_add_keeps_table(s: Seq<Env>, env: Env)
    requires
        minimal(s),
    ensures
        minimal(add_spec(s, env)),
        forall|e: Env| #[trigger] inconsistent_in(add_spec(s, env), e) <==> inconsistent_in(s, e) || spec_subsumes(env, e),
        add_spec(s, env).len() <= s.len() + 1,
{
    if !inconsistent_in(s, env) {
        lemma_add_minimal(s, env);
        s.lemma_filter_len(survives_spec(env));
    }
    assert forall|e: Env| #[trigger] inconsistent_in(add_spec(s, env), e) <==> inconsistent_in(s, e) || spec_subsumes(env, e) by {
        law_add_inconsistency(s, env, e);
    }
}

} // verus!
