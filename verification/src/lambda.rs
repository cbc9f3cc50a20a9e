//! Typed lambda terms with capture-avoiding substitution and normal-order
//! reduction, and the proposition and discourse structures read off them.

use vstd::prelude::*;
use std::collections::HashSet;
use vstd::utf8::encode_utf8;
use crate::types::{ModalType, ModalMode, Direction};
use crate::fnv::{fnv1a_64_bytes, fnv_hash};
use crate::semantics::{decimal, digit_char};
use crate::shapes::push_decimal;

verus! {

broadcast use vstd::std_specs::hash::group_hash_axioms;

/// A lambda term over string names, with modal types on abstractions.
#[derive(Debug)]
pub enum LambdaTerm {
    Var(String),
    Const(String),
    App(Box<LambdaTerm>, Box<LambdaTerm>),
    Abs(String, ModalType, Box<LambdaTerm>),
    Pred(String, Vec<LambdaTerm>),
    Intension(Box<LambdaTerm>),
}

/// The mathematical model of a lambda term.
pub enum Term {
    Var(Seq<char>),
    Const(Seq<char>),
    App(Box<Term>, Box<Term>),
    Abs(Seq<char>, ModalType, Box<Term>),
    Pred(Seq<char>, Seq<Term>),
    Intension(Box<Term>),
}

pub open spec fn model_args(args: Seq<LambdaTerm>) -> Seq<Term>
    decreases args,
{
    if args.len() == 0 {
        Seq::empty()
    } else {
        seq![model(args[0])] + model_args(args.drop_first())
    }
}

pub open spec fn model(t: LambdaTerm) -> Term
    decreases t,
{
    match t {
        LambdaTerm::Var(s) => Term::Var(s@),
        LambdaTerm::Const(s) => Term::Const(s@),
        LambdaTerm::App(f, a) => Term::App(Box::new(model(*f)), Box::new(model(*a))),
        LambdaTerm::Abs(v, ty, b) => Term::Abs(v@, ty, Box::new(model(*b))),
        LambdaTerm::Pred(p, args) => Term::Pred(p@, model_args(args@)),
        LambdaTerm::Intension(x) => Term::Intension(Box::new(model(*x))),
    }
}

impl View for LambdaTerm {
    type V = Term;

    open spec fn view(&self) -> Term {
        model(*self)
    }
}

/// Size of a term; used as a termination measure.
pub open spec fn term_size(t: Term) -> nat
    decreases t,
{
    match t {
        Term::App(f, a) => 1 + term_size(*f) + term_size(*a),
        Term::Abs(_, _, b) => 1 + term_size(*b),
        Term::Pred(_, args) => 1 + args_size(args),
        Term::Intension(x) => 1 + term_size(*x),
        _ => 1,
    }
}

pub open spec fn args_size(args: Seq<Term>) -> nat
    decreases args,
{
    if args.len() == 0 {
        0
    } else {
        1 + term_size(args[0]) + args_size(args.drop_first())
    }
}

/// The model of a sequence of terms is the sequence of their models.
pub proof fn lemma_model_args(s: Seq<LambdaTerm>)
    ensures
        model_args(s).len() == s.len(),
        forall|i: int| 0 <= i < s.len() ==> #[trigger] model_args(s)[i] == model(s[i]),
    decreases s.len(),
{
    if s.len() > 0 {
        lemma_model_args(s.drop_first());
        assert forall|i: int| 0 <= i < s.len() implies #[trigger] model_args(s)[i] == model(s[i]) by {
            if i > 0 {
                assert(model_args(s)[i] == model_args(s.drop_first())[i - 1]);
            }
        }
    }
}

/// Sequences of terms with the same models have the same model.
pub proof fn lemma_model_args_eq(a: Seq<LambdaTerm>, b: Seq<LambdaTerm>)
    requires
        a.len() == b.len(),
        forall|i: int| 0 <= i < a.len() ==> model(#[trigger] a[i]) == model(b[i]),
    ensures
        model_args(a) == model_args(b),
{
    lemma_model_args(a);
    lemma_model_args(b);
    assert(model_args(a) =~= model_args(b));
}

/// `x` occurs free in `t`.
pub open spec fn free_in(x: Seq<char>, t: Term) -> bool
    decreases t,
{
    match t {
        Term::Var(v) => v == x,
        Term::Const(_) => false,
        Term::App(f, a) => free_in(x, *f) || free_in(x, *a),
        Term::Abs(v, _, b) => v != x && free_in(x, *b),
        Term::Pred(_, args) => free_in_args(x, args),
        Term::Intension(y) => free_in(x, *y),
    }
}

/// `x` occurs free in one of `args`.
pub open spec fn free_in_args(x: Seq<char>, args: Seq<Term>) -> bool
    decreases args,
{
    if args.len() == 0 {
        false
    } else {
        free_in(x, args[0]) || free_in_args(x, args.drop_first())
    }
}

/// `x` is used in `t` as a variable or as a binder.
pub open spec fn occurs(x: Seq<char>, t: Term) -> bool
    decreases t,
{
    match t {
        Term::Var(v) => v == x,
        Term::Const(_) => false,
        Term::App(f, a) => occurs(x, *f) || occurs(x, *a),
        Term::Abs(v, _, b) => v == x || occurs(x, *b),
        Term::Pred(_, args) => occurs_args(x, args),
        Term::Intension(y) => occurs(x, *y),
    }
}

/// `x` is used in one of `args` as a variable or as a binder.
pub open spec fn occurs_args(x: Seq<char>, args: Seq<Term>) -> bool
    decreases args,
{
    if args.len() == 0 {
        false
    } else {
        occurs(x, args[0]) || occurs_args(x, args.drop_first())
    }
}

pub open spec fn nat_max(a: nat, b: nat) -> nat {
    if a >= b {
        a
    } else {
        b
    }
}

/// The length of the longest variable or binder name in `t`.
pub open spec fn max_name_len(t: Term) -> nat
    decreases t,
{
    match t {
        Term::Var(v) => v.len(),
        Term::Const(_) => 0,
        Term::App(f, a) => nat_max(max_name_len(*f), max_name_len(*a)),
        Term::Abs(v, _, b) => nat_max(v.len(), max_name_len(*b)),
        Term::Pred(_, args) => max_name_len_args(args),
        Term::Intension(y) => max_name_len(*y),
    }
}

pub open spec fn max_name_len_args(args: Seq<Term>) -> nat
    decreases args,
{
    if args.len() == 0 {
        0
    } else {
        nat_max(max_name_len(args[0]), max_name_len_args(args.drop_first()))
    }
}

/// A name used in a term is no longer than its longest name.
pub proof fn lemma_occurs_len(x: Seq<char>, t: Term)
    requires
        occurs(x, t),
    ensures
        x.len() <= max_name_len(t),
    decreases t,
{
    match t {
        Term::App(f, a) => {
            if occurs(x, *f) {
                lemma_occurs_len(x, *f);
            } else {
                lemma_occurs_len(x, *a);
            }
        },
        Term::Abs(v, _, b) => {
            if v != x {
                lemma_occurs_len(x, *b);
            }
        },
        Term::Pred(_, args) => lemma_occurs_len_args(x, args),
        Term::Intension(y) => lemma_occurs_len(x, *y),
        _ => {},
    }
}

pub proof fn lemma_occurs_len_args(x: Seq<char>, args: Seq<Term>)
    requires
        occurs_args(x, args),
    ensures
        x.len() <= max_name_len_args(args),
    decreases args,
{
    if args.len() > 0 {
        if occurs(x, args[0]) {
            lemma_occurs_len(x, args[0]);
        } else {
            lemma_occurs_len_args(x, args.drop_first());
        }
    }
}

/// The suffix appended to a binder until the name is fresh.
pub open spec fn rename_suffix() -> Seq<char> {
    seq!['_', 'r']
}

/// `c` is a name that neither `b` nor `r` uses and that differs from `x`.
pub open spec fn is_fresh(c: Seq<char>, b: Term, r: Term, x: Seq<char>) -> bool {
    !occurs(c, b) && !occurs(c, r) && c != x
}

pub open spec fn avoid_bound(b: Term, r: Term, x: Seq<char>) -> nat {
    max_name_len(b) + max_name_len(r) + x.len()
}

pub proof fn lemma_not_fresh_len(c: Seq<char>, b: Term, r: Term, x: Seq<char>)
    requires
        !is_fresh(c, b, r, x),
    ensures
        c.len() <= avoid_bound(b, r, x),
{
    if occurs(c, b) {
        lemma_occurs_len(c, b);
    } else if occurs(c, r) {
        lemma_occurs_len(c, r);
    }
}

/// `v_r<n>`: the binder `v` renamed with the number `n`.
pub open spec fn numbered(v: Seq<char>, n: nat) -> Seq<char> {
    v + rename_suffix() + decimal(n)
}

/// `v_r<n>` is fresh, and `v_r<m>` is not for any smaller `m`.
pub open spec fn least_fresh(v: Seq<char>, b: Term, r: Term, x: Seq<char>, n: nat) -> bool {
    &&& is_fresh(numbered(v, n), b, r, x)
    &&& forall|m: nat| m < n ==> !is_fresh(#[trigger] numbered(v, m), b, r, x)
}

/// The least `n` for which `v_r<n>` is fresh.
pub open spec fn fresh_index(v: Seq<char>, b: Term, r: Term, x: Seq<char>) -> nat {
    choose|n: nat| least_fresh(v, b, r, x, n)
}

/// The renamed binder: `v_r<n>` for the least `n` that makes it fresh for
/// `b`, `r` and `x`.
pub open spec fn fresh_from(v: Seq<char>, b: Term, r: Term, x: Seq<char>) -> Seq<char> {
    numbered(v, fresh_index(v, b, r, x))
}

pub open spec fn pow10(k: nat) -> nat
    decreases k,
{
    if k == 0 {
        1
    } else {
        10 * pow10((k - 1) as nat)
    }
}

proof fn lemma_decimal_len(n: nat, k: nat)
    requires
        n >= pow10(k),
    ensures
        decimal(n).len() > k,
    decreases k,
{
    if k > 0 {
        let p = pow10((k - 1) as nat);
        lemma_pow10_pos((k - 1) as nat);
        assert(n >= 10);
        assert(n / 10 >= p) by (nonlinear_arith)
            requires
                n >= 10 * p,
        ;
        lemma_decimal_len(n / 10, (k - 1) as nat);
    }
}

proof fn lemma_pow10_pos(k: nat)
    ensures
        pow10(k) >= 1,
    decreases k,
{
    if k > 0 {
        lemma_pow10_pos((k - 1) as nat);
    }
}

proof fn lemma_least_upto(v: Seq<char>, b: Term, r: Term, x: Seq<char>, k: nat)
    ensures
        (exists|m: nat| m <= k && #[trigger] least_fresh(v, b, r, x, m)) || (forall|m: nat|
            m <= k ==> !is_fresh(#[trigger] numbered(v, m), b, r, x)),
    decreases k,
{
    if k > 0 {
        lemma_least_upto(v, b, r, x, (k - 1) as nat);
        if !(exists|m: nat| m <= k - 1 && #[trigger] least_fresh(v, b, r, x, m)) {
            if is_fresh(numbered(v, k), b, r, x) {
                assert(least_fresh(v, b, r, x, k));
            } else {
                assert forall|m: nat| m <= k implies !is_fresh(#[trigger] numbered(v, m), b, r, x) by {
                    if m < k {
                        assert(m <= k - 1);
                    }
                }
            }
        } else {
            let m = choose|m: nat| m <= k - 1 && #[trigger] least_fresh(v, b, r, x, m);
            assert(m <= k);
        }
    } else {
        if is_fresh(numbered(v, 0), b, r, x) {
            assert(least_fresh(v, b, r, x, 0));
        }
    }
}

/// Some `v_r<n>` is fresh: one with more digits than any name that is not.
proof fn lemma_fresh_bound(v: Seq<char>, b: Term, r: Term, x: Seq<char>)
    ensures
        is_fresh(numbered(v, pow10(avoid_bound(b, r, x))), b, r, x),
{
    let k = avoid_bound(b, r, x);
    lemma_decimal_len(pow10(k), k);
    if !is_fresh(numbered(v, pow10(k)), b, r, x) {
        lemma_not_fresh_len(numbered(v, pow10(k)), b, r, x);
    }
}

/// The renamed binder is fresh, and its number is the least that is.
pub proof fn lemma_fresh_index(v: Seq<char>, b: Term, r: Term, x: Seq<char>)
    ensures
        least_fresh(v, b, r, x, fresh_index(v, b, r, x)),
        is_fresh(fresh_from(v, b, r, x), b, r, x),
        forall|n: nat| #[trigger] least_fresh(v, b, r, x, n) ==> n == fresh_index(v, b, r, x),
{
    let k = pow10(avoid_bound(b, r, x));
    lemma_fresh_bound(v, b, r, x);
    lemma_least_upto(v, b, r, x, k);
    let i = fresh_index(v, b, r, x);
    assert forall|n: nat| #[trigger] least_fresh(v, b, r, x, n) implies n == i by {
        if n < i {
            assert(!is_fresh(numbered(v, n), b, r, x));
        } else if i < n {
            assert(!is_fresh(numbered(v, i), b, r, x));
        }
    }
}

/// Replace the free occurrences of `v` in `t` by `f`, without renaming binders.
pub open spec fn rename(t: Term, v: Seq<char>, f: Seq<char>) -> Term
    decreases t,
{
    match t {
        Term::Var(w) => if w == v {
            Term::Var(f)
        } else {
            Term::Var(w)
        },
        Term::Const(c) => Term::Const(c),
        Term::App(g, a) => Term::App(Box::new(rename(*g, v, f)), Box::new(rename(*a, v, f))),
        Term::Abs(w, ty, b) => if w == v {
            Term::Abs(w, ty, b)
        } else {
            Term::Abs(w, ty, Box::new(rename(*b, v, f)))
        },
        Term::Pred(p, args) => Term::Pred(p, rename_args(args, v, f)),
        Term::Intension(y) => Term::Intension(Box::new(rename(*y, v, f))),
    }
}

pub open spec fn rename_args(args: Seq<Term>, v: Seq<char>, f: Seq<char>) -> Seq<Term>
    decreases args,
{
    if args.len() == 0 {
        Seq::empty()
    } else {
        seq![rename(args[0], v, f)] + rename_args(args.drop_first(), v, f)
    }
}

/// Renaming keeps the size of a term.
pub proof fn lemma_rename_size(t: Term, v: Seq<char>, f: Seq<char>)
    ensures
        term_size(rename(t, v, f)) == term_size(t),
    decreases t,
{
    match t {
        Term::App(g, a) => {
            lemma_rename_size(*g, v, f);
            lemma_rename_size(*a, v, f);
        },
        Term::Abs(w, _, b) => {
            if w != v {
                lemma_rename_size(*b, v, f);
            }
        },
        Term::Pred(_, args) => lemma_rename_size_args(args, v, f),
        Term::Intension(y) => lemma_rename_size(*y, v, f),
        _ => {},
    }
}

pub proof fn lemma_rename_size_args(args: Seq<Term>, v: Seq<char>, f: Seq<char>)
    ensures
        args_size(rename_args(args, v, f)) == args_size(args),
    decreases args,
{
    if args.len() > 0 {
        lemma_rename_size(args[0], v, f);
        lemma_rename_size_args(args.drop_first(), v, f);
        let r = rename_args(args, v, f);
        assert(r.drop_first() == rename_args(args.drop_first(), v, f));
    }
}

/// Capture-avoiding substitution of `r` for the free occurrences of `x` in `t`.
/// A binder that occurs free in `r` is first renamed to a fresh name.
pub open spec fn subst(t: Term, x: Seq<char>, r: Term) -> Term
    decreases term_size(t), 0nat,
{
    match t {
        Term::Var(v) => if v == x {
            r
        } else {
            Term::Var(v)
        },
        Term::Const(c) => Term::Const(c),
        Term::App(f, a) => Term::App(Box::new(subst(*f, x, r)), Box::new(subst(*a, x, r))),
        Term::Abs(v, ty, b) => if v == x {
            Term::Abs(v, ty, b)
        } else if free_in(v, r) {
            let nv = fresh_from(v, *b, r, x);
            proof {
                lemma_rename_size(*b, v, nv);
            }
            Term::Abs(nv, ty, Box::new(subst(rename(*b, v, nv), x, r)))
        } else {
            Term::Abs(v, ty, Box::new(subst(*b, x, r)))
        },
        Term::Pred(p, args) => Term::Pred(p, subst_args(args, x, r)),
        Term::Intension(y) => Term::Intension(Box::new(subst(*y, x, r))),
    }
}

pub open spec fn subst_args(args: Seq<Term>, x: Seq<char>, r: Term) -> Seq<Term>
    decreases args_size(args), 1nat,
{
    if args.len() == 0 {
        Seq::empty()
    } else {
        seq![subst(args[0], x, r)] + subst_args(args.drop_first(), x, r)
    }
}

/// One step of normal-order (leftmost-outermost) beta reduction, or `None`
/// when `t` has no redex.
pub open spec fn reduce1(t: Term) -> Option<Term>
    decreases t,
{
    match t {
        Term::App(f, a) => match *f {
            Term::Abs(v, _, b) => Some(subst(*b, v, *a)),
            _ => match reduce1(*f) {
                Some(f2) => Some(Term::App(Box::new(f2), a)),
                None => match reduce1(*a) {
                    Some(a2) => Some(Term::App(f, Box::new(a2))),
                    None => None,
                },
            },
        },
        Term::Abs(v, ty, b) => match reduce1(*b) {
            Some(b2) => Some(Term::Abs(v, ty, Box::new(b2))),
            None => None,
        },
        Term::Pred(p, args) => match reduce1_args(args) {
            Some(a2) => Some(Term::Pred(p, a2)),
            None => None,
        },
        Term::Intension(y) => match reduce1(*y) {
            Some(y2) => Some(Term::Intension(Box::new(y2))),
            None => None,
        },
        _ => None,
    }
}

/// Reduce the first argument that has a redex.
pub open spec fn reduce1_args(args: Seq<Term>) -> Option<Seq<Term>>
    decreases args,
{
    if args.len() == 0 {
        None
    } else {
        match reduce1(args[0]) {
            Some(r) => Some(args.update(0, r)),
            None => match reduce1_args(args.drop_first()) {
                Some(rest) => Some(seq![args[0]] + rest),
                None => None,
            },
        }
    }
}

/// A deep copy of a term.
pub fn copy_term(t: &LambdaTerm) -> (r: LambdaTerm)
    ensures
        r@ == t@,
    decreases t,
{
    match t {
        LambdaTerm::Var(s) => LambdaTerm::Var(s.clone()),
        LambdaTerm::Const(s) => LambdaTerm::Const(s.clone()),
        LambdaTerm::App(f, a) => LambdaTerm::App(Box::new(copy_term(f)), Box::new(copy_term(a))),
        LambdaTerm::Abs(v, ty, b) => LambdaTerm::Abs(v.clone(), *ty, Box::new(copy_term(b))),
        LambdaTerm::Pred(p, args) => {
            let v = copy_args(args);
            LambdaTerm::Pred(p.clone(), v)
        },
        LambdaTerm::Intension(x) => LambdaTerm::Intension(Box::new(copy_term(x))),
    }
}

/// A deep copy of a sequence of terms.
pub fn copy_args(args: &Vec<LambdaTerm>) -> (r: Vec<LambdaTerm>)
    ensures
        model_args(r@) == model_args(args@),
        r.len() == args.len(),
        forall|i: int| 0 <= i < args.len() ==> model(#[trigger] r@[i]) == model(args@[i]),
    decreases args,
{
    let mut v: Vec<LambdaTerm> = Vec::new();
    let n = args.len();
    let mut i: usize = 0;
    while i < n
        invariant
            n == args.len(),
            i <= n,
            v.len() == i,
            forall|j: int| 0 <= j < i ==> model(#[trigger] v@[j]) == model(args@[j]),
        decreases n - i,
    {
        proof {
            broadcast use vstd::std_specs::vec::axiom_vec_index_decreases;
            assert(decreases_to!(args => args[i as int]));
        }
        let c = copy_term(&args[i]);
        v.push(c);
        i = i + 1;
    }
    proof {
        lemma_model_args_eq(v@, args@);
    }
    v
}

/// Structural equality of two terms.
pub fn term_eq(a: &LambdaTerm, b: &LambdaTerm) -> (r: bool)
    ensures
        r == (a@ == b@),
    decreases a,
{
    match a {
        LambdaTerm::Var(x) => match b {
            LambdaTerm::Var(y) => x.eq(y),
            _ => false,
        },
        LambdaTerm::Const(x) => match b {
            LambdaTerm::Const(y) => x.eq(y),
            _ => false,
        },
        LambdaTerm::App(f1, a1) => match b {
            LambdaTerm::App(f2, a2) => term_eq(f1, f2) && term_eq(a1, a2),
            _ => false,
        },
        LambdaTerm::Abs(v1, t1, b1) => match b {
            LambdaTerm::Abs(v2, t2, b2) => v1.eq(v2) && *t1 == *t2 && term_eq(b1, b2),
            _ => false,
        },
        LambdaTerm::Pred(p1, args1) => match b {
            LambdaTerm::Pred(p2, args2) => p1.eq(p2) && args_eq(args1, args2),
            _ => false,
        },
        LambdaTerm::Intension(x) => match b {
            LambdaTerm::Intension(y) => term_eq(x, y),
            _ => false,
        },
    }
}

/// Element-wise structural equality of two sequences of terms.
pub fn args_eq(a: &Vec<LambdaTerm>, b: &Vec<LambdaTerm>) -> (r: bool)
    ensures
        r == (model_args(a@) == model_args(b@)),
    decreases a,
{
    proof {
        lemma_model_args(a@);
        lemma_model_args(b@);
    }
    if a.len() != b.len() {
        return false;
    }
    let n = a.len();
    let mut i: usize = 0;
    while i < n
        invariant
            n == a.len(),
            n == b.len(),
            i <= n,
            model_args(a@).len() == n,
            model_args(b@).len() == n,
            forall|j: int| 0 <= j < n ==> #[trigger] model_args(a@)[j] == model(a@[j]),
            forall|j: int| 0 <= j < n ==> #[trigger] model_args(b@)[j] == model(b@[j]),
            forall|j: int| 0 <= j < i ==> model(#[trigger] a@[j]) == model(b@[j]),
        decreases n - i,
    {
        proof {
            broadcast use vstd::std_specs::vec::axiom_vec_index_decreases;
            assert(decreases_to!(a => a[i as int]));
        }
        if !term_eq(&a[i], &b[i]) {
            proof {
                assert(model_args(a@)[i as int] != model_args(b@)[i as int]);
            }
            return false;
        }
        i = i + 1;
    }
    proof {
        lemma_model_args_eq(a@, b@);
    }
    true
}

/// A free variable of a term is used in it.
pub proof fn lemma_free_occurs(y: Seq<char>, t: Term)
    ensures
        free_in(y, t) ==> occurs(y, t),
    decreases t,
{
    match t {
        Term::App(f, a) => {
            lemma_free_occurs(y, *f);
            lemma_free_occurs(y, *a);
        },
        Term::Abs(_, _, b) => lemma_free_occurs(y, *b),
        Term::Pred(_, args) => lemma_free_occurs_args(y, args),
        Term::Intension(z) => lemma_free_occurs(y, *z),
        _ => {},
    }
}

pub proof fn lemma_free_occurs_args(y: Seq<char>, s: Seq<Term>)
    ensures
        free_in_args(y, s) ==> occurs_args(y, s),
    decreases s,
{
    if s.len() > 0 {
        lemma_free_occurs(y, s[0]);
        lemma_free_occurs_args(y, s.drop_first());
    }
}

/// Renaming `v` to a name `f` that `b` does not use moves the free
/// occurrences of `v` to `f` and leaves the other free variables alone.
pub proof fn lemma_rename_free(b: Term, v: Seq<char>, f: Seq<char>, y: Seq<char>)
    requires
        !occurs(f, b),
    ensures
        free_in(y, rename(b, v, f)) <==> (free_in(y, b) && y != v) || (y == f && free_in(v, b)),
    decreases b,
{
    match b {
        Term::App(g, a) => {
            lemma_rename_free(*g, v, f, y);
            lemma_rename_free(*a, v, f, y);
        },
        Term::Abs(w, _, body) => {
            if w != v {
                lemma_rename_free(*body, v, f, y);
            }
        },
        Term::Pred(_, args) => lemma_rename_free_args(args, v, f, y),
        Term::Intension(z) => lemma_rename_free(*z, v, f, y),
        _ => {},
    }
}

pub proof fn lemma_rename_free_args(s: Seq<Term>, v: Seq<char>, f: Seq<char>, y: Seq<char>)
    requires
        !occurs_args(f, s),
    ensures
        free_in_args(y, rename_args(s, v, f)) <==> (free_in_args(y, s) && y != v) || (y == f
            && free_in_args(v, s)),
    decreases s,
{
    if s.len() > 0 {
        lemma_rename_free(s[0], v, f, y);
        lemma_rename_free_args(s.drop_first(), v, f, y);
        let r = rename_args(s, v, f);
        assert(r[0] == rename(s[0], v, f));
        assert(r.drop_first() =~= rename_args(s.drop_first(), v, f));
    }
}

/// The free variables of `t[x := r]`: those of `t` other than `x`, and, when
/// `x` is free in `t`, those of `r`. No free variable of `r` is captured.
pub proof fn law_subst_free_vars(t: Term, x: Seq<char>, r: Term, y: Seq<char>)
    ensures
        free_in(y, subst(t, x, r)) <==> (free_in(y, t) && y != x) || (free_in(x, t) && free_in(y, r)),
    decreases term_size(t), 0nat,
{
    match t {
        Term::App(f, a) => {
            law_subst_free_vars(*f, x, r, y);
            law_subst_free_vars(*a, x, r, y);
        },
        Term::Abs(v, ty, b) => {
            if v != x {
                if free_in(v, r) {
                    let nv = fresh_from(v, *b, r, x);
                    lemma_fresh_index(v, *b, r, x);
                    let b2 = rename(*b, v, nv);
                    lemma_rename_size(*b, v, nv);
                    lemma_rename_free(*b, v, nv, y);
                    lemma_rename_free(*b, v, nv, x);
                    lemma_free_occurs(nv, *b);
                    lemma_free_occurs(nv, r);
                    law_subst_free_vars(b2, x, r, y);
                    assert(subst(t, x, r) == Term::Abs(nv, ty, Box::new(subst(b2, x, r))));
                } else {
                    law_subst_free_vars(*b, x, r, y);
                }
            }
        },
        Term::Pred(_, args) => {
            law_subst_free_vars_args(args, x, r, y);
        },
        Term::Intension(z) => {
            law_subst_free_vars(*z, x, r, y);
        },
        _ => {},
    }
}

/// `law_subst_free_vars` for argument lists.
pub proof fn law_subst_free_vars_args(s: Seq<Term>, x: Seq<char>, r: Term, y: Seq<char>)
    ensures
        free_in_args(y, subst_args(s, x, r)) <==> (free_in_args(y, s) && y != x) || (free_in_args(
            x,
            s,
        ) && free_in(y, r)),
    decreases args_size(s), 1nat,
{
    if s.len() > 0 {
        law_subst_free_vars(s[0], x, r, y);
        law_subst_free_vars_args(s.drop_first(), x, r, y);
        let u = subst_args(s, x, r);
        assert(u[0] == subst(s[0], x, r));
        assert(u.drop_first() =~= subst_args(s.drop_first(), x, r));
    }
}

/// A beta step at the root keeps the free variables of the argument wherever
/// the bound variable was free: the free variables of `(λv.b) a` after the
/// step are those of `b` other than `v`, and those of `a` when `v` is free in `b`.
pub proof fn law_beta_free_vars(v: Seq<char>, ty: ModalType, b: Term, a: Term, y: Seq<char>)
    ensures
        free_in(y, beta_root(Term::App(Box::new(Term::Abs(v, ty, Box::new(b))), Box::new(a))))
            <==> (free_in(y, b) && y != v) || (free_in(v, b) && free_in(y, a)),
{
    law_subst_free_vars(b, v, a, y);
}

/// `t` contains a beta redex somewhere.
pub open spec fn has_redex(t: Term) -> bool
    decreases t,
{
    match t {
        Term::App(f, a) => is_redex(t) || has_redex(*f) || has_redex(*a),
        Term::Abs(_, _, b) => has_redex(*b),
        Term::Pred(_, args) => has_redex_args(args),
        Term::Intension(y) => has_redex(*y),
        _ => false,
    }
}

pub open spec fn has_redex_args(s: Seq<Term>) -> bool
    decreases s,
{
    if s.len() == 0 {
        false
    } else {
        has_redex(s[0]) || has_redex_args(s.drop_first())
    }
}

/// Normal-order reduction has a step exactly when the term contains a redex.
pub proof fn law_step_iff_redex(t: Term)
    ensures
        reduce1(t) is Some <==> has_redex(t),
    decreases t,
{
    match t {
        Term::App(f, a) => {
            law_step_iff_redex(*f);
            law_step_iff_redex(*a);
        },
        Term::Abs(_, _, b) => law_step_iff_redex(*b),
        Term::Pred(_, args) => law_step_iff_redex_args(args),
        Term::Intension(y) => law_step_iff_redex(*y),
        _ => {},
    }
}

/// Normal order is leftmost-outermost. A redex at the root is contracted
/// first, whatever the argument holds. Otherwise, when the function part has
/// a redex, the step happens inside it and the argument is left as it is;
/// only when the function part has none does the step go into the argument,
/// leaving the function part as it is.
pub proof fn law_normal_order_leftmost(f: Term, a: Term)
    ensures
        (match f {
            Term::Abs(v, _, b) => reduce1(Term::App(Box::new(f), Box::new(a))) == Some(subst(*b, v, a)),
            _ => true,
        }),
        !(f is Abs) && has_redex(f) ==> (match reduce1(Term::App(Box::new(f), Box::new(a))) {
            Some(Term::App(f2, a2)) => *a2 == a && reduce1(f) == Some(*f2),
            _ => false,
        }),
        !(f is Abs) && !has_redex(f) ==> (match reduce1(Term::App(Box::new(f), Box::new(a))) {
            Some(Term::App(f2, a2)) => *f2 == f && has_redex(a) && reduce1(a) == Some(*a2),
            None => !has_redex(a),
            _ => false,
        }),
{
    law_step_iff_redex(f);
    law_step_iff_redex(a);
}

/// `law_step_iff_redex` for argument lists.
pub proof fn law_step_iff_redex_args(s: Seq<Term>)
    ensures
        reduce1_args(s) is Some <==> has_redex_args(s),
    decreases s,
{
    if s.len() > 0 {
        law_step_iff_redex(s[0]);
        law_step_iff_redex_args(s.drop_first());
    }
}

/// Once the chain stops, it stays stopped.
pub proof fn lemma_chain_stops(t0: Term, i: nat, j: nat)
    requires
        i <= j,
        chain(t0, i) is None,
    ensures
        chain(t0, j) is None,
    decreases j - i,
{
    if i < j {
        lemma_chain_stops(t0, i, (j - 1) as nat);
    }
}

/// Normalization has one outcome: at most one normal form, reached at one
/// step count, and never both a normal form and a cycle, nor two cycles.
pub proof fn law_normal_outcome_unique(t0: Term, k1: nat, k2: nat, n1: Term, n2: Term)
    ensures
        normalizes_in(t0, k1, n1) && normalizes_in(t0, k2, n2) ==> k1 == k2 && n1 == n2,
        normalizes_in(t0, k1, n1) ==> !cycles_in(t0, k2, n2),
        cycles_in(t0, k1, n1) && cycles_in(t0, k2, n2) ==> k1 == k2 && n1 == n2,
{
    if normalizes_in(t0, k1, n1) && normalizes_in(t0, k2, n2) {
        if k1 < k2 {
            assert(chain(t0, k1 + 1) is None);
            lemma_chain_stops(t0, k1 + 1, k2);
        } else if k2 < k1 {
            assert(chain(t0, k2 + 1) is None);
            lemma_chain_stops(t0, k2 + 1, k1);
        }
    }
    if normalizes_in(t0, k1, n1) && cycles_in(t0, k2, n2) {
        if k2 <= k1 {
            let j = choose|j: nat| j < k2 && #[trigger] hash_at(t0, j) == term_hash(n2);
            assert(hash_at(t0, k2) == term_hash(n2));
            assert(hash_at(t0, j) != hash_at(t0, k2));
        } else {
            assert(chain(t0, k1 + 1) is None);
            lemma_chain_stops(t0, k1 + 1, k2);
        }
    }
    if cycles_in(t0, k1, n1) && cycles_in(t0, k2, n2) {
        if k1 < k2 {
            let j = choose|j: nat| j < k1 && #[trigger] hash_at(t0, j) == term_hash(n1);
            assert(hash_at(t0, k1) == term_hash(n1));
            assert(hash_at(t0, j) != hash_at(t0, k1));
        } else if k2 < k1 {
            let j = choose|j: nat| j < k2 && #[trigger] hash_at(t0, j) == term_hash(n2);
            assert(hash_at(t0, k2) == term_hash(n2));
            assert(hash_at(t0, j) != hash_at(t0, k2));
        }
    }
}

/// A term without a redex normalizes to itself in zero steps.
pub proof fn law_normal_form_fixed(t0: Term, k: nat, n: Term)
    requires
        !has_redex(t0),
    ensures
        normalizes_in(t0, 0, t0),
        normalizes_in(t0, k, n) ==> k == 0 && n == t0,
        !cycles_in(t0, k, n),
{
    law_step_iff_redex(t0);
    assert(chain(t0, 0) == Some(t0));
    assert(normalizes_in(t0, 0, t0));
    law_normal_outcome_unique(t0, 0, k, t0, n);
}

/// The model of an optional term.
pub open spec fn opt_model(o: Option<LambdaTerm>) -> Option<Term> {
    match o {
        Some(t) => Some(t@),
        None => None,
    }
}

/// `free_in_args` holds exactly when some argument has `x` free.
pub proof fn lemma_free_in_args(x: Seq<char>, s: Seq<Term>)
    ensures
        free_in_args(x, s) <==> exists|i: int| 0 <= i < s.len() && #[trigger] free_in(x, s[i]),
    decreases s.len(),
{
    if s.len() > 0 {
        let t = s.drop_first();
        lemma_free_in_args(x, t);
        if free_in_args(x, s) {
            if free_in(x, s[0]) {
                assert(0 <= 0 < s.len() && free_in(x, s[0]));
            } else {
                assert(free_in_args(x, t));
                let i = choose|i: int| 0 <= i < t.len() && #[trigger] free_in(x, t[i]);
                assert(t[i] == s[i + 1]);
                assert(free_in(x, s[i + 1]));
            }
        }
        if exists|i: int| 0 <= i < s.len() && #[trigger] free_in(x, s[i]) {
            let i = choose|i: int| 0 <= i < s.len() && #[trigger] free_in(x, s[i]);
            if i > 0 {
                assert(t[i - 1] == s[i]);
                assert(free_in(x, t[i - 1]));
                assert(free_in_args(x, t));
            }
        }
    }
}

/// `occurs_args` holds exactly when some argument uses `x`.
pub proof fn lemma_occurs_args(x: Seq<char>, s: Seq<Term>)
    ensures
        occurs_args(x, s) <==> exists|i: int| 0 <= i < s.len() && #[trigger] occurs(x, s[i]),
    decreases s.len(),
{
    if s.len() > 0 {
        let t = s.drop_first();
        lemma_occurs_args(x, t);
        if occurs_args(x, s) {
            if occurs(x, s[0]) {
                assert(0 <= 0 < s.len() && occurs(x, s[0]));
            } else {
                assert(occurs_args(x, t));
                let i = choose|i: int| 0 <= i < t.len() && #[trigger] occurs(x, t[i]);
                assert(t[i] == s[i + 1]);
                assert(occurs(x, s[i + 1]));
            }
        }
        if exists|i: int| 0 <= i < s.len() && #[trigger] occurs(x, s[i]) {
            let i = choose|i: int| 0 <= i < s.len() && #[trigger] occurs(x, s[i]);
            if i > 0 {
                assert(t[i - 1] == s[i]);
                assert(occurs(x, t[i - 1]));
                assert(occurs_args(x, t));
            }
        }
    }
}

/// Renaming acts on each argument.
pub proof fn lemma_rename_args(s: Seq<Term>, v: Seq<char>, f: Seq<char>)
    ensures
        rename_args(s, v, f).len() == s.len(),
        forall|i: int| 0 <= i < s.len() ==> #[trigger] rename_args(s, v, f)[i] == rename(s[i], v, f),
    decreases s.len(),
{
    if s.len() > 0 {
        lemma_rename_args(s.drop_first(), v, f);
        assert forall|i: int| 0 <= i < s.len() implies #[trigger] rename_args(s, v, f)[i] == rename(s[i], v, f) by {
            if i > 0 {
                assert(rename_args(s, v, f)[i] == rename_args(s.drop_first(), v, f)[i - 1]);
            }
        }
    }
}

/// Substitution acts on each argument.
pub proof fn lemma_subst_args(s: Seq<Term>, x: Seq<char>, r: Term)
    ensures
        subst_args(s, x, r).len() == s.len(),
        forall|i: int| 0 <= i < s.len() ==> #[trigger] subst_args(s, x, r)[i] == subst(s[i], x, r),
    decreases s.len(),
{
    if s.len() > 0 {
        lemma_subst_args(s.drop_first(), x, r);
        assert forall|i: int| 0 <= i < s.len() implies #[trigger] subst_args(s, x, r)[i] == subst(s[i], x, r) by {
            if i > 0 {
                assert(subst_args(s, x, r)[i] == subst_args(s.drop_first(), x, r)[i - 1]);
            }
        }
    }
}

/// Each argument is smaller than the whole argument list.
pub proof fn lemma_args_size_elem(s: Seq<Term>, i: int)
    requires
        0 <= i < s.len(),
    ensures
        term_size(s[i]) < args_size(s),
    decreases s.len(),
{
    if i > 0 {
        lemma_args_size_elem(s.drop_first(), i - 1);
    }
}

/// Whether `x` occurs free in `t`.
pub fn is_free_in(x: &String, t: &LambdaTerm) -> (b: bool)
    ensures
        b == free_in(x@, t@),
    decreases t,
{
    match t {
        LambdaTerm::Var(v) => v.eq(x),
        LambdaTerm::Const(_) => false,
        LambdaTerm::App(f, a) => is_free_in(x, f) || is_free_in(x, a),
        LambdaTerm::Abs(v, _, b) => !v.eq(x) && is_free_in(x, b),
        LambdaTerm::Pred(_, args) => is_free_in_args(x, args),
        LambdaTerm::Intension(y) => is_free_in(x, y),
    }
}

/// Whether `x` occurs free in one of `args`.
pub fn is_free_in_args(x: &String, args: &Vec<LambdaTerm>) -> (b: bool)
    ensures
        b == free_in_args(x@, model_args(args@)),
    decreases args,
{
    proof {
        lemma_model_args(args@);
        lemma_free_in_args(x@, model_args(args@));
    }
    let n = args.len();
    let mut i: usize = 0;
    while i < n
        invariant
            n == args.len(),
            i <= n,
            model_args(args@).len() == n,
            forall|j: int| 0 <= j < n ==> #[trigger] model_args(args@)[j] == model(args@[j]),
            forall|j: int| 0 <= j < i ==> !free_in(x@, #[trigger] model_args(args@)[j]),
        decreases n - i,
    {
        proof {
            broadcast use vstd::std_specs::vec::axiom_vec_index_decreases;
            assert(decreases_to!(args => args[i as int]));
        }
        if is_free_in(x, &args[i]) {
            proof {
                lemma_free_in_args(x@, model_args(args@));
                assert(free_in(x@, model_args(args@)[i as int]));
            }
            return true;
        }
        i = i + 1;
    }
    false
}

/// Whether `x` is used in `t` as a variable or as a binder.
pub fn occurs_in(x: &String, t: &LambdaTerm) -> (b: bool)
    ensures
        b == occurs(x@, t@),
    decreases t,
{
    match t {
        LambdaTerm::Var(v) => v.eq(x),
        LambdaTerm::Const(_) => false,
        LambdaTerm::App(f, a) => occurs_in(x, f) || occurs_in(x, a),
        LambdaTerm::Abs(v, _, b) => v.eq(x) || occurs_in(x, b),
        LambdaTerm::Pred(_, args) => occurs_in_args(x, args),
        LambdaTerm::Intension(y) => occurs_in(x, y),
    }
}

/// Whether `x` is used in one of `args`.
pub fn occurs_in_args(x: &String, args: &Vec<LambdaTerm>) -> (b: bool)
    ensures
        b == occurs_args(x@, model_args(args@)),
    decreases args,
{
    proof {
        lemma_model_args(args@);
        lemma_occurs_args(x@, model_args(args@));
    }
    let n = args.len();
    let mut i: usize = 0;
    while i < n
        invariant
            n == args.len(),
            i <= n,
            model_args(args@).len() == n,
            forall|j: int| 0 <= j < n ==> #[trigger] model_args(args@)[j] == model(args@[j]),
            forall|j: int| 0 <= j < i ==> !occurs(x@, #[trigger] model_args(args@)[j]),
        decreases n - i,
    {
        proof {
            broadcast use vstd::std_specs::vec::axiom_vec_index_decreases;
            assert(decreases_to!(args => args[i as int]));
        }
        if occurs_in(x, &args[i]) {
            proof {
                lemma_occurs_args(x@, model_args(args@));
                assert(occurs(x@, model_args(args@)[i as int]));
            }
            return true;
        }
        i = i + 1;
    }
    false
}

/// The characters of a list of decimal digits.
pub open spec fn digits_text(d: Seq<u8>) -> Seq<char> {
    d.map_values(|x: u8| digit_char(x as nat))
}

/// The number a list of decimal digits writes, most significant first.
pub open spec fn digits_value(d: Seq<u8>) -> nat
    decreases d.len(),
{
    if d.len() == 0 {
        0
    } else {
        digits_value(d.drop_last()) * 10 + d.last() as nat
    }
}

/// Decimal digits without a leading zero (but for zero itself).
pub open spec fn digits_ok(d: Seq<u8>) -> bool {
    &&& d.len() >= 1
    &&& forall|i: int| 0 <= i < d.len() ==> #[trigger] d[i] < 10
    &&& (d.len() == 1 || d[0] != 0)
}

proof fn lemma_digits_single(d: Seq<u8>)
    requires
        d.len() == 1,
    ensures
        digits_value(d) == d[0] as nat,
{
    assert(d.drop_last() =~= Seq::<u8>::empty());
    assert(digits_value(d.drop_last()) == 0);
    assert(d.last() == d[0]);
}

proof fn lemma_digits_pos(d: Seq<u8>)
    requires
        digits_ok(d),
        d[0] != 0,
    ensures
        digits_value(d) >= 1,
    decreases d.len(),
{
    if d.len() > 1 {
        let init = d.drop_last();
        assert(init[0] == d[0]);
        assert forall|i: int| 0 <= i < init.len() implies #[trigger] init[i] < 10 by {
            assert(init[i] == d[i]);
        }
        lemma_digits_pos(init);
        let a = digits_value(init);
        assert(a * 10 >= 10) by (nonlinear_arith)
            requires
                a >= 1,
        ;
    }
}

/// Digits without a leading zero are the decimal numeral of their value.
proof fn lemma_digits_decimal(d: Seq<u8>)
    requires
        digits_ok(d),
    ensures
        decimal(digits_value(d)) == digits_text(d),
    decreases d.len(),
{
    if d.len() == 1 {
        lemma_digits_single(d);
        assert(digits_text(d) =~= seq![digit_char(d[0] as nat)]);
    } else {
        let init = d.drop_last();
        assert(init[0] == d[0]);
        assert forall|i: int| 0 <= i < init.len() implies #[trigger] init[i] < 10 by {
            assert(init[i] == d[i]);
        }
        lemma_digits_decimal(init);
        lemma_digits_pos(init);
        let a = digits_value(init);
        let l = d.last() as nat;
        assert(d[d.len() - 1] < 10);
        assert(a * 10 + l >= 10 && (a * 10 + l) / 10 == a && (a * 10 + l) % 10 == l) by (nonlinear_arith)
            requires
                a >= 1,
                l < 10,
        ;
        assert(digits_text(d) =~= digits_text(init) + seq![digit_char(l)]);
    }
}

/// Add one to a list of decimal digits.
fn increment_digits(d: &mut Vec<u8>)
    requires
        digits_ok(old(d)@),
    ensures
        digits_ok(final(d)@),
        digits_value(final(d)@) == digits_value(old(d)@) + 1,
    decreases old(d)@.len(),
{
    let ghost d0 = d@;
    let last = d.pop().unwrap();
    proof {
        assert(d@ == d0.drop_last());
        assert(last == d0[d0.len() - 1]);
    }
    if last < 9 {
        d.push(last + 1);
        proof {
            assert(d@.drop_last() =~= d0.drop_last());
            assert(d@.last() == last + 1);
            assert(digits_value(d@) == digits_value(d0.drop_last()) * 10 + last + 1);
            assert(digits_value(d0) == digits_value(d0.drop_last()) * 10 + last);
            if d0.len() > 1 {
                assert(d@[0] == d0[0]);
            }
            assert forall|i: int| 0 <= i < d@.len() implies #[trigger] d@[i] < 10 by {
                if i < d@.len() - 1 {
                    assert(d@[i] == d0[i]);
                }
            }
        }
    } else {
        if d.len() == 0 {
            d.push(1);
            proof {
                assert(d@ =~= seq![1u8]);
                lemma_digits_single(d@);
                assert(d0.drop_last() =~= Seq::<u8>::empty());
                assert(digits_value(d0.drop_last()) == 0);
            }
        } else {
            proof {
                let init = d@;
                assert(init[0] == d0[0]);
                assert forall|i: int| 0 <= i < init.len() implies #[trigger] init[i] < 10 by {
                    assert(init[i] == d0[i]);
                }
            }
            increment_digits(d);
        }
        let ghost mid = d@;
        proof {
            if mid.len() == 1 {
                lemma_digits_single(mid);
                assert(mid[0] != 0);
            }
        }
        d.push(0);
        proof {
            assert(d@.drop_last() =~= mid);
            assert(d@.last() == 0);
            assert(digits_value(mid) == digits_value(d0.drop_last()) + 1);
            assert(digits_value(d@) == digits_value(mid) * 10);
            assert(digits_value(d0) == digits_value(d0.drop_last()) * 10 + 9);
            assert(d@[0] == mid[0]);
            assert forall|i: int| 0 <= i < d@.len() implies #[trigger] d@[i] < 10 by {
                if i < d@.len() - 1 {
                    assert(d@[i] == mid[i]);
                }
            }
        }
    }
}

/// `v_r` followed by the digits `d`.
fn numbered_name(v: &String, d: &Vec<u8>) -> (c: String)
    requires
        forall|i: int| 0 <= i < d@.len() ==> #[trigger] d@[i] < 10,
    ensures
        c@ == v@ + rename_suffix() + digits_text(d@),
{
    let mut c = v.clone();
    c.append("_r");
    proof {
        reveal_strlit("_r");
        assert("_r"@ =~= rename_suffix());
    }
    let n = d.len();
    let mut i: usize = 0;
    while i < n
        invariant
            n == d@.len(),
            i <= n,
            forall|j: int| 0 <= j < d@.len() ==> #[trigger] d@[j] < 10,
            c@ == v@ + rename_suffix() + digits_text(d@.subrange(0, i as int)),
        decreases n - i,
    {
        let ghost c0 = c@;
        c.append(crate::semantics::digit_str(d[i] as usize));
        proof {
            assert(digits_text(d@.subrange(0, i + 1)) =~= digits_text(d@.subrange(0, i as int)) + seq![
                digit_char(d@[i as int] as nat),
            ]);
        }
        i = i + 1;
    }
    proof {
        assert(d@.subrange(0, n as int) =~= d@);
    }
    c
}

/// The binder `v` renamed `v_r<n>`, for the least `n` that makes the name
/// unused in `b` and `r` and different from `x`.
pub fn fresh_name(v: &String, b: &LambdaTerm, r: &LambdaTerm, x: &String) -> (c: String)
    ensures
        c@ == fresh_from(v@, b@, r@, x@),
        is_fresh(c@, b@, r@, x@),
{
    let ghost top = pow10(avoid_bound(b@, r@, x@));
    proof {
        lemma_fresh_bound(v@, b@, r@, x@);
    }
    let mut d: Vec<u8> = Vec::new();
    d.push(0);
    let ghost mut n: nat = 0;
    proof {
        lemma_digits_single(d@);
        lemma_digits_decimal(d@);
    }
    let mut c = numbered_name(v, &d);
    while occurs_in(&c, b) || occurs_in(&c, r) || c.eq(x)
        invariant
            digits_ok(d@),
            digits_value(d@) == n,
            c@ == numbered(v@, n),
            n <= top,
            is_fresh(numbered(v@, top), b@, r@, x@),
            forall|m: nat| m < n ==> !is_fresh(#[trigger] numbered(v@, m), b@, r@, x@),
        decreases top - n,
    {
        proof {
            assert(!is_fresh(numbered(v@, n), b@, r@, x@));
            assert(n != top);
        }
        increment_digits(&mut d);
        proof {
            n = n + 1;
            lemma_digits_decimal(d@);
        }
        c = numbered_name(v, &d);
    }
    proof {
        assert(least_fresh(v@, b@, r@, x@, n));
        lemma_fresh_index(v@, b@, r@, x@);
    }
    c
}

/// Replace the free occurrences of `v` in `t` by `f`, without renaming binders.
pub fn rename_term(t: &LambdaTerm, v: &String, f: &String) -> (r: LambdaTerm)
    ensures
        r@ == rename(t@, v@, f@),
    decreases t,
{
    match t {
        LambdaTerm::Var(w) => if w.eq(v) {
            LambdaTerm::Var(f.clone())
        } else {
            LambdaTerm::Var(w.clone())
        },
        LambdaTerm::Const(c) => LambdaTerm::Const(c.clone()),
        LambdaTerm::App(g, a) => LambdaTerm::App(
            Box::new(rename_term(g, v, f)),
            Box::new(rename_term(a, v, f)),
        ),
        LambdaTerm::Abs(w, ty, b) => if w.eq(v) {
            LambdaTerm::Abs(w.clone(), *ty, Box::new(copy_term(b)))
        } else {
            LambdaTerm::Abs(w.clone(), *ty, Box::new(rename_term(b, v, f)))
        },
        LambdaTerm::Pred(p, args) => {
            let a2 = rename_args_vec(args, v, f);
            LambdaTerm::Pred(p.clone(), a2)
        },
        LambdaTerm::Intension(y) => LambdaTerm::Intension(Box::new(rename_term(y, v, f))),
    }
}

/// `rename_term` applied to each argument.
pub fn rename_args_vec(args: &Vec<LambdaTerm>, v: &String, f: &String) -> (r: Vec<LambdaTerm>)
    ensures
        model_args(r@) == rename_args(model_args(args@), v@, f@),
    decreases args,
{
    proof {
        lemma_model_args(args@);
        lemma_rename_args(model_args(args@), v@, f@);
    }
    let mut out: Vec<LambdaTerm> = Vec::new();
    let n = args.len();
    let mut i: usize = 0;
    while i < n
        invariant
            n == args.len(),
            i <= n,
            out.len() == i,
            model_args(args@).len() == n,
            forall|j: int| 0 <= j < n ==> #[trigger] model_args(args@)[j] == model(args@[j]),
            forall|j: int|
                0 <= j < i ==> model(#[trigger] out@[j]) == rename(model(args@[j]), v@, f@),
        decreases n - i,
    {
        proof {
            broadcast use vstd::std_specs::vec::axiom_vec_index_decreases;
            assert(decreases_to!(args => args[i as int]));
        }
        let t = rename_term(&args[i], v, f);
        out.push(t);
        i = i + 1;
    }
    proof {
        lemma_model_args(out@);
        assert(model_args(out@) =~= rename_args(model_args(args@), v@, f@));
    }
    out
}

/// Capture-avoiding substitution of `r` for the free occurrences of `x` in `t`.
pub fn substitute(t: &LambdaTerm, x: &String, r: &LambdaTerm) -> (s: LambdaTerm)
    ensures
        s@ == subst(t@, x@, r@),
    decreases term_size(t@), 0nat,
{
    match t {
        LambdaTerm::Var(v) => if v.eq(x) {
            copy_term(r)
        } else {
            LambdaTerm::Var(v.clone())
        },
        LambdaTerm::Const(c) => LambdaTerm::Const(c.clone()),
        LambdaTerm::App(f, a) => LambdaTerm::App(
            Box::new(substitute(f, x, r)),
            Box::new(substitute(a, x, r)),
        ),
        LambdaTerm::Abs(v, ty, b) => {
            if v.eq(x) {
                LambdaTerm::Abs(v.clone(), *ty, Box::new(copy_term(b)))
            } else if is_free_in(v, r) {
                let nv = fresh_name(v, b, r, x);
                let renamed = rename_term(b, v, &nv);
                proof {
                    lemma_rename_size(b@, v@, nv@);
                }
                let body = substitute(&renamed, x, r);
                LambdaTerm::Abs(nv, *ty, Box::new(body))
            } else {
                LambdaTerm::Abs(v.clone(), *ty, Box::new(substitute(b, x, r)))
            }
        },
        LambdaTerm::Pred(p, args) => {
            let a2 = substitute_args(args, x, r);
            LambdaTerm::Pred(p.clone(), a2)
        },
        LambdaTerm::Intension(y) => LambdaTerm::Intension(Box::new(substitute(y, x, r))),
    }
}

/// `substitute` applied to each argument.
pub fn substitute_args(args: &Vec<LambdaTerm>, x: &String, r: &LambdaTerm) -> (s: Vec<LambdaTerm>)
    ensures
        model_args(s@) == subst_args(model_args(args@), x@, r@),
    decreases args_size(model_args(args@)), 1nat,
{
    proof {
        lemma_model_args(args@);
        lemma_subst_args(model_args(args@), x@, r@);
    }
    let mut out: Vec<LambdaTerm> = Vec::new();
    let n = args.len();
    let mut i: usize = 0;
    while i < n
        invariant
            n == args.len(),
            i <= n,
            out.len() == i,
            model_args(args@).len() == n,
            forall|j: int| 0 <= j < n ==> #[trigger] model_args(args@)[j] == model(args@[j]),
            forall|j: int|
                0 <= j < i ==> model(#[trigger] out@[j]) == subst(model(args@[j]), x@, r@),
        decreases n - i,
    {
        proof {
            lemma_args_size_elem(model_args(args@), i as int);
        }
        let t = substitute(&args[i], x, r);
        out.push(t);
        i = i + 1;
    }
    proof {
        lemma_model_args(out@);
        assert(model_args(out@) =~= subst_args(model_args(args@), x@, r@));
    }
    out
}

/// `t` is a beta redex `(λv. b) a`.
pub open spec fn is_redex(t: Term) -> bool {
    match t {
        Term::App(f, _) => *f is Abs,
        _ => false,
    }
}

/// A single beta step at the root: `(λv. b) a` becomes `b[v := a]`;
/// any other term is left as it is.
pub open spec fn beta_root(t: Term) -> Term {
    match t {
        Term::App(f, a) => match *f {
            Term::Abs(v, _, b) => subst(*b, v, *a),
            _ => t,
        },
        _ => t,
    }
}

/// The first argument with a redex is reduced; the earlier ones have none.
pub proof fn lemma_reduce1_args(s: Seq<Term>, i: int)
    requires
        0 <= i <= s.len(),
        forall|j: int| 0 <= j < i ==> #[trigger] reduce1(s[j]) is None,
    ensures
        i == s.len() ==> reduce1_args(s) is None,
        i < s.len() && reduce1(s[i]) is Some ==> reduce1_args(s) == Some(
            s.update(i, reduce1(s[i])->0),
        ),
    decreases s.len(),
{
    if i > 0 {
        let t = s.drop_first();
        assert forall|j: int| 0 <= j < i - 1 implies #[trigger] reduce1(t[j]) is None by {
            assert(t[j] == s[j + 1]);
            assert(reduce1(s[j + 1]) is None);
        }
        lemma_reduce1_args(t, i - 1);
        assert(reduce1(s[0]) is None);
        if i < s.len() && reduce1(s[i]) is Some {
            assert(t[i - 1] == s[i]);
            assert(seq![s[0]] + t.update(i - 1, reduce1(s[i])->0) =~= s.update(i, reduce1(s[i])->0));
        }
    }
}

/// One step of normal-order reduction of a borrowed term.
pub fn reduce_step(t: &LambdaTerm) -> (r: Option<LambdaTerm>)
    ensures
        opt_model(r) == reduce1(t@),
    decreases t,
{
    proof {
        reveal_with_fuel(model, 2);
    }
    match t {
        LambdaTerm::App(f, a) => match &**f {
            LambdaTerm::Abs(v, _, b) => Some(substitute(b, v, a)),
            _ => match reduce_step(f) {
                Some(f2) => Some(LambdaTerm::App(Box::new(f2), Box::new(copy_term(a)))),
                None => match reduce_step(a) {
                    Some(a2) => Some(LambdaTerm::App(Box::new(copy_term(f)), Box::new(a2))),
                    None => None,
                },
            },
        },
        LambdaTerm::Abs(v, ty, b) => match reduce_step(b) {
            Some(b2) => Some(LambdaTerm::Abs(v.clone(), *ty, Box::new(b2))),
            None => None,
        },
        LambdaTerm::Pred(p, args) => match reduce_step_args(args) {
            Some(a2) => Some(LambdaTerm::Pred(p.clone(), a2)),
            None => None,
        },
        LambdaTerm::Intension(y) => match reduce_step(y) {
            Some(y2) => Some(LambdaTerm::Intension(Box::new(y2))),
            None => None,
        },
        _ => None,
    }
}

/// Reduce the first argument that has a redex.
pub fn reduce_step_args(args: &Vec<LambdaTerm>) -> (r: Option<Vec<LambdaTerm>>)
    ensures
        match r {
            Some(v) => reduce1_args(model_args(args@)) == Some(model_args(v@)),
            None => reduce1_args(model_args(args@)) is None,
        },
    decreases args,
{
    proof {
        lemma_model_args(args@);
    }
    let n = args.len();
    let mut i: usize = 0;
    while i < n
        invariant
            n == args.len(),
            i <= n,
            model_args(args@).len() == n,
            forall|j: int| 0 <= j < n ==> #[trigger] model_args(args@)[j] == model(args@[j]),
            forall|j: int| 0 <= j < i ==> #[trigger] reduce1(model_args(args@)[j]) is None,
        decreases n - i,
    {
        proof {
            broadcast use vstd::std_specs::vec::axiom_vec_index_decreases;
            assert(decreases_to!(args => args[i as int]));
        }
        let step = reduce_step(&args[i]);
        match step {
            Some(red) => {
                let ghost rm = red@;
                let mut v = copy_args(args);
                v.set(i, red);
                proof {
                    lemma_reduce1_args(model_args(args@), i as int);
                    lemma_model_args(v@);
                    assert(model_args(v@) =~= model_args(args@).update(i as int, rm));
                }
                return Some(v);
            },
            None => {},
        }
        i = i + 1;
    }
    proof {
        lemma_reduce1_args(model_args(args@), n as int);
    }
    None
}

/// A beta step at the root, if the root is a redex.
pub fn beta_step(t: &LambdaTerm) -> (r: Option<LambdaTerm>)
    ensures
        match r {
            Some(u) => u@ == beta_root(t@) && is_redex(t@),
            None => beta_root(t@) == t@ && !is_redex(t@),
        },
{
    proof {
        reveal_with_fuel(model, 2);
    }
    match t {
        LambdaTerm::App(f, a) => match &**f {
            LambdaTerm::Abs(v, _, b) => Some(substitute(b, v, a)),
            _ => None,
        },
        _ => None,
    }
}

/// The text of a term: `(f a)`, `(λv.b)`, `p(a1,...,an)`, `^t`.
pub open spec fn display_text(t: Term) -> Seq<char>
    decreases t,
{
    match t {
        Term::Var(v) => v,
        Term::Const(c) => c,
        Term::App(f, a) => seq!['('] + display_text(*f) + seq![' '] + display_text(*a) + seq![')'],
        Term::Abs(v, _, b) => seq!['(', 'λ'] + v + seq!['.'] + display_text(*b) + seq![')'],
        Term::Pred(p, args) => p + seq!['('] + display_list(args) + seq![')'],
        Term::Intension(y) => seq!['^'] + display_text(*y),
    }
}

/// The texts of `args`, separated by commas.
pub open spec fn display_list(args: Seq<Term>) -> Seq<char>
    decreases args,
{
    if args.len() == 0 {
        Seq::empty()
    } else if args.len() == 1 {
        display_text(args[0])
    } else {
        display_list(args.subrange(0, args.len() - 1)) + seq![','] + display_text(
            args[args.len() - 1],
        )
    }
}

/// The text of a term.
pub fn display_term(t: &LambdaTerm) -> (s: String)
    ensures
        s@ == display_text(t@),
    decreases t,
{
    match t {
        LambdaTerm::Var(v) => v.clone(),
        LambdaTerm::Const(c) => c.clone(),
        LambdaTerm::App(f, a) => {
            let df = display_term(f);
            let da = display_term(a);
            let mut s = String::from_str("(");
            s.append(df.as_str());
            s.append(" ");
            s.append(da.as_str());
            s.append(")");
            proof {
                reveal_strlit("(");
                reveal_strlit(" ");
                reveal_strlit(")");
            }
            s
        },
        LambdaTerm::Abs(v, _, b) => {
            let db = display_term(b);
            let mut s = String::from_str("(λ");
            s.append(v.as_str());
            s.append(".");
            s.append(db.as_str());
            s.append(")");
            proof {
                reveal_strlit("(λ");
                reveal_strlit(".");
                reveal_strlit(")");
            }
            s
        },
        LambdaTerm::Pred(p, args) => {
            let da = display_args(args);
            let mut s = p.clone();
            s.append("(");
            s.append(da.as_str());
            s.append(")");
            proof {
                reveal_strlit("(");
                reveal_strlit(")");
            }
            s
        },
        LambdaTerm::Intension(y) => {
            let dy = display_term(y);
            let mut s = String::from_str("^");
            s.append(dy.as_str());
            proof {
                reveal_strlit("^");
            }
            s
        },
    }
}

/// The texts of `args`, separated by commas.
pub fn display_args(args: &Vec<LambdaTerm>) -> (s: String)
    ensures
        s@ == display_list(model_args(args@)),
    decreases args,
{
    proof {
        lemma_model_args(args@);
    }
    let ghost m = model_args(args@);
    let mut s = String::new();
    let n = args.len();
    let mut i: usize = 0;
    while i < n
        invariant
            n == args.len(),
            i <= n,
            m == model_args(args@),
            m.len() == n,
            forall|j: int| 0 <= j < n ==> #[trigger] m[j] == model(args@[j]),
            s@ == display_list(m.subrange(0, i as int)),
        decreases n - i,
    {
        proof {
            broadcast use vstd::std_specs::vec::axiom_vec_index_decreases;
            assert(decreases_to!(args => args[i as int]));
        }
        let d = display_term(&args[i]);
        if i > 0 {
            s.append(",");
            proof {
                reveal_strlit(",");
            }
        }
        s.append(d.as_str());
        proof {
            let next = m.subrange(0, i + 1);
            assert(next.subrange(0, i as int) =~= m.subrange(0, i as int));
            assert(next[i as int] == m[i as int]);
            if i == 0 {
                assert(m.subrange(0, 0) =~= Seq::<Term>::empty());
            }
        }
        i = i + 1;
    }
    proof {
        assert(m.subrange(0, n as int) =~= m);
    }
    s
}

/// Normalization revisited a term (by structural hash) before reaching normal form.
#[derive(Debug)]
pub enum ReductionError {
    NonTerminating(LambdaTerm),
}

/// The text std's `Debug` gives a string: its characters in double quotes,
/// with quotes, backslashes and unprintable characters escaped.
pub uninterp spec fn debug_quoted(s: Seq<char>) -> Seq<char>;

/// Quotes and escapes `s` with std's `Debug` for strings (`format!("{:?}", s)`).
/// The contract says only that the text is a function of the string's
/// characters; how each character is escaped is left unsaid.
#[verifier::external_body]
fn quoted(s: &String) -> (r: String)
    ensures
        r@ == debug_quoted(s@),
{
    format!("{:?}", s)
}

/// The name of a mode variant.
pub open spec fn mode_text(m: ModalMode) -> Seq<char> {
    match m {
        ModalMode::Diamond => "Diamond"@,
        ModalMode::Box => "Box"@,
        ModalMode::Lozenge => "Lozenge"@,
    }
}

/// The name of a direction variant.
pub open spec fn direction_text(d: Direction) -> Seq<char> {
    match d {
        Direction::Left => "Left"@,
        Direction::Right => "Right"@,
    }
}

/// The `Debug` text of a modal type:
/// `ModalType { mode: M, category: TypeCategory(c), arity: a, direction: D }`.
pub open spec fn modal_type_text(ty: ModalType) -> Seq<char> {
    "ModalType { mode: "@ + mode_text(ty.mode) + ", category: TypeCategory("@ + decimal(
        ty.category.0 as nat,
    ) + "), arity: "@ + decimal(ty.arity as nat) + ", direction: "@ + direction_text(ty.direction)
        + " }"@
}

/// The `Debug` text of a term, as `derive(Debug)` writes it:
/// `Var("x")`, `App(f, a)`, `Abs("x", ModalType { .. }, b)`,
/// `Pred("p", [a1, a2])`, `Intension(t)`.
pub open spec fn render_text(t: Term) -> Seq<char>
    decreases t,
{
    match t {
        Term::Var(v) => "Var("@ + debug_quoted(v) + ")"@,
        Term::Const(c) => "Const("@ + debug_quoted(c) + ")"@,
        Term::App(f, a) => "App("@ + render_text(*f) + ", "@ + render_text(*a) + ")"@,
        Term::Abs(v, ty, b) => "Abs("@ + debug_quoted(v) + ", "@ + modal_type_text(ty) + ", "@
            + render_text(*b) + ")"@,
        Term::Pred(p, args) => "Pred("@ + debug_quoted(p) + ", ["@ + render_list(args) + "])"@,
        Term::Intension(y) => "Intension("@ + render_text(*y) + ")"@,
    }
}

/// The `Debug` texts of `args`, separated by `, `.
pub open spec fn render_list(args: Seq<Term>) -> Seq<char>
    decreases args,
{
    if args.len() == 0 {
        Seq::empty()
    } else if args.len() == 1 {
        render_text(args[0])
    } else {
        render_list(args.subrange(0, args.len() - 1)) + ", "@ + render_text(args[args.len() - 1])
    }
}

fn mode_name(m: ModalMode) -> (s: &'static str)
    ensures
        s@ == mode_text(m),
{
    match m {
        ModalMode::Diamond => {
            proof {
                reveal_strlit("Diamond");
            }
            "Diamond"
        },
        ModalMode::Box => {
            proof {
                reveal_strlit("Box");
            }
            "Box"
        },
        ModalMode::Lozenge => {
            proof {
                reveal_strlit("Lozenge");
            }
            "Lozenge"
        },
    }
}

fn direction_name(d: Direction) -> (s: &'static str)
    ensures
        s@ == direction_text(d),
{
    match d {
        Direction::Left => {
            proof {
                reveal_strlit("Left");
            }
            "Left"
        },
        Direction::Right => {
            proof {
                reveal_strlit("Right");
            }
            "Right"
        },
    }
}

/// Append the `Debug` text of a modal type to `s`.
fn push_modal_type(s: &mut String, ty: ModalType)
    ensures
        final(s)@ == old(s)@ + modal_type_text(ty),
{
    s.append("ModalType { mode: ");
    s.append(mode_name(ty.mode));
    s.append(", category: TypeCategory(");
    push_decimal(s, ty.category.0 as u64);
    s.append("), arity: ");
    push_decimal(s, ty.arity as u64);
    s.append(", direction: ");
    s.append(direction_name(ty.direction));
    s.append(" }");
    proof {
        reveal_strlit("ModalType { mode: ");
        reveal_strlit(", category: TypeCategory(");
        reveal_strlit("), arity: ");
        reveal_strlit(", direction: ");
        reveal_strlit(" }");
        assert(final(s)@ =~= old(s)@ + modal_type_text(ty));
    }
}

/// The text `format!("{:?}", t)` gives a term, built piece by piece.
pub fn render_term(t: &LambdaTerm) -> (s: String)
    ensures
        s@ == render_text(t@),
    decreases t,
{
    match t {
        LambdaTerm::Var(v) => {
            let mut s = String::from_str("Var(");
            s.append(quoted(v).as_str());
            s.append(")");
            proof {
                reveal_strlit("Var(");
                reveal_strlit(")");
            }
            s
        },
        LambdaTerm::Const(c) => {
            let mut s = String::from_str("Const(");
            s.append(quoted(c).as_str());
            s.append(")");
            proof {
                reveal_strlit("Const(");
                reveal_strlit(")");
            }
            s
        },
        LambdaTerm::App(f, a) => {
            let df = render_term(f);
            let da = render_term(a);
            let mut s = String::from_str("App(");
            s.append(df.as_str());
            s.append(", ");
            s.append(da.as_str());
            s.append(")");
            proof {
                reveal_strlit("App(");
                reveal_strlit(", ");
                reveal_strlit(")");
            }
            s
        },
        LambdaTerm::Abs(v, ty, b) => {
            let db = render_term(b);
            let mut s = String::from_str("Abs(");
            s.append(quoted(v).as_str());
            s.append(", ");
            push_modal_type(&mut s, *ty);
            s.append(", ");
            s.append(db.as_str());
            s.append(")");
            proof {
                reveal_strlit("Abs(");
                reveal_strlit(", ");
                reveal_strlit(")");
            }
            s
        },
        LambdaTerm::Pred(p, args) => {
            let da = render_args(args);
            let mut s = String::from_str("Pred(");
            s.append(quoted(p).as_str());
            s.append(", [");
            s.append(da.as_str());
            s.append("])");
            proof {
                reveal_strlit("Pred(");
                reveal_strlit(", [");
                reveal_strlit("])");
            }
            s
        },
        LambdaTerm::Intension(y) => {
            let dy = render_term(y);
            let mut s = String::from_str("Intension(");
            s.append(dy.as_str());
            s.append(")");
            proof {
                reveal_strlit("Intension(");
                reveal_strlit(")");
            }
            s
        },
    }
}

/// The `Debug` texts of `args`, separated by `, `.
fn render_args(args: &Vec<LambdaTerm>) -> (s: String)
    ensures
        s@ == render_list(model_args(args@)),
    decreases args,
{
    proof {
        lemma_model_args(args@);
    }
    let ghost m = model_args(args@);
    let mut s = String::new();
    let n = args.len();
    let mut i: usize = 0;
    while i < n
        invariant
            n == args.len(),
            i <= n,
            m == model_args(args@),
            m.len() == n,
            forall|j: int| 0 <= j < n ==> #[trigger] m[j] == model(args@[j]),
            s@ == render_list(m.subrange(0, i as int)),
        decreases n - i,
    {
        proof {
            broadcast use vstd::std_specs::vec::axiom_vec_index_decreases;
            assert(decreases_to!(args => args[i as int]));
        }
        let d = render_term(&args[i]);
        if i > 0 {
            s.append(", ");
            proof {
                reveal_strlit(", ");
            }
        }
        s.append(d.as_str());
        proof {
            let next = m.subrange(0, i + 1);
            assert(next.subrange(0, i as int) =~= m.subrange(0, i as int));
            assert(next[i as int] == m[i as int]);
            if i == 0 {
                assert(m.subrange(0, 0) =~= Seq::<Term>::empty());
            }
        }
        i = i + 1;
    }
    proof {
        assert(m.subrange(0, n as int) =~= m);
    }
    s
}

/// FNV-1a hash of the UTF-8 bytes of the `Debug` text of a term.
pub open spec fn term_hash(t: Term) -> u64 {
    fnv_hash(encode_utf8(render_text(t)))
}

/// The term after `k` normal-order steps from `t0`, if each step had a redex.
pub open spec fn chain(t0: Term, k: nat) -> Option<Term>
    decreases k,
{
    if k == 0 {
        Some(t0)
    } else {
        match chain(t0, (k - 1) as nat) {
            Some(u) => reduce1(u),
            None => None,
        }
    }
}

pub open spec fn hash_at(t0: Term, j: nat) -> u64 {
    term_hash(chain(t0, j)->0)
}

/// The first `k` terms of the chain exist and have pairwise distinct hashes.
pub open spec fn distinct_upto(t0: Term, k: nat) -> bool {
    &&& forall|j: nat| j < k ==> #[trigger] chain(t0, j) is Some
    &&& forall|i: nat, j: nat| i < j < k ==> #[trigger] hash_at(t0, i) != #[trigger] hash_at(t0, j)
}

/// After `k` steps `t0` reaches the normal form `n`, with no hash seen twice on the way.
pub open spec fn normalizes_in(t0: Term, k: nat, n: Term) -> bool {
    &&& chain(t0, k) == Some(n)
    &&& reduce1(n) is None
    &&& distinct_upto(t0, k + 1)
}

/// After `k` steps `t0` reaches `t`, whose hash is that of an earlier term of the chain.
pub open spec fn cycles_in(t0: Term, k: nat, t: Term) -> bool {
    &&& chain(t0, k) == Some(t)
    &&& distinct_upto(t0, k)
    &&& exists|j: nat| j < k && #[trigger] hash_at(t0, j) == term_hash(t)
}

/// The hashes of the first `k` terms of the chain.
pub open spec fn hashes_before(t0: Term, k: nat) -> Set<u64> {
    Set::new(|h: u64| exists|j: nat| j < k && #[trigger] hash_at(t0, j) == h)
}

/// A set of `u64` values has at most 2^64 elements.
pub proof fn lemma_u64_set_len(s: Set<u64>)
    ensures
        s.finite(),
        s.len() <= u64::MAX as nat + 1,
{
    let range = Set::<u64>::range(0, u64::MAX);
    <u64 as vstd::set_lib::FiniteRange>::range_properties(0, u64::MAX);
    let full = range.insert(u64::MAX);
    assert(s.subset_of(full)) by {
        assert forall|x: u64| s.contains(x) implies full.contains(x) by {
            if x != u64::MAX {
                assert(range.contains(x));
            }
        }
    }
    vstd::set_lib::lemma_len_subset(s, full);
}

impl LambdaTerm {
    /// A single beta step at the root: `(λv.b) a` becomes `b[v := a]`; any
    /// other term is returned as it is.
    pub fn beta_reduce(self) -> (r: LambdaTerm)
        ensures
            r@ == beta_root(self@),
    {
        match beta_step(&self) {
            Some(u) => u,
            None => self,
        }
    }

    /// Reduce the leftmost-outermost beta redex; `None` when there is none.
    pub fn reduce_one_normal_order(self) -> (r: Option<LambdaTerm>)
        ensures
            opt_model(r) == reduce1(self@),
    {
        reduce_step(&self)
    }

    /// FNV-1a hash of the term's `Debug` rendering, used to detect cycles.
    pub fn structural_hash(&self) -> (h: u64)
        ensures
            h == term_hash(self@),
    {
        let text = render_term(self);
        fnv1a_64_bytes(text.as_str().as_bytes())
    }

    /// Normal-order reduction until no redex is left. A term whose hash was
    /// already seen on the way is reported as `NonTerminating`.
    pub fn normalize(self) -> (r: Result<LambdaTerm, ReductionError>)
        ensures
            match r {
                Ok(n) => exists|k: nat| #[trigger] normalizes_in(self@, k, n@),
                Err(ReductionError::NonTerminating(t)) => exists|k: nat|
                    #[trigger] cycles_in(self@, k, t@),
            },
    {
        let ghost t0 = self@;
        let mut term = self;
        let mut seen: HashSet<u64> = HashSet::new();
        let ghost mut k: nat = 0;
        proof {
            assert(seen@ =~= hashes_before(t0, 0));
        }
        loop
            invariant
                t0 == self@,
                chain(t0, k) == Some(term@),
                distinct_upto(t0, k),
                seen@ == hashes_before(t0, k),
                seen@.len() == k,
            decreases u64::MAX as nat + 1 - seen@.len(),
        {
            let h = term.structural_hash();
            proof {
                lemma_u64_set_len(seen@);
            }
            let fresh = seen.insert(h);
            if !fresh {
                proof {
                    assert(hashes_before(t0, k).contains(h));
                    assert(cycles_in(t0, k, term@));
                }
                return Err(ReductionError::NonTerminating(term));
            }
            proof {
                assert(hash_at(t0, k) == h);
                assert forall|i: nat, j: nat| i < j < k + 1 implies #[trigger] hash_at(t0, i)
                    != #[trigger] hash_at(t0, j) by {
                    if j == k {
                        if hash_at(t0, i) == h {
                            assert(hashes_before(t0, k).contains(h));
                        }
                    }
                }
                assert(distinct_upto(t0, k + 1));
                assert(seen@ =~= hashes_before(t0, k + 1)) by {
                    assert forall|x: u64| seen@.contains(x) implies hashes_before(t0, k + 1).contains(x) by {
                        if x != h {
                            let j = choose|j: nat| j < k && #[trigger] hash_at(t0, j) == x;
                            assert(j < k + 1 && hash_at(t0, j) == x);
                        } else {
                            assert(k < k + 1 && hash_at(t0, k) == x);
                        }
                    }
                    assert forall|x: u64| hashes_before(t0, k + 1).contains(x) implies seen@.contains(x) by {
                        let j = choose|j: nat| j < k + 1 && #[trigger] hash_at(t0, j) == x;
                        if j < k {
                            assert(hashes_before(t0, k).contains(x));
                        }
                    }
                }
                lemma_u64_set_len(seen@);
                assert(seen@.len() == k + 1);
            }
            match reduce_step(&term) {
                None => {
                    proof {
                        assert(normalizes_in(t0, k, term@));
                    }
                    return Ok(term);
                },
                Some(next) => {
                    term = next;
                    proof {
                        k = k + 1;
                    }
                },
            }
        }
    }

    /// The text of the term: `(f a)`, `(λv.b)`, `p(a1,...,an)`, `^t`.
    pub fn display(&self) -> (s: String)
        ensures
            s@ == display_text(self@),
    {
        display_term(self)
    }
}

impl PartialEq for LambdaTerm {
    fn eq(&self, other: &Self) -> (r: bool) {
        term_eq(self, other)
    }
}

impl vstd::std_specs::cmp::PartialEqSpecImpl for LambdaTerm {
    open spec fn obeys_eq_spec() -> bool {
        true
    }

    open spec fn eq_spec(&self, other: &Self) -> bool {
        self@ == other@
    }
}

impl Clone for LambdaTerm {
    fn clone(&self) -> (r: Self)
        ensures
            r@ == self@,
    {
        copy_term(self)
    }
}

} // verus!
