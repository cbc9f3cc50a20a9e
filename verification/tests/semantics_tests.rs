use csrre_core::lambda::{LambdaTerm, ReductionError};
use csrre_core::semantics::{
    decimal_string, DrsUpdate, MtlgSemantics, PropositionGraph, TypedFact,
};
use csrre_core::types::{Direction, ModalMode, ModalType, TypeCategory};

fn var(s: &str) -> LambdaTerm {
    LambdaTerm::Var(s.to_string())
}

fn cons(s: &str) -> LambdaTerm {
    LambdaTerm::Const(s.to_string())
}

fn abs(v: &str, body: LambdaTerm) -> LambdaTerm {
    let mt = ModalType::atom(ModalMode::Diamond, TypeCategory(0));
    LambdaTerm::Abs(v.to_string(), mt, Box::new(body))
}

fn app(f: LambdaTerm, a: LambdaTerm) -> LambdaTerm {
    LambdaTerm::App(Box::new(f), Box::new(a))
}

#[test]
fn beta_reduce_basic() {
    let mt = ModalType::atom(ModalMode::Diamond, TypeCategory(0));
    let term = LambdaTerm::App(
        Box::new(LambdaTerm::Abs("x".into(), mt, Box::new(LambdaTerm::Var("x".into())))),
        Box::new(LambdaTerm::Const("alice".into())),
    );
    assert_eq!(term.beta_reduce(), LambdaTerm::Const("alice".into()));
}

#[test]
fn substitute_no_capture() {
    let mt = ModalType::atom(ModalMode::Diamond, TypeCategory(0));
    // (λy. y) applied to x: should give x, not capture
    let term = LambdaTerm::Abs("y".into(), mt, Box::new(LambdaTerm::Var("y".into())));
    let app = LambdaTerm::App(Box::new(term), Box::new(LambdaTerm::Var("x".into())));
    assert_eq!(app.beta_reduce(), LambdaTerm::Var("x".into()));
}

#[test]
fn sentence_level_proposition() {
    let sem = MtlgSemantics::new();
    let term = LambdaTerm::Pred("run".into(), vec![LambdaTerm::Const("alice".into())]);
    let prop = sem.sentence_level(term);
    assert_eq!(prop.root, "run");
    assert!(!prop.roles.is_empty());
}

#[test]
fn beta_reduce_renames_captured_binder() {
    // (λx. λy. x) y  →  λy_r0. y
    let term = app(abs("x", abs("y", var("x"))), var("y"));
    let reduced = term.beta_reduce();
    assert_eq!(reduced, abs("y_r0", var("y")));
}

#[test]
fn renaming_skips_names_in_use() {
    // (λx. λy. (x y_r0 y_r1)) y  →  λy_r2. (y y_r0 y_r1): the least unused number
    let body = app(app(var("x"), var("y_r0")), var("y_r1"));
    let term = app(abs("x", abs("y", body)), var("y"));
    assert_eq!(
        term.beta_reduce(),
        abs("y_r2", app(app(var("y"), var("y_r0")), var("y_r1")))
    );
    // numbers carry over past nine
    let mut body = var("x");
    for n in 0..10 {
        body = app(body, var(&format!("y_r{}", n)));
    }
    let term = app(abs("x", abs("y", body)), var("y"));
    match term.beta_reduce() {
        LambdaTerm::Abs(v, _, _) => assert_eq!(v, "y_r10"),
        _ => panic!("expected an abstraction"),
    }
}

#[test]
fn beta_reduce_leaves_non_redex() {
    let term = app(var("f"), cons("a"));
    assert_eq!(term.clone().beta_reduce(), term);
}

#[test]
fn normal_order_reduces_outermost_first() {
    // (λx. c) ((λy. y) d)  →  c in one step
    let inner = app(abs("y", var("y")), cons("d"));
    let term = app(abs("x", cons("c")), inner);
    assert_eq!(term.reduce_one_normal_order(), Some(cons("c")));
    assert_eq!(cons("c").reduce_one_normal_order(), None);
}

#[test]
fn reduction_reaches_first_reducible_argument() {
    let redex = app(abs("y", var("y")), cons("d"));
    let term = LambdaTerm::Pred("p".into(), vec![cons("a"), redex, app(abs("z", var("z")), cons("e"))]);
    let step = term.reduce_one_normal_order().unwrap();
    assert_eq!(
        step,
        LambdaTerm::Pred("p".into(), vec![cons("a"), cons("d"), app(abs("z", var("z")), cons("e"))])
    );
}

#[test]
fn normalize_reaches_normal_form() {
    let id = abs("x", var("x"));
    let term = app(app(id.clone(), id.clone()), cons("a"));
    assert_eq!(term.normalize().unwrap(), cons("a"));
}

#[test]
fn normalize_detects_omega_cycle() {
    let w = abs("x", app(var("x"), var("x")));
    let omega = app(w.clone(), w.clone());
    match omega.clone().normalize() {
        Err(ReductionError::NonTerminating(t)) => assert_eq!(t, omega),
        Ok(_) => panic!("omega has no normal form"),
    }
}

#[test]
fn structural_hash_is_stable_and_separates_terms() {
    let a = app(var("f"), cons("a"));
    let b = app(var("f"), cons("b"));
    assert_eq!(a.structural_hash(), a.clone().structural_hash());
    assert_ne!(a.structural_hash(), b.structural_hash());
}

#[test]
fn display_forms() {
    let term = LambdaTerm::Intension(Box::new(app(
        abs("x", LambdaTerm::Pred("run".into(), vec![var("x"), cons("b")])),
        cons("alice"),
    )));
    assert_eq!(term.display(), "^((λx.run(x,b)) alice)");
    assert_eq!(LambdaTerm::Pred("p".into(), vec![]).display(), "p()");
}

#[test]
fn proposition_of_predicate_and_application() {
    let pred = LambdaTerm::Pred("give".into(), vec![cons("a"), cons("b"), cons("c")]);
    let prop = PropositionGraph::from_lambda(&pred);
    assert_eq!(prop.root, "give");
    assert_eq!(
        prop.roles,
        vec![
            ("ARG0".to_string(), "a".to_string()),
            ("ARG1".to_string(), "b".to_string()),
            ("ARG2".to_string(), "c".to_string()),
        ]
    );
    assert_eq!(prop.lambda_str, "give(a,b,c)");
    let applied = app(LambdaTerm::Pred("see".into(), vec![cons("x")]), cons("y"));
    let prop = PropositionGraph::from_lambda(&applied);
    assert_eq!(prop.root, "see");
    assert_eq!(
        prop.roles,
        vec![("ARG0".to_string(), "x".to_string()), ("ARG".to_string(), "y".to_string())]
    );
    let prop = PropositionGraph::from_lambda(&var("v"));
    assert_eq!(prop.root, "ROOT");
    assert!(prop.roles.is_empty());
}

#[test]
fn decimal_numerals() {
    assert_eq!(decimal_string(0), "0");
    assert_eq!(decimal_string(7), "7");
    assert_eq!(decimal_string(10), "10");
    assert_eq!(decimal_string(4096), "4096");
}

#[test]
fn drs_update_keeps_new_referents() {
    let term = abs("x", abs("y", LambdaTerm::Pred("love".into(), vec![var("x"), var("y")])));
    let parent = vec!["x".to_string()];
    let upd = DrsUpdate::from_lambda(&term, &parent);
    assert_eq!(upd.new_referents, vec!["y".to_string()]);
    assert_eq!(upd.new_conditions, vec!["love(x,y)".to_string()]);
}

#[test]
fn modal_type_extract_uses_registered_types() {
    let mut sem = MtlgSemantics::new();
    let ty = ModalType::functor(ModalMode::Box, TypeCategory(5), 1, Direction::Right);
    sem.register_type("run".to_string(), ty);
    let pred = LambdaTerm::Pred("run".into(), vec![cons("a")]);
    assert_eq!(sem.modal_type_extract(&pred), TypeCategory(5));
    assert_eq!(sem.modal_type_extract(&app(pred, cons("b"))), TypeCategory(5));
    let other = LambdaTerm::Pred("walk".into(), vec![]);
    assert_eq!(sem.modal_type_extract(&other), TypeCategory(0));
    let ty2 = ModalType::functor(ModalMode::Box, TypeCategory(9), 1, Direction::Right);
    sem.register_type("run".to_string(), ty2);
    assert_eq!(sem.modal_type_extract(&LambdaTerm::Pred("run".into(), vec![])), TypeCategory(9));
}

#[test]
fn compose_applies_compatible_functor() {
    let sem = MtlgSemantics::new();
    let f = ModalType::functor(ModalMode::Diamond, TypeCategory(2), 2, Direction::Right);
    let arg = ModalType::atom(ModalMode::Diamond, TypeCategory(3));
    let r = sem.compose(f, arg).unwrap();
    assert_eq!(r.arity, 1);
    assert_eq!(r.category, TypeCategory(2));
    let wrong_mode = ModalType::atom(ModalMode::Box, TypeCategory(3));
    assert!(sem.compose(f, wrong_mode).is_none());
    let left = ModalType::functor(ModalMode::Diamond, TypeCategory(2), 2, Direction::Left);
    assert!(sem.compose(left, arg).is_none());
}

#[test]
fn compose_with_meta_follows_licensing_rule() {
    let sem = MtlgSemantics::new();
    let f = ModalType::functor(ModalMode::Diamond, TypeCategory(2), 0, Direction::Right);
    let c = TypedFact { category: TypeCategory(4), mode: ModalMode::Box, direction: Direction::Left };
    let r = sem.compose_with_meta(f, Some(c)).unwrap();
    assert_eq!(r.category, TypeCategory(4));
    assert_eq!(r.mode, ModalMode::Box);
    assert_eq!(r.direction, Direction::Left);
    assert_eq!(r.arity, 0);
    assert!(sem.compose_with_meta(f, None).is_none());
}

#[test]
fn discourse_level_drops_parent_referents() {
    let sem = MtlgSemantics::new();
    let term = abs("x", app(LambdaTerm::Pred("run".into(), vec![var("x")]), var("z")));
    let upd = sem.discourse_level(&term, &["y".to_string()]);
    assert_eq!(upd.new_referents, vec!["x".to_string()]);
    assert_eq!(upd.new_conditions, vec!["run(x)".to_string()]);
    let upd = sem.discourse_level(&term, &["x".to_string()]);
    assert!(upd.new_referents.is_empty());
}
