use csrre_core::fnv::fnv1a_64_bytes;
use csrre_core::lambda::{render_term, LambdaTerm};
use csrre_core::types::{Direction, ModalMode, ModalType, TypeCategory};

fn var(s: &str) -> LambdaTerm {
    LambdaTerm::Var(s.to_string())
}

fn cons(s: &str) -> LambdaTerm {
    LambdaTerm::Const(s.to_string())
}

fn sample_terms() -> Vec<LambdaTerm> {
    let ty = ModalType::functor(ModalMode::Lozenge, TypeCategory(42), 3, Direction::Left);
    vec![
        var("x"),
        cons("a"),
        LambdaTerm::App(Box::new(var("x")), Box::new(cons("a"))),
        LambdaTerm::Abs(
            "x".to_string(),
            ModalType::atom(ModalMode::Diamond, TypeCategory(0)),
            Box::new(var("x")),
        ),
        LambdaTerm::Abs("y".to_string(), ty, Box::new(LambdaTerm::Intension(Box::new(var("y"))))),
        LambdaTerm::Pred("p".to_string(), vec![]),
        LambdaTerm::Pred("p".to_string(), vec![var("a"), cons("b"), var("c")]),
        LambdaTerm::Intension(Box::new(LambdaTerm::Pred("q".to_string(), vec![cons("z")]))),
        cons("say \"hi\"\\\n\tλ"),
    ]
}

#[test]
fn render_matches_derived_debug() {
    for t in sample_terms() {
        assert_eq!(render_term(&t), format!("{:?}", t));
    }
}

#[test]
fn render_exact_texts() {
    let app = LambdaTerm::App(Box::new(var("x")), Box::new(cons("a")));
    assert_eq!(render_term(&app), "App(Var(\"x\"), Const(\"a\"))");
    let abs = LambdaTerm::Abs(
        "x".to_string(),
        ModalType::atom(ModalMode::Box, TypeCategory(7)),
        Box::new(var("x")),
    );
    assert_eq!(
        render_term(&abs),
        "Abs(\"x\", ModalType { mode: Box, category: TypeCategory(7), arity: 0, direction: Right }, Var(\"x\"))"
    );
    let pred = LambdaTerm::Pred("p".to_string(), vec![var("a"), var("b")]);
    assert_eq!(render_term(&pred), "Pred(\"p\", [Var(\"a\"), Var(\"b\")])");
}

#[test]
fn structural_hash_is_fnv_of_debug_text() {
    for t in sample_terms() {
        let text = format!("{:?}", t);
        assert_eq!(t.structural_hash(), fnv1a_64_bytes(text.as_bytes()));
    }
}
