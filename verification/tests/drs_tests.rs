use csrre_core::drs::{Drs, DrsCondition};
use csrre_core::transient_repr::RepContent;

fn cond(p: &str, args: &[&str], depth: usize) -> DrsCondition {
    DrsCondition {
        predicate: p.to_string(),
        args: args.iter().map(|s| s.to_string()).collect(),
        origin_depth: depth,
    }
}

#[test]
fn lift_adds_missing_referents_and_conditions() {
    let child = Drs {
        referents: vec!["x".into(), "y".into()],
        conditions: vec![cond("love", &["x", "y"], 1)],
    };
    let mut parent = Drs {
        referents: vec!["y".into(), "z".into()],
        conditions: vec![cond("run", &["z"], 0)],
    };
    child.lift_to(&mut parent);
    assert_eq!(parent.referents, vec!["y".to_string(), "z".to_string(), "x".to_string()]);
    assert_eq!(parent.conditions, vec![cond("run", &["z"], 0), cond("love", &["x", "y"], 1)]);
}

#[test]
fn lifting_twice_changes_nothing() {
    let child = Drs { referents: vec!["a".into()], conditions: vec![cond("p", &["a"], 2)] };
    let mut parent = Drs::default();
    child.lift_to(&mut parent);
    let refs = parent.referents.clone();
    let conds = parent.conditions.clone();
    child.lift_to(&mut parent);
    assert_eq!(parent.referents, refs);
    assert_eq!(parent.conditions, conds);
}

#[test]
fn conditions_differing_in_depth_are_distinct() {
    let child = Drs { referents: vec![], conditions: vec![cond("p", &["a"], 2)] };
    let mut parent = Drs { referents: vec![], conditions: vec![cond("p", &["a"], 0)] };
    child.lift_to(&mut parent);
    assert_eq!(parent.conditions.len(), 2);
}

#[test]
fn extend_from_tr_takes_in_top_level_conditions() {
    let mut drs = Drs::default();
    drs.referents.push("a".to_string());
    let content = RepContent::DrsUpdate {
        referents: vec!["b".to_string(), "a".to_string()],
        conditions: vec!["p".to_string(), "p".to_string()],
    };
    drs.extend_from_tr(&content);
    assert_eq!(drs.referents, vec!["a".to_string(), "b".to_string()]);
    assert_eq!(drs.conditions.len(), 1);
    assert_eq!(drs.conditions[0].predicate, "p");
    assert!(drs.conditions[0].args.is_empty());
    assert_eq!(drs.conditions[0].origin_depth, 0);
    drs.extend_from_tr(&RepContent::Lambda("x".to_string()));
    assert_eq!(drs.referents.len(), 2);
}
