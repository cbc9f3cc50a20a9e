use csrre_core::scheduler::{ExecStateTable, NodeExecState, ExecState};
use csrre_core::env::singleton;

#[test]
fn active_when_env_and_deps_satisfied() {
    let env = singleton(0) | singleton(1);
    let mut table = ExecStateTable::new(env);
    table.register(NodeExecState::new(1, singleton(0), vec![]));
    table.register(NodeExecState::new(2, singleton(1), vec![1]));
    table.recompute_all();
    assert_eq!(table.state_of(1), Some(ExecState::Active));
    assert_eq!(table.state_of(2), Some(ExecState::Blocked));

    table.complete(1);
    assert_eq!(table.state_of(2), Some(ExecState::Active));
}

#[test]
fn dormant_when_env_unsatisfied() {
    let env = singleton(0);
    let mut table = ExecStateTable::new(env);
    table.register(NodeExecState::new(1, singleton(1), vec![]));
    table.recompute_all();
    assert_eq!(table.state_of(1), Some(ExecState::Dormant));
}

#[test]
fn ready_nodes_sorted_by_level() {
    let mut table = ExecStateTable::new(0b11);
    let mut a = NodeExecState::new(1, 0, vec![]);
    a.bt_level = 5;
    let mut b = NodeExecState::new(2, 0, vec![]);
    b.bt_level = 1;
    let mut c = NodeExecState::new(3, 0b100, vec![]);
    c.bt_level = 0;
    let mut d = NodeExecState::new(4, 0, vec![]);
    d.bt_level = 1;
    table.register(a);
    table.register(b);
    table.register(c);
    table.register(d);
    assert!(table.ready_nodes().is_empty());
    table.recompute_all();
    // levels ascend; nodes 2 and 4 share level 1, in either order
    let r = table.ready_nodes();
    assert_eq!(r.len(), 3);
    let mut tied = vec![r[0], r[1]];
    tied.sort();
    assert_eq!(tied, vec![2, 4]);
    assert_eq!(r[2], 1);
    assert_eq!(table.state_of(3), Some(ExecState::Dormant));
    assert_eq!(table.state_of(99), None);
    table.update_env(0b111);
    let r = table.ready_nodes();
    assert_eq!(r.len(), 4);
    assert_eq!(r[0], 3);
    let mut tied = vec![r[1], r[2]];
    tied.sort();
    assert_eq!(tied, vec![2, 4]);
    assert_eq!(r[3], 1);
}

#[test]
fn register_replaces_existing_record() {
    let mut table = ExecStateTable::new(0b1);
    table.register(NodeExecState::new(1, 0, vec![]));
    table.register(NodeExecState::new(1, 0, vec![7]));
    table.recompute_all();
    assert_eq!(table.state_of(1), Some(ExecState::Blocked));
    table.complete(7);
    assert_eq!(table.ready_nodes(), vec![1]);
}
