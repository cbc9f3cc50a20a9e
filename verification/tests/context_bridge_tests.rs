use csrre_core::context_bridge::{ContextBridge, AtmsError};

#[test]
fn push_pop_o1() {
    let mut bridge = ContextBridge::new();
    let env1 = bridge.push(1).unwrap();
    let env2 = bridge.push(2).unwrap();
    assert_ne!(env1, env2);
    let (ctx, _bit, env_after_pop) = bridge.pop().unwrap();
    assert_eq!(ctx, 2);
    assert_eq!(env_after_pop, env1);
}

#[test]
fn shift_updates_active() {
    let mut bridge = ContextBridge::new();
    bridge.push(1).unwrap();
    bridge.push(2).unwrap();
    let env = bridge.shift(&[2], Some(3));
    assert!(bridge.env_for(3).map_or(false, |e| e & env != 0));
}

#[test]
fn sequential_contexts_recycle_bits() {
    let mut bridge = ContextBridge::new();
    for i in 0u64..1000 {
        let _ = bridge.push(i).expect("push should not exhaust");
        assert_eq!(bridge.depth(), 1);
        bridge.pop().expect("pop should work");
        bridge.try_reclaim_pending(&[]);
        assert_eq!(bridge.active_env(), 0);
    }
}

#[test]
fn exhausted_after_64_simultaneous_contexts() {
    let mut bridge = ContextBridge::new();
    for i in 0u64..64 {
        bridge.push(i).unwrap();
    }
    assert_eq!(bridge.active_env(), u64::MAX);
    assert!(matches!(bridge.push(64), Err(AtmsError::AssumptionSpaceExhausted)));
    assert_eq!(bridge.depth(), 64);
    assert_eq!(bridge.current_context(), Some(63));
}

#[test]
fn live_labels_keep_bits_pending() {
    let mut bridge = ContextBridge::new();
    let e = bridge.push(7).unwrap();
    assert_eq!(e, 1);
    bridge.pop().unwrap();
    // bit 0 is still referenced: it stays pending, so the next push takes bit 1
    bridge.try_reclaim_pending(&[1]);
    assert_eq!(bridge.push(8).unwrap(), 2);
    assert_eq!(bridge.env_for(8), Some(2));
    assert_eq!(bridge.env_for(7), None);
    assert!(bridge.pop().is_some());
    assert!(bridge.pop().is_none());
    assert_eq!(bridge.current_context(), None);
}

#[test]
fn sequential_1000_contexts_no_exhaustion() {
    let mut bridge = ContextBridge::new();
    for i in 0u64..1000 {
        let _ = bridge.push(i).expect("push should not exhaust");
        let depth = bridge.depth();
        let (ctx_count, bit_count) = bridge.mapping_sizes();
        assert_eq!(ctx_count + bit_count, depth * 2, "at depth {depth}");
        bridge.pop().expect("pop should work");
        // Emulate shift/reclaim so we don't exhaust bits
        bridge.try_reclaim_pending(&[]);
    }
}

#[test]
fn referenced_pending_bit_is_not_reused() {
    let mut b = ContextBridge::new();
    b.push(1).unwrap();
    let (_, bit, _) = b.pop().unwrap();
    let live = [1u64 << bit];
    let active = b.active_env();
    let depth = b.depth();
    b.try_reclaim_pending(&live);
    assert_eq!(b.active_env(), active);
    assert_eq!(b.depth(), depth);
    assert_eq!(b.env_for(1), None);
    // the referenced bit stays pending: the next push takes a fresh one
    let e2 = b.push(2).unwrap();
    assert_eq!(b.env_for(2), Some(1u64 << (bit + 1)));
    assert_eq!(e2 & live[0], 0);
    // once nothing references it, it is recycled first
    b.pop().unwrap();
    b.try_reclaim_pending(&[]);
    b.push(3).unwrap();
    assert_eq!(b.env_for(3), Some(1u64 << bit));
}

#[test]
fn live_contexts_hold_disjoint_singletons() {
    let mut b = ContextBridge::new();
    for c in [7u64, 8, 9] {
        b.push(c).unwrap();
    }
    let active = b.active_env();
    let envs: Vec<u64> = [7u64, 8, 9].iter().map(|c| b.env_for(*c).unwrap()).collect();
    for (i, e) in envs.iter().enumerate() {
        assert_eq!(e.count_ones(), 1);
        assert_eq!(e & active, *e);
        for (j, f) in envs.iter().enumerate() {
            if i != j {
                assert_eq!(e & f, 0);
            }
        }
    }
    assert_eq!(b.env_for(10), None);
}

#[test]
fn context_keeps_its_bit_through_calls_that_spare_it() {
    let mut b = ContextBridge::new();
    b.push(1).unwrap();
    let e1 = b.env_for(1).unwrap();
    b.push(2).unwrap();
    b.pop().unwrap();
    b.shift(&[5], Some(3));
    b.try_reclaim_pending(&[]);
    b.push(4).unwrap();
    assert_eq!(b.env_for(1), Some(e1));
    assert_eq!(e1.count_ones(), 1);
    assert_eq!(e1 & b.active_env(), e1);
    for c in [3u64, 4] {
        assert_eq!(e1 & b.env_for(c).unwrap(), 0);
    }
    // popped and never pushed again, or never pushed: no bit
    assert_eq!(b.env_for(2), None);
    assert_eq!(b.env_for(9), None);
    // shifted out: no bit
    b.shift(&[1], None);
    assert_eq!(b.env_for(1), None);
}
