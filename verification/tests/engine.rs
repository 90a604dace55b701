use tikv_service::encoding::{CollectionType, KeyEncoder};
use tikv_service::errors::EngineError;
use tikv_service::list::{
    compute_trim, decode_list_meta, encode_list_meta, plan_ltrim, trim_delete_keys, LtrimStep,
};
use tikv_service::pool::{ConnectAttempt, SessionPool};
use tikv_service::selector::{gen_next_meta_index, Selector};

#[test]
fn meta_slot_round_robin() {
    let mut sel = Selector::new(4);
    let mut got = Vec::new();
    for _ in 0..8 {
        got.push(gen_next_meta_index(&mut sel));
    }
    assert_eq!(got, vec![0, 1, 2, 3, 0, 1, 2, 3]);
}

#[test]
fn selector_fairness_over_full_cycles() {
    let mut sel = Selector::new(3);
    let mut counts = [0usize; 3];
    for _ in 0..9 {
        counts[sel.next_index()] += 1;
    }
    assert_eq!(counts, [3, 3, 3]);
}

#[test]
fn accessors_before_connect_refuse() {
    let mut pool = SessionPool::new();
    assert_eq!(pool.get_client().unwrap_err(), EngineError::NotConnected);
    assert_eq!(pool.get_txn_client().unwrap_err(), EngineError::NotConnected);
}

#[test]
fn failed_connect_leaves_pool_not_connected() {
    let mut pool = SessionPool::new();
    assert_eq!(
        pool.connect(2, ConnectAttempt::Failed).unwrap_err(),
        EngineError::Connect
    );
    assert_eq!(pool.get_client().unwrap_err(), EngineError::NotConnected);
    assert_eq!(pool.get_txn_client().unwrap_err(), EngineError::NotConnected);
}

#[test]
fn connect_then_acquire_rotates_and_excludes() {
    let mut pool = SessionPool::new();
    pool.connect(2, ConnectAttempt::Established).unwrap();
    assert!(pool.get_client().is_ok());
    let h1 = pool.get_txn_client().unwrap();
    let h2 = pool.get_txn_client().unwrap();
    // two in-flight commands never share a session
    assert_ne!(h1.index, h2.index);
    // every session busy: acquisition fails rather than interleave
    assert_eq!(pool.get_txn_client().unwrap_err(), EngineError::Backend);
    pool.finish_txn(h1);
    let h3 = pool.get_txn_client().unwrap();
    assert_eq!(h3.index, h1.index);
}

#[test]
fn acquisition_skips_busy_sessions() {
    let mut pool = SessionPool::new();
    pool.connect(3, ConnectAttempt::Established).unwrap();
    let h0 = pool.get_txn_client().unwrap();
    assert_eq!(h0.index, 0);
    let h1 = pool.get_txn_client().unwrap();
    assert_eq!(h1.index, 1);
    pool.finish_txn(h1);
    // the rotation points at 2 next; 2 is free
    let h2 = pool.get_txn_client().unwrap();
    assert_eq!(h2.index, 2);
    // rotation points at 0, which is busy: 1 is the next free one
    let h3 = pool.get_txn_client().unwrap();
    assert_eq!(h3.index, 1);
}

#[test]
fn encoder_distinct_triples_never_collide() {
    let enc = KeyEncoder::new();
    let a = enc.encode_data_key(CollectionType::ListType, b"k", b"m1");
    let b = enc.encode_data_key(CollectionType::ListType, b"k", b"m2");
    let c = enc.encode_data_key(CollectionType::HashType, b"k", b"m1");
    let d = enc.encode_data_key(CollectionType::ListType, b"k2", b"m1");
    assert_ne!(a, b);
    assert_ne!(a, c);
    assert_ne!(a, d);
    assert_ne!(b, c);
    assert_ne!(c, d);
    let meta = enc.encode_meta_key(CollectionType::ListType, b"k", 0);
    assert_ne!(meta, a);
}

#[test]
fn encoder_framing_resists_key_member_shuffling() {
    let enc = KeyEncoder::new();
    // same concatenation of key and member bytes, split differently
    let a = enc.encode_data_key(CollectionType::SetType, b"ab", b"c");
    let b = enc.encode_data_key(CollectionType::SetType, b"a", b"bc");
    assert_ne!(a, b);
}

#[test]
fn instance_id_scopes_keys() {
    let mut enc = KeyEncoder::new();
    assert_eq!(enc.get_instance_id(), 0);
    let plain = enc.encode_data_key(CollectionType::StringType, b"k", b"");
    enc.set_instance_id(7);
    assert_eq!(enc.get_instance_id(), 7);
    let scoped = enc.encode_data_key(CollectionType::StringType, b"k", b"");
    assert_ne!(plain, scoped);
}

#[test]
fn list_keys_order_by_index() {
    let enc = KeyEncoder::new();
    let indices: [i64; 5] = [i64::MIN, -2, 0, 1, i64::MAX];
    for w in indices.windows(2) {
        let lo = enc.encode_list_elem_key(b"mylist", w[0]);
        let hi = enc.encode_list_elem_key(b"mylist", w[1]);
        assert!(lo.as_slice() < hi.as_slice());
        assert_eq!(lo.len(), hi.len());
    }
}

#[test]
fn list_scan_range_holds_only_this_list() {
    let enc = KeyEncoder::new();
    let lo = enc.encode_list_elem_key(b"mylist", i64::MIN);
    let hi = enc.encode_list_elem_key(b"mylist", i64::MAX);
    let member = enc.encode_list_elem_key(b"mylist", 17);
    assert!(lo.as_slice() <= member.as_slice() && member.as_slice() <= hi.as_slice());
    let other_list = enc.encode_list_elem_key(b"yourlist", 17);
    assert!(other_list.as_slice() < lo.as_slice() || hi.as_slice() < other_list.as_slice());
    let hash_member = enc.encode_data_key(CollectionType::HashType, b"mylist", b"f");
    assert!(hash_member.as_slice() < lo.as_slice() || hi.as_slice() < hash_member.as_slice());
    let meta = enc.encode_meta_key(CollectionType::ListType, b"mylist", 3);
    assert!(meta.as_slice() < lo.as_slice() || hi.as_slice() < meta.as_slice());
}

#[test]
fn trim_keeps_middle_range() {
    // trimming [a,b,c,d,e] to [1,3] yields [b,c,d]
    let plan = compute_trim(0, 5, 1, 3);
    assert_eq!(plan.new_head, 1);
    assert_eq!(plan.new_tail, 4);
    let list = vec!["a", "b", "c", "d", "e"];
    let kept: Vec<&str> = list
        .iter()
        .enumerate()
        .filter(|(i, _)| (*i as i64) >= plan.new_head && (*i as i64) < plan.new_tail)
        .map(|(_, v)| *v)
        .collect();
    assert_eq!(kept, vec!["b", "c", "d"]);
    let enc = KeyEncoder::new();
    let deletes = trim_delete_keys(&enc, b"mylist", 0, 5, &plan);
    assert_eq!(deletes.len(), 2);
    assert_eq!(deletes[0], enc.encode_list_elem_key(b"mylist", 0));
    assert_eq!(deletes[1], enc.encode_list_elem_key(b"mylist", 4));
}

#[test]
fn trim_negative_bounds_count_from_end() {
    let plan = compute_trim(0, 5, -2, -1);
    assert_eq!(plan.new_head, 3);
    assert_eq!(plan.new_tail, 5);
}

#[test]
fn trim_crossed_bounds_empty_the_list() {
    let plan = compute_trim(10, 15, 4, 2);
    assert_eq!(plan.new_head, 10);
    assert_eq!(plan.new_tail, 10);
}

#[test]
fn trim_start_past_end_empties_the_list() {
    let plan = compute_trim(0, 3, 5, 9);
    assert_eq!(plan.new_head, plan.new_tail);
}

#[test]
fn list_meta_round_trips() {
    let v = encode_list_meta(-7, 9);
    assert_eq!(v.len(), 16);
    assert_eq!(decode_list_meta(v.as_slice()), Some((-7, 9)));
    assert_eq!(decode_list_meta(&v[0..15]), None);
}

#[test]
fn plan_ltrim_on_missing_list_does_nothing() {
    let enc = KeyEncoder::new();
    match plan_ltrim(&enc, b"k", None, 0, -1) {
        Ok(LtrimStep::Nothing) => {}
        _ => panic!("a missing list needs no writes"),
    }
}

#[test]
fn plan_ltrim_refuses_corrupt_meta() {
    let enc = KeyEncoder::new();
    let junk = vec![1u8, 2, 3];
    match plan_ltrim(&enc, b"k", Some(&junk), 0, -1) {
        Err(EngineError::Backend) => {}
        _ => panic!("corrupt bounds must surface a backend error"),
    }
}

#[test]
fn plan_ltrim_plans_deletes_and_meta_update() {
    let enc = KeyEncoder::new();
    let meta = encode_list_meta(0, 5);
    match plan_ltrim(&enc, b"mylist", Some(&meta), 1, 3) {
        Ok(LtrimStep::Apply { delete_keys, new_meta, delete_meta }) => {
            assert_eq!(delete_keys.len(), 2);
            assert_eq!(new_meta, encode_list_meta(1, 4));
            assert!(!delete_meta);
        }
        _ => panic!("an existing list gets a concrete plan"),
    }
}

#[test]
fn trim_retried_after_conflict_applies_once() {
    let enc = KeyEncoder::new();
    // in-memory stand-in for the backend: the list [a,b,c,d,e] at positions 0..5
    let mut store: std::collections::HashMap<Vec<u8>, Vec<u8>> = std::collections::HashMap::new();
    let meta_key = enc.encode_meta_key(CollectionType::ListType, b"mylist", 0);
    store.insert(meta_key.clone(), encode_list_meta(0, 5));
    for (pos, val) in [b"a", b"b", b"c", b"d", b"e"].iter().enumerate() {
        store.insert(enc.encode_list_elem_key(b"mylist", pos as i64), val.to_vec());
    }
    let policy = tikv_service::txn::RetryPolicy { max_attempts: 3, backoff_ms: 0 };

    // first attempt plans, then a simulated write conflict discards it all
    let meta = store.get(&meta_key).cloned();
    let _discarded = plan_ltrim(&enc, b"mylist", meta.as_ref(), 1, 3).unwrap();
    let decision = tikv_service::txn::next_retry_decision(
        &policy,
        0,
        tikv_service::txn::AttemptOutcome::Conflicted,
    );
    assert_eq!(decision, tikv_service::txn::RetryDecision::RetryAfter { wait_ms: 0 });

    // the retry reruns the whole read-modify-write over fresh reads
    let meta = store.get(&meta_key).cloned();
    match plan_ltrim(&enc, b"mylist", meta.as_ref(), 1, 3).unwrap() {
        LtrimStep::Apply { delete_keys, new_meta, delete_meta } => {
            for k in delete_keys {
                store.remove(&k);
            }
            assert!(!delete_meta);
            store.insert(meta_key.clone(), new_meta);
        }
        _ => panic!("an existing list gets a concrete plan"),
    }

    // exactly one application of the trim: [b,c,d] remains
    assert_eq!(store.get(&meta_key), Some(&encode_list_meta(1, 4)));
    assert_eq!(store.len(), 4);
    for (pos, val) in [(1i64, b"b"), (2, b"c"), (3, b"d")] {
        assert_eq!(store.get(&enc.encode_list_elem_key(b"mylist", pos)), Some(&val.to_vec()));
    }
}

#[test]
fn plan_ltrim_deletes_meta_when_emptied() {
    let enc = KeyEncoder::new();
    let meta = encode_list_meta(0, 3);
    match plan_ltrim(&enc, b"mylist", Some(&meta), 2, 1) {
        Ok(LtrimStep::Apply { delete_keys, new_meta, delete_meta }) => {
            assert_eq!(delete_keys.len(), 3);
            assert_eq!(new_meta, encode_list_meta(0, 0));
            assert!(delete_meta);
        }
        _ => panic!("emptying a list deletes all members and the bounds"),
    }
}
