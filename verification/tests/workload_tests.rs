use noah_kv::store::NanoEngine;
use noah_kv::workload::{plan_operation, u64_to_decimal, BenchOp};

#[test]
fn decimal_text_is_exact() {
    assert_eq!(u64_to_decimal(0), "0");
    assert_eq!(u64_to_decimal(7), "7");
    assert_eq!(u64_to_decimal(10), "10");
    assert_eq!(u64_to_decimal(12345), "12345");
    assert_eq!(u64_to_decimal(u64::MAX), "18446744073709551615");
}

#[test]
fn set_mode_plans_a_write() {
    match plan_operation("set", false, 42, 3) {
        Some(BenchOp::SetCall { key, value }) => {
            assert_eq!(key, "key_42");
            assert_eq!(value, "value_3");
        }
        other => panic!("planned {:?}", other.is_some()),
    }
}

#[test]
fn get_mode_stays_in_the_bounded_key_space() {
    match plan_operation("get", true, 123456, 0) {
        Some(BenchOp::GetCall { key }) => assert_eq!(key, "key_3456"),
        other => panic!("planned {:?}", other.is_some()),
    }
}

#[test]
fn mixed_mode_follows_the_coin() {
    match plan_operation("mixed", true, 5, 9) {
        Some(BenchOp::SetCall { key, value }) => {
            assert_eq!(key, "key_5");
            assert_eq!(value, "value_9");
        }
        other => panic!("planned {:?}", other.is_some()),
    }
    match plan_operation("mixed", false, 15000, 9) {
        Some(BenchOp::GetCall { key }) => assert_eq!(key, "key_5000"),
        other => panic!("planned {:?}", other.is_some()),
    }
}

#[test]
fn unknown_mode_plans_nothing() {
    assert!(plan_operation("flood", true, 1, 1).is_none());
}

#[test]
fn workers_of_mixed_operations_all_complete() {
    // Many workers' planned operations run against one shared store in
    // full. A simple deterministic generator stands in for the driver's
    // random draws and its seven-in-ten coin.
    let mut engine = NanoEngine::new();
    let mut state: u32 = 12345;
    let mut completed: u64 = 0;
    for _worker in 0..10 {
        for i in 0..100 {
            state = state.wrapping_mul(1664525).wrapping_add(1013904223);
            let favor_write = state % 10 < 7;
            match plan_operation("mixed", favor_write, state % 10000, i) {
                Some(BenchOp::SetCall { key, value }) => {
                    engine.set(&key, value.into_bytes());
                }
                Some(BenchOp::GetCall { key }) => {
                    engine.get(&key);
                }
                None => panic!("the mixed mode always plans an operation"),
            }
            completed += 1;
        }
    }
    assert_eq!(completed, 1000);
    assert!(!engine.list_keys("").is_empty());
}
