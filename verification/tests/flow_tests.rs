use reachcore::flow::{
    another_unused, apply_twice, dead_chain_start, fetch_data, identity, initialize, load_config,
    longest, process_item, run_pipeline, transform_data,
};
use reachcore::flow::make_adder;

#[test]
fn test_load_config() {
    let config = load_config();
    assert_eq!(config.host, "localhost");
    assert_eq!(config.port, 8080);
}

#[test]
fn test_initialize() {
    let config = load_config();
    assert!(initialize(&config));
}

#[test]
fn test_fetch_data() {
    let data = fetch_data();
    assert!(!data.is_empty());
}

#[test]
fn test_transform_data() {
    let data = b"test";
    let result = transform_data(data);
    assert!(result.starts_with(b"transformed: "));
}

#[test]
fn test_identity() {
    assert_eq!(identity(42), 42);
    assert_eq!(identity("hello"), "hello");
}

#[test]
#[should_panic]
fn test_panic() {
    panic!("Expected panic");
}

#[test]
fn test_run_pipeline() {
    let out = run_pipeline();
    assert_eq!(out, b"transformed: sample data".to_vec());
}

#[test]
fn test_longest() {
    assert_eq!(longest("abc", "de"), "abc");
    assert_eq!(longest("ab", "cde"), "cde");
    assert_eq!(longest("ab", "cd"), "cd");
}

#[test]
fn test_process_item() {
    assert_eq!(process_item(7), "7");
}

#[test]
fn test_another_unused() {
    assert_eq!(another_unused(), "dead");
    dead_chain_start();
}

#[test]
fn test_apply_twice() {
    let double = |x: i32| x * 2;
    assert_eq!(apply_twice(double, 3), 12);
}

#[test]
fn test_make_adder() {
    let add5 = make_adder(5);
    assert_eq!(add5(10), 15);
}
