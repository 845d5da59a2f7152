use dist_rust_buted::hello::GreeterImpl;
use dist_rust_buted::HEARTBEAT_INTERVAL;

#[test]
fn say_hello_greets_by_name() {
    let greeter = GreeterImpl {};
    assert_eq!(greeter.say_hello("World"), "Hello World!");
    assert_eq!(greeter.say_hello(""), "Hello !");
}

#[test]
fn heartbeat_interval_is_ten_seconds() {
    assert_eq!(HEARTBEAT_INTERVAL, 10_000);
}
