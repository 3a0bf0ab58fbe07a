//! The address that players see.

use itv_relay::address::{default_base_url, pick_ipv4};

#[test]
fn picks_the_first_reachable_address() {
    assert_eq!(
        pick_ipv4("127.0.0.1 10.0.0.7 192.168.1.2 \n").as_deref(),
        Some("10.0.0.7")
    );
    assert_eq!(
        pick_ipv4("fe80::1\t192.168.1.2").as_deref(),
        Some("192.168.1.2")
    );
    assert_eq!(pick_ipv4("127.0.1.1 ::1"), None);
    assert_eq!(pick_ipv4(""), None);
    assert_eq!(pick_ipv4(" \n "), None);
}

#[test]
fn the_port_is_the_one_listened_on() {
    assert_eq!(
        default_base_url("0.0.0.0:8088", Some("10.0.0.7")),
        "http://10.0.0.7:8088"
    );
    assert_eq!(default_base_url("[::]:80", None), "http://127.0.0.1:80");
    assert_eq!(default_base_url("8088", None), "http://127.0.0.1:8088");
    assert_eq!(default_base_url("host:", None), "http://127.0.0.1:");
}
