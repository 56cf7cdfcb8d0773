use acarshub_options::address::{check_address_entry, check_host_is_valid};

#[test]
fn test_check_ports_are_valid_with_host() {
    let valid_hosts: Option<Vec<String>> = Some(vec![
        "127.0.0.1:8008".to_string(),
        "10.0.0.1:12345".to_string(),
        "192.168.1.1:65535".to_string(),
        "localhost:8008".to_string(),
        "ok.go:1234".to_string(),
    ]);
    let invalid_hosts: Option<Vec<String>> = Some(vec![
        "127.0.0.1:0".to_string(),
        "10.0.0.1".to_string(),
        "192.168.1.1:65536".to_string(),
        "localhost".to_string(),
        "alpha.go".to_string(),
        "localhost:65536".to_string(),
        "123:456".to_string(),
        "abc:12three".to_string(),
        "host:123:456".to_string(),
    ]);
    let empty_host_vec: Option<Vec<String>> = Some(vec![]);
    let valid_hosts_tests: bool = check_host_is_valid(&valid_hosts, "valid_hosts");
    let invalid_hosts_tests: bool = check_host_is_valid(&invalid_hosts, "invalid_hosts");
    let empty_host_vec_test: bool = check_host_is_valid(&empty_host_vec, "empty_vec");
    assert_eq!(valid_hosts_tests, true);
    assert_eq!(invalid_hosts_tests, false);
    assert_eq!(empty_host_vec_test, false);
}

#[test]
fn absent_group_is_vacuously_valid() {
    let absent: Option<Vec<String>> = None;
    assert_eq!(check_host_is_valid(&absent, "absent"), true);
    let present_but_empty: Option<Vec<String>> = Some(Vec::new());
    assert_eq!(check_host_is_valid(&present_but_empty, "empty"), false);
}

#[test]
fn hostname_entries_follow_the_single_colon_rule() {
    // A letter anywhere makes an entry a hostname, so only the port is checked.
    assert!(check_address_entry("ok.go:1234"));
    assert!(check_address_entry("a:1"));
    assert!(check_address_entry("localhost:00080"));

    // No colon, a second colon, an empty port, and a non-numeric port fail.
    assert!(!check_address_entry("localhost"));
    assert!(!check_address_entry("host:123:456"));
    assert!(!check_address_entry("localhost:"));
    assert!(!check_address_entry("abc:12three"));
    assert!(!check_address_entry("abc:+80"));

    // Port zero and ports beyond 65535 fail.
    assert!(!check_address_entry("localhost:0"));
    assert!(!check_address_entry("localhost:000"));
    assert!(!check_address_entry("localhost:65536"));
    assert!(check_address_entry("localhost:65535"));
}

#[test]
fn ipv4_entries_follow_the_socket_grammar() {
    assert!(check_address_entry("1.2.3.4:1"));
    assert!(check_address_entry("255.255.255.255:65535"));
    assert!(check_address_entry("0.0.0.0:80"));
    // The port may carry leading zeros, as the standard parser allows.
    assert!(check_address_entry("127.0.0.1:0080"));

    // Bad octets: out of range, leading zero, too many digits, missing.
    assert!(!check_address_entry("256.0.0.1:80"));
    assert!(!check_address_entry("01.2.3.4:80"));
    assert!(!check_address_entry("1234.0.0.1:80"));
    assert!(!check_address_entry("1.2.3:80"));
    assert!(!check_address_entry("1.2.3.:80"));
    assert!(!check_address_entry(".1.2.3:80"));
    assert!(!check_address_entry("1.2.3.4.5:80"));

    // Bad ports: missing, empty, zero, out of range, trailing junk.
    assert!(!check_address_entry("1.2.3.4"));
    assert!(!check_address_entry("1.2.3.4:"));
    assert!(!check_address_entry("1.2.3.4:0"));
    assert!(!check_address_entry("1.2.3.4:65536"));
    assert!(!check_address_entry("1.2.3.4:80:90"));
    assert!(!check_address_entry("123:456"));
    assert!(!check_address_entry(""));
}

#[test]
fn ipv6_entries_follow_the_bracketed_grammar() {
    // Letterless bracketed IPv6 socket literals are accepted.
    assert!(check_address_entry("[::1]:8080"));
    assert!(check_address_entry("[::]:80"));
    assert!(check_address_entry("[1:2:3:4:5:6:7:8]:80"));
    assert!(check_address_entry("[1:2:3:4:5:6:7::]:80"));
    assert!(check_address_entry("[::1.2.3.4]:80"));
    assert!(check_address_entry("[1:2:3:4:5:6:1.2.3.4]:80"));
    assert!(check_address_entry("[0001::0]:65535"));
    assert!(check_address_entry("[::1%2]:8080"));
    assert!(check_address_entry("[::1%00]:8080"));

    // A hex letter routes the entry to the hostname rule, where the extra
    // colons fail it.
    assert!(!check_address_entry("[2001:db8::1]:80"));

    // Structural failures.
    assert!(!check_address_entry("[::1]"));
    assert!(!check_address_entry("::1:8080"));
    assert!(!check_address_entry("[]:80"));
    assert!(!check_address_entry("[1:2:3:4:5:6:7:8:9]:80"));
    assert!(!check_address_entry("[1:2:3:4:5:6:7:8::]:80"));
    assert!(!check_address_entry("[1::2::3]:80"));
    assert!(!check_address_entry("[12345::]:80"));
    assert!(!check_address_entry("[1.2.3.4::]:80"));
    assert!(!check_address_entry("[1.2.3.4]:80"));
    assert!(!check_address_entry("[:1]:80"));
    assert!(!check_address_entry("[::1%]:80"));
    assert!(!check_address_entry("[::1%2%3]:80"));

    // Port failures.
    assert!(!check_address_entry("[::1]:0"));
    assert!(!check_address_entry("[::1]:65536"));
    assert!(!check_address_entry("[::1]:"));
    assert!(!check_address_entry("[::1]:80:90"));
}
