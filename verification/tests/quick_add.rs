use purple::quick_add::{looks_like_target, parse_target};

#[test]
fn test_full_target() {
    let result = parse_target("admin@example.com:2222").unwrap();
    assert_eq!(result.user, "admin");
    assert_eq!(result.hostname, "example.com");
    assert_eq!(result.port, 2222);
}

#[test]
fn test_user_and_host() {
    let result = parse_target("root@10.0.0.1").unwrap();
    assert_eq!(result.user, "root");
    assert_eq!(result.hostname, "10.0.0.1");
    assert_eq!(result.port, 22);
}

#[test]
fn test_host_and_port() {
    let result = parse_target("example.com:8022").unwrap();
    assert_eq!(result.user, "");
    assert_eq!(result.hostname, "example.com");
    assert_eq!(result.port, 8022);
}

#[test]
fn test_host_only() {
    let result = parse_target("example.com").unwrap();
    assert_eq!(result.user, "");
    assert_eq!(result.hostname, "example.com");
    assert_eq!(result.port, 22);
}

#[test]
fn test_empty_target() {
    assert!(parse_target("").is_err());
}

#[test]
fn test_empty_user() {
    assert!(parse_target("@example.com").is_err());
}

#[test]
fn test_empty_hostname() {
    assert!(parse_target("user@").is_err());
}

#[test]
fn test_port_zero() {
    assert!(parse_target("example.com:0").is_err());
}

#[test]
fn test_looks_like_target_with_at() {
    assert!(looks_like_target("user@host"));
}

#[test]
fn test_looks_like_target_with_port() {
    assert!(looks_like_target("host:22"));
}

#[test]
fn test_looks_like_target_plain_host() {
    assert!(!looks_like_target("myserver"));
}

#[test]
fn test_bare_ipv6() {
    let result = parse_target("2001:db8::1").unwrap();
    assert_eq!(result.hostname, "2001:db8::1");
    assert_eq!(result.port, 22);
}

#[test]
fn test_bracketed_ipv6_with_port() {
    let result = parse_target("[2001:db8::1]:2222").unwrap();
    assert_eq!(result.hostname, "2001:db8::1");
    assert_eq!(result.port, 2222);
}

#[test]
fn test_bracketed_ipv6_no_port() {
    let result = parse_target("[::1]").unwrap();
    assert_eq!(result.hostname, "::1");
    assert_eq!(result.port, 22);
}

#[test]
fn test_user_at_ipv6() {
    let result = parse_target("root@2001:db8::1").unwrap();
    assert_eq!(result.user, "root");
    assert_eq!(result.hostname, "2001:db8::1");
    assert_eq!(result.port, 22);
}

#[test]
fn test_looks_like_target_bare_ipv6() {
    assert!(!looks_like_target("2001:db8::1"));
}

#[test]
fn test_looks_like_target_bracketed_ipv6() {
    assert!(looks_like_target("[::1]:22"));
}

#[test]
fn each_fault_has_its_message() {
    assert_eq!(parse_target("").unwrap_err(), "Target can't be empty.");
    assert_eq!(parse_target("@host").unwrap_err(), "User part before @ can't be empty.");
    assert_eq!(parse_target("host:0").unwrap_err(), "Port 0? Bold choice, but no. Try 1-65535.");
    assert_eq!(parse_target("[::1]:0").unwrap_err(), "Port 0? Bold choice, but no. Try 1-65535.");
    assert_eq!(parse_target("[::1]:x").unwrap_err(), "Invalid port after bracketed host.");
    assert_eq!(parse_target("[::1]x").unwrap_err(), "Unexpected text after closing bracket.");
    assert_eq!(parse_target("[::1").unwrap_err(), "Missing closing bracket for IPv6 address.");
    assert_eq!(parse_target("user@").unwrap_err(), "Hostname can't be empty.");
    assert_eq!(parse_target("[]").unwrap_err(), "Hostname can't be empty.");
}

#[test]
fn port_that_is_no_number_belongs_to_the_host() {
    let result = parse_target("example.com:http").unwrap();
    assert_eq!(result.hostname, "example.com:http");
    assert_eq!(result.port, 22);
    let big = parse_target("example.com:65536").unwrap();
    assert_eq!(big.hostname, "example.com:65536");
    assert_eq!(big.port, 22);
    let top = parse_target("example.com:65535").unwrap();
    assert_eq!(top.hostname, "example.com");
    assert_eq!(top.port, 65535);
}
