use purple::import::{add_entries, deduplicate_alias, parse_known_hosts_line};
use purple::ssh_config::model::{ConfigElement, HostEntry, SshConfigFile};

fn parse_str(content: &str) -> SshConfigFile {
    SshConfigFile {
        elements: SshConfigFile::parse_content(content),
        path: String::from("/tmp/test_config"),
        crlf: content.contains("\r\n"),
    }
}

fn host(alias: &str, hostname: &str) -> HostEntry {
    HostEntry { alias: alias.to_string(), hostname: hostname.to_string(), port: 22, ..Default::default() }
}

#[test]
fn test_parse_known_hosts_simple() {
    let entry = parse_known_hosts_line("example.com ssh-rsa AAAA...").unwrap();
    assert_eq!(entry.hostname, "example.com");
    assert_eq!(entry.alias, "example");
    assert_eq!(entry.port, 22);
}

#[test]
fn test_parse_known_hosts_with_port() {
    let entry = parse_known_hosts_line("[myhost.com]:2222 ssh-ed25519 AAAA...").unwrap();
    assert_eq!(entry.hostname, "myhost.com");
    assert_eq!(entry.alias, "myhost");
    assert_eq!(entry.port, 2222);
}

#[test]
fn test_parse_known_hosts_hashed() {
    let result = parse_known_hosts_line("|1|abc=|def= ssh-rsa AAAA...");
    assert!(result.is_none());
}

#[test]
fn test_parse_known_hosts_ip_only() {
    let result = parse_known_hosts_line("192.168.1.1 ssh-rsa AAAA...");
    assert!(result.is_none());
}

#[test]
fn test_parse_known_hosts_comma_separated() {
    let entry = parse_known_hosts_line("myserver.com,192.168.1.1 ssh-ed25519 AAAA...").unwrap();
    assert_eq!(entry.hostname, "myserver.com");
    assert_eq!(entry.alias, "myserver");
}

#[test]
fn known_hosts_lines_that_give_nothing() {
    assert!(parse_known_hosts_line("").is_none());
    assert!(parse_known_hosts_line("example.com").is_none());
    assert!(parse_known_hosts_line("@cert-authority *.example.com ssh-rsa AAAA").is_none());
    assert!(parse_known_hosts_line("[example.com ssh-rsa AAAA").is_none());
    assert!(parse_known_hosts_line("[]:22 ssh-rsa AAAA").is_none());
    assert!(parse_known_hosts_line("*.example.com ssh-rsa AAAA").is_none());
    assert!(parse_known_hosts_line("h?st.example.com ssh-rsa AAAA").is_none());
    assert!(parse_known_hosts_line("::1 ssh-rsa AAAA").is_none());
    assert!(parse_known_hosts_line(".example.com ssh-rsa AAAA").is_none());
}

#[test]
fn known_hosts_port_falls_back_to_22() {
    let entry = parse_known_hosts_line("[myhost.com]:http ssh-ed25519 AAAA").unwrap();
    assert_eq!(entry.port, 22);
    let bare = parse_known_hosts_line("[myhost.com] ssh-ed25519 AAAA").unwrap();
    assert_eq!(bare.port, 22);
    assert_eq!(bare.hostname, "myhost.com");
    let colon_only = parse_known_hosts_line("[myhost.com]: ssh-ed25519 AAAA").unwrap();
    assert_eq!(colon_only.port, 22);
}

#[test]
fn deduplicate_alias_takes_the_next_free_number() {
    let config = parse_str("Host web\n  HostName a\n\nHost web-2\n  HostName b\n");
    assert_eq!(deduplicate_alias(&config, "db"), "db");
    assert_eq!(deduplicate_alias(&config, "web"), "web-3");
}

#[test]
fn deduplicate_alias_gives_up_after_99() {
    let mut text = String::from("Host web\n");
    for n in 2..=99 {
        text.push_str(&format!("Host web-{}\n", n));
    }
    let config = parse_str(&text);
    assert_eq!(deduplicate_alias(&config, "web"), "web");
    let mut config = config;
    let result = add_entries(&mut config, &[host("web", "w.example.com")], None);
    assert_eq!(result, Ok((0, 1)));
}

#[test]
fn add_entries_renames_and_counts() {
    let mut config = parse_str("Host web\n  HostName a\n");
    let entries = vec![host("web", "w.example.com"), host("db", "d.example.com")];
    let result = add_entries(&mut config, &entries, None);
    assert_eq!(result, Ok((2, 0)));
    assert_eq!(
        config.serialize(),
        "Host web\n  HostName a\n\nHost web-2\n  HostName w.example.com\n\nHost db\n  HostName d.example.com\n"
    );
}

#[test]
fn add_entries_with_group_header() {
    let mut config = parse_str("Host web\n  HostName a\n");
    let entries = vec![host("one", "1.example.com"), host("two", "2.example.com")];
    let result = add_entries(&mut config, &entries, Some("Imported"));
    assert_eq!(result, Ok((2, 0)));
    assert_eq!(
        config.serialize(),
        "Host web\n  HostName a\n\n# Imported\nHost one\n  HostName 1.example.com\n\nHost two\n  HostName 2.example.com\n"
    );
    assert!(matches!(&config.elements[2], ConfigElement::GlobalLine(s) if s == "# Imported"));
}

#[test]
fn add_entries_without_entries_adds_no_header() {
    let mut config = parse_str("Host web\n  HostName a\n");
    let result = add_entries(&mut config, &[], Some("Imported"));
    assert_eq!(result, Ok((0, 0)));
    assert_eq!(config.serialize(), "Host web\n  HostName a\n");
}
