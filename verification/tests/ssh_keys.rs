use purple::ssh_config::model::HostEntry;
use purple::ssh_keys::{find_linked_hosts, parse_keygen_output, SshKeyInfo};

#[test]
fn test_parse_keygen_output_ed25519() {
    let line = "256 SHA256:abcdef1234567890 user@host (ED25519)";
    let (bits, fp, comment, key_type) = parse_keygen_output(line).unwrap();
    assert_eq!(bits, "256");
    assert_eq!(fp, "SHA256:abcdef1234567890");
    assert_eq!(comment, "user@host");
    assert_eq!(key_type, "ED25519");
}

#[test]
fn test_parse_keygen_output_rsa() {
    let line = "4096 SHA256:xyz9876543210 deploy@prod.example.com (RSA)";
    let (bits, fp, comment, key_type) = parse_keygen_output(line).unwrap();
    assert_eq!(bits, "4096");
    assert_eq!(fp, "SHA256:xyz9876543210");
    assert_eq!(comment, "deploy@prod.example.com");
    assert_eq!(key_type, "RSA");
}

#[test]
fn test_parse_keygen_output_no_comment() {
    let line = "256 SHA256:fingerprint (ED25519)";
    let (bits, fp, comment, key_type) = parse_keygen_output(line).unwrap();
    assert_eq!(bits, "256");
    assert_eq!(fp, "SHA256:fingerprint");
    assert_eq!(comment, "");
    assert_eq!(key_type, "ED25519");
}

#[test]
fn test_parse_keygen_output_comment_with_spaces() {
    let line = "256 SHA256:fingerprint eko@MacBook Pro (ED25519)";
    let (bits, fp, comment, key_type) = parse_keygen_output(line).unwrap();
    assert_eq!(bits, "256");
    assert_eq!(fp, "SHA256:fingerprint");
    assert_eq!(comment, "eko@MacBook Pro");
    assert_eq!(key_type, "ED25519");
}

#[test]
fn test_parse_keygen_output_no_type_parens() {
    let line = "256 SHA256:fingerprint user@host";
    let (bits, fp, comment, key_type) = parse_keygen_output(line).unwrap();
    assert_eq!(bits, "256");
    assert_eq!(fp, "SHA256:fingerprint");
    assert_eq!(comment, "user@host");
    assert_eq!(key_type, "");
}

#[test]
fn test_parse_keygen_output_too_short() {
    assert!(parse_keygen_output("256 SHA256:fp").is_none());
    assert!(parse_keygen_output("").is_none());
}

#[test]
fn test_find_linked_hosts_display_path() {
    let hosts = vec![
        HostEntry {
            alias: "prod".to_string(),
            identity_file: "~/.ssh/id_ed25519".to_string(),
            ..Default::default()
        },
        HostEntry {
            alias: "staging".to_string(),
            identity_file: "~/.ssh/other_key".to_string(),
            ..Default::default()
        },
    ];
    let linked = find_linked_hosts("/home/user/.ssh/id_ed25519", "~/.ssh/id_ed25519", &hosts);
    assert_eq!(linked, vec!["prod"]);
}

#[test]
fn test_find_linked_hosts_full_path() {
    let hosts = vec![HostEntry {
        alias: "server".to_string(),
        identity_file: "/home/user/.ssh/deploy_key".to_string(),
        ..Default::default()
    }];
    let linked = find_linked_hosts("/home/user/.ssh/deploy_key", "~/.ssh/deploy_key", &hosts);
    assert_eq!(linked, vec!["server"]);
}

#[test]
fn test_find_linked_hosts_empty() {
    let hosts = vec![HostEntry {
        alias: "server".to_string(),
        identity_file: String::new(),
        ..Default::default()
    }];
    let linked = find_linked_hosts("/home/user/.ssh/id_rsa", "~/.ssh/id_rsa", &hosts);
    assert!(linked.is_empty());
}

#[test]
fn test_type_display() {
    let key = SshKeyInfo {
        name: "id_ed25519".to_string(),
        display_path: "~/.ssh/id_ed25519".to_string(),
        key_type: "ED25519".to_string(),
        bits: "256".to_string(),
        fingerprint: String::new(),
        comment: String::new(),
        linked_hosts: Vec::new(),
    };
    assert_eq!(key.type_display(), "ED25519 256");

    let key2 = SshKeyInfo { bits: String::new(), ..key };
    assert_eq!(key2.type_display(), "ED25519");
}

#[test]
fn linked_hosts_compare_paths_not_texts() {
    let hosts = vec![
        HostEntry {
            alias: "slashes".to_string(),
            identity_file: "/home/user//.ssh/key/".to_string(),
            ..Default::default()
        },
        HostEntry {
            alias: "other".to_string(),
            identity_file: "/home/user/.ssh/key2".to_string(),
            ..Default::default()
        },
    ];
    let linked = find_linked_hosts("/home/user/.ssh/key", "~/.ssh/key", &hosts);
    assert_eq!(linked, vec!["slashes"]);
}

#[test]
fn keygen_type_loses_every_closing_parenthesis() {
    let (_, _, comment, key_type) = parse_keygen_output("256 SHA256:fp  me (x) (RSA))").unwrap();
    assert_eq!(comment, "me (x)");
    assert_eq!(key_type, "RSA");
    let (bits, fp, comment, key_type) = parse_keygen_output("a b ").unwrap();
    assert_eq!((bits.as_str(), fp.as_str(), comment.as_str(), key_type.as_str()), ("a", "b", "", ""));
}
